use vstd::prelude::*;

verus! {

/// The gradients arriving on the input slots of one node; an empty slot has
/// received nothing yet.
pub struct InputBuffer {
    pub slots: Vec<Option<i64>>,
}

/// The value of a slot once the buffer is consumed: an empty slot counts as zero.
pub open spec fn slot_value(s: Option<i64>) -> i64 {
    match s {
        Some(v) => v,
        None => 0,
    }
}

impl InputBuffer {
    pub fn new(size: usize) -> (r: InputBuffer)
        ensures
            r.slots@ == Seq::new(size as nat, |i: int| None::<i64>),
    {
        let mut slots: Vec<Option<i64>> = Vec::new();
        let mut k: usize = 0;
        while k < size
            invariant
                k <= size,
                slots@ == Seq::new(k as nat, |i: int| None::<i64>),
            decreases size - k,
        {
            slots.push(None);
            k = k + 1;
        }
        InputBuffer { slots }
    }

    /// Accumulates `grad` into `slot`: stores it in an empty slot, adds it to a
    /// filled one. Fails, leaving the buffer as it was, when the slot does
    /// not exist or the sum does not fit in an `i64`.
    pub fn add(&mut self, slot: usize, grad: i64) -> (r: Result<(), ()>)
        ensures
            slot >= old(self).slots@.len() ==> r is Err && final(self).slots@ == old(self).slots@,
            slot < old(self).slots@.len() ==> match old(self).slots@[slot as int] {
                None => r is Ok && final(self).slots@ == old(self).slots@.update(slot as int, Some(grad)),
                Some(v) => if i64::MIN <= v + grad <= i64::MAX {
                    r is Ok && final(self).slots@ == old(self).slots@.update(
                        slot as int,
                        Some((v + grad) as i64),
                    )
                } else {
                    r is Err && final(self).slots@ == old(self).slots@
                },
            },
    {
        if slot >= self.slots.len() {
            return Err(());
        }
        match self.slots[slot] {
            None => {
                self.slots.set(slot, Some(grad));
                Ok(())
            },
            Some(v) => match v.checked_add(grad) {
                Some(s) => {
                    self.slots.set(slot, Some(s));
                    Ok(())
                },
                None => Err(()),
            },
        }
    }

    /// Whether every slot holds a gradient.
    pub fn is_full(&self) -> (r: bool)
        ensures
            r == forall|i: int| 0 <= i < self.slots@.len() ==> (#[trigger] self.slots@[i]) is Some,
    {
        let mut k: usize = 0;
        while k < self.slots.len()
            invariant
                k <= self.slots@.len(),
                forall|i: int| 0 <= i < k ==> (#[trigger] self.slots@[i]) is Some,
            decreases self.slots@.len() - k,
        {
            if self.slots[k].is_none() {
                return false;
            }
            k = k + 1;
        }
        true
    }

    /// Consumes the buffer into one gradient per slot, empty slots as zero.
    pub fn variables(self) -> (r: Vec<i64>)
        ensures
            r@ == self.slots@.map_values(|s: Option<i64>| slot_value(s)),
    {
        let mut out: Vec<i64> = Vec::new();
        let mut k: usize = 0;
        while k < self.slots.len()
            invariant
                k <= self.slots@.len(),
                out@ == self.slots@.take(k as int).map_values(|s: Option<i64>| slot_value(s)),
            decreases self.slots@.len() - k,
        {
            let v: i64 = match self.slots[k] {
                Some(v) => v,
                None => 0,
            };
            out.push(v);
            k = k + 1;
            assert(self.slots@.take(k as int) == self.slots@.take(k - 1).push(self.slots@[k - 1]));
        }
        assert(self.slots@.take(self.slots@.len() as int) == self.slots@);
        out
    }
}

} // verus!
