use vstd::prelude::*;

verus! {

/// A stored value together with its heat counter.
pub(crate) struct CacheEntry<Value> {
    pub(crate) val: Value,
    pub(crate) heat: u64,
}

impl<Value> CacheEntry<Value> {
    /// A fresh entry starts with a heat of one.
    pub(crate) fn new(val: Value) -> (e: CacheEntry<Value>)
        ensures
            e.val == val,
            e.heat == 1,
    {
        CacheEntry { val: val, heat: 1 }
    }

    /// Raises the heat by one, saturating at `max_heat`; returns the new heat.
    pub(crate) fn inc(&mut self, max_heat: u64) -> (h: u64)
        requires
            old(self).heat <= max_heat,
        ensures
            final(self).val == old(self).val,
            final(self).heat == if old(self).heat < max_heat { old(self).heat + 1 } else { max_heat as int },
            h == final(self).heat,
    {
        if self.heat < max_heat {
            self.heat = self.heat + 1;
        }
        self.heat
    }

    /// Lowers the heat by one, saturating at zero; returns the new heat.
    pub(crate) fn dec(&mut self) -> (h: u64)
        ensures
            final(self).val == old(self).val,
            final(self).heat == if old(self).heat == 0 { 0 } else { old(self).heat - 1 },
            h == final(self).heat,
    {
        if self.heat > 0 {
            self.heat = self.heat - 1;
        }
        self.heat
    }
}

} // verus!
