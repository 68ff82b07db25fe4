//! A last-write-wins register.

use vstd::prelude::*;

verus! {

/// A register that keeps the value carrying the newest timestamp.
#[derive(Clone)]
pub struct LLWReg<Value> {
    /// The timestamp of the value held.
    pub time: u64,
    /// The value held.
    pub value: Value,
}

impl<Value> LLWReg<Value> {
    /// Write a value stamped with the given time: it replaces the held value
    /// only when its stamp is strictly newer.
    pub fn set(&mut self, value: Value, time: u64)
        ensures
            time > old(self).time ==> final(self).value == value,
            time <= old(self).time ==> final(self).value == old(self).value,
            final(self).time == old(self).time,
    {
        if time > self.time {
            self.value = value
        }
    }
}

} // verus!
