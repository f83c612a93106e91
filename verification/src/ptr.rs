use vstd::prelude::*;

verus! {

/// One slot of a domain: the address it publishes (`0` for none) and whether
/// a holder currently owns it.
#[derive(Clone, Copy, Debug, PartialEq, Eq, Structural)]
pub struct HazardPtr {
    pub ptr: usize,
    pub active: bool,
}

impl HazardPtr {
    /// Publishes `ptr` in this slot, so that a sweep will not free it.
    pub fn protect(&mut self, ptr: usize)
        ensures
            final(self).ptr == ptr,
            final(self).active == old(self).active,
    {
        self.ptr = ptr;
    }
}

impl Default for HazardPtr {
    /// A free slot that publishes nothing.
    fn default() -> (slot: Self)
        ensures
            slot.ptr == 0,
            !slot.active,
    {
        HazardPtr { ptr: 0, active: false }
    }
}

} // verus!
