use vstd::prelude::*;

use crate::domain::{count_after_sweep, freed, guards, kept, records_retired, HazardPtrDomain, Retired};

verus! {

/// An object that is shared through hazard pointers and retired into a
/// domain once it is unlinked.
pub trait HazardPtrObject: Sized {
    /// Retires the object at address `me` into `domain`, to be deleted with
    /// `deleter` once no slot publishes it. Returns what the domain freed on
    /// the way, in the order in which those objects are to be deleted.
    fn retire<D>(domain: &mut HazardPtrDomain<D>, me: usize, deleter: D) -> (freed_now: Vec<
        Retired<D>,
    >)
        requires
            old(domain).wf(),
        ensures
            final(domain).wf(),
            records_retired(
                *old(domain),
                *final(domain),
                vstd::multiset::Multiset::singleton(Retired { ptr: me, deleter: deleter }),
                freed_now@,
            ),
            final(domain).slots() == old(domain).slots(),
            ({
                let s = old(domain).retired().push(Retired { ptr: me, deleter: deleter });
                let g = guards(old(domain).slots());
                let c = vstd::wrapping::usize_specs::wrapping_add(old(domain).retired_count(), 1);
                if c == 0 {
                    &&& freed_now@ == Seq::<Retired<D>>::empty()
                    &&& final(domain).retired() == s
                    &&& final(domain).retired_count() == c
                } else {
                    &&& freed_now@ == freed(s, g)
                    &&& final(domain).retired() == kept(s, g)
                    &&& final(domain).retired_count() == count_after_sweep(
                        c,
                        freed(s, g).len(),
                        kept(s, g).len(),
                    )
                }
            }),
            forall|i: int|
                0 <= i < freed_now@.len() ==> !guards(old(domain).slots()).contains(
                    #[trigger] freed_now@[i].ptr,
                ),
    {
        domain.retire(me, deleter)
    }
}

/// A value wrapped so that it can be shared through hazard pointers.
pub struct HazardPtrObjectWrapper<T> {
    inner: T,
}

impl<T> HazardPtrObject for HazardPtrObjectWrapper<T> {

}

impl<T> HazardPtrObjectWrapper<T> {
    /// The wrapped value.
    pub closed spec fn value(&self) -> T {
        self.inner
    }

    /// Wraps `t`.
    pub fn new_with_default(t: T) -> (w: Self)
        ensures
            w.value() == t,
    {
        HazardPtrObjectWrapper { inner: t }
    }

    /// The wrapped value, by reference.
    pub fn get(&self) -> (r: &T)
        ensures
            *r == self.value(),
    {
        &self.inner
    }

    /// The wrapped value, by mutable reference.
    pub fn get_mut(&mut self) -> (r: &mut T)
        ensures
            *r == old(self).value(),
            final(self).value() == *final(r),
    {
        &mut self.inner
    }

    /// Unwraps the value.
    pub fn into_inner(self) -> (t: T)
        ensures
            t == self.value(),
    {
        self.inner
    }
}

} // verus!
