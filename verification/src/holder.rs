use vstd::prelude::*;

use crate::domain::{
    acquired_index, after_acquire, guards, lemma_active_count_bound, lemma_active_count_update, records_slots, HazardPtrDomain,
};
use crate::ptr::HazardPtr;

verus! {

/// The outcome of one round of a protected load: the reader has published
/// the address it saw and has read the source again.
#[derive(Clone, Copy, Debug, PartialEq, Eq)]
pub enum LoadStep {
    /// The source still holds the published address: the load returns it,
    /// or `None` for the null address.
    Settled(Option<usize>),
    /// The source changed meanwhile: publish this address and read again.
    Retry(usize),
}

/// A reader's handle on one slot of a domain. It takes a slot the first time
/// it is used and keeps it until it is released.
pub struct HazardPtrHolder(Option<usize>);

impl HazardPtrHolder {
    /// The slot this holder owns, if it has taken one.
    pub closed spec fn slot(&self) -> Option<usize> {
        self.0
    }

    /// The holder's slot, if any, exists in `domain` and is active.
    pub open spec fn fits<D>(&self, domain: &HazardPtrDomain<D>) -> bool {
        match self.slot() {
            None => true,
            Some(i) => i < domain.slots().len() && domain.slots()[i as int].active,
        }
    }

    /// The slot this holder owns, if it has taken one.
    pub fn slot_index(&self) -> (i: Option<usize>)
        ensures
            i == self.slot(),
    {
        self.0
    }

    /// A holder that owns no slot yet.
    pub fn new() -> (h: Self)
        ensures
            h.slot() == None::<usize>,
    {
        HazardPtrHolder(None)
    }

    /// The holder's slot, taken from `domain` by an acquire if the holder
    /// has none yet.
    pub fn haz_ptr<D>(&mut self, domain: &mut HazardPtrDomain<D>) -> (i: usize)
        requires
            old(domain).wf(),
            old(self).fits(old(domain)),
        ensures
            final(domain).wf(),
            final(self).slot() == Some(i),
            final(self).fits(final(domain)),
            final(domain).retired() == old(domain).retired(),
            final(domain).retired_count() == old(domain).retired_count(),
            records_slots(*old(domain), *final(domain)),
            match old(self).slot() {
                Some(j) => i == j && final(domain).slots() == old(domain).slots(),
                None => i == acquired_index(old(domain).slots()) && final(domain).slots()
                    == after_acquire(old(domain).slots()),
            },
    {
        match self.0 {
            Some(i) => {
                proof {
                    lemma_active_count_bound(domain.slots());
                }
                i
            },
            None => {
                let i = domain.acquire();
                self.0 = Some(i);
                i
            },
        }
    }

    /// Publishes `ptr` in the holder's slot (taking a slot first if needed),
    /// so that no sweep of `domain` frees the object at `ptr` until the
    /// holder publishes something else.
    pub fn protect<D>(&mut self, domain: &mut HazardPtrDomain<D>, ptr: usize) -> (i: usize)
        requires
            old(domain).wf(),
            old(self).fits(old(domain)),
        ensures
            final(domain).wf(),
            final(self).slot() == Some(i),
            final(self).fits(final(domain)),
            final(domain).retired() == old(domain).retired(),
            final(domain).retired_count() == old(domain).retired_count(),
            records_slots(*old(domain), *final(domain)),
            match old(self).slot() {
                Some(j) => i == j && final(domain).slots() == old(domain).slots().update(
                    i as int,
                    HazardPtr { ptr: ptr, active: true },
                ),
                None => i == acquired_index(old(domain).slots()) && final(domain).slots()
                    == after_acquire(old(domain).slots()).update(
                    i as int,
                    HazardPtr { ptr: ptr, active: true },
                ),
            },
            guards(final(domain).slots()).contains(ptr),
    {
        let i = self.haz_ptr(domain);
        let ghost mid = domain.slots();
        domain.protect_slot(i, ptr);
        proof {
            lemma_active_count_update(mid, i as int, HazardPtr { ptr: ptr, active: true });
        }
        assert(final(domain).slots()[i as int].active);
        i
    }

    /// Decides a round of a protected load: `seen` is the address the reader
    /// published, `reread` what the source holds afterwards.
    pub fn load_step(seen: usize, reread: usize) -> (step: LoadStep)
        ensures
            step == if seen == reread {
                LoadStep::Settled(
                    if seen == 0 {
                        None
                    } else {
                        Some(seen)
                    },
                )
            } else {
                LoadStep::Retry(reread)
            },
    {
        if seen == reread {
            if seen == 0 {
                LoadStep::Settled(None)
            } else {
                LoadStep::Settled(Some(seen))
            }
        } else {
            LoadStep::Retry(reread)
        }
    }

    /// Stops publishing anything in the holder's slot; the holder keeps it.
    pub fn reset<D>(&mut self, domain: &mut HazardPtrDomain<D>)
        requires
            old(domain).wf(),
            old(self).fits(old(domain)),
        ensures
            final(domain).wf(),
            final(self).slot() == old(self).slot(),
            final(self).fits(final(domain)),
            final(domain).retired() == old(domain).retired(),
            final(domain).retired_count() == old(domain).retired_count(),
            records_slots(*old(domain), *final(domain)),
            final(domain).slots() == match old(self).slot() {
                Some(i) => old(domain).slots().update(i as int, HazardPtr { ptr: 0, active: true }),
                None => old(domain).slots(),
            },
    {
        if let Some(i) = self.0 {
            domain.clear_slot(i);
        } else {
            proof {
                lemma_active_count_bound(domain.slots());
            }
        }
    }

    /// Ends the holder: stops publishing and gives its slot back to `domain`,
    /// where the next acquire may take it.
    pub fn release<D>(self, domain: &mut HazardPtrDomain<D>)
        requires
            old(domain).wf(),
            self.fits(old(domain)),
        ensures
            final(domain).wf(),
            final(domain).retired() == old(domain).retired(),
            final(domain).retired_count() == old(domain).retired_count(),
            records_slots(*old(domain), *final(domain)),
            final(domain).slots() == match self.slot() {
                Some(i) => old(domain).slots().update(i as int, HazardPtr { ptr: 0, active: false }),
                None => old(domain).slots(),
            },
    {
        let mut me = self;
        me.reset(domain);
        if let Some(i) = me.0 {
            domain.deactivate_slot(i);
        }
    }
}

impl Default for HazardPtrHolder {
    /// A holder that owns no slot yet.
    fn default() -> (h: Self)
        ensures
            h.slot() == None::<usize>,
    {
        HazardPtrHolder(None)
    }
}

} // verus!
