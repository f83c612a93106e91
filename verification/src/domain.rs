use vstd::prelude::*;
use std::collections::HashSet;

use crate::ptr::HazardPtr;

verus! {

/// An object handed to a domain for deferred deletion: its address, and
/// whatever the caller needs to delete it once no slot publishes it.
pub struct Retired<D> {
    pub ptr: usize,
    pub deleter: D,
}

impl<D> Retired<D> {
    pub fn new(ptr: usize, deleter: D) -> (r: Self)
        ensures
            r.ptr == ptr,
            r.deleter == deleter,
    {
        Retired { ptr, deleter }
    }
}

/// What a sweep tells its caller to do next.
#[derive(Clone, Copy, Debug, PartialEq, Eq, Structural)]
pub enum SweepOutcome {
    /// The sweep is over; the number it reports.
    Finished(usize),
    /// Some objects are still published and the caller asked to block: it
    /// should let other threads run and sweep again with this count.
    Again(usize),
}

/// The result of one sweep: the objects it reclaimed, in the order in which
/// they are to be deleted, and what comes next.
pub struct Sweep<D> {
    pub freed: Vec<Retired<D>>,
    pub outcome: SweepOutcome,
}

/// The slots that readers publish addresses in, and the list of retired
/// objects that wait for deletion.
///
/// Slots are never removed: a slot's index names it for as long as the domain
/// lives. The newest slot has the highest index and is visited first.
/// The retired list is stored oldest first: its last element is the head of
/// the list, the one a sweep visits first.
pub struct HazardPtrDomain<D> {
    hazptrs: Vec<HazardPtr>,
    retired: Vec<Retired<D>>,
    count: usize,
    /// The most slots that have been active at once.
    peak: Ghost<nat>,
    /// Every object ever retired into this domain.
    ever_retired: Ghost<vstd::multiset::Multiset<Retired<D>>>,
    /// Every object this domain ever freed.
    ever_freed: Ghost<vstd::multiset::Multiset<Retired<D>>>,
    /// Whether the retired counter has ever wrapped around the machine word.
    wrapped: Ghost<bool>,
}

/// The addresses that some active slot publishes.
pub open spec fn guards(slots: Seq<HazardPtr>) -> Set<usize> {
    Set::new(
        |p: usize|
            exists|j: int| 0 <= j < slots.len() && (#[trigger] slots[j]).active && slots[j].ptr == p,
    )
}

/// The retired objects of `s` that a sweep under guards `g` keeps, in the
/// order of the retired list after the sweep (oldest first). A sweep visits
/// `s` from its last element down to its first.
pub open spec fn kept<D>(s: Seq<Retired<D>>, g: Set<usize>) -> Seq<Retired<D>>
    decreases s.len(),
{
    if s.len() == 0 {
        Seq::empty()
    } else {
        let rest = kept(s.drop_last(), g);
        if g.contains(s.last().ptr) {
            seq![s.last()] + rest
        } else {
            rest
        }
    }
}

/// The retired objects of `s` that a sweep under guards `g` frees, in the
/// order in which it frees them (the last element of `s` first).
pub open spec fn freed<D>(s: Seq<Retired<D>>, g: Set<usize>) -> Seq<Retired<D>>
    decreases s.len(),
{
    if s.len() == 0 {
        Seq::empty()
    } else {
        let rest = freed(s.drop_last(), g);
        if g.contains(s.last().ptr) {
            rest
        } else {
            seq![s.last()] + rest
        }
    }
}

/// The retired counter after a sweep that frees `n_freed` objects and puts
/// `n_kept` back: it is lowered by the number freed and raised by one when
/// anything is put back, both modulo the machine word.
pub open spec fn count_after_sweep(count: usize, n_freed: nat, n_kept: nat) -> usize {
    let lowered = vstd::wrapping::usize_specs::wrapping_sub(count, n_freed as usize);
    if n_kept == 0 {
        lowered
    } else {
        vstd::wrapping::usize_specs::wrapping_add(lowered, 1)
    }
}

/// The number of active slots.
pub open spec fn active_count(s: Seq<HazardPtr>) -> nat
    decreases s.len(),
{
    if s.len() == 0 {
        0
    } else {
        active_count(s.drop_last()) + if s.last().active {
            1nat
        } else {
            0nat
        }
    }
}

/// The most slots active at once, once `s` is the new state of the slots.
pub open spec fn next_peak(peak: nat, s: Seq<HazardPtr>) -> nat {
    if active_count(s) > peak {
        active_count(s)
    } else {
        peak
    }
}

/// Replacing one slot changes the active count by that slot alone.
pub proof fn lemma_active_count_update(s: Seq<HazardPtr>, i: int, x: HazardPtr)
    requires
        0 <= i < s.len(),
    ensures
        active_count(s.update(i, x)) + (if s[i].active {
            1int
        } else {
            0int
        }) == active_count(s) + (if x.active {
            1int
        } else {
            0int
        }),
    decreases s.len(),
{
    if i == s.len() - 1 {
        assert(s.update(i, x).drop_last() =~= s.drop_last());
    } else {
        lemma_active_count_update(s.drop_last(), i, x);
        assert(s.update(i, x).drop_last() =~= s.drop_last().update(i, x));
    }
}

/// Adding a slot at the end counts it if it is active.
pub proof fn lemma_active_count_push(s: Seq<HazardPtr>, x: HazardPtr)
    ensures
        active_count(s.push(x)) == active_count(s) + if x.active {
            1nat
        } else {
            0nat
        },
{
    assert(s.push(x).drop_last() =~= s);
}

/// At most every slot is active; fewer when slot `j` is not.
pub proof fn lemma_active_count_bound(s: Seq<HazardPtr>)
    ensures
        active_count(s) <= s.len(),
        (forall|j: int| 0 <= j < s.len() ==> (#[trigger] s[j]).active) ==> active_count(s) == s.len(),
        (exists|j: int| 0 <= j < s.len() && !(#[trigger] s[j]).active) ==> active_count(s) < s.len(),
    decreases s.len(),
{
    if s.len() > 0 {
        let t = s.drop_last();
        lemma_active_count_bound(t);
        assert forall|j: int| 0 <= j < t.len() implies t[j] == s[j] by {}
        if exists|j: int| 0 <= j < s.len() && !(#[trigger] s[j]).active {
            let j = choose|j: int| 0 <= j < s.len() && !(#[trigger] s[j]).active;
            if j < s.len() - 1 {
                assert(!t[j].active);
            }
        }
    }
}

/// The newest free slot: the highest index whose slot is not active.
pub open spec fn free_slot(s: Seq<HazardPtr>) -> Option<int>
    decreases s.len(),
{
    if s.len() == 0 {
        None
    } else if !s.last().active {
        Some(s.len() - 1)
    } else {
        free_slot(s.drop_last())
    }
}

/// The slot that an acquire hands out: the newest free one, or a new one.
pub open spec fn acquired_index(s: Seq<HazardPtr>) -> int {
    match free_slot(s) {
        Some(i) => i,
        None => s.len() as int,
    }
}

/// The slots after an acquire: the newest free slot turns active, or a new
/// active slot that publishes nothing is added.
pub open spec fn after_acquire(s: Seq<HazardPtr>) -> Seq<HazardPtr> {
    match free_slot(s) {
        Some(i) => s.update(i, HazardPtr { ptr: s[i].ptr, active: true }),
        None => s.push(HazardPtr { ptr: 0, active: true }),
    }
}

/// A free slot is the highest-indexed inactive slot; when there is none, all
/// slots are active.
pub proof fn lemma_free_slot(s: Seq<HazardPtr>)
    ensures
        match free_slot(s) {
            Some(i) => {
                &&& 0 <= i < s.len()
                &&& !s[i].active
                &&& forall|j: int| i < j < s.len() ==> (#[trigger] s[j]).active
            },
            None => forall|j: int| 0 <= j < s.len() ==> (#[trigger] s[j]).active,
        },
    decreases s.len(),
{
    if s.len() > 0 {
        lemma_free_slot(s.drop_last());
        if s.last().active {
            assert forall|j: int| 0 <= j < s.len() - 1 implies s[j] == s.drop_last()[j] by {}
        }
    }
}

/// A sweep frees only objects that no active slot publishes.
pub proof fn lemma_freed_unguarded<D>(s: Seq<Retired<D>>, g: Set<usize>)
    ensures
        forall|i: int| 0 <= i < freed(s, g).len() ==> !g.contains(#[trigger] freed(s, g)[i].ptr),
    decreases s.len(),
{
    if s.len() > 0 {
        lemma_freed_unguarded(s.drop_last(), g);
        let rest = freed(s.drop_last(), g);
        if !g.contains(s.last().ptr) {
            assert forall|i: int| 0 <= i < freed(s, g).len() implies !g.contains(
                #[trigger] freed(s, g)[i].ptr,
            ) by {
                if i > 0 {
                    assert(freed(s, g)[i] == rest[i - 1]);
                }
            }
        }
    }
}

/// Everything a sweep keeps is published by some active slot.
pub proof fn lemma_kept_guarded<D>(s: Seq<Retired<D>>, g: Set<usize>)
    ensures
        forall|i: int| 0 <= i < kept(s, g).len() ==> g.contains(#[trigger] kept(s, g)[i].ptr),
    decreases s.len(),
{
    if s.len() > 0 {
        lemma_kept_guarded(s.drop_last(), g);
        let rest = kept(s.drop_last(), g);
        if g.contains(s.last().ptr) {
            assert forall|i: int| 0 <= i < kept(s, g).len() implies g.contains(
                #[trigger] kept(s, g)[i].ptr,
            ) by {
                if i > 0 {
                    assert(kept(s, g)[i] == rest[i - 1]);
                }
            }
        }
    }
}

/// A sweep neither loses nor duplicates a retired object: what it frees and
/// what it keeps are, together, exactly what was retired.
pub proof fn lemma_sweep_conserves<D>(s: Seq<Retired<D>>, g: Set<usize>)
    ensures
        s.to_multiset() =~= freed(s, g).to_multiset().add(kept(s, g).to_multiset()),
        freed(s, g).len() + kept(s, g).len() == s.len(),
    decreases s.len(),
{
    broadcast use vstd::seq_lib::group_to_multiset_ensures;
    broadcast use vstd::multiset::group_multiset_axioms;

    if s.len() > 0 {
        let x = s.last();
        lemma_sweep_conserves(s.drop_last(), g);
        assert(s.drop_last().push(x) =~= s);
        vstd::seq_lib::lemma_multiset_commutative(seq![x], kept(s.drop_last(), g));
        vstd::seq_lib::lemma_multiset_commutative(seq![x], freed(s.drop_last(), g));
        assert(seq![x].to_multiset() =~= vstd::multiset::Multiset::empty().insert(x)) by {
            assert(Seq::<Retired<D>>::empty().push(x) =~= seq![x]);
        }
    }
}

/// An object whose address an active slot publishes is never freed by a
/// sweep: it stays on the retired list.
pub proof fn lemma_protected_not_freed<D>(slots: Seq<HazardPtr>, s: Seq<Retired<D>>, i: int)
    requires
        0 <= i < slots.len(),
        slots[i].active,
    ensures
        forall|k: int|
            0 <= k < freed(s, guards(slots)).len() ==> (#[trigger] freed(s, guards(slots))[k]).ptr
                != slots[i].ptr,
{
    assert(guards(slots).contains(slots[i].ptr));
    lemma_freed_unguarded(s, guards(slots));
}

/// When no retired object is published, a sweep frees all of them, the
/// newest first, and keeps none.
pub proof fn lemma_unguarded_sweep_frees_all<D>(s: Seq<Retired<D>>, g: Set<usize>)
    requires
        forall|k: int| 0 <= k < s.len() ==> !g.contains(#[trigger] s[k].ptr),
    ensures
        kept(s, g) == Seq::<Retired<D>>::empty(),
        freed(s, g) == s.reverse(),
    decreases s.len(),
{
    if s.len() > 0 {
        let t = s.drop_last();
        assert forall|k: int| 0 <= k < t.len() implies !g.contains(#[trigger] t[k].ptr) by {
            assert(t[k] == s[k]);
        }
        lemma_unguarded_sweep_frees_all(t, g);
        assert(!g.contains(s[s.len() - 1].ptr));
        assert(freed(s, g) =~= s.reverse());
    }
}

/// When every retired object is published, a sweep frees nothing; the list
/// comes back in the opposite order.
pub proof fn lemma_guarded_sweep_keeps_all<D>(s: Seq<Retired<D>>, g: Set<usize>)
    requires
        forall|k: int| 0 <= k < s.len() ==> g.contains(#[trigger] s[k].ptr),
    ensures
        freed(s, g) == Seq::<Retired<D>>::empty(),
        kept(s, g) == s.reverse(),
    decreases s.len(),
{
    if s.len() > 0 {
        let t = s.drop_last();
        assert forall|k: int| 0 <= k < t.len() implies g.contains(#[trigger] t[k].ptr) by {
            assert(t[k] == s[k]);
        }
        lemma_guarded_sweep_keeps_all(t, g);
        assert(g.contains(s[s.len() - 1].ptr));
        assert(kept(s, g) =~= s.reverse());
    }
}

/// A second sweep under the same slots frees nothing: the first one already
/// freed everything it could.
pub proof fn lemma_second_sweep_frees_nothing<D>(s: Seq<Retired<D>>, g: Set<usize>)
    ensures
        freed(kept(s, g), g) == Seq::<Retired<D>>::empty(),
{
    lemma_kept_guarded(s, g);
    lemma_guarded_sweep_keeps_all(kept(s, g), g);
}

/// An address is guarded exactly when some active slot publishes it.
pub proof fn lemma_guards_exact(slots: Seq<HazardPtr>, p: usize)
    ensures
        guards(slots).contains(p) <==> exists|j: int|
            0 <= j < slots.len() && (#[trigger] slots[j]).active && slots[j].ptr == p,
{
}

/// A sweep frees every retired object whose address is not guarded, and
/// keeps every one whose address is.
pub proof fn lemma_sweep_sorts_each<D>(s: Seq<Retired<D>>, g: Set<usize>, k: int)
    requires
        0 <= k < s.len(),
    ensures
        !g.contains(s[k].ptr) ==> freed(s, g).contains(s[k]),
        g.contains(s[k].ptr) ==> kept(s, g).contains(s[k]),
    decreases s.len(),
{
    let x = s.last();
    if k == s.len() - 1 {
        if g.contains(x.ptr) {
            assert(kept(s, g)[0] == x);
        } else {
            assert(freed(s, g)[0] == x);
        }
    } else {
        let t = s.drop_last();
        assert(t[k] == s[k]);
        lemma_sweep_sorts_each(t, g, k);
        if !g.contains(s[k].ptr) {
            let i = choose|i: int| 0 <= i < freed(t, g).len() && freed(t, g)[i] == s[k];
            if !g.contains(x.ptr) {
                assert(freed(s, g)[i + 1] == s[k]);
            } else {
                assert(freed(s, g)[i] == s[k]);
            }
        } else {
            let i = choose|i: int| 0 <= i < kept(t, g).len() && kept(t, g)[i] == s[k];
            if g.contains(x.ptr) {
                assert(kept(s, g)[i + 1] == s[k]);
            } else {
                assert(kept(s, g)[i] == s[k]);
            }
        }
    }
}

/// An acquire leaves every slot but the one it hands out as it was, marks that
/// one active, and adds a slot only at the end, when every slot is active.
pub proof fn lemma_acquire_frame(s: Seq<HazardPtr>)
    ensures
        0 <= acquired_index(s) <= s.len(),
        acquired_index(s) < s.len() ==> !s[acquired_index(s)].active,
        forall|k: int| acquired_index(s) < k < s.len() ==> (#[trigger] s[k]).active,
        acquired_index(s) == s.len() ==> forall|k: int| 0 <= k < s.len() ==> (#[trigger] s[k]).active,
        after_acquire(s).len() == if acquired_index(s) < s.len() {
            s.len()
        } else {
            s.len() + 1
        },
        forall|k: int|
            0 <= k < s.len() && k != acquired_index(s) ==> #[trigger] after_acquire(s)[k] == s[k],
        after_acquire(s)[acquired_index(s)].active,
        acquired_index(s) < s.len() ==> after_acquire(s)[acquired_index(s)].ptr == s[acquired_index(s)].ptr,
        acquired_index(s) == s.len() ==> after_acquire(s)[acquired_index(s)].ptr == 0,
{
    lemma_free_slot(s);
}

/// Lowering the retired counter by the number freed is plain subtraction when
/// the counter is at least that number; putting objects back then raises it by
/// exactly one, unless it stands at the largest word.
pub proof fn lemma_count_after_sweep_exact(c: usize, n: nat, k: nat)
    requires
        n <= c,
    ensures
        k == 0 ==> count_after_sweep(c, n, k) == c - n,
        k > 0 && c - n < usize::MAX ==> count_after_sweep(c, n, k) == c - n + 1,
        k > 0 && c - n == usize::MAX ==> count_after_sweep(c, n, k) == 0,
{
}

/// An address is guarded exactly when the slots hold an active slot that
/// publishes it.
pub proof fn lemma_guards_contains(slots: Seq<HazardPtr>, p: usize)
    ensures
        guards(slots).contains(p) <==> slots.contains(HazardPtr { ptr: p, active: true }),
{
    if guards(slots).contains(p) {
        let j = choose|j: int| 0 <= j < slots.len() && (#[trigger] slots[j]).active && slots[j].ptr == p;
        assert(slots[j] == HazardPtr { ptr: p, active: true });
    }
    if slots.contains(HazardPtr { ptr: p, active: true }) {
        let j = choose|j: int| 0 <= j < slots.len() && slots[j] == HazardPtr { ptr: p, active: true };
        assert(slots[j].active && slots[j].ptr == p);
    }
}

/// What a sweep does, told by publication alone: an object is freed exactly
/// when no active slot publishes its address, and kept exactly when one does.
pub proof fn lemma_sweep_by_publication<D>(slots: Seq<HazardPtr>, s: Seq<Retired<D>>)
    ensures
        forall|k: int|
            0 <= k < s.len() && !freed(s, guards(slots)).contains(#[trigger] s[k]) ==> slots.contains(
                HazardPtr { ptr: s[k].ptr, active: true },
            ),
        forall|k: int|
            0 <= k < s.len() && !kept(s, guards(slots)).contains(#[trigger] s[k]) ==> !slots.contains(
                HazardPtr { ptr: s[k].ptr, active: true },
            ),
        forall|i: int|
            0 <= i < freed(s, guards(slots)).len() ==> !slots.contains(
                HazardPtr { ptr: (#[trigger] freed(s, guards(slots))[i]).ptr, active: true },
            ),
        forall|i: int|
            0 <= i < kept(s, guards(slots)).len() ==> slots.contains(
                HazardPtr { ptr: (#[trigger] kept(s, guards(slots))[i]).ptr, active: true },
            ),
{
    let g = guards(slots);
    lemma_freed_unguarded(s, g);
    lemma_kept_guarded(s, g);
    assert forall|k: int| 0 <= k < s.len() implies (!g.contains(s[k].ptr) ==> freed(s, g).contains(
        s[k],
    )) && (g.contains(s[k].ptr) ==> kept(s, g).contains(s[k])) && (g.contains(s[k].ptr)
        <==> slots.contains(HazardPtr { ptr: s[k].ptr, active: true })) by {
        lemma_sweep_sorts_each(s, g, k);
        lemma_guards_contains(slots, s[k].ptr);
    }
    assert forall|i: int| 0 <= i < freed(s, g).len() implies !slots.contains(
        HazardPtr { ptr: (#[trigger] freed(s, g)[i]).ptr, active: true },
    ) by {
        lemma_guards_contains(slots, freed(s, g)[i].ptr);
    }
    assert forall|i: int| 0 <= i < kept(s, g).len() implies slots.contains(
        HazardPtr { ptr: (#[trigger] kept(s, g)[i]).ptr, active: true },
    ) by {
        lemma_guards_contains(slots, kept(s, g)[i].ptr);
    }
}

/// Whether a retired object is published under guards `g`.
pub open spec fn guarded_by<D>(g: Set<usize>) -> spec_fn(Retired<D>) -> bool {
    |r: Retired<D>| g.contains(r.ptr)
}

/// Whether a retired object is not published under guards `g`.
pub open spec fn unguarded_by<D>(g: Set<usize>) -> spec_fn(Retired<D>) -> bool {
    |r: Retired<D>| !g.contains(r.ptr)
}

/// What a sweep frees is the unpublished part of the retired list, newest
/// first; what it keeps is the published part, newest first.
pub proof fn lemma_sweep_is_filter<D>(s: Seq<Retired<D>>, g: Set<usize>)
    ensures
        freed(s, g) == s.filter(unguarded_by::<D>(g)).reverse(),
        kept(s, g) == s.filter(guarded_by::<D>(g)).reverse(),
    decreases s.len(),
{
    reveal(Seq::filter);
    if s.len() > 0 {
        let x = s.last();
        lemma_sweep_is_filter(s.drop_last(), g);
        let fu = s.drop_last().filter(unguarded_by::<D>(g));
        let fg = s.drop_last().filter(guarded_by::<D>(g));
        assert(fu.push(x).reverse() =~= seq![x] + fu.reverse());
        assert(fg.push(x).reverse() =~= seq![x] + fg.reverse());
        assert(freed(s, g) =~= s.filter(unguarded_by::<D>(g)).reverse());
        assert(kept(s, g) =~= s.filter(guarded_by::<D>(g)).reverse());
    }
}

/// Over any history of calls on a domain, no object has been freed more
/// often than it was retired: every deletion the domain orders is of an
/// object retired earlier, once per retirement.
pub proof fn lemma_never_freed_more_than_retired<D>(d: HazardPtrDomain<D>)
    requires
        d.wf(),
    ensures
        forall|r: Retired<D>| #[trigger] d.all_freed().count(r) <= d.all_retired().count(r),
{
    broadcast use vstd::multiset::group_multiset_axioms;

}

/// Over any history of calls on a domain, it holds exactly as many slots as
/// were ever active at once: a slot is added only when every slot is active.
pub proof fn lemma_slots_are_peak<D>(d: HazardPtrDomain<D>)
    requires
        d.wf(),
    ensures
        d.slots().len() == d.peak_active(),
        active_count(d.slots()) <= d.peak_active(),
{
    lemma_active_count_bound(d.slots());
}

/// A change of slots alone: the peak follows the new active count, nothing is
/// retired or freed, and no slot is removed.
pub open spec fn records_slots<D>(pre: HazardPtrDomain<D>, post: HazardPtrDomain<D>) -> bool {
    &&& post.peak_active() == next_peak(pre.peak_active(), post.slots())
    &&& post.all_retired() == pre.all_retired()
    &&& post.all_freed() == pre.all_freed()
    &&& pre.slots().len() <= post.slots().len()
    &&& post.counter_wrapped() == pre.counter_wrapped()
}

/// A change of the retired list alone: the slots and the peak stay, what was
/// ever retired grows by `retired_now`, what was ever freed by `freed_now`.
pub open spec fn records_retired<D>(
    pre: HazardPtrDomain<D>,
    post: HazardPtrDomain<D>,
    retired_now: vstd::multiset::Multiset<Retired<D>>,
    freed_now: Seq<Retired<D>>,
) -> bool {
    &&& post.slots() == pre.slots()
    &&& post.peak_active() == pre.peak_active()
    &&& post.all_retired() == pre.all_retired().add(retired_now)
    &&& post.all_freed() == pre.all_freed().add(freed_now.to_multiset())
}

proof fn lemma_empty_to_multiset<D>(s: Seq<Retired<D>>)
    requires
        s.len() == 0,
    ensures
        s.to_multiset() =~= vstd::multiset::Multiset::empty(),
{
    broadcast use vstd::multiset::group_multiset_axioms;
    broadcast use vstd::seq_lib::group_to_multiset_ensures;

}

impl<D> HazardPtrDomain<D> {
    /// The most slots that have been active at once.
    pub closed spec fn peak_active(&self) -> nat {
        self.peak@
    }

    /// Every object ever retired into the domain.
    pub closed spec fn all_retired(&self) -> vstd::multiset::Multiset<Retired<D>> {
        self.ever_retired@
    }

    /// Every object the domain ever freed.
    pub closed spec fn all_freed(&self) -> vstd::multiset::Multiset<Retired<D>> {
        self.ever_freed@
    }

    /// The slots, in the order of their indices.
    pub closed spec fn slots(&self) -> Seq<HazardPtr> {
        self.hazptrs@
    }

    /// The retired list, oldest first.
    pub closed spec fn retired(&self) -> Seq<Retired<D>> {
        self.retired@
    }

    /// The retired counter.
    pub closed spec fn retired_count(&self) -> usize {
        self.count
    }

    /// A slot that no holder owns publishes nothing; there are as many slots
    /// as were ever active at once; everything ever retired has been freed or
    /// is still on the list.
    pub open spec fn wf(&self) -> bool {
        &&& forall|i: int| 0 <= i < self.slots().len() && !(#[trigger] self.slots()[i]).active
            ==> self.slots()[i].ptr == 0
        &&& self.slots().len() == self.peak_active()
        &&& self.all_retired() == self.all_freed().add(self.retired().to_multiset())
        &&& !self.counter_wrapped() ==> self.retired().len() <= self.retired_count()
    }

    /// Whether the retired counter has ever wrapped around the machine word.
    pub closed spec fn counter_wrapped(&self) -> bool {
        self.wrapped@
    }

    /// An empty domain: no slots, nothing retired.
    pub fn new() -> (d: Self)
        ensures
            d.wf(),
            d.slots() == Seq::<HazardPtr>::empty(),
            d.retired() == Seq::<Retired<D>>::empty(),
            d.retired_count() == 0,
            d.peak_active() == 0,
            d.all_retired() == vstd::multiset::Multiset::<Retired<D>>::empty(),
            d.all_freed() == vstd::multiset::Multiset::<Retired<D>>::empty(),
            !d.counter_wrapped(),
    {
        let d = HazardPtrDomain {
            hazptrs: Vec::new(),
            retired: Vec::new(),
            count: 0,
            peak: Ghost(0),
            ever_retired: Ghost(vstd::multiset::Multiset::empty()),
            ever_freed: Ghost(vstd::multiset::Multiset::empty()),
            wrapped: Ghost(false),
        };
        proof {
            broadcast use vstd::multiset::group_multiset_axioms;
            broadcast use vstd::seq_lib::group_to_multiset_ensures;

            assert(d.retired@.to_multiset() =~= vstd::multiset::Multiset::empty());
            assert(d.all_retired() =~= d.all_freed().add(d.retired().to_multiset()));
        }
        d
    }

    /// The addresses published by active slots, gathered from the newest
    /// slot to the oldest.
    fn guarded_addresses(&self) -> (set: HashSet<usize>)
        ensures
            set@ == guards(self.slots()),
    {
        let mut set: HashSet<usize> = HashSet::new();
        let mut i: usize = self.hazptrs.len();
        while i > 0
            invariant
                i <= self.hazptrs@.len(),
                forall|p: usize|
                    set@.contains(p) <==> exists|j: int|
                        i <= j < self.hazptrs@.len() && (#[trigger] self.hazptrs@[j]).active
                            && self.hazptrs@[j].ptr == p,
            decreases i,
        {
            i = i - 1;
            let node = self.hazptrs[i];
            if node.active {
                set.insert(node.ptr);
            }
            assert forall|p: usize|
                (exists|j: int|
                    i <= j < self.hazptrs@.len() && (#[trigger] self.hazptrs@[j]).active
                        && self.hazptrs@[j].ptr == p) implies set@.contains(p) by {
                let j = choose|j: int|
                    i <= j < self.hazptrs@.len() && (#[trigger] self.hazptrs@[j]).active
                        && self.hazptrs@[j].ptr == p;
            }
        }
        assert(set@ =~= guards(self.slots()));
        set
    }

    /// One sweep over the retired list. It takes the whole list, frees every
    /// object whose address no active slot publishes, and puts the others
    /// back. `prev_reclaimed` is the count carried over from an earlier sweep
    /// of the same blocking reclaim; `block` asks for another sweep while
    /// anything stays retired.
    pub fn bulk_reclaim(&mut self, prev_reclaimed: usize, block: bool) -> (sweep: Sweep<D>)
        requires
            old(self).wf(),
            prev_reclaimed + freed(old(self).retired(), guards(old(self).slots())).len()
                <= usize::MAX,
        ensures
            final(self).slots() == old(self).slots(),
            ({
                let s = old(self).retired();
                let g = guards(old(self).slots());
                let n = freed(s, g).len();
                if s.len() == 0 {
                    &&& sweep.freed@ == Seq::<Retired<D>>::empty()
                    &&& sweep.outcome == SweepOutcome::Finished(0)
                    &&& final(self).retired() == s
                    &&& final(self).retired_count() == old(self).retired_count()
                } else {
                    &&& sweep.freed@ == freed(s, g)
                    &&& final(self).retired() == kept(s, g)
                    &&& final(self).retired_count() == count_after_sweep(
                        old(self).retired_count(),
                        n,
                        kept(s, g).len(),
                    )
                    &&& sweep.outcome == if kept(s, g).len() == 0 {
                        SweepOutcome::Finished((prev_reclaimed + n) as usize)
                    } else if block {
                        SweepOutcome::Again(n as usize)
                    } else {
                        SweepOutcome::Finished(n as usize)
                    }
                }
            }),
            forall|i: int|
                0 <= i < sweep.freed@.len() ==> !guards(old(self).slots()).contains(
                    #[trigger] sweep.freed@[i].ptr,
                ),
            forall|i: int|
                0 <= i < final(self).retired().len() ==> guards(old(self).slots()).contains(
                    #[trigger] final(self).retired()[i].ptr,
                ),
            old(self).retired().to_multiset() == sweep.freed@.to_multiset().add(
                final(self).retired().to_multiset(),
            ),
            final(self).wf(),
            forall|k: int|
                0 <= k < old(self).retired().len() && !sweep.freed@.contains(#[trigger] old(self).retired()[k]) ==> old(self).slots().contains(
                    HazardPtr { ptr: old(self).retired()[k].ptr, active: true },
                ),
            forall|k: int|
                0 <= k < old(self).retired().len() && !final(self).retired().contains(#[trigger] old(self).retired()[k]) ==> !old(self).slots().contains(
                    HazardPtr { ptr: old(self).retired()[k].ptr, active: true },
                ),
            forall|i: int|
                0 <= i < sweep.freed@.len() ==> !old(self).slots().contains(
                    HazardPtr { ptr: (#[trigger] sweep.freed@[i]).ptr, active: true },
                ),
            forall|i: int|
                0 <= i < final(self).retired().len() ==> old(self).slots().contains(
                    HazardPtr { ptr: (#[trigger] final(self).retired()[i]).ptr, active: true },
                ),
            ({
                let c = old(self).retired_count();
                let n = sweep.freed@.len();
                let k = final(self).retired().len();
                &&& old(self).retired().len() > 0 && n <= c ==> (k == 0 ==> final(self).retired_count()
                    == c - n) && (k > 0 && c - n < usize::MAX ==> final(self).retired_count() == c - n
                    + 1)
                &&& final(self).counter_wrapped() == (old(self).counter_wrapped() || (
                old(self).retired().len() > 0 && (n > c || (k > 0 && c - n == usize::MAX))))
            }),
            records_retired(
                *old(self),
                *final(self),
                vstd::multiset::Multiset::empty(),
                sweep.freed@,
            ),
    {
        let ghost s = self.retired@;
        let ghost g = guards(self.hazptrs@);
        proof {
            lemma_freed_unguarded(s, g);
            lemma_kept_guarded(s, g);
            lemma_sweep_conserves(s, g);
            lemma_sweep_by_publication(self.hazptrs@, s);
        }
        let mut stolen: Vec<Retired<D>> = Vec::new();
        std::mem::swap(&mut stolen, &mut self.retired);
        if stolen.len() == 0 {
            // nothing was retired: the list stays empty
            assert(self.retired@ =~= s);
            let none: Vec<Retired<D>> = Vec::new();
            self.ever_freed = Ghost(self.ever_freed@.add(none@.to_multiset()));
            proof {
                broadcast use vstd::multiset::group_multiset_axioms;

                lemma_empty_to_multiset(none@);
                assert(self.ever_freed@ =~= old(self).ever_freed@);
                assert(self.ever_retired@ =~= old(self).ever_retired@.add(
                    vstd::multiset::Multiset::empty(),
                ));
            }
            return Sweep { freed: none, outcome: SweepOutcome::Finished(0) };
        }
        let guarded = self.guarded_addresses();
        let mut remaining: Vec<Retired<D>> = Vec::new();
        let mut reclaimed: Vec<Retired<D>> = Vec::new();
        assert(kept(s, g) =~= remaining@ + kept(stolen@, g));
        assert(freed(s, g) =~= reclaimed@ + freed(stolen@, g));
        while stolen.len() > 0
            invariant
                guarded@ == g,
                kept(s, g) == remaining@ + kept(stolen@, g),
                freed(s, g) == reclaimed@ + freed(stolen@, g),
            decreases stolen@.len(),
        {
            let ghost before = stolen@;
            if let Some(node) = stolen.pop() {
                assert(before.drop_last() =~= stolen@);
                if guarded.contains(&node.ptr) {
                    // still published: keep it
                    remaining.push(node);
                    assert(kept(s, g) =~= remaining@ + kept(stolen@, g));
                } else {
                    reclaimed.push(node);
                    assert(freed(s, g) =~= reclaimed@ + freed(stolen@, g));
                }
            }
        }
        assert(remaining@ =~= kept(s, g));
        assert(reclaimed@ =~= freed(s, g));
        let n = reclaimed.len();
        let ghost c0 = self.count;
        self.ever_freed = Ghost(self.ever_freed@.add(reclaimed@.to_multiset()));
        proof {
            broadcast use vstd::multiset::group_multiset_axioms;

            assert(self.ever_retired@ =~= old(self).ever_retired@.add(
                vstd::multiset::Multiset::empty(),
            ));
            assert(self.ever_retired@ =~= self.ever_freed@.add(kept(s, g).to_multiset()));
        }
        self.count = self.count.wrapping_sub(n);
        let total = prev_reclaimed + n;
        if remaining.len() == 0 {
            let ghost w: bool = self.wrapped@ || n > c0;
            self.wrapped = Ghost(w);
            return Sweep { freed: reclaimed, outcome: SweepOutcome::Finished(total) };
        }
        let ghost w: bool = self.wrapped@ || n > c0 || c0 - n == usize::MAX;
        self.wrapped = Ghost(w);
        self.count = self.count.wrapping_add(1);
        // splice what was kept in front of whatever the list holds now
        self.retired.append(&mut remaining);
        assert(self.retired@ =~= kept(s, g));
        if block {
            Sweep { freed: reclaimed, outcome: SweepOutcome::Again(n) }
        } else {
            Sweep { freed: reclaimed, outcome: SweepOutcome::Finished(n) }
        }
    }
    /// Hands out a slot for a new holder: the newest slot that no holder
    /// owns, turned active, or else a new active slot that publishes nothing.
    pub fn acquire(&mut self) -> (i: usize)
        requires
            old(self).wf(),
        ensures
            final(self).wf(),
            i == acquired_index(old(self).slots()),
            final(self).slots() == after_acquire(old(self).slots()),
            final(self).retired() == old(self).retired(),
            final(self).retired_count() == old(self).retired_count(),
            i < final(self).slots().len(),
            final(self).slots()[i as int] == (HazardPtr { ptr: 0, active: true }),
            i < old(self).slots().len() ==> !old(self).slots()[i as int].active,
            records_slots(*old(self), *final(self)),
            forall|k: int|
                0 <= k < old(self).slots().len() && k != i ==> #[trigger] final(self).slots()[k]
                    == old(self).slots()[k],
            final(self).slots().len() == if i < old(self).slots().len() {
                old(self).slots().len()
            } else {
                old(self).slots().len() + 1
            },
            i <= old(self).slots().len(),
            forall|k: int| i < k < old(self).slots().len() ==> (#[trigger] old(self).slots()[k]).active,
    {
        let ghost s = self.hazptrs@;
        proof {
            lemma_free_slot(s);
            lemma_acquire_frame(s);
            assert(s.subrange(0, s.len() as int) =~= s);
        }
        let mut i: usize = self.hazptrs.len();
        while i > 0
            invariant
                i <= s.len(),
                self.hazptrs@ == s,
                s == old(self).slots(),
                old(self).wf(),
                self.retired@ == old(self).retired(),
                self.count == old(self).retired_count(),
                self.peak == old(self).peak,
                self.ever_retired == old(self).ever_retired,
                self.ever_freed == old(self).ever_freed,
                self.wrapped == old(self).wrapped,
                free_slot(s) == free_slot(s.subrange(0, i as int)),
            decreases i,
        {
            let j = i - 1;
            let node = self.hazptrs[j];
            assert(s.subrange(0, i as int).drop_last() =~= s.subrange(0, j as int));
            if !node.active {
                // nobody owns this slot: claim it
                self.hazptrs.set(j, HazardPtr { ptr: node.ptr, active: true });
                proof {
                    lemma_active_count_update(s, j as int, HazardPtr { ptr: node.ptr, active: true });
                    assert(!s[j as int].active);
                    lemma_active_count_bound(s);
                    lemma_acquire_frame(s);
                }
                self.peak = Ghost(next_peak(self.peak@, self.hazptrs@));
                return j;
            }
            i = j;
        }
        let n = self.hazptrs.len();
        self.hazptrs.push(HazardPtr { ptr: 0, active: true });
        proof {
            lemma_active_count_bound(s);
            lemma_active_count_push(s, HazardPtr { ptr: 0, active: true });
        }
        self.peak = Ghost(next_peak(self.peak@, self.hazptrs@));
        n
    }

    /// Publishes `ptr` in the active slot `i`.
    pub(crate) fn protect_slot(&mut self, i: usize, ptr: usize)
        requires
            old(self).wf(),
            i < old(self).slots().len(),
            old(self).slots()[i as int].active,
        ensures
            final(self).wf(),
            final(self).slots() == old(self).slots().update(
                i as int,
                HazardPtr { ptr: ptr, active: true },
            ),
            final(self).retired() == old(self).retired(),
            final(self).retired_count() == old(self).retired_count(),
            records_slots(*old(self), *final(self)),
    {
        let mut node = self.hazptrs[i];
        node.protect(ptr);
        self.hazptrs.set(i, node);
        proof {
            lemma_active_count_update(old(self).hazptrs@, i as int, node);
            lemma_active_count_bound(old(self).hazptrs@);
        }
        self.peak = Ghost(next_peak(self.peak@, self.hazptrs@));
    }

    /// Stops publishing anything in slot `i`; the slot stays owned or free.
    pub(crate) fn clear_slot(&mut self, i: usize)
        requires
            old(self).wf(),
            i < old(self).slots().len(),
        ensures
            final(self).wf(),
            final(self).slots() == old(self).slots().update(
                i as int,
                HazardPtr { ptr: 0, active: old(self).slots()[i as int].active },
            ),
            final(self).retired() == old(self).retired(),
            final(self).retired_count() == old(self).retired_count(),
            records_slots(*old(self), *final(self)),
    {
        let mut node = self.hazptrs[i];
        node.protect(0);
        self.hazptrs.set(i, node);
        proof {
            lemma_active_count_update(old(self).hazptrs@, i as int, node);
            lemma_active_count_bound(old(self).hazptrs@);
        }
        self.peak = Ghost(next_peak(self.peak@, self.hazptrs@));
    }

    /// Gives slot `i`, which publishes nothing, back to the domain.
    pub(crate) fn deactivate_slot(&mut self, i: usize)
        requires
            old(self).wf(),
            i < old(self).slots().len(),
            old(self).slots()[i as int].ptr == 0,
        ensures
            final(self).wf(),
            final(self).slots() == old(self).slots().update(
                i as int,
                HazardPtr { ptr: 0, active: false },
            ),
            final(self).retired() == old(self).retired(),
            final(self).retired_count() == old(self).retired_count(),
            records_slots(*old(self), *final(self)),
    {
        self.hazptrs.set(i, HazardPtr { ptr: 0, active: false });
        proof {
            lemma_active_count_update(old(self).hazptrs@, i as int, HazardPtr { ptr: 0, active: false });
            lemma_active_count_bound(old(self).hazptrs@);
        }
        self.peak = Ghost(next_peak(self.peak@, self.hazptrs@));
    }

    /// Puts the object at `ptr` on the retired list and raises the retired
    /// counter (modulo the machine word); when the counter is then not zero,
    /// sweeps once without blocking. Returns what the sweep freed, in the
    /// order in which those objects are to be deleted.
    pub fn retire(&mut self, ptr: usize, deleter: D) -> (freed_now: Vec<Retired<D>>)
        requires
            old(self).wf(),
        ensures
            final(self).slots() == old(self).slots(),
            ({
                let s = old(self).retired().push(Retired { ptr: ptr, deleter: deleter });
                let g = guards(old(self).slots());
                let c = vstd::wrapping::usize_specs::wrapping_add(old(self).retired_count(), 1);
                if c == 0 {
                    &&& freed_now@ == Seq::<Retired<D>>::empty()
                    &&& final(self).retired() == s
                    &&& final(self).retired_count() == c
                } else {
                    &&& freed_now@ == freed(s, g)
                    &&& final(self).retired() == kept(s, g)
                    &&& final(self).retired_count() == count_after_sweep(
                        c,
                        freed(s, g).len(),
                        kept(s, g).len(),
                    )
                }
            }),
            forall|i: int|
                0 <= i < freed_now@.len() ==> !guards(old(self).slots()).contains(
                    #[trigger] freed_now@[i].ptr,
                ),
            old(self).retired().push(Retired { ptr: ptr, deleter: deleter }).to_multiset()
                == freed_now@.to_multiset().add(final(self).retired().to_multiset()),
            final(self).wf(),
            forall|i: int|
                0 <= i < freed_now@.len() ==> !old(self).slots().contains(
                    HazardPtr { ptr: (#[trigger] freed_now@[i]).ptr, active: true },
                ),
            old(self).retired_count() < usize::MAX ==> forall|i: int|
                0 <= i < final(self).retired().len() ==> old(self).slots().contains(
                    HazardPtr { ptr: (#[trigger] final(self).retired()[i]).ptr, active: true },
                ),
            old(self).retired_count() < usize::MAX ==> forall|k: int|
                0 <= k < old(self).retired().len() && !freed_now@.contains(
                    #[trigger] old(self).retired()[k],
                ) ==> old(self).slots().contains(
                    HazardPtr { ptr: old(self).retired()[k].ptr, active: true },
                ),
            old(self).retired_count() < usize::MAX && !old(self).slots().contains(
                HazardPtr { ptr: ptr, active: true },
            ) ==> freed_now@.contains(Retired { ptr: ptr, deleter: deleter }),
            old(self).slots().contains(HazardPtr { ptr: ptr, active: true })
                ==> final(self).retired().contains(Retired { ptr: ptr, deleter: deleter }),
            old(self).retired_count() == usize::MAX ==> freed_now@.len() == 0
                && final(self).retired_count() == 0,
            ({
                let c = old(self).retired_count() + 1;
                let n = freed_now@.len();
                let k = final(self).retired().len();
                &&& c <= usize::MAX && n <= c ==> (k == 0 ==> final(self).retired_count() == c - n)
                    && (k > 0 && c - n < usize::MAX ==> final(self).retired_count() == c - n + 1)
                &&& final(self).counter_wrapped() == (old(self).counter_wrapped() || c > usize::MAX
                    || n > c || (k > 0 && c - n == usize::MAX))
            }),
            records_retired(
                *old(self),
                *final(self),
                vstd::multiset::Multiset::singleton(Retired { ptr: ptr, deleter: deleter }),
                freed_now@,
            ),
    {
        let node = Retired::new(ptr, deleter);
        let ghost entry = node;
        let ghost c0 = self.count;
        self.count = self.count.wrapping_add(1);
        let ghost w: bool = self.wrapped@ || c0 == usize::MAX;
        self.wrapped = Ghost(w);
        self.retired.push(node);
        self.ever_retired = Ghost(
            self.ever_retired@.add(vstd::multiset::Multiset::singleton(self.retired@.last())),
        );
        proof {
            broadcast use vstd::multiset::group_multiset_axioms;
            broadcast use vstd::seq_lib::group_to_multiset_ensures;

            assert(self.retired@ == old(self).retired@.push(self.retired@.last()));
            assert(self.ever_retired@ =~= self.ever_freed@.add(self.retired@.to_multiset()));
        }
        if self.count != 0 {
            let len = self.retired.len();
            proof {
                lemma_sweep_conserves(self.retired@, guards(self.hazptrs@));
                assert(len == self.retired@.len());
            }
            let ghost mid = self.retired@;
            let sweep = self.bulk_reclaim(0, false);
            proof {
                assert forall|k: int|
                    0 <= k < old(self).retired@.len() && !sweep.freed@.contains(
                        #[trigger] old(self).retired@[k],
                    ) implies old(self).hazptrs@.contains(
                    HazardPtr { ptr: old(self).retired@[k].ptr, active: true },
                ) by {
                    assert(mid[k] == old(self).retired@[k]);
                }
                assert(mid[mid.len() - 1] == entry);
                broadcast use vstd::multiset::group_multiset_axioms;

                assert(self.ever_retired@ =~= old(self).ever_retired@.add(
                    vstd::multiset::Multiset::singleton(entry),
                ));
            }
            sweep.freed
        } else {
            let none: Vec<Retired<D>> = Vec::new();
            self.ever_freed = Ghost(self.ever_freed@.add(none@.to_multiset()));
            proof {
                broadcast use vstd::multiset::group_multiset_axioms;

                vstd::seq_lib::lemma_multiset_commutative(none@, self.retired@);
                assert(none@ + self.retired@ =~= self.retired@);
                lemma_empty_to_multiset(none@);
                assert(self.ever_freed@ =~= old(self).ever_freed@.add(none@.to_multiset()));
                assert(self.ever_retired@ =~= self.ever_freed@.add(self.retired@.to_multiset()));
            }
            none
        }
    }

    /// Sweeps the retired list once. With `block`, an `Again` outcome asks
    /// the caller to let other threads run and call [`Self::bulk_reclaim`]
    /// with the count it carries and `block` set.
    pub fn eager_reclaim(&mut self, block: bool) -> (sweep: Sweep<D>)
        requires
            old(self).wf(),
        ensures
            final(self).slots() == old(self).slots(),
            ({
                let s = old(self).retired();
                let g = guards(old(self).slots());
                let n = freed(s, g).len();
                if s.len() == 0 {
                    &&& sweep.freed@ == Seq::<Retired<D>>::empty()
                    &&& sweep.outcome == SweepOutcome::Finished(0)
                    &&& final(self).retired() == s
                    &&& final(self).retired_count() == old(self).retired_count()
                } else {
                    &&& sweep.freed@ == freed(s, g)
                    &&& final(self).retired() == kept(s, g)
                    &&& final(self).retired_count() == count_after_sweep(
                        old(self).retired_count(),
                        n,
                        kept(s, g).len(),
                    )
                    &&& sweep.outcome == if kept(s, g).len() == 0 || !block {
                        SweepOutcome::Finished(n as usize)
                    } else {
                        SweepOutcome::Again(n as usize)
                    }
                }
            }),
            forall|i: int|
                0 <= i < sweep.freed@.len() ==> !guards(old(self).slots()).contains(
                    #[trigger] sweep.freed@[i].ptr,
                ),
            forall|i: int|
                0 <= i < final(self).retired().len() ==> guards(old(self).slots()).contains(
                    #[trigger] final(self).retired()[i].ptr,
                ),
            old(self).retired().to_multiset() == sweep.freed@.to_multiset().add(
                final(self).retired().to_multiset(),
            ),
            final(self).wf(),
            forall|k: int|
                0 <= k < old(self).retired().len() && !sweep.freed@.contains(#[trigger] old(self).retired()[k]) ==> old(self).slots().contains(
                    HazardPtr { ptr: old(self).retired()[k].ptr, active: true },
                ),
            forall|k: int|
                0 <= k < old(self).retired().len() && !final(self).retired().contains(#[trigger] old(self).retired()[k]) ==> !old(self).slots().contains(
                    HazardPtr { ptr: old(self).retired()[k].ptr, active: true },
                ),
            forall|i: int|
                0 <= i < sweep.freed@.len() ==> !old(self).slots().contains(
                    HazardPtr { ptr: (#[trigger] sweep.freed@[i]).ptr, active: true },
                ),
            forall|i: int|
                0 <= i < final(self).retired().len() ==> old(self).slots().contains(
                    HazardPtr { ptr: (#[trigger] final(self).retired()[i]).ptr, active: true },
                ),
            ({
                let c = old(self).retired_count();
                let n = sweep.freed@.len();
                let k = final(self).retired().len();
                &&& old(self).retired().len() > 0 && n <= c ==> (k == 0 ==> final(self).retired_count()
                    == c - n) && (k > 0 && c - n < usize::MAX ==> final(self).retired_count() == c - n
                    + 1)
                &&& final(self).counter_wrapped() == (old(self).counter_wrapped() || (
                old(self).retired().len() > 0 && (n > c || (k > 0 && c - n == usize::MAX))))
            }),
            records_retired(
                *old(self),
                *final(self),
                vstd::multiset::Multiset::empty(),
                sweep.freed@,
            ),
    {
        let len = self.retired.len();
        proof {
            lemma_sweep_conserves(self.retired@, guards(self.hazptrs@));
            assert(len == self.retired@.len());
        }
        self.bulk_reclaim(0, block)
    }
    /// The number of slots.
    pub fn slot_count(&self) -> (n: usize)
        ensures
            n == self.slots().len(),
    {
        self.hazptrs.len()
    }

    /// Slot `i`.
    pub fn slot(&self, i: usize) -> (slot: HazardPtr)
        requires
            i < self.slots().len(),
        ensures
            slot == self.slots()[i as int],
    {
        self.hazptrs[i]
    }

    /// The number of objects on the retired list.
    pub fn retired_len(&self) -> (n: usize)
        ensures
            n == self.retired().len(),
    {
        self.retired.len()
    }

    /// The addresses on the retired list, oldest first.
    pub fn retired_addresses(&self) -> (addrs: Vec<usize>)
        ensures
            addrs@.len() == self.retired().len(),
            forall|k: int| 0 <= k < addrs@.len() ==> addrs@[k] == #[trigger] self.retired()[k].ptr,
    {
        let mut addrs: Vec<usize> = Vec::new();
        let mut k: usize = 0;
        while k < self.retired.len()
            invariant
                k <= self.retired@.len(),
                addrs@.len() == k,
                forall|j: int| 0 <= j < k ==> addrs@[j] == #[trigger] self.retired@[j].ptr,
            decreases self.retired@.len() - k,
        {
            addrs.push(self.retired[k].ptr);
            k = k + 1;
        }
        addrs
    }

    /// The retired counter.
    pub fn count(&self) -> (c: usize)
        ensures
            c == self.retired_count(),
    {
        self.count
    }
}

} // verus!
