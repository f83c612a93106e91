use std::collections::HashMap;

use hazptr::{
    HazardPtr, HazardPtrDomain, HazardPtrHolder, HazardPtrObject, HazardPtrObjectWrapper,
    LoadStep, Retired, SweepOutcome,
};

/// A pretend heap: addresses to the values stored there.
struct Heap {
    cells: HashMap<usize, (i32, u32)>,
    drops: HashMap<u32, usize>,
}

impl Heap {
    fn new() -> Self {
        Heap { cells: HashMap::new(), drops: HashMap::new() }
    }

    fn place(&mut self, addr: usize, value: i32, tag: u32) -> usize {
        self.cells.insert(addr, (value, tag));
        addr
    }

    fn delete_all(&mut self, freed: Vec<Retired<u32>>) {
        for r in freed {
            self.cells.remove(&r.ptr);
            *self.drops.entry(r.deleter).or_insert(0) += 1;
        }
    }

    fn drops(&self, tag: u32) -> usize {
        *self.drops.get(&tag).unwrap_or(&0)
    }
}

/// A protected load of the address held in `src`.
fn load(holder: &mut HazardPtrHolder, domain: &mut HazardPtrDomain<u32>, src: &usize) -> Option<usize> {
    let mut seen = *src;
    loop {
        holder.protect(domain, seen);
        let again = *src;
        match HazardPtrHolder::load_step(seen, again) {
            LoadStep::Settled(r) => return r,
            LoadStep::Retry(next) => seen = next,
        }
    }
}

#[test]
fn first_test() {
    let mut heap = Heap::new();
    let mut domain: HazardPtrDomain<u32> = HazardPtrDomain::new();
    let obj42 = HazardPtrObjectWrapper::new_with_default(42i32);
    let mut x = heap.place(0x1000, *obj42.get(), 42);

    let mut holder = HazardPtrHolder::default();
    let my_value = load(&mut holder, &mut domain, &x).expect("not null");
    assert_eq!(heap.cells[&my_value].0, 42);

    holder.reset(&mut domain);
    let my_value = load(&mut holder, &mut domain, &x).expect("not null");
    assert_eq!(heap.cells[&my_value].0, 42);

    let mut holder_temp = HazardPtrHolder::default();
    let _ = load(&mut holder_temp, &mut domain, &x).expect("not null");
    holder_temp.release(&mut domain);

    let obj16 = HazardPtrObjectWrapper::new_with_default(16i32);
    let old = x;
    x = heap.place(0x2000, *obj16.get(), 16);
    assert_eq!(x, 0x2000);

    let freed = HazardPtrObjectWrapper::<i32>::retire(&mut domain, old, 42);
    heap.delete_all(freed);
    assert_eq!(heap.drops(42), 0);
    assert_eq!(heap.cells[&my_value].0, 42);
    assert_eq!(heap.drops(42), 0);

    let sweep = domain.eager_reclaim(false);
    heap.delete_all(sweep.freed);
    assert_eq!(heap.drops(42), 0);

    assert_eq!(heap.cells[&my_value].0, 42);
    holder.release(&mut domain);

    let sweep = domain.eager_reclaim(false);
    let n = match sweep.outcome {
        SweepOutcome::Finished(n) => n,
        SweepOutcome::Again(_) => panic!("not blocking"),
    };
    heap.delete_all(sweep.freed);
    assert_eq!(n, 1);
    assert_eq!(heap.drops(42), 1);
}

#[test]
fn new_domain_is_empty() {
    let domain: HazardPtrDomain<u32> = HazardPtrDomain::new();
    assert_eq!(domain.slot_count(), 0);
    assert_eq!(domain.retired_len(), 0);
    assert_eq!(domain.count(), 0);
}

#[test]
fn acquire_reuses_newest_free_slot() {
    let mut domain: HazardPtrDomain<u32> = HazardPtrDomain::new();
    let mut h0 = HazardPtrHolder::new();
    let mut h1 = HazardPtrHolder::new();
    let mut h2 = HazardPtrHolder::new();
    assert_eq!(h0.haz_ptr(&mut domain), 0);
    assert_eq!(h1.haz_ptr(&mut domain), 1);
    assert_eq!(h2.haz_ptr(&mut domain), 2);
    h0.release(&mut domain);
    h1.release(&mut domain);
    // the newest free slot comes first
    assert_eq!(domain.acquire(), 1);
    assert_eq!(domain.acquire(), 0);
    assert_eq!(domain.acquire(), 3);
    assert_eq!(domain.slot(3), HazardPtr { ptr: 0, active: true });
    // a slot is added only when all are active: four slots, four active at once
    assert_eq!(domain.slot_count(), 4);
}

#[test]
fn holder_keeps_its_slot() {
    let mut domain: HazardPtrDomain<u32> = HazardPtrDomain::new();
    let mut a = HazardPtrHolder::new();
    let mut b = HazardPtrHolder::new();
    let ia = a.haz_ptr(&mut domain);
    let ib = b.haz_ptr(&mut domain);
    assert_ne!(ia, ib);
    assert_eq!(a.haz_ptr(&mut domain), ia);
    assert_eq!(domain.slot_count(), 2);
}

#[test]
fn protect_reset_release() {
    let mut domain: HazardPtrDomain<u32> = HazardPtrDomain::new();
    let mut h = HazardPtrHolder::new();
    let i = h.protect(&mut domain, 0x40);
    assert_eq!(domain.slot(i), HazardPtr { ptr: 0x40, active: true });
    h.reset(&mut domain);
    assert_eq!(domain.slot(i), HazardPtr { ptr: 0, active: true });
    h.protect(&mut domain, 0x80);
    h.release(&mut domain);
    assert_eq!(domain.slot(i), HazardPtr { ptr: 0, active: false });
}

#[test]
fn reset_without_slot_changes_nothing() {
    let mut domain: HazardPtrDomain<u32> = HazardPtrDomain::new();
    let mut h = HazardPtrHolder::new();
    h.reset(&mut domain);
    assert_eq!(domain.slot_count(), 0);
    h.release(&mut domain);
    assert_eq!(domain.slot_count(), 0);
}

#[test]
fn load_step_cases() {
    assert_eq!(HazardPtrHolder::load_step(8, 8), LoadStep::Settled(Some(8)));
    assert_eq!(HazardPtrHolder::load_step(0, 0), LoadStep::Settled(None));
    assert_eq!(HazardPtrHolder::load_step(8, 16), LoadStep::Retry(16));
}

#[test]
fn retire_unprotected_frees_at_once() {
    let mut domain: HazardPtrDomain<u32> = HazardPtrDomain::new();
    let freed = domain.retire(0x10, 1);
    assert_eq!(freed.len(), 1);
    assert_eq!(freed[0].ptr, 0x10);
    assert_eq!(freed[0].deleter, 1);
    assert_eq!(domain.retired_len(), 0);
    // raised by one, lowered by one
    assert_eq!(domain.count(), 0);
}

#[test]
fn retire_protected_waits() {
    let mut domain: HazardPtrDomain<u32> = HazardPtrDomain::new();
    let mut h = HazardPtrHolder::new();
    h.protect(&mut domain, 0x10);
    let freed = domain.retire(0x10, 1);
    assert!(freed.is_empty());
    assert_eq!(domain.retired_addresses(), vec![0x10]);
    // raised for the retire, lowered by nothing, raised for putting it back
    assert_eq!(domain.count(), 2);
}

#[test]
fn sweep_frees_only_unprotected_newest_first() {
    let mut domain: HazardPtrDomain<u32> = HazardPtrDomain::new();
    let mut h = HazardPtrHolder::new();
    let mut h2 = HazardPtrHolder::new();
    h.protect(&mut domain, 0x20);
    h2.protect(&mut domain, 0x40);
    assert!(domain.retire(0x20, 2).is_empty());
    assert!(domain.retire(0x40, 4).is_empty());
    h2.release(&mut domain);
    assert_eq!(domain.retired_addresses(), vec![0x40, 0x20]);
    let freed = domain.retire(0x30, 3);
    // the sweep visits 0x30, then 0x20, then 0x40
    let addrs: Vec<usize> = freed.iter().map(|r| r.ptr).collect();
    assert_eq!(addrs, vec![0x30, 0x40]);
    assert_eq!(domain.retired_addresses(), vec![0x20]);
}

#[test]
fn sweep_of_empty_list() {
    let mut domain: HazardPtrDomain<u32> = HazardPtrDomain::new();
    let sweep = domain.bulk_reclaim(5, true);
    assert!(sweep.freed.is_empty());
    assert_eq!(sweep.outcome, SweepOutcome::Finished(0));
    let sweep = domain.eager_reclaim(false);
    assert_eq!(sweep.outcome, SweepOutcome::Finished(0));
}

#[test]
fn blocking_sweep_asks_again_while_protected() {
    let mut domain: HazardPtrDomain<u32> = HazardPtrDomain::new();
    let mut h = HazardPtrHolder::new();
    h.protect(&mut domain, 0x10);
    assert!(domain.retire(0x10, 1).is_empty());
    let sweep = domain.eager_reclaim(true);
    assert!(sweep.freed.is_empty());
    assert_eq!(sweep.outcome, SweepOutcome::Again(0));
    h.release(&mut domain);
    let sweep = domain.bulk_reclaim(0, true);
    assert_eq!(sweep.freed.len(), 1);
    assert_eq!(sweep.outcome, SweepOutcome::Finished(1));
}

#[test]
fn blocking_sweep_adds_carried_count_when_done() {
    let mut domain: HazardPtrDomain<u32> = HazardPtrDomain::new();
    let mut h = HazardPtrHolder::new();
    h.protect(&mut domain, 0x10);
    assert!(domain.retire(0x10, 1).is_empty());
    h.release(&mut domain);
    let sweep = domain.bulk_reclaim(3, true);
    assert_eq!(sweep.outcome, SweepOutcome::Finished(4));
}

#[test]
fn second_sweep_frees_nothing() {
    let mut domain: HazardPtrDomain<u32> = HazardPtrDomain::new();
    let mut h = HazardPtrHolder::new();
    h.protect(&mut domain, 0x10);
    assert!(domain.retire(0x10, 1).is_empty());
    assert!(domain.retire(0x20, 2).len() == 1);
    let first = domain.eager_reclaim(false);
    let second = domain.eager_reclaim(false);
    assert!(first.freed.is_empty());
    assert!(second.freed.is_empty());
    assert_eq!(domain.retired_addresses(), vec![0x10]);
}

#[test]
fn null_is_guarded_by_a_reset_holder() {
    let mut domain: HazardPtrDomain<u32> = HazardPtrDomain::new();
    let mut h = HazardPtrHolder::new();
    h.protect(&mut domain, 0x10);
    h.reset(&mut domain);
    // an active slot that publishes null guards the null address
    assert!(domain.retire(0, 9).is_empty());
    assert!(domain.retire(0x10, 1).len() == 1);
}

#[test]
fn wrapper_holds_its_value() {
    let mut w = HazardPtrObjectWrapper::new_with_default(vec![1, 2]);
    w.get_mut().push(3);
    assert_eq!(w.get(), &vec![1, 2, 3]);
    assert_eq!(w.into_inner(), vec![1, 2, 3]);
}

#[test]
fn hazard_ptr_protect_and_default() {
    let mut p = HazardPtr::default();
    assert_eq!(p, HazardPtr { ptr: 0, active: false });
    p.protect(0x99);
    assert_eq!(p, HazardPtr { ptr: 0x99, active: false });
}

#[test]
fn conservation_on_mixed_list() {
    let mut domain: HazardPtrDomain<u32> = HazardPtrDomain::new();
    let mut h = HazardPtrHolder::new();
    h.protect(&mut domain, 0x2);
    let mut freed_total = 0;
    for a in 1..=4usize {
        freed_total += domain.retire(a, a as u32).len();
    }
    // everything retired was either freed or is still on the list
    assert_eq!(freed_total + domain.retired_len(), 4);
    assert_eq!(domain.retired_addresses(), vec![0x2]);
}
