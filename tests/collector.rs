use flize::collector::{deferred_ceiling, DEFERRED_BYTES, MAX_GARBAGE_BYTES};
use flize::Collector;
use std::cell::Cell;
use std::rc::Rc;

type Work = Box<dyn FnOnce()>;

fn run(work: Vec<Work>) -> usize {
    let n = work.len();
    for f in work {
        f();
    }
    n
}

fn counting(counter: &Rc<Cell<u64>>) -> Work {
    let c = counter.clone();
    Box::new(move || c.set(c.get() + 1))
}

#[test]
fn retire_thousand_then_collect_light() {
    let counter = Rc::new(Cell::new(0u64));
    let mut c: Collector<Work> = Collector::new();
    let shield = c.thin_shield(0);
    for _ in 0..1000 {
        run(c.retire(&shield, counting(&counter)));
    }
    run(c.drop_thin(shield));
    let mut rounds = 0;
    while counter.get() < 1000 && rounds < 10 {
        if let Some(work) = c.try_collect_light(0) {
            run(work);
        }
        rounds += 1;
    }
    assert_eq!(counter.get(), 1000);
    assert_eq!(c.pending_count(), 0);
    assert_eq!(run(c.drain()), 0);
    assert_eq!(counter.get(), 1000);
}

#[test]
fn eight_participants_retire_noops() {
    let cycles: usize = 1 << 18;
    let mut c: Collector<Work> = Collector::new();
    let mut ran = 0usize;
    for _ in 0..cycles {
        for tid in 0..8 {
            let s = c.thin_shield(tid);
            ran += run(c.retire(&s, Box::new(|| {})));
            ran += run(c.drop_thin(s));
        }
    }
    assert_eq!(ran + c.pending_count(), 8 * cycles);
    ran += run(c.drain());
    assert_eq!(ran, 8 * cycles);
}

struct Node {
    value: u64,
    freed: Rc<Cell<u64>>,
}

impl Drop for Node {
    fn drop(&mut self) {
        self.freed.set(self.freed.get() + 1);
    }
}

#[test]
fn producers_and_consumers_free_each_node_once() {
    let freed = Rc::new(Cell::new(0u64));
    let mut c: Collector<Box<Node>> = Collector::new();
    let mut list: Vec<Box<Node>> = Vec::new();
    let mut unlinked = 0u64;
    let mut max_pending = 0usize;
    let mut value = 0u64;
    for round in 0..125_000usize {
        for producer in 0..4 {
            let s = c.thin_shield(producer);
            value += 1;
            list.push(Box::new(Node { value, freed: freed.clone() }));
            drop(c.drop_thin(s));
        }
        for consumer in 4..8 {
            let s = c.thin_shield(consumer);
            if let Some(node) = list.pop() {
                assert!(node.value > 0);
                unlinked += 1;
                drop(c.retire(&s, node));
            }
            drop(c.drop_thin(s));
        }
        if round % 64 == 0 {
            max_pending = max_pending.max(c.pending_count());
        }
    }
    assert!(max_pending < 1 << 15);
    drop(c.drain());
    assert_eq!(freed.get(), unlinked);
    assert_eq!(unlinked, 500_000);
}

#[test]
fn long_held_shield_blocks_reclamation() {
    let flag = Rc::new(Cell::new(false));
    let mut c: Collector<Work> = Collector::new();
    let held = c.thin_shield(0);
    let s = c.thin_shield(1);
    let f = flag.clone();
    run(c.retire(&s, Box::new(move || f.set(true))));
    run(c.flush(&s));
    run(c.drop_thin(s));
    for _ in 0..100 {
        if let Some(work) = c.try_collect_light(1) {
            run(work);
        }
        assert!(!flag.get());
    }
    run(c.drop_thin(held));
    let mut rounds = 0;
    while !flag.get() && rounds < 3 {
        if let Some(work) = c.try_collect_light(1) {
            run(work);
        }
        rounds += 1;
    }
    assert!(flag.get());
}

#[test]
fn advance_refused_while_a_participant_lags() {
    let mut c: Collector<u32> = Collector::new();
    let held = c.thin_shield(0);
    assert!(c.try_collect_light(1).is_some());
    assert_eq!(c.global_epoch().into_raw(), 1);
    assert!(c.try_collect_light(1).is_none());
    assert_eq!(c.global_epoch().into_raw(), 1);
    drop(c.drop_thin(held));
    assert!(c.try_collect_light(1).is_some());
    assert_eq!(c.global_epoch().into_raw(), 2);
}

#[test]
fn shield_count_returns_to_start() {
    let mut c: Collector<u32> = Collector::new();
    let outer = c.thin_shield(3);
    assert_eq!(c.shield_count(3), 1);
    let mut shields = Vec::new();
    for _ in 0..10 {
        shields.push(c.thin_shield(3));
    }
    let extra = c.clone_thin(&shields[0]);
    assert_eq!(c.shield_count(3), 12);
    drop(c.drop_thin(extra));
    for s in shields {
        drop(c.drop_thin(s));
    }
    assert_eq!(c.shield_count(3), 1);
    assert!(c.is_pinned(3));
    drop(c.drop_thin(outer));
    assert_eq!(c.shield_count(3), 0);
    assert!(!c.is_pinned(3));
    assert_eq!(c.participant_count(), 4);
}

#[test]
fn bag_seals_at_thirty_two() {
    let mut c: Collector<u32> = Collector::new();
    let s = c.thin_shield(0);
    for i in 0..31 {
        assert!(c.retire(&s, i).is_empty());
    }
    assert_eq!(c.local_bag_len(0), 31);
    assert_eq!(c.garbage_bag_count(), 0);
    assert!(c.retire(&s, 31).is_empty());
    assert_eq!(c.local_bag_len(0), 0);
    assert_eq!(c.garbage_bag_count(), 1);
    assert_eq!(c.garbage_amount(), 32);
    assert!(c.retire(&s, 32).is_empty());
    assert_eq!(c.local_bag_len(0), 1);
    drop(c.drop_thin(s));
    let mut all = c.drain();
    all.sort();
    assert_eq!(all, (0..33).collect::<Vec<u32>>());
}

#[test]
fn collected_work_comes_out_in_retire_order() {
    let mut c: Collector<u32> = Collector::new();
    let s = c.thin_shield(0);
    for i in 0..64 {
        assert!(c.retire(&s, i).is_empty());
    }
    drop(c.drop_thin(s));
    let mut out = Vec::new();
    for _ in 0..3 {
        if let Some(work) = c.try_collect_light(0) {
            out.extend(work);
        }
    }
    assert_eq!(out, (0..64).collect::<Vec<u32>>());
}

#[test]
fn full_shields_share_one_participant() {
    let mut c: Collector<u32> = Collector::new();
    let a = c.full_shield();
    let b = c.clone_full(&a);
    assert_eq!(c.full_shield_count(), 2);
    assert!(c.retire_full(&a, 7).is_empty());
    assert_eq!(c.full_bag_count(), 1);
    assert!(c.flush_full(&b).is_empty());
    assert_eq!(c.full_bag_count(), 0);
    assert_eq!(c.garbage_amount(), 1);
    assert!(c.repin_full(&b).is_empty());
    drop(c.drop_full(a));
    drop(c.drop_full(b));
    assert_eq!(c.full_shield_count(), 0);
    let mut out = Vec::new();
    for _ in 0..3 {
        if let Some(work) = c.try_collect_light(0) {
            out.extend(work);
        }
    }
    assert_eq!(out, vec![7]);
}

#[test]
fn repin_after_runs_the_closure_unpinned() {
    let mut c: Collector<u32> = Collector::new();
    let s = c.thin_shield(0);
    let (work, v) = c.repin_after(&s, || 41 + 1);
    assert!(work.is_empty());
    assert_eq!(v, 42);
    assert!(c.repin(&s).is_empty());
    assert_eq!(c.shield_count(0), 1);
    drop(c.drop_thin(s));
}

#[test]
fn local_bag_reclaims_its_old_prefix() {
    let mut c: Collector<u32> = Collector::new();
    let s = c.thin_shield(0);
    assert!(c.retire(&s, 1).is_empty());
    drop(c.drop_thin(s));
    assert!(c.try_collect_light(1).is_some());
    assert!(c.try_collect_light(1).is_some());
    let s = c.thin_shield(0);
    let ready = c.retire(&s, 2);
    assert_eq!(ready, vec![1]);
    assert_eq!(c.local_bag_len(0), 1);
    drop(c.drop_thin(s));
}

#[test]
fn garbage_ceiling_in_work_items() {
    assert_eq!(DEFERRED_BYTES, 32);
    assert_eq!(deferred_ceiling(MAX_GARBAGE_BYTES), 32768);
    assert_eq!(deferred_ceiling(100), 3);
    let c: Collector<u8> = Collector::with_max_garbage_bytes(64);
    assert_eq!(c.pending_count(), 0);
}

#[test]
fn local_handle_makes_shields_on_its_participant() {
    let mut c: Collector<u32> = Collector::new();
    let local = c.local(5);
    assert_eq!(local.tid(), 5);
    assert_eq!(c.participant_count(), 6);
    assert!(!local.is_pinned(&c));
    let s = local.thin_shield(&mut c);
    assert_eq!(s.tid(), 5);
    assert!(local.is_pinned(&c));
    drop(c.drop_thin(s));
    assert!(!local.is_pinned(&c));
}

#[test]
fn try_advance_refuses_a_lagging_participant() {
    let mut c: Collector<u32> = Collector::new();
    let held = c.thin_shield(0);
    assert_eq!(c.try_advance().map(|e| e.into_raw()), Ok(1));
    assert_eq!(c.try_advance().map(|e| e.into_raw()), Err(flize::AdvanceRefused));
    let full = c.full_shield();
    drop(c.drop_thin(held));
    assert_eq!(c.try_advance().map(|e| e.into_raw()), Ok(2));
    assert_eq!(c.try_advance().map(|e| e.into_raw()), Err(flize::AdvanceRefused));
    drop(c.drop_full(full));
    assert_eq!(c.try_advance().map(|e| e.into_raw()), Ok(0));
}

#[test]
fn sealing_past_the_ceiling_advances_the_epoch() {
    let mut c: Collector<u32> = Collector::with_max_garbage_bytes(64);
    let s = c.thin_shield(0);
    for i in 0..31 {
        assert!(c.retire(&s, i).is_empty());
    }
    assert_eq!(c.global_epoch().into_raw(), 0);
    assert!(c.retire(&s, 31).is_empty());
    assert_eq!(c.local_bag_len(0), 0);
    assert_eq!(c.global_epoch().into_raw(), 1);
    drop(c.drop_thin(s));
}

#[test]
fn every_128th_exit_with_garbage_advances() {
    let mut c: Collector<u32> = Collector::new();
    let s = c.thin_shield(1);
    for i in 0..32 {
        assert!(c.retire(&s, i).is_empty());
    }
    drop(c.drop_thin(s));
    for _ in 0..126 {
        let s = c.thin_shield(1);
        drop(c.drop_thin(s));
    }
    assert_eq!(c.global_epoch().into_raw(), 0);
    let s = c.thin_shield(1);
    drop(c.drop_thin(s));
    assert_eq!(c.global_epoch().into_raw(), 1);
}
