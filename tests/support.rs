use flize::deferred::fits_inline;
use flize::drain_queue::DrainQueue;
use flize::queue::Queue;
use flize::{unprotected, Backoff, Collector, CowShield, IdAllocator, Shield, ThreadId, ThreadLocal};
use std::sync::atomic::{AtomicUsize, Ordering};

#[test]
fn create_insert_store_single_thread() {
    let mut ids = IdAllocator::new();
    let id = ThreadId::new(&mut ids);
    let mut thread_local = ThreadLocal::new();
    let x = thread_local.get(id.0, || AtomicUsize::new(id.0));
    x.store(1, Ordering::SeqCst);
    assert_eq!(thread_local.get(id.0, || AtomicUsize::new(99)).load(Ordering::SeqCst), 1);
    id.release(&mut ids);
}

#[test]
fn thread_local_creates_once_per_id() {
    let mut t: ThreadLocal<u32> = ThreadLocal::new();
    let before = t.snapshot();
    assert_eq!(*t.get(2, || 20), 20);
    assert!(t.changed_since(&before));
    let mid = t.snapshot();
    assert_eq!(*t.get(2, || 99), 20);
    assert!(!t.changed_since(&mid));
    assert_eq!(*t.get(0, || 7), 7);
    assert_eq!(t.len(), 2);
    assert_eq!(t.mod_acc(), 4);
    let all: Vec<u32> = t.iter().into_iter().copied().collect();
    assert_eq!(all, vec![7, 20]);
}

#[test]
fn thread_ids_are_dense_and_reused_lowest_first() {
    let mut ids = IdAllocator::new();
    assert_eq!(ids.allocate(), 0);
    assert_eq!(ids.allocate(), 1);
    assert_eq!(ids.allocate(), 2);
    assert_eq!(ids.allocate(), 3);
    ids.deallocate(2);
    ids.deallocate(0);
    assert_eq!(ids.allocate(), 0);
    assert_eq!(ids.allocate(), 2);
    assert_eq!(ids.allocate(), 4);
}

#[test]
fn drain_queue_swaps_out_everything() {
    let mut q = DrainQueue::new();
    q.push(1);
    q.push(2);
    q.push(3);
    assert_eq!(q.len(), 3);
    let mut taken = q.swap_out();
    assert_eq!(q.len(), 0);
    assert_eq!(q.pop(), None);
    assert_eq!(taken.pop(), Some(3));
    assert_eq!(taken.pop(), Some(2));
    assert_eq!(taken.len(), 1);
}

#[test]
fn queue_is_first_in_first_out() {
    let mut q = Queue::new();
    assert!(q.is_empty());
    q.push(5);
    q.push(10);
    assert_eq!(q.len(), 2);
    let head = q.pop().unwrap();
    assert_eq!(head, 5);
    q.push_front(head);
    assert_eq!(q.pop(), Some(5));
    assert_eq!(q.pop(), Some(10));
    assert_eq!(q.pop(), None);
}

#[test]
fn backoff_stops_spinning_past_the_limit() {
    let mut b = Backoff::new();
    for _ in 0..7 {
        assert!(!b.is_completed());
        b.snooze();
    }
    assert!(b.is_completed());
    b.snooze();
    assert!(b.is_completed());
}

#[test]
fn unprotected_shield_hands_work_back_at_once() {
    let mut u = unprotected();
    let mut c: Collector<u8> = Collector::new();
    assert_eq!(u.retire(&mut c, 5u8), vec![5u8]);
    assert_eq!(c.pending_count(), 0);
    assert_eq!(u.repin_after(|| 3), 3);
    assert!(u.repin(&mut c).is_empty());
    assert!(u.flush(&mut c).is_empty());
}

#[test]
fn cow_shield_owned_and_borrowed() {
    let owned = CowShield::new_owned(4u32);
    assert_eq!(*owned.get(), 4);
    assert_eq!(owned.into_owned(), 4);
    let value = 9u32;
    let borrowed = CowShield::new_borrowed(&value);
    assert_eq!(*borrowed.get(), 9);
    assert_eq!(borrowed.into_owned(), 9);
}

#[test]
fn shields_share_one_interface() {
    fn retire_through<S: Shield<u32>>(s: &S, c: &mut Collector<u32>, v: u32) -> Vec<u32> {
        let mut out = s.retire(c, v);
        out.extend(s.flush(c));
        out.extend(s.repin(c));
        out
    }
    let mut c: Collector<u32> = Collector::new();
    let thin = c.thin_shield(0);
    let full = c.full_shield();
    assert!(retire_through(&thin, &mut c, 1).is_empty());
    assert!(retire_through(&full, &mut c, 2).is_empty());
    assert_eq!(c.garbage_amount(), 2);
    let mut handed_out = c.drop_thin(thin);
    handed_out.extend(c.drop_full(full));
    handed_out.extend(c.drain());
    handed_out.sort();
    assert_eq!(handed_out, vec![1, 2]);
}

#[test]
fn push_pop_check() {
    let mut queue = Queue::new();
    queue.push(5);
    queue.push(10);
    assert!(matches!(queue.pop_if(|x: &i32| *x == 10), None));
    assert!(matches!(queue.pop_if(|x: &i32| *x == 5), Some(_)));
    assert!(matches!(queue.pop_if(|x: &i32| *x == 5), None));
    assert!(matches!(queue.pop_if(|x: &i32| *x == 10), Some(_)));
}

#[test]
fn backoff() {
    let mut backoff = Backoff::new();

    for _ in 0..100 {
        backoff.snooze();
    }
}

#[test]
fn closures_of_three_words_fit_inline() {
    assert!(fits_inline(0, 1));
    assert!(fits_inline(16, 8));
    assert!(fits_inline(24, 8));
    assert!(!fits_inline(25, 8));
    assert!(!fits_inline(1024, 1));
    assert!(!fits_inline(16, 16));
}
