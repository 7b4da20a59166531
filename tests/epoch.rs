use flize::{AtomicEpoch, DefinitiveEpoch, Epoch};
use std::sync::atomic::Ordering;

#[test]
fn pin_check() {
    let epoch = Epoch::zero();
    assert!(!epoch.is_pinned());
    let pinned = epoch.pinned();
    assert!(pinned.is_pinned());
    let unpinned_next = epoch.unpinned().next();
    assert!(!unpinned_next.is_pinned());
}

#[test]
fn three_advances_return_to_start() {
    for raw in 0..3u64 {
        let e = Epoch::from_raw(raw);
        let back = e.next().next().next();
        assert!(back == e);
        assert_eq!(back.into_raw(), raw);
    }
}

#[test]
fn next_walks_the_cycle() {
    assert_eq!(Epoch::from_raw(0).next().into_raw(), 1);
    assert_eq!(Epoch::from_raw(1).next().into_raw(), 2);
    assert_eq!(Epoch::from_raw(2).next().into_raw(), 0);
}

#[test]
fn passing_by_two_takes_two_advances() {
    for raw in 0..3u64 {
        let e = Epoch::from_raw(raw);
        assert!(e.has_passed(e.next().next(), 2));
        assert!(!e.has_passed(e.next(), 2));
        assert!(!e.has_passed(e, 2));
        assert!(e.has_passed(e.next(), 1));
    }
}

#[test]
fn pinned_flag_is_the_high_bit() {
    let e = Epoch::from_raw(2).pinned();
    assert_eq!(e.into_raw(), 0x8000_0000_0000_0002);
    assert_eq!(e.unpinned().into_raw(), 2);
    assert_eq!(e.unique(), 2);
    assert!(e == Epoch::from_raw(2));
    assert!(Epoch::from_raw(1) != Epoch::from_raw(2));
}

#[test]
fn definitive_epoch_keeps_the_word() {
    let d = DefinitiveEpoch::from(Epoch::from_raw(1).pinned());
    assert_eq!(d.0, 0x8000_0000_0000_0001);
    assert!(DefinitiveEpoch(3) < DefinitiveEpoch(4));
}

#[test]
fn atomic_epoch_advances_once_from_a_given_epoch() {
    let a = AtomicEpoch::new(Epoch::zero());
    let next = a.try_advance(Epoch::zero()).unwrap();
    assert_eq!(next.into_raw(), 1);
    assert_eq!(a.load(Ordering::Relaxed).into_raw(), 1);
    assert!(a.try_advance(Epoch::zero()).is_err());
    a.store(Epoch::from_raw(2).pinned(), Ordering::Relaxed);
    assert!(a.load(Ordering::Relaxed).is_pinned());
    a.compare_and_set_non_unique(Epoch::from_raw(2).pinned(), Epoch::zero(), Ordering::Relaxed);
    assert_eq!(a.load(Ordering::Relaxed).into_raw(), 0);
}
