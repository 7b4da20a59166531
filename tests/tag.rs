use flize::tag::{read_tag, set_tag, strip};
use flize::{Atomic, NullTag, PairTag, Shared, TagPosition};
use std::sync::atomic::Ordering;

fn two(t: u8) -> PairTag {
    PairTag(t & 1 == 1, t & 2 == 2)
}

type Lo = Shared<u64, PairTag, NullTag, 2, 0>;
type Hi = Shared<u64, NullTag, PairTag, 0, 2>;
type Both = Shared<u64, PairTag, PairTag, 2, 2>;

#[test]
fn low_tag_round_trip() {
    for t in 0..4u8 {
        let s = Lo::from_raw(0x1000).with_tag_lo(two(t));
        assert_eq!(s.tag_lo(), two(t));
        assert_eq!(s.into_raw(), 0x1000 | t as u64);
    }
}

#[test]
fn high_tag_round_trip() {
    for t in 0..4u8 {
        let s = Hi::from_raw(0x1000).with_tag_hi(two(t));
        assert_eq!(s.tag_hi(), two(t));
        assert_eq!(s.into_raw(), 0x1000 | ((t as u64) << 62));
    }
}

#[test]
fn strip_zeroes_both_tags() {
    let s = Both::from_raw(0x1000).with_tag_lo(two(3)).with_tag_hi(two(2));
    assert_eq!(s.into_raw(), 0x8000_0000_0000_1003);
    let bare = s.strip();
    assert_eq!(bare.into_raw(), 0x1000);
    assert_eq!(bare.tag_lo(), two(0));
    assert_eq!(bare.tag_hi(), two(0));
}

#[test]
fn tag_bits_at_both_ends() {
    assert_eq!(set_tag::<PairTag, 2>(0, vec![true, false], TagPosition::Lo), 1);
    assert_eq!(set_tag::<PairTag, 2>(0, vec![false, true], TagPosition::Hi), 1 << 63);
    assert_eq!(read_tag::<PairTag, 2>(0b10, TagPosition::Lo), vec![false, true]);
    assert_eq!(read_tag::<PairTag, 2>(1 << 62, TagPosition::Hi), vec![true, false]);
    assert_eq!(strip::<NullTag, NullTag, 0, 0>(0xdead_beef), 0xdead_beef);
    assert_eq!(strip::<PairTag, PairTag, 2, 2>(u64::MAX), 0x3fff_ffff_ffff_fffc);
}

#[test]
fn null_word_is_null() {
    let n = Lo::null();
    assert!(n.is_null());
    assert!(!n.with_tag_lo(two(1)).is_null());
}

#[test]
fn atomic_pointer_operations() {
    let a: Atomic<u64, PairTag, NullTag, 2, 0> = Atomic::new(Lo::from_raw(0x40));
    assert_eq!(a.load(Ordering::SeqCst).into_raw(), 0x40);
    a.store(Lo::from_raw(0x80), Ordering::SeqCst);
    let prev = a.swap(Lo::from_raw(0xc0), Ordering::SeqCst);
    assert_eq!(prev.into_raw(), 0x80);
    let ok = a.compare_exchange(Lo::from_raw(0xc0), Lo::from_raw(0x100), Ordering::SeqCst, Ordering::SeqCst);
    assert_eq!(ok.map(|s| s.into_raw()).map_err(|s| s.into_raw()), Ok(0xc0));
    let err = a.compare_exchange(Lo::from_raw(0xc0), Lo::from_raw(0x140), Ordering::SeqCst, Ordering::SeqCst);
    assert_eq!(err.map(|s| s.into_raw()).map_err(|s| s.into_raw()), Err(0x100));
    let null: Atomic<u64, PairTag, NullTag, 2, 0> = Atomic::null();
    assert!(null.load(Ordering::Relaxed).is_null());
}

#[test]
fn map_both_keeps_the_side() {
    let ok: Result<u8, u8> = Ok(2);
    let err: Result<u8, u8> = Err(3);
    assert_eq!(flize::shared::map_both(ok, |x| x as u32 * 10), Ok(20));
    assert_eq!(flize::shared::map_both(err, |x| x as u32 * 10), Err(30));
}
