use potboiler::clock::{advance, Timestamp};
use potboiler::encoding::bytes_precede;
use std::cmp::Ordering;

fn ts(epoch: u32, time: u64, count: u32) -> Timestamp {
    Timestamp::new(epoch, time, count)
}

#[test]
fn timestamps_order_by_physical_then_logical() {
    assert!(ts(0, 10, 9).precedes(&ts(0, 11, 0)));
    assert!(!ts(0, 11, 0).precedes(&ts(0, 10, 9)));
    assert!(ts(0, 10, 1).precedes(&ts(0, 10, 2)));
    assert!(!ts(0, 10, 2).precedes(&ts(0, 10, 2)));
    assert!(ts(0, u64::MAX, u32::MAX).precedes(&ts(1, 0, 0)));
}

#[test]
fn exactly_one_of_before_equal_after_holds() {
    let samples = [ts(0, 0, 0), ts(0, 0, 1), ts(0, 1, 0), ts(1, 0, 0), ts(1, 1, 1)];
    for a in samples.iter() {
        for b in samples.iter() {
            let before = a.precedes(b);
            let after = b.precedes(a);
            let same = a == b;
            let holding = [before, same, after].iter().filter(|x| **x).count();
            assert_eq!(holding, 1);
        }
    }
}

#[test]
fn compare_agrees_with_precedes() {
    assert_eq!(ts(0, 1, 0).compare(&ts(0, 2, 0)), Ordering::Less);
    assert_eq!(ts(0, 2, 0).compare(&ts(0, 1, 5)), Ordering::Greater);
    assert_eq!(ts(3, 2, 1).compare(&ts(3, 2, 1)), Ordering::Equal);
}

#[test]
fn precedes_or_equals_accepts_equal_timestamps() {
    assert!(ts(0, 7, 7).precedes_or_equals(&ts(0, 7, 7)));
    assert!(ts(0, 7, 6).precedes_or_equals(&ts(0, 7, 7)));
    assert!(!ts(0, 7, 8).precedes_or_equals(&ts(0, 7, 7)));
}

#[test]
fn later_picks_the_greater() {
    assert_eq!(ts(0, 5, 0).later(ts(0, 4, 9)), ts(0, 5, 0));
    assert_eq!(ts(0, 4, 9).later(ts(0, 5, 0)), ts(0, 5, 0));
}

#[test]
fn advance_exceeds_both_inputs() {
    let local = ts(0, 10, 3);
    let observed = ts(0, 10, 5);
    let next = advance(local, observed).unwrap();
    assert_eq!(next, ts(0, 10, 6));
    assert!(local.precedes(&next));
    assert!(observed.precedes(&next));
}

#[test]
fn advance_keeps_local_physical_when_it_is_ahead() {
    assert_eq!(advance(ts(0, 20, 0), ts(0, 10, 9)), Some(ts(0, 20, 1)));
    assert_eq!(advance(ts(0, 10, 9), ts(0, 20, 0)), Some(ts(0, 20, 1)));
}

#[test]
fn advance_carries_when_the_counter_is_exhausted() {
    assert_eq!(advance(ts(0, 5, u32::MAX), ts(0, 1, 0)), Some(ts(0, 6, 0)));
    assert_eq!(advance(ts(0, u64::MAX, u32::MAX), ts(0, 0, 0)), Some(ts(1, 0, 0)));
}

#[test]
fn advance_past_the_greatest_timestamp_gives_nothing() {
    let top = ts(u32::MAX, u64::MAX, u32::MAX);
    assert_eq!(advance(top, ts(0, 0, 0)), None);
    assert_eq!(advance(ts(0, 0, 0), top), None);
    assert_eq!(top.next(), None);
}

#[test]
fn next_is_the_direct_successor() {
    assert_eq!(ts(2, 3, 4).next(), Some(ts(2, 3, 5)));
}

#[test]
fn encoding_is_sixteen_big_endian_bytes() {
    assert_eq!(
        ts(1, 2, 3).encode(),
        vec![0, 0, 0, 1, 0, 0, 0, 0, 0, 0, 0, 2, 0, 0, 0, 3]
    );
    assert_eq!(
        ts(0x0102_0304, 0x0506_0708_090a_0b0c, 0x0d0e_0f10).encode(),
        vec![1, 2, 3, 4, 5, 6, 7, 8, 9, 10, 11, 12, 13, 14, 15, 16]
    );
}

#[test]
fn decode_undoes_encode() {
    let samples = [
        ts(0, 0, 0),
        ts(1, 2, 3),
        ts(u32::MAX, u64::MAX, u32::MAX),
        ts(7, 1_700_000_000_000_000_000, 42),
    ];
    for t in samples.iter() {
        assert_eq!(Timestamp::decode(&t.encode()), Some(*t));
    }
}

#[test]
fn decode_reads_the_components_in_order() {
    let bytes = [0, 0, 0, 9, 0, 0, 0, 0, 0, 0, 1, 0, 0, 0, 0, 7];
    assert_eq!(Timestamp::decode(&bytes), Some(ts(9, 256, 7)));
}

#[test]
fn decode_rejects_short_input() {
    assert_eq!(Timestamp::decode(&[]), None);
    assert_eq!(Timestamp::decode(&[0u8; 15]), None);
}

#[test]
fn decode_ignores_bytes_after_the_sixteenth() {
    let mut bytes = ts(4, 5, 6).encode();
    bytes.push(0xff);
    bytes.push(0x01);
    assert_eq!(Timestamp::decode(&bytes), Some(ts(4, 5, 6)));
}

#[test]
fn encoding_sorts_as_timestamps_do() {
    let samples = [
        ts(0, 0, 0),
        ts(0, 0, 1),
        ts(0, 0, 256),
        ts(0, 1, 0),
        ts(0, 255, 7),
        ts(0, 256, 0),
        ts(0, u64::MAX, u32::MAX),
        ts(1, 0, 0),
        ts(u32::MAX, 0, 0),
    ];
    for a in samples.iter() {
        for b in samples.iter() {
            assert_eq!(a.precedes(b), bytes_precede(&a.encode(), &b.encode()));
            assert_eq!(a == b, a.encode() == b.encode());
        }
    }
}

#[test]
fn bytes_precede_is_lexicographic() {
    assert!(bytes_precede(&[1, 2], &[1, 3]));
    assert!(!bytes_precede(&[1, 3], &[1, 2]));
    assert!(bytes_precede(&[1, 2], &[1, 2, 0]));
    assert!(!bytes_precede(&[1, 2, 0], &[1, 2]));
    assert!(!bytes_precede(&[1, 2], &[1, 2]));
    assert!(bytes_precede(&[], &[0]));
    assert!(!bytes_precede(&[], &[]));
    assert!(bytes_precede(&[0, 255], &[1]));
}

#[test]
fn comparison_operators_follow_the_order() {
    assert!(ts(0, 1, 9) < ts(0, 2, 0));
    assert!(ts(0, 2, 0) > ts(0, 1, 9));
    assert!(ts(0, 2, 0) <= ts(0, 2, 0));
    assert!(ts(1, 0, 0) >= ts(0, u64::MAX, u32::MAX));
    assert_eq!(ts(0, 3, 0).max(ts(0, 2, 5)), ts(0, 3, 0));
    let mut sorted = vec![ts(1, 0, 0), ts(0, 5, 1), ts(0, 5, 0), ts(0, 0, 9)];
    sorted.sort();
    assert_eq!(sorted, vec![ts(0, 0, 9), ts(0, 5, 0), ts(0, 5, 1), ts(1, 0, 0)]);
}
