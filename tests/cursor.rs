use dbsp::batch::OrdZSet;
use dbsp::cursor::{BatchCursor, CursorPair};

fn zset(v: Vec<(u64, i64)>) -> OrdZSet<u64, i64> {
    OrdZSet::from_tuples(v)
}

#[test]
fn merge_sums_and_drops_cancelled() {
    let a = zset(vec![(1, 1), (3, 2), (5, -1)]);
    let b = zset(vec![(2, 4), (3, -2), (5, 2), (6, 1)]);
    let m = a.merge(&b);
    assert_eq!(m.tuples(), &vec![(1, 1), (2, 4), (5, 1), (6, 1)]);
    assert_eq!(m.len(), 4);
    assert!(!m.is_empty());
}

#[test]
fn merge_with_empty() {
    let a = zset(vec![(4, 3)]);
    let e = OrdZSet::<u64, i64>::empty();
    assert_eq!(a.merge(&e).tuples(), &vec![(4, 3)]);
    assert_eq!(e.merge(&a).tuples(), &vec![(4, 3)]);
    assert!(e.merge(&e).is_empty());
}

#[test]
fn cursor_pair_forward() {
    let a = zset(vec![(1, 1), (3, 2)]);
    let b = zset(vec![(3, 5), (4, 1)]);
    let mut pair = CursorPair::new(a.cursor(), b.cursor());
    let mut seen = vec![];
    while pair.key_valid() {
        seen.push((*pair.key(), pair.weight()));
        pair.step_key();
    }
    assert_eq!(seen, vec![(1, 1), (3, 7), (4, 1)]);
}

#[test]
fn cursor_pair_backward_and_seek() {
    let a = zset(vec![(1, 1), (3, 2), (8, 1)]);
    let b = zset(vec![(3, 5), (4, 1)]);
    let mut pair = CursorPair::new(a.cursor(), b.cursor());
    pair.fast_forward_keys();
    let mut seen = vec![];
    while pair.key_valid() {
        seen.push((*pair.key(), pair.weight()));
        pair.step_key_reverse();
    }
    assert_eq!(seen, vec![(8, 1), (4, 1), (3, 7), (1, 1)]);

    pair.rewind_keys();
    pair.seek_key(&4);
    assert_eq!(*pair.key(), 4);
    pair.step_key();
    assert_eq!(*pair.key(), 8);
    pair.step_key();
    assert!(!pair.key_valid());

    pair.fast_forward_keys();
    pair.seek_key_reverse(&2);
    assert_eq!(*pair.key(), 1);
}

#[test]
fn batch_cursor_moves() {
    let data: Vec<(u64, i64)> = vec![(2, 1), (5, 3), (9, -1)];
    let mut c = BatchCursor::new(&data);
    assert!(c.key_valid());
    assert_eq!((*c.key(), *c.weight()), (2, 1));
    c.seek_key(&6);
    assert_eq!(*c.key(), 9);
    c.step_key();
    assert!(!c.key_valid());
    c.fast_forward_keys();
    assert_eq!(*c.key(), 9);
    c.seek_key_reverse(&4);
    assert_eq!(*c.key(), 2);
    c.step_key_reverse();
    assert!(!c.key_valid());
}

#[test]
fn negation_cancels_in_merge() {
    let a = zset(vec![(1, 2), (7, -3)]);
    let n = a.neg();
    assert_eq!(n.tuples(), &vec![(1, -2), (7, 3)]);
    assert!(a.merge(&n).is_empty());
}
