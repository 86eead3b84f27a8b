use std::cmp::Ordering;

use lib::bin_coding::{BitIterator, BitWriter, ParseError};
use lib::cost::Cost;
use lib::event_tree::{EventTree, Max, Min};
use lib::id_tree::{IdTree, Split, Sum};
use lib::interval_tree_clock::IntervalTreeClock;
use lib::less_than_or_equal::LessThanOrEqual;
use lib::normalisable::Normalisable;
use lib::stamp::Stamp;

fn leaf(n: u32) -> Box<EventTree> {
    Box::new(EventTree::leaf(n))
}

fn id(l: IdTree, r: IdTree) -> IdTree {
    IdTree::node(Box::new(l), Box::new(r))
}

#[test]
fn causality_of_fork_event_join() {
    let s = Stamp::seed();
    let (s1, s2) = s.fork();
    let s1prime = s1.event();
    let s2prime = s2.event();
    let s3 = s2prime.join(&s1);

    assert!(s.leq(&s1));
    assert!(s1.leq(&s1prime));
    assert!(!s1prime.leq(&s2prime));
    assert!(s2prime.leq(&s3));
}

#[test]
fn event_moves_strictly_forward() {
    let (a, _) = Stamp::seed().fork();
    let a1 = a.event();
    let a2 = a1.event();
    assert!(a.leq(&a1) && !a1.leq(&a));
    assert!(a1.leq(&a2) && !a2.leq(&a1));
}

#[test]
fn forked_events_are_concurrent() {
    let (a, b) = Stamp::seed().fork();
    let ea = a.event();
    let eb = b.event();
    assert!(!ea.leq(&eb));
    assert!(!eb.leq(&ea));
    assert_eq!(ea.partial_cmp(&eb), None);
}

#[test]
fn join_is_an_upper_bound() {
    let (a, b) = Stamp::seed().fork();
    let ea = a.event();
    let eb = b.event().event();
    let j = ea.join(&eb);
    assert!(ea.leq(&j));
    assert!(eb.leq(&j));
    assert_eq!(j.i, IdTree::one());
}

#[test]
fn join_of_event_trees_is_pointwise_max() {
    let a = EventTree::node(0, leaf(1), leaf(0));
    let b = EventTree::node(1, leaf(0), leaf(2));
    assert_eq!(a.join(&b), EventTree::node(1, leaf(0), leaf(2)));
    assert_eq!(a.join(&b), b.join(&a));
}

#[test]
fn join_is_idempotent_and_associative() {
    let e = EventTree::node(2, leaf(1), leaf(1));
    assert_eq!(e.join(&e), e.clone().norm());
    assert_eq!(e.join(&e), EventTree::leaf(3));
    let a = EventTree::node(0, leaf(4), leaf(0));
    let b = EventTree::node(1, leaf(0), Box::new(EventTree::node(0, leaf(0), leaf(5))));
    let c = EventTree::leaf(2);
    assert_eq!(a.join(&b).join(&c), a.join(&b.join(&c)));
}

#[test]
fn join_expands_a_leaf_facing_a_node() {
    let a = EventTree::leaf(2);
    let b = EventTree::node(1, leaf(0), leaf(3));
    assert_eq!(a.join(&b), EventTree::node(2, leaf(0), leaf(2)));
}

#[test]
fn norm_is_idempotent() {
    let e = EventTree::node(2, Box::new(EventTree::node(2, leaf(1), leaf(0))), leaf(3));
    let once = e.norm();
    assert_eq!(once.clone().norm(), once);
    let i = id(IdTree::one(), id(IdTree::one(), IdTree::one()));
    let i_once = i.norm();
    assert_eq!(i_once.clone().norm(), i_once);
}

#[test]
fn sum_undoes_split() {
    let i = id(IdTree::one(), id(IdTree::zero(), IdTree::one()));
    let (a, b) = i.split();
    assert_eq!(a, id(IdTree::one(), IdTree::zero()));
    assert_eq!(b, id(IdTree::zero(), id(IdTree::zero(), IdTree::one())));
    assert_eq!(a.sum(&b), i);
    assert_eq!(b.sum(&a), i);
}

#[test]
fn split_of_anonymous_and_of_a_half() {
    assert_eq!(IdTree::zero().split(), (IdTree::zero(), IdTree::zero()));
    let half = id(IdTree::zero(), IdTree::one());
    let (a, b) = half.split();
    assert_eq!(a, id(IdTree::zero(), id(IdTree::one(), IdTree::zero())));
    assert_eq!(b, id(IdTree::zero(), id(IdTree::zero(), IdTree::one())));
}

#[test]
fn sum_normalises() {
    let a = id(IdTree::one(), IdTree::zero());
    let b = id(IdTree::zero(), IdTree::one());
    assert_eq!(a.sum(&b), IdTree::one());
    assert_eq!(a.sum(&IdTree::zero()), a);
    assert_eq!(IdTree::zero().sum(&b), b);
}

#[test]
fn grow_increments_an_owned_leaf() {
    let (e, c) = Stamp::new(IdTree::one(), EventTree::leaf(5)).grow();
    assert_eq!(e, EventTree::leaf(6));
    assert_eq!(c, Cost::zero());
}

#[test]
fn grow_expands_a_leaf_and_counts_the_expansion() {
    let (e, c) = Stamp::new(id(IdTree::one(), IdTree::zero()), EventTree::zero()).grow();
    assert_eq!(e, EventTree::node(0, leaf(1), leaf(0)));
    assert_eq!(c, Cost { expansions: 1, steps: 1 });
}

#[test]
fn grow_picks_the_cheaper_side() {
    let i = id(IdTree::one(), id(IdTree::one(), IdTree::zero()));
    let (e, c) = Stamp::new(i, EventTree::node(0, leaf(0), leaf(0))).grow();
    assert_eq!(e, EventTree::node(0, leaf(1), leaf(0)));
    assert_eq!(c, Cost { expansions: 0, steps: 1 });
}

#[test]
fn fill_raises_owned_parts() {
    let s = Stamp::new(id(IdTree::one(), IdTree::zero()), EventTree::node(0, leaf(0), leaf(2)));
    assert_eq!(s.fill(), EventTree::leaf(2));
    assert_eq!(s.event(), Stamp::new(id(IdTree::one(), IdTree::zero()), EventTree::leaf(2)));
    let anon = Stamp::new(IdTree::zero(), EventTree::node(0, leaf(0), leaf(2)));
    assert_eq!(anon.fill(), EventTree::node(0, leaf(0), leaf(2)));
    let all = Stamp::new(IdTree::one(), EventTree::node(1, leaf(0), leaf(2)));
    assert_eq!(all.fill(), EventTree::leaf(3));
}

#[test]
fn min_and_max_of_event_trees() {
    let e = EventTree::node(1, leaf(2), Box::new(EventTree::node(1, leaf(0), leaf(3))));
    assert_eq!(e.min(), 2);
    assert_eq!(e.max(), 5);
    assert_eq!(e.n(), 1);
}

#[test]
fn lift_and_sink_move_the_root() {
    let mut e = EventTree::leaf(3);
    e.lift(2);
    assert_eq!(e, EventTree::leaf(5));
    e.sink(4);
    assert_eq!(e, EventTree::leaf(1));
    let mut n = EventTree::node(1, leaf(0), leaf(2));
    n.lift(3);
    assert_eq!(n, EventTree::node(4, leaf(0), leaf(2)));
}

#[test]
fn partial_order_of_event_trees() {
    assert_eq!(EventTree::leaf(1).partial_cmp(&EventTree::leaf(2)), Some(Ordering::Less));
    assert_eq!(EventTree::leaf(2).partial_cmp(&EventTree::leaf(1)), Some(Ordering::Greater));
    let a = EventTree::node(2, leaf(1), leaf(1));
    assert_eq!(a.partial_cmp(&EventTree::leaf(3)), Some(Ordering::Equal));
    let l = EventTree::node(0, leaf(1), leaf(0));
    let r = EventTree::node(0, leaf(0), leaf(1));
    assert_eq!(l.partial_cmp(&r), None);
    assert_eq!(l.partial_cmp(&EventTree::leaf(1)), Some(Ordering::Less));
    assert_eq!(EventTree::leaf(1).partial_cmp(&l), Some(Ordering::Greater));
    let s = Stamp::new(IdTree::one(), EventTree::leaf(1));
    let t = Stamp::new(IdTree::zero(), EventTree::leaf(2));
    assert_eq!(s.partial_cmp(&t), Some(Ordering::Less));
}

#[test]
fn comparison_agrees_with_leq() {
    let trees = vec![
        EventTree::leaf(0),
        EventTree::leaf(1),
        EventTree::node(0, leaf(1), leaf(0)),
        EventTree::node(0, leaf(0), leaf(1)),
        EventTree::node(1, leaf(0), leaf(2)),
    ];
    for a in &trees {
        for b in &trees {
            let below = matches!(a.partial_cmp(b), Some(Ordering::Less) | Some(Ordering::Equal));
            assert_eq!(below, a.leq(b));
            assert_eq!(a.partial_cmp(b) == Some(Ordering::Equal), a == b);
        }
    }
}

#[test]
fn leq_compares_counters_first() {
    let a = EventTree::node(0, leaf(1), leaf(0));
    assert!(a.leq(&EventTree::leaf(1)));
    assert!(!EventTree::leaf(1).leq(&a));
    assert!(a.leq(&a));
    // Against a tree that is not normal, the comparison of counters decides.
    assert!(!EventTree::leaf(1).leq(&EventTree::node(0, leaf(1), leaf(1))));
}

#[test]
fn peek_send_receive_sync() {
    let (a, b) = Stamp::seed().fork();
    let (anon, same) = a.peek();
    assert_eq!(anon, Stamp::new(IdTree::zero(), EventTree::zero()));
    assert_eq!(same, a);

    let (msg, a1) = a.send();
    assert_eq!(a1, a.event());
    assert_eq!(msg, Stamp::new(IdTree::zero(), a.event().e));

    let b1 = b.receive(&msg);
    assert_eq!(b1, b.join(&msg).event());
    assert!(msg.leq(&b1) && !b1.leq(&msg));

    let (x, y) = a1.sync(&b1);
    assert_eq!((x.clone(), y.clone()), a1.join(&b1).fork());
    assert_eq!(x.e, y.e);
}

#[test]
fn stamp_norm_normalises_both_trees() {
    let s = Stamp::new(id(IdTree::one(), IdTree::one()), EventTree::node(2, leaf(1), leaf(1)));
    assert_eq!(s.norm(), Stamp::new(IdTree::one(), EventTree::leaf(3)));
}

#[test]
fn seed_encodes_to_one_byte_and_back() {
    let bytes = Stamp::seed().to_bytes();
    assert_eq!(bytes, vec![0x30]);
    assert_eq!(Stamp::try_from_bytes(bytes), Ok(Stamp::seed()));
}

#[test]
fn id_tree_encodes_and_decodes() {
    let i = id(IdTree::one(), id(IdTree::zero(), IdTree::one()));
    let bytes = i.to_bytes();
    assert_eq!(bytes, vec![0xCA, 0x40]);
    assert_eq!(IdTree::try_from_bytes(bytes), Ok(i));
}

#[test]
fn anonymous_id_encodes_to_nothing() {
    let bytes = IdTree::zero().to_bytes();
    assert_eq!(bytes, Vec::<u8>::new());
    assert_eq!(IdTree::try_from_bytes(bytes), Err(ParseError::EndOfEncoding));
}

#[test]
fn event_tree_encodes_and_decodes() {
    let e = EventTree::node(0, leaf(1), leaf(0));
    let bytes = e.to_bytes();
    assert_eq!(bytes, vec![0x32]);
    assert_eq!(EventTree::try_from_bytes(bytes), Ok(e));
    let f = EventTree::node(2, leaf(0), leaf(3));
    assert_eq!(EventTree::try_from_bytes(f.to_bytes()), Ok(f));
}

#[test]
fn wide_counters_do_not_decode_back() {
    let bytes = EventTree::leaf(4).to_bytes();
    assert_eq!(bytes, vec![0x80]);
    assert_eq!(EventTree::try_from_bytes(bytes), Ok(EventTree::leaf(0)));
}

#[test]
fn decoding_nothing_is_an_error() {
    assert_eq!(Stamp::try_from_bytes(vec![]), Err(ParseError::EndOfEncoding));
    assert_eq!(EventTree::try_from_bytes(vec![]), Err(ParseError::EndOfEncoding));
    assert_eq!(ParseError::EndOfEncoding.to_string(), "Unexpected end of encoding encountered.");
}

#[test]
fn bit_writer_packs_bits() {
    let mut w = BitWriter::new();
    w.write_bits(5, 3);
    assert_eq!(w.finalize(), vec![0xA0]);
    let mut w = BitWriter::new();
    w.write_bits(0xFF, 8);
    w.write_bit(false);
    assert_eq!(w.finalize(), vec![0xFF]);
    let mut w = BitWriter::new();
    w.write_bit(true);
    w.write_bits(0, 8);
    w.write_bit(true);
    assert_eq!(w.finalize(), vec![0x80, 0x40]);
}

#[test]
fn bit_iterator_reads_bits_in_order() {
    let mut it = BitIterator::new(vec![0xA0]);
    let mut bits = Vec::new();
    while let Some(b) = it.next() {
        bits.push(b);
    }
    assert_eq!(bits, vec![true, false, true, false, false, false, false, false]);
    assert_eq!(it.next(), None);
}

#[test]
fn costs_compare_expansions_first() {
    let z = Cost::zero();
    assert_eq!(z.shift(), Cost { expansions: 1, steps: 0 });
    assert_eq!(z.step(), Cost { expansions: 0, steps: 1 });
    assert!(z.step().step().less_than(&z.shift()));
    assert!(!z.shift().less_than(&z.step()));
    let top = Cost { expansions: u64::MAX, steps: u64::MAX };
    assert_eq!(top.shift(), top);
    assert_eq!(top.step(), top);
}

#[test]
fn event_grows_beside_a_full_counter() {
    let i = id(IdTree::zero(), id(IdTree::zero(), IdTree::one()));
    let e = EventTree::node(0, Box::new(EventTree::leaf(u32::MAX)), Box::new(EventTree::node(0, leaf(0), leaf(1))));
    let s = Stamp::new(i.clone(), e.clone());
    assert_eq!(s.fill(), e);
    let t = s.event();
    assert_eq!(t.i, i);
    assert_eq!(
        t.e,
        EventTree::node(0, Box::new(EventTree::leaf(u32::MAX)), Box::new(EventTree::node(0, leaf(0), leaf(2))))
    );
    assert!(s.leq(&t));
    assert!(!t.leq(&s));
}

#[test]
fn fill_twice_is_fill() {
    let cases = vec![
        (id(IdTree::one(), IdTree::zero()), EventTree::node(0, leaf(0), leaf(2))),
        (
            id(IdTree::one(), id(IdTree::zero(), IdTree::one())),
            EventTree::node(1, leaf(0), Box::new(EventTree::node(0, leaf(3), leaf(0)))),
        ),
        (
            id(id(IdTree::one(), IdTree::zero()), id(IdTree::zero(), IdTree::one())),
            EventTree::node(0, Box::new(EventTree::node(0, leaf(0), leaf(4))), Box::new(EventTree::node(2, leaf(1), leaf(0)))),
        ),
    ];
    for (i, e) in cases {
        let f = Stamp::new(i.clone(), e.clone()).fill();
        assert_eq!(Stamp::new(i.clone(), f.clone()).fill(), f);
    }
}

#[test]
fn checked_decoding_reports_counters_too_wide() {
    assert_eq!(EventTree::checked_from_bytes(vec![0xFF, 0xFF, 0xFF, 0xFF]), None);
    assert_eq!(Stamp::checked_from_bytes(vec![0x3F, 0xFF, 0xFF, 0xFF, 0xFF]), None);
    assert_eq!(Stamp::checked_from_bytes(vec![]), Some(Err(ParseError::EndOfEncoding)));
    assert_eq!(EventTree::checked_from_bytes(vec![]), Some(Err(ParseError::EndOfEncoding)));
    let seed = Stamp::seed();
    assert_eq!(Stamp::checked_from_bytes(seed.to_bytes()), Some(Ok(seed)));
    assert_eq!(EventTree::checked_from_bytes(vec![0x80]), Some(Ok(EventTree::leaf(0))));
}

#[test]
fn decoder_reads_counted_node_with_two_node_children() {
    let left = EventTree::node(0, leaf(1), leaf(0));
    let right = EventTree::node(0, leaf(0), leaf(1));
    let e = EventTree::node(1, Box::new(left), Box::new(right));
    assert_eq!(EventTree::try_from_bytes(vec![0x79, 0x64, 0x90]), Ok(e));
}

#[test]
fn join_undoes_fork_beyond_the_counters_range() {
    let e = EventTree::node(u32::MAX, leaf(0), leaf(1));
    let s = Stamp::new(id(IdTree::one(), id(IdTree::zero(), IdTree::one())), e);
    let (a, b) = s.fork();
    assert_eq!(a.join(&b), s);
    let t = Stamp::new(IdTree::one(), EventTree::node(3, leaf(0), Box::new(EventTree::node(0, leaf(2), leaf(0)))));
    let (c, d) = t.fork();
    assert_eq!(c.join(&d), t);
}

#[test]
fn comparisons_and_fill_beyond_the_counters_range() {
    let wide = EventTree::node(u32::MAX, leaf(0), leaf(1));
    assert!(EventTree::leaf(0).leq(&wide));
    assert!(!EventTree::node(u32::MAX, leaf(1), leaf(0)).leq(&EventTree::leaf(0)));
    let s = Stamp::new(IdTree::zero(), wide.clone());
    assert_eq!(s.fill(), wide);
    let t = Stamp::new(id(IdTree::one(), IdTree::zero()), EventTree::leaf(u32::MAX));
    assert_eq!(t.fill(), EventTree::leaf(u32::MAX));
}

#[test]
fn bits_are_read_in_order_then_none() {
    let bytes = vec![0xA5u8, 0x01];
    let mut it = BitIterator::new(bytes.clone());
    for k in 0..16 {
        let expected = (bytes[k / 8] >> (7 - k % 8)) & 1 == 1;
        assert_eq!(it.next(), Some(expected));
    }
    assert_eq!(it.next(), None);
    assert_eq!(it.next(), None);
}
