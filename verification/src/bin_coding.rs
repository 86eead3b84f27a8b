use vstd::prelude::*;
use vstd::arithmetic::power2::pow2;

use crate::event_tree::EventTree;
use crate::id_tree::IdTree;
use crate::stamp::Stamp;

verus! {

/// Why decoding failed.
#[derive(Debug, Clone, Copy, PartialEq, Eq)]
pub enum ParseError {
    EndOfEncoding,
}

impl ParseError {
    /// The message that describes the error.
    pub fn to_string(&self) -> (r: String)
        ensures
            r@ == "Unexpected end of encoding encountered."@,
    {
        match self {
            ParseError::EndOfEncoding => "Unexpected end of encoding encountered.".to_owned(),
        }
    }
}

/// Bit `k` of a byte, counting from the most significant bit.
pub open spec fn bit_of(b: u8, k: int) -> bool {
    ((b >> ((7 - k) as u8)) & 1u8) == 1u8
}

/// The bits of a byte, most significant first.
pub open spec fn byte_bits(b: u8) -> Seq<bool> {
    Seq::new(8, |k: int| bit_of(b, k))
}

/// The bits of a byte string, each byte most significant bit first.
pub open spec fn bytes_to_bits(s: Seq<u8>) -> Seq<bool>
    decreases s.len(),
{
    if s.len() == 0 {
        Seq::empty()
    } else {
        bytes_to_bits(s.drop_last()) + byte_bits(s.last())
    }
}

/// The last `count` bits of `x`, most significant first.
pub open spec fn num_bits(x: u32, count: nat) -> Seq<bool> {
    Seq::new(count, |k: int| ((x >> ((count - 1 - k) as u32)) & 1u32) == 1u32)
}

/// The bits below position `o` of a byte are clear.
pub open spec fn low_bits_clear(c: u8, o: u8) -> bool {
    ((c as u16) & (((1u16 << (o as u16)) - 1u16) as u16)) == 0u16
}

/// The bits that `finalize` turns into bytes: complete bytes as they are, and
/// a last incomplete byte padded with zeros if it holds a one, dropped if it
/// does not.
pub open spec fn packed_bits(bits: Seq<bool>) -> Seq<bool> {
    let full = bits.len() - bits.len() % 8;
    let tail = bits.subrange(full, bits.len() as int);
    if tail.contains(true) {
        bits + Seq::new((8 - tail.len()) as nat, |k: int| false)
    } else {
        bits.subrange(0, full)
    }
}

pub proof fn lemma_bytes_to_bits_len(s: Seq<u8>)
    ensures
        bytes_to_bits(s).len() == 8 * s.len(),
    decreases s.len(),
{
    if s.len() > 0 {
        lemma_bytes_to_bits_len(s.drop_last());
    }
}

pub proof fn lemma_bytes_to_bits_push(s: Seq<u8>, b: u8)
    ensures
        bytes_to_bits(s.push(b)) == bytes_to_bits(s) + byte_bits(b),
{
    assert(s.push(b).drop_last() =~= s);
}

/// A byte is determined by its bits.
pub proof fn lemma_byte_bits_injective(a: u8, b: u8)
    requires
        byte_bits(a) == byte_bits(b),
    ensures
        a == b,
{
    assert forall|j: u8| j < 8 implies ((a >> j) & 1u8) == ((b >> j) & 1u8) by {
        let k = 7 - j as int;
        assert(byte_bits(a)[k] == byte_bits(b)[k]);
        assert(((7 - k) as u8) == j);
        assert(byte_bits(a)[k] == bit_of(a, k));
        assert(byte_bits(b)[k] == bit_of(b, k));
        assert((((a >> j) & 1u8) == 1u8) == (((b >> j) & 1u8) == 1u8));
        assert(((a >> j) & 1u8) == 0u8 || ((a >> j) & 1u8) == 1u8) by (bit_vector);
        assert(((b >> j) & 1u8) == 0u8 || ((b >> j) & 1u8) == 1u8) by (bit_vector);
    }
    let (a0, a1, a2, a3, a4, a5, a6, a7) = (
        (a >> 0u8) & 1u8, (a >> 1u8) & 1u8, (a >> 2u8) & 1u8, (a >> 3u8) & 1u8,
        (a >> 4u8) & 1u8, (a >> 5u8) & 1u8, (a >> 6u8) & 1u8, (a >> 7u8) & 1u8,
    );
    assert(a0 == (b >> 0u8) & 1u8 && a1 == (b >> 1u8) & 1u8 && a2 == (b >> 2u8) & 1u8
        && a3 == (b >> 3u8) & 1u8 && a4 == (b >> 4u8) & 1u8 && a5 == (b >> 5u8) & 1u8
        && a6 == (b >> 6u8) & 1u8 && a7 == (b >> 7u8) & 1u8);
    assert(a == b) by (bit_vector)
        requires
            (a >> 0u8) & 1u8 == (b >> 0u8) & 1u8,
            (a >> 1u8) & 1u8 == (b >> 1u8) & 1u8,
            (a >> 2u8) & 1u8 == (b >> 2u8) & 1u8,
            (a >> 3u8) & 1u8 == (b >> 3u8) & 1u8,
            (a >> 4u8) & 1u8 == (b >> 4u8) & 1u8,
            (a >> 5u8) & 1u8 == (b >> 5u8) & 1u8,
            (a >> 6u8) & 1u8 == (b >> 6u8) & 1u8,
            (a >> 7u8) & 1u8 == (b >> 7u8) & 1u8,
    ;
}

/// A byte string is determined by its bits, so a contract over the bits of
/// the bytes returned pins the bytes down.
pub proof fn lemma_bytes_to_bits_injective(a: Seq<u8>, b: Seq<u8>)
    requires
        bytes_to_bits(a) == bytes_to_bits(b),
    ensures
        a == b,
    decreases a.len(),
{
    lemma_bytes_to_bits_len(a);
    lemma_bytes_to_bits_len(b);
    if a.len() > 0 {
        lemma_bytes_to_bits_len(a.drop_last());
        lemma_bytes_to_bits_len(b.drop_last());
        let x = bytes_to_bits(a);
        let n = bytes_to_bits(a.drop_last()).len() as int;
        assert(bytes_to_bits(a.drop_last()) =~= x.subrange(0, n));
        assert(bytes_to_bits(b.drop_last()) =~= x.subrange(0, n));
        assert(byte_bits(a.last()) =~= x.subrange(n, x.len() as int));
        assert(byte_bits(b.last()) =~= x.subrange(n, x.len() as int));
        lemma_bytes_to_bits_injective(a.drop_last(), b.drop_last());
        lemma_byte_bits_injective(a.last(), b.last());
        assert(a =~= a.drop_last().push(a.last()));
        assert(b =~= b.drop_last().push(b.last()));
    }
}

/// Bit `k` of byte `j` sits at position `8 * j + k` of the bits.
pub proof fn lemma_bytes_to_bits_index(s: Seq<u8>, j: int, k: int)
    requires
        0 <= j < s.len(),
        0 <= k < 8,
    ensures
        bytes_to_bits(s)[8 * j + k] == bit_of(s[j], k),
    decreases s.len(),
{
    lemma_bytes_to_bits_len(s.drop_last());
    if j < s.len() - 1 {
        lemma_bytes_to_bits_index(s.drop_last(), j, k);
    }
}

proof fn lemma_set_bit(c: u8, o: u8, j: u8)
    by (bit_vector)
    requires
        1 <= o <= 8,
        j < 8,
        ((c as u16) & (((1u16 << (o as u16)) - 1u16) as u16)) == 0u16,
    ensures
        j != o - 1 ==> (((c | (1u8 << ((o - 1) as u8))) >> j) & 1u8) == ((c >> j) & 1u8),
        (((c | (1u8 << ((o - 1) as u8))) >> ((o - 1) as u8)) & 1u8) == 1u8,
        ((c >> ((o - 1) as u8)) & 1u8) == 0u8,
        (((c | (1u8 << ((o - 1) as u8))) as u16) & (((1u16 << ((o - 1) as u16)) - 1u16) as u16)) == 0u16,
        ((c as u16) & (((1u16 << ((o - 1) as u16)) - 1u16) as u16)) == 0u16,
{
}

proof fn lemma_clear_byte(o: u8)
    by (bit_vector)
    requires
        o <= 8,
    ensures
        ((0u8 as u16) & (((1u16 << (o as u16)) - 1u16) as u16)) == 0u16,
{
}

proof fn lemma_zero_bits(k: u8)
    by (bit_vector)
    requires
        k < 8,
    ensures
        ((0u8 >> k) & 1u8) == 0u8,
{
}

/// A byte whose bits below `o` are clear is non-zero exactly when one of its
/// bits above is set.
proof fn lemma_nonzero_byte(c: u8, o: u8)
    requires
        1 <= o <= 8,
        low_bits_clear(c, o),
    ensures
        (c != 0) == byte_bits(c).subrange(0, 8 - o).contains(true),
        byte_bits(c) == byte_bits(c).subrange(0, 8 - o) + Seq::new(o as nat, |k: int| false),
{
    let s = byte_bits(c);
    assert(((c >> 7u8) & 1u8 == 1u8 && 7 >= o) || ((c >> 6u8) & 1u8 == 1u8 && 6 >= o)
        || ((c >> 5u8) & 1u8 == 1u8 && 5 >= o) || ((c >> 4u8) & 1u8 == 1u8 && 4 >= o)
        || ((c >> 3u8) & 1u8 == 1u8 && 3 >= o) || ((c >> 2u8) & 1u8 == 1u8 && 2 >= o)
        || ((c >> 1u8) & 1u8 == 1u8 && 1 >= o) || c == 0) by (bit_vector)
        requires
            1 <= o <= 8,
            ((c as u16) & (((1u16 << (o as u16)) - 1u16) as u16)) == 0u16,
    ;
    assert forall|j: u8| j < 8 && j < o implies ((c >> j) & 1u8) == 0u8 by {
        assert(((c >> j) & 1u8) == 0u8) by (bit_vector)
            requires
                j < 8,
                j < o,
                ((c as u16) & (((1u16 << (o as u16)) - 1u16) as u16)) == 0u16,
        ;
    }
    let t = s.subrange(0, 8 - o);
    if c == 0 {
        assert forall|k: int| 0 <= k < t.len() implies !#[trigger] t[k] by {
            lemma_zero_bits((7 - k) as u8);
        }
    } else {
        let j: u8 = if (c >> 7u8) & 1u8 == 1u8 && 7 >= o {
            7
        } else if (c >> 6u8) & 1u8 == 1u8 && 6 >= o {
            6
        } else if (c >> 5u8) & 1u8 == 1u8 && 5 >= o {
            5
        } else if (c >> 4u8) & 1u8 == 1u8 && 4 >= o {
            4
        } else if (c >> 3u8) & 1u8 == 1u8 && 3 >= o {
            3
        } else if (c >> 2u8) & 1u8 == 1u8 && 2 >= o {
            2
        } else {
            1
        };
        assert(t[7 - j]);
    }
    assert forall|k: int| 0 <= k < 8 implies s[k] == (s.subrange(0, 8 - o) + Seq::new(o as nat, |k: int| false))[k] by {
        if k >= 8 - o {
            assert(((c >> ((7 - k) as u8)) & 1u8) == 0u8);
        }
    }
    assert(s =~= s.subrange(0, 8 - o) + Seq::new(o as nat, |k: int| false));
}


/// `2 << b` as a counter: the bound below which a number is written in `b`
/// bits at width `b`. At width 31 the shift loses its only bit.
pub open spec fn threshold(b: nat) -> int {
    if b < 32 {
        (2u32 << (b as u32)) as int
    } else {
        0
    }
}

/// The counter can be written from width `b` on without the width running
/// past the counters' size.
pub open spec fn u32_encodable(n: u32, b: nat) -> bool
    decreases 32 - b,
{
    if b >= 32 {
        false
    } else if n < threshold(b) {
        true
    } else {
        u32_encodable((n - threshold(b)) as u32, b + 1)
    }
}

/// The bits that `encode_u32` writes for `n` at width `b`: a zero and the
/// last `b` bits of `n` if `n` is below `2 << b`, otherwise a one and the
/// rest at the next width.
pub open spec fn u32_bits(n: u32, b: nat) -> Seq<bool>
    decreases 32 - b,
{
    if b >= 32 {
        Seq::empty()
    } else if n < threshold(b) {
        seq![false] + num_bits(n, b)
    } else {
        seq![true] + u32_bits((n - threshold(b)) as u32, b + 1)
    }
}

/// The bits of a counter: a one, then the counter from width 2.
pub open spec fn n_bits(n: u32) -> Seq<bool> {
    seq![true] + u32_bits(n, 2)
}

/// The encoding of an identity tree.
pub open spec fn id_bits(i: IdTree) -> Seq<bool>
    decreases i,
{
    match i {
        IdTree::Leaf { i: false } => seq![false, false, false],
        IdTree::Leaf { i: true } => seq![false, false, true],
        IdTree::Node { left, right } => if left.is_zero() {
            seq![false, true] + id_bits(*right)
        } else if right.is_zero() {
            seq![true, false] + id_bits(*left)
        } else {
            seq![true, true] + id_bits(*left) + id_bits(*right)
        },
    }
}

pub open spec fn is_zero_leaf(e: EventTree) -> bool {
    e == (EventTree::Leaf { n: 0 })
}

/// The encoding of an event tree.
pub open spec fn event_bits(e: EventTree) -> Seq<bool>
    decreases e,
{
    match e {
        EventTree::Leaf { n } => n_bits(n),
        EventTree::Node { n, left, right } => if n == 0 {
            seq![false] + if is_zero_leaf(*left) {
                seq![false, false] + event_bits(*right)
            } else if is_zero_leaf(*right) {
                seq![false, true] + event_bits(*left)
            } else {
                seq![true, false] + event_bits(*left) + event_bits(*right)
            }
        } else {
            seq![false, true, true] + if is_zero_leaf(*left) {
                seq![false, false] + n_bits(n) + event_bits(*right)
            } else if is_zero_leaf(*right) {
                seq![false, true] + n_bits(n) + event_bits(*left)
            } else {
                seq![true] + n_bits(n) + event_bits(*left) + event_bits(*right)
            }
        },
    }
}

/// Every counter that the encoding writes can be written.
pub open spec fn event_encodable(e: EventTree) -> bool
    decreases e,
{
    match e {
        EventTree::Leaf { n } => u32_encodable(n, 2),
        EventTree::Node { n, left, right } => {
            &&& (n == 0 || u32_encodable(n, 2))
            &&& event_encodable(*left)
            &&& event_encodable(*right)
        },
    }
}

/// The bits of the small constants the encoders write.
pub proof fn lemma_small_num_bits()
    ensures
        num_bits(0, 3) == seq![false, false, false],
        num_bits(1, 3) == seq![false, false, true],
        num_bits(0, 2) == seq![false, false],
        num_bits(1, 2) == seq![false, true],
        num_bits(2, 2) == seq![true, false],
        num_bits(3, 2) == seq![true, true],
{
    assert((0u32 >> 2u32) & 1u32 == 0u32 && (0u32 >> 1u32) & 1u32 == 0u32 && (0u32 >> 0u32) & 1u32 == 0u32) by (bit_vector);
    assert((1u32 >> 2u32) & 1u32 == 0u32 && (1u32 >> 1u32) & 1u32 == 0u32 && (1u32 >> 0u32) & 1u32 == 1u32) by (bit_vector);
    assert((2u32 >> 1u32) & 1u32 == 1u32 && (2u32 >> 0u32) & 1u32 == 0u32) by (bit_vector);
    assert((3u32 >> 1u32) & 1u32 == 1u32 && (3u32 >> 0u32) & 1u32 == 1u32) by (bit_vector);
    assert(num_bits(0, 3) =~= seq![false, false, false]);
    assert(num_bits(1, 3) =~= seq![false, false, true]);
    assert(num_bits(0, 2) =~= seq![false, false]);
    assert(num_bits(1, 2) =~= seq![false, true]);
    assert(num_bits(2, 2) =~= seq![true, false]);
    assert(num_bits(3, 2) =~= seq![true, true]);
}

/// `2 << b` computes the threshold.
proof fn lemma_threshold(b: u8)
    requires
        b < 32,
    ensures
        (2u32 << b) == threshold(b as nat),
{
    assert((2u32 << b) == (2u32 << (b as u32))) by (bit_vector);
}


/// The value of bits read as a binary number, most significant first.
pub open spec fn bits_value(s: Seq<bool>) -> nat
    decreases s.len(),
{
    if s.len() == 0 {
        0
    } else {
        2 * bits_value(s.drop_last()) + if s.last() {
            1nat
        } else {
            0nat
        }
    }
}

/// Decoding outcomes: `Some(Some((value, used)))` when a value was read from
/// the first `used` bits, `Some(None)` when the bits hold no value, and `None`
/// when reading overflows a counter.
pub open spec fn read<T>(v: T, used: int) -> Option<Option<(T, int)>> {
    Some(Some((v, used)))
}

/// A parse agrees with a decoding outcome: it overflows exactly where the
/// decoding does, finds nothing where it does, and otherwise returns its
/// value, having read exactly the bits that the decoding used.
pub open spec fn parsed_as<T>(d: Option<Option<(T, int)>>, r: Option<Option<T>>, before: Seq<bool>, after: Seq<bool>) -> bool {
    match d {
        None => r is None,
        Some(None) => r == Some(None::<T>),
        Some(Some((t, k))) => r == Some(Some(t)) && after == before.skip(k),
    }
}

/// A counter from width `b`: a zero and `b` bits, or a one, `2^b`, and the
/// rest at the next width.
pub open spec fn dec_u32(s: Seq<bool>, b: nat) -> Option<Option<(u32, int)>>
    decreases s.len(),
{
    if s.len() == 0 {
        Some(None)
    } else if s[0] {
        if b >= 32 {
            None
        } else {
            match dec_u32(s.drop_first(), b + 1) {
                None => None,
                Some(None) => Some(None),
                Some(Some((v, k))) => if pow2(b) + v > u32::MAX {
                    None
                } else {
                    read((pow2(b) + v) as u32, k + 1)
                },
            }
        }
    } else if s.len() < 1 + b {
        Some(None)
    } else {
        read(bits_value(s.subrange(1, 1 + b as int)) as u32, 1 + b as int)
    }
}

/// A counter of a node: a one, then the counter from width 2.
pub open spec fn dec_n(s: Seq<bool>) -> Option<Option<(u32, int)>> {
    if s.len() == 0 || !s[0] {
        Some(None)
    } else {
        match dec_u32(s.drop_first(), 2) {
            Some(Some((v, k))) => read(v, k + 1),
            other => other,
        }
    }
}

/// An identity tree.
pub open spec fn dec_id(s: Seq<bool>) -> Option<(IdTree, int)>
    decreases s.len(),
{
    let zero = IdTree::Leaf { i: false };
    if s.len() < 2 {
        None
    } else if !s[0] && !s[1] {
        if s.len() < 3 {
            None
        } else {
            Some((IdTree::Leaf { i: s[2] }, 3))
        }
    } else if !s[0] && s[1] {
        match dec_id(s.skip(2)) {
            Some((r, k)) => Some((IdTree::Node { left: Box::new(zero), right: Box::new(r) }, k + 2)),
            None => None,
        }
    } else if s[0] && !s[1] {
        match dec_id(s.skip(2)) {
            Some((l, k)) => Some((IdTree::Node { left: Box::new(l), right: Box::new(zero) }, k + 2)),
            None => None,
        }
    } else {
        match dec_id(s.skip(2)) {
            Some((l, k1)) => if 0 <= k1 <= s.len() - 2 {
                match dec_id(s.skip(2 + k1)) {
                    Some((r, k2)) => Some((IdTree::Node { left: Box::new(l), right: Box::new(r) }, 2 + k1 + k2)),
                    None => None,
                }
            } else {
                None
            },
            None => None,
        }
    }
}

/// An event tree: a one and a leaf counter, or a zero and a node.
pub open spec fn dec_event(s: Seq<bool>) -> Option<Option<(EventTree, int)>>
    decreases s.len(), 3nat,
{
    if s.len() == 0 {
        Some(None)
    } else if s[0] {
        match dec_u32(s.drop_first(), 2) {
            Some(Some((n, k))) => read(EventTree::Leaf { n }, k + 1),
            None => None,
            Some(None) => Some(None),
        }
    } else {
        match dec_node(s.drop_first()) {
            Some(Some((t, k))) => read(t, k + 1),
            other => other,
        }
    }
}

/// The node of an event tree, after its leading zero: two bits tell which
/// children follow, or that a counter follows.
pub open spec fn dec_node(s: Seq<bool>) -> Option<Option<(EventTree, int)>>
    decreases s.len(), 2nat,
{
    let zero = EventTree::Leaf { n: 0 };
    if s.len() < 2 {
        Some(None)
    } else if !s[0] && !s[1] {
        match dec_event(s.skip(2)) {
            Some(Some((r, k))) => read(EventTree::Node { n: 0, left: Box::new(zero), right: Box::new(r) }, k + 2),
            other => other,
        }
    } else if !s[0] && s[1] {
        match dec_event(s.skip(2)) {
            Some(Some((l, k))) => read(EventTree::Node { n: 0, left: Box::new(l), right: Box::new(zero) }, k + 2),
            other => other,
        }
    } else if s[0] && !s[1] {
        match dec_event(s.skip(2)) {
            Some(Some((l, k1))) => if 0 <= k1 <= s.len() - 2 {
                match dec_event(s.skip(2 + k1)) {
                    Some(Some((r, k2))) => read(
                        EventTree::Node { n: 0, left: Box::new(l), right: Box::new(r) },
                        2 + k1 + k2,
                    ),
                    other => other,
                }
            } else {
                Some(None)
            },
            other => other,
        }
    } else {
        match dec_counted_node(s.skip(2)) {
            Some(Some((t, k))) => read(t, k + 2),
            other => other,
        }
    }
}

/// A node with a counter, after its header: a zero, a bit telling on which
/// side the only child is, the counter and the child; or a one, the counter
/// and two nodes.
pub open spec fn dec_counted_node(s: Seq<bool>) -> Option<Option<(EventTree, int)>>
    decreases s.len(), 1nat,
{
    let zero = EventTree::Leaf { n: 0 };
    if s.len() < 1 {
        Some(None)
    } else if !s[0] {
        if s.len() < 2 {
            Some(None)
        } else {
            match dec_n(s.skip(2)) {
                Some(Some((n, k1))) => if 0 <= k1 <= s.len() - 2 {
                    match dec_event(s.skip(2 + k1)) {
                        Some(Some((t, k2))) => read(
                            if s[1] {
                                EventTree::Node { n, left: Box::new(t), right: Box::new(zero) }
                            } else {
                                EventTree::Node { n, left: Box::new(zero), right: Box::new(t) }
                            },
                            2 + k1 + k2,
                        ),
                        other => other,
                    }
                } else {
                    Some(None)
                },
                None => None,
                Some(None) => Some(None),
            }
        }
    } else {
        match dec_n(s.skip(1)) {
            Some(Some((n, k1))) => if 0 <= k1 <= s.len() - 1 {
                match dec_node(s.skip(1 + k1)) {
                    Some(Some((l, k2))) => if 0 <= k2 <= s.len() - 1 - k1 {
                        match dec_node(s.skip(1 + k1 + k2)) {
                            Some(Some((r, k3))) => read(
                                EventTree::Node { n, left: Box::new(l), right: Box::new(r) },
                                1 + k1 + k2 + k3,
                            ),
                            other => other,
                        }
                    } else {
                        Some(None)
                    },
                    other => other,
                }
            } else {
                Some(None)
            },
            None => None,
            Some(None) => Some(None),
        }
    }
}

/// A stamp: an identity tree, then an event tree.
pub open spec fn dec_stamp(s: Seq<bool>) -> Option<Option<(Stamp, int)>> {
    match dec_id(s) {
        None => Some(None),
        Some((i, k1)) => if 0 <= k1 <= s.len() {
            match dec_event(s.skip(k1)) {
                Some(Some((e, k2))) => read(Stamp { i, e }, k1 + k2),
                None => None,
                Some(None) => Some(None),
            }
        } else {
            Some(None)
        },
    }
}


/// The value of `n` bits is below `2^n`.
pub proof fn lemma_bits_value_bound(s: Seq<bool>)
    ensures
        bits_value(s) < pow2(s.len()),
    decreases s.len(),
{
    if s.len() > 0 {
        lemma_bits_value_bound(s.drop_last());
        vstd::arithmetic::power2::lemma_pow2_unfold(s.len());
    } else {
        vstd::arithmetic::power2::lemma2_to64();
    }
}

/// A decoded counter uses at least one and at most all of the bits.
pub proof fn lemma_dec_u32_used(s: Seq<bool>, b: nat)
    ensures
        dec_u32(s, b) matches Some(Some((_, k))) ==> 1 <= k <= s.len(),
    decreases s.len(),
{
    if s.len() > 0 && s[0] && b < 32 {
        lemma_dec_u32_used(s.drop_first(), b + 1);
    }
}

pub proof fn lemma_dec_n_used(s: Seq<bool>)
    ensures
        dec_n(s) matches Some(Some((_, k))) ==> 1 <= k <= s.len(),
{
    if s.len() > 0 && s[0] {
        lemma_dec_u32_used(s.drop_first(), 2);
    }
}

/// A decoded identity tree uses at least one and at most all of the bits.
pub proof fn lemma_dec_id_used(s: Seq<bool>)
    ensures
        dec_id(s) matches Some((_, k)) ==> 1 <= k <= s.len(),
    decreases s.len(),
{
    if s.len() >= 2 {
        lemma_dec_id_used(s.skip(2));
        if let Some((_, k1)) = dec_id(s.skip(2)) {
            if 0 <= k1 <= s.len() - 2 {
                lemma_dec_id_used(s.skip(2 + k1));
            }
        }
    }
}

/// A decoded event tree, or node, uses at least one and at most all of the
/// bits.
#[verifier::spinoff_prover]
#[verifier::rlimit(50)]
pub proof fn lemma_dec_event_used(s: Seq<bool>)
    ensures
        dec_event(s) matches Some(Some((_, k))) ==> 1 <= k <= s.len(),
        dec_node(s) matches Some(Some((_, k))) ==> 1 <= k <= s.len(),
        dec_counted_node(s) matches Some(Some((_, k))) ==> 1 <= k <= s.len(),
    decreases s.len(),
{
    if s.len() > 0 {
        lemma_dec_u32_used(s.drop_first(), 2);
        lemma_dec_event_used(s.drop_first());
        lemma_dec_n_used(s.skip(1));
        if let Some(Some((_, k1))) = dec_n(s.skip(1)) {
            if 0 <= k1 <= s.len() - 1 {
                lemma_dec_event_used(s.skip(1 + k1));
                if let Some(Some((_, k2))) = dec_node(s.skip(1 + k1)) {
                    if 0 <= k2 <= s.len() - 1 - k1 {
                        lemma_dec_event_used(s.skip(1 + k1 + k2));
                    }
                }
            }
        }
    }
    if s.len() >= 2 {
        lemma_dec_event_used(s.skip(2));
        if let Some(Some((_, k1))) = dec_event(s.skip(2)) {
            if 0 <= k1 <= s.len() - 2 {
                lemma_dec_event_used(s.skip(2 + k1));
            }
        }
        lemma_dec_n_used(s.skip(2));
        if let Some(Some((_, k1))) = dec_n(s.skip(2)) {
            if 0 <= k1 <= s.len() - 2 {
                lemma_dec_event_used(s.skip(2 + k1));
            }
        }
    }
}

/// Reads bits, most significant first, from a byte string.
pub struct BitIterator {
    byte_offset: usize,
    bit_offset: u8,
    bits: Vec<u8>,
}

impl BitIterator {
    pub closed spec fn wf(&self) -> bool {
        &&& self.bit_offset <= 7
        &&& self.byte_offset <= self.bits@.len()
        &&& (self.byte_offset == self.bits@.len() ==> self.bit_offset == 7)
    }

    /// The bits of the byte string.
    pub closed spec fn stream(&self) -> Seq<bool> {
        bytes_to_bits(self.bits@)
    }

    /// The number of bits read so far.
    pub closed spec fn pos(&self) -> int {
        self.byte_offset * 8 + (7 - self.bit_offset)
    }

    /// The bits not read yet.
    pub open spec fn unread(&self) -> Seq<bool> {
        self.stream().subrange(self.pos(), self.stream().len() as int)
    }

    /// What every iterator keeps: it has read a prefix of its bits, and the
    /// unread bits are the rest.
    pub proof fn lemma_position(&self)
        requires
            self.wf(),
        ensures
            0 <= self.pos() <= self.stream().len(),
            self.unread() == self.stream().skip(self.pos()),
    {
        lemma_bytes_to_bits_len(self.bits@);
    }

    pub fn new(bits: Vec<u8>) -> (r: Self)
        ensures
            r.wf(),
            r.unread() == bytes_to_bits(bits@),
            r.stream() == bytes_to_bits(bits@),
            r.pos() == 0,
    {
        let r = BitIterator { byte_offset: 0, bit_offset: 7, bits: bits };
        proof {
            lemma_bytes_to_bits_len(r.bits@);
            assert(r.unread() =~= bytes_to_bits(bits@));
        }
        r
    }

    /// The next bit, if any is left.
    pub fn next(&mut self) -> (r: Option<bool>)
        requires
            old(self).wf(),
        ensures
            final(self).wf(),
            old(self).unread().len() == 0 ==> r is None && final(self).unread() == old(self).unread(),
            old(self).unread().len() > 0 ==> r == Some(old(self).unread()[0])
                && final(self).unread() == old(self).unread().drop_first(),
            final(self).stream() == old(self).stream(),
            final(self).pos() == old(self).pos() + if old(self).unread().len() > 0 {
                1int
            } else {
                0int
            },
    {
        proof {
            lemma_bytes_to_bits_len(self.bits@);
        }
        if self.byte_offset < self.bits.len() {
            let byte = self.bits[self.byte_offset];
            let value = byte >> self.bit_offset & 0x1;
            proof {
                lemma_bytes_to_bits_index(self.bits@, self.byte_offset as int, 7 - self.bit_offset);
                assert(self.unread()[0] == bit_of(byte, 7 - self.bit_offset));
            }
            let ghost before = self.unread();
            if self.bit_offset == 0 {
                self.bit_offset = 7;
                self.byte_offset = self.byte_offset + 1;
            } else {
                self.bit_offset = self.bit_offset - 1;
            }
            proof {
                assert(self.unread() =~= before.drop_first());
            }
            Some(value == 1)
        } else {
            None
        }
    }
}

/// Decodes trees from a byte string.
struct Parser {
    bit_iter: BitIterator,
}

impl Parser {
    closed spec fn wf(&self) -> bool {
        self.bit_iter.wf()
    }

    closed spec fn unread(&self) -> Seq<bool> {
        self.bit_iter.unread()
    }

    fn new(bits: Vec<u8>) -> (r: Self)
        ensures
            r.wf(),
            r.unread() == bytes_to_bits(bits@),
    {
        Self { bit_iter: BitIterator::new(bits) }
    }

    fn next(&mut self) -> (r: Option<bool>)
        requires
            old(self).wf(),
        ensures
            final(self).wf(),
            old(self).unread().len() == 0 ==> r is None && final(self).unread() == old(self).unread(),
            old(self).unread().len() > 0 ==> r == Some(old(self).unread()[0])
                && final(self).unread() == old(self).unread().drop_first(),
    {
        self.bit_iter.next()
    }

    fn parse_stamp(self) -> (r: Option<Option<Stamp>>)
        requires
            self.wf(),
        ensures
            match dec_stamp(self.unread()) {
                None => r is None,
                Some(None) => r == Some(None::<Stamp>),
                Some(Some((st, _))) => r == Some(Some(st)),
            },
    {
        let mut parser = self;
        let ghost s = parser.unread();
        proof {
            lemma_dec_id_used(s);
        }
        let id_tree = match parser.parse_id_tree() {
            Some(t) => t,
            None => return Some(None),
        };
        match parser.parse_event_tree() {
            Some(Some(event_tree)) => Some(Some(Stamp::new(id_tree, event_tree))),
            Some(None) => Some(None),
            None => None,
        }
    }

    fn parse_id_tree(&mut self) -> (r: Option<IdTree>)
        requires
            old(self).wf(),
        ensures
            final(self).wf(),
            match dec_id(old(self).unread()) {
                Some((t, k)) => r == Some(t) && final(self).unread() == old(self).unread().skip(k),
                None => r is None,
            },
        decreases old(self).unread().len(),
    {
        let ghost s = self.unread();
        proof {
            lemma_dec_id_used(s);
            if s.len() >= 2 {
                lemma_dec_id_used(s.skip(2));
            }
        }
        let first = self.next();
        let second = self.next();
        proof {
            if s.len() >= 2 {
                assert(self.unread() =~= s.skip(2));
            }
        }
        match (first, second) {
            (Some(false), Some(false)) => {
                match self.next() {
                    Some(bit) => {
                        proof {
                            assert(self.unread() =~= s.skip(3));
                        }
                        Some(IdTree::leaf(bit))
                    },
                    None => None,
                }
            },
            (Some(false), Some(true)) => {
                match self.parse_id_tree() {
                    Some(right) => {
                        proof {
                            assert(self.unread() =~= s.skip(dec_id(s).unwrap().1));
                        }
                        Some(IdTree::node(Box::new(IdTree::zero()), Box::new(right)))
                    },
                    None => None,
                }
            },
            (Some(true), Some(false)) => {
                match self.parse_id_tree() {
                    Some(left) => {
                        proof {
                            assert(self.unread() =~= s.skip(dec_id(s).unwrap().1));
                        }
                        Some(IdTree::node(Box::new(left), Box::new(IdTree::zero())))
                    },
                    None => None,
                }
            },
            (Some(true), Some(true)) => {
                let left = self.parse_id_tree()?;
                let ghost k1 = dec_id(s.skip(2)).unwrap().1;
                proof {
                    assert(self.unread() =~= s.skip(2 + k1));
                    lemma_dec_id_used(s.skip(2 + k1));
                }
                let right = self.parse_id_tree()?;
                proof {
                    assert(self.unread() =~= s.skip(dec_id(s).unwrap().1));
                }
                Some(IdTree::node(Box::new(left), Box::new(right)))
            },
            _ => None,
        }
    }

    fn parse_event_tree(&mut self) -> (r: Option<Option<EventTree>>)
        requires
            old(self).wf(),
        ensures
            final(self).wf(),
            parsed_as(dec_event(old(self).unread()), r, old(self).unread(), final(self).unread()),
        decreases old(self).unread().len(), 1nat,
    {
        let ghost s = self.unread();
        proof {
            if s.len() > 0 {
                lemma_dec_event_used(s.drop_first());
                lemma_dec_u32_used(s.drop_first(), 2);
            }
        }
        match self.next() {
            Some(false) => {
                let r = self.parse_event_tree_node();
                proof {
                    if let Some(Some((t, k))) = dec_node(s.drop_first()) {
                        assert(self.unread() =~= s.skip(k + 1));
                    }
                }
                r
            },
            Some(true) => {
                let r = self.parse_event_tree_leaf();
                proof {
                    if let Some(Some((t, k))) = dec_u32(s.drop_first(), 2) {
                        assert(self.unread() =~= s.skip(k + 1));
                    }
                }
                r
            },
            None => Some(None),
        }
    }

    #[verifier::spinoff_prover]
    #[verifier::rlimit(100)]
    fn parse_event_tree_node(&mut self) -> (r: Option<Option<EventTree>>)
        requires
            old(self).wf(),
        ensures
            final(self).wf(),
            parsed_as(dec_node(old(self).unread()), r, old(self).unread(), final(self).unread()),
        decreases old(self).unread().len(), 0nat,
    {
        let ghost s = self.unread();
        proof {
            lemma_dec_event_used(s);
            if s.len() >= 2 {
                lemma_dec_event_used(s.skip(2));
            }
        }
        let first = self.next();
        let second = self.next();
        proof {
            if s.len() >= 2 {
                assert(self.unread() =~= s.skip(2));
            }
        }
        match (first, second) {
            (Some(false), Some(false)) => {
                let right = match self.parse_event_tree() {
                    Some(Some(t)) => t,
                    other => return other,
                };
                proof {
                    assert(self.unread() =~= s.skip(dec_node(s).unwrap().unwrap().1));
                }
                Some(Some(EventTree::node(0, Box::new(EventTree::zero()), Box::new(right))))
            },
            (Some(false), Some(true)) => {
                let left = match self.parse_event_tree() {
                    Some(Some(t)) => t,
                    other => return other,
                };
                proof {
                    assert(self.unread() =~= s.skip(dec_node(s).unwrap().unwrap().1));
                }
                Some(Some(EventTree::node(0, Box::new(left), Box::new(EventTree::zero()))))
            },
            (Some(true), Some(false)) => {
                let left = match self.parse_event_tree() {
                    Some(Some(t)) => t,
                    other => return other,
                };
                let ghost k1 = dec_event(s.skip(2)).unwrap().unwrap().1;
                proof {
                    assert(self.unread() =~= s.skip(2 + k1));
                    lemma_dec_event_used(s.skip(2 + k1));
                }
                let right = match self.parse_event_tree() {
                    Some(Some(t)) => t,
                    other => return other,
                };
                proof {
                    assert(self.unread() =~= s.skip(dec_node(s).unwrap().unwrap().1));
                }
                Some(Some(EventTree::node(0, Box::new(left), Box::new(right))))
            },
            (Some(true), Some(true)) => {
                let r = self.parse_counted_node();
                proof {
                    if let Some(Some((t, k))) = dec_counted_node(s.skip(2)) {
                        assert(self.unread() =~= s.skip(k + 2));
                    }
                }
                r
            },
            _ => Some(None),
        }
    }

    /// Parses a node with a counter, after its header.
    #[verifier::spinoff_prover]
    #[verifier::rlimit(100)]
    fn parse_counted_node(&mut self) -> (r: Option<Option<EventTree>>)
        requires
            old(self).wf(),
        ensures
            final(self).wf(),
            parsed_as(dec_counted_node(old(self).unread()), r, old(self).unread(), final(self).unread()),
        decreases old(self).unread().len(), 0nat,
    {
        let ghost c = self.unread();
        proof {
            lemma_dec_event_used(c);
            if c.len() >= 2 {
                lemma_dec_n_used(c.skip(2));
            }
            if c.len() >= 1 {
                lemma_dec_n_used(c.skip(1));
            }
        }
        match self.next() {
            Some(false) => {
                let condition = match self.next() {
                    Some(bit) => bit,
                    None => return Some(None),
                };
                proof {
                    assert(self.unread() =~= c.skip(2));
                }
                let n = match self.parse_n() {
                    Some(Some(n)) => n,
                    Some(None) => return Some(None),
                    None => return None,
                };
                let ghost k1 = dec_n(c.skip(2)).unwrap().unwrap().1;
                proof {
                    assert(self.unread() =~= c.skip(2 + k1));
                    lemma_dec_event_used(c.skip(2 + k1));
                }
                let mut left = EventTree::zero();
                let mut right = match self.parse_event_tree() {
                    Some(Some(t)) => t,
                    other => return other,
                };
                proof {
                    let k2 = dec_event(c.skip(2 + k1)).unwrap().unwrap().1;
                    assert(self.unread() =~= c.skip(2 + k1 + k2));
                }
                if condition {
                    let tmp = left;
                    left = right;
                    right = tmp;
                }
                Some(Some(EventTree::node(n, Box::new(left), Box::new(right))))
            },
            Some(true) => {
                proof {
                    assert(self.unread() =~= c.skip(1));
                }
                let n = match self.parse_n() {
                    Some(Some(n)) => n,
                    Some(None) => return Some(None),
                    None => return None,
                };
                let ghost k1 = dec_n(c.skip(1)).unwrap().unwrap().1;
                proof {
                    assert(self.unread() =~= c.skip(1 + k1));
                    lemma_dec_event_used(c.skip(1 + k1));
                }
                let left = match self.parse_event_tree_node() {
                    Some(Some(t)) => t,
                    other => return other,
                };
                let ghost k2 = dec_node(c.skip(1 + k1)).unwrap().unwrap().1;
                proof {
                    assert(self.unread() =~= c.skip(1 + k1 + k2));
                    lemma_dec_event_used(c.skip(1 + k1 + k2));
                }
                let right = match self.parse_event_tree_node() {
                    Some(Some(t)) => t,
                    other => return other,
                };
                proof {
                    let k3 = dec_node(c.skip(1 + k1 + k2)).unwrap().unwrap().1;
                    assert(self.unread() =~= c.skip(1 + k1 + k2 + k3));
                }
                Some(Some(EventTree::node(n, Box::new(left), Box::new(right))))
            },
            None => Some(None),
        }
    }

    fn parse_event_tree_leaf(&mut self) -> (r: Option<Option<EventTree>>)
        requires
            old(self).wf(),
        ensures
            final(self).wf(),
            match dec_u32(old(self).unread(), 2) {
                None => r is None,
                Some(None) => r == Some(None::<EventTree>),
                Some(Some((n, k))) => r == Some(Some(EventTree::Leaf { n }))
                    && final(self).unread() == old(self).unread().skip(k),
            },
    {
        match self.parse_u32(2) {
            Some(Some(n)) => Some(Some(EventTree::leaf(n))),
            Some(None) => Some(None),
            None => None,
        }
    }

    fn parse_n(&mut self) -> (r: Option<Option<u32>>)
        requires
            old(self).wf(),
        ensures
            final(self).wf(),
            parsed_as(dec_n(old(self).unread()), r, old(self).unread(), final(self).unread()),
    {
        let ghost s = self.unread();
        proof {
            if s.len() > 0 {
                lemma_dec_u32_used(s.drop_first(), 2);
            }
        }
        let flag = match self.next() {
            Some(bit) => bit,
            None => return Some(None),
        };
        if flag {
            let r = self.parse_u32(2);
            proof {
                if let Some(Some((n, k))) = dec_u32(s.drop_first(), 2) {
                    assert(self.unread() =~= s.skip(k + 1));
                }
            }
            r
        } else {
            Some(None)
        }
    }

    fn parse_u32(&mut self, b: u32) -> (r: Option<Option<u32>>)
        requires
            old(self).wf(),
            b <= 32,
        ensures
            final(self).wf(),
            parsed_as(dec_u32(old(self).unread(), b as nat), r, old(self).unread(), final(self).unread()),
        decreases old(self).unread().len(),
    {
        let ghost s = self.unread();
        proof {
            if s.len() > 0 {
                lemma_dec_u32_used(s.drop_first(), (b + 1) as nat);
            }
        }
        let condition = match self.next() {
            Some(bit) => bit,
            None => return Some(None),
        };
        if condition {
            if b >= 32 {
                return None;
            }
            proof {
                vstd::bits::lemma_u32_pow2_no_overflow(b as nat);
                vstd::bits::lemma_u32_shl_is_mul(1, b);
            }
            let unit: u32 = 1 << b;
            let rest = match self.parse_u32(b + 1) {
                Some(Some(v)) => v,
                Some(None) => return Some(None),
                None => return None,
            };
            proof {
                let k = dec_u32(s.drop_first(), (b + 1) as nat).unwrap().unwrap().1;
                assert(self.unread() =~= s.skip(k + 1));
            }
            if rest > u32::MAX - unit {
                return None;
            }
            Some(Some(unit + rest))
        } else {
            let mut n: u32 = 0;
            let mut offset: u32 = b;
            proof {
                vstd::arithmetic::power2::lemma_pow2_pos(b as nat);
                assert(s.subrange(1, 1) =~= Seq::<bool>::empty());
                assert(bits_value(s.subrange(1, 1)) == 0);
                assert(s.subrange(1, 1 + (b - offset)) =~= s.subrange(1, 1));
                assert(n == bits_value(s.subrange(1, 1 + (b - offset))) * pow2(offset as nat)) by (nonlinear_arith)
                    requires
                        n == 0,
                        bits_value(s.subrange(1, 1 + (b - offset))) == 0,
                ;
                assert(self.unread() =~= s.skip(1));
                vstd::arithmetic::power2::lemma2_to64();
                vstd::arithmetic::power2::lemma2_to64_rest();
                if b < 32 {
                    vstd::arithmetic::power2::lemma_pow2_strictly_increases(b as nat, 32);
                }
            }
            while offset > 0
                invariant
                    self.wf(),
                    s == old(self).unread(),
                    0 <= offset <= b <= 32,
                    s.len() >= 1 + (b - offset),
                    !s[0],
                    self.unread() == s.skip(1 + (b - offset)),
                    n == bits_value(s.subrange(1, 1 + (b - offset))) * pow2(offset as nat),
                    n < pow2(b as nat),
                    pow2(b as nat) <= 0x1_0000_0000,
                decreases offset,
            {
                offset = offset - 1;
                let ghost j = b - offset - 1;
                let ghost before = s.subrange(1, 1 + j);
                let bit = match self.next() {
                    Some(bit) => bit,
                    None => return Some(None),
                };
                let ghost after = s.subrange(1, 1 + j + 1);
                proof {
                    assert(after.drop_last() =~= before);
                    assert(after.last() == bit);
                    assert(self.unread() =~= s.skip(1 + (b - offset)));
                    vstd::arithmetic::power2::lemma_pow2_unfold((offset + 1) as nat);
                    vstd::bits::lemma_u32_pow2_no_overflow(offset as nat);
                    vstd::bits::lemma_u32_shl_is_mul(1, offset);
                    lemma_bits_value_bound(after);
                    vstd::arithmetic::power2::lemma_pow2_adds((j + 1) as nat, offset as nat);
                    let bv = bits_value(before);
                    let p = pow2(offset as nat);
                    assert(n == bv * (2 * p)) by (nonlinear_arith)
                        requires
                            n == bv * pow2((offset + 1) as nat),
                            pow2((offset + 1) as nat) == 2 * p,
                    ;
                    assert(bits_value(after) * p < pow2(b as nat)) by (nonlinear_arith)
                        requires
                            bits_value(after) < pow2((j + 1) as nat),
                            pow2((j + 1) as nat) * p == pow2(b as nat),
                            p > 0,
                    ;
                }
                let value: u32 = if bit {
                    1
                } else {
                    0
                };
                proof {
                    vstd::bits::lemma_u32_shl_is_mul(value, offset);
                    assert(n + (value << offset) == bits_value(after) * pow2(offset as nat)) by (nonlinear_arith)
                        requires
                            n == bits_value(before) * (2 * pow2(offset as nat)),
                            bits_value(after) == 2 * bits_value(before) + value,
                            (value << offset) == value * pow2(offset as nat),
                    {
                    }
                }
                n = n + (value << offset);
            }
            proof {
                assert(self.unread() =~= s.skip(1 + b));
                vstd::arithmetic::power2::lemma2_to64();
                assert(offset == 0);
                assert(pow2(offset as nat) == 1);
                let x = bits_value(s.subrange(1, 1 + (b - offset)));
                assert(n == x * 1);
                assert(x * 1 == x) by (nonlinear_arith);
                assert(s.subrange(1, 1 + (b - offset)) == s.subrange(1, 1 + b));
                assert(x == bits_value(s.subrange(1, 1 + b)));
                assert(n == bits_value(s.subrange(1, 1 + b)));
            }
            Some(Some(n))
        }
    }
}

/// An iterator over the bits of the bytes `b` that has read `k` bits
/// returns, at its next read, bit `k` of the input: bit `k % 8` of byte
/// `k / 8`, counting from the most significant bit. Once all `8 * b.len()`
/// bits are read, nothing is left, so every later read returns `None`. With
/// `new` (which starts at position 0) and `next` (which moves one position on
/// when it returns a bit), the `k`-th read of `BitIterator::new(b)` returns
/// bit `k`.
pub proof fn law_bits_read_in_order(it: BitIterator, b: Seq<u8>)
    requires
        it.wf(),
        it.stream() == bytes_to_bits(b),
    ensures
        0 <= it.pos() <= 8 * b.len(),
        it.pos() < 8 * b.len() ==> it.unread().len() > 0
            && it.unread()[0] == bit_of(b[it.pos() / 8], it.pos() % 8),
        it.pos() == 8 * b.len() ==> it.unread().len() == 0,
{
    it.lemma_position();
    lemma_bytes_to_bits_len(b);
    let k = it.pos();
    if k < 8 * b.len() {
        lemma_bytes_to_bits_index(b, k / 8, k % 8);
        assert(8 * (k / 8) + k % 8 == k);
    }
}

/// Writes bits, most significant first, and packs them into bytes.
pub struct BitWriter {
    bytes: Vec<u8>,
    current: u8,
    bit_offset: u8,
}

impl BitWriter {
    /// The writer's state is consistent: the pending byte has room for
    /// `bit_offset` more bits, and those bits are clear.
    pub closed spec fn wf(&self) -> bool {
        &&& 1 <= self.bit_offset <= 8
        &&& low_bits_clear(self.current, self.bit_offset)
    }

    /// The bytes completed so far.
    pub closed spec fn full_bytes(&self) -> Seq<u8> {
        self.bytes@
    }

    /// The bits written since the last completed byte.
    pub closed spec fn pending_bits(&self) -> Seq<bool> {
        byte_bits(self.current).subrange(0, 8 - self.bit_offset)
    }

    /// What every writer keeps: fewer than eight bits are pending, and the
    /// bits written are eight for each completed byte and then the pending
    /// ones.
    pub proof fn lemma_layout(&self)
        requires
            self.wf(),
        ensures
            self.pending_bits().len() < 8,
            self.bits().len() == 8 * self.full_bytes().len() + self.pending_bits().len(),
    {
        lemma_bytes_to_bits_len(self.bytes@);
    }

    /// The bits written so far: those of the completed bytes, then the
    /// pending ones.
    pub open spec fn bits(&self) -> Seq<bool> {
        bytes_to_bits(self.full_bytes()) + self.pending_bits()
    }

    pub fn new() -> (r: Self)
        ensures
            r.wf(),
            r.bits() == Seq::<bool>::empty(),
            r.full_bytes() == Seq::<u8>::empty(),
            r.pending_bits() == Seq::<bool>::empty(),
    {
        proof {
            lemma_clear_byte(8);
        }
        let r = BitWriter { bytes: Vec::new(), current: 0, bit_offset: 8 };
        assert(r.bits() =~= Seq::<bool>::empty());
        r
    }

    /// Writes one bit. The eighth pending bit completes a byte, which is
    /// appended to the bytes written before; those stay as they are.
    pub fn write_bit(&mut self, bit: bool)
        requires
            old(self).wf(),
        ensures
            final(self).wf(),
            final(self).bits() == old(self).bits().push(bit),
            final(self).pending_bits().len() < 8,
            final(self).full_bytes().len() == old(self).full_bytes().len()
                + if old(self).pending_bits().len() == 7 { 1int } else { 0int },
            final(self).full_bytes().subrange(0, old(self).full_bytes().len() as int) == old(self).full_bytes(),
            old(self).pending_bits().len() == 7 ==> {
                &&& final(self).full_bytes().len() == old(self).full_bytes().len() + 1
                &&& final(self).full_bytes().drop_last() == old(self).full_bytes()
                &&& byte_bits(final(self).full_bytes().last()) == old(self).pending_bits().push(bit)
                &&& final(self).pending_bits() == Seq::<bool>::empty()
            },
            old(self).pending_bits().len() < 7 ==> {
                &&& final(self).full_bytes() == old(self).full_bytes()
                &&& final(self).pending_bits() == old(self).pending_bits().push(bit)
            },
    {
        let ghost old_bits = self.bits();
        let ghost c = self.current;
        let ghost o = self.bit_offset;
        self.bit_offset = self.bit_offset - 1;
        if bit {
            self.current = self.current | (1u8 << self.bit_offset);
        }
        proof {
            let c2 = self.current;
            assert forall|k: int| 0 <= k < 8 - o implies bit_of(c2, k) == bit_of(c, k) by {
                lemma_set_bit(c, o, (7 - k) as u8);
            }
            lemma_set_bit(c, o, 0);
            assert(bit_of(c2, 8 - o) == bit);
            assert(low_bits_clear(c2, self.bit_offset));
            assert(byte_bits(c2).subrange(0, 8 - self.bit_offset) =~= byte_bits(c).subrange(0, 8 - o).push(bit));
        }
        if self.bit_offset == 0 {
            self.bit_offset = 8;
            let ghost full = self.current;
            self.bytes.push(self.current);
            self.current = 0;
            proof {
                lemma_bytes_to_bits_push(old(self).bytes@, full);
                lemma_clear_byte(8);
                assert(byte_bits(full).subrange(0, 8) =~= byte_bits(full));
                assert(byte_bits(0).subrange(0, 0) =~= Seq::<bool>::empty());
                assert(self.bytes@.drop_last() =~= old(self).bytes@);
            }
        }
        proof {
            assert(self.bits() =~= old_bits.push(bit));
        }
    }

    /// Writes the last `bit_count` bits of `bits`, most significant first.
    pub fn write_bits(&mut self, bits: u32, bit_count: u8)
        requires
            old(self).wf(),
            bit_count <= 32,
        ensures
            final(self).wf(),
            final(self).bits() == old(self).bits() + num_bits(bits, bit_count as nat),
    {
        let mut offset: u8 = bit_count;
        while offset > 0
            invariant
                self.wf(),
                offset <= bit_count <= 32,
                self.bits() == old(self).bits() + num_bits(bits, bit_count as nat).subrange(0, bit_count - offset),
            decreases offset,
        {
            offset = offset - 1;
            let bit = (bits >> offset) & 1;
            let ghost before = self.bits();
            self.write_bit(bit == 1);
            proof {
                let all = num_bits(bits, bit_count as nat);
                assert(all[bit_count - 1 - offset] == (bit == 1));
                assert(all.subrange(0, bit_count - offset) =~= all.subrange(0, bit_count - offset - 1).push(bit == 1));
            }
        }
        proof {
            assert(num_bits(bits, bit_count as nat).subrange(0, bit_count as int) =~= num_bits(bits, bit_count as nat));
        }
    }

    /// The bytes written: a last incomplete byte is padded with zeros, and
    /// dropped if all its bits are zero.
    pub fn finalize(self) -> (r: Vec<u8>)
        requires
            self.wf(),
        ensures
            bytes_to_bits(r@) == packed_bits(self.bits()),
    {
        let mut bytes = self.bytes;
        proof {
            lemma_bytes_to_bits_len(bytes@);
            lemma_nonzero_byte(self.current, self.bit_offset);
            let bits = self.bits();
            let full = bits.len() - bits.len() % 8;
            let pending = byte_bits(self.current).subrange(0, 8 - self.bit_offset);
            if self.bit_offset == 8 {
                assert(full == bits.len());
            } else {
                assert(full == 8 * self.bytes@.len());
            }
            assert(bits.subrange(full, bits.len() as int) =~= pending);
            assert(bits.subrange(0, full) =~= bytes_to_bits(self.bytes@));
        }
        if self.current != 0 {
            bytes.push(self.current);
            proof {
                lemma_bytes_to_bits_push(self.bytes@, self.current);
                assert(bytes_to_bits(bytes@) =~= packed_bits(self.bits()));
            }
        }
        bytes
    }

    /// Writes the encoding of an identity tree.
    pub fn encode_id_tree(&mut self, id_tree: &IdTree)
        requires
            old(self).wf(),
        ensures
            final(self).wf(),
            final(self).bits() == old(self).bits() + id_bits(*id_tree),
        decreases id_tree,
    {
        proof {
            lemma_small_num_bits();
        }
        let ghost start = self.bits();
        match id_tree {
            IdTree::Leaf { i: false } => self.write_bits(0, 3),
            IdTree::Leaf { i: true } => self.write_bits(1, 3),
            IdTree::Node { left, right } => {
                match (&**left, &**right) {
                    (IdTree::Leaf { i: false }, _) => {
                        self.write_bits(1, 2);
                        self.encode_id_tree(right);
                    },
                    (_, IdTree::Leaf { i: false }) => {
                        self.write_bits(2, 2);
                        self.encode_id_tree(left);
                    },
                    (_, _) => {
                        self.write_bits(3, 2);
                        self.encode_id_tree(left);
                        self.encode_id_tree(right);
                    },
                }
            },
        }
        proof {
            assert(self.bits() =~= start + id_bits(*id_tree));
        }
    }

    /// Writes the encoding of an event tree.
    #[verifier::rlimit(60)]
    pub fn encode_event_tree(&mut self, event_tree: &EventTree)
        requires
            old(self).wf(),
            event_encodable(*event_tree),
        ensures
            final(self).wf(),
            final(self).bits() == old(self).bits() + event_bits(*event_tree),
        decreases event_tree,
    {
        proof {
            lemma_small_num_bits();
        }
        let ghost start = self.bits();
        match event_tree {
            EventTree::Leaf { n } => {
                self.encode_n(*n);
            },
            EventTree::Node { n: 0, left, right } => {
                self.write_bit(false);
                match (&**left, &**right) {
                    (EventTree::Leaf { n: 0 }, _) => {
                        self.write_bits(0, 2);
                        self.encode_event_tree(right);
                    },
                    (_, EventTree::Leaf { n: 0 }) => {
                        self.write_bits(1, 2);
                        self.encode_event_tree(left);
                    },
                    (_, _) => {
                        self.write_bits(2, 2);
                        self.encode_event_tree(left);
                        self.encode_event_tree(right);
                    },
                }
            },
            EventTree::Node { n, left, right } => {
                self.write_bit(false);
                match (&**left, &**right) {
                    (EventTree::Leaf { n: 0 }, _) => {
                        self.write_bits(3, 2);
                        self.write_bits(0, 2);
                        self.encode_n(*n);
                        self.encode_event_tree(right);
                    },
                    (_, EventTree::Leaf { n: 0 }) => {
                        self.write_bits(3, 2);
                        self.write_bits(1, 2);
                        self.encode_n(*n);
                        self.encode_event_tree(left);
                    },
                    (_, _) => {
                        self.write_bits(3, 2);
                        self.write_bit(true);
                        self.encode_n(*n);
                        self.encode_event_tree(left);
                        self.encode_event_tree(right);
                    },
                }
            },
        }
        proof {
            assert(self.bits() =~= start + event_bits(*event_tree));
        }
    }

    fn encode_n(&mut self, n: u32)
        requires
            old(self).wf(),
            u32_encodable(n, 2),
        ensures
            final(self).wf(),
            final(self).bits() == old(self).bits() + n_bits(n),
    {
        self.write_bit(true);
        self.encode_u32(n, 2);
        proof {
            assert(self.bits() =~= old(self).bits() + n_bits(n));
        }
    }

    fn encode_u32(&mut self, n: u32, b: u8)
        requires
            old(self).wf(),
            u32_encodable(n, b as nat),
        ensures
            final(self).wf(),
            final(self).bits() == old(self).bits() + u32_bits(n, b as nat),
        decreases 32 - b,
    {
        proof {
            lemma_threshold(b);
        }
        let two_to_pow_b = 2u32 << b;
        if n < two_to_pow_b {
            self.write_bit(false);
            self.write_bits(n, b);
        } else {
            self.write_bit(true);
            self.encode_u32(n - two_to_pow_b, b + 1);
        }
        proof {
            assert(self.bits() =~= old(self).bits() + u32_bits(n, b as nat));
        }
    }
}

/// The encoding keeps all its bits when packed into bytes: their number is a
/// multiple of eight, or the incomplete last byte holds a one.
pub open spec fn packs_whole(bits: Seq<bool>) -> bool {
    bits.len() % 8 == 0 || bits.subrange(bits.len() - bits.len() % 8, bits.len() as int).contains(true)
}

/// Packing bits that it keeps whole leaves them as a prefix.
pub proof fn lemma_packed_prefix(bits: Seq<bool>)
    requires
        packs_whole(bits),
    ensures
        exists|pad: Seq<bool>| packed_bits(bits) == bits + pad,
{
    let full = bits.len() - bits.len() % 8;
    let tail = bits.subrange(full, bits.len() as int);
    if tail.contains(true) {
        let pad = Seq::new((8 - tail.len()) as nat, |k: int| false);
        assert(packed_bits(bits) == bits + pad);
    } else {
        assert(tail.len() == 0);
        assert(bits.subrange(0, full) =~= bits + Seq::<bool>::empty());
        assert(packed_bits(bits) == bits + Seq::<bool>::empty());
    }
}

/// Decoding what `encode_id_tree` wrote gives the tree back, whatever
/// follows it.
pub proof fn law_id_roundtrip(i: IdTree, rest: Seq<bool>)
    ensures
        dec_id(id_bits(i) + rest) == Some((i, id_bits(i).len() as int)),
    decreases i,
{
    let s = id_bits(i) + rest;
    match i {
        IdTree::Leaf { i: b } => {
            assert(s[0] == false && s[1] == false && s[2] == b);
        },
        IdTree::Node { left, right } => {
            if left.is_zero() {
                law_id_roundtrip(*right, rest);
                assert(s.skip(2) =~= id_bits(*right) + rest);
            } else if right.is_zero() {
                law_id_roundtrip(*left, rest);
                assert(s.skip(2) =~= id_bits(*left) + rest);
            } else {
                law_id_roundtrip(*left, id_bits(*right) + rest);
                law_id_roundtrip(*right, rest);
                assert(s.skip(2) =~= id_bits(*left) + (id_bits(*right) + rest));
                assert(s.skip(2 + id_bits(*left).len() as int) =~= id_bits(*right) + rest);
            }
        },
    }
}

/// The event trees whose encoding decodes back: every counter is below 4,
/// and no node with a non-zero counter has two children that differ from the
/// zero leaf. (Wider counters are written at a width the decoder reads
/// otherwise, and the children of such a node are written as trees but read
/// as nodes.)
pub open spec fn event_round_trips(e: EventTree) -> bool
    decreases e,
{
    match e {
        EventTree::Leaf { n } => n < 4,
        EventTree::Node { n, left, right } => {
            &&& n < 4
            &&& event_round_trips(*left)
            &&& event_round_trips(*right)
            &&& (n == 0 || is_zero_leaf(*left) || is_zero_leaf(*right))
        },
    }
}

/// A counter below 4 is written as a zero and two bits, and read back.
pub proof fn lemma_small_counter(n: u32, rest: Seq<bool>)
    requires
        n < 4,
    ensures
        u32_encodable(n, 2),
        u32_bits(n, 2) == seq![false] + num_bits(n, 2),
        dec_u32(u32_bits(n, 2) + rest, 2) == read(n, 3),
        dec_n(n_bits(n) + rest) == read(n, 4),
{
    assert((2u32 << 2u32) == 8u32) by (bit_vector);
    assert(threshold(2) == 8);
    lemma_small_num_bits();
    let x = num_bits(n, 2);
    reveal_with_fuel(bits_value, 3);
    assert(x.subrange(0, 1) =~= seq![x[0]]);
    assert(bits_value(seq![x[0]]) == if x[0] { 1nat } else { 0nat }) by {
        assert(seq![x[0]].drop_last() =~= Seq::<bool>::empty());
    }
    assert(bits_value(x) == n) by {
        assert(x.drop_last() =~= x.subrange(0, 1));
        assert(n == 0 || n == 1 || n == 2 || n == 3);
    }
    let s = u32_bits(n, 2) + rest;
    assert(s.subrange(1, 3) =~= x);
    let t = n_bits(n) + rest;
    assert(t.drop_first() =~= s);
}

/// Decoding what `encode_event_tree` wrote gives the tree back, whatever
/// follows it, for the trees whose encoding round-trips.
pub proof fn law_event_roundtrip(e: EventTree, rest: Seq<bool>)
    requires
        event_round_trips(e),
    ensures
        event_encodable(e),
        dec_event(event_bits(e) + rest) == read(e, event_bits(e).len() as int),
    decreases e,
{
    let s = event_bits(e) + rest;
    match e {
        EventTree::Leaf { n } => {
            lemma_small_counter(n, rest);
            assert(s.drop_first() =~= u32_bits(n, 2) + rest);
        },
        EventTree::Node { n, left, right } => {
            law_event_roundtrip(*left, event_bits(*right) + rest);
            law_event_roundtrip(*left, rest);
            law_event_roundtrip(*right, rest);
            if n != 0 {
                lemma_small_counter(n, Seq::empty());
            }
            if n == 0 {
                lemma_plain_node_roundtrip(*left, *right, rest);
            } else {
                lemma_counted_node_roundtrip(n, *left, *right, rest);
            }
        },
    }
}

/// The node case with a zero counter, given the children.
#[verifier::spinoff_prover]
#[verifier::rlimit(50)]
proof fn lemma_plain_node_roundtrip(l: EventTree, r: EventTree, rest: Seq<bool>)
    requires
        dec_event(event_bits(l) + (event_bits(r) + rest)) == read(l, event_bits(l).len() as int),
        dec_event(event_bits(l) + rest) == read(l, event_bits(l).len() as int),
        dec_event(event_bits(r) + rest) == read(r, event_bits(r).len() as int),
    ensures
        ({
            let e = EventTree::Node { n: 0, left: Box::new(l), right: Box::new(r) };
            dec_event(event_bits(e) + rest) == read(e, event_bits(e).len() as int)
        }),
{
    let e = EventTree::Node { n: 0, left: Box::new(l), right: Box::new(r) };
    let s = event_bits(e) + rest;
    let x = s.drop_first();
    if is_zero_leaf(l) {
        assert(x.skip(2) =~= event_bits(r) + rest);
    } else if is_zero_leaf(r) {
        assert(x.skip(2) =~= event_bits(l) + rest);
    } else {
        assert(x.skip(2) =~= event_bits(l) + (event_bits(r) + rest));
        assert(x.skip(2 + event_bits(l).len() as int) =~= event_bits(r) + rest);
    }
}

/// The node case with a counter below 4 and a zero leaf child, given the
/// other child.
#[verifier::spinoff_prover]
#[verifier::rlimit(50)]
proof fn lemma_counted_node_roundtrip(n: u32, l: EventTree, r: EventTree, rest: Seq<bool>)
    requires
        0 < n < 4,
        is_zero_leaf(l) || is_zero_leaf(r),
        dec_event(event_bits(l) + rest) == read(l, event_bits(l).len() as int),
        dec_event(event_bits(r) + rest) == read(r, event_bits(r).len() as int),
    ensures
        ({
            let e = EventTree::Node { n, left: Box::new(l), right: Box::new(r) };
            dec_event(event_bits(e) + rest) == read(e, event_bits(e).len() as int)
        }),
{
    let e = EventTree::Node { n, left: Box::new(l), right: Box::new(r) };
    let child = if is_zero_leaf(l) {
        r
    } else {
        l
    };
    let flag = !is_zero_leaf(l);
    let tail = event_bits(child) + rest;
    let c = seq![false, flag] + n_bits(n) + tail;
    let x = seq![true, true] + c;
    let s = seq![false] + x;
    assert(event_bits(e) + rest =~= s);
    lemma_small_counter(n, tail);
    assert(n_bits(n).len() == 4);
    assert(c.skip(2) =~= n_bits(n) + tail);
    assert(c.skip(6int) =~= tail);
    assert(dec_counted_node(c) == read(e, 6 + event_bits(child).len() as int));
    assert(x.skip(2) =~= c);
    assert(dec_node(x) == read(e, 8 + event_bits(child).len() as int));
    assert(s.drop_first() =~= x);
    assert(dec_event(s) == read(e, 9 + event_bits(child).len() as int));
}

/// The bits that the decoder reads as the counter `n` from width `b`: a zero
/// and `n` in `b` bits if `n` is below `2^b` (always so at width 32), and
/// otherwise a one and `n - 2^b` at the next width.
pub open spec fn counter_bits(n: u32, b: nat) -> Seq<bool>
    decreases 32 - b,
{
    if b >= 32 || n < pow2(b) {
        seq![false] + num_bits(n, b)
    } else {
        seq![true] + counter_bits((n - pow2(b)) as u32, b + 1)
    }
}

/// The bits that the decoder reads as the counter of a node.
pub open spec fn node_counter_bits(n: u32) -> Seq<bool> {
    seq![true] + counter_bits(n, 2)
}

/// The encoding that the decoder reads: an event tree as `encode_event_tree`
/// lays it out, with counters as the decoder reads them, and where a node
/// with a counter has two children that are not empty leaves, each child as a
/// node without its leading zero.
pub open spec fn decoder_bits(e: EventTree) -> Seq<bool>
    decreases e,
{
    match e {
        EventTree::Leaf { n } => node_counter_bits(n),
        EventTree::Node { n, left, right } => seq![false] + if n == 0 {
            if is_zero_leaf(*left) {
                seq![false, false] + decoder_bits(*right)
            } else if is_zero_leaf(*right) {
                seq![false, true] + decoder_bits(*left)
            } else {
                seq![true, false] + decoder_bits(*left) + decoder_bits(*right)
            }
        } else {
            seq![true, true] + if is_zero_leaf(*left) {
                seq![false, false] + node_counter_bits(n) + decoder_bits(*right)
            } else if is_zero_leaf(*right) {
                seq![false, true] + node_counter_bits(n) + decoder_bits(*left)
            } else {
                seq![true] + node_counter_bits(n) + decoder_bits(*left).drop_first()
                    + decoder_bits(*right).drop_first()
            }
        },
    }
}

/// The trees that the decoder's grammar can express: a node with a counter
/// and two children that are not empty leaves has nodes as children.
pub open spec fn decoder_expressible(e: EventTree) -> bool
    decreases e,
{
    match e {
        EventTree::Leaf { .. } => true,
        EventTree::Node { n, left, right } => {
            &&& decoder_expressible(*left)
            &&& decoder_expressible(*right)
            &&& (n == 0 || is_zero_leaf(*left) || is_zero_leaf(*right) || (!left.is_leaf() && !right.is_leaf()))
        },
    }
}

/// `b` bits of a number below `2^b` have that number as their value.
proof fn lemma_num_bits_value(x: u32, c: nat)
    requires
        c <= 32,
        x < pow2(c),
    ensures
        bits_value(num_bits(x, c)) == x,
    decreases c,
{
    vstd::arithmetic::power2::lemma2_to64();
    if c == 0 {
        assert(num_bits(x, c).len() == 0);
    } else {
        let y = x >> 1u32;
        let t = num_bits(x, c);
        assert forall|k: int| 0 <= k < c - 1 implies t.drop_last()[k] == num_bits(y, (c - 1) as nat)[k] by {
            let j = (c - 2 - k) as u32;
            assert(((x >> 1u32) >> j) & 1u32 == (x >> ((j + 1) as u32)) & 1u32) by (bit_vector)
                requires
                    j < 31,
            ;
            assert(((c - 1 - k) as u32) == ((j + 1) as u32));
        }
        assert(t.drop_last() =~= num_bits(y, (c - 1) as nat));
        assert(((c - 1 - (c - 1)) as u32) == 0u32);
        assert(t.last() == (((x >> 0u32) & 1u32) == 1u32));
        assert((x >> 1u32) == x / 2 && (x >> 0u32) & 1u32 == x % 2) by (bit_vector);
        vstd::arithmetic::power2::lemma_pow2_unfold(c);
        lemma_num_bits_value(y, (c - 1) as nat);
    }
}

/// The decoder reads back the counter written from width `b`.
proof fn lemma_counter_bits_roundtrip(n: u32, b: nat, rest: Seq<bool>)
    requires
        b <= 32,
    ensures
        dec_u32(counter_bits(n, b) + rest, b) == read(n, counter_bits(n, b).len() as int),
    decreases 32 - b,
{
    vstd::arithmetic::power2::lemma2_to64();
    let s = counter_bits(n, b) + rest;
    if b >= 32 || n < pow2(b) {
        if b < 32 {
            vstd::arithmetic::power2::lemma_pow2_strictly_increases(b, 32);
        }
        lemma_num_bits_value(n, b);
        assert(s.subrange(1, 1 + b as int) =~= num_bits(n, b));
    } else {
        vstd::arithmetic::power2::lemma_pow2_strictly_increases(b, 32);
        lemma_counter_bits_roundtrip((n - pow2(b)) as u32, b + 1, rest);
        assert(s.drop_first() =~= counter_bits((n - pow2(b)) as u32, b + 1) + rest);
    }
}

/// The decoder reads back the counter of a node.
proof fn lemma_node_counter_roundtrip(n: u32, rest: Seq<bool>)
    ensures
        dec_n(node_counter_bits(n) + rest) == read(n, node_counter_bits(n).len() as int),
{
    lemma_counter_bits_roundtrip(n, 2, rest);
    assert((node_counter_bits(n) + rest).drop_first() =~= counter_bits(n, 2) + rest);
}

/// Decoding the encoding that the decoder reads gives the tree back,
/// whatever follows it, for every tree that the decoder's grammar can
/// express; a node is read back from its bits after the leading zero too.
pub proof fn law_decoder_roundtrip(e: EventTree, rest: Seq<bool>)
    requires
        decoder_expressible(e),
    ensures
        dec_event(decoder_bits(e) + rest) == read(e, decoder_bits(e).len() as int),
        !e.is_leaf() ==> dec_node(decoder_bits(e).drop_first() + rest)
            == read(e, decoder_bits(e).len() - 1),
    decreases e,
{
    match e {
        EventTree::Leaf { n } => {
            let s = decoder_bits(e) + rest;
            lemma_counter_bits_roundtrip(n, 2, rest);
            assert(s.drop_first() =~= counter_bits(n, 2) + rest);
        },
        EventTree::Node { n, left, right } => {
            let l = *left;
            let r = *right;
            law_decoder_roundtrip(l, decoder_bits(r) + rest);
            law_decoder_roundtrip(l, decoder_bits(r).drop_first() + rest);
            law_decoder_roundtrip(l, rest);
            law_decoder_roundtrip(r, rest);
            if n == 0 {
                lemma_decoder_plain_node(l, r, rest);
            } else {
                lemma_decoder_counted_node(n, l, r, rest);
            }
            lemma_decoder_node_event(e, rest);
        },
    }
}

/// A node read back from its bits after the leading zero is read back from
/// all its bits.
proof fn lemma_decoder_node_event(e: EventTree, rest: Seq<bool>)
    requires
        !e.is_leaf(),
        dec_node(decoder_bits(e).drop_first() + rest) == read(e, decoder_bits(e).len() - 1),
    ensures
        dec_event(decoder_bits(e) + rest) == read(e, decoder_bits(e).len() as int),
{
    let s = decoder_bits(e) + rest;
    assert(decoder_bits(e)[0] == false);
    assert(s.drop_first() =~= decoder_bits(e).drop_first() + rest);
}

/// The node case of `law_decoder_roundtrip` with a zero counter, given the
/// children.
#[verifier::spinoff_prover]
#[verifier::rlimit(50)]
proof fn lemma_decoder_plain_node(l: EventTree, r: EventTree, rest: Seq<bool>)
    requires
        dec_event(decoder_bits(l) + (decoder_bits(r) + rest)) == read(l, decoder_bits(l).len() as int),
        dec_event(decoder_bits(l) + rest) == read(l, decoder_bits(l).len() as int),
        dec_event(decoder_bits(r) + rest) == read(r, decoder_bits(r).len() as int),
    ensures
        ({
            let e = EventTree::Node { n: 0, left: Box::new(l), right: Box::new(r) };
            dec_node(decoder_bits(e).drop_first() + rest) == read(e, decoder_bits(e).len() - 1)
        }),
{
    let e = EventTree::Node { n: 0, left: Box::new(l), right: Box::new(r) };
    let x = decoder_bits(e).drop_first() + rest;
    if is_zero_leaf(l) {
        assert(x.skip(2) =~= decoder_bits(r) + rest);
    } else if is_zero_leaf(r) {
        assert(x.skip(2) =~= decoder_bits(l) + rest);
    } else {
        assert(x.skip(2) =~= decoder_bits(l) + (decoder_bits(r) + rest));
        assert(x.skip(2 + decoder_bits(l).len() as int) =~= decoder_bits(r) + rest);
    }
}

/// The node case of `law_decoder_roundtrip` with a counter, given the
/// children.
proof fn lemma_decoder_counted_node(n: u32, l: EventTree, r: EventTree, rest: Seq<bool>)
    requires
        n != 0,
        is_zero_leaf(l) || is_zero_leaf(r) || (!l.is_leaf() && !r.is_leaf()),
        dec_event(decoder_bits(l) + rest) == read(l, decoder_bits(l).len() as int),
        dec_event(decoder_bits(r) + rest) == read(r, decoder_bits(r).len() as int),
        !l.is_leaf() ==> dec_node(decoder_bits(l).drop_first() + (decoder_bits(r).drop_first() + rest))
            == read(l, decoder_bits(l).len() - 1),
        !r.is_leaf() ==> dec_node(decoder_bits(r).drop_first() + rest) == read(r, decoder_bits(r).len() - 1),
    ensures
        ({
            let e = EventTree::Node { n, left: Box::new(l), right: Box::new(r) };
            dec_node(decoder_bits(e).drop_first() + rest) == read(e, decoder_bits(e).len() - 1)
        }),
{
    if is_zero_leaf(l) || is_zero_leaf(r) {
        lemma_decoder_counted_one_child(n, l, r, rest);
    } else {
        lemma_decoder_counted_two_nodes(n, l, r, rest);
    }
}

/// A node with a counter and an empty leaf as one child.
#[verifier::spinoff_prover]
#[verifier::rlimit(80)]
proof fn lemma_decoder_counted_one_child(n: u32, l: EventTree, r: EventTree, rest: Seq<bool>)
    requires
        n != 0,
        is_zero_leaf(l) || is_zero_leaf(r),
        dec_event(decoder_bits(l) + rest) == read(l, decoder_bits(l).len() as int),
        dec_event(decoder_bits(r) + rest) == read(r, decoder_bits(r).len() as int),
    ensures
        ({
            let e = EventTree::Node { n, left: Box::new(l), right: Box::new(r) };
            dec_node(decoder_bits(e).drop_first() + rest) == read(e, decoder_bits(e).len() - 1)
        }),
{
    let e = EventTree::Node { n, left: Box::new(l), right: Box::new(r) };
    let nb = node_counter_bits(n);
    let child = if is_zero_leaf(l) {
        r
    } else {
        l
    };
    let flag = !is_zero_leaf(l);
    let cb = decoder_bits(child);
    let tail = cb + rest;
    let c = seq![false, flag] + nb + tail;
    let x = decoder_bits(e).drop_first() + rest;
    assert(decoder_bits(e) == seq![false] + (seq![true, true] + (seq![false, flag] + nb + cb)));
    assert(x =~= seq![true, true] + c);
    lemma_node_counter_roundtrip(n, tail);
    assert(c.skip(2) =~= nb + tail);
    assert(c.skip((2 + nb.len()) as int) =~= tail);
    assert(dec_counted_node(c) == read(e, (2 + nb.len() + cb.len()) as int));
    assert(x.skip(2) =~= c);
}

/// How the decoder reads a node with a counter and two nodes as children,
/// given what it reads of each part.
proof fn lemma_counted_two_children(c: Seq<bool>, n: u32, l: EventTree, r: EventTree, k1: int, k2: int, k3: int)
    requires
        c.len() >= 1,
        c[0],
        0 <= k1 <= c.len() - 1,
        0 <= k2 <= c.len() - 1 - k1,
        dec_n(c.skip(1)) == read(n, k1),
        dec_node(c.skip(1 + k1)) == read(l, k2),
        dec_node(c.skip(1 + k1 + k2)) == read(r, k3),
    ensures
        dec_counted_node(c) == read(EventTree::Node { n, left: Box::new(l), right: Box::new(r) }, 1 + k1 + k2 + k3),
{
}

/// A node with a counter and two nodes as children.
#[verifier::spinoff_prover]
#[verifier::rlimit(100)]
proof fn lemma_decoder_counted_two_nodes(n: u32, l: EventTree, r: EventTree, rest: Seq<bool>)
    requires
        n != 0,
        !is_zero_leaf(l),
        !is_zero_leaf(r),
        !l.is_leaf(),
        !r.is_leaf(),
        dec_node(decoder_bits(l).drop_first() + (decoder_bits(r).drop_first() + rest))
            == read(l, decoder_bits(l).len() - 1),
        dec_node(decoder_bits(r).drop_first() + rest) == read(r, decoder_bits(r).len() - 1),
    ensures
        ({
            let e = EventTree::Node { n, left: Box::new(l), right: Box::new(r) };
            dec_node(decoder_bits(e).drop_first() + rest) == read(e, decoder_bits(e).len() - 1)
        }),
{
    let e = EventTree::Node { n, left: Box::new(l), right: Box::new(r) };
    let bl = decoder_bits(l).drop_first();
    let br = decoder_bits(r).drop_first();
    let body = seq![true, true] + (seq![true] + node_counter_bits(n) + bl + br);
    lemma_decoder_bits_two_nodes(n, l, r);
    assert(decoder_bits(e).drop_first() =~= body);
    assert(decoder_bits(e).drop_first() + rest == body + rest);
    lemma_two_nodes_core(n, l, r, bl, br, rest);
}

/// The layout of a node with a counter and two nodes as children.
proof fn lemma_decoder_bits_two_nodes(n: u32, l: EventTree, r: EventTree)
    requires
        n != 0,
        !is_zero_leaf(l),
        !is_zero_leaf(r),
    ensures
        decoder_bits(EventTree::Node { n, left: Box::new(l), right: Box::new(r) })
            == seq![false] + (seq![true, true] + (seq![true] + node_counter_bits(n) + decoder_bits(l).drop_first()
            + decoder_bits(r).drop_first())),
{
}

/// The decoder reads a node with a counter and two node bodies as children.
#[verifier::spinoff_prover]
#[verifier::rlimit(80)]
proof fn lemma_two_nodes_core(n: u32, l: EventTree, r: EventTree, bl: Seq<bool>, br: Seq<bool>, rest: Seq<bool>)
    requires
        dec_node(bl + (br + rest)) == read(l, bl.len() as int),
        dec_node(br + rest) == read(r, br.len() as int),
    ensures
        ({
            let body = seq![true, true] + (seq![true] + node_counter_bits(n) + bl + br);
            dec_node(body + rest) == read(EventTree::Node { n, left: Box::new(l), right: Box::new(r) }, body.len() as int)
        }),
{
    let nb = node_counter_bits(n);
    let tail = bl + (br + rest);
    let c = seq![true] + nb + tail;
    let body = seq![true, true] + (seq![true] + nb + bl + br);
    let x = body + rest;
    assert(x =~= seq![true, true] + c);
    lemma_node_counter_roundtrip(n, tail);
    let k1 = nb.len() as int;
    let k2 = bl.len() as int;
    assert(c.skip(1) =~= nb + tail);
    assert(c.skip(1 + k1) =~= tail);
    assert(c.skip(1 + k1 + k2) =~= br + rest);
    lemma_counted_two_children(c, n, l, r, k1, k2, br.len() as int);
    assert(x.skip(2) =~= c);
    lemma_counted_header(x, c, EventTree::Node { n, left: Box::new(l), right: Box::new(r) }, 1 + k1 + k2 + br.len());
    assert(body.len() == 3 + k1 + k2 + br.len());
}

/// The decoder reads a node with a counter after the two bits that announce
/// it.
proof fn lemma_counted_header(x: Seq<bool>, c: Seq<bool>, t: EventTree, k: int)
    requires
        x.len() >= 2,
        x[0],
        x[1],
        x.skip(2) == c,
        dec_counted_node(c) == read(t, k),
    ensures
        dec_node(x) == read(t, k + 2),
{
}

/// The layout of an identity tree's encoding: a leaf is the bits 0, 0 and
/// its value; a node with an anonymous left child is 0, 1 and the right
/// child; a node with an anonymous right child (and an owning left one) is
/// 1, 0 and the left child; any other node is 1, 1, the left child and the
/// right child. An anonymous child is never written out.
pub proof fn law_id_bits_layout(l: IdTree, r: IdTree, b: bool)
    ensures
        id_bits(IdTree::Leaf { i: b }) == seq![false, false, b],
        id_bits(IdTree::Node { left: Box::new(IdTree::Leaf { i: false }), right: Box::new(r) })
            == seq![false, true] + id_bits(r),
        !l.is_zero() ==> id_bits(IdTree::Node { left: Box::new(l), right: Box::new(IdTree::Leaf { i: false }) })
            == seq![true, false] + id_bits(l),
        !l.is_zero() && !r.is_zero() ==> id_bits(IdTree::Node { left: Box::new(l), right: Box::new(r) })
            == seq![true, true] + id_bits(l) + id_bits(r),
{
    if b {
    } else {
    }
}

/// The grammar that the identity decoder reads, whatever the bits: 0, 0 and
/// a bit give a leaf with that bit; 0, 1 and an identity `t` give the node
/// `(0, t)`; 1, 0 and an identity `t` give the node `(t, 0)`; 1, 1 and two
/// identities give the node with them as left and right children. Bits that
/// run out give nothing.
pub proof fn law_dec_id_grammar(s: Seq<bool>, b: bool)
    ensures
        dec_id(seq![false, false, b] + s) == Some((IdTree::Leaf { i: b }, 3int)),
        dec_id(seq![false, true] + s) == match dec_id(s) {
            Some((t, k)) => Some((IdTree::Node { left: Box::new(IdTree::Leaf { i: false }), right: Box::new(t) }, k + 2)),
            None => None,
        },
        dec_id(seq![true, false] + s) == match dec_id(s) {
            Some((t, k)) => Some((IdTree::Node { left: Box::new(t), right: Box::new(IdTree::Leaf { i: false }) }, k + 2)),
            None => None,
        },
        dec_id(seq![true, true] + s) == match dec_id(s) {
            Some((l, k1)) => match dec_id(s.skip(k1)) {
                Some((r, k2)) => Some((IdTree::Node { left: Box::new(l), right: Box::new(r) }, 2 + k1 + k2)),
                None => None,
            },
            None => None,
        },
        s.len() < 2 ==> dec_id(s) is None,
{
    lemma_dec_id_used(s);
    assert((seq![false, false, b] + s).len() >= 3);
    assert((seq![false, true] + s).skip(2) =~= s);
    assert((seq![true, false] + s).skip(2) =~= s);
    let x = seq![true, true] + s;
    assert(x.skip(2) =~= s);
    if let Some((l, k1)) = dec_id(s) {
        assert(x.skip(2 + k1) =~= s.skip(k1));
    }
}

/// Decoding the bits 1, 0 and then the encoding of an owning identity `t`
/// gives the node `(t, 0)`, whatever follows, and the writer writes that node
/// exactly so.
pub proof fn law_id_left_half_roundtrip(t: IdTree, rest: Seq<bool>)
    requires
        !t.is_zero(),
    ensures
        id_bits(IdTree::Node { left: Box::new(t), right: Box::new(IdTree::Leaf { i: false }) })
            == seq![true, false] + id_bits(t),
        dec_id(seq![true, false] + id_bits(t) + rest)
            == Some((IdTree::Node { left: Box::new(t), right: Box::new(IdTree::Leaf { i: false }) }, 2 + id_bits(t).len() as int)),
{
    law_id_roundtrip(t, rest);
    law_dec_id_grammar(id_bits(t) + rest, false);
    assert(seq![true, false] + id_bits(t) + rest =~= seq![true, false] + (id_bits(t) + rest));
}

/// The layout of an event tree's encoding at a node with counter 0: with an
/// empty left child it is 0, 0, 0 and the right child; with an empty right
/// child (and a non-empty left one) it is 0, 0, 1 and the left child;
/// otherwise 0, 1, 0, the left child and the right child. An empty child is
/// never written out.
pub proof fn law_event_bits_layout(l: EventTree, r: EventTree)
    ensures
        event_bits(EventTree::Node { n: 0, left: Box::new(EventTree::Leaf { n: 0 }), right: Box::new(r) })
            == seq![false, false, false] + event_bits(r),
        !is_zero_leaf(l) ==> event_bits(EventTree::Node { n: 0, left: Box::new(l), right: Box::new(EventTree::Leaf { n: 0 }) })
            == seq![false, false, true] + event_bits(l),
        !is_zero_leaf(l) && !is_zero_leaf(r) ==> event_bits(EventTree::Node { n: 0, left: Box::new(l), right: Box::new(r) })
            == seq![false, true, false] + event_bits(l) + event_bits(r),
{
    assert(seq![false] + (seq![false, false] + event_bits(r)) =~= seq![false, false, false] + event_bits(r));
    assert(seq![false] + (seq![false, true] + event_bits(l)) =~= seq![false, false, true] + event_bits(l));
    assert(seq![false] + (seq![true, false] + event_bits(l) + event_bits(r))
        =~= seq![false, true, false] + event_bits(l) + event_bits(r));
}

/// The writer lays an event tree out as the decoder's grammar expects,
/// bit for bit, wherever its encoding round-trips (counters below 4, and a
/// node with a counter having an empty child).
pub proof fn law_writer_matches_decoder(e: EventTree)
    requires
        event_round_trips(e),
    ensures
        event_bits(e) == decoder_bits(e),
    decreases e,
{
    vstd::arithmetic::power2::lemma2_to64();
    assert((2u32 << 2u32) == 8u32) by (bit_vector);
    assert(threshold(2) == 8);
    match e {
        EventTree::Leaf { n } => {
            assert(u32_bits(n, 2) == counter_bits(n, 2));
        },
        EventTree::Node { n, left, right } => {
            law_writer_matches_decoder(*left);
            law_writer_matches_decoder(*right);
            if n != 0 {
                assert(u32_bits(n, 2) == counter_bits(n, 2));
                assert(n_bits(n) == node_counter_bits(n));
            }
        },
    }
}

/// Decoding the bits of a stamp gives the stamp back, for event trees whose
/// encoding round-trips.
pub proof fn law_stamp_roundtrip(st: Stamp, rest: Seq<bool>)
    requires
        event_round_trips(st.events()),
    ensures
        event_encodable(st.events()),
        dec_stamp(id_bits(st.id()) + event_bits(st.events()) + rest)
            == read(st, (id_bits(st.id()).len() + event_bits(st.events()).len()) as int),
{
    let s = id_bits(st.id()) + event_bits(st.events()) + rest;
    law_id_roundtrip(st.i, event_bits(st.e) + rest);
    law_event_roundtrip(st.e, rest);
    assert(s =~= id_bits(st.i) + (event_bits(st.e) + rest));
    assert(s.skip(id_bits(st.i).len() as int) =~= event_bits(st.e) + rest);
}

/// Bytes written by `IdTree::to_bytes` decode back to the tree, when packing
/// keeps all bits of the encoding (see `packs_whole`).
pub proof fn law_id_bytes_roundtrip(i: IdTree)
    requires
        packs_whole(id_bits(i)),
    ensures
        dec_id(packed_bits(id_bits(i))) matches Some((t, _)) && t == i,
{
    lemma_packed_prefix(id_bits(i));
    let pad = choose|pad: Seq<bool>| packed_bits(id_bits(i)) == id_bits(i) + pad;
    law_id_roundtrip(i, pad);
}

/// Bytes written by `EventTree::to_bytes` decode back to the tree, for trees
/// whose encoding round-trips and is kept whole by packing.
pub proof fn law_event_bytes_roundtrip(e: EventTree)
    requires
        event_round_trips(e),
        packs_whole(event_bits(e)),
    ensures
        dec_event(packed_bits(event_bits(e))) matches Some(Some((t, _))) && t == e,
{
    lemma_packed_prefix(event_bits(e));
    let pad = choose|pad: Seq<bool>| packed_bits(event_bits(e)) == event_bits(e) + pad;
    law_event_roundtrip(e, pad);
}

/// Bytes written by `Stamp::to_bytes` decode back to the stamp, under the
/// same conditions.
pub proof fn law_stamp_bytes_roundtrip(st: Stamp)
    requires
        event_round_trips(st.events()),
        packs_whole(id_bits(st.id()) + event_bits(st.events())),
    ensures
        dec_stamp(packed_bits(id_bits(st.id()) + event_bits(st.events()))) matches Some(Some((t, _))) && t == st,
{
    let bits = id_bits(st.id()) + event_bits(st.events());
    lemma_packed_prefix(bits);
    let pad = choose|pad: Seq<bool>| packed_bits(bits) == bits + pad;
    law_stamp_roundtrip(st, pad);
}

impl Stamp {
    /// The encoding of the stamp: its identity tree, then its event tree,
    /// packed into bytes.
    pub fn to_bytes(&self) -> (r: Vec<u8>)
        requires
            event_encodable(self.events()),
        ensures
            bytes_to_bits(r@) == packed_bits(id_bits(self.id()) + event_bits(self.events())),
    {
        let mut bit_writer = BitWriter::new();
        bit_writer.encode_id_tree(&self.i);
        bit_writer.encode_event_tree(&self.e);
        proof {
            assert(bit_writer.bits() =~= id_bits(self.id()) + event_bits(self.events()));
        }
        bit_writer.finalize()
    }
}

impl IdTree {
    /// The encoding of the identity tree, packed into bytes.
    pub fn to_bytes(&self) -> (r: Vec<u8>)
        ensures
            bytes_to_bits(r@) == packed_bits(id_bits(*self)),
    {
        let mut bit_writer = BitWriter::new();
        bit_writer.encode_id_tree(self);
        proof {
            assert(bit_writer.bits() =~= id_bits(*self));
        }
        bit_writer.finalize()
    }
}

impl EventTree {
    /// The encoding of the event tree, packed into bytes.
    pub fn to_bytes(&self) -> (r: Vec<u8>)
        requires
            event_encodable(*self),
        ensures
            bytes_to_bits(r@) == packed_bits(event_bits(*self)),
    {
        let mut bit_writer = BitWriter::new();
        bit_writer.encode_event_tree(self);
        proof {
            assert(bit_writer.bits() =~= event_bits(*self));
        }
        bit_writer.finalize()
    }
}

impl Stamp {
    /// Decodes a stamp from its bytes.
    pub fn try_from_bytes(bits: Vec<u8>) -> (r: Result<Stamp, ParseError>)
        requires
            dec_stamp(bytes_to_bits(bits@)) is Some,
        ensures
            match dec_stamp(bytes_to_bits(bits@)) {
                Some(Some((st, _))) => r == Ok::<Stamp, ParseError>(st),
                _ => r == Err::<Stamp, ParseError>(ParseError::EndOfEncoding),
            },
    {
        match Parser::new(bits).parse_stamp() {
            Some(Some(st)) => Ok(st),
            _ => Err(ParseError::EndOfEncoding),
        }
    }
    /// Decodes a stamp from any bytes: `None` where a counter in them does
    /// not fit in 32 bits (the bytes that `try_from_bytes` does not accept),
    /// and otherwise what `try_from_bytes` gives.
    pub fn checked_from_bytes(bits: Vec<u8>) -> (r: Option<Result<Stamp, ParseError>>)
        ensures
            match dec_stamp(bytes_to_bits(bits@)) {
                None => r is None,
                Some(None) => r == Some(Err::<Stamp, ParseError>(ParseError::EndOfEncoding)),
                Some(Some((st, _))) => r == Some(Ok::<Stamp, ParseError>(st)),
            },
    {
        match Parser::new(bits).parse_stamp() {
            Some(Some(st)) => Some(Ok(st)),
            Some(None) => Some(Err(ParseError::EndOfEncoding)),
            None => None,
        }
    }
}

impl IdTree {
    /// Decodes an identity tree from its bytes.
    pub fn try_from_bytes(bits: Vec<u8>) -> (r: Result<IdTree, ParseError>)
        ensures
            match dec_id(bytes_to_bits(bits@)) {
                Some((t, _)) => r == Ok::<IdTree, ParseError>(t),
                None => r == Err::<IdTree, ParseError>(ParseError::EndOfEncoding),
            },
    {
        let mut parser = Parser::new(bits);
        match parser.parse_id_tree() {
            Some(t) => Ok(t),
            None => Err(ParseError::EndOfEncoding),
        }
    }
}

impl EventTree {
    /// Decodes an event tree from its bytes.
    pub fn try_from_bytes(bits: Vec<u8>) -> (r: Result<EventTree, ParseError>)
        requires
            dec_event(bytes_to_bits(bits@)) is Some,
        ensures
            match dec_event(bytes_to_bits(bits@)) {
                Some(Some((t, _))) => r == Ok::<EventTree, ParseError>(t),
                _ => r == Err::<EventTree, ParseError>(ParseError::EndOfEncoding),
            },
    {
        let mut parser = Parser::new(bits);
        match parser.parse_event_tree() {
            Some(Some(t)) => Ok(t),
            _ => Err(ParseError::EndOfEncoding),
        }
    }
    /// Decodes an event tree from any bytes: `None` where a counter in them
    /// does not fit in 32 bits (the bytes that `try_from_bytes` does not
    /// accept), and otherwise what `try_from_bytes` gives.
    pub fn checked_from_bytes(bits: Vec<u8>) -> (r: Option<Result<EventTree, ParseError>>)
        ensures
            match dec_event(bytes_to_bits(bits@)) {
                None => r is None,
                Some(None) => r == Some(Err::<EventTree, ParseError>(ParseError::EndOfEncoding)),
                Some(Some((t, _))) => r == Some(Ok::<EventTree, ParseError>(t)),
            },
    {
        let mut parser = Parser::new(bits);
        match parser.parse_event_tree() {
            Some(Some(t)) => Some(Ok(t)),
            Some(None) => Some(Err(ParseError::EndOfEncoding)),
            None => None,
        }
    }
}

} // verus!
