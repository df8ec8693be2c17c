//! A total order on 32-bit reading encodings.
//!
//! Readings enter the library as opaque 32-bit encodings whose top bit is a
//! sign bit: encodings with the top bit clear stand for non-negative
//! quantities ordered by the remaining bits, encodings with the top bit set
//! stand for negative quantities whose magnitude grows as the remaining bits
//! grow. `ord_key` folds both halves into one strictly monotone integer key,
//! which makes comparison of encodings a plain integer comparison. The order
//! is total on encodings: where the caller's numeric domain identifies two
//! distinct encodings, or leaves one unordered, this order still ranks them
//! consistently by their bits.

use vstd::prelude::*;

verus! {

/// The monotone integer key of an encoding: negative-half encodings are
/// reflected below the non-negative half, so that `ord_key` is injective and
/// respects the intended order of the quantities the encodings stand for.
pub open spec fn ord_key(bits: u32) -> int {
    if bits >= 0x8000_0000 {
        0xFFFF_FFFF - bits
    } else {
        bits + 0x8000_0000
    }
}

/// Strict order on encodings, by their `ord_key`.
pub open spec fn value_lt(a: u32, b: u32) -> bool {
    ord_key(a) < ord_key(b)
}

/// `ord_key` is injective: equal keys come only from equal encodings.
pub proof fn lemma_ord_key_injective(a: u32, b: u32)
    requires
        ord_key(a) == ord_key(b),
    ensures
        a == b,
{
}

/// Comparison of two encodings under the library's total order.
pub fn value_is_lt(a: u32, b: u32) -> (r: bool)
    ensures
        r == value_lt(a, b),
{
    let ka: u32 = if a >= 0x8000_0000 {
        0xFFFF_FFFF - a
    } else {
        a + 0x8000_0000
    };
    let kb: u32 = if b >= 0x8000_0000 {
        0xFFFF_FFFF - b
    } else {
        b + 0x8000_0000
    };
    ka < kb
}

/// The minimum of a non-empty sequence of encodings, folded left to right as
/// the aggregator observes them.
pub open spec fn seq_min(vs: Seq<u32>) -> u32
    recommends
        vs.len() > 0,
    decreases vs.len(),
{
    if vs.len() <= 1 {
        vs[0]
    } else {
        let m = seq_min(vs.drop_last());
        if value_lt(vs.last(), m) {
            vs.last()
        } else {
            m
        }
    }
}

/// The maximum of a non-empty sequence of encodings, folded left to right.
pub open spec fn seq_max(vs: Seq<u32>) -> u32
    recommends
        vs.len() > 0,
    decreases vs.len(),
{
    if vs.len() <= 1 {
        vs[0]
    } else {
        let m = seq_max(vs.drop_last());
        if value_lt(m, vs.last()) {
            vs.last()
        } else {
            m
        }
    }
}

/// The minimum of a non-empty sequence is one of its elements.
pub proof fn lemma_seq_min_is_member(vs: Seq<u32>)
    requires
        vs.len() > 0,
    ensures
        vs.contains(seq_min(vs)),
    decreases vs.len(),
{
    if vs.len() > 1 {
        lemma_seq_min_is_member(vs.drop_last());
        let m = seq_min(vs.drop_last());
        let i = choose|i: int| 0 <= i < vs.drop_last().len() && vs.drop_last()[i] == m;
        if !value_lt(vs.last(), m) {
            assert(vs[i] == m);
        }
    }
}

/// No element of the sequence is below its minimum.
pub proof fn lemma_seq_min_is_lower_bound(vs: Seq<u32>, i: int)
    requires
        0 <= i < vs.len(),
    ensures
        !value_lt(vs[i], seq_min(vs)),
    decreases vs.len(),
{
    if vs.len() > 1 && i < vs.len() - 1 {
        lemma_seq_min_is_lower_bound(vs.drop_last(), i);
    }
}

/// Minimum, maximum and count of a key's readings do not depend on the
/// order in which the readings arrive: any two arrival orders with the
/// same readings — the same multiset of encodings — fold to the same
/// minimum, the same maximum and the same count. (The running sum is
/// accumulated outside the library and is not covered: its value may
/// depend on accumulation order.)
pub proof fn lemma_stats_order_independent(vs1: Seq<u32>, vs2: Seq<u32>)
    requires
        vs1.to_multiset() == vs2.to_multiset(),
        vs1.len() > 0,
    ensures
        vs1.len() == vs2.len(),
        seq_min(vs1) == seq_min(vs2),
        seq_max(vs1) == seq_max(vs2),
{
    broadcast use vstd::seq_lib::group_to_multiset_ensures;

    assert(vs1.len() == vs1.to_multiset().len());
    assert(vs2.len() == vs2.to_multiset().len());
    lemma_seq_min_is_member(vs1);
    lemma_seq_min_is_member(vs2);
    lemma_seq_max_is_member(vs1);
    lemma_seq_max_is_member(vs2);
    let m1 = seq_min(vs1);
    let m2 = seq_min(vs2);
    assert(vs1.to_multiset().count(m1) > 0);
    assert(vs2.contains(m1));
    assert(vs2.to_multiset().count(m2) > 0);
    assert(vs1.contains(m2));
    let i1 = choose|i: int| 0 <= i < vs2.len() && vs2[i] == m1;
    lemma_seq_min_is_lower_bound(vs2, i1);
    let i2 = choose|i: int| 0 <= i < vs1.len() && vs1[i] == m2;
    lemma_seq_min_is_lower_bound(vs1, i2);
    lemma_ord_key_injective(m1, m2);
    let x1 = seq_max(vs1);
    let x2 = seq_max(vs2);
    assert(vs1.to_multiset().count(x1) > 0);
    assert(vs2.contains(x1));
    assert(vs2.to_multiset().count(x2) > 0);
    assert(vs1.contains(x2));
    let k1 = choose|i: int| 0 <= i < vs2.len() && vs2[i] == x1;
    lemma_seq_max_is_upper_bound(vs2, k1);
    let k2 = choose|i: int| 0 <= i < vs1.len() && vs1[i] == x2;
    lemma_seq_max_is_upper_bound(vs1, k2);
    lemma_ord_key_injective(x1, x2);
}

/// The maximum of a non-empty sequence is one of its elements.
pub proof fn lemma_seq_max_is_member(vs: Seq<u32>)
    requires
        vs.len() > 0,
    ensures
        vs.contains(seq_max(vs)),
    decreases vs.len(),
{
    if vs.len() > 1 {
        lemma_seq_max_is_member(vs.drop_last());
        let m = seq_max(vs.drop_last());
        let i = choose|i: int| 0 <= i < vs.drop_last().len() && vs.drop_last()[i] == m;
        if !value_lt(m, vs.last()) {
            assert(vs[i] == m);
        }
    }
}

/// No element of the sequence is above its maximum.
pub proof fn lemma_seq_max_is_upper_bound(vs: Seq<u32>, i: int)
    requires
        0 <= i < vs.len(),
    ensures
        !value_lt(seq_max(vs), vs[i]),
    decreases vs.len(),
{
    if vs.len() > 1 && i < vs.len() - 1 {
        lemma_seq_max_is_upper_bound(vs.drop_last(), i);
    }
}

} // verus!
