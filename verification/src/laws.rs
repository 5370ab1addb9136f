//! The library's general guarantees, each stated and proved over the model.

use vstd::prelude::*;

use crate::model::{
    bits_from, bits_of, comment_state, group_value, is_binary_digit, is_comment_start, is_inert,
    is_newline, lemma_bits_from_append, lemma_bits_from_bits, lemma_group_value_bound,
    lemma_pack_index, lemma_pack_len, transduce,
};

verus! {

/// What a single byte contributes: its bit value if it is a recognized
/// digit, nothing otherwise, and the comment state it leaves behind.
proof fn lemma_bits_single(b: u8, in_comment: bool)
    ensures
        bits_from(seq![b], in_comment) == (if !in_comment && b == 48 {
            seq![0u8]
        } else if !in_comment && b == 49 {
            seq![1u8]
        } else {
            Seq::<u8>::empty()
        }),
        comment_state(seq![b], in_comment) == (if in_comment {
            !is_newline(b)
        } else {
            is_comment_start(b)
        }),
{
    let s = seq![b];
    assert(s.subrange(1, 1) =~= Seq::<u8>::empty());
    assert(bits_from(Seq::<u8>::empty(), true) == Seq::<u8>::empty());
    assert(bits_from(Seq::<u8>::empty(), false) == Seq::<u8>::empty());
    assert(comment_state(Seq::<u8>::empty(), true) == true);
    assert(comment_state(Seq::<u8>::empty(), false) == false);
    if !in_comment && is_binary_digit(b) {
        let v: u8 = if b == 49 { 1u8 } else { 0u8 };
        assert(seq![v] + Seq::<u8>::empty() =~= seq![v]);
    }
}

/// Inside a comment, a run of bytes holding no carriage return or line feed
/// contributes nothing, and the comment stays open.
proof fn lemma_comment_swallows(c: Seq<u8>)
    requires
        forall|j: int| 0 <= j < c.len() ==> !is_newline(c[j]),
    ensures
        bits_from(c, true) == Seq::<u8>::empty(),
        comment_state(c, true) == true,
    decreases c.len(),
{
    if c.len() > 0 {
        let rest = c.subrange(1, c.len() as int);
        assert forall|j: int| 0 <= j < rest.len() implies !is_newline(rest[j]) by {
            assert(rest[j] == c[j + 1]);
        }
        lemma_comment_swallows(rest);
    }
}

/// Outside a comment, a run of bytes that are neither digits nor `;`
/// contributes nothing and opens no comment.
proof fn lemma_inert_run(x: Seq<u8>)
    requires
        forall|j: int| 0 <= j < x.len() ==> is_inert(x[j]),
    ensures
        bits_from(x, false) == Seq::<u8>::empty(),
        comment_state(x, false) == false,
    decreases x.len(),
{
    if x.len() > 0 {
        let rest = x.subrange(1, x.len() as int);
        assert forall|j: int| 0 <= j < rest.len() implies is_inert(rest[j]) by {
            assert(rest[j] == x[j + 1]);
        }
        lemma_inert_run(rest);
    }
}

/// An input with exactly `8 * k` recognized digits packs to exactly `k`
/// output bytes.
pub proof fn lemma_output_len_exact(s: Seq<u8>, k: nat)
    requires
        bits_of(s).len() == 8 * k,
    ensures
        transduce(s).len() == k,
{
    lemma_pack_len(bits_of(s));
}

/// An input with `8 * k + r` recognized digits, `0 <= r < 8`, still packs to
/// exactly `k` output bytes: the trailing `r` digits are dropped.
pub proof fn lemma_output_len_trailing_dropped(s: Seq<u8>, k: nat, r: nat)
    requires
        bits_of(s).len() == 8 * k + r,
        r < 8,
    ensures
        transduce(s).len() == k,
{
    lemma_pack_len(bits_of(s));
}

/// One full group of eight digit values, read as a byte.
proof fn lemma_group_value_unrolled(d: Seq<u8>)
    requires
        d.len() == 8,
    ensures
        group_value(d) == 128 * d[0] + 64 * d[1] + 32 * d[2] + 16 * d[3] + 8 * d[4] + 4 * d[5]
            + 2 * d[6] + d[7],
{
    let d7 = d.subrange(0, 7);
    let d6 = d.subrange(0, 6);
    let d5 = d.subrange(0, 5);
    let d4 = d.subrange(0, 4);
    let d3 = d.subrange(0, 3);
    let d2 = d.subrange(0, 2);
    let d1 = d.subrange(0, 1);
    let d0 = d.subrange(0, 0);
    assert(d.drop_last() =~= d7);
    assert(d7.drop_last() =~= d6);
    assert(d6.drop_last() =~= d5);
    assert(d5.drop_last() =~= d4);
    assert(d4.drop_last() =~= d3);
    assert(d3.drop_last() =~= d2);
    assert(d2.drop_last() =~= d1);
    assert(d1.drop_last() =~= d0);
    assert(group_value(d0) == 0);
    assert(group_value(d1) == 128 * d[0]);
    assert(group_value(d2) == 128 * d[0] + 64 * d[1]);
    assert(group_value(d3) == group_value(d2) + 32 * d[2]);
    assert(group_value(d4) == group_value(d3) + 16 * d[3]);
    assert(group_value(d5) == group_value(d4) + 8 * d[4]);
    assert(group_value(d6) == group_value(d5) + 4 * d[5]);
    assert(group_value(d7) == group_value(d6) + 2 * d[6]);
    assert(group_value(d) == group_value(d7) + d[7]);
}

/// Bit order within one group: the `g`-th output byte weights the first
/// digit of its group with 128 (bit 7) and the eighth with 1 (bit 0).
pub proof fn lemma_bit_order(s: Seq<u8>, g: int)
    requires
        0 <= g,
        8 * g + 8 <= bits_of(s).len(),
    ensures
        transduce(s).len() > g,
        transduce(s)[g] as int == 128 * bits_of(s)[8 * g] + 64 * bits_of(s)[8 * g + 1] + 32
            * bits_of(s)[8 * g + 2] + 16 * bits_of(s)[8 * g + 3] + 8 * bits_of(s)[8 * g + 4] + 4
            * bits_of(s)[8 * g + 5] + 2 * bits_of(s)[8 * g + 6] + bits_of(s)[8 * g + 7],
{
    let d = bits_of(s);
    lemma_pack_index(d, g);
    let grp = d.subrange(8 * g, 8 * g + 8);
    lemma_bits_from_bits(s, false);
    assert forall|j: int| 0 <= j < grp.len() implies grp[j] <= 1 by {
        assert(grp[j] == d[8 * g + j]);
    }
    lemma_group_value_bound(grp);
    lemma_group_value_unrolled(grp);
}

/// Bytes standing between a `;` and the carriage return or line feed that
/// ends the comment contribute nothing, digits included; a comment that runs
/// to the end of the input is dropped the same way.
pub proof fn lemma_comment_ignored(a: Seq<u8>, c: Seq<u8>, nl: u8, b: Seq<u8>)
    requires
        forall|j: int| 0 <= j < c.len() ==> !is_newline(c[j]),
        is_newline(nl),
    ensures
        bits_of(a + seq![59u8] + c + seq![nl] + b) == bits_of(a + seq![nl] + b),
        transduce(a + seq![59u8] + c + seq![nl] + b) == transduce(a + seq![nl] + b),
        bits_of(a + seq![59u8] + c) == bits_of(a),
        transduce(a + seq![59u8] + c) == transduce(a),
{
    let semi = seq![59u8];
    let nls = seq![nl];
    let ca = comment_state(a, false);
    lemma_bits_single(59u8, ca);
    lemma_comment_swallows(c);
    lemma_bits_single(nl, true);
    lemma_bits_single(nl, ca);

    lemma_bits_from_append(a, semi, false);
    assert(bits_of(a + semi) =~= bits_of(a));
    assert(comment_state(a + semi, false) == true);
    lemma_bits_from_append(a + semi, c, false);
    assert(bits_of(a + semi + c) =~= bits_of(a));
    assert(comment_state(a + semi + c, false) == true);
    lemma_bits_from_append(a + semi + c, nls, false);
    assert(bits_of(a + semi + c + nls) =~= bits_of(a));
    assert(comment_state(a + semi + c + nls, false) == false);
    lemma_bits_from_append(a + semi + c + nls, b, false);
    assert(bits_of(a + semi + c + nls + b) =~= bits_of(a) + bits_from(b, false));

    lemma_bits_from_append(a, nls, false);
    assert(bits_of(a + nls) =~= bits_of(a));
    assert(comment_state(a + nls, false) == false);
    lemma_bits_from_append(a + nls, b, false);
    assert(bits_of(a + nls + b) =~= bits_of(a) + bits_from(b, false));
}

/// A run of bytes that are none of `0`, `1`, `;`, inserted at a point that
/// lies outside every comment span, never changes the recognized digits nor
/// the output.
pub proof fn lemma_inert_insertion(a: Seq<u8>, x: Seq<u8>, b: Seq<u8>)
    requires
        forall|j: int| 0 <= j < x.len() ==> is_inert(x[j]),
        !comment_state(a, false),
    ensures
        bits_of(a + x + b) == bits_of(a + b),
        transduce(a + x + b) == transduce(a + b),
{
    lemma_inert_run(x);
    lemma_bits_from_append(a, x, false);
    assert(bits_of(a + x) =~= bits_of(a));
    assert(comment_state(a + x, false) == false);
    lemma_bits_from_append(a + x, b, false);
    lemma_bits_from_append(a, b, false);
    assert(bits_of(a + x + b) =~= bits_of(a + b));
}

/// A single such byte is a no-op: it affects neither the recognized digits
/// nor, through them, the alignment of any later digit.
pub proof fn lemma_inert_byte_no_op(a: Seq<u8>, x: u8, b: Seq<u8>)
    requires
        is_inert(x),
        !comment_state(a, false),
    ensures
        bits_of(a + seq![x] + b) == bits_of(a + b),
        transduce(a + seq![x] + b) == transduce(a + b),
{
    assert(seq![x][0] == x);
    lemma_inert_insertion(a, seq![x], b);
}

} // verus!
