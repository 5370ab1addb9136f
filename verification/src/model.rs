//! The mathematical model of the transduction: which input bytes count as
//! binary digits, and how runs of eight digits pack into output bytes.

use vstd::prelude::*;

verus! {

/// A byte that ends a comment span (and is otherwise ignored).
pub open spec fn is_newline(b: u8) -> bool {
    b == 10 || b == 13
}

/// A byte that, outside a comment, contributes one bit.
pub open spec fn is_binary_digit(b: u8) -> bool {
    b == 48 || b == 49
}

/// A byte that, outside a comment, starts a comment span.
pub open spec fn is_comment_start(b: u8) -> bool {
    b == 59
}

/// A byte that, outside a comment, is skipped with no other effect.
pub open spec fn is_inert(b: u8) -> bool {
    !is_binary_digit(b) && !is_comment_start(b)
}

/// The bit values (each 0 or 1) of the recognized digits of `s`, scanned
/// left to right starting in the given comment state. A `;` outside a
/// comment opens a comment; a carriage return or line feed closes one and is
/// itself ignored; digits inside a comment are not recognized.
pub open spec fn bits_from(s: Seq<u8>, in_comment: bool) -> Seq<u8>
    decreases s.len(),
{
    if s.len() == 0 {
        Seq::empty()
    } else {
        let b = s[0];
        let rest = s.subrange(1, s.len() as int);
        if in_comment {
            bits_from(rest, !is_newline(b))
        } else if b == 48 {
            seq![0u8] + bits_from(rest, false)
        } else if b == 49 {
            seq![1u8] + bits_from(rest, false)
        } else if b == 59 {
            bits_from(rest, true)
        } else {
            bits_from(rest, false)
        }
    }
}

/// The recognized digits of a whole input, which starts outside any comment.
pub open spec fn bits_of(s: Seq<u8>) -> Seq<u8> {
    bits_from(s, false)
}

/// The comment state left after scanning all of `s` from the given state.
pub open spec fn comment_state(s: Seq<u8>, in_comment: bool) -> bool
    decreases s.len(),
{
    if s.len() == 0 {
        in_comment
    } else {
        let b = s[0];
        let rest = s.subrange(1, s.len() as int);
        if in_comment {
            comment_state(rest, !is_newline(b))
        } else if b == 59 {
            comment_state(rest, true)
        } else {
            comment_state(rest, false)
        }
    }
}

/// The value contributed by the digit at position `k` (0-based) of its group
/// of eight: the first digit fills bit 7 of the byte, the eighth fills bit 0.
pub open spec fn weight(k: int) -> int {
    if k == 0 {
        128
    } else if k == 1 {
        64
    } else if k == 2 {
        32
    } else if k == 3 {
        16
    } else if k == 4 {
        8
    } else if k == 5 {
        4
    } else if k == 6 {
        2
    } else {
        1
    }
}

/// The value assembled so far from the leading digits `d` of one group,
/// `d[0]` being the group's first digit.
pub open spec fn group_value(d: Seq<u8>) -> int
    decreases d.len(),
{
    if d.len() == 0 {
        0
    } else {
        group_value(d.drop_last()) + d.last() * weight(d.len() - 1)
    }
}

/// The byte assembled from one full group of eight digits.
pub open spec fn byte_of_group(d: Seq<u8>) -> u8 {
    group_value(d) as u8
}

/// Packs bit values into bytes, eight at a time, most significant bit first;
/// trailing bits that do not fill a group are dropped.
pub open spec fn pack(d: Seq<u8>) -> Seq<u8>
    decreases d.len(),
{
    if d.len() < 8 {
        Seq::empty()
    } else {
        seq![byte_of_group(d.subrange(0, 8))] + pack(d.subrange(8, d.len() as int))
    }
}

/// The whole transduction, from raw input bytes to packed output bytes.
pub open spec fn transduce(s: Seq<u8>) -> Seq<u8> {
    pack(bits_of(s))
}

/// A partial group of digit values stays within a byte: while fewer than
/// eight digits are placed, there is still room for twice the weight of the
/// next position, and a full group's value is at most 255.
pub proof fn lemma_group_value_bound(d: Seq<u8>)
    requires
        d.len() <= 8,
        forall|j: int| 0 <= j < d.len() ==> d[j] <= 1,
    ensures
        0 <= group_value(d),
        d.len() < 8 ==> group_value(d) + 2 * weight(d.len() as int) <= 256,
        d.len() == 8 ==> group_value(d) <= 255,
    decreases d.len(),
{
    if d.len() > 0 {
        let prefix = d.drop_last();
        assert forall|j: int| 0 <= j < prefix.len() implies prefix[j] <= 1 by {
            assert(prefix[j] == d[j]);
        }
        lemma_group_value_bound(prefix);
    }
}

/// Packing yields one byte per full group of eight bits.
pub proof fn lemma_pack_len(d: Seq<u8>)
    ensures
        pack(d).len() == d.len() / 8,
    decreases d.len(),
{
    if d.len() >= 8 {
        lemma_pack_len(d.subrange(8, d.len() as int));
    }
}

/// The `g`-th packed byte is assembled from the `g`-th group of eight bits.
pub proof fn lemma_pack_index(d: Seq<u8>, g: int)
    requires
        0 <= g,
        8 * g + 8 <= d.len(),
    ensures
        pack(d).len() > g,
        pack(d)[g] == byte_of_group(d.subrange(8 * g, 8 * g + 8)),
    decreases g,
{
    lemma_pack_len(d);
    if g == 0 {
        assert(pack(d)[0] == byte_of_group(d.subrange(0, 8)));
    } else {
        let rest = d.subrange(8, d.len() as int);
        lemma_pack_index(rest, g - 1);
        assert(rest.subrange(8 * (g - 1), 8 * (g - 1) + 8) =~= d.subrange(8 * g, 8 * g + 8));
    }
}

/// Every recognized digit has bit value 0 or 1.
pub proof fn lemma_bits_from_bits(s: Seq<u8>, in_comment: bool)
    ensures
        forall|j: int| 0 <= j < bits_from(s, in_comment).len() ==> bits_from(s, in_comment)[j]
            <= 1,
    decreases s.len(),
{
    if s.len() > 0 {
        let rest = s.subrange(1, s.len() as int);
        lemma_bits_from_bits(rest, true);
        lemma_bits_from_bits(rest, false);
        lemma_bits_from_bits(rest, !is_newline(s[0]));
        if !in_comment && is_binary_digit(s[0]) {
            let v: u8 = if s[0] == 49 { 1u8 } else { 0u8 };
            let whole = seq![v] + bits_from(rest, false);
            assert(bits_from(s, in_comment) == whole);
            assert forall|j: int| 0 <= j < whole.len() implies whole[j] <= 1 by {
                if j > 0 {
                    assert(whole[j] == bits_from(rest, false)[j - 1]);
                } else {
                    assert(whole[0] == v);
                }
            }
        } else if in_comment {
            assert(bits_from(s, in_comment) == bits_from(rest, !is_newline(s[0])));
        } else {
            assert(bits_from(s, in_comment) == bits_from(rest, is_comment_start(s[0])));
        }
    }
}

/// Scanning a concatenation scans the first part, then the second from the
/// comment state the first part left behind; the final state composes the
/// same way.
pub proof fn lemma_bits_from_append(a: Seq<u8>, b: Seq<u8>, in_comment: bool)
    ensures
        bits_from(a + b, in_comment) == bits_from(a, in_comment) + bits_from(
            b,
            comment_state(a, in_comment),
        ),
        comment_state(a + b, in_comment) == comment_state(b, comment_state(a, in_comment)),
    decreases a.len(),
{
    if a.len() == 0 {
        assert(a + b =~= b);
        assert(bits_from(a, in_comment) + bits_from(b, in_comment) =~= bits_from(b, in_comment));
    } else {
        let rest = a.subrange(1, a.len() as int);
        assert((a + b).subrange(1, (a + b).len() as int) =~= rest + b);
        assert((a + b)[0] == a[0]);
        let next = if in_comment {
            !is_newline(a[0])
        } else {
            is_comment_start(a[0])
        };
        lemma_bits_from_append(rest, b, next);
        let tail_bits = bits_from(rest, next) + bits_from(b, comment_state(rest, next));
        if !in_comment && is_binary_digit(a[0]) {
            let v: u8 = if a[0] == 49 { 1u8 } else { 0u8 };
            assert(seq![v] + tail_bits =~= (seq![v] + bits_from(rest, next)) + bits_from(
                b,
                comment_state(rest, next),
            ));
        }
    }
}

} // verus!
