//! Packs a human-readable ASCII rendering of binary data into raw bytes.
//!
//! The input is scanned once, left to right. ASCII `0` and `1` are binary
//! digits; eight consecutive digits form one output byte, the first digit in
//! the most significant position. A `;` starts a comment that runs to the
//! next carriage return or line feed (or to the end of the input) and hides
//! every byte inside it, digits included. Every other byte is ignored, and
//! trailing digits that do not complete a byte are dropped.

use vstd::prelude::*;

pub mod laws;
pub mod model;

use crate::model::{bits_from, byte_of_group, group_value, lemma_group_value_bound, pack, transduce, weight};

verus! {

/// The value that the next recognized digit contributes if it is a `1`:
/// `byte_index` counts remaining bit positions from 7 down to 0, so the
/// digit lands `7 - byte_index` places into its group.
fn digit_weight(byte_index: u8) -> (w: u8)
    requires
        byte_index < 8,
    ensures
        w as int == weight(7 - byte_index as int),
{
    if byte_index == 7 {
        128
    } else if byte_index == 6 {
        64
    } else if byte_index == 5 {
        32
    } else if byte_index == 4 {
        16
    } else if byte_index == 3 {
        8
    } else if byte_index == 2 {
        4
    } else if byte_index == 1 {
        2
    } else {
        1
    }
}

/// Scans `input` once and returns the packed bytes of its recognized digits.
pub fn process(input: &[u8]) -> (out: Vec<u8>)
    ensures
        out@ == transduce(input@),
{
    let mut out: Vec<u8> = Vec::new();
    let mut current_byte: u8 = 0;
    let mut byte_index: u8 = 7;
    let mut in_comment: bool = false;
    let mut i: usize = 0;
    let ghost mut partial: Seq<u8> = Seq::empty();

    proof {
        assert(input@.subrange(0, input@.len() as int) =~= input@);
        assert(partial + bits_from(input@, false) =~= bits_from(input@, false));
    }

    while i < input.len()
        invariant
            i <= input.len(),
            byte_index < 8,
            partial.len() == 7 - byte_index as int,
            forall|j: int| 0 <= j < partial.len() ==> partial[j] <= 1,
            current_byte as int == group_value(partial),
            transduce(input@) == out@ + pack(
                partial + bits_from(
                    input@.subrange(i as int, input@.len() as int),
                    in_comment,
                ),
            ),
        decreases input.len() - i,
    {
        let ghost suffix = input@.subrange(i as int, input@.len() as int);
        let b = input[i];
        proof {
            assert(suffix[0] == b);
            assert(suffix.subrange(1, suffix.len() as int) =~= input@.subrange(
                i as int + 1,
                input@.len() as int,
            ));
        }
        if in_comment {
            if b == 10 || b == 13 {
                in_comment = false;
            }
        } else if b == 48 || b == 49 {
            let ghost v: u8 = if b == 49 { 1u8 } else { 0u8 };
            let ghost partial0 = partial;
            proof {
                lemma_group_value_bound(partial0);
            }
            let w = digit_weight(byte_index);
            if b == 49 {
                current_byte = current_byte + w;
            }
            proof {
                partial = partial0.push(v);
                assert(partial.drop_last() =~= partial0);
                assert(partial.last() == v);
                assert(current_byte as int == group_value(partial));
                let digits = bits_from(suffix, false);
                let later = bits_from(
                    input@.subrange(i as int + 1, input@.len() as int),
                    false,
                );
                assert(digits == seq![v] + later);
                assert(partial0 + digits =~= partial + later);
            }
            if byte_index == 0 {
                proof {
                    lemma_group_value_bound(partial);
                    let later = bits_from(
                        input@.subrange(i as int + 1, input@.len() as int),
                        false,
                    );
                    let whole = partial + later;
                    assert(whole.subrange(0, 8) =~= partial);
                    assert(whole.subrange(8, whole.len() as int) =~= later);
                    assert(pack(whole) == seq![byte_of_group(partial)] + pack(later));
                    assert(byte_of_group(partial) == current_byte);
                }
                let ghost out0 = out@;
                out.push(current_byte);
                current_byte = 0;
                byte_index = 7;
                proof {
                    let later = bits_from(
                        input@.subrange(i as int + 1, input@.len() as int),
                        false,
                    );
                    assert(out0 + (seq![byte_of_group(partial)] + pack(later)) =~= out@
                        + pack(later));
                    partial = Seq::empty();
                    assert(partial + later =~= later);
                }
            } else {
                byte_index = byte_index - 1;
            }
        } else if b == 59 {
            in_comment = true;
        }
        i = i + 1;
    }
    proof {
        assert(input@.subrange(i as int, input@.len() as int) =~= Seq::<u8>::empty());
        assert(bits_from(Seq::<u8>::empty(), in_comment) =~= Seq::<u8>::empty());
        assert(partial + Seq::<u8>::empty() =~= partial);
        assert(pack(partial) =~= Seq::<u8>::empty());
        assert(out@ + Seq::<u8>::empty() =~= out@);
    }
    out
}

/// Appends the packed bytes of `input`'s recognized digits to `sink`,
/// leaving whatever the sink already held in place.
pub fn process_into(input: &[u8], sink: &mut Vec<u8>)
    ensures
        final(sink)@ == old(sink)@ + transduce(input@),
{
    let mut packed = process(input);
    sink.append(&mut packed);
}

} // verus!
