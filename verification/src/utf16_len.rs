//! UTF-16 length calculation from UTF-8 bytes.
//!
//! Formula: `utf16_len = byte_length - continuation_bytes + four_byte_leaders`
//!
//! Where:
//! - continuation bytes: `(byte & 0xC0) == 0x80`
//! - four-byte leaders: `byte >= 0xF0`
use vstd::prelude::*;
use vstd::utf8::*;

verus! {

/// A byte of the form `10xxxxxx`.
pub open spec fn is_continuation(b: u8) -> bool {
    0x80 <= b < 0xC0
}

/// A byte of the form `11110xxx` or above.
pub open spec fn is_four_byte_leader(b: u8) -> bool {
    b >= 0xF0
}

/// Number of continuation bytes in `bytes`.
pub open spec fn count_continuation(bytes: Seq<u8>) -> nat
    decreases bytes.len(),
{
    if bytes.len() == 0 {
        0
    } else {
        count_continuation(bytes.drop_last()) + if is_continuation(bytes.last()) {
            1nat
        } else {
            0nat
        }
    }
}

/// Number of four-byte leading bytes in `bytes`.
pub open spec fn count_four_byte_leaders(bytes: Seq<u8>) -> nat
    decreases bytes.len(),
{
    if bytes.len() == 0 {
        0
    } else {
        count_four_byte_leaders(bytes.drop_last()) + if is_four_byte_leader(bytes.last()) {
            1nat
        } else {
            0nat
        }
    }
}

/// The UTF-16 length that the formula assigns to a byte sequence.
pub open spec fn utf16_len_of_bytes(bytes: Seq<u8>) -> int {
    bytes.len() - count_continuation(bytes) + count_four_byte_leaders(bytes)
}

/// Number of UTF-16 code units that encode `c`: two (a surrogate pair) above the
/// basic multilingual plane, one otherwise.
pub open spec fn utf16_units_of_char(c: char) -> nat {
    if (c as u32) >= 0x10000 {
        2
    } else {
        1
    }
}

/// Number of UTF-16 code units that encode the character sequence `cs`.
pub open spec fn utf16_units(cs: Seq<char>) -> nat
    decreases cs.len(),
{
    if cs.len() == 0 {
        0
    } else {
        utf16_units_of_char(cs[0]) + utf16_units(cs.drop_first())
    }
}

proof fn lemma_counts_le(bytes: Seq<u8>)
    ensures
        count_continuation(bytes) <= bytes.len(),
        count_four_byte_leaders(bytes) <= bytes.len(),
    decreases bytes.len(),
{
    if bytes.len() > 0 {
        lemma_counts_le(bytes.drop_last());
    }
}

proof fn lemma_counts_concat(a: Seq<u8>, b: Seq<u8>)
    ensures
        count_continuation(a + b) == count_continuation(a) + count_continuation(b),
        count_four_byte_leaders(a + b) == count_four_byte_leaders(a) + count_four_byte_leaders(b),
    decreases b.len(),
{
    if b.len() == 0 {
        assert(a + b =~= a);
    } else {
        lemma_counts_concat(a, b.drop_last());
        assert((a + b).drop_last() =~= a + b.drop_last());
    }
}

proof fn lemma_scalar_bytes(c: u32)
    requires
        is_scalar(c),
    ensures
        utf16_len_of_bytes(encode_scalar(c)) == if c >= 0x10000 {
            2int
        } else {
            1int
        },
        count_four_byte_leaders(encode_scalar(c)) <= count_continuation(encode_scalar(c)),
{
    reveal_with_fuel(count_continuation, 5);
    reveal_with_fuel(count_four_byte_leaders, 5);
    let s = encode_scalar(c);
    if has_width_1_encoding(c) {
        let b1 = leading_byte_width_1(c);
        assert(b1 < 0x80) by (bit_vector)
            requires
                b1 == (c & 0x7F) as u8,
                c <= 0x7F,
        ;
        assert(s.drop_last() =~= Seq::<u8>::empty());
    } else if has_width_2_encoding(c) {
        let b1 = leading_byte_width_2(c);
        let b2 = last_continuation_byte(c);
        assert(0xC0 <= b1 < 0xE0 && 0x80 <= b2 < 0xC0) by (bit_vector)
            requires
                b1 == 0xC0 | ((c >> 6) & 0x1F) as u8,
                b2 == 0x80 | (c & 0x3F) as u8,
        ;
        assert(s.drop_last() =~= seq![b1]);
        assert(s.drop_last().drop_last() =~= Seq::<u8>::empty());
    } else if has_width_3_encoding(c) {
        let b1 = leading_byte_width_3(c);
        let b2 = second_last_continuation_byte(c);
        let b3 = last_continuation_byte(c);
        assert(0xE0 <= b1 < 0xF0 && 0x80 <= b2 < 0xC0 && 0x80 <= b3 < 0xC0) by (bit_vector)
            requires
                b1 == 0xE0 | ((c >> 12) & 0x0F) as u8,
                b2 == 0x80 | ((c >> 6) & 0x3F) as u8,
                b3 == 0x80 | (c & 0x3F) as u8,
        ;
        assert(s.drop_last() =~= seq![b1, b2]);
        assert(s.drop_last().drop_last() =~= seq![b1]);
        assert(s.drop_last().drop_last().drop_last() =~= Seq::<u8>::empty());
    } else {
        let b1 = leading_byte_width_4(c);
        let b2 = third_last_continuation_byte(c);
        let b3 = second_last_continuation_byte(c);
        let b4 = last_continuation_byte(c);
        assert(0xF0 <= b1 && 0x80 <= b2 < 0xC0 && 0x80 <= b3 < 0xC0 && 0x80 <= b4 < 0xC0)
            by (bit_vector)
            requires
                b1 == 0xF0 | ((c >> 18) & 0x7) as u8,
                b2 == 0x80 | ((c >> 12) & 0x3F) as u8,
                b3 == 0x80 | ((c >> 6) & 0x3F) as u8,
                b4 == 0x80 | (c & 0x3F) as u8,
        ;
        assert(s.drop_last() =~= seq![b1, b2, b3]);
        assert(s.drop_last().drop_last() =~= seq![b1, b2]);
        assert(s.drop_last().drop_last().drop_last() =~= seq![b1]);
        assert(s.drop_last().drop_last().drop_last().drop_last() =~= Seq::<u8>::empty());
    }
}

/// For UTF-8 text, the byte formula gives exactly the number of UTF-16 code units
/// of the text: continuation bytes add nothing, and each four-byte character
/// becomes a surrogate pair.
pub proof fn lemma_utf16_len_of_utf8(cs: Seq<char>)
    ensures
        utf16_len_of_bytes(encode_utf8(cs)) == utf16_units(cs),
        count_four_byte_leaders(encode_utf8(cs)) <= count_continuation(encode_utf8(cs)),
    decreases cs.len(),
{
    if cs.len() > 0 {
        let c = cs[0] as u32;
        char_is_scalar(cs[0]);
        lemma_scalar_bytes(c);
        lemma_utf16_len_of_utf8(cs.drop_first());
        lemma_counts_concat(encode_scalar(c), encode_utf8(cs.drop_first()));
    }
}

/// Compute the number of UTF-16 code units for UTF-8 bytes.
pub fn utf16_length_from_utf8(bytes: &[u8]) -> (r: usize)
    requires
        utf16_len_of_bytes(bytes@) <= usize::MAX,
    ensures
        r == utf16_len_of_bytes(bytes@),
{
    let len = bytes.len();
    let mut continuation_count: usize = 0;
    let mut four_byte_count: usize = 0;
    let mut i: usize = 0;
    while i < len
        invariant
            len == bytes@.len(),
            i <= len,
            continuation_count == count_continuation(bytes@.take(i as int)),
            four_byte_count == count_four_byte_leaders(bytes@.take(i as int)),
            continuation_count <= i,
            four_byte_count <= i,
            utf16_len_of_bytes(bytes@) <= usize::MAX,
        decreases len - i,
    {
        let b = bytes[i];
        assert(bytes@.take(i + 1).drop_last() =~= bytes@.take(i as int));
        let is_cont = (b & 0xC0) == 0x80;
        assert(is_cont == (0x80 <= b < 0xC0)) by (bit_vector)
            requires
                is_cont == ((b & 0xC0) == 0x80),
        ;
        if is_cont {
            continuation_count += 1;
        }
        if b >= 0xF0 {
            four_byte_count += 1;
        }
        i += 1;
    }
    assert(bytes@.take(len as int) =~= bytes@);
    proof {
        lemma_counts_le(bytes@);
    }
    len - continuation_count + four_byte_count
}

/// Number of UTF-16 code units needed to encode `s`.
pub fn utf16_len(s: &str) -> (r: usize)
    ensures
        r == utf16_units(s@),
{
    let bytes = s.as_bytes();
    let n = bytes.len();
    proof {
        lemma_utf16_len_of_utf8(s@);
        lemma_counts_le(bytes@);
        assert(bytes@ == encode_utf8(s@));
        assert(n == bytes@.len());
    }
    utf16_length_from_utf8(bytes)
}


/// The count is additive: the bytes can be counted in blocks, and the counts of
/// the blocks added.
pub proof fn lemma_utf16_len_of_bytes_concat(a: Seq<u8>, b: Seq<u8>)
    ensures
        utf16_len_of_bytes(a + b) == utf16_len_of_bytes(a) + utf16_len_of_bytes(b),
{
    lemma_counts_concat(a, b);
}

} // verus!
