//! Log sequence numbers. They travel through SQL as text (`X/Y`, two
//! hexadecimal halves) and through Rust as `u64`.

use vstd::prelude::*;

use crate::text;
use crate::text::{digit_value, digits_value, first_of, trimmed, unsigned_value, upper_digit, upper_hex};

verus! {

broadcast use vstd::seq_lib::group_seq_properties;

/// The value of `X/Y`: both halves are hexadecimal numbers that fit 64 bits,
/// the high one moved up by 32 bits. White space around the text is ignored.
pub open spec fn parsed(text: Seq<char>) -> Option<u64> {
    let t = trimmed(text);
    match first_of(t, '/') {
        None => None,
        Some(i) => {
            match (unsigned_value(t.subrange(0, i), 16), unsigned_value(t.subrange(i + 1, t.len() as int), 16)) {
                (Some(hi), Some(lo)) => if hi <= u64::MAX && lo <= u64::MAX {
                    Some(((hi as u64) << 32u64) | (lo as u64))
                } else {
                    None
                },
                _ => None,
            }
        },
    }
}

/// The text of a position: its two 32-bit halves in upper-case hexadecimal.
pub open spec fn formatted(lsn: u64) -> Seq<char> {
    upper_hex((lsn / 0x1_0000_0000) as nat) + "/"@ + upper_hex((lsn % 0x1_0000_0000) as nat)
}

pub fn parse(text: &str) -> (result: Option<u64>)
    ensures
        result == parsed(text@),
{
    let chars = text::chars_of(text);
    let (from, to) = text::trim_range(&chars);
    let ghost t = chars@.subrange(from as int, to as int);
    match text::find_char(&chars, from, to, '/') {
        None => None,
        Some(slash) => {
            assert(t.subrange(0, slash - from) =~= chars@.subrange(from as int, slash as int));
            assert(t.subrange(slash - from + 1, t.len() as int) =~= chars@.subrange(slash + 1, to as int));
            let hi = match text::parse_unsigned(&chars, from, slash, 16) {
                Some(hi) => hi,
                None => return None,
            };
            let lo = match text::parse_unsigned(&chars, slash + 1, to, 16) {
                Some(lo) => lo,
                None => return None,
            };
            Some((hi << 32u64) | lo)
        },
    }
}

pub fn format(lsn: u64) -> (result: String)
    ensures
        result@ == formatted(lsn),
{
    assert(lsn >> 32u64 == lsn / 0x1_0000_0000) by (bit_vector);
    assert(lsn & 0xFFFF_FFFF == lsn % 0x1_0000_0000) by (bit_vector);
    text::upper_hex_text(lsn >> 32u64).concat("/").concat(&text::upper_hex_text(lsn & 0xFFFF_FFFF))
}

/// The hexadecimal text of a number is digits only, and reads as the number.
proof fn lemma_upper_hex(n: nat)
    ensures
        upper_hex(n).len() > 0,
        digits_value(upper_hex(n), 16) == Some(n),
        forall|i: int|
            0 <= i < upper_hex(n).len() ==> digit_value(#[trigger] upper_hex(n)[i], 16) is Some,
    decreases n,
{
    let last = upper_digit((n % 16) as int);
    assert(digit_value(last, 16) == Some((n % 16) as nat));
    if n < 16 {
        assert(upper_hex(n).drop_last() =~= Seq::empty());
        assert(upper_hex(n).last() == last);
        assert(digits_value(Seq::<char>::empty(), 16) == Some(0nat));
    } else {
        lemma_upper_hex(n / 16);
        let high = upper_hex(n / 16);
        assert(upper_hex(n) == high.push(last));
        assert(upper_hex(n).drop_last() =~= high);
        assert forall|i: int| 0 <= i < upper_hex(n).len() implies digit_value(
            #[trigger] upper_hex(n)[i],
            16,
        ) is Some by {
            if i < high.len() {
                assert(upper_hex(n)[i] == high[i]);
            }
        }
    }
}

/// Reading back the text of a position gives the position.
pub proof fn law_parse_reads_what_format_writes(lsn: u64)
    ensures
        parsed(formatted(lsn)) == Some(lsn),
{
    let hi = (lsn / 0x1_0000_0000) as nat;
    let lo = (lsn % 0x1_0000_0000) as nat;
    let h = upper_hex(hi);
    let l = upper_hex(lo);
    let t = formatted(lsn);
    reveal_strlit("/");
    lemma_upper_hex(hi);
    lemma_upper_hex(lo);
    assert(t.len() == h.len() + 1 + l.len());
    assert(t[0] == h[0]);
    assert(t.last() == l[l.len() - 1]);
    assert(t[h.len() as int] == '/');
    assert forall|j: int| 0 <= j < h.len() implies t[j] != '/' by {
        assert(t[j] == h[j]);
    }
    assert(trimmed(t) == t);
    text::lemma_first_is(t, '/', h.len() as int);
    assert(t.subrange(0, h.len() as int) =~= h);
    assert(t.subrange(h.len() as int + 1, t.len() as int) =~= l);
    assert(h[0] != '+');
    assert(l[0] != '+');
    let hi64 = hi as u64;
    let lo64 = lo as u64;
    assert((hi64 << 32u64) | lo64 == lsn) by (bit_vector)
        requires
            hi64 == lsn / 0x1_0000_0000,
            lo64 == lsn % 0x1_0000_0000,
    ;
}

/// A position is written as two halves with one slash between them: what stands before it
/// counts by 2^32, what stands behind it by one.
pub proof fn law_positions_are_written_in_halves(lsn: u64) -> (halves: (Seq<char>, Seq<char>))
    ensures
        formatted(lsn) == halves.0.push('/') + halves.1,
        digits_value(halves.0, 16) is Some,
        digits_value(halves.1, 16) is Some,
        digits_value(halves.1, 16)->0 < 0x1_0000_0000,
        lsn == (digits_value(halves.0, 16)->0) * 0x1_0000_0000 + digits_value(halves.1, 16)->0,
{
    let hi = (lsn / 0x1_0000_0000) as nat;
    let lo = (lsn % 0x1_0000_0000) as nat;
    lemma_upper_hex(hi);
    lemma_upper_hex(lo);
    reveal_strlit("/");
    assert(formatted(lsn) =~= upper_hex(hi).push('/') + upper_hex(lo));
    (upper_hex(hi), upper_hex(lo))
}

/// Two positions that are written alike are the same, and a text is read as a position
/// only where it is two hexadecimal numbers with a slash between them, white space around
/// them aside.
pub proof fn law_only_positions_are_read(a: u64, b: u64, text: Seq<char>)
    ensures
        formatted(a) == formatted(b) ==> a == b,
        !text.contains('/') ==> parsed(text) is None,
        parsed(text) is Some ==> exists|i: int|
            0 <= i < trimmed(text).len() && #[trigger] trimmed(text)[i] == '/' && unsigned_value(
                trimmed(text).take(i),
                16,
            ) is Some && unsigned_value(trimmed(text).skip(i + 1), 16) is Some,
{
    law_parse_reads_what_format_writes(a);
    law_parse_reads_what_format_writes(b);
    let t = trimmed(text);
    text::lemma_first_of(t, '/');
    if let Some(i) = first_of(t, '/') {
        assert(t.subrange(0, i) =~= t.take(i));
        assert(t.subrange(i + 1, t.len() as int) =~= t.skip(i + 1));
        assert(t[i] == '/');
        let (front, back) = text::law_trimming_takes_only_white_space(text);
        assert((front + t + back)[front.len() + i] == '/');
        assert(text.contains('/'));
    }
}

/// Reading puts the two halves together: the first counts by 2^32, where both fit.
pub proof fn law_halves_are_put_together(high: Seq<char>, low: Seq<char>)
    requires
        high.len() > 0,
        low.len() > 0,
        digits_value(high, 16) matches Some(n) && n < 0x1_0000_0000,
        digits_value(low, 16) matches Some(n) && n < 0x1_0000_0000,
    ensures
        parsed(high.push('/') + low) == Some(
            ((digits_value(high, 16)->0) * 0x1_0000_0000 + digits_value(low, 16)->0) as u64,
        ),
{
    let t = high.push('/') + low;
    lemma_all_digits(high);
    lemma_all_digits(low);
    assert(t[0] == high[0]);
    assert(t.last() == low[low.len() - 1]);
    assert forall|j: int| 0 <= j < high.len() implies t[j] != '/' by {
        assert(t[j] == high[j]);
    }
    assert(trimmed(t) == t);
    assert(t[high.len() as int] == '/');
    text::lemma_first_is(t, '/', high.len() as int);
    assert(t.subrange(0, high.len() as int) =~= high);
    assert(t.subrange(high.len() as int + 1, t.len() as int) =~= low);
    let hi = (digits_value(high, 16)->0) as u64;
    let lo = (digits_value(low, 16)->0) as u64;
    assert((hi << 32u64) | lo == hi * 0x1_0000_0000 + lo) by (bit_vector)
        requires
            hi < 0x1_0000_0000,
            lo < 0x1_0000_0000,
    ;
}

proof fn lemma_all_digits(digits: Seq<char>)
    requires
        digits_value(digits, 16) is Some,
    ensures
        forall|i: int| 0 <= i < digits.len() ==> digit_value(#[trigger] digits[i], 16) is Some,
    decreases digits.len(),
{
    if digits.len() > 0 {
        lemma_all_digits(digits.drop_last());
        assert forall|i: int| 0 <= i < digits.len() implies digit_value(
            #[trigger] digits[i],
            16,
        ) is Some by {
            if i < digits.len() - 1 {
                assert(digits.drop_last()[i] == digits[i]);
            }
        }
    }
}

} // verus!
