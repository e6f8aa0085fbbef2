//! Text as Windows hands it over: UTF-16 units, not always well formed.

use vstd::prelude::*;

use crate::text;

verus! {

/// `char::from_u32` gives the character of a Unicode scalar value and `None` for any other number.
pub assume_specification[ char::from_u32 ](i: u32) -> (r: Option<char>)
    ensures
        r == (if vstd::utf8::is_scalar(i) {
            Some(i as char)
        } else {
            None
        }),
;

/// A unit that opens a surrogate pair.
pub open spec fn is_high(unit: u16) -> bool {
    0xD800 <= unit <= 0xDBFF
}

/// A unit that closes a surrogate pair.
pub open spec fn is_low(unit: u16) -> bool {
    0xDC00 <= unit <= 0xDFFF
}

/// The character that a surrogate pair stands for.
pub open spec fn paired(high: u16, low: u16) -> char {
    (0x10000 + (high - 0xD800) * 0x400 + (low - 0xDC00)) as u32 as char
}

/// The text of some units, with the replacement character for each surrogate without a partner.
pub open spec fn decoded(units: Seq<u16>) -> Seq<char>
    decreases units.len(),
{
    if units.len() == 0 {
        seq![]
    } else if !is_high(units[0]) && !is_low(units[0]) {
        seq![units[0] as u32 as char] + decoded(units.skip(1))
    } else if is_high(units[0]) && units.len() > 1 && is_low(units[1]) {
        seq![paired(units[0], units[1])] + decoded(units.skip(2))
    } else {
        seq!['\u{fffd}'] + decoded(units.skip(1))
    }
}

/// The units in front of the first zero.
pub open spec fn to_nul(units: Seq<u16>) -> Seq<u16>
    decreases units.len(),
{
    if units.len() == 0 || units[0] == 0 {
        seq![]
    } else {
        seq![units[0]] + to_nul(units.skip(1))
    }
}

/// The character of a scalar value.
fn scalar(code: u32) -> (r: char)
    requires
        vstd::utf8::is_scalar(code),
    ensures
        r == code as char,
{
    match char::from_u32(code) {
        Some(c) => c,
        None => '\u{fffd}',
    }
}

/// Decodes units, putting the replacement character for each surrogate without a partner.
pub fn decode(units: &[u16]) -> (r: Vec<char>)
    ensures
        r@ == decoded(units@),
{
    let mut out: Vec<char> = Vec::new();
    let mut i: usize = 0;
    assert(units@.skip(0) =~= units@);
    while i < units.len()
        invariant
            i <= units@.len(),
            out@ + decoded(units@.skip(i as int)) == decoded(units@),
        decreases units@.len() - i,
    {
        let unit: u16 = units[i];
        let high: bool = 0xD800 <= unit && unit <= 0xDBFF;
        let low: bool = 0xDC00 <= unit && unit <= 0xDFFF;
        let ghost before = out@;
        let ghost rest = units@.skip(i as int);
        assert(rest.skip(1) =~= units@.skip(i + 1));
        if !high && !low {
            out.push(scalar(unit as u32));
            i += 1;
        } else if high && i + 1 < units.len() && 0xDC00 <= units[i + 1] && units[i + 1] <= 0xDFFF {
            let next: u16 = units[i + 1];
            assert(rest[1] == next);
            assert(rest.skip(2) =~= units@.skip(i + 2));
            out.push(scalar(0x10000 + (unit as u32 - 0xD800) * 0x400 + (next as u32 - 0xDC00)));
            i += 2;
        } else {
            out.push('\u{fffd}');
            i += 1;
        }
        assert(out@ + decoded(units@.skip(i as int)) =~= before + decoded(rest));
    }
    assert(out@ + decoded(units@.skip(i as int)) =~= out@);
    out
}

/// Decodes the units in front of the first zero, or all of them when there is none.
pub fn decode_to_nul(units: &[u16]) -> (r: Vec<char>)
    ensures
        r@ == decoded(to_nul(units@)),
{
    let mut i: usize = 0;
    assert(units@.skip(0) =~= units@);
    while i < units.len() && units[i] != 0
        invariant
            i <= units@.len(),
            to_nul(units@) == units@.take(i as int) + to_nul(units@.skip(i as int)),
        decreases units@.len() - i,
    {
        let ghost rest = units@.skip(i as int);
        assert(rest.skip(1) =~= units@.skip(i + 1));
        assert(units@.take(i + 1) =~= units@.take(i as int).push(units@[i as int]));
        i += 1;
        assert(to_nul(units@) =~= units@.take(i as int) + to_nul(units@.skip(i as int)));
    }
    assert(to_nul(units@) =~= units@.take(i as int));
    let head: &[u16] = vstd::slice::slice_subrange(units, 0, i);
    assert(head@ =~= units@.take(i as int));
    decode(head)
}

/// What a registry string says: it arrives with a zero at its end, sometimes with two, sometimes
/// with none.
pub fn utf16_value(units: &[u16]) -> (r: String)
    ensures
        r@ == decoded(to_nul(units@)),
{
    let text: Vec<char> = decode_to_nul(units);
    text::text_of(text.as_slice())
}

/// How a character is written: in one unit, or in two where one is not enough.
pub open spec fn written(c: char) -> Seq<u16> {
    if (c as u32) < 0x10000 {
        seq![c as u32 as u16]
    } else {
        seq![
            (0xD800 + ((c as u32) - 0x10000) / 0x400) as u16,
            (0xDC00 + ((c as u32) - 0x10000) % 0x400) as u16,
        ]
    }
}

/// How a text is written.
pub open spec fn written_text(s: Seq<char>) -> Seq<u16>
    decreases s.len(),
{
    if s.len() == 0 {
        seq![]
    } else {
        written(s[0]) + written_text(s.skip(1))
    }
}

/// What characters there are.
proof fn lemma_scalar(c: char)
    ensures
        (c as u32) < 0xD800 || 0xE000 <= (c as u32) <= 0x10FFFF,
        (c as u32) as char == c,
        (c as u32) < 0x10000 ==> (c as u32 as u16) as u32 as char == c,
{
}

/// A text that was written is read back, whatever characters it is made of.
pub proof fn law_a_written_text_is_read_back(s: Seq<char>)
    ensures
        decoded(written_text(s)) == s,
    decreases s.len(),
{
    if s.len() > 0 {
        let rest = s.skip(1);
        law_a_written_text_is_read_back(rest);
        let c = s[0];
        let n = c as u32;
        lemma_scalar(c);
        let all = written_text(s);
        assert(s =~= seq![c] + rest);
        if n < 0x10000 {
            let unit = n as u16;
            assert(unit == n);
            assert(all[0] == unit);
            assert(!is_high(unit) && !is_low(unit));
            assert(all.skip(1) =~= written_text(rest));
        } else {
            let m = n - 0x10000;
            assert(0 <= m < 0x100000);
            assert(0 <= m / 0x400 < 0x400);
            let high = (0xD800 + m / 0x400) as u16;
            let low = (0xDC00 + m % 0x400) as u16;
            assert(all[0] == high && all[1] == low);
            assert(is_high(high) && is_low(low));
            assert((high - 0xD800) * 0x400 + (low - 0xDC00) == m);
            assert((0x10000 + (high - 0xD800) * 0x400 + (low - 0xDC00)) as u32 == n);
            assert(paired(high, low) == c);
            assert(all.skip(2) =~= written_text(rest));
        }
    } else {
        assert(decoded(written_text(s)) =~= s);
    }
}

/// Half a pair stands for the character of what cannot be read, and what is behind it is read on.
pub proof fn law_half_a_pair_is_replaced(unit: u16, rest: Seq<u16>)
    requires
        0xD800 <= unit <= 0xDFFF,
        unit <= 0xDBFF ==> rest.len() == 0 || !(0xDC00 <= rest[0] <= 0xDFFF),
    ensures
        decoded(seq![unit] + rest) == seq!['\u{fffd}'] + decoded(rest),
{
    let all = seq![unit] + rest;
    assert(all[0] == unit);
    assert(all.skip(1) =~= rest);
    if rest.len() > 0 {
        assert(all[1] == rest[0]);
    }
}

/// What is read ends before the first zero.
pub proof fn law_a_zero_ends_the_text(a: Seq<u16>, b: Seq<u16>)
    requires
        !a.contains(0),
    ensures
        to_nul(a) == a,
        to_nul(a + seq![0u16] + b) == a,
    decreases a.len(),
{
    let all = a + seq![0u16] + b;
    if a.len() > 0 {
        let rest = a.skip(1);
        assert(a.contains(a[0]));
        assert(!rest.contains(0)) by {
            if rest.contains(0) {
                let i = choose|i: int| 0 <= i < rest.len() && rest[i] == 0;
                assert(a[i + 1] == 0);
            }
        }
        law_a_zero_ends_the_text(rest, b);
        assert(all.skip(1) =~= rest + seq![0u16] + b);
        assert(all[0] == a[0]);
        assert(seq![a[0]] + rest =~= a);
    } else {
        assert(all[0] == 0);
        assert(to_nul(all) =~= a);
        assert(to_nul(a) =~= a);
    }
}

} // verus!
