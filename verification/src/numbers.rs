//! Decimal numbers as text.

use vstd::prelude::*;

use crate::text;

verus! {

/// Whether a character is a decimal digit.
pub open spec fn is_digit(c: char) -> bool {
    '0' <= c <= '9'
}

/// The value of a digit.
pub open spec fn digit(c: char) -> int {
    c as int - '0' as int
}

/// Whether a text is made of digits, one at least.
pub open spec fn is_number(s: Seq<char>) -> bool {
    s.len() > 0 && forall|i: int| 0 <= i < s.len() ==> is_digit(#[trigger] s[i])
}

/// The number that some digits write.
pub open spec fn value(s: Seq<char>) -> int
    decreases s.len(),
{
    if s.len() == 0 {
        0
    } else {
        value(s.drop_last()) * 10 + digit(s.last())
    }
}

/// A text without the plus sign in front.
pub open spec fn without_plus(s: Seq<char>) -> Seq<char> {
    if s.len() > 0 && s[0] == '+' {
        s.skip(1)
    } else {
        s
    }
}

/// The `u32` that a text writes: digits, perhaps with a plus sign in front, whose number is not
/// too large.
pub open spec fn unsigned(s: Seq<char>) -> Option<u32> {
    let digits = without_plus(s);
    if is_number(digits) && value(digits) <= u32::MAX {
        Some(value(digits) as u32)
    } else {
        None
    }
}

/// The `i32` that a text writes: digits, perhaps with a sign in front, whose number is neither too
/// large nor too small.
pub open spec fn signed(s: Seq<char>) -> Option<i32> {
    let minus = s.len() > 0 && s[0] == '-';
    let digits = if minus {
        s.skip(1)
    } else {
        without_plus(s)
    };
    let n = if minus {
        -value(digits)
    } else {
        value(digits)
    };
    if is_number(digits) && i32::MIN <= n <= i32::MAX {
        Some(n as i32)
    } else {
        None
    }
}

/// The digits of a number.
pub open spec fn decimal(n: nat) -> Seq<char>
    decreases n,
{
    if n < 10 {
        seq![('0' as u32 + n) as char]
    } else {
        decimal(n / 10).push(('0' as u32 + n % 10) as char)
    }
}

/// The digits of a number write that number.
pub proof fn lemma_decimal(n: nat)
    ensures
        is_number(decimal(n)),
        value(decimal(n)) == n,
    decreases n,
{
    reveal_with_fuel(value, 2);
    if n < 10 {
        let s = decimal(n);
        assert(s.drop_last() =~= Seq::<char>::empty());
        assert(is_digit(s[0]));
    } else {
        lemma_decimal(n / 10);
        let s = decimal(n);
        assert(s.drop_last() =~= decimal(n / 10));
        assert forall|i: int| 0 <= i < s.len() implies is_digit(#[trigger] s[i]) by {
            if i < s.len() - 1 {
                assert(s[i] == decimal(n / 10)[i]);
            }
        }
    }
}

/// What a number is written as is read back as that number.
pub proof fn law_a_written_number_is_read_back(n: u32)
    ensures
        unsigned(decimal(n as nat)) == Some(n),
{
    lemma_decimal(n as nat);
    assert(is_digit(decimal(n as nat)[0]));
}

/// More digits make no smaller number.
proof fn lemma_value_grows(s: Seq<char>, n: int)
    requires
        0 <= n <= s.len(),
        forall|i: int| 0 <= i < s.len() ==> is_digit(#[trigger] s[i]),
    ensures
        0 <= value(s.take(n)) <= value(s),
    decreases s.len(),
{
    if n == s.len() {
        assert(s.take(n) =~= s);
        if n > 0 {
            let t = s.drop_last();
            assert forall|i: int| 0 <= i < t.len() implies is_digit(#[trigger] t[i]) by {
                assert(is_digit(s[i]));
            }
            lemma_value_grows(t, n - 1);
            assert(t.take(n - 1) =~= t);
            assert(is_digit(s[n - 1]));
        }
    } else {
        let t = s.drop_last();
        assert forall|i: int| 0 <= i < t.len() implies is_digit(#[trigger] t[i]) by {
            assert(is_digit(s[i]));
        }
        lemma_value_grows(t, n);
        assert(t.take(n) =~= s.take(n));
        assert(is_digit(s[s.len() - 1]));
    }
}

/// The number that a text of digits writes, if it is at most `limit`.
fn parse_digits(s: &[char], limit: u32) -> (r: Option<u32>)
    ensures
        r is Some <==> is_number(s@) && value(s@) <= limit,
        r matches Some(n) ==> n == value(s@),
{
    if s.len() == 0 {
        return None;
    }
    let mut i: usize = 0;
    let mut n: u64 = 0;
    let mut over: bool = false;
    while i < s.len()
        invariant
            i <= s@.len(),
            forall|k: int| 0 <= k < i ==> is_digit(#[trigger] s@[k]),
            over ==> value(s@.take(i as int)) > limit,
            !over ==> n == value(s@.take(i as int)) && n <= limit,
        decreases s@.len() - i,
    {
        let c: char = s[i];
        if !('0' <= c && c <= '9') {
            assert(!is_digit(s@[i as int]));
            return None;
        }
        let ghost t = s@.take(i + 1);
        proof {
            assert(t.drop_last() =~= s@.take(i as int));
            assert(t.last() == c);
        }
        if !over {
            let d: u64 = ((c as u32) - 48) as u64;
            n = n * 10 + d;
            if n > limit as u64 {
                over = true;
            }
        }
        i += 1;
    }
    assert(s@.take(i as int) =~= s@);
    if over {
        None
    } else {
        Some(n as u32)
    }
}

/// The text behind its first character.
fn rest_of(s: &[char]) -> (r: &[char])
    requires
        s@.len() > 0,
    ensures
        r@ == s@.skip(1),
{
    let r: &[char] = vstd::slice::slice_subrange(s, 1, s.len());
    assert(r@ =~= s@.skip(1));
    r
}

/// The `u32` that a text writes.
pub fn parse_u32(s: &[char]) -> (r: Option<u32>)
    ensures
        r == unsigned(s@),
{
    if s.len() > 0 && s[0] == '+' {
        parse_digits(rest_of(s), u32::MAX)
    } else {
        parse_digits(s, u32::MAX)
    }
}

/// The `i32` that a text writes.
pub fn parse_i32(s: &[char]) -> (r: Option<i32>)
    ensures
        r == signed(s@),
{
    if s.len() > 0 && s[0] == '-' {
        let rest: &[char] = rest_of(s);
        match parse_digits(rest, 0x8000_0000) {
            Some(n) => Some((0i64 - n as i64) as i32),
            None => None,
        }
    } else {
        let digits: &[char] = if s.len() > 0 && s[0] == '+' {
            rest_of(s)
        } else {
            s
        };
        match parse_digits(digits, 0x7fff_ffff) {
            Some(n) => {
                proof {
                    lemma_value_grows(digits@, digits@.len() as int);
                }
                Some(n as i32)
            },
            None => {
                proof {
                    if is_number(digits@) {
                        lemma_value_grows(digits@, 0);
                    }
                }
                None
            },
        }
    }
}

/// The digits of a number.
pub fn write_decimal(n: u64) -> (r: Vec<char>)
    ensures
        r@ == decimal(n as nat),
    decreases n,
{
    let mut out: Vec<char> = if n < 10 {
        Vec::new()
    } else {
        write_decimal(n / 10)
    };
    let d: u8 = (n % 10) as u8;
    let ghost front = out@;
    out.push((48 + d) as char);
    assert(out@ =~= decimal(n as nat)) by {
        if n < 10 {
            assert(front =~= Seq::<char>::empty());
        }
    }
    out
}

/// The digits of a number as a string.
pub fn decimal_text(n: u64) -> (r: String)
    ensures
        r@ == decimal(n as nat),
{
    text::text_of(write_decimal(n).as_slice())
}

/// Numbers are read with a sign in front of them, as far as they fit, and nothing else is a number.
pub proof fn law_numbers_are_read_with_their_sign(n: nat)
    ensures
        n <= u32::MAX ==> unsigned(seq!['+'] + decimal(n)) == Some(n as u32),
        n > u32::MAX ==> unsigned(decimal(n)) is None,
        unsigned(seq!['-'] + decimal(n)) is None,
        n <= i32::MAX ==> signed(decimal(n)) == Some(n as i32),
        n <= i32::MAX ==> signed(seq!['+'] + decimal(n)) == Some(n as i32),
        n <= i32::MAX + 1 ==> signed(seq!['-'] + decimal(n)) == Some((-(n as int)) as i32),
        n > i32::MAX ==> signed(decimal(n)) is None,
        n > i32::MAX + 1 ==> signed(seq!['-'] + decimal(n)) is None,
{
    let s = decimal(n);
    lemma_decimal(n);
    assert(is_digit(s[0]));
    assert((seq!['+'] + s).skip(1) =~= s);
    assert((seq!['-'] + s).skip(1) =~= s);
    assert((seq!['-'] + s)[0] == '-');
    assert(!is_digit('-'));
    assert(!is_number(seq!['-'] + s)) by {
        assert(!is_digit((seq!['-'] + s)[0]));
    }
}

/// A text with anything but digits behind its sign is no number, and neither is nothing.
pub proof fn law_only_digits_make_a_number(s: Seq<char>, i: int)
    requires
        1 <= i < s.len(),
        !('0' <= s[i] <= '9'),
    ensures
        unsigned(s) is None,
        signed(s) is None,
        unsigned(seq![]) is None,
        signed(seq![]) is None,
{
    assert(!is_digit(s[i]));
    assert(s.skip(1)[i - 1] == s[i]);
}

/// Each digit more makes ten times as much and the digit.
pub proof fn law_each_digit_counts_ten_times(s: Seq<char>, n: nat, d: nat)
    requires
        d < 10,
    ensures
        value(s.push((48 + d) as u32 as char)) == 10 * value(s) + d,
        value(seq![]) == 0,
        n > 0 ==> decimal(10 * n + d) == decimal(n).push((48 + d) as u32 as char),
        decimal(d) == seq![(48 + d) as u32 as char],
{
    let c = (48 + d) as u32 as char;
    assert(s.push(c).drop_last() =~= s);
    assert((10 * n + d) / 10 == n);
    assert((10 * n + d) % 10 == d);
}

} // verus!
