//! How busy the graphics processors are: where the numbers stand in what the tools of the vendors
//! print, and which is the largest.

use vstd::prelude::*;

use crate::numbers;
use crate::offsets;
use crate::text;
use crate::text_laws;

verus! {

/// The texts in which the numbers of `nvidia-smi` stand, one for each graphics processor: the lines,
/// without white space at their ends.
pub open spec fn readings(output: Seq<char>) -> Seq<Seq<char>> {
    let lines = text::lines_of(output);
    Seq::new(lines.len(), |i: int| text::trimmed(lines[i]))
}

/// The texts in which the numbers of `nvidia-smi` stand, out of what was printed.
pub fn readings_of(output: &str) -> (r: Vec<String>)
    ensures
        text::strings(r@) == readings(output@),
{
    let whole: Vec<char> = text::chars_of(output);
    let lines: Vec<Vec<char>> = text::lines(whole.as_slice());
    let ghost all = readings(output@);
    assert(text::lines_of(output@).len() == lines@.len());
    let mut out: Vec<String> = Vec::new();
    let mut i: usize = 0;
    assert(text::strings(out@) =~= all.take(0));
    while i < lines.len()
        invariant
            i <= lines@.len(),
            all == readings(output@),
            all.len() == lines@.len(),
            text::lines_of(output@) == text::views(lines@),
            text::strings(out@) == all.take(i as int),
        decreases lines@.len() - i,
    {
        let ghost before = text::strings(out@);
        assert(text::views(lines@)[i as int] == lines@[i as int]@);
        out.push(text::text_of(text::trim(lines[i].as_slice())));
        assert(text::strings(out@) =~= before.push(all[i as int]));
        i += 1;
        assert(text::strings(out@) =~= all.take(i as int));
    }
    assert(all.take(i as int) =~= all);
    out
}

/// The texts in which the numbers of `nvidia-smi` stand, given whether it succeeded and what it
/// printed; none where it did not.
pub fn nvidia_smi(success: bool, stdout: &[u8]) -> (r: Vec<String>)
    ensures
        text::strings(r@) == (if success {
            readings(offsets::lossy(stdout@))
        } else {
            seq![]
        }),
{
    if !success {
        let none: Vec<String> = Vec::new();
        assert(text::strings(none@) =~= seq![]);
        return none;
    }
    let output: String = offsets::from_utf8_lossy(stdout);
    readings_of(output.as_str())
}

/// Whether texts are whole numbers, all of them.
pub open spec fn all_whole(list: Seq<Seq<char>>) -> bool {
    forall|i: int| 0 <= i < list.len() ==> numbers::unsigned(#[trigger] list[i]) is Some
}

/// Whether a number is the largest that some texts write.
pub open spec fn is_largest(list: Seq<Seq<char>>, n: u32) -> bool {
    &&& exists|i: int| 0 <= i < list.len() && numbers::unsigned(#[trigger] list[i]) == Some(n)
    &&& forall|i: int|
        0 <= i < list.len() ==> (numbers::unsigned(#[trigger] list[i]) matches Some(m) && m <= n)
}

/// How busy the busiest graphics processor is, where there is one and all numbers are whole. What
/// else they may be is not known here.
pub fn busiest(list: &Vec<String>) -> (r: Option<u32>)
    ensures
        r is Some <==> list@.len() > 0 && all_whole(text::strings(list@)),
        r matches Some(n) ==> is_largest(text::strings(list@), n),
{
    let ghost all = text::strings(list@);
    let mut most: Option<u32> = None;
    let mut i: usize = 0;
    while i < list.len()
        invariant
            i <= list@.len(),
            all == text::strings(list@),
            most is Some <==> i > 0,
            all_whole(all.take(i as int)),
            most matches Some(n) ==> is_largest(all.take(i as int), n),
        decreases list@.len() - i,
    {
        let chars: Vec<char> = text::chars_of(list[i].as_str());
        let ghost done = all.take(i as int);
        let ghost next = all.take(i + 1);
        assert(next[i as int] == chars@);
        assert forall|k: int| 0 <= k < i implies #[trigger] next[k] == done[k] by {}
        match numbers::parse_u32(chars.as_slice()) {
            None => {
                assert(numbers::unsigned(all[i as int]) is None);
                return None;
            },
            Some(n) => {
                assert(numbers::unsigned(next[i as int]) == Some(n));
                match most {
                    Some(m) if m >= n => {
                        proof {
                            let k = choose|k: int|
                                0 <= k < done.len() && numbers::unsigned(#[trigger] done[k]) == Some(
                                    m,
                                );
                            assert(numbers::unsigned(next[k]) == Some(m));
                        }
                    },
                    _ => {
                        most = Some(n);
                    },
                }
            },
        }
        i += 1;
    }
    assert(all.take(i as int) =~= all);
    most
}

/// Where a text first occurs in another, or how long the other is.
pub open spec fn occurs_at(s: Seq<char>, key: Seq<char>) -> int
    decreases s.len(),
{
    if s.len() == 0 || key.is_prefix_of(s) {
        0
    } else {
        1 + occurs_at(s.skip(1), key)
    }
}

/// The digits and dots at the front of a text.
pub open spec fn number_at(s: Seq<char>) -> Seq<char>
    decreases s.len(),
{
    if s.len() > 0 && (numbers::is_digit(s[0]) || s[0] == '.') {
        seq![s[0]] + number_at(s.skip(1))
    } else {
        seq![]
    }
}

/// The digits and dots that stand behind the first equals sign behind the first occurrence of a
/// key.
pub open spec fn number_behind(s: Seq<char>, key: Seq<char>) -> Option<Seq<char>> {
    let at = occurs_at(s, key);
    if !(0 <= at <= s.len() && key.is_prefix_of(s.skip(at))) {
        None
    } else {
        let rest = s.skip(at + key.len());
        let sign = text::first_of(rest, '=');
        if 0 <= sign < rest.len() {
            Some(number_at(text::trimmed_start(rest.skip(sign + 1))))
        } else {
            None
        }
    }
}

/// The text from a position on.
fn from(s: &[char], i: usize) -> (r: &[char])
    requires
        i <= s@.len(),
    ensures
        r@ == s@.skip(i as int),
{
    let r: &[char] = vstd::slice::slice_subrange(s, i, s.len());
    assert(r@ =~= s@.skip(i as int));
    r
}

/// Where a text first occurs in another, or how long the other is.
fn find_text(s: &[char], key: &[char]) -> (r: usize)
    ensures
        r <= s@.len(),
        r == occurs_at(s@, key@),
{
    let mut at: usize = 0;
    assert(s@.skip(0) =~= s@);
    while at < s.len() && !text::starts_with(from(s, at), key)
        invariant
            at <= s@.len(),
            occurs_at(s@, key@) == at + occurs_at(s@.skip(at as int), key@),
        decreases s@.len() - at,
    {
        assert(s@.skip(at as int).skip(1) =~= s@.skip(at + 1));
        at += 1;
    }
    at
}

/// The digits and dots that stand behind the first equals sign behind the first occurrence of a
/// key.
fn number_in(whole: &[char], wanted: &[char]) -> (r: Option<String>)
    ensures
        r is Some <==> number_behind(whole@, wanted@) is Some,
        r matches Some(n) ==> number_behind(whole@, wanted@) == Some(n@),
{
    let at: usize = find_text(whole, wanted);
    let tail: &[char] = from(whole, at);
    if !text::starts_with(tail, wanted) {
        return None;
    }
    let behind: &[char] = from(tail, wanted.len());
    assert(behind@ =~= whole@.skip(at + wanted@.len()));
    let sign: usize = text::find(behind, '=');
    if sign >= behind.len() {
        return None;
    }
    let shown: &[char] = text::trim_start(from(behind, sign + 1));
    let mut n: usize = 0;
    assert(shown@.take(0) + number_at(shown@.skip(0)) =~= number_at(shown@)) by {
        assert(shown@.skip(0) =~= shown@);
    }
    while n < shown.len() && (('0' <= shown[n] && shown[n] <= '9') || shown[n] == '.')
        invariant
            n <= shown@.len(),
            shown@.take(n as int) + number_at(shown@.skip(n as int)) == number_at(shown@),
        decreases shown@.len() - n,
    {
        proof {
            let rest = shown@.skip(n as int);
            assert(rest[0] == shown@[n as int]);
            assert(rest.skip(1) =~= shown@.skip(n + 1));
            assert(shown@.take(n + 1) + number_at(shown@.skip(n + 1)) =~= shown@.take(n as int) + (
            seq![rest[0]] + number_at(rest.skip(1))));
        }
        n += 1;
    }
    let digits: &[char] = vstd::slice::slice_subrange(shown, 0, n);
    proof {
        let rest = shown@.skip(n as int);
        if n < shown@.len() {
            assert(rest[0] == shown@[n as int]);
        }
        assert(number_at(rest) =~= Seq::<char>::empty());
        assert(digits@ =~= number_at(shown@));
    }
    Some(text::text_of(digits))
}

/// The number that stands behind the first equals sign behind the first occurrence of a key; none
/// where the digits and dots there write none.
pub fn number_after(s: &str, key: &str) -> (r: Option<String>)
    ensures
        r is Some <==> (number_behind(s@, key@) matches Some(n) && writes_number(n)),
        r matches Some(n) ==> number_behind(s@, key@) == Some(n@),
{
    let whole: Vec<char> = text::chars_of(s);
    let wanted: Vec<char> = text::chars_of(key);
    match number_in(whole.as_slice(), wanted.as_slice()) {
        Some(n) => if is_number(n.as_str()) {
            Some(n)
        } else {
            None
        },
        None => None,
    }
}

/// Whether digits and dots write a number: there is a digit, and one dot at most.
pub open spec fn writes_number(s: Seq<char>) -> bool {
    &&& exists|i: int| 0 <= i < s.len() && numbers::is_digit(#[trigger] s[i])
    &&& forall|i: int, j: int|
        0 <= i < j < s.len() ==> !(#[trigger] s[i] == '.' && #[trigger] s[j] == '.')
}

/// Whether digits and dots write a number.
fn is_number(s: &str) -> (r: bool)
    ensures
        r == writes_number(s@),
{
    let chars: Vec<char> = text::chars_of(s);
    let mut digits: bool = false;
    let mut dot: Option<usize> = None;
    let mut i: usize = 0;
    while i < chars.len()
        invariant
            i <= chars@.len(),
            chars@ == s@,
            digits == (exists|k: int| 0 <= k < i && numbers::is_digit(#[trigger] s@[k])),
            dot is None ==> forall|k: int| 0 <= k < i ==> #[trigger] s@[k] != '.',
            dot matches Some(at) ==> at < i && s@[at as int] == '.' && forall|k: int|
                0 <= k < i && k != at ==> #[trigger] s@[k] != '.',
        decreases chars@.len() - i,
    {
        let c: char = chars[i];
        if c == '.' {
            if let Some(at) = dot {
                assert(s@[at as int] == '.' && s@[i as int] == '.');
                return false;
            }
            dot = Some(i);
        } else if '0' <= c && c <= '9' {
            assert(numbers::is_digit(s@[i as int]));
            digits = true;
        }
        i += 1;
    }
    digits
}

/// The numbers that stand behind the occurrences of a key, one after the other.
pub open spec fn numbers_behind(s: Seq<char>, key: Seq<char>) -> Seq<Seq<char>>
    decreases s.len(),
{
    let at = occurs_at(s, key);
    if key.len() == 0 || !(0 <= at <= s.len() && key.is_prefix_of(s.skip(at))) {
        seq![]
    } else {
        let more = numbers_behind(s.skip(at + key.len()), key);
        match number_behind(s, key) {
            Some(n) if writes_number(n) => seq![n] + more,
            _ => more,
        }
    }
}

/// The numbers that stand behind the occurrences of a key.
fn numbers_after(s: &[char], key: &[char]) -> (r: Vec<String>)
    ensures
        text::strings(r@) == numbers_behind(s@, key@),
{
    let mut out: Vec<String> = Vec::new();
    if key.len() == 0 {
        assert(text::strings(out@) =~= seq![]);
        return out;
    }
    let mut rest: &[char] = s;
    assert(text::strings(out@) + numbers_behind(rest@, key@) =~= numbers_behind(s@, key@));
    loop
        invariant
            key@.len() > 0,
            text::strings(out@) + numbers_behind(rest@, key@) == numbers_behind(s@, key@),
        decreases rest@.len(),
    {
        let at: usize = find_text(rest, key);
        let tail: &[char] = from(rest, at);
        if !text::starts_with(tail, key) {
            assert(text::strings(out@) =~= numbers_behind(s@, key@));
            return out;
        }
        let ghost before = text::strings(out@);
        let ghost more = numbers_behind(rest@.skip(at + key@.len()), key@);
        if let Some(n) = number_in(rest, key) {
            if is_number(n.as_str()) {
                let ghost shown = n@;
                out.push(n);
                assert(text::strings(out@) =~= before.push(shown));
                assert(before.push(shown) + more =~= before + (seq![shown] + more));
            }
        }
        let next: &[char] = from(tail, key.len());
        assert(next@ =~= rest@.skip(at + key@.len()));
        rest = next;
    }
}

/// The numbers of `ioreg`: those of the first key which has any. The key depends on the machine.
pub open spec fn ioreg_texts(output: Seq<char>) -> Seq<Seq<char>> {
    let device = numbers_behind(output, "\"Device Utilization %\""@);
    if device.len() > 0 {
        device
    } else {
        numbers_behind(output, "\"GPU Activity(%)\""@)
    }
}

/// The numbers of `ioreg`, out of what was printed: one for each graphics processor.
pub fn ioreg_numbers(output: &str) -> (r: Vec<String>)
    ensures
        text::strings(r@) == ioreg_texts(output@),
{
    let whole: Vec<char> = text::chars_of(output);
    let device: Vec<char> = text::chars_of("\"Device Utilization %\"");
    let list: Vec<String> = numbers_after(whole.as_slice(), device.as_slice());
    assert(text::strings(list@).len() == list@.len());
    if list.len() > 0 {
        return list;
    }
    let activity: Vec<char> = text::chars_of("\"GPU Activity(%)\"");
    numbers_after(whole.as_slice(), activity.as_slice())
}

/// The numbers of `ioreg`, given whether it succeeded and what it printed; none where it did not.
pub fn macos_ioreg(success: bool, stdout: &[u8]) -> (r: Vec<String>)
    ensures
        text::strings(r@) == (if success {
            ioreg_texts(offsets::lossy(stdout@))
        } else {
            seq![]
        }),
{
    if !success {
        let none: Vec<String> = Vec::new();
        assert(text::strings(none@) =~= seq![]);
        return none;
    }
    let output: String = offsets::from_utf8_lossy(stdout);
    ioreg_numbers(output.as_str())
}

/// Each line is a reading, without the blanks around it, whatever lines are around it.
pub proof fn law_each_line_is_a_reading(before: Seq<char>, line: Seq<char>, after: Seq<char>)
    requires
        before.len() == 0 || before.last() == '\n',
        !line.contains('\n'),
        line.len() == 0 || line.last() != '\r',
    ensures
        readings(before + line + seq!['\n'] + after) == readings(before) + seq![
            text::trimmed(line),
        ] + readings(after),
        line.len() > 0 ==> readings(before + line) == readings(before) + seq![text::trimmed(line)],
        readings(seq![]) == Seq::<Seq<char>>::empty(),
{
    let end = line.push('\n');
    text_laws::law_a_line_is_a_line(line);
    text_laws::law_lines_follow_each_other(end, after);
    text_laws::law_lines_follow_each_other(before, end + after);
    text_laws::law_lines_follow_each_other(before, line);
    assert(before + (end + after) =~= before + line + seq!['\n'] + after);
    assert(readings(before + line + seq!['\n'] + after) =~= readings(before) + seq![
        text::trimmed(line),
    ] + readings(after));
    if line.len() > 0 {
        assert(readings(before + line) =~= readings(before) + seq![text::trimmed(line)]);
    }
    assert(readings(seq![]) =~= Seq::<Seq<char>>::empty());
}

/// Where a text first occurs.
proof fn lemma_occurs_at(s: Seq<char>, key: Seq<char>, at: int)
    requires
        0 <= at <= s.len(),
        key.len() > 0,
        key.is_prefix_of(s.skip(at)),
        forall|i: int| 0 <= i < at ==> !key.is_prefix_of(#[trigger] s.skip(i)),
    ensures
        occurs_at(s, key) == at,
    decreases at,
{
    assert(s.skip(0) =~= s);
    if at > 0 {
        assert(!key.is_prefix_of(s.skip(0)));
        let t = s.skip(1);
        assert(t.skip(at - 1) =~= s.skip(at));
        assert forall|i: int| 0 <= i < at - 1 implies !key.is_prefix_of(#[trigger] t.skip(i)) by {
            assert(t.skip(i) =~= s.skip(i + 1));
        }
        lemma_occurs_at(t, key, at - 1);
    }
}

/// What a number is, up to what is none.
proof fn lemma_number_at(number: Seq<char>, rest: Seq<char>)
    requires
        forall|i: int|
            0 <= i < number.len() ==> '0' <= (#[trigger] number[i]) <= '9' || number[i] == '.',
        rest.len() > 0 ==> !('0' <= rest[0] <= '9') && rest[0] != '.',
    ensures
        number_at(number + rest) == number,
    decreases number.len(),
{
    let s = number + rest;
    if number.len() == 0 {
        assert(s =~= rest);
        assert(number_at(s) =~= number);
    } else {
        let less = number.skip(1);
        assert forall|i: int| 0 <= i < less.len() implies '0' <= (#[trigger] less[i]) <= '9'
            || less[i] == '.' by {
            assert(less[i] == number[i + 1]);
        }
        lemma_number_at(less, rest);
        assert(s.skip(1) =~= less + rest);
        assert('0' <= number[0] <= '9' || number[0] == '.');
        assert(seq![number[0]] + less =~= number);
    }
}

/// White space in front is taken.
proof fn lemma_gap(gap: Seq<char>, rest: Seq<char>)
    requires
        forall|i: int| 0 <= i < gap.len() ==> text::is_space(#[trigger] gap[i]),
        rest.len() > 0 ==> !text::is_space(rest[0]),
    ensures
        text::trimmed_start(gap + rest) == rest,
    decreases gap.len(),
{
    let s = gap + rest;
    if gap.len() == 0 {
        assert(s =~= rest);
    } else {
        let less = gap.skip(1);
        assert forall|i: int| 0 <= i < less.len() implies text::is_space(#[trigger] less[i]) by {
            assert(less[i] == gap[i + 1]);
        }
        lemma_gap(less, rest);
        assert(text::is_space(gap[0]));
        assert(s[0] == gap[0]);
        assert(s.skip(1) =~= less + rest);
    }
}

/// Each number behind a key and the next equals sign is found, the first behind the first
/// occurrence of the key and the others in what is behind that.
pub proof fn law_each_number_behind_the_key_is_found(
    front: Seq<char>,
    key: Seq<char>,
    middle: Seq<char>,
    gap: Seq<char>,
    number: Seq<char>,
    rest: Seq<char>,
)
    requires
        key.len() > 0,
        ({
            let s = front + key + middle + seq!['='] + gap + number + rest;
            forall|i: int| 0 <= i < front.len() ==> !key.is_prefix_of(#[trigger] s.skip(i))
        }),
        !middle.contains('='),
        forall|i: int| 0 <= i < gap.len() ==> text::is_space(#[trigger] gap[i]),
        number.len() > 0,
        forall|i: int|
            0 <= i < number.len() ==> '0' <= (#[trigger] number[i]) <= '9' || number[i] == '.',
        rest.len() > 0 ==> !('0' <= rest[0] <= '9') && rest[0] != '.',
    ensures
        ({
            let s = front + key + middle + seq!['='] + gap + number + rest;
            let behind = middle + seq!['='] + gap + number + rest;
            numbers_behind(s, key) == (if writes_number(number) {
                seq![number]
            } else {
                seq![]
            }) + numbers_behind(behind, key)
        }),
{
    let s = front + key + middle + seq!['='] + gap + number + rest;
    let behind = middle + seq!['='] + gap + number + rest;
    let at = front.len() as int;
    assert(s.skip(at) =~= key + behind);
    assert(key.is_prefix_of(s.skip(at))) by {
        assert((key + behind).take(key.len() as int) =~= key);
    }
    lemma_occurs_at(s, key, at);
    assert(s.skip(at + key.len()) =~= behind);
    assert forall|j: int| 0 <= j < middle.len() implies behind[j] != '=' by {
        assert(behind[j] == middle[j]);
        assert(middle.contains(middle[j]));
    }
    text::lemma_first_of_is(behind, '=', middle.len() as int);
    let tail = behind.skip(middle.len() as int + 1);
    assert(tail =~= gap + (number + rest));
    assert('0' <= number[0] <= '9' || number[0] == '.');
    assert((number + rest)[0] == number[0]);
    lemma_gap(gap, number + rest);
    lemma_number_at(number, rest);
    assert(number_behind(s, key) == Some(number));
}

/// Where the key is not, no number is found.
pub proof fn law_without_the_key_nothing_is_found(s: Seq<char>, key: Seq<char>)
    requires
        key.len() > 0,
        forall|i: int| 0 <= i < s.len() ==> !key.is_prefix_of(#[trigger] s.skip(i)),
    ensures
        numbers_behind(s, key) == Seq::<Seq<char>>::empty(),
        number_behind(s, key) is None,
{
    let at = occurs_at(s, key);
    lemma_occurs_bound(s, key);
    if 0 <= at <= s.len() && key.is_prefix_of(s.skip(at)) {
        if at < s.len() {
            assert(!key.is_prefix_of(s.skip(at)));
        } else {
            assert(s.skip(at).len() == 0);
        }
    }
}

proof fn lemma_occurs_bound(s: Seq<char>, key: Seq<char>)
    ensures
        0 <= occurs_at(s, key) <= s.len(),
    decreases s.len(),
{
    if s.len() > 0 && !key.is_prefix_of(s) {
        lemma_occurs_bound(s.skip(1), key);
    }
}

/// The use of the device counts, and where nothing says that, the activity of its driver.
pub proof fn law_the_device_is_asked_before_its_driver(output: Seq<char>)
    ensures
        ({
            let device = numbers_behind(output, "\"Device Utilization %\""@);
            let driver = numbers_behind(output, "\"GPU Activity(%)\""@);
            &&& device.len() > 0 ==> ioreg_texts(output) == device
            &&& device.len() == 0 ==> ioreg_texts(output) == driver
        }),
{
}

} // verus!
