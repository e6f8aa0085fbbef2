//! Text as sequences of characters: trimming, splitting, joining and comparing.
//!
//! Executable functions work on slices of `char`; [`chars_of`] and [`text_of`] go to and from
//! strings.

use vstd::prelude::*;

verus! {

/// `String::push` appends one character to the end of the string.
pub assume_specification[ String::push ](s: &mut String, c: char)
    ensures
        final(s)@ == old(s)@.push(c),
;

/// The characters with the Unicode `White_Space` property.
pub open spec fn is_space(c: char) -> bool {
    ||| '\u{9}' <= c <= '\u{d}'
    ||| c == ' '
    ||| c == '\u{85}'
    ||| c == '\u{a0}'
    ||| c == '\u{1680}'
    ||| '\u{2000}' <= c <= '\u{200a}'
    ||| c == '\u{2028}'
    ||| c == '\u{2029}'
    ||| c == '\u{202f}'
    ||| c == '\u{205f}'
    ||| c == '\u{3000}'
}

/// The ASCII lower-case form of a character; anything but `A` to `Z` is kept.
pub open spec fn lower(c: char) -> char {
    if 'A' <= c <= 'Z' {
        ((c as u32) + 32) as char
    } else {
        c
    }
}

/// Every character in its ASCII lower-case form.
pub open spec fn lowered(s: Seq<char>) -> Seq<char> {
    Seq::new(s.len(), |i: int| lower(s[i]))
}

/// Whether two texts differ at most in the case of ASCII letters.
pub open spec fn same_letters(a: Seq<char>, b: Seq<char>) -> bool {
    lowered(a) == lowered(b)
}

/// A text with backslashes for slashes.
pub open spec fn backslashed(s: Seq<char>) -> Seq<char> {
    Seq::new(
        s.len(),
        |i: int|
            if s[i] == '/' {
                '\\'
            } else {
                s[i]
            },
    )
}

/// The text without its leading white space.
pub open spec fn trimmed_start(s: Seq<char>) -> Seq<char>
    decreases s.len(),
{
    if s.len() > 0 && is_space(s[0]) {
        trimmed_start(s.skip(1))
    } else {
        s
    }
}

/// The text without its trailing white space.
pub open spec fn trimmed_end(s: Seq<char>) -> Seq<char>
    decreases s.len(),
{
    if s.len() > 0 && is_space(s.last()) {
        trimmed_end(s.drop_last())
    } else {
        s
    }
}

/// The text without white space at either end.
pub open spec fn trimmed(s: Seq<char>) -> Seq<char> {
    trimmed_end(trimmed_start(s))
}

/// The text without the leading characters that `set` holds.
pub open spec fn cut_start(s: Seq<char>, set: Seq<char>) -> Seq<char>
    decreases s.len(),
{
    if s.len() > 0 && set.contains(s[0]) {
        cut_start(s.skip(1), set)
    } else {
        s
    }
}

/// The text without the trailing characters that `set` holds.
pub open spec fn cut_end(s: Seq<char>, set: Seq<char>) -> Seq<char>
    decreases s.len(),
{
    if s.len() > 0 && set.contains(s.last()) {
        cut_end(s.drop_last(), set)
    } else {
        s
    }
}

/// Where `c` first occurs, or the length of the text when it does not.
pub open spec fn first_of(s: Seq<char>, c: char) -> int
    decreases s.len(),
{
    if s.len() == 0 || s[0] == c {
        0
    } else {
        1 + first_of(s.skip(1), c)
    }
}

/// The parts between the occurrences of `c`, of which there is always at least one.
pub open spec fn pieces(s: Seq<char>, c: char) -> Seq<Seq<char>>
    decreases s.len(),
{
    let i = first_of(s, c);
    if 0 <= i < s.len() {
        seq![s.take(i)] + pieces(s.skip(i + 1), c)
    } else {
        seq![s]
    }
}

/// A line that ended in a line feed, without the carriage return before it.
pub open spec fn without_return(s: Seq<char>) -> Seq<char> {
    if s.len() > 0 && s.last() == '\r' {
        s.drop_last()
    } else {
        s
    }
}

/// The lines of a text: each ends at a line feed, which may follow a carriage return, and the
/// last may do without one.
pub open spec fn lines_of(s: Seq<char>) -> Seq<Seq<char>>
    decreases s.len(),
{
    let i = first_of(s, '\n');
    if s.len() == 0 {
        seq![]
    } else if 0 <= i < s.len() {
        seq![without_return(s.take(i))] + lines_of(s.skip(i + 1))
    } else {
        seq![s]
    }
}

/// The texts one after the other, with `sep` between each two.
pub open spec fn joined(list: Seq<Seq<char>>, sep: Seq<char>) -> Seq<char>
    decreases list.len(),
{
    if list.len() == 0 {
        seq![]
    } else if list.len() == 1 {
        list[0]
    } else {
        joined(list.drop_last(), sep) + sep + list.last()
    }
}

/// What each of some character vectors holds.
pub open spec fn views(list: Seq<Vec<char>>) -> Seq<Seq<char>> {
    Seq::new(list.len(), |i: int| list[i]@)
}

/// What each of some strings holds.
pub open spec fn strings(list: Seq<String>) -> Seq<Seq<char>> {
    Seq::new(list.len(), |i: int| list[i]@)
}

/// The position of the first occurrence is one, and nothing before it is.
pub proof fn lemma_first_of(s: Seq<char>, c: char)
    ensures
        0 <= first_of(s, c) <= s.len(),
        first_of(s, c) < s.len() ==> s[first_of(s, c)] == c,
        forall|j: int| 0 <= j < first_of(s, c) ==> s[j] != c,
        first_of(s, c) < s.len() <==> s.contains(c),
    decreases s.len(),
{
    if s.len() > 0 && s[0] != c {
        let t = s.skip(1);
        lemma_first_of(t, c);
        assert forall|j: int| 0 <= j < first_of(s, c) implies s[j] != c by {
            if j > 0 {
                assert(t[j - 1] == s[j]);
            }
        }
        if s.contains(c) {
            let k = choose|k: int| 0 <= k < s.len() && s[k] == c;
            assert(t[k - 1] == c);
        }
    }
}

/// A position with these properties is the first occurrence.
pub proof fn lemma_first_of_is(s: Seq<char>, c: char, i: int)
    requires
        0 <= i <= s.len(),
        i < s.len() ==> s[i] == c,
        forall|j: int| 0 <= j < i ==> s[j] != c,
    ensures
        first_of(s, c) == i,
{
    lemma_first_of(s, c);
    if first_of(s, c) < i {
        assert(s[first_of(s, c)] == c);
    }
}

/// What a filter lets through was in the sequence and passes.
pub proof fn lemma_filtered<A>(s: Seq<A>, keep: spec_fn(A) -> bool)
    ensures
        forall|i: int|
            0 <= i < s.filter(keep).len() ==> s.contains(#[trigger] s.filter(keep)[i]) && keep(
                s.filter(keep)[i],
            ),
    decreases s.len(),
{
    reveal(Seq::filter);
    if s.len() > 0 {
        let head = s.drop_last();
        lemma_filtered(head, keep);
        assert forall|i: int| 0 <= i < s.filter(keep).len() implies s.contains(
            #[trigger] s.filter(keep)[i],
        ) && keep(s.filter(keep)[i]) by {
            if i < head.filter(keep).len() {
                let e = head.filter(keep)[i];
                assert(e == s.filter(keep)[i]);
                let k = choose|k: int| 0 <= k < head.len() && head[k] == e;
                assert(s[k] == e);
            } else {
                assert(s[s.len() - 1] == s.last());
            }
        }
    }
}

/// The characters of a string.
pub fn chars_of(s: &str) -> (r: Vec<char>)
    ensures
        r@ == s@,
{
    let mut out: Vec<char> = Vec::new();
    for c in it: s.chars()
        invariant
            out@ == it.seq().take(it.index()),
            it.seq() == s@,
    {
        out.push(c);
    }
    out
}

/// The string made of some characters.
pub fn text_of(s: &[char]) -> (r: String)
    ensures
        r@ == s@,
{
    let mut out: String = String::new();
    let mut i: usize = 0;
    while i < s.len()
        invariant
            i <= s@.len(),
            out@ == s@.take(i as int),
        decreases s@.len() - i,
    {
        out.push(s[i]);
        i += 1;
        assert(s@.take(i as int) =~= s@.take(i - 1).push(s@[i - 1]));
    }
    assert(s@.take(i as int) =~= s@);
    out
}

/// Whether two texts are the same.
pub fn same(a: &[char], b: &[char]) -> (r: bool)
    ensures
        r == (a@ == b@),
{
    if a.len() != b.len() {
        return false;
    }
    let mut i: usize = 0;
    while i < a.len()
        invariant
            i <= a@.len(),
            a@.len() == b@.len(),
            forall|j: int| 0 <= j < i ==> a@[j] == b@[j],
        decreases a@.len() - i,
    {
        if a[i] != b[i] {
            return false;
        }
        i += 1;
    }
    assert(a@ =~= b@);
    true
}

/// Whether two strings are the same.
pub fn same_text(a: &str, b: &str) -> (r: bool)
    ensures
        r == (a@ == b@),
{
    let x: Vec<char> = chars_of(a);
    let y: Vec<char> = chars_of(b);
    same(x.as_slice(), y.as_slice())
}

/// Whether `set` holds `c`.
pub fn holds(set: &[char], c: char) -> (r: bool)
    ensures
        r == set@.contains(c),
{
    let mut i: usize = 0;
    while i < set.len()
        invariant
            i <= set@.len(),
            forall|j: int| 0 <= j < i ==> set@[j] != c,
        decreases set@.len() - i,
    {
        if set[i] == c {
            assert(set@[i as int] == c);
            return true;
        }
        i += 1;
    }
    false
}

/// Whether a character has the Unicode `White_Space` property.
pub fn space(c: char) -> (r: bool)
    ensures
        r == is_space(c),
{
    ('\u{9}' <= c && c <= '\u{d}') || c == ' ' || c == '\u{85}' || c == '\u{a0}' || c == '\u{1680}'
        || ('\u{2000}' <= c && c <= '\u{200a}') || c == '\u{2028}' || c == '\u{2029}'
        || c == '\u{202f}' || c == '\u{205f}' || c == '\u{3000}'
}

/// The ASCII lower-case form of a character.
pub fn to_lower(c: char) -> (r: char)
    ensures
        r == lower(c),
{
    if 'A' <= c && c <= 'Z' {
        ((c as u8) + 32) as char
    } else {
        c
    }
}

/// A text in ASCII lower case.
pub fn to_lowered(s: &[char]) -> (r: Vec<char>)
    ensures
        r@ == lowered(s@),
{
    let mut out: Vec<char> = Vec::new();
    let mut i: usize = 0;
    while i < s.len()
        invariant
            i <= s@.len(),
            out@.len() == i,
            forall|j: int| 0 <= j < i ==> out@[j] == lower(s@[j]),
        decreases s@.len() - i,
    {
        out.push(to_lower(s[i]));
        i += 1;
    }
    assert(out@ =~= lowered(s@));
    out
}

/// A text with backslashes for slashes.
pub fn to_backslashes(s: &[char]) -> (r: Vec<char>)
    ensures
        r@ == backslashed(s@),
{
    let mut out: Vec<char> = Vec::new();
    let mut i: usize = 0;
    while i < s.len()
        invariant
            i <= s@.len(),
            out@ == backslashed(s@.take(i as int)),
        decreases s@.len() - i,
    {
        out.push(
            if s[i] == '/' {
                '\\'
            } else {
                s[i]
            },
        );
        i += 1;
        assert(out@ =~= backslashed(s@.take(i as int)));
    }
    assert(s@.take(i as int) =~= s@);
    out
}

/// Whether two texts differ at most in the case of ASCII letters.
pub fn eq_letters(a: &[char], b: &[char]) -> (r: bool)
    ensures
        r == same_letters(a@, b@),
{
    let x: Vec<char> = to_lowered(a);
    let y: Vec<char> = to_lowered(b);
    same(x.as_slice(), y.as_slice())
}

/// A text without its leading white space.
pub fn trim_start(s: &[char]) -> (r: &[char])
    ensures
        r@ == trimmed_start(s@),
        r@.len() <= s@.len(),
        r@ == s@.skip(s@.len() - r@.len()),
{
    let mut i: usize = 0;
    assert(s@.skip(0) =~= s@);
    while i < s.len() && space(s[i])
        invariant
            i <= s@.len(),
            trimmed_start(s@.skip(i as int)) == trimmed_start(s@),
        decreases s@.len() - i,
    {
        assert(s@.skip(i as int).skip(1) =~= s@.skip(i + 1));
        i += 1;
    }
    let r: &[char] = vstd::slice::slice_subrange(s, i, s.len());
    assert(r@ =~= s@.skip(i as int));
    r
}

/// A text without its trailing white space.
pub fn trim_end(s: &[char]) -> (r: &[char])
    ensures
        r@ == trimmed_end(s@),
        r@.len() <= s@.len(),
        r@ == s@.take(r@.len() as int),
{
    let mut i: usize = s.len();
    assert(s@.take(i as int) =~= s@);
    while i > 0 && space(s[i - 1])
        invariant
            i <= s@.len(),
            trimmed_end(s@.take(i as int)) == trimmed_end(s@),
        decreases i,
    {
        assert(s@.take(i as int).drop_last() =~= s@.take(i - 1));
        i -= 1;
    }
    let r: &[char] = vstd::slice::slice_subrange(s, 0, i);
    assert(r@ =~= s@.take(i as int));
    r
}

/// A text without white space at either end.
pub fn trim(s: &[char]) -> (r: &[char])
    ensures
        r@ == trimmed(s@),
        r@.len() <= s@.len(),
{
    trim_end(trim_start(s))
}

/// A text without the leading characters that `set` holds.
pub fn strip_start<'a>(s: &'a [char], set: &[char]) -> (r: &'a [char])
    ensures
        r@ == cut_start(s@, set@),
        r@.len() <= s@.len(),
{
    let mut i: usize = 0;
    assert(s@.skip(0) =~= s@);
    while i < s.len() && holds(set, s[i])
        invariant
            i <= s@.len(),
            cut_start(s@.skip(i as int), set@) == cut_start(s@, set@),
        decreases s@.len() - i,
    {
        assert(s@.skip(i as int).skip(1) =~= s@.skip(i + 1));
        i += 1;
    }
    let r: &[char] = vstd::slice::slice_subrange(s, i, s.len());
    assert(r@ =~= s@.skip(i as int));
    r
}

/// A text without the trailing characters that `set` holds.
pub fn strip_end<'a>(s: &'a [char], set: &[char]) -> (r: &'a [char])
    ensures
        r@ == cut_end(s@, set@),
        r@.len() <= s@.len(),
{
    let mut i: usize = s.len();
    assert(s@.take(i as int) =~= s@);
    while i > 0 && holds(set, s[i - 1])
        invariant
            i <= s@.len(),
            cut_end(s@.take(i as int), set@) == cut_end(s@, set@),
        decreases i,
    {
        assert(s@.take(i as int).drop_last() =~= s@.take(i - 1));
        i -= 1;
    }
    let r: &[char] = vstd::slice::slice_subrange(s, 0, i);
    assert(r@ =~= s@.take(i as int));
    r
}

/// Where `c` first occurs, or the length of the text when it does not.
pub fn find(s: &[char], c: char) -> (r: usize)
    ensures
        r == first_of(s@, c),
        r <= s@.len(),
{
    let mut i: usize = 0;
    while i < s.len() && s[i] != c
        invariant
            i <= s@.len(),
            forall|j: int| 0 <= j < i ==> s@[j] != c,
        decreases s@.len() - i,
    {
        i += 1;
    }
    proof {
        lemma_first_of_is(s@, c, i as int);
    }
    i
}

/// The parts of a text between the occurrences of `c`.
pub fn split(s: &[char], c: char) -> (r: Vec<Vec<char>>)
    ensures
        views(r@) == pieces(s@, c),
{
    let mut out: Vec<Vec<char>> = Vec::new();
    let mut rest: &[char] = s;
    loop
        invariant
            views(out@) + pieces(rest@, c) == pieces(s@, c),
        decreases rest@.len(),
    {
        let i: usize = find(rest, c);
        let ghost before = views(out@);
        if i < rest.len() {
            let head: &[char] = vstd::slice::slice_subrange(rest, 0, i);
            out.push(vstd::slice::slice_to_vec(head));
            assert(head@ =~= rest@.take(i as int));
            assert(views(out@) =~= before.push(rest@.take(i as int)));
            let ghost prev = rest@;
            rest = vstd::slice::slice_subrange(rest, i + 1, rest.len());
            assert(rest@ =~= prev.skip(i + 1));
            assert(views(out@) + pieces(rest@, c) =~= before + pieces(prev, c));
        } else {
            out.push(vstd::slice::slice_to_vec(rest));
            assert(views(out@) =~= before.push(rest@));
            assert(views(out@) =~= before + pieces(rest@, c));
            return out;
        }
    }
}

/// The lines of a text.
pub fn lines(s: &[char]) -> (r: Vec<Vec<char>>)
    ensures
        views(r@) == lines_of(s@),
{
    let mut out: Vec<Vec<char>> = Vec::new();
    let mut rest: &[char] = s;
    assert(views(out@) + lines_of(rest@) =~= lines_of(s@));
    while rest.len() > 0
        invariant
            views(out@) + lines_of(rest@) == lines_of(s@),
        decreases rest@.len(),
    {
        let i: usize = find(rest, '\n');
        let ghost before = views(out@);
        let ghost prev = rest@;
        if i < rest.len() {
            let mut end: usize = i;
            if i > 0 && rest[i - 1] == '\r' {
                end = i - 1;
            }
            let head: &[char] = vstd::slice::slice_subrange(rest, 0, end);
            out.push(vstd::slice::slice_to_vec(head));
            assert(head@ =~= without_return(prev.take(i as int)));
            assert(views(out@) =~= before.push(without_return(prev.take(i as int))));
            rest = vstd::slice::slice_subrange(rest, i + 1, rest.len());
            assert(rest@ =~= prev.skip(i + 1));
        } else {
            out.push(vstd::slice::slice_to_vec(rest));
            assert(views(out@) =~= before.push(prev));
            rest = vstd::slice::slice_subrange(rest, i, rest.len());
            assert(rest@ =~= Seq::<char>::empty());
        }
        assert(views(out@) + lines_of(rest@) =~= before + lines_of(prev));
    }
    assert(views(out@) + lines_of(rest@) =~= views(out@));
    out
}

/// Whether a text begins with another.
pub fn starts_with(s: &[char], prefix: &[char]) -> (r: bool)
    ensures
        r == prefix@.is_prefix_of(s@),
{
    if prefix.len() > s.len() {
        return false;
    }
    let head: &[char] = vstd::slice::slice_subrange(s, 0, prefix.len());
    let r: bool = same(head, prefix);
    proof {
        if r {
            assert forall|i: int| 0 <= i < prefix@.len() implies prefix@[i] == s@[i] by {
                assert(head@[i] == s@[i]);
            }
        }
        assert(head@ =~= s@.subrange(0, prefix@.len() as int));
    }
    r
}

/// Puts `more` behind `out`.
pub fn extend(out: &mut Vec<char>, more: &[char])
    ensures
        final(out)@ == old(out)@ + more@,
{
    let mut i: usize = 0;
    assert(out@ =~= old(out)@ + more@.take(0));
    while i < more.len()
        invariant
            i <= more@.len(),
            out@ == old(out)@ + more@.take(i as int),
        decreases more@.len() - i,
    {
        out.push(more[i]);
        assert(more@.take(i + 1) =~= more@.take(i as int).push(more@[i as int]));
        i += 1;
        assert(out@ =~= old(out)@ + more@.take(i as int));
    }
    assert(more@.take(i as int) =~= more@);
}

/// The texts one after the other, with `sep` between each two.
pub fn join(list: &Vec<Vec<char>>, sep: &[char]) -> (r: Vec<char>)
    ensures
        r@ == joined(views(list@), sep@),
{
    let mut out: Vec<char> = Vec::new();
    let mut i: usize = 0;
    let ghost all = views(list@);
    while i < list.len()
        invariant
            i <= list@.len(),
            all == views(list@),
            out@ == joined(all.take(i as int), sep@),
        decreases list@.len() - i,
    {
        proof {
            assert(all.take(i + 1).drop_last() =~= all.take(i as int));
            assert(all[i as int] == list@[i as int]@);
        }
        if i > 0 {
            extend(&mut out, sep);
        }
        extend(&mut out, list[i].as_slice());
        proof {
            assert(all.take(i + 1).last() == all[i as int]);
            if i == 0 {
                assert(out@ =~= all[0]);
            }
        }
        i += 1;
    }
    assert(all.take(i as int) =~= all);
    out
}

} // verus!
