//! What holds of every text that is split, joined or trimmed.

use vstd::prelude::*;

use crate::text;

verus! {

/// The first of some texts comes first when they are joined.
pub proof fn lemma_joined_front(list: Seq<Seq<char>>, sep: Seq<char>)
    requires
        list.len() >= 2,
    ensures
        text::joined(list, sep) == list[0] + sep + text::joined(list.skip(1), sep),
    decreases list.len(),
{
    if list.len() == 2 {
        assert(text::joined(list.drop_last(), sep) == list[0]);
        assert(text::joined(list.skip(1), sep) == list[1]);
    } else {
        lemma_joined_front(list.drop_last(), sep);
        assert(list.skip(1).drop_last() =~= list.drop_last().skip(1));
        assert(text::joined(list, sep) =~= list[0] + sep + text::joined(list.skip(1), sep));
    }
}

/// Splitting loses nothing: the pieces, joined again, are the text, and no piece holds what it was
/// split at.
pub proof fn law_the_pieces_make_up_the_text(s: Seq<char>, c: char)
    ensures
        text::joined(text::pieces(s, c), seq![c]) == s,
        text::pieces(s, c).len() >= 1,
        forall|i: int| 0 <= i < text::pieces(s, c).len() ==> !(#[trigger] text::pieces(s, c)[i]).contains(c),
    decreases s.len(),
{
    let i = text::first_of(s, c);
    text::lemma_first_of(s, c);
    let all = text::pieces(s, c);
    if i < s.len() {
        let rest = s.skip(i + 1);
        law_the_pieces_make_up_the_text(rest, c);
        assert(all.skip(1) =~= text::pieces(rest, c));
        lemma_joined_front(all, seq![c]);
        assert(s =~= s.take(i) + seq![c] + rest);
        assert forall|k: int| 0 <= k < all.len() implies !(#[trigger] all[k]).contains(c) by {
            if k > 0 {
                assert(all[k] == text::pieces(rest, c)[k - 1]);
            }
        }
    }
}

/// Joining and splitting undo each other where no text holds the separator.
pub proof fn law_joined_texts_are_split_again(list: Seq<Seq<char>>, c: char)
    requires
        list.len() >= 1,
        forall|i: int| 0 <= i < list.len() ==> !(#[trigger] list[i]).contains(c),
    ensures
        text::pieces(text::joined(list, seq![c]), c) == list,
    decreases list.len(),
{
    let s = text::joined(list, seq![c]);
    let first = list[0];
    if list.len() == 1 {
        text::lemma_first_of(s, c);
        assert(text::pieces(s, c) =~= list);
    } else {
        lemma_joined_front(list, seq![c]);
        let rest = list.skip(1);
        assert forall|i: int| 0 <= i < rest.len() implies !(#[trigger] rest[i]).contains(c) by {
            assert(rest[i] == list[i + 1]);
        }
        law_joined_texts_are_split_again(rest, c);
        assert forall|j: int| 0 <= j < first.len() implies s[j] != c by {
            assert(s[j] == first[j]);
            assert(first.contains(first[j]));
        }
        text::lemma_first_of_is(s, c, first.len() as int);
        assert(s.take(first.len() as int) =~= first);
        assert(s.skip(first.len() as int + 1) =~= text::joined(rest, seq![c]));
        assert(text::pieces(s, c) =~= list);
    }
}

/// Trimming takes white space from the ends, all of it, and nothing else. What is left is the text
/// from `r.0` to `r.1`.
pub proof fn law_trimming_takes_the_white_space_at_the_ends(s: Seq<char>) -> (r: (int, int))
    ensures
        0 <= r.0 <= r.1 <= s.len(),
        text::trimmed(s) == s.subrange(r.0, r.1),
        forall|i: int| 0 <= i < s.len() && !(r.0 <= i < r.1) ==> text::is_space(#[trigger] s[i]),
        r.0 < r.1 ==> !text::is_space(s[r.0]) && !text::is_space(s[r.1 - 1]),
{
    let a = lemma_trimmed_start(s);
    let t = s.skip(a);
    let n = lemma_trimmed_end(t);
    assert(t.take(n) =~= s.subrange(a, a + n));
    assert forall|i: int| 0 <= i < s.len() && !(a <= i < a + n) implies text::is_space(
        #[trigger] s[i],
    ) by {
        if i >= a {
            assert(t[i - a] == s[i]);
        }
    }
    if n > 0 {
        assert(t[0] == s[a]);
        assert(t[n - 1] == s[a + n - 1]);
    }
    (a, a + n)
}

/// How much is taken from the front.
pub proof fn lemma_trimmed_start(s: Seq<char>) -> (a: int)
    ensures
        0 <= a <= s.len(),
        text::trimmed_start(s) == s.skip(a),
        forall|i: int| 0 <= i < a ==> text::is_space(#[trigger] s[i]),
        a < s.len() ==> !text::is_space(s[a]),
    decreases s.len(),
{
    if s.len() > 0 && text::is_space(s[0]) {
        let a = lemma_trimmed_start(s.skip(1));
        assert(s.skip(1).skip(a) =~= s.skip(a + 1));
        assert forall|i: int| 0 <= i < a + 1 implies text::is_space(#[trigger] s[i]) by {
            if i > 0 {
                assert(s.skip(1)[i - 1] == s[i]);
            }
        }
        a + 1
    } else {
        assert(s.skip(0) =~= s);
        0
    }
}

/// How much is left at the front.
pub proof fn lemma_trimmed_end(s: Seq<char>) -> (n: int)
    ensures
        0 <= n <= s.len(),
        text::trimmed_end(s) == s.take(n),
        forall|i: int| n <= i < s.len() ==> text::is_space(#[trigger] s[i]),
        n > 0 ==> !text::is_space(s[n - 1]),
        s.len() > 0 && !text::is_space(s[0]) ==> n > 0,
    decreases s.len(),
{
    if s.len() > 0 && text::is_space(s.last()) {
        let n = lemma_trimmed_end(s.drop_last());
        assert(s.drop_last().take(n) =~= s.take(n));
        assert forall|i: int| n <= i < s.len() implies text::is_space(#[trigger] s[i]) by {
            if i < s.len() - 1 {
                assert(s.drop_last()[i] == s[i]);
            }
        }
        n
    } else {
        assert(s.take(s.len() as int) =~= s);
        s.len() as int
    }
}

/// The lines of a text that ends in a line feed, and of what comes behind it, are the lines of
/// both.
pub proof fn law_lines_follow_each_other(a: Seq<char>, b: Seq<char>)
    requires
        a.len() == 0 || a.last() == '\n',
    ensures
        text::lines_of(a + b) == text::lines_of(a) + text::lines_of(b),
    decreases a.len(),
{
    if a.len() == 0 {
        assert(a + b =~= b);
        assert(text::lines_of(a) + text::lines_of(b) =~= text::lines_of(b));
    } else {
        let i = text::first_of(a, '\n');
        text::lemma_first_of(a, '\n');
        assert(a.contains(a.last()));
        assert(i < a.len());
        let s = a + b;
        text::lemma_first_of_is(s, '\n', i);
        assert(s.take(i) =~= a.take(i));
        let rest = a.skip(i + 1);
        assert(s.skip(i + 1) =~= rest + b);
        if rest.len() > 0 {
            assert(rest.last() == a.last());
        }
        law_lines_follow_each_other(rest, b);
        assert(text::lines_of(s) =~= text::lines_of(a) + text::lines_of(b));
    }
}

/// One line, with the line feed that ends it, perhaps behind a carriage return, is that line; and
/// the last may do without.
pub proof fn law_a_line_is_a_line(line: Seq<char>)
    requires
        !line.contains('\n'),
    ensures
        text::lines_of(line.push('\r').push('\n')) == seq![line],
        line.len() == 0 || line.last() != '\r' ==> text::lines_of(line.push('\n')) == seq![line],
        line.len() > 0 ==> text::lines_of(line) == seq![line],
        text::lines_of(line.push('\n')) == seq![text::without_return(line)],
{
    lemma_one_line(line);
    let long = line.push('\r');
    assert(!long.contains('\n')) by {
        if long.contains('\n') {
            let k = choose|k: int| 0 <= k < long.len() && long[k] == '\n';
            assert(line[k] == '\n');
        }
    }
    lemma_one_line(long);
    assert(long.drop_last() =~= line);
    text::lemma_first_of(line, '\n');
}

proof fn lemma_one_line(line: Seq<char>)
    requires
        !line.contains('\n'),
    ensures
        text::lines_of(line.push('\n')) == seq![text::without_return(line)],
{
    let s = line.push('\n');
    assert forall|j: int| 0 <= j < line.len() implies s[j] != '\n' by {
        assert(s[j] == line[j]);
        assert(line.contains(line[j]));
    }
    text::lemma_first_of_is(s, '\n', line.len() as int);
    assert(s.take(line.len() as int) =~= line);
    let rest = s.skip(line.len() as int + 1);
    assert(rest =~= Seq::<char>::empty());
    assert(text::lines_of(rest) =~= Seq::<Seq<char>>::empty());
    assert(text::lines_of(s) =~= seq![text::without_return(line)]);
}

/// The small letter of a capital of the English alphabet is the one at the same place in the
/// alphabet; everything else is its own.
pub proof fn law_capitals_have_small_letters(k: u32, c: char)
    requires
        k < 26,
    ensures
        text::lower(('A' as u32 + k) as char) == ('a' as u32 + k) as char,
        !('A' <= c <= 'Z') ==> text::lower(c) == c,
        text::lower(text::lower(c)) == text::lower(c),
{
}

/// White space around a text is trimmed, and nothing else.
pub proof fn law_blanks_around_are_trimmed(left: Seq<char>, s: Seq<char>, right: Seq<char>)
    requires
        forall|i: int| 0 <= i < left.len() ==> text::is_space(#[trigger] left[i]),
        forall|i: int| 0 <= i < right.len() ==> text::is_space(#[trigger] right[i]),
        s.len() > 0 ==> !text::is_space(s[0]) && !text::is_space(s.last()),
    ensures
        text::trimmed(left + s + right) == s,
{
    let all = left + s + right;
    let r = law_trimming_takes_the_white_space_at_the_ends(all);
    let n = left.len() as int;
    let m = n + s.len();
    if s.len() > 0 {
        assert(all[n] == s[0]);
        assert(all[m - 1] == s.last());
        assert(r.0 <= n < r.1);
        assert(r.0 <= m - 1 < r.1);
        if r.0 < n {
            assert(all[r.0] == left[r.0]);
        }
        if m < r.1 {
            assert(all[r.1 - 1] == right[r.1 - 1 - m]);
        }
        assert(all.subrange(n, m) =~= s);
    } else {
        if r.0 < r.1 {
            if r.0 < n {
                assert(all[r.0] == left[r.0]);
            } else {
                assert(all[r.0] == right[r.0 - n]);
            }
        }
        assert(all.subrange(r.0, r.1) =~= s);
    }
}

} // verus!
