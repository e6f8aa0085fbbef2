//! What holds of every path, said of the names that it is made of.

use vstd::prelude::*;

use crate::paths;
use crate::paths::Part;
use crate::paths::Platform;
use crate::text;
use crate::text_laws;

verus! {

/// Whether a text is the name of a file or directory on Windows.
pub open spec fn is_windows_name(name: Seq<char>) -> bool {
    paths::is_name(name) && !name.contains('\\')
}

/// Names as components.
pub open spec fn named(names: Seq<Seq<char>>) -> Seq<Part> {
    Seq::new(names.len(), |i: int| Part::Normal(names[i]))
}

/// What pieces come to, one group behind the other.
pub proof fn lemma_body_sum(a: Seq<Seq<char>>, b: Seq<Seq<char>>, verbatim: bool)
    ensures
        paths::body(a + b, verbatim) == paths::body(a, verbatim) + paths::body(b, verbatim),
    decreases b.len(),
{
    if b.len() == 0 {
        assert(a + b =~= a);
        assert(paths::body(a, verbatim) + paths::body(b, verbatim) =~= paths::body(a, verbatim));
    } else {
        lemma_body_sum(a, b.drop_last(), verbatim);
        assert((a + b).drop_last() =~= a + b.drop_last());
        assert(paths::body(a + b, verbatim) =~= paths::body(a, verbatim) + paths::body(b, verbatim));
    }
}

/// Names are components.
proof fn lemma_body_of_names(names: Seq<Seq<char>>, verbatim: bool)
    requires
        forall|i: int| 0 <= i < names.len() ==> paths::is_name(#[trigger] names[i]),
    ensures
        paths::body(names, verbatim) == named(names),
    decreases names.len(),
{
    if names.len() > 0 {
        let front = names.drop_last();
        assert forall|i: int| 0 <= i < front.len() implies paths::is_name(#[trigger] front[i]) by {
            assert(front[i] == names[i]);
        }
        lemma_body_of_names(front, verbatim);
        assert(paths::is_name(names[names.len() - 1]));
        assert(paths::body(names, verbatim) =~= named(names));
    } else {
        assert(paths::body(names, verbatim) =~= named(names));
    }
}

/// The pieces on either side of a separator.
proof fn lemma_pieces_sum(a: Seq<char>, b: Seq<char>, c: char)
    ensures
        text::pieces(a + seq![c] + b, c) == text::pieces(a, c) + text::pieces(b, c),
    decreases a.len(),
{
    let s = a + seq![c] + b;
    let i = text::first_of(a, c);
    text::lemma_first_of(a, c);
    text::lemma_first_of_is(s, c, i);
    assert(s.take(i) =~= a.take(i));
    if i < a.len() {
        lemma_pieces_sum(a.skip(i + 1), b, c);
        assert(s.skip(i + 1) =~= a.skip(i + 1) + seq![c] + b);
        assert(text::pieces(s, c) =~= text::pieces(a, c) + text::pieces(b, c));
    } else {
        assert(s.skip(i + 1) =~= b);
        assert(a.take(i) =~= a);
        assert(text::pieces(s, c) =~= text::pieces(a, c) + text::pieces(b, c));
    }
}

/// How joined names begin.
proof fn lemma_joined_begin(names: Seq<Seq<char>>, sep: char)
    requires
        names.len() > 0,
        forall|i: int|
            0 <= i < names.len() ==> paths::is_name(#[trigger] names[i]) && !names[i].contains(sep),
    ensures
        ({
            let s = text::joined(names, seq![sep]);
            &&& s.len() > 0
            &&& s[0] == names[0][0]
            &&& s[0] != sep
            &&& s.len() == 1 || s[1] == sep ==> names[0].len() == 1
            &&& s.len() > 1 && s[1] != sep ==> names[0].len() > 1 && s[1] == names[0][1]
            &&& !paths::dotted(s, sep)
            &&& text::pieces(s, sep) == names
        }),
{
    let s = text::joined(names, seq![sep]);
    let first = names[0];
    assert(paths::is_name(first));
    assert(first.contains(first[0]));
    text_laws::law_joined_texts_are_split_again(names, sep);
    if names.len() > 1 {
        text_laws::lemma_joined_front(names, seq![sep]);
    }
    if first.len() > 1 {
        assert(first.contains(first[1]));
        assert(s[1] == first[1]);
    } else {
        if first[0] == '.' {
            assert(first =~= seq!['.']);
        }
        if names.len() > 1 {
            assert(s[1] == sep);
        }
    }
}

/// On Unix, names with slashes between them are these components, below the root where a slash is
/// in front.
pub proof fn law_a_path_is_its_names(names: Seq<Seq<char>>)
    requires
        names.len() > 0,
        forall|i: int| 0 <= i < names.len() ==> paths::is_name(#[trigger] names[i]),
    ensures
        paths::parts(Platform::Unix, text::joined(names, seq!['/'])) == Seq::new(
            names.len(),
            |i: int| Part::Normal(names[i]),
        ),
        paths::parts(Platform::Unix, seq!['/'] + text::joined(names, seq!['/'])) == seq![Part::Root]
            + Seq::new(names.len(), |i: int| Part::Normal(names[i])),
{
    let s = text::joined(names, seq!['/']);
    lemma_joined_begin(names, '/');
    lemma_body_of_names(names, false);
    let none = Seq::<char>::empty();
    lemma_pieces_sum(none, s, '/');
    text::lemma_first_of(none, '/');
    assert(text::pieces(none, '/') =~= seq![none]);
    assert(none + seq!['/'] + s =~= seq!['/'] + s);
    lemma_body_sum(seq![none], names, false);
    reveal_with_fuel(paths::body, 2);
    assert(paths::body(seq![none], false) =~= seq![]);
    assert(paths::body(seq![none], false) + named(names) =~= named(names));
}

/// On Windows, names behind a drive are components below its root, whichever of the two slashes
/// are between them, and whatever the case of the drive.
pub proof fn law_a_windows_path_is_its_names(s: Seq<char>, k: u32, drive: char, names: Seq<Seq<char>>)
    requires
        names.len() > 0,
        forall|i: int| 0 <= i < names.len() ==> is_windows_name(#[trigger] names[i]),
        k < 26,
        drive as u32 == 65 + k || drive as u32 == 97 + k,
        text::backslashed(s) == seq![drive, ':', '\\'] + text::joined(names, seq!['\\']),
    ensures
        paths::parts(Platform::Windows, s) == seq![
            Part::Prefix(seq![((65 + k) as u32) as char, ':']),
            Part::Root,
        ] + Seq::new(names.len(), |i: int| Part::Normal(names[i])),
{
    let t = text::joined(names, seq!['\\']);
    let b = text::backslashed(s);
    assert(b.len() == 3 + t.len());
    assert(b[0] == drive && b[1] == ':' && b[2] == '\\');
    assert(drive != '\\');
    assert(s[0] == drive && s[1] == ':');
    assert(!seq!['\\', '\\'].is_prefix_of(b)) by {
        if seq!['\\', '\\'].is_prefix_of(b) {
            assert(seq!['\\', '\\'][0] == b[0]);
        }
    }
    assert(paths::has_drive(s));
    assert forall|i: int| 0 <= i < names.len() implies paths::is_name(#[trigger] names[i])
        && !names[i].contains('\\') by {
        assert(is_windows_name(names[i]));
    }
    lemma_joined_begin(names, '\\');
    lemma_body_of_names(names, false);
    let rest = text::backslashed(s.skip(2));
    assert forall|i: int| 0 <= i < rest.len() implies rest[i] == b[i + 2] by {
        assert(s.skip(2)[i] == s[i + 2]);
    }
    assert(b.skip(2) =~= seq!['\\'] + t);
    assert(rest =~= b.skip(2));
    let none = Seq::<char>::empty();
    lemma_pieces_sum(none, t, '\\');
    text::lemma_first_of(none, '\\');
    assert(text::pieces(none, '\\') =~= seq![none]);
    assert(none + seq!['\\'] + t =~= seq!['\\'] + t);
    lemma_body_sum(seq![none], names, false);
    reveal_with_fuel(paths::body, 2);
    assert(paths::body(seq![none], false) =~= seq![]);
    assert(paths::body(seq![none], false) + named(names) =~= named(names));
    assert(paths::upper(drive) == ((65 + k) as u32) as char);
}

/// On Unix, a slash more and a dot between two slashes change nothing, nor does a slash at the end;
/// two dots lead to the directory above.
pub proof fn law_slashes_and_dots_are_skipped(a: Seq<char>, b: Seq<char>)
    requires
        a.len() > 0,
    ensures
        paths::parts(Platform::Unix, a + seq!['/', '/'] + b) == paths::parts(
            Platform::Unix,
            a + seq!['/'] + b,
        ),
        paths::parts(Platform::Unix, a + seq!['/', '.', '/'] + b) == paths::parts(
            Platform::Unix,
            a + seq!['/'] + b,
        ),
        paths::parts(Platform::Unix, a + seq!['/']) == paths::parts(Platform::Unix, a),
        paths::parts(Platform::Unix, a + seq!['/', '.', '.']) == paths::parts(
            Platform::Unix,
            a,
        ).push(Part::Parent),
{
    let one = a + seq!['/'] + b;
    let two = a + seq!['/', '/'] + b;
    let dot = a + seq!['/', '.', '/'] + b;
    let up = a + seq!['/', '.', '.'];
    let end = a + seq!['/'];
    let none = Seq::<char>::empty();
    let p = text::pieces(a, '/');
    let q = text::pieces(b, '/');
    assert(forall|c: char| c != '/' ==> !none.contains(c));
    text::lemma_first_of(none, '/');
    text::lemma_first_of_is(seq!['.'], '/', 1);
    text::lemma_first_of_is(seq!['.', '.'], '/', 2);
    assert(text::pieces(none, '/') =~= seq![none]);
    assert(text::pieces(seq!['.'], '/') =~= seq![seq!['.']]);
    assert(text::pieces(seq!['.', '.'], '/') =~= seq![seq!['.', '.']]);
    lemma_pieces_sum(a, b, '/');
    lemma_pieces_sum(none, b, '/');
    lemma_pieces_sum(a, none + seq!['/'] + b, '/');
    assert(a + seq!['/'] + (none + seq!['/'] + b) =~= two);
    lemma_pieces_sum(seq!['.'], b, '/');
    lemma_pieces_sum(a, seq!['.'] + seq!['/'] + b, '/');
    assert(a + seq!['/'] + (seq!['.'] + seq!['/'] + b) =~= dot);
    lemma_pieces_sum(a, seq!['.', '.'], '/');
    assert(a + seq!['/'] + seq!['.', '.'] =~= up);
    lemma_pieces_sum(a, none, '/');
    assert(a + seq!['/'] + none =~= end);
    lemma_body_sum(p, q, false);
    lemma_body_sum(seq![none], q, false);
    lemma_body_sum(p, seq![none] + q, false);
    lemma_body_sum(seq![seq!['.']], q, false);
    lemma_body_sum(p, seq![seq!['.']] + q, false);
    lemma_body_sum(p, seq![seq!['.', '.']], false);
    lemma_body_sum(p, seq![none], false);
    reveal_with_fuel(paths::body, 2);
    assert(paths::body(seq![none], false) =~= seq![]);
    assert(paths::body(seq![seq!['.']], false) =~= seq![]);
    assert(paths::body(seq![seq!['.', '.']], false) =~= seq![Part::Parent]);
    let f = paths::body(p, false);
    assert(paths::body(seq![none], false) + paths::body(q, false) =~= paths::body(q, false));
    assert(f + paths::body(seq![none], false) =~= f);
    assert(f + seq![Part::Parent] =~= f.push(Part::Parent));
    assert(one[0] == a[0] && two[0] == a[0] && dot[0] == a[0] && up[0] == a[0] && end[0] == a[0]);
    if a.len() > 1 {
        assert(one[1] == a[1] && two[1] == a[1] && dot[1] == a[1] && up[1] == a[1] && end[1]
            == a[1]);
    } else {
        assert(one[1] == '/' && two[1] == '/' && dot[1] == '/' && up[1] == '/' && end[1] == '/');
    }
    assert(seq![Part::Root] + f.push(Part::Parent) =~= (seq![Part::Root] + f).push(Part::Parent));
    assert(seq![Part::Cur] + f.push(Part::Parent) =~= (seq![Part::Cur] + f).push(Part::Parent));
}

/// The beginning of a path has no more components than the path.
proof fn lemma_fewer_parts(s: Seq<char>, n: int)
    requires
        0 <= n <= s.len(),
    ensures
        paths::plain_parts(s.take(n), '/').len() <= paths::plain_parts(s, '/').len(),
    decreases s.len(),
{
    if n == s.len() {
        assert(s.take(n) =~= s);
    } else {
        let t = s.drop_last();
        lemma_fewer_parts(t, n);
        assert(t.take(n) =~= s.take(n));
        let none = Seq::<char>::empty();
        let q = text::pieces(s, '/');
        let dt = paths::dotted(t, '/');
        if t.len() > 0 {
            assert(t[0] == s[0]);
        } else {
            text::lemma_first_of(t, '/');
            assert(text::pieces(t, '/') =~= seq![t]);
            reveal_with_fuel(paths::body, 2);
        }
        if s.last() == '/' {
            assert(t.push('/') =~= s);
            paths::lemma_push_separator(t, '/');
            assert(q.drop_last() =~= text::pieces(t, '/'));
            assert(paths::body(q, false) == paths::body(text::pieces(t, '/'), false));
            if t.len() > 1 {
                assert(s[1] == t[1]);
            }
        } else {
            paths::lemma_last_piece(s, '/');
            let p = q.last();
            let u = s.take(s.len() - p.len());
            if p.len() == 0 {
                assert(u =~= s);
            }
            let less = p.drop_last();
            assert(t =~= u + less);
            assert(!less.contains('/')) by {
                if less.contains('/') {
                    let k = choose|k: int| 0 <= k < less.len() && less[k] == '/';
                    assert(p[k] == '/');
                }
            }
            lemma_pieces_end(u, p);
            lemma_pieces_end(u, less);
            let tq = text::pieces(t, '/');
            assert(tq.drop_last() =~= q.drop_last());
            let f = paths::body(q.drop_last(), false);
            assert(paths::body(q, false).len() >= f.len());
            assert(paths::part_of(p, false) is None ==> p =~= seq!['.'] && less =~= none);
            if dt && !paths::dotted(s, '/') {
                if t.len() > 1 {
                    assert(s[1] == t[1]);
                }
                assert(t =~= seq!['.']);
                assert(u.len() == 0) by {
                    if u.len() > 0 {
                        assert(u.last() == s[u.len() - 1]);
                        assert(s[0] == '.');
                        assert(s.last() == p.last());
                    }
                }
                assert(less =~= seq!['.']);
                text::lemma_first_of(u, '/');
                assert(u =~= none);
            }
        }
    }
}

/// How the pieces end where the text behind the last separator is known.
proof fn lemma_pieces_end(u: Seq<char>, p: Seq<char>)
    requires
        u.len() == 0 || u.last() == '/',
        !p.contains('/'),
    ensures
        text::pieces(u + p, '/') == text::pieces(u, '/').drop_last().push(p),
{
    let none = Seq::<char>::empty();
    text::lemma_first_of(p, '/');
    text::lemma_first_of(none, '/');
    if u.len() == 0 {
        assert(u =~= none);
        assert(u + p =~= p);
        assert(text::pieces(none, '/') =~= seq![none]);
        assert(text::pieces(u + p, '/') =~= text::pieces(u, '/').drop_last().push(p));
    } else {
        let a = u.drop_last();
        assert(a.push('/') =~= u);
        paths::lemma_push_separator(a, '/');
        lemma_pieces_sum(a, p, '/');
        assert(a + seq!['/'] + p =~= u + p);
        assert(text::pieces(p, '/') =~= seq![p]);
        assert(text::pieces(u + p, '/') =~= text::pieces(u, '/').drop_last().push(p));
    }
}

/// On Unix, the parent of what is in a directory is that directory, as it is written.
pub proof fn law_the_parent_is_the_directory(front: Seq<char>, last: Seq<char>, name: Seq<char>)
    requires
        front.len() == 0 || front.last() == '/',
        paths::is_name(last),
        paths::is_name(name),
    ensures
        paths::above(Platform::Unix, front + last + seq!['/'] + name) == Some(front + last),
{
    let dir = front + last;
    let s = dir + seq!['/'] + name;
    let n = dir.len() as int;
    assert(last.contains(last.last()));
    assert(dir.last() == last.last());
    assert(paths::inside(Platform::Unix, dir, name) =~= s);
    paths::law_a_joined_name_comes_last(dir, name);
    assert(s.take(n) =~= dir);
    assert(paths::parts(Platform::Unix, s).drop_last() =~= paths::parts(Platform::Unix, dir));
    assert(paths::names_parent(Platform::Unix, s, n));
    assert(paths::inside(Platform::Unix, front, last) =~= dir);
    paths::law_a_joined_name_comes_last(front, last);
    let whole = paths::parts(Platform::Unix, dir);
    assert forall|k: int| 0 <= k < n implies !#[trigger] paths::names_parent(
        Platform::Unix,
        s,
        k,
    ) by {
        let t = s.take(k);
        assert(t =~= dir.take(k));
        if k <= front.len() {
            lemma_fewer_parts(front, k);
            assert(front.take(k) =~= t);
        } else {
            let p = last.take(k - front.len());
            assert(t =~= front + p);
            assert(!p.contains('/')) by {
                if p.contains('/') {
                    let j = choose|j: int| 0 <= j < p.len() && p[j] == '/';
                    assert(last[j] == '/');
                }
            }
            lemma_pieces_end(front, p);
            let q = text::pieces(t, '/');
            assert(q.last() == p);
            if paths::parts(Platform::Unix, t) == whole {
                assert(whole.last() == Part::Normal(last));
                let b = paths::body(q, false);
                lemma_pieces_end(front, last);
                if b.len() > 0 {
                    assert(paths::parts(Platform::Unix, t).last() == b.last());
                }
                let f = paths::body(q.drop_last(), false);
                match paths::part_of(p, false) {
                    Some(part) => {
                        assert(b == f.push(part));
                        assert(part == Part::Normal(last));
                        assert(p.len() == last.len());
                    },
                    None => {
                        assert(p =~= seq!['.']);
                        assert(b == f);
                        let g = paths::body(text::pieces(dir, '/'), false);
                        assert(text::pieces(dir, '/').drop_last() =~= q.drop_last());
                        assert(g == f.push(Part::Normal(last)));
                        assert(t[0] == dir[0]);
                        if t.len() > 1 {
                            assert(t[1] == dir[1]);
                        }
                        if front.len() > 0 {
                            assert(t.len() > 1);
                        } else {
                            assert(t =~= seq!['.']);
                            assert(paths::parts(Platform::Unix, t)[0] == Part::Cur);
                            let none = Seq::<char>::empty();
                            assert(front =~= none);
                            text::lemma_first_of(none, '/');
                            assert(text::pieces(none, '/') =~= seq![none]);
                            assert(q.drop_last().len() == 0);
                            assert(f.len() == 0);
                        }
                    },
                }
                assert(false);
            }
        }
    }
    assert(paths::is_parent_len(Platform::Unix, s, n));
    let m = choose|m: int| paths::is_parent_len(Platform::Unix, s, m);
    assert(paths::is_parent_len(Platform::Unix, s, m));
    if m < n {
        assert(!paths::names_parent(Platform::Unix, s, m));
    }
    if n < m {
        assert(!paths::names_parent(Platform::Unix, s, n));
    }
}

} // verus!
