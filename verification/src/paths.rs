//! Paths as text: their components, and what follows from them.
//!
//! A path is read by the rules of the platform it belongs to, which is an argument: nothing here
//! depends on the platform that the code runs on.

use vstd::prelude::*;

use crate::text;

verus! {

/// Whose rules a path follows.
#[derive(Clone, Copy, Debug, PartialEq, Eq, Structural)]
pub enum Platform {
    Unix,
    Windows,
}

/// A component of a path.
pub enum Part {
    /// A Windows prefix such as `C:` or `\\server\share`.
    Prefix(Seq<char>),
    /// The root of the file system, or of what the prefix names.
    Root,
    /// The current directory.
    Cur,
    /// The parent directory.
    Parent,
    /// A name.
    Normal(Seq<char>),
}

/// What a piece between two separators stands for, if for anything. A dot counts only in a
/// verbatim path.
pub open spec fn part_of(piece: Seq<char>, verbatim: bool) -> Option<Part> {
    if piece.len() == 0 {
        None
    } else if piece == seq!['.'] {
        if verbatim {
            Some(Part::Cur)
        } else {
            None
        }
    } else if piece == seq!['.', '.'] {
        Some(Part::Parent)
    } else {
        Some(Part::Normal(piece))
    }
}

/// What the pieces between the separators stand for.
pub open spec fn body(pieces: Seq<Seq<char>>, verbatim: bool) -> Seq<Part>
    decreases pieces.len(),
{
    if pieces.len() == 0 {
        seq![]
    } else {
        let front = body(pieces.drop_last(), verbatim);
        match part_of(pieces.last(), verbatim) {
            Some(part) => front.push(part),
            None => front,
        }
    }
}

/// Whether a path begins with the current directory: with a dot that a separator follows, or with
/// nothing but a dot.
pub open spec fn dotted(s: Seq<char>, sep: char) -> bool {
    s.len() > 0 && s[0] == '.' && (s.len() == 1 || s[1] == sep)
}

/// The components of a path with one separator and no prefix.
pub open spec fn plain_parts(s: Seq<char>, sep: char) -> Seq<Part> {
    let rest = body(text::pieces(s, sep), false);
    if s.len() > 0 && s[0] == sep {
        seq![Part::Root] + rest
    } else if dotted(s, sep) {
        seq![Part::Cur] + rest
    } else {
        rest
    }
}

/// The prefix of a Windows path.
pub struct Prefix {
    /// How the prefix is written: a drive in upper case, the rest as it is.
    pub name: Seq<char>,
    /// How much of the path the prefix takes.
    pub len: int,
    /// Whether the path is taken as it is, with no separator but the backslash.
    pub verbatim: bool,
    /// Whether the prefix is a drive, which alone leaves a path relative.
    pub drive: bool,
}

/// A letter of the English alphabet in upper case.
pub open spec fn upper(c: char) -> char {
    if 'a' <= c <= 'z' {
        ((c as u32) - 32) as char
    } else {
        c
    }
}

/// Whether a text begins with the letter of a drive and a colon.
pub open spec fn has_drive(s: Seq<char>) -> bool {
    s.len() >= 2 && ('a' <= s[0] <= 'z' || 'A' <= s[0] <= 'Z') && s[1] == ':'
}

/// The text in front of the first separator.
pub open spec fn head(s: Seq<char>, verbatim: bool) -> Seq<char> {
    if verbatim {
        s.take(text::first_of(s, '\\'))
    } else {
        s.take(text::first_of(text::backslashed(s), '\\'))
    }
}

/// The text behind the first separator.
pub open spec fn behind(s: Seq<char>, verbatim: bool) -> Seq<char> {
    if head(s, verbatim).len() < s.len() {
        s.skip(head(s, verbatim).len() as int + 1)
    } else {
        seq![]
    }
}

/// Two names, the second behind a separator where there is one.
pub open spec fn pair(a: Seq<char>, b: Seq<char>) -> Seq<char> {
    if b.len() > 0 {
        a.push('\\') + b
    } else {
        a
    }
}

/// The prefix that two backslashes begin.
pub open spec fn long_prefix(s: Seq<char>) -> Option<Prefix> {
    let b = text::backslashed(s);
    if seq!['\\', '\\', '?', '\\'].is_prefix_of(s) {
        let rest = s.skip(4);
        if seq!['U', 'N', 'C', '\\'].is_prefix_of(text::backslashed(rest)) {
            let name = pair(head(s.skip(8), true), head(behind(s.skip(8), true), true));
            Some(
                Prefix {
                    name: seq!['\\', '\\', '?', '\\', 'U', 'N', 'C', '\\'] + name,
                    len: 8 + name.len() as int,
                    verbatim: true,
                    drive: false,
                },
            )
        } else if has_drive(rest) && (rest.len() == 2 || text::backslashed(rest)[2] == '\\') {
            Some(
                Prefix {
                    name: seq!['\\', '\\', '?', '\\', upper(rest[0]), ':'],
                    len: 6,
                    verbatim: true,
                    drive: false,
                },
            )
        } else {
            let name = head(rest, true);
            Some(
                Prefix {
                    name: seq!['\\', '\\', '?', '\\'] + name,
                    len: 4 + name.len() as int,
                    verbatim: true,
                    drive: false,
                },
            )
        }
    } else if seq!['\\', '\\', '.', '\\'].is_prefix_of(b) {
        let name = head(s.skip(4), false);
        Some(
            Prefix {
                name: seq!['\\', '\\', '.', '\\'] + name,
                len: 4 + name.len() as int,
                verbatim: false,
                drive: false,
            },
        )
    } else {
        let server = head(s.skip(2), false);
        let share = head(behind(s.skip(2), false), false);
        if server.len() > 0 && share.len() > 0 {
            let name = pair(server, share);
            Some(
                Prefix {
                    name: seq!['\\', '\\'] + name,
                    len: 2 + name.len() as int,
                    verbatim: false,
                    drive: false,
                },
            )
        } else {
            None
        }
    }
}

/// The prefix of a Windows path, if it has one.
pub open spec fn prefix(s: Seq<char>) -> Option<Prefix> {
    if seq!['\\', '\\'].is_prefix_of(text::backslashed(s)) {
        long_prefix(s)
    } else if has_drive(s) {
        Some(Prefix { name: seq![upper(s[0]), ':'], len: 2, verbatim: false, drive: true })
    } else {
        None
    }
}

/// The components of a Windows path.
pub open spec fn windows_parts(s: Seq<char>) -> Seq<Part> {
    match prefix(s) {
        None => plain_parts(text::backslashed(s), '\\'),
        Some(p) => {
            let rest = if p.verbatim {
                s.skip(p.len)
            } else {
                text::backslashed(s.skip(p.len))
            };
            let rooted = (rest.len() > 0 && rest[0] == '\\') || (!p.drive && !p.verbatim);
            let front = if rooted {
                seq![Part::Prefix(p.name), Part::Root]
            } else {
                seq![Part::Prefix(p.name)]
            };
            front + body(text::pieces(rest, '\\'), p.verbatim)
        },
    }
}

/// The components of a path.
pub open spec fn parts(platform: Platform, s: Seq<char>) -> Seq<Part> {
    match platform {
        Platform::Unix => plain_parts(s, '/'),
        Platform::Windows => windows_parts(s),
    }
}

/// The name a path ends in, if it ends in one.
pub open spec fn last_name(platform: Platform, s: Seq<char>) -> Option<Seq<char>> {
    let list = parts(platform, s);
    if list.len() > 0 {
        match list.last() {
            Part::Normal(name) => Some(name),
            _ => None,
        }
    } else {
        None
    }
}

/// Whether a path has something above it: whether it ends in anything but a root or a prefix.
pub open spec fn has_parent(platform: Platform, s: Seq<char>) -> bool {
    let list = parts(platform, s);
    list.len() > 0 && !(list.last() is Root) && !(list.last() is Prefix)
}

/// Whether `n` characters of a path name what is above it.
pub open spec fn names_parent(platform: Platform, s: Seq<char>, n: int) -> bool {
    parts(platform, s.take(n)) == parts(platform, s).drop_last()
}

/// Whether `n` characters of a path, and no fewer, name what is above it.
pub open spec fn is_parent_len(platform: Platform, s: Seq<char>, n: int) -> bool {
    0 <= n <= s.len() && names_parent(platform, s, n) && forall|k: int|
        0 <= k < n ==> !#[trigger] names_parent(platform, s, k)
}

/// What is above a path, if anything is: the shortest beginning of it whose components are all but
/// the last of its own.
pub open spec fn above(platform: Platform, s: Seq<char>) -> Option<Seq<char>> {
    if has_parent(platform, s) {
        Some(s.take(choose|n: int| is_parent_len(platform, s, n)))
    } else {
        None
    }
}

/// Whether a name can be put behind a directory: it is neither rooted nor has it a prefix.
pub open spec fn relative(platform: Platform, name: Seq<char>) -> bool {
    match platform {
        Platform::Unix => !(name.len() > 0 && name[0] == '/'),
        Platform::Windows => !(name.len() > 0 && text::backslashed(name)[0] == '\\') && !has_drive(
            name,
        ),
    }
}

/// Whether a separator is needed between a directory and what is put behind it.
pub open spec fn needs_separator(platform: Platform, dir: Seq<char>) -> bool {
    match platform {
        Platform::Unix => dir.len() > 0 && dir.last() != '/',
        Platform::Windows => dir.len() > 0 && text::backslashed(dir).last() != '\\' && !(dir.len()
            == 2 && has_drive(dir)),
    }
}

/// The components of a verbatim path with those of a relative name behind them. Such a path is
/// taken as it is, so the dots of the name are worked out.
pub open spec fn followed(list: Seq<Part>, more: Seq<Part>) -> Seq<Part>
    decreases more.len(),
{
    if more.len() == 0 {
        list
    } else {
        let done = followed(list, more.drop_last());
        match more.last() {
            Part::Cur => done,
            Part::Parent => if done.len() > 0 && done.last() is Normal {
                done.drop_last()
            } else {
                done
            },
            part => done.push(part),
        }
    }
}

/// How a component other than a prefix is written.
pub open spec fn written(part: Part) -> Seq<char> {
    match part {
        Part::Prefix(name) => name,
        Part::Root => seq!['\\'],
        Part::Cur => seq!['.'],
        Part::Parent => seq!['.', '.'],
        Part::Normal(name) => name,
    }
}

/// A path written anew out of its components, the first of which is a prefix that is written as
/// `start`: one separator between two components.
pub open spec fn rebuilt(start: Seq<char>, list: Seq<Part>) -> Seq<char>
    decreases list.len(),
{
    if list.len() <= 1 {
        start
    } else {
        let front = rebuilt(start, list.drop_last());
        if list.last() is Root || list[list.len() - 2] is Root {
            front + written(list.last())
        } else {
            front.push('\\') + written(list.last())
        }
    }
}

/// Whether a path is a verbatim Windows path.
pub open spec fn is_verbatim(platform: Platform, s: Seq<char>) -> bool {
    platform == Platform::Windows && (prefix(s) matches Some(p) && p.verbatim)
}

/// A relative name behind a directory. A verbatim directory is written anew.
pub open spec fn inside(platform: Platform, dir: Seq<char>, name: Seq<char>) -> Seq<char> {
    if is_verbatim(platform, dir) && name.len() > 0 {
        rebuilt(dir.take(prefix(dir)->0.len), followed(windows_parts(dir), windows_parts(name)))
    } else if needs_separator(platform, dir) {
        dir.push(
            match platform {
                Platform::Unix => '/',
                Platform::Windows => '\\',
            },
        ) + name
    } else {
        dir + name
    }
}

/// How the pieces of a text end: the last one is what is behind the last separator.
pub proof fn lemma_last_piece(s: Seq<char>, sep: char)
    ensures
        ({
            let p = text::pieces(s, sep).last();
            let u = s.take(s.len() - p.len());
            &&& text::pieces(s, sep).len() > 0
            &&& p.len() <= s.len()
            &&& s == u + p
            &&& !p.contains(sep)
            &&& u.len() == 0 || u.last() == sep
            &&& text::pieces(u, sep) == text::pieces(s, sep).drop_last().push(Seq::<char>::empty())
        }),
    decreases s.len(),
{
    let i = text::first_of(s, sep);
    text::lemma_first_of(s, sep);
    let p = text::pieces(s, sep).last();
    if i < s.len() {
        let rest = s.skip(i + 1);
        lemma_last_piece(rest, sep);
        let q = text::pieces(rest, sep);
        assert(text::pieces(s, sep) =~= seq![s.take(i)] + q);
        assert(p == q.last());
        let v = rest.take(rest.len() - p.len());
        let u = s.take(s.len() - p.len());
        assert(u.skip(i + 1) =~= v);
        assert(u.take(i) =~= s.take(i));
        text::lemma_first_of_is(u, sep, i);
        assert(text::pieces(u, sep) =~= text::pieces(s, sep).drop_last().push(
            Seq::<char>::empty(),
        ));
        assert(s =~= u + p) by {
            assert forall|k: int| 0 <= k < s.len() implies s[k] == (u + p)[k] by {
                if k >= u.len() {
                    assert(rest[k - i - 1] == (v + p)[k - i - 1]);
                }
            }
        }
        if v.len() > 0 {
            assert(u.last() == v.last());
        } else {
            assert(u.last() == s[i]);
        }
    } else {
        let u = s.take(0);
        assert(u =~= Seq::<char>::empty());
        text::lemma_first_of(u, sep);
        assert(text::pieces(u, sep) =~= seq![u]);
        assert(text::pieces(s, sep).drop_last().push(Seq::<char>::empty()) =~= seq![
            Seq::<char>::empty(),
        ]);
        assert(s =~= u + p);
    }
}

/// A separator at the end brings an empty piece.
pub proof fn lemma_push_separator(t: Seq<char>, sep: char)
    ensures
        text::pieces(t.push(sep), sep) == text::pieces(t, sep).push(Seq::<char>::empty()),
    decreases t.len(),
{
    let s = t.push(sep);
    let i = text::first_of(t, sep);
    text::lemma_first_of(t, sep);
    text::lemma_first_of_is(s, sep, i);
    assert(s.take(i) =~= t.take(i));
    if i < t.len() {
        lemma_push_separator(t.skip(i + 1), sep);
        assert(s.skip(i + 1) =~= t.skip(i + 1).push(sep));
        assert(text::pieces(s, sep) =~= text::pieces(t, sep).push(Seq::<char>::empty()));
    } else {
        let none = s.skip(i + 1);
        assert(none =~= Seq::<char>::empty());
        text::lemma_first_of(none, sep);
        assert(text::pieces(none, sep) =~= seq![none]);
        assert(t.take(i) =~= t);
        assert(text::pieces(s, sep) =~= text::pieces(t, sep).push(Seq::<char>::empty()));
    }
}

/// A path without a prefix that ends in anything but its root begins with what is above it.
proof fn lemma_plain_parent(s: Seq<char>, sep: char) -> (n: int)
    requires
        sep != '.',
        plain_parts(s, sep).len() > 0,
        !(plain_parts(s, sep).last() is Root),
    ensures
        0 <= n <= s.len(),
        plain_parts(s.take(n), sep) == plain_parts(s, sep).drop_last(),
    decreases s.len(),
{
    let none = Seq::<char>::empty();
    text::lemma_first_of(none, sep);
    assert(text::pieces(none, sep) =~= seq![none]);
    reveal_with_fuel(body, 2);
    assert(body(text::pieces(none, sep), false) =~= Seq::<Part>::empty());
    assert(plain_parts(none, sep) =~= Seq::<Part>::empty());
    if s.len() == 0 {
        assert(s =~= none);
        0
    } else if s.last() == sep {
        let t = s.drop_last();
        assert(t.push(sep) =~= s);
        lemma_push_separator(t, sep);
        let q = text::pieces(s, sep);
        assert(q.drop_last() =~= text::pieces(t, sep));
        assert(body(q, false) == body(text::pieces(t, sep), false));
        if t.len() == 0 {
            assert(t =~= none);
            assert(plain_parts(s, sep) =~= seq![Part::Root]);
            0
        } else {
            assert(s[0] == t[0]);
            assert(dotted(s, sep) == dotted(t, sep));
            assert(plain_parts(s, sep) == plain_parts(t, sep));
            let n = lemma_plain_parent(t, sep);
            assert(t.take(n) =~= s.take(n));
            n
        }
    } else {
        lemma_last_piece(s, sep);
        let q = text::pieces(s, sep);
        let p = q.last();
        let u = s.take(s.len() - p.len());
        if p.len() == 0 {
            assert(u =~= s);
            assert(false);
        }
        let uq = text::pieces(u, sep);
        assert(uq.drop_last() =~= q.drop_last());
        assert(body(uq, false) == body(q.drop_last(), false));
        if u.len() == 0 {
            assert(u =~= none);
            assert(s =~= p);
            assert forall|k: int| 0 <= k < p.len() implies p[k] != sep by {
                assert(p.contains(p[k]));
            }
            assert(uq =~= seq![none]);
            assert(q.drop_last() =~= Seq::<Seq<char>>::empty());
            assert(body(q.drop_last(), false) =~= Seq::<Part>::empty());
            if p.len() == 1 && p[0] == '.' {
                assert(p =~= seq!['.']);
                assert(plain_parts(s, sep) =~= seq![Part::Cur]);
            } else {
                if p == seq!['.'] {
                    assert(p.len() == 1 && p[0] == '.');
                }
                assert(part_of(p, false) is Some);
                assert(!dotted(s, sep));
                assert(plain_parts(s, sep) =~= body(q, false));
                assert(body(q, false).len() == 1);
            }
            assert(plain_parts(s, sep).drop_last() =~= Seq::<Part>::empty());
            assert(s.take(0) =~= none);
            0
        } else {
            assert(s[0] == u[0]);
            assert(u.last() == sep);
            if s[0] == '.' {
                assert(u.len() >= 2);
                assert(s[1] == u[1]);
            }
            assert(dotted(s, sep) == dotted(u, sep));
            match part_of(p, false) {
                Some(x) => {
                    assert(plain_parts(s, sep) =~= plain_parts(u, sep).push(x));
                    assert(plain_parts(s, sep).drop_last() =~= plain_parts(u, sep));
                    s.len() - p.len()
                },
                None => {
                    assert(plain_parts(s, sep) == plain_parts(u, sep));
                    let n = lemma_plain_parent(u, sep);
                    assert(u.take(n) =~= s.take(n));
                    n
                },
            }
        }
    }
}

/// What is in front of and behind the first separator, in a beginning of a text.
proof fn lemma_head_take(s: Seq<char>, m: int, verbatim: bool)
    requires
        0 <= m <= s.len(),
    ensures
        head(s, verbatim).len() <= s.len(),
        head(s, verbatim) == s.take(head(s, verbatim).len() as int),
        head(s.take(m), verbatim) == (if head(s, verbatim).len() <= m {
            head(s, verbatim)
        } else {
            s.take(m)
        }),
        behind(s.take(m), verbatim) == (if head(s, verbatim).len() < m {
            behind(s, verbatim).take(m - head(s, verbatim).len() - 1)
        } else {
            seq![]
        }),
{
    let b = if verbatim {
        s
    } else {
        text::backslashed(s)
    };
    let c = if verbatim {
        s.take(m)
    } else {
        text::backslashed(s.take(m))
    };
    assert(c =~= b.take(m));
    text::lemma_first_of(b, '\\');
    let i = text::first_of(b, '\\');
    if i <= m {
        text::lemma_first_of_is(c, '\\', i);
        assert(s.take(m).take(i) =~= s.take(i));
    } else {
        text::lemma_first_of_is(c, '\\', m);
        assert(s.take(m).take(m) =~= s.take(m));
    }
    if i < m {
        assert(s.take(m).skip(i + 1) =~= s.skip(i + 1).take(m - i - 1));
    }
}

/// A beginning of a path has the path's prefix where it holds it whole.
proof fn lemma_prefix_stays(s: Seq<char>, n: int)
    requires
        prefix(s) matches Some(p) && p.len <= n <= s.len(),
    ensures
        prefix(s.take(n)) == prefix(s),
{
    let t = s.take(n);
    let b = text::backslashed(s);
    let p = prefix(s)->0;
    assert(text::backslashed(t) =~= b.take(n));
    if seq!['\\', '\\'].is_prefix_of(b) {
        assert(b[0] == '\\' && b[1] == '\\') by {
            assert(seq!['\\', '\\'][0] == b[0] && seq!['\\', '\\'][1] == b[1]);
        }
        let verbatim = seq!['\\', '\\', '?', '\\'];
        let device = seq!['\\', '\\', '.', '\\'];
        if verbatim.is_prefix_of(s) {
            assert forall|i: int| 0 <= i < 4 implies t[i] == verbatim[i] by {
                assert(s[i] == verbatim[i]);
            }
            assert(verbatim.is_prefix_of(t));
            assert(seq!['\\', '\\'].is_prefix_of(text::backslashed(t)));
            let rest = s.skip(4);
            let unc = seq!['U', 'N', 'C', '\\'];
            assert(t.skip(4) =~= rest.take(n - 4));
            assert(text::backslashed(rest.take(n - 4)) =~= text::backslashed(rest).take(n - 4));
            if unc.is_prefix_of(text::backslashed(rest)) {
                assert(unc.is_prefix_of(text::backslashed(t.skip(4))));
                let tail = s.skip(8);
                assert(t.skip(8) =~= tail.take(n - 8));
                lemma_head_take(tail, n - 8, true);
                let next = behind(tail, true);
                if head(tail, true).len() < n - 8 {
                    lemma_head_take(next, n - 8 - head(tail, true).len() - 1, true);
                } else {
                    assert(head(next, true).len() == 0);
                    text::lemma_first_of(Seq::<char>::empty(), '\\');
                    assert(head(Seq::<char>::empty(), true) =~= Seq::<char>::empty());
                }
                assert(pair(head(t.skip(8), true), head(behind(t.skip(8), true), true)) =~= pair(
                    head(tail, true),
                    head(next, true),
                ));
            } else {
                if unc.is_prefix_of(text::backslashed(t.skip(4))) {
                    assert forall|i: int| 0 <= i < 4 implies unc[i] == text::backslashed(
                        rest,
                    )[i] by {
                        assert(unc[i] == text::backslashed(t.skip(4))[i]);
                    }
                    assert(unc.is_prefix_of(text::backslashed(rest)));
                }
                lemma_head_take(rest, n - 4, true);
                text::lemma_first_of(rest, '\\');
                if has_drive(rest) && rest.len() > 2 && text::backslashed(rest)[2] != '\\' {
                    assert(rest[0] != '\\' && rest[1] != '\\' && rest[2] != '\\');
                    assert(head(rest, true).len() >= 3);
                }
            }
        } else {
            if verbatim.is_prefix_of(t) {
                assert forall|i: int| 0 <= i < 4 implies s[i] == verbatim[i] by {
                    assert(t[i] == verbatim[i]);
                }
                assert(verbatim.is_prefix_of(s));
            }
            if device.is_prefix_of(b) {
                assert forall|i: int| 0 <= i < 4 implies text::backslashed(t)[i] == device[i] by {
                    assert(b[i] == device[i]);
                }
                assert(device.is_prefix_of(text::backslashed(t)));
                assert(t.skip(4) =~= s.skip(4).take(n - 4));
                lemma_head_take(s.skip(4), n - 4, false);
                assert(seq!['\\', '\\'].is_prefix_of(text::backslashed(t)));
            } else {
                if device.is_prefix_of(text::backslashed(t)) {
                    assert forall|i: int| 0 <= i < 4 implies b[i] == device[i] by {
                        assert(text::backslashed(t)[i] == device[i]);
                    }
                    assert(device.is_prefix_of(b));
                }
                let tail = s.skip(2);
                assert(t.skip(2) =~= tail.take(n - 2));
                lemma_head_take(tail, n - 2, false);
                lemma_head_take(behind(tail, false), n - 2 - head(tail, false).len() - 1, false);
                assert(seq!['\\', '\\'].is_prefix_of(text::backslashed(t)));
            }
        }
    } else {
        if seq!['\\', '\\'].is_prefix_of(text::backslashed(t)) {
            assert(seq!['\\', '\\'][0] == b[0] && seq!['\\', '\\'][1] == b[1]);
            assert(seq!['\\', '\\'].is_prefix_of(b));
        }
    }
}

/// No beginning of a path without a prefix has one.
proof fn lemma_no_prefix_stays(s: Seq<char>, n: int)
    requires
        prefix(s) is None,
        0 <= n <= s.len(),
    ensures
        prefix(s.take(n)) is None,
{
    let t = s.take(n);
    let b = text::backslashed(s);
    let c = text::backslashed(t);
    assert(c =~= b.take(n));
    let two = seq!['\\', '\\'];
    if two.is_prefix_of(c) {
        assert(two[0] == b[0] && two[1] == b[1]) by {
            assert(c[0] == two[0] && c[1] == two[1]);
        }
        assert(two.is_prefix_of(b));
        let verbatim = seq!['\\', '\\', '?', '\\'];
        let device = seq!['\\', '\\', '.', '\\'];
        if verbatim.is_prefix_of(t) {
            assert forall|i: int| 0 <= i < 4 implies s[i] == verbatim[i] by {
                assert(t[i] == verbatim[i]);
            }
            assert(verbatim.is_prefix_of(s));
        }
        if device.is_prefix_of(c) {
            assert forall|i: int| 0 <= i < 4 implies b[i] == device[i] by {
                assert(c[i] == device[i]);
            }
            assert(device.is_prefix_of(b));
        }
        let tail = s.skip(2);
        assert(t.skip(2) =~= tail.take(n - 2));
        lemma_head_take(tail, n - 2, false);
        let next = behind(tail, false);
        let none = Seq::<char>::empty();
        text::lemma_first_of(text::backslashed(none), '\\');
        if head(tail, false).len() < n - 2 {
            lemma_head_take(next, n - 2 - head(tail, false).len() - 1, false);
        } else {
            assert(behind(t.skip(2), false) =~= none);
            assert(head(none, false).len() == 0);
        }
    }
}

/// What is behind a prefix begins with what is above it, where it holds anything but separators.
proof fn lemma_body_parent(r: Seq<char>, verbatim: bool) -> (m: int)
    requires
        body(text::pieces(r, '\\'), verbatim).len() > 0,
    ensures
        0 <= m <= r.len(),
        r[0] == '\\' ==> m > 0,
        body(text::pieces(r.take(m), '\\'), verbatim) == body(
            text::pieces(r, '\\'),
            verbatim,
        ).drop_last(),
    decreases r.len(),
{
    let none = Seq::<char>::empty();
    text::lemma_first_of(none, '\\');
    assert(text::pieces(none, '\\') =~= seq![none]);
    reveal_with_fuel(body, 2);
    if r.len() == 0 {
        assert(r =~= none);
        0
    } else if r.last() == '\\' {
        let t = r.drop_last();
        assert(t.push('\\') =~= r);
        lemma_push_separator(t, '\\');
        let q = text::pieces(r, '\\');
        assert(q.drop_last() =~= text::pieces(t, '\\'));
        assert(body(q, verbatim) == body(text::pieces(t, '\\'), verbatim));
        let m = lemma_body_parent(t, verbatim);
        assert(t.take(m) =~= r.take(m));
        if t.len() == 0 {
            assert(t =~= none);
            assert(body(text::pieces(t, '\\'), verbatim).len() == 0);
        }
        m
    } else {
        lemma_last_piece(r, '\\');
        let q = text::pieces(r, '\\');
        let p = q.last();
        let u = r.take(r.len() - p.len());
        if p.len() == 0 {
            assert(u =~= r);
            assert(false);
        }
        let uq = text::pieces(u, '\\');
        assert(uq.drop_last() =~= q.drop_last());
        assert(body(uq, verbatim) == body(q.drop_last(), verbatim));
        if u.len() == 0 && r[0] == '\\' {
            assert(r =~= p);
            assert(p.contains(p[0]));
            assert(false);
        }
        match part_of(p, verbatim) {
            Some(x) => {
                assert(body(q, verbatim) =~= body(uq, verbatim).push(x));
                assert(body(q, verbatim).drop_last() =~= body(uq, verbatim));
                r.len() - p.len()
            },
            None => {
                assert(body(q, verbatim) == body(uq, verbatim));
                let m = lemma_body_parent(u, verbatim);
                assert(u.take(m) =~= r.take(m));
                m
            },
        }
    }
}

/// A path that ends in anything but a root or a prefix begins with what is above it.
pub proof fn law_a_path_begins_with_its_parent(platform: Platform, s: Seq<char>)
    requires
        has_parent(platform, s),
    ensures
        exists|n: int| 0 <= n <= s.len() && #[trigger] names_parent(platform, s, n),
{
    match platform {
        Platform::Unix => {
            let n = lemma_plain_parent(s, '/');
            assert(names_parent(platform, s, n));
        },
        Platform::Windows => match prefix(s) {
            None => {
                let b = text::backslashed(s);
                let n = lemma_plain_parent(b, '\\');
                assert(text::backslashed(s.take(n)) =~= b.take(n));
                lemma_no_prefix_stays(s, n);
                assert(names_parent(platform, s, n));
            },
            Some(p) => {
                let r = if p.verbatim {
                    s.skip(p.len)
                } else {
                    text::backslashed(s.skip(p.len))
                };
                lemma_prefix_len(s);
                let rooted = (r.len() > 0 && r[0] == '\\') || (!p.drive && !p.verbatim);
                let front = if rooted {
                    seq![Part::Prefix(p.name), Part::Root]
                } else {
                    seq![Part::Prefix(p.name)]
                };
                let whole = body(text::pieces(r, '\\'), p.verbatim);
                assert(windows_parts(s) == front + whole);
                if whole.len() == 0 {
                    assert(front + whole =~= front);
                }
                let m = lemma_body_parent(r, p.verbatim);
                let n = p.len + m;
                lemma_prefix_stays(s, n);
                let t = s.take(n);
                let tr = if p.verbatim {
                    t.skip(p.len)
                } else {
                    text::backslashed(t.skip(p.len))
                };
                assert(tr =~= r.take(m));
                assert(windows_parts(t) == front + body(text::pieces(tr, '\\'), p.verbatim));
                assert((front + whole).drop_last() =~= front + whole.drop_last());
                assert(names_parent(platform, s, n));
            },
        },
    }
}

/// A prefix is no longer than the path it belongs to.
proof fn lemma_prefix_len(s: Seq<char>)
    ensures
        prefix(s) matches Some(p) ==> 2 <= p.len <= s.len(),
{
    let b = text::backslashed(s);
    if seq!['\\', '\\'].is_prefix_of(b) {
        if seq!['\\', '\\', '?', '\\'].is_prefix_of(s) {
            let rest = s.skip(4);
            lemma_head_take(rest, rest.len() as int, true);
            if seq!['U', 'N', 'C', '\\'].is_prefix_of(text::backslashed(rest)) {
                let tail = s.skip(8);
                lemma_head_take(tail, tail.len() as int, true);
                let next = behind(tail, true);
                lemma_head_take(next, next.len() as int, true);
            }
        } else if seq!['\\', '\\', '.', '\\'].is_prefix_of(b) {
            let rest = s.skip(4);
            lemma_head_take(rest, rest.len() as int, false);
        } else {
            let tail = s.skip(2);
            lemma_head_take(tail, tail.len() as int, false);
            let next = behind(tail, false);
            lemma_head_take(next, next.len() as int, false);
        }
    }
}

/// Whether a text is the name of a file or directory.
pub open spec fn is_name(name: Seq<char>) -> bool {
    name.len() > 0 && !name.contains('/') && name != seq!['.'] && name != seq!['.', '.']
}

/// On Unix, a name put behind a directory is the one component that the path has more.
pub proof fn law_a_joined_name_comes_last(dir: Seq<char>, name: Seq<char>)
    requires
        is_name(name),
    ensures
        parts(Platform::Unix, inside(Platform::Unix, dir, name)) == parts(
            Platform::Unix,
            dir,
        ).push(Part::Normal(name)),
{
    let s = inside(Platform::Unix, dir, name);
    let u = s.take(s.len() - name.len());
    let v = if needs_separator(Platform::Unix, dir) {
        dir.push('/')
    } else {
        dir
    };
    assert(s =~= v + name);
    assert(u =~= v);
    assert(u.len() > 0 ==> u.last() == '/');
    lemma_last_piece(s, '/');
    let q = text::pieces(s, '/');
    let p = q.last();
    let w = s.take(s.len() - p.len());
    if p.len() < name.len() {
        let k = w.len() - 1 - u.len();
        assert(w.last() == '/');
        assert(name[k] == s[u.len() + k]);
        assert(name.contains(name[k]));
        assert(false);
    }
    if p.len() > name.len() {
        let k = u.len() - 1 - w.len();
        assert(p[k] == s[w.len() + k]);
        assert(p.contains(p[k]));
        assert(false);
    }
    assert(w =~= u);
    assert forall|k: int| 0 <= k < name.len() implies p[k] == name[k] by {
        assert((w + p)[w.len() + k] == (v + name)[v.len() + k]);
    }
    assert(p =~= name);
    let uq = text::pieces(u, '/');
    assert(uq.drop_last() =~= q.drop_last());
    assert(body(uq, false) == body(q.drop_last(), false));
    if needs_separator(Platform::Unix, dir) {
        lemma_push_separator(dir, '/');
        assert(uq.drop_last() =~= text::pieces(dir, '/'));
    } else {
        assert(u =~= dir);
    }
    assert(body(uq, false) == body(text::pieces(dir, '/'), false));
    assert(part_of(name, false) == Some(Part::Normal(name)));
    if dir.len() == 0 {
        assert(s =~= name);
        assert(name.contains(name[0]));
        if name.len() > 1 {
            assert(name.contains(name[1]));
        }
        if dotted(s, '/') {
            assert(name =~= seq!['.']);
        }
    } else {
        assert(s[0] == dir[0]);
        if dir[0] == '.' && dir.len() > 1 {
            assert(s[1] == dir[1]);
        }
        assert(dotted(s, '/') == dotted(dir, '/'));
    }
    assert(parts(Platform::Unix, s) =~= parts(Platform::Unix, dir).push(Part::Normal(name)));
}

/// A component of a path, as executable code holds it.
#[derive(Debug)]
pub enum Component {
    Prefix(Vec<char>),
    Root,
    Cur,
    Parent,
    Normal(Vec<char>),
}

impl View for Component {
    type V = Part;

    open spec fn view(&self) -> Part {
        match self {
            Component::Prefix(name) => Part::Prefix(name@),
            Component::Root => Part::Root,
            Component::Cur => Part::Cur,
            Component::Parent => Part::Parent,
            Component::Normal(name) => Part::Normal(name@),
        }
    }
}

/// What some components stand for.
pub open spec fn views(list: Seq<Component>) -> Seq<Part> {
    Seq::new(list.len(), |i: int| list[i]@)
}

/// The components that the pieces between separators stand for, put behind `out`.
fn add_body(out: &mut Vec<Component>, pieces: &Vec<Vec<char>>, verbatim: bool)
    ensures
        views(final(out)@) == views(old(out)@) + body(text::views(pieces@), verbatim),
{
    let mut i: usize = 0;
    let ghost all = text::views(pieces@);
    let ghost base = views(out@);
    assert(views(out@) =~= base + body(all.take(0), verbatim));
    while i < pieces.len()
        invariant
            i <= pieces@.len(),
            all == text::views(pieces@),
            views(out@) == base + body(all.take(i as int), verbatim),
        decreases pieces@.len() - i,
    {
        let piece: &[char] = pieces[i].as_slice();
        let ghost before = views(out@);
        proof {
            assert(all.take(i + 1).drop_last() =~= all.take(i as int));
            assert(all.take(i + 1).last() == piece@);
        }
        if piece.len() == 0 {
        } else if piece.len() == 1 && piece[0] == '.' {
            assert(piece@ =~= seq!['.']);
            if verbatim {
                out.push(Component::Cur);
                assert(views(out@) =~= before.push(Part::Cur));
            }
        } else if piece.len() == 2 && piece[0] == '.' && piece[1] == '.' {
            assert(piece@ =~= seq!['.', '.']);
            out.push(Component::Parent);
            assert(views(out@) =~= before.push(Part::Parent));
        } else {
            proof {
                assert(seq!['.'].len() == 1 && seq!['.'][0] == '.');
                assert(seq!['.', '.'].len() == 2 && seq!['.', '.'][0] == '.' && seq!['.', '.'][1]
                    == '.');
            }
            let name: Vec<char> = vstd::slice::slice_to_vec(piece);
            assert(name@ =~= piece@);
            out.push(Component::Normal(name));
            assert(views(out@) =~= before.push(Part::Normal(piece@)));
        }
        i += 1;
        assert(views(out@) =~= base + body(all.take(i as int), verbatim));
    }
    assert(all.take(i as int) =~= all);
}

/// The components of a path with one separator and no prefix.
fn plain_components(s: &[char], sep: char) -> (r: Vec<Component>)
    ensures
        views(r@) == plain_parts(s@, sep),
{
    let mut out: Vec<Component> = Vec::new();
    if s.len() > 0 && s[0] == sep {
        out.push(Component::Root);
        assert(views(out@) =~= seq![Part::Root]);
    } else if s.len() > 0 && s[0] == '.' && (s.len() == 1 || s[1] == sep) {
        out.push(Component::Cur);
        assert(views(out@) =~= seq![Part::Cur]);
    }
    let pieces: Vec<Vec<char>> = text::split(s, sep);
    let ghost front = views(out@);
    add_body(&mut out, &pieces, false);
    assert(out@.len() == views(out@).len());
    assert(views(out@) =~= plain_parts(s@, sep));
    out
}

/// Whether a text begins with the letter of a drive and a colon.
fn starts_with_drive(s: &[char]) -> (r: bool)
    ensures
        r == has_drive(s@),
{
    s.len() >= 2 && (('a' <= s[0] && s[0] <= 'z') || ('A' <= s[0] && s[0] <= 'Z')) && s[1] == ':'
}

/// A letter of the English alphabet in upper case.
fn to_upper(c: char) -> (r: char)
    ensures
        r == upper(c),
{
    if 'a' <= c && c <= 'z' {
        ((c as u8) - 32) as char
    } else {
        c
    }
}

/// How long the text in front of the first separator is.
fn head_len(s: &[char], verbatim: bool) -> (r: usize)
    ensures
        r == head(s@, verbatim).len(),
        r <= s@.len(),
        head(s@, verbatim) == s@.take(r as int),
{
    if verbatim {
        text::find(s, '\\')
    } else {
        let b: Vec<char> = text::to_backslashes(s);
        text::find(b.as_slice(), '\\')
    }
}

/// The text from a position on.
fn from(s: &[char], i: usize) -> (r: &[char])
    ensures
        i <= s@.len() ==> r@ == s@.skip(i as int),
        i > s@.len() ==> r@.len() == 0,
{
    if i <= s.len() {
        let r: &[char] = vstd::slice::slice_subrange(s, i, s.len());
        assert(r@ =~= s@.skip(i as int));
        r
    } else {
        vstd::slice::slice_subrange(s, s.len(), s.len())
    }
}

/// The prefix of a Windows path, as executable code holds it.
struct Found {
    name: Vec<char>,
    len: usize,
    verbatim: bool,
    drive: bool,
}

/// Whether what was found is the prefix of a path.
spec fn agrees(found: Option<Found>, s: Seq<char>) -> bool {
    match found {
        None => prefix(s) is None,
        Some(f) => prefix(s) matches Some(p) && p.name == f.name@ && p.len == f.len && p.verbatim
            == f.verbatim && p.drive == f.drive && f.len <= s.len(),
    }
}

/// Two names at the front of a text, the second behind a separator where there is one, and how
/// much of the text they take.
fn find_pair(s: &[char], verbatim: bool) -> (r: (Vec<char>, usize, bool))
    ensures
        r.0@ == pair(head(s@, verbatim), head(behind(s@, verbatim), verbatim)),
        r.0@.len() == r.1 <= s@.len(),
        r.2 == (head(s@, verbatim).len() > 0 && head(behind(s@, verbatim), verbatim).len() > 0),
{
    let n: usize = head_len(s, verbatim);
    let mut name: Vec<char> = vstd::slice::slice_to_vec(vstd::slice::slice_subrange(s, 0, n));
    assert(name@ =~= s@.take(n as int));
    if n < s.len() {
        let rest: &[char] = from(s, n + 1);
        let m: usize = head_len(rest, verbatim);
        if m > 0 {
            name.push('\\');
            text::extend(&mut name, vstd::slice::slice_subrange(rest, 0, m));
            assert(rest@.subrange(0, m as int) =~= rest@.take(m as int));
            return (name, n + 1 + m, n > 0);
        }
    } else {
        assert(behind(s@, verbatim) =~= Seq::<char>::empty());
        proof {
            text::lemma_first_of(Seq::<char>::empty(), '\\');
            text::lemma_first_of(text::backslashed(Seq::<char>::empty()), '\\');
        }
        assert(head(behind(s@, verbatim), verbatim).len() == 0);
    }
    (name, n, false)
}

/// The prefix that two separators begin.
fn find_long_prefix(s: &[char]) -> (r: Option<Found>)
    requires
        seq!['\\', '\\'].is_prefix_of(text::backslashed(s@)),
    ensures
        agrees(r, s@),
{
    let b: Vec<char> = text::to_backslashes(s);
    let total: usize = s.len();
    let verbatim: [char; 4] = ['\\', '\\', '?', '\\'];
    assert(verbatim@ =~= seq!['\\', '\\', '?', '\\']);
    let device: [char; 4] = ['\\', '\\', '.', '\\'];
    assert(device@ =~= seq!['\\', '\\', '.', '\\']);
    if text::starts_with(s, &verbatim) {
        let rest: &[char] = from(s, 4);
        let flat: Vec<char> = text::to_backslashes(rest);
        let unc: [char; 4] = ['U', 'N', 'C', '\\'];
        assert(unc@ =~= seq!['U', 'N', 'C', '\\']);
        let mut name: Vec<char> = vstd::slice::slice_to_vec(&verbatim);
        assert(name@ =~= verbatim@);
        if text::starts_with(flat.as_slice(), &unc) {
            let tail: &[char] = from(s, 8);
            assert(flat@.len() == total - 4 && tail@.len() == total - 8);
            let (names, len, _) = find_pair(tail, true);
            text::extend(&mut name, &unc);
            text::extend(&mut name, names.as_slice());
            assert(name@ =~= seq!['\\', '\\', '?', '\\', 'U', 'N', 'C', '\\'] + names@);
            Some(Found { name, len: 8 + len, verbatim: true, drive: false })
        } else if starts_with_drive(rest) && (rest.len() == 2 || flat[2] == '\\') {
            name.push(to_upper(rest[0]));
            name.push(':');
            assert(name@ =~= seq!['\\', '\\', '?', '\\', upper(rest@[0]), ':']);
            Some(Found { name, len: 6, verbatim: true, drive: false })
        } else {
            let n: usize = head_len(rest, true);
            assert(rest@.len() == total - 4);
            text::extend(&mut name, vstd::slice::slice_subrange(rest, 0, n));
            assert(rest@.subrange(0, n as int) =~= rest@.take(n as int));
            Some(Found { name, len: 4 + n, verbatim: true, drive: false })
        }
    } else if text::starts_with(b.as_slice(), &device) {
        let rest: &[char] = from(s, 4);
        let n: usize = head_len(rest, false);
        let mut name: Vec<char> = vstd::slice::slice_to_vec(&device);
        assert(name@ =~= device@);
        text::extend(&mut name, vstd::slice::slice_subrange(rest, 0, n));
        assert(rest@.subrange(0, n as int) =~= rest@.take(n as int));
        Some(Found { name, len: 4 + n, verbatim: false, drive: false })
    } else {
        let rest: &[char] = from(s, 2);
        let (names, len, both) = find_pair(rest, false);
        if !both {
            return None;
        }
        let mut name: Vec<char> = Vec::new();
        name.push('\\');
        name.push('\\');
        text::extend(&mut name, names.as_slice());
        assert(name@ =~= seq!['\\', '\\'] + names@);
        Some(Found { name, len: 2 + len, verbatim: false, drive: false })
    }
}

/// The prefix of a Windows path, if it has one.
fn find_prefix(s: &[char]) -> (r: Option<Found>)
    ensures
        agrees(r, s@),
{
    let b: Vec<char> = text::to_backslashes(s);
    let two: [char; 2] = ['\\', '\\'];
    assert(two@ =~= seq!['\\', '\\']);
    if text::starts_with(b.as_slice(), &two) {
        find_long_prefix(s)
    } else if starts_with_drive(s) {
        let mut name: Vec<char> = Vec::new();
        name.push(to_upper(s[0]));
        name.push(':');
        assert(name@ =~= seq![upper(s@[0]), ':']);
        Some(Found { name, len: 2, verbatim: false, drive: true })
    } else {
        None
    }
}

/// The components of a Windows path.
fn windows_components(s: &[char]) -> (r: Vec<Component>)
    ensures
        views(r@) == windows_parts(s@),
{
    match find_prefix(s) {
        None => {
            let b: Vec<char> = text::to_backslashes(s);
            plain_components(b.as_slice(), '\\')
        },
        Some(f) => {
            let tail: &[char] = from(s, f.len);
            let rest: Vec<char> = if f.verbatim {
                vstd::slice::slice_to_vec(tail)
            } else {
                text::to_backslashes(tail)
            };
            proof {
                if f.verbatim {
                    assert(rest@ =~= tail@);
                }
            }
            let mut out: Vec<Component> = Vec::new();
            let ghost name = f.name@;
            out.push(Component::Prefix(f.name));
            assert(views(out@) =~= seq![Part::Prefix(name)]);
            if (rest.len() > 0 && rest[0] == '\\') || (!f.drive && !f.verbatim) {
                out.push(Component::Root);
                assert(views(out@) =~= seq![Part::Prefix(name), Part::Root]);
            }
            let pieces: Vec<Vec<char>> = text::split(rest.as_slice(), '\\');
            add_body(&mut out, &pieces, f.verbatim);
            out
        },
    }
}

/// The components of a path.
pub fn components(platform: Platform, s: &[char]) -> (r: Vec<Component>)
    ensures
        views(r@) == parts(platform, s@),
{
    match platform {
        Platform::Unix => plain_components(s, '/'),
        Platform::Windows => windows_components(s),
    }
}

/// Whether two components are the same.
fn same_component(a: &Component, b: &Component) -> (r: bool)
    ensures
        r == (a@ == b@),
{
    match (a, b) {
        (Component::Prefix(x), Component::Prefix(y)) => text::same(x.as_slice(), y.as_slice()),
        (Component::Normal(x), Component::Normal(y)) => text::same(x.as_slice(), y.as_slice()),
        (Component::Root, Component::Root) => true,
        (Component::Cur, Component::Cur) => true,
        (Component::Parent, Component::Parent) => true,
        _ => false,
    }
}

/// Whether the first `n` components of two paths are the same.
fn same_front(a: &Vec<Component>, b: &Vec<Component>, n: usize) -> (r: bool)
    requires
        n <= a@.len(),
        n <= b@.len(),
    ensures
        r == (views(a@).take(n as int) == views(b@).take(n as int)),
{
    let mut i: usize = 0;
    while i < n
        invariant
            i <= n,
            n <= a@.len(),
            n <= b@.len(),
            forall|j: int| 0 <= j < i ==> views(a@)[j] == views(b@)[j],
        decreases n - i,
    {
        if !same_component(&a[i], &b[i]) {
            assert(views(a@).take(n as int)[i as int] != views(b@).take(n as int)[i as int]);
            return false;
        }
        i += 1;
    }
    assert(views(a@).take(n as int) =~= views(b@).take(n as int));
    true
}

/// Whether two paths are the same by their components.
pub fn same_path(platform: Platform, a: &[char], b: &[char]) -> (r: bool)
    ensures
        r == (parts(platform, a@) == parts(platform, b@)),
{
    let x: Vec<Component> = components(platform, a);
    let y: Vec<Component> = components(platform, b);
    proof {
        assert(views(x@).take(x@.len() as int) =~= views(x@));
        assert(views(y@).take(y@.len() as int) =~= views(y@));
    }
    x.len() == y.len() && same_front(&x, &y, x.len())
}

/// The name a path ends in, if it ends in one.
pub fn file_name(platform: Platform, s: &[char]) -> (r: Option<Vec<char>>)
    ensures
        r is Some <==> last_name(platform, s@) is Some,
        r matches Some(name) ==> last_name(platform, s@) == Some(name@),
{
    let mut list: Vec<Component> = components(platform, s);
    assert(views(list@).len() == list@.len());
    match list.pop() {
        Some(Component::Normal(name)) => Some(name),
        _ => None,
    }
}

/// What is above a path, if anything is.
pub fn parent(platform: Platform, s: &[char]) -> (r: Option<&[char]>)
    ensures
        r is Some <==> has_parent(platform, s@),
        r matches Some(dir) ==> above(platform, s@) == Some(dir@) && names_parent(
            platform,
            s@,
            dir@.len() as int,
        ) && dir@ == s@.take(dir@.len() as int),
{
    let list: Vec<Component> = components(platform, s);
    let count: usize = list.len();
    let ghost whole = parts(platform, s@);
    assert(whole.len() == list@.len());
    if count == 0 {
        return None;
    }
    assert(whole.last() == list@[list@.len() - 1]@);
    match &list[list.len() - 1] {
        Component::Root => {
            return None;
        },
        Component::Prefix(_) => {
            return None;
        },
        _ => {},
    }
    let mut n: usize = 0;
    while n <= s.len()
        invariant_except_break
            n <= s@.len(),
        invariant
            views(list@) == whole,
            whole == parts(platform, s@),
            has_parent(platform, s@),
            count == list@.len(),
            count > 0,
            forall|k: int| 0 <= k < n ==> !#[trigger] names_parent(platform, s@, k),
        ensures
            forall|k: int| 0 <= k <= s@.len() ==> !#[trigger] names_parent(platform, s@, k),
        decreases s@.len() + 1 - n,
    {
        let dir: &[char] = vstd::slice::slice_subrange(s, 0, n);
        assert(dir@ =~= s@.take(n as int));
        let above: Vec<Component> = components(platform, dir);
        proof {
            assert(views(above@).len() == above@.len());
            assert(views(list@).take(list@.len() - 1) =~= whole.drop_last());
            assert(views(above@).take(above@.len() as int) =~= views(above@));
        }
        if above.len() == count - 1 && same_front(&above, &list, above.len()) {
            proof {
                assert(is_parent_len(platform, s@, n as int));
                let m = choose|m: int| is_parent_len(platform, s@, m);
                assert(is_parent_len(platform, s@, m));
                if m < n {
                    assert(names_parent(platform, s@, m));
                } else if n < m {
                    assert(names_parent(platform, s@, n as int));
                }
            }
            return Some(dir);
        }
        assert(!names_parent(platform, s@, n as int));
        if n == s.len() {
            break ;
        }
        n += 1;
    }
    proof {
        law_a_path_begins_with_its_parent(platform, s@);
    }
    None
}

/// A component once more.
fn copied(c: &Component) -> (r: Component)
    ensures
        r@ == c@,
{
    match c {
        Component::Prefix(name) => Component::Prefix(vstd::slice::slice_to_vec(name.as_slice())),
        Component::Root => Component::Root,
        Component::Cur => Component::Cur,
        Component::Parent => Component::Parent,
        Component::Normal(name) => Component::Normal(vstd::slice::slice_to_vec(name.as_slice())),
    }
}

/// Puts the components of a relative name behind those of a verbatim path.
fn follow(list: &mut Vec<Component>, more: &Vec<Component>)
    ensures
        views(final(list)@) == followed(views(old(list)@), views(more@)),
{
    let ghost first = views(list@);
    let ghost all = views(more@);
    let mut i: usize = 0;
    assert(all.take(0) =~= Seq::<Part>::empty());
    while i < more.len()
        invariant
            i <= more@.len(),
            all == views(more@),
            views(list@) == followed(first, all.take(i as int)),
        decreases more@.len() - i,
    {
        let ghost before = views(list@);
        proof {
            assert(all.take(i + 1).drop_last() =~= all.take(i as int));
            assert(all.take(i + 1).last() == more@[i as int]@);
            assert(before.len() == list@.len());
        }
        match &more[i] {
            Component::Cur => {},
            Component::Parent => {
                let pops: bool = list.len() > 0 && match &list[list.len() - 1] {
                    Component::Normal(_) => true,
                    _ => false,
                };
                if pops {
                    assert(before.last() == list@[list@.len() - 1]@);
                    list.pop();
                    assert(views(list@) =~= before.drop_last());
                } else if list.len() > 0 {
                    assert(before.last() == list@[list@.len() - 1]@);
                }
            },
            c => {
                list.push(copied(c));
                assert(views(list@) =~= before.push(more@[i as int]@));
            },
        }
        i += 1;
    }
    assert(all.take(i as int) =~= all);
}

/// Writes a path anew out of its components, the first of which is a prefix.
fn rebuild(start: &[char], list: &Vec<Component>) -> (r: Vec<char>)
    ensures
        r@ == rebuilt(start@, views(list@)),
{
    let ghost all = views(list@);
    let mut out: Vec<char> = vstd::slice::slice_to_vec(start);
    assert(out@ =~= start@);
    if list.len() == 0 {
        return out;
    }
    let mut i: usize = 1;
    while i < list.len()
        invariant
            1 <= i <= list@.len(),
            all == views(list@),
            out@ == rebuilt(start@, all.take(i as int)),
        decreases list@.len() - i,
    {
        let ghost before = out@;
        proof {
            assert(all.take(i + 1).drop_last() =~= all.take(i as int));
            assert(all.take(i + 1).last() == list@[i as int]@);
            assert(all.take(i + 1)[i - 1] == list@[i - 1]@);
        }
        let is_root: bool = match &list[i] {
            Component::Root => true,
            _ => false,
        };
        let behind_root: bool = match &list[i - 1] {
            Component::Root => true,
            _ => false,
        };
        if !is_root && !behind_root {
            out.push('\\');
        }
        match &list[i] {
            Component::Prefix(name) => text::extend(&mut out, name.as_slice()),
            Component::Root => out.push('\\'),
            Component::Cur => out.push('.'),
            Component::Parent => {
                out.push('.');
                out.push('.');
            },
            Component::Normal(name) => text::extend(&mut out, name.as_slice()),
        }
        i += 1;
        assert(out@ =~= rebuilt(start@, all.take(i as int)));
    }
    assert(all.take(i as int) =~= all);
    out
}

/// A relative name behind a directory.
pub fn join(platform: Platform, dir: &[char], name: &[char]) -> (r: Vec<char>)
    requires
        relative(platform, name@),
    ensures
        r@ == inside(platform, dir@, name@),
{
    let mut out: Vec<char> = vstd::slice::slice_to_vec(dir);
    assert(out@ =~= dir@);
    match platform {
        Platform::Unix => {
            if dir.len() > 0 && dir[dir.len() - 1] != '/' {
                out.push('/');
            }
        },
        Platform::Windows => {
            match find_prefix(dir) {
                Some(f) if f.verbatim && name.len() > 0 => {
                    let mut list: Vec<Component> = windows_components(dir);
                    follow(&mut list, &windows_components(name));
                    let start: &[char] = vstd::slice::slice_subrange(dir, 0, f.len);
                    assert(start@ =~= dir@.take(f.len as int));
                    return rebuild(start, &list);
                },
                _ => {},
            }
            let flat: Vec<char> = text::to_backslashes(dir);
            if dir.len() > 0 && flat[flat.len() - 1] != '\\' && !(dir.len() == 2
                && starts_with_drive(dir)) {
                out.push('\\');
            }
        },
    }
    text::extend(&mut out, name);
    out
}

} // verus!
