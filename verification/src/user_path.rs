//! The user's search path in the Windows registry, and how a directory is added to it.
//!
//! The path is kept in UTF-16 units throughout: a value that is not proper Unicode comes back as it
//! was.

use vstd::prelude::*;

use crate::cli_install;
use crate::cli_install::Outcome;
use crate::registry;
use crate::text;

verus! {

pub const SEMICOLON: u16 = 59;

pub const BACKSLASH: u16 = 92;

/// The entries of a search path, of which there is always at least one.
pub open spec fn entries(s: Seq<u16>) -> Seq<Seq<u16>>
    decreases s.len(),
{
    if s.len() == 0 {
        seq![seq![]]
    } else {
        let front = entries(s.drop_last());
        if s.last() == SEMICOLON {
            front.push(seq![])
        } else {
            front.drop_last().push(front.last().push(s.last()))
        }
    }
}

/// The units without those at the end that are `c`.
pub open spec fn trimmed(s: Seq<u16>, c: u16) -> Seq<u16>
    decreases s.len(),
{
    if s.len() > 0 && s.last() == c {
        trimmed(s.drop_last(), c)
    } else {
        s
    }
}

/// A letter of the English alphabet in lower case; every other unit as it is.
pub open spec fn fold(c: u16) -> u16 {
    if 65 <= c <= 90 {
        (c + 32) as u16
    } else {
        c
    }
}

/// Units with the letters of the English alphabet in lower case.
pub open spec fn folded(s: Seq<u16>) -> Seq<u16> {
    Seq::new(s.len(), |i: int| fold(s[i]))
}

/// Whether two entries are the same directory, whatever the case of the letters and with or
/// without backslashes at the end.
pub open spec fn same_entry(a: Seq<u16>, b: Seq<u16>) -> bool {
    folded(trimmed(a, BACKSLASH)) == folded(trimmed(b, BACKSLASH))
}

/// Whether a search path lists a directory.
pub open spec fn lists(s: Seq<u16>, dir: Seq<u16>) -> bool {
    exists|i: int| 0 <= i < entries(s).len() && same_entry(#[trigger] entries(s)[i], dir)
}

/// A search path with a directory behind it. The separators at its end are dropped: an empty entry
/// stands for the current directory to some programs.
pub open spec fn appended(s: Seq<u16>, dir: Seq<u16>) -> Seq<u16> {
    let head = trimmed(s, SEMICOLON);
    if head.len() == 0 {
        dir
    } else {
        head.push(SEMICOLON) + dir
    }
}

/// What some vectors of units hold.
pub open spec fn views(list: Seq<Vec<u16>>) -> Seq<Seq<u16>> {
    Seq::new(list.len(), |i: int| list[i]@)
}

/// There is always an entry.
proof fn lemma_entries(s: Seq<u16>)
    ensures
        entries(s).len() > 0,
    decreases s.len(),
{
    if s.len() > 0 {
        lemma_entries(s.drop_last());
    }
}

/// The entries of a search path.
fn split(s: &[u16]) -> (r: Vec<Vec<u16>>)
    ensures
        views(r@) == entries(s@),
{
    let mut out: Vec<Vec<u16>> = Vec::new();
    let mut last: Vec<u16> = Vec::new();
    let mut i: usize = 0;
    assert(s@.take(0) =~= Seq::<u16>::empty());
    assert(last@ =~= Seq::<u16>::empty());
    assert(views(out@).push(last@) =~= entries(s@.take(0)));
    while i < s.len()
        invariant
            i <= s@.len(),
            views(out@).push(last@) == entries(s@.take(i as int)),
        decreases s@.len() - i,
    {
        let c: u16 = s[i];
        let ghost front = entries(s@.take(i as int));
        let ghost before = views(out@);
        let ghost piece = last@;
        proof {
            assert(s@.take(i + 1).drop_last() =~= s@.take(i as int));
            assert(s@.take(i + 1).last() == c);
            assert(front.drop_last() =~= before);
            assert(front.last() == piece);
        }
        if c == SEMICOLON {
            out.push(last);
            last = Vec::new();
            assert(last@ =~= Seq::<u16>::empty());
            assert(views(out@) =~= before.push(piece));
        } else {
            last.push(c);
        }
        i += 1;
        assert(views(out@).push(last@) =~= entries(s@.take(i as int)));
    }
    assert(s@.take(i as int) =~= s@);
    let ghost before = views(out@);
    let ghost piece = last@;
    out.push(last);
    assert(views(out@) =~= before.push(piece));
    out
}

/// The units without those at the end that are `c`.
fn trim_trailing(s: &[u16], c: u16) -> (r: &[u16])
    ensures
        r@ == trimmed(s@, c),
{
    let mut n: usize = s.len();
    assert(s@.take(n as int) =~= s@);
    while n > 0 && s[n - 1] == c
        invariant
            n <= s@.len(),
            trimmed(s@.take(n as int), c) == trimmed(s@, c),
        decreases n,
    {
        assert(s@.take(n as int).drop_last() =~= s@.take(n - 1));
        n -= 1;
    }
    let r: &[u16] = vstd::slice::slice_subrange(s, 0, n);
    assert(r@ =~= s@.take(n as int));
    r
}

/// A letter of the English alphabet in lower case.
fn to_folded(c: u16) -> (r: u16)
    ensures
        r == fold(c),
{
    if 65 <= c && c <= 90 {
        c + 32
    } else {
        c
    }
}

/// Whether two entries are the same directory.
fn is_same_entry(a: &[u16], b: &[u16]) -> (r: bool)
    ensures
        r == same_entry(a@, b@),
{
    let x: &[u16] = trim_trailing(a, BACKSLASH);
    let y: &[u16] = trim_trailing(b, BACKSLASH);
    if x.len() != y.len() {
        assert(folded(x@).len() != folded(y@).len());
        return false;
    }
    let mut i: usize = 0;
    while i < x.len()
        invariant
            i <= x@.len(),
            x@ == trimmed(a@, BACKSLASH),
            y@ == trimmed(b@, BACKSLASH),
            x@.len() == y@.len(),
            forall|k: int| 0 <= k < i ==> fold(x@[k]) == fold(y@[k]),
        decreases x@.len() - i,
    {
        if to_folded(x[i]) != to_folded(y[i]) {
            assert(folded(x@)[i as int] != folded(y@)[i as int]);
            return false;
        }
        i += 1;
    }
    assert(folded(x@) =~= folded(y@));
    true
}

/// Puts units behind others.
fn extend(out: &mut Vec<u16>, more: &[u16])
    ensures
        final(out)@ == old(out)@ + more@,
{
    let mut i: usize = 0;
    assert(out@ =~= old(out)@ + more@.take(0));
    while i < more.len()
        invariant
            i <= more@.len(),
            out@ == old(out)@ + more@.take(i as int),
        decreases more@.len() - i,
    {
        out.push(more[i]);
        i += 1;
        assert(out@ =~= old(out)@ + more@.take(i as int));
    }
    assert(more@.take(i as int) =~= more@);
}

/// The search path with a directory behind it, or `None` where it is listed already.
pub fn user_path_with_dir(existing: &[u16], dir: &[u16]) -> (r: Option<Vec<u16>>)
    ensures
        r is None <==> lists(existing@, dir@),
        r matches Some(new) ==> new@ == appended(existing@, dir@),
{
    let list: Vec<Vec<u16>> = split(existing);
    let ghost all = entries(existing@);
    let mut i: usize = 0;
    while i < list.len()
        invariant
            i <= list@.len(),
            all == views(list@),
            all == entries(existing@),
            forall|k: int| 0 <= k < i ==> !same_entry(#[trigger] all[k], dir@),
        decreases list@.len() - i,
    {
        assert(all[i as int] == list@[i as int]@);
        if is_same_entry(list[i].as_slice(), dir) {
            return None;
        }
        i += 1;
    }
    let head: &[u16] = trim_trailing(existing, SEMICOLON);
    let mut out: Vec<u16> = vstd::slice::slice_to_vec(head);
    assert(out@ =~= head@);
    if head.len() > 0 {
        out.push(SEMICOLON);
    }
    extend(&mut out, dir);
    assert(out@ =~= appended(existing@, dir@));
    Some(out)
}

/// Units that are no separators belong to the last entry.
proof fn lemma_last_entry(s: Seq<u16>, dir: Seq<u16>)
    requires
        !dir.contains(SEMICOLON),
    ensures
        entries(s + dir) == entries(s).drop_last().push(entries(s).last() + dir),
    decreases dir.len(),
{
    lemma_entries(s);
    if dir.len() == 0 {
        assert(s + dir =~= s);
        assert(entries(s).last() + dir =~= entries(s).last());
        assert(entries(s).drop_last().push(entries(s).last()) =~= entries(s));
    } else {
        let front = dir.drop_last();
        assert(dir.contains(dir[dir.len() - 1]));
        assert forall|c: u16| front.contains(c) implies dir.contains(c) by {
            let k = choose|k: int| 0 <= k < front.len() && front[k] == c;
            assert(dir[k] == c);
        }
        lemma_last_entry(s, front);
        assert((s + dir).drop_last() =~= s + front);
        let before = entries(s).drop_last().push(entries(s).last() + front);
        assert(before.drop_last() =~= entries(s).drop_last());
        assert((entries(s).last() + front).push(dir.last()) =~= entries(s).last() + dir);
    }
}

/// The separators at the end bring empty entries and nothing else.
proof fn lemma_trimmed_entries(s: Seq<u16>)
    ensures
        trimmed(s, SEMICOLON).is_prefix_of(s),
        entries(trimmed(s, SEMICOLON)).is_prefix_of(entries(s)),
        forall|i: int|
            entries(trimmed(s, SEMICOLON)).len() <= i < entries(s).len() ==> (#[trigger] entries(
                s,
            )[i]).len() == 0,
    decreases s.len(),
{
    if s.len() > 0 && s.last() == SEMICOLON {
        lemma_trimmed_entries(s.drop_last());
        let t = trimmed(s, SEMICOLON);
        let front = entries(s.drop_last());
        assert forall|i: int| entries(t).len() <= i < entries(s).len() implies (
        #[trigger] entries(s)[i]).len() == 0 by {
            if i < front.len() {
                assert(entries(s)[i] == front[i]);
            }
        }
    }
}

/// The directory that is added comes behind all the entries, of which only empty ones at the end
/// are lost.
pub proof fn law_the_entries_stay(s: Seq<u16>, dir: Seq<u16>)
    requires
        !dir.contains(SEMICOLON),
        trimmed(s, SEMICOLON).len() > 0,
    ensures
        ({
            let kept = entries(trimmed(s, SEMICOLON));
            &&& entries(appended(s, dir)) == kept.push(dir)
            &&& kept.is_prefix_of(entries(s))
            &&& forall|i: int|
                kept.len() <= i < entries(s).len() ==> (#[trigger] entries(s)[i]).len() == 0
        }),
{
    let head = trimmed(s, SEMICOLON);
    lemma_trimmed_entries(s);
    let open = head.push(SEMICOLON);
    assert(open.drop_last() =~= head);
    lemma_last_entry(open, dir);
    let none = Seq::<u16>::empty();
    assert(entries(open) == entries(head).push(none));
    assert(entries(open).drop_last() =~= entries(head));
    assert(none + dir =~= dir);
}

/// A search path that does not end in a separator is kept unit for unit.
pub proof fn law_the_path_is_kept_unit_for_unit(s: Seq<u16>, dir: Seq<u16>)
    requires
        s.len() > 0,
        s.last() != SEMICOLON,
    ensures
        appended(s, dir) == s.push(SEMICOLON) + dir,
{
}

/// A directory that was added is listed from then on, whatever the case of its letters and with or
/// without backslashes at its end, so it is not added again.
pub proof fn law_a_directory_is_added_once(s: Seq<u16>, dir: Seq<u16>, again: Seq<u16>)
    requires
        !dir.contains(SEMICOLON),
        same_entry(dir, again),
    ensures
        lists(appended(s, dir), again),
{
    let new = appended(s, dir);
    if trimmed(s, SEMICOLON).len() > 0 {
        law_the_entries_stay(s, dir);
    } else {
        let none = Seq::<u16>::empty();
        lemma_last_entry(none, dir);
        assert(none + dir =~= dir);
        assert(entries(none) =~= seq![none]);
        assert(entries(none).last() + dir =~= dir);
        assert(entries(new) =~= seq![dir]);
    }
    lemma_entries(new);
    let k = entries(new).len() - 1;
    assert(entries(new)[k] == dir);
    assert(same_entry(entries(new)[k], again));
}

/// What the registry holds of the user's search path: nothing, or a value of some type, perhaps
/// with zeros at its end.
pub open spec fn held(kind: Option<u32>, raw: Seq<u16>) -> Seq<u16> {
    if kind is None {
        seq![]
    } else {
        trimmed(raw, 0)
    }
}

/// The type and the units to be written back, with a zero at the end, or `None` where the
/// directory is listed already. A value whose references are expanded stays one; every other, and
/// a new one, is plain text.
pub fn registry_update(kind: Option<u32>, raw: &[u16], dir: &[u16]) -> (r: Option<(u32, Vec<u16>)>)
    ensures
        r is None <==> lists(held(kind, raw@), dir@),
        r matches Some((k, new)) ==> new@ == appended(held(kind, raw@), dir@).push(0) && k == (
        if kind == Some(registry::REG_EXPAND_SZ) {
            registry::REG_EXPAND_SZ
        } else {
            registry::REG_SZ
        }),
{
    let none: Vec<u16> = Vec::new();
    assert(none@ =~= Seq::<u16>::empty());
    let existing: &[u16] = if kind.is_none() {
        none.as_slice()
    } else {
        trim_trailing(raw, 0)
    };
    match user_path_with_dir(existing, dir) {
        None => None,
        Some(new) => {
            let mut units: Vec<u16> = new;
            units.push(0);
            let k: u32 = match kind {
                Some(k) => if k == registry::REG_EXPAND_SZ {
                    registry::REG_EXPAND_SZ
                } else {
                    registry::REG_SZ
                },
                None => registry::REG_SZ,
            };
            Some((k, units))
        },
    }
}

/// Where an installation in the registry ended.
#[derive(Clone, Copy, Debug, PartialEq, Eq, Structural)]
pub enum RegistryEnd {
    /// The command is in no directory.
    NoDirectory,
    /// The key could not be opened.
    Unopened,
    /// The value could not be read.
    Unread,
    /// The directory is listed already.
    Listed,
    /// The value could not be written.
    Unwritten,
    /// The value was written.
    Written,
}

/// The report of an installation in the registry.
pub open spec fn reported(cli: Seq<char>, end: RegistryEnd) -> cli_install::Report {
    match end {
        RegistryEnd::NoDirectory => cli_install::Report::Failed(
            "the CLI has no parent directory"@,
        ),
        RegistryEnd::Unopened => cli_install::Report::Failed("could not open HKCU\\Environment"@),
        RegistryEnd::Unread => cli_install::Report::Failed("could not read the user PATH"@),
        RegistryEnd::Listed => cli_install::Report::AlreadyInstalled(cli),
        RegistryEnd::Unwritten => cli_install::Report::Failed("could not write the user PATH"@),
        RegistryEnd::Written => cli_install::Report::Installed(cli),
    }
}

/// A text as a string.
fn owned(s: &str) -> (r: String)
    ensures
        r@ == s@,
{
    text::text_of(text::chars_of(s).as_slice())
}

/// The outcome of an installation in the registry.
pub fn registry_outcome(cli: &str, end: RegistryEnd) -> (r: Outcome)
    ensures
        r@ == reported(cli@, end),
{
    match end {
        RegistryEnd::NoDirectory => Outcome::Failed(owned("the CLI has no parent directory")),
        RegistryEnd::Unopened => Outcome::Failed(owned("could not open HKCU\\Environment")),
        RegistryEnd::Unread => Outcome::Failed(owned("could not read the user PATH")),
        RegistryEnd::Listed => Outcome::AlreadyInstalled(owned(cli)),
        RegistryEnd::Unwritten => Outcome::Failed(owned("could not write the user PATH")),
        RegistryEnd::Written => Outcome::Installed(owned(cli)),
    }
}

/// The entries on either side of a semicolon.
pub proof fn law_a_semicolon_separates(a: Seq<u16>, b: Seq<u16>)
    ensures
        entries(a + seq![59u16] + b) == entries(a) + entries(b),
        !a.contains(59) ==> entries(a) == seq![a],
        entries(a).len() > 0,
    decreases b.len(), a.len(),
{
    lemma_no_separator(a);
    let s = a + seq![59u16] + b;
    if b.len() == 0 {
        assert(s.drop_last() =~= a);
        assert(s.last() == 59);
        assert(entries(s) =~= entries(a) + entries(b));
    } else {
        let t = b.drop_last();
        law_a_semicolon_separates(a, t);
        lemma_no_separator(t);
        assert(s.drop_last() =~= a + seq![59u16] + t);
        assert(s.last() == b.last());
        let front = entries(a) + entries(t);
        assert(front.last() == entries(t).last());
        assert(entries(s) =~= entries(a) + entries(b));
    }
}

proof fn lemma_no_separator(a: Seq<u16>)
    ensures
        !a.contains(59) ==> entries(a) == seq![a],
        entries(a).len() > 0,
    decreases a.len(),
{
    if a.len() > 0 {
        let t = a.drop_last();
        lemma_no_separator(t);
        if !a.contains(59) {
            assert(!t.contains(59)) by {
                if t.contains(59) {
                    let i = choose|i: int| 0 <= i < t.len() && t[i] == 59;
                    assert(a[i] == 59);
                }
            }
            assert(a.contains(a[a.len() - 1]));
            assert(t.push(a.last()) =~= a);
            assert(entries(a) =~= seq![a]);
        }
    } else {
        assert(a =~= seq![]);
        assert(entries(a) =~= seq![a]);
    }
}

/// Whether a text is made of backslashes.
pub open spec fn is_backslashes(s: Seq<u16>) -> bool {
    forall|i: int| 0 <= i < s.len() ==> #[trigger] s[i] == 92
}

/// What is left of a text with backslashes at its end.
proof fn lemma_trimmed(x: Seq<u16>, tail: Seq<u16>)
    requires
        x.len() == 0 || x.last() != 92,
        is_backslashes(tail),
    ensures
        trimmed(x + tail, BACKSLASH) == x,
    decreases tail.len(),
{
    let s = x + tail;
    if tail.len() == 0 {
        assert(s =~= x);
    } else {
        let less = tail.drop_last();
        assert forall|i: int| 0 <= i < less.len() implies #[trigger] less[i] == 92 by {
            assert(less[i] == tail[i]);
        }
        lemma_trimmed(x, less);
        assert(s.last() == tail[tail.len() - 1]);
        assert(s.drop_last() =~= x + less);
    }
}

/// Whether two texts are the same but for the case of the letters from A to Z.
pub open spec fn same_but_case(a: Seq<u16>, b: Seq<u16>) -> bool {
    &&& a.len() == b.len()
    &&& forall|i: int|
        0 <= i < a.len() ==> {
            ||| #[trigger] a[i] == b[i]
            ||| 65 <= a[i] <= 90 && b[i] == a[i] + 32
            ||| 65 <= b[i] <= 90 && a[i] == b[i] + 32
        }
}

/// Two entries are the same directory if and only if they differ in nothing but case and the
/// backslashes at the end.
pub proof fn law_the_same_directory_is_recognised(
    x: Seq<u16>,
    y: Seq<u16>,
    left: Seq<u16>,
    right: Seq<u16>,
)
    requires
        x.len() == 0 || x.last() != 92,
        y.len() == 0 || y.last() != 92,
        is_backslashes(left),
        is_backslashes(right),
    ensures
        same_entry(x + left, y + right) <==> same_but_case(x, y),
{
    lemma_trimmed(x, left);
    lemma_trimmed(y, right);
    if same_but_case(x, y) {
        assert(folded(x) =~= folded(y));
    }
    if folded(x) == folded(y) {
        assert(folded(x).len() == x.len() && folded(y).len() == y.len());
        assert forall|i: int| 0 <= i < x.len() implies (#[trigger] x[i] == y[i] || (65 <= x[i]
            <= 90 && y[i] == x[i] + 32) || (65 <= y[i] <= 90 && x[i] == y[i] + 32)) by {
            assert(folded(x)[i] == folded(y)[i]);
        }
    }
}

/// What the registry holds is taken without the zeros at its end, and nothing where it holds nothing.
pub proof fn law_the_zeros_at_the_end_are_no_path(kind: u32, s: Seq<u16>, zeros: Seq<u16>)
    requires
        s.len() == 0 || s.last() != 0,
        forall|i: int| 0 <= i < zeros.len() ==> #[trigger] zeros[i] == 0,
    ensures
        held(Some(kind), s + zeros) == s,
        held(None, s + zeros) == Seq::<u16>::empty(),
    decreases zeros.len(),
{
    let all = s + zeros;
    if zeros.len() == 0 {
        assert(all =~= s);
    } else {
        let less = zeros.drop_last();
        assert forall|i: int| 0 <= i < less.len() implies #[trigger] less[i] == 0 by {
            assert(less[i] == zeros[i]);
        }
        law_the_zeros_at_the_end_are_no_path(kind, s, less);
        assert(all.last() == zeros[zeros.len() - 1]);
        assert(all.drop_last() =~= s + less);
    }
}

/// What was listed or written is reported as there, with the path of the command, and all else as a
/// failure.
pub proof fn law_only_what_is_written_is_installed(cli: Seq<char>, end: RegistryEnd)
    ensures
        reported(cli, RegistryEnd::Written) == cli_install::Report::Installed(cli),
        reported(cli, RegistryEnd::Listed) == cli_install::Report::AlreadyInstalled(cli),
        !(end is Written) && !(end is Listed) ==> reported(cli, end) is Failed,
{
}

} // verus!
