//! The search path of a process: the directories that `PATH` lists.

use vstd::prelude::*;

use crate::paths;
use crate::paths::Platform;
use crate::paths_laws;
use crate::text;
use crate::text_laws;

verus! {

/// A directory that no search path can list.
#[derive(Clone, Copy, Debug, PartialEq, Eq, Structural)]
pub struct JoinError;

/// The directories of a Windows search path, given whether a quotation mark is open and what was
/// read of the directory in front. A semicolon between quotation marks separates nothing, and the
/// marks belong to no directory.
pub open spec fn windows_list(s: Seq<char>, quoted: bool, front: Seq<char>) -> Seq<Seq<char>>
    decreases s.len(),
{
    if s.len() == 0 {
        seq![front]
    } else if s[0] == '"' {
        windows_list(s.skip(1), !quoted, front)
    } else if s[0] == ';' && !quoted {
        seq![front] + windows_list(s.skip(1), false, seq![])
    } else {
        windows_list(s.skip(1), quoted, front.push(s[0]))
    }
}

/// The directories that a search path lists.
pub open spec fn listed(platform: Platform, s: Seq<char>) -> Seq<Seq<char>> {
    match platform {
        Platform::Unix => text::pieces(s, ':'),
        Platform::Windows => windows_list(s, false, seq![]),
    }
}

/// The character that no directory of a search path may hold.
pub open spec fn forbidden(platform: Platform) -> char {
    match platform {
        Platform::Unix => ':',
        Platform::Windows => '"',
    }
}

/// The character between two directories of a search path.
pub open spec fn separator(platform: Platform) -> char {
    match platform {
        Platform::Unix => ':',
        Platform::Windows => ';',
    }
}

/// How a directory is written in a search path: on Windows between quotation marks, where it holds
/// the separator.
pub open spec fn entry(platform: Platform, dir: Seq<char>) -> Seq<char> {
    if platform == Platform::Windows && dir.contains(';') {
        seq!['"'] + dir + seq!['"']
    } else {
        dir
    }
}

/// How some directories are written in a search path.
pub open spec fn entries(platform: Platform, dirs: Seq<Seq<char>>) -> Seq<Seq<char>> {
    Seq::new(dirs.len(), |i: int| entry(platform, dirs[i]))
}

/// Whether some directories can be listed.
pub open spec fn can_list(platform: Platform, dirs: Seq<Seq<char>>) -> bool {
    forall|i: int| 0 <= i < dirs.len() ==> !(#[trigger] dirs[i]).contains(forbidden(platform))
}

/// The search path that lists some directories.
pub open spec fn listing(platform: Platform, dirs: Seq<Seq<char>>) -> Seq<char> {
    text::joined(entries(platform, dirs), seq![separator(platform)])
}

/// Whether one of some directories is this one.
pub open spec fn lists(platform: Platform, dirs: Seq<Seq<char>>, dir: Seq<char>) -> bool {
    exists|i: int|
        0 <= i < dirs.len() && paths::parts(platform, #[trigger] dirs[i]) == paths::parts(
            platform,
            dir,
        )
}

/// The directories of a Windows search path.
fn windows_dirs(s: &[char]) -> (r: Vec<Vec<char>>)
    ensures
        text::views(r@) == windows_list(s@, false, seq![]),
{
    let mut out: Vec<Vec<char>> = Vec::new();
    let mut front: Vec<char> = Vec::new();
    let mut quoted: bool = false;
    let mut i: usize = 0;
    assert(s@.skip(0) =~= s@);
    assert(front@ =~= seq![]);
    assert(text::views(out@) + windows_list(s@, false, seq![]) =~= windows_list(
        s@,
        false,
        seq![],
    ));
    while i < s.len()
        invariant
            i <= s@.len(),
            text::views(out@) + windows_list(s@.skip(i as int), quoted, front@) == windows_list(
                s@,
                false,
                seq![],
            ),
        decreases s@.len() - i,
    {
        let c: char = s[i];
        let ghost before = text::views(out@);
        let ghost rest = s@.skip(i as int);
        proof {
            assert(rest[0] == c);
            assert(rest.skip(1) =~= s@.skip(i + 1));
        }
        if c == '"' {
            quoted = !quoted;
        } else if c == ';' && !quoted {
            let ghost piece = front@;
            out.push(front);
            front = Vec::new();
            proof {
                assert(front@ =~= seq![]);
                assert(text::views(out@) =~= before.push(piece));
                assert(text::views(out@) + windows_list(s@.skip(i + 1), false, seq![]) =~= before
                    + windows_list(rest, false, piece));
            }
        } else {
            front.push(c);
        }
        i += 1;
    }
    proof {
        assert(s@.skip(i as int) =~= Seq::<char>::empty());
    }
    let ghost before = text::views(out@);
    let ghost piece = front@;
    out.push(front);
    assert(text::views(out@) =~= before.push(piece));
    assert(text::views(out@) =~= before + windows_list(s@.skip(i as int), quoted, piece));
    out
}

/// The directories that a search path lists.
pub fn path_dirs(platform: Platform, s: &str) -> (r: Vec<Vec<char>>)
    ensures
        text::views(r@) == listed(platform, s@),
{
    let chars: Vec<char> = text::chars_of(s);
    match platform {
        Platform::Unix => text::split(chars.as_slice(), ':'),
        Platform::Windows => windows_dirs(chars.as_slice()),
    }
}

/// Whether one of some directories is this one.
pub fn is_listed(platform: Platform, dirs: &Vec<Vec<char>>, dir: &[char]) -> (r: bool)
    ensures
        r == lists(platform, text::views(dirs@), dir@),
{
    let ghost all = text::views(dirs@);
    let mut i: usize = 0;
    while i < dirs.len()
        invariant
            i <= dirs@.len(),
            all == text::views(dirs@),
            forall|k: int|
                0 <= k < i ==> paths::parts(platform, #[trigger] all[k]) != paths::parts(
                    platform,
                    dir@,
                ),
        decreases dirs@.len() - i,
    {
        assert(all[i as int] == dirs@[i as int]@);
        if paths::same_path(platform, dirs[i].as_slice(), dir) {
            return true;
        }
        i += 1;
    }
    false
}

/// How a directory is written in a search path.
fn write_entry(platform: Platform, dir: &[char]) -> (r: Vec<char>)
    ensures
        r@ == entry(platform, dir@),
{
    let mut out: Vec<char> = Vec::new();
    let quoted: bool = match platform {
        Platform::Unix => false,
        Platform::Windows => text::holds(dir, ';'),
    };
    if quoted {
        out.push('"');
    }
    text::extend(&mut out, dir);
    if quoted {
        out.push('"');
    }
    assert(out@ =~= entry(platform, dir@));
    out
}

/// The search path that lists some directories.
pub fn join_paths(platform: Platform, dirs: &Vec<Vec<char>>) -> (r: Result<Vec<char>, JoinError>)
    ensures
        r is Ok <==> can_list(platform, text::views(dirs@)),
        r matches Ok(s) ==> s@ == listing(platform, text::views(dirs@)),
{
    let ghost all = text::views(dirs@);
    let bad: char = match platform {
        Platform::Unix => ':',
        Platform::Windows => '"',
    };
    let mut list: Vec<Vec<char>> = Vec::new();
    let mut i: usize = 0;
    assert(text::views(list@) =~= entries(platform, all).take(0));
    while i < dirs.len()
        invariant
            i <= dirs@.len(),
            all == text::views(dirs@),
            bad == forbidden(platform),
            forall|k: int| 0 <= k < i ==> !(#[trigger] all[k]).contains(bad),
            text::views(list@) == entries(platform, all).take(i as int),
        decreases dirs@.len() - i,
    {
        assert(all[i as int] == dirs@[i as int]@);
        if text::holds(dirs[i].as_slice(), bad) {
            return Err(JoinError);
        }
        let ghost before = text::views(list@);
        list.push(write_entry(platform, dirs[i].as_slice()));
        assert(text::views(list@) =~= before.push(entry(platform, all[i as int])));
        i += 1;
        assert(text::views(list@) =~= entries(platform, all).take(i as int));
    }
    assert(entries(platform, all).take(i as int) =~= entries(platform, all));
    let sep: [char; 1] = [
        match platform {
            Platform::Unix => ':',
            Platform::Windows => ';',
        },
    ];
    assert(sep@ =~= seq![separator(platform)]);
    Ok(text::join(&list, &sep))
}

/// The directories with one more in front.
pub open spec fn with_first(platform: Platform, current: Seq<char>, dir: Seq<char>) -> Seq<
    Seq<char>,
> {
    seq![dir] + listed(platform, current)
}

/// The search path that has `dir` in front, or `None` where it is listed already. In front it wins
/// over what an older installation has left further back.
pub fn path_with_dir_first(platform: Platform, current: &str, dir: &str) -> (r: Option<
    Result<String, JoinError>,
>)
    ensures
        r is None <==> lists(platform, listed(platform, current@), dir@),
        r matches Some(res) ==> (res is Ok <==> can_list(
            platform,
            with_first(platform, current@, dir@),
        )),
        r matches Some(Ok(new)) ==> new@ == listing(
            platform,
            with_first(platform, current@, dir@),
        ),
{
    let dirs: Vec<Vec<char>> = path_dirs(platform, current);
    let chars: Vec<char> = text::chars_of(dir);
    if is_listed(platform, &dirs, chars.as_slice()) {
        return None;
    }
    let ghost all = text::views(dirs@);
    let mut list: Vec<Vec<char>> = Vec::new();
    list.push(chars);
    let mut i: usize = 0;
    assert(text::views(list@) =~= seq![dir@] + all.take(0));
    while i < dirs.len()
        invariant
            i <= dirs@.len(),
            all == text::views(dirs@),
            text::views(list@) == seq![dir@] + all.take(i as int),
        decreases dirs@.len() - i,
    {
        let ghost before = text::views(list@);
        let one: Vec<char> = vstd::slice::slice_to_vec(dirs[i].as_slice());
        assert(one@ =~= all[i as int]);
        list.push(one);
        assert(text::views(list@) =~= before.push(all[i as int]));
        i += 1;
        assert(text::views(list@) =~= seq![dir@] + all.take(i as int));
    }
    assert(all.take(i as int) =~= all);
    match join_paths(platform, &list) {
        Ok(new) => Some(Ok(text::text_of(new.as_slice()))),
        Err(e) => Some(Err(e)),
    }
}

/// The first of some texts in front of the others.
proof fn lemma_joined_front(list: Seq<Seq<char>>, sep: Seq<char>)
    requires
        list.len() > 1,
    ensures
        text::joined(list, sep) == list[0] + sep + text::joined(list.skip(1), sep),
    decreases list.len(),
{
    if list.len() == 2 {
        assert(list.drop_last().len() == 1);
        assert(list.skip(1).len() == 1);
        assert(text::joined(list.drop_last(), sep) == list[0]);
        assert(text::joined(list.skip(1), sep) == list[1]);
    } else {
        lemma_joined_front(list.drop_last(), sep);
        assert(list.drop_last().skip(1) =~= list.skip(1).drop_last());
        assert(text::joined(list, sep) =~= list[0] + sep + text::joined(list.skip(1), sep));
    }
}

/// Characters that are neither quotation marks nor separators belong to the directory in front.
proof fn lemma_plain_run(dir: Seq<char>, rest: Seq<char>, quoted: bool, front: Seq<char>)
    requires
        !dir.contains('"'),
        quoted || !dir.contains(';'),
    ensures
        windows_list(dir + rest, quoted, front) == windows_list(rest, quoted, front + dir),
    decreases dir.len(),
{
    if dir.len() == 0 {
        assert(dir + rest =~= rest);
        assert(front + dir =~= front);
    } else {
        let tail = dir.skip(1);
        assert(dir.contains(dir[0]));
        assert forall|c: char| tail.contains(c) implies dir.contains(c) by {
            let k = choose|k: int| 0 <= k < tail.len() && tail[k] == c;
            assert(dir[k + 1] == c);
        }
        lemma_plain_run(tail, rest, quoted, front.push(dir[0]));
        assert((dir + rest).skip(1) =~= tail + rest);
        assert((dir + rest)[0] == dir[0]);
        assert(front.push(dir[0]) + tail =~= front + dir);
    }
}

/// A directory as it is written belongs to the directory in front.
proof fn lemma_entry_run(dir: Seq<char>, rest: Seq<char>)
    requires
        !dir.contains('"'),
    ensures
        windows_list(entry(Platform::Windows, dir) + rest, false, seq![]) == windows_list(
            rest,
            false,
            dir,
        ),
{
    let none = Seq::<char>::empty();
    assert(none + dir =~= dir);
    if dir.contains(';') {
        let whole = entry(Platform::Windows, dir) + rest;
        let tail = seq!['"'] + rest;
        assert(whole.skip(1) =~= dir + tail);
        assert(whole[0] == '"');
        lemma_plain_run(dir, tail, true, none);
        assert(tail.skip(1) =~= rest);
        assert(tail[0] == '"');
    } else {
        lemma_plain_run(dir, rest, false, none);
    }
}

/// A Windows search path lists the directories it was made of.
proof fn lemma_windows_listing(dirs: Seq<Seq<char>>)
    requires
        dirs.len() > 0,
        can_list(Platform::Windows, dirs),
    ensures
        listed(Platform::Windows, listing(Platform::Windows, dirs)) == dirs,
    decreases dirs.len(),
{
    let platform = Platform::Windows;
    let all = entries(platform, dirs);
    let none = Seq::<char>::empty();
    assert(!dirs[0].contains(forbidden(platform)));
    if dirs.len() == 1 {
        assert(listing(platform, dirs) == all[0]);
        lemma_entry_run(dirs[0], none);
        assert(all[0] + none =~= all[0]);
        assert(dirs =~= seq![dirs[0]]);
    } else {
        let rest = dirs.skip(1);
        assert forall|i: int| 0 <= i < rest.len() implies !(#[trigger] rest[i]).contains(
            forbidden(platform),
        ) by {
            assert(!dirs[i + 1].contains(forbidden(platform)));
        }
        lemma_windows_listing(rest);
        assert(entries(platform, rest) =~= all.skip(1));
        lemma_joined_front(all, seq![';']);
        let tail = seq![';'] + listing(platform, rest);
        assert(listing(platform, dirs) =~= all[0] + tail);
        lemma_entry_run(dirs[0], tail);
        assert(tail.skip(1) =~= listing(platform, rest));
        assert(tail[0] == ';');
        assert(dirs =~= seq![dirs[0]] + rest);
    }
}

/// A Unix search path lists the directories it was made of.
proof fn lemma_unix_listing(dirs: Seq<Seq<char>>)
    requires
        dirs.len() > 0,
        can_list(Platform::Unix, dirs),
    ensures
        listed(Platform::Unix, listing(Platform::Unix, dirs)) == dirs,
    decreases dirs.len(),
{
    let platform = Platform::Unix;
    let all = entries(platform, dirs);
    assert(all =~= dirs);
    let first = dirs[0];
    assert(!first.contains(forbidden(platform)));
    assert forall|k: int| 0 <= k < first.len() implies first[k] != ':' by {
        assert(first.contains(first[k]));
    }
    if dirs.len() == 1 {
        assert(listing(platform, dirs) == first);
        text::lemma_first_of_is(first, ':', first.len() as int);
        assert(dirs =~= seq![first]);
    } else {
        let rest = dirs.skip(1);
        assert forall|i: int| 0 <= i < rest.len() implies !(#[trigger] rest[i]).contains(
            forbidden(platform),
        ) by {
            assert(!dirs[i + 1].contains(forbidden(platform)));
        }
        lemma_unix_listing(rest);
        assert(entries(platform, rest) =~= all.skip(1));
        lemma_joined_front(all, seq![':']);
        let whole = listing(platform, dirs);
        let tail = listing(platform, rest);
        assert(whole =~= first + seq![':'] + tail);
        let n = first.len() as int;
        text::lemma_first_of_is(whole, ':', n);
        assert(whole.take(n) =~= first);
        assert(whole.skip(n + 1) =~= tail);
        assert(dirs =~= seq![first] + rest);
    }
}

/// A search path lists the directories it was made of.
pub proof fn law_a_listing_is_read_back(platform: Platform, dirs: Seq<Seq<char>>)
    requires
        dirs.len() > 0,
        can_list(platform, dirs),
    ensures
        listed(platform, listing(platform, dirs)) == dirs,
{
    match platform {
        Platform::Unix => lemma_unix_listing(dirs),
        Platform::Windows => lemma_windows_listing(dirs),
    }
}

/// No directory that a search path lists holds what none may hold.
proof fn lemma_listed_can_be_listed(platform: Platform, s: Seq<char>)
    ensures
        can_list(platform, listed(platform, s)),
    decreases s.len(),
{
    match platform {
        Platform::Unix => {
            let i = text::first_of(s, ':');
            text::lemma_first_of(s, ':');
            if i < s.len() {
                lemma_listed_can_be_listed(platform, s.skip(i + 1));
                let rest = text::pieces(s.skip(i + 1), ':');
                let all = listed(platform, s);
                assert(all =~= seq![s.take(i)] + rest);
                assert forall|k: int| 0 <= k < all.len() implies !(#[trigger] all[k]).contains(
                    ':',
                ) by {
                    if k > 0 {
                        assert(!rest[k - 1].contains(forbidden(platform)));
                    }
                }
            }
        },
        Platform::Windows => {
            lemma_no_marks(s, false, seq![]);
        },
    }
}

proof fn lemma_no_marks(s: Seq<char>, quoted: bool, front: Seq<char>)
    requires
        !front.contains('"'),
    ensures
        can_list(Platform::Windows, windows_list(s, quoted, front)),
    decreases s.len(),
{
    if s.len() == 0 {
    } else if s[0] == '"' {
        lemma_no_marks(s.skip(1), !quoted, front);
    } else if s[0] == ';' && !quoted {
        lemma_no_marks(s.skip(1), false, seq![]);
        let rest = windows_list(s.skip(1), false, seq![]);
        let all = windows_list(s, quoted, front);
        assert forall|k: int| 0 <= k < all.len() implies !(#[trigger] all[k]).contains('"') by {
            if k > 0 {
                assert(!rest[k - 1].contains(forbidden(Platform::Windows)));
            }
        }
    } else {
        let more = front.push(s[0]);
        assert(!more.contains('"')) by {
            if more.contains('"') {
                let k = choose|k: int| 0 <= k < more.len() && more[k] == '"';
                assert(front[k] == '"');
            }
        }
        lemma_no_marks(s.skip(1), quoted, more);
    }
}

/// A directory can be put in front of every search path, unless it holds what none may hold.
pub proof fn law_only_the_directory_can_be_refused(
    platform: Platform,
    current: Seq<char>,
    dir: Seq<char>,
)
    ensures
        can_list(platform, with_first(platform, current, dir)) <==> !dir.contains(
            forbidden(platform),
        ),
{
    let rest = listed(platform, current);
    let all = with_first(platform, current, dir);
    lemma_listed_can_be_listed(platform, current);
    assert(all[0] == dir);
    assert forall|k: int| 1 <= k < all.len() implies !(#[trigger] all[k]).contains(
        forbidden(platform),
    ) by {
        assert(all[k] == rest[k - 1]);
    }
}

/// The directory that was put in front comes first, all the others follow as they were, and it is
/// not put there again.
pub proof fn law_the_directory_comes_first(platform: Platform, current: Seq<char>, dir: Seq<char>)
    requires
        !dir.contains(forbidden(platform)),
    ensures
        ({
            let new = listing(platform, with_first(platform, current, dir));
            &&& listed(platform, new) == seq![dir] + listed(platform, current)
            &&& lists(platform, listed(platform, new), dir)
        }),
{
    law_only_the_directory_can_be_refused(platform, current, dir);
    let all = with_first(platform, current, dir);
    law_a_listing_is_read_back(platform, all);
    assert(all[0] == dir);
}

/// Without quotation marks, a Windows search path is split at the semicolons.
proof fn lemma_without_marks(s: Seq<char>, front: Seq<char>)
    requires
        !s.contains('"'),
        !front.contains(';'),
    ensures
        windows_list(s, false, front) == text::pieces(front + s, ';'),
    decreases s.len(),
{
    let n = front.len() as int;
    let whole = front + s;
    assert forall|j: int| 0 <= j < n implies whole[j] != ';' by {
        assert(whole[j] == front[j]);
        assert(front.contains(front[j]));
    }
    if s.len() == 0 {
        assert(whole =~= front);
        text::lemma_first_of_is(whole, ';', n);
    } else {
        let rest = s.skip(1);
        assert(s.contains(s[0]));
        assert forall|c: char| rest.contains(c) implies s.contains(c) by {
            let k = choose|k: int| 0 <= k < rest.len() && rest[k] == c;
            assert(s[k + 1] == c);
        }
        if s[0] == ';' {
            let none = Seq::<char>::empty();
            lemma_without_marks(rest, none);
            assert(none + rest =~= rest);
            assert(whole[n] == ';');
            text::lemma_first_of_is(whole, ';', n);
            assert(whole.take(n) =~= front);
            assert(whole.skip(n + 1) =~= rest);
        } else {
            let more = front.push(s[0]);
            assert(!more.contains(';')) by {
                if more.contains(';') {
                    let k = choose|k: int| 0 <= k < more.len() && more[k] == ';';
                    if k < n {
                        assert(front.contains(front[k]));
                    }
                }
            }
            lemma_without_marks(rest, more);
            assert(more + rest =~= whole);
        }
    }
}

/// A directory is put in front of a search path as it stands, with the separator between them: a
/// colon on Unix, and on Windows a semicolon, where the directory is put between quotation marks if
/// it holds a semicolon itself.
pub proof fn law_the_old_path_stays_behind(current: Seq<char>, dir: Seq<char>)
    ensures
        !dir.contains(':') ==> listing(
            Platform::Unix,
            with_first(Platform::Unix, current, dir),
        ) == dir + seq![':'] + current,
        !dir.contains('"') && !dir.contains(';') && !current.contains('"') ==> listing(
            Platform::Windows,
            with_first(Platform::Windows, current, dir),
        ) == dir + seq![';'] + current,
        !dir.contains('"') && dir.contains(';') && !current.contains('"') ==> listing(
            Platform::Windows,
            with_first(Platform::Windows, current, dir),
        ) == seq!['"'] + dir + seq!['"', ';'] + current,
{
    let list = with_first(Platform::Unix, current, dir);
    assert(entries(Platform::Unix, list) =~= list);
    text_laws::law_the_pieces_make_up_the_text(current, ':');
    lemma_joined_front(list, seq![':']);
    assert(list.skip(1) =~= text::pieces(current, ':'));
    if !current.contains('"') {
        let none = Seq::<char>::empty();
        lemma_without_marks(current, none);
        assert(none + current =~= current);
        text_laws::law_the_pieces_make_up_the_text(current, ';');
        let all = entries(Platform::Windows, with_first(Platform::Windows, current, dir));
        lemma_joined_front(all, seq![';']);
        assert(all.skip(1) =~= text::pieces(current, ';'));
        if dir.contains(';') {
            assert(listing(Platform::Windows, with_first(Platform::Windows, current, dir))
                =~= seq!['"'] + dir + seq!['"', ';'] + current);
        }
    }
}

/// The path below the root that some names make up.
pub open spec fn from_root(names: Seq<Seq<char>>) -> Seq<char> {
    seq!['/'] + text::joined(names, seq!['/'])
}

/// On Unix, a directory is listed if and only if one with the very same names is, with slashes at
/// its end or without.
pub proof fn law_only_the_same_names_are_listed(dirs: Seq<Seq<Seq<char>>>, names: Seq<Seq<char>>)
    requires
        names.len() > 0,
        forall|j: int| 0 <= j < names.len() ==> paths::is_name(#[trigger] names[j]),
        forall|k: int| 0 <= k < dirs.len() ==> (#[trigger] dirs[k]).len() > 0,
        forall|k: int, j: int|
            0 <= k < dirs.len() && 0 <= j < dirs[k].len() ==> paths::is_name(#[trigger] dirs[k][j]),
    ensures
        lists(
            Platform::Unix,
            Seq::new(dirs.len(), |k: int| from_root(dirs[k])),
            from_root(names),
        ) <==> dirs.contains(names),
        lists(Platform::Unix, seq![from_root(names).push('/')], from_root(names)),
{
    let list = Seq::new(dirs.len(), |k: int| from_root(dirs[k]));
    let dir = from_root(names);
    paths_laws::law_a_path_is_its_names(names);
    let whole = paths::parts(Platform::Unix, dir);
    if dirs.contains(names) {
        let k = choose|k: int| 0 <= k < dirs.len() && dirs[k] == names;
        assert(paths::parts(Platform::Unix, list[k]) == whole);
    }
    if lists(Platform::Unix, list, dir) {
        let k = choose|k: int|
            0 <= k < list.len() && paths::parts(Platform::Unix, #[trigger] list[k]) == whole;
        let other = dirs[k];
        assert forall|j: int| 0 <= j < other.len() implies paths::is_name(#[trigger] other[j]) by {
            assert(paths::is_name(dirs[k][j]));
        }
        paths_laws::law_a_path_is_its_names(other);
        let found = paths::parts(Platform::Unix, list[k]);
        assert(found.len() == 1 + other.len());
        assert(whole.len() == 1 + names.len());
        assert forall|j: int| 0 <= j < names.len() implies #[trigger] other[j] == names[j] by {
            assert(found[j + 1] == paths::Part::Normal(other[j]));
            assert(whole[j + 1] == paths::Part::Normal(names[j]));
        }
        assert(other =~= names);
        assert(dirs.contains(dirs[k]));
    }
    paths_laws::law_slashes_and_dots_are_skipped(dir, seq![]);
    let ended = seq![dir.push('/')];
    assert(dir + seq!['/'] =~= dir.push('/'));
    assert(paths::parts(Platform::Unix, ended[0]) == whole);
}

/// A Windows search path without quotation marks is split at the semicolons, a Unix one at the
/// colons.
pub proof fn law_a_search_path_is_split_at_its_separators(s: Seq<char>)
    ensures
        !s.contains('"') ==> listed(Platform::Windows, s) == text::pieces(s, ';'),
        listed(Platform::Unix, s) == text::pieces(s, ':'),
{
    if !s.contains('"') {
        let none = Seq::<char>::empty();
        lemma_without_marks(s, none);
        assert(none + s =~= s);
    }
}

/// On Windows, a directory is listed if and only if one with the very same names on the same drive
/// is, whatever the case of the drive and the kind of the slashes.
pub proof fn law_only_the_same_names_are_listed_on_windows(
    dir: Seq<char>,
    k: u32,
    drive: char,
    names: Seq<Seq<char>>,
    other: Seq<char>,
    k2: u32,
    other_drive: char,
    other_names: Seq<Seq<char>>,
)
    requires
        names.len() > 0,
        other_names.len() > 0,
        forall|i: int| 0 <= i < names.len() ==> paths_laws::is_windows_name(#[trigger] names[i]),
        forall|i: int|
            0 <= i < other_names.len() ==> paths_laws::is_windows_name(#[trigger] other_names[i]),
        k < 26,
        k2 < 26,
        drive as u32 == 65 + k || drive as u32 == 97 + k,
        other_drive as u32 == 65 + k2 || other_drive as u32 == 97 + k2,
        text::backslashed(dir) == seq![drive, ':', '\\'] + text::joined(names, seq!['\\']),
        text::backslashed(other) == seq![other_drive, ':', '\\'] + text::joined(
            other_names,
            seq!['\\'],
        ),
    ensures
        lists(Platform::Windows, seq![other], dir) <==> k == k2 && names == other_names,
{
    paths_laws::law_a_windows_path_is_its_names(dir, k, drive, names);
    paths_laws::law_a_windows_path_is_its_names(other, k2, other_drive, other_names);
    let a = paths::parts(Platform::Windows, dir);
    let b = paths::parts(Platform::Windows, other);
    let list = seq![other];
    if k == k2 && names == other_names {
        assert(paths::parts(Platform::Windows, list[0]) == a);
    }
    if lists(Platform::Windows, list, dir) {
        assert(a == b);
        assert(a.len() == 2 + names.len());
        assert(b.len() == 2 + other_names.len());
        assert(a[0] == paths::Part::Prefix(seq![((65 + k) as u32) as char, ':']));
        assert(b[0] == paths::Part::Prefix(seq![((65 + k2) as u32) as char, ':']));
        let p = seq![((65 + k) as u32) as char, ':'];
        let q = seq![((65 + k2) as u32) as char, ':'];
        assert(p == q);
        assert(p[0] == q[0]);
        assert(k == k2);
        assert forall|j: int| 0 <= j < names.len() implies #[trigger] names[j] == other_names[j] by {
            assert(a[j + 2] == paths::Part::Normal(names[j]));
            assert(b[j + 2] == paths::Part::Normal(other_names[j]));
        }
        assert(names =~= other_names);
    }
}

} // verus!
