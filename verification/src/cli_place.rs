//! Putting the `nermal` command into a directory of the search path on Unix.
//!
//! The directories are a fixed list, of which those on the search path are taken: the directories
//! of version managers stand in front on many machines and can be written to, but what is put
//! there is deleted by the next run of their tool.

use vstd::prelude::*;

use crate::cli_install;
use crate::cli_install::Outcome;
use crate::numbers;
use crate::paths;
use crate::paths::Platform;
use crate::search_path;
use crate::text;

verus! {

/// The directories worth installing into, the best first, whether they are on the search path or
/// not.
pub open spec fn preferred(home: Option<Seq<char>>) -> Seq<Seq<char>> {
    let shared = seq!["/opt/homebrew/bin"@, "/usr/local/bin"@];
    match home {
        Some(h) => shared + seq![
            paths::inside(Platform::Unix, h, ".local/bin"@),
            paths::inside(Platform::Unix, h, "bin"@),
            paths::inside(Platform::Unix, h, ".cargo/bin"@),
        ],
        None => shared,
    }
}

/// Those of the first `upto` directories that the search path lists.
pub open spec fn reachable(list: Seq<Seq<char>>, path_dirs: Seq<Seq<char>>, upto: int) -> Seq<
    Seq<char>,
>
    decreases upto,
{
    if upto <= 0 {
        seq![]
    } else {
        let front = reachable(list, path_dirs, upto - 1);
        if search_path::lists(Platform::Unix, path_dirs, list[upto - 1]) {
            front.push(list[upto - 1])
        } else {
            front
        }
    }
}

/// The directories to be tried, the best first: those of the search path, and then the one below
/// the home directory that can always be made.
pub open spec fn candidates(path_dirs: Seq<Seq<char>>, home: Option<Seq<char>>) -> Seq<Seq<char>> {
    let list = preferred(home);
    let found = reachable(list, path_dirs, list.len() as int);
    match home {
        Some(h) => {
            let fallback = paths::inside(Platform::Unix, h, ".local/bin"@);
            if search_path::lists(Platform::Unix, found, fallback) {
                found
            } else {
                found.push(fallback)
            }
        },
        None => found,
    }
}

/// A relative name below the home directory.
fn below(home: &[char], name: &str) -> (r: Vec<char>)
    requires
        paths::relative(Platform::Unix, name@),
    ensures
        r@ == paths::inside(Platform::Unix, home@, name@),
{
    let chars: Vec<char> = text::chars_of(name);
    paths::join(Platform::Unix, home, chars.as_slice())
}

/// The directories to be tried, given those of the search path and the home directory.
pub fn candidate_dirs(path_dirs: &Vec<Vec<char>>, home: Option<&str>) -> (r: Vec<Vec<char>>)
    ensures
        text::views(r@) == candidates(
            text::views(path_dirs@),
            match home {
                Some(h) => Some(h@),
                None => None,
            },
        ),
{
    proof {
        reveal_strlit(".local/bin");
        reveal_strlit("bin");
        reveal_strlit(".cargo/bin");
    }
    let ghost dirs = text::views(path_dirs@);
    let ghost place = match home {
        Some(h) => Some(h@),
        None => None,
    };
    let mut list: Vec<Vec<char>> = Vec::new();
    list.push(text::chars_of("/opt/homebrew/bin"));
    list.push(text::chars_of("/usr/local/bin"));
    if let Some(h) = home {
        let chars: Vec<char> = text::chars_of(h);
        list.push(below(chars.as_slice(), ".local/bin"));
        list.push(below(chars.as_slice(), "bin"));
        list.push(below(chars.as_slice(), ".cargo/bin"));
    }
    let ghost all = preferred(place);
    assert(text::views(list@) =~= all);
    let mut out: Vec<Vec<char>> = Vec::new();
    let mut i: usize = 0;
    assert(text::views(out@) =~= Seq::<Seq<char>>::empty());
    while i < list.len()
        invariant
            i <= list@.len(),
            dirs == text::views(path_dirs@),
            all == text::views(list@),
            text::views(out@) == reachable(all, dirs, i as int),
        decreases list@.len() - i,
    {
        assert(all[i as int] == list@[i as int]@);
        if search_path::is_listed(Platform::Unix, path_dirs, list[i].as_slice()) {
            let ghost before = text::views(out@);
            let one: Vec<char> = vstd::slice::slice_to_vec(list[i].as_slice());
            assert(one@ =~= all[i as int]);
            out.push(one);
            assert(text::views(out@) =~= before.push(all[i as int]));
        }
        i += 1;
    }
    if let Some(h) = home {
        let chars: Vec<char> = text::chars_of(h);
        let fallback: Vec<char> = below(chars.as_slice(), ".local/bin");
        if !search_path::is_listed(Platform::Unix, &out, fallback.as_slice()) {
            let ghost before = text::views(out@);
            let ghost last = fallback@;
            out.push(fallback);
            assert(text::views(out@) =~= before.push(last));
        }
    }
    out
}

proof fn lemma_reachable(list: Seq<Seq<char>>, path_dirs: Seq<Seq<char>>, upto: int, k: int)
    requires
        0 <= upto <= list.len(),
        0 <= k < reachable(list, path_dirs, upto).len(),
    ensures
        list.contains(reachable(list, path_dirs, upto)[k]),
        search_path::lists(Platform::Unix, path_dirs, reachable(list, path_dirs, upto)[k]),
    decreases upto,
{
    if k < reachable(list, path_dirs, upto - 1).len() {
        lemma_reachable(list, path_dirs, upto - 1, k);
    } else {
        assert(list[upto - 1] == reachable(list, path_dirs, upto)[k]);
    }
}

/// No directory is tried but those that are known to keep what is put there, whatever else the
/// search path lists.
pub proof fn law_only_known_directories_are_tried(
    path_dirs: Seq<Seq<char>>,
    home: Option<Seq<char>>,
    k: int,
)
    requires
        0 <= k < candidates(path_dirs, home).len(),
    ensures
        preferred(home).contains(candidates(path_dirs, home)[k]),
{
    let list = preferred(home);
    let found = reachable(list, path_dirs, list.len() as int);
    if k < found.len() {
        lemma_reachable(list, path_dirs, list.len() as int, k);
        assert(candidates(path_dirs, home)[k] == found[k]);
    } else {
        assert(list[2] == candidates(path_dirs, home)[k]);
    }
}

/// There is always a directory to try below the home directory.
pub proof fn law_the_home_directory_is_always_tried(path_dirs: Seq<Seq<char>>, home: Seq<char>)
    ensures
        search_path::lists(
            Platform::Unix,
            candidates(path_dirs, Some(home)),
            paths::inside(Platform::Unix, home, ".local/bin"@),
        ),
{
    let list = preferred(Some(home));
    let found = reachable(list, path_dirs, list.len() as int);
    let fallback = paths::inside(Platform::Unix, home, ".local/bin"@);
    if !search_path::lists(Platform::Unix, found, fallback) {
        let all = candidates(path_dirs, Some(home));
        assert(all[found.len() as int] == fallback);
    }
}

/// A directory with the slash that a name behind it needs.
pub open spec fn slashed(dir: Seq<char>) -> Seq<char> {
    if dir.len() == 0 || dir.last() == '/' {
        dir
    } else {
        dir.push('/')
    }
}

/// The directories that are tried are, of the two that machines share and the three below the home
/// directory, those that the search path lists, in this order; and behind them, where it is not
/// among them, the one below the home directory that can always be made.
pub proof fn law_what_the_search_path_lists_is_tried_first(
    path_dirs: Seq<Seq<char>>,
    home: Seq<char>,
    tried: Seq<Seq<char>>,
    i: int,
    j: int,
) -> (at: (int, int))
    requires
        tried == candidates(path_dirs, Some(home)),
        0 <= i < j < 5,
    ensures
        ({
            let known = seq![
                "/opt/homebrew/bin"@,
                "/usr/local/bin"@,
                slashed(home) + ".local/bin"@,
                slashed(home) + "bin"@,
                slashed(home) + ".cargo/bin"@,
            ];
            &&& search_path::lists(Platform::Unix, path_dirs, known[i]) ==> 0 <= at.0 < tried.len()
                && tried[at.0] == known[i]
            &&& search_path::lists(Platform::Unix, path_dirs, known[j]) ==> 0 <= at.1 < tried.len()
                && tried[at.1] == known[j]
            &&& search_path::lists(Platform::Unix, path_dirs, known[i]) && search_path::lists(
                Platform::Unix,
                path_dirs,
                known[j],
            ) ==> at.0 < at.1
            &&& forall|k: int|
                0 <= k < tried.len() ==> {
                    &&& known.contains(#[trigger] tried[k])
                    &&& !search_path::lists(Platform::Unix, path_dirs, tried[k]) ==> k
                        == tried.len() - 1 && tried[k] == known[2]
                }
        }),
{
    reveal_strlit("/opt/homebrew/bin");
    reveal_strlit("/usr/local/bin");
    reveal_strlit(".local/bin");
    reveal_strlit("bin");
    reveal_strlit(".cargo/bin");
    let known = seq![
        "/opt/homebrew/bin"@,
        "/usr/local/bin"@,
        slashed(home) + ".local/bin"@,
        slashed(home) + "bin"@,
        slashed(home) + ".cargo/bin"@,
    ];
    let list = preferred(Some(home));
    assert(list =~= known);
    let found = reachable(list, path_dirs, list.len() as int);
    assert forall|k: int| 0 <= k < tried.len() implies {
        &&& known.contains(#[trigger] tried[k])
        &&& !search_path::lists(Platform::Unix, path_dirs, tried[k]) ==> k == tried.len() - 1
            && tried[k] == known[2]
    } by {
        law_only_known_directories_are_tried(path_dirs, Some(home), k);
        if k < found.len() {
            lemma_reachable(list, path_dirs, list.len() as int, k);
            assert(tried[k] == found[k]);
        }
    }
    let a = if search_path::lists(Platform::Unix, path_dirs, known[i]) {
        lemma_reached(list, path_dirs, list.len() as int, i)
    } else {
        -1
    };
    let b = if search_path::lists(Platform::Unix, path_dirs, known[j]) {
        lemma_reached(list, path_dirs, list.len() as int, j)
    } else {
        -1
    };
    if a >= 0 {
        assert(tried[a] == found[a]);
    }
    if b >= 0 {
        assert(tried[b] == found[b]);
    }
    if a >= 0 && b >= 0 {
        lemma_fewer_reached(list, path_dirs, i, j);
    }
    (a, b)
}

/// Without a home directory, the two that machines share are tried where the search path lists them,
/// and nothing else is.
pub proof fn law_without_a_home_the_shared_directories_are_tried(path_dirs: Seq<Seq<char>>)
    ensures
        ({
            let first = search_path::lists(Platform::Unix, path_dirs, "/opt/homebrew/bin"@);
            let second = search_path::lists(Platform::Unix, path_dirs, "/usr/local/bin"@);
            candidates(path_dirs, None) == (if first && second {
                seq!["/opt/homebrew/bin"@, "/usr/local/bin"@]
            } else if first {
                seq!["/opt/homebrew/bin"@]
            } else if second {
                seq!["/usr/local/bin"@]
            } else {
                seq![]
            })
        }),
{
    reveal_with_fuel(reachable, 3);
}

/// Where a directory that the search path lists comes to stand.
proof fn lemma_reached(list: Seq<Seq<char>>, path_dirs: Seq<Seq<char>>, upto: int, i: int) -> (at: int)
    requires
        0 <= i < upto <= list.len(),
        search_path::lists(Platform::Unix, path_dirs, list[i]),
    ensures
        at == reachable(list, path_dirs, i).len(),
        0 <= at < reachable(list, path_dirs, upto).len(),
        reachable(list, path_dirs, upto)[at] == list[i],
    decreases upto,
{
    if i == upto - 1 {
        reachable(list, path_dirs, i).len() as int
    } else {
        lemma_reached(list, path_dirs, upto - 1, i)
    }
}

/// Fewer directories come before an earlier one.
proof fn lemma_fewer_reached(list: Seq<Seq<char>>, path_dirs: Seq<Seq<char>>, i: int, j: int)
    requires
        0 <= i < j <= list.len(),
        search_path::lists(Platform::Unix, path_dirs, list[i]),
    ensures
        reachable(list, path_dirs, i).len() < reachable(list, path_dirs, j).len(),
    decreases j,
{
    if i < j - 1 {
        lemma_fewer_reached(list, path_dirs, i, j - 1);
    }
}

/// A symbolic link, or a copy for the one build that cannot be linked to: an AppImage is mounted
/// somewhere else in every run.
#[derive(Clone, Copy, Debug, PartialEq, Eq, Structural)]
pub enum Mode {
    Symlink,
    Copy,
}

impl Mode {
    /// The mode of this run, given whether it comes out of an AppImage.
    pub fn current(appimage: bool) -> (r: Mode)
        ensures
            r == (if appimage {
                Mode::Copy
            } else {
                Mode::Symlink
            }),
    {
        if appimage {
            Mode::Copy
        } else {
            Mode::Symlink
        }
    }
}

/// What stands under the name of the command.
#[derive(Debug)]
pub enum Target {
    Missing,
    /// A symbolic link, and where it leads.
    Link(String),
    /// A file, with the marker of a copy of ours or without, and as large as the command or not.
    File { marked: bool, same_size: bool },
}

/// What the thing under the name of the command stands for.
pub enum Found {
    Missing,
    Link(Seq<char>),
    File { marked: bool, same_size: bool },
}

impl View for Target {
    type V = Found;

    open spec fn view(&self) -> Found {
        match self {
            Target::Missing => Found::Missing,
            Target::Link(p) => Found::Link(p@),
            Target::File { marked, same_size } => Found::File {
                marked: *marked,
                same_size: *same_size,
            },
        }
    }
}

/// What to do with a directory.
#[derive(Clone, Copy, Debug, PartialEq, Eq, Structural)]
pub enum Decision {
    /// The command is there already.
    Keep,
    /// Something is there that is not ours to replace.
    Leave,
    /// The command is to be written.
    Write,
}

/// What to do with a directory. A link is replaced only while it leads to something of the name of
/// the command, and a file only where the marker says that it is a copy of ours.
pub open spec fn decided(cli: Seq<char>, mode: Mode, found: Found) -> Decision {
    match found {
        Found::Missing => Decision::Write,
        Found::Link(p) => if mode == Mode::Symlink && paths::parts(Platform::Unix, p)
            == paths::parts(Platform::Unix, cli) {
            Decision::Keep
        } else if paths::last_name(Platform::Unix, p) != Some(cli_install::cli(Platform::Unix)) {
            Decision::Leave
        } else {
            Decision::Write
        },
        Found::File { marked, same_size } => if !marked {
            Decision::Leave
        } else if mode == Mode::Copy && same_size {
            Decision::Keep
        } else {
            Decision::Write
        },
    }
}

/// Decides what to do with a directory, given what stands there under the name of the command.
pub fn place(cli: &str, mode: Mode, target: &Target) -> (r: Decision)
    ensures
        r == decided(cli@, mode, target@),
{
    match target {
        Target::Missing => Decision::Write,
        Target::Link(p) => {
            let leads: Vec<char> = text::chars_of(p.as_str());
            let ours: Vec<char> = text::chars_of(cli);
            if mode == Mode::Symlink && paths::same_path(
                Platform::Unix,
                leads.as_slice(),
                ours.as_slice(),
            ) {
                return Decision::Keep;
            }
            let wanted: Vec<char> = cli_install::cli_name(Platform::Unix);
            match paths::file_name(Platform::Unix, leads.as_slice()) {
                Some(name) => if text::same(name.as_slice(), wanted.as_slice()) {
                    Decision::Write
                } else {
                    Decision::Leave
                },
                None => Decision::Leave,
            }
        },
        Target::File { marked, same_size } => if !*marked {
            Decision::Leave
        } else if mode == Mode::Copy && *same_size {
            Decision::Keep
        } else {
            Decision::Write
        },
    }
}

/// The name of the marker that says that a file is a copy of ours.
pub open spec fn marker_name() -> Seq<char> {
    ".nermal.installed-by-nermal"@
}

/// Where the marker of a directory is.
pub fn copy_marker(dir: &[char]) -> (r: Vec<char>)
    ensures
        r@ == paths::inside(Platform::Unix, dir@, marker_name()),
{
    proof {
        reveal_strlit(".nermal.installed-by-nermal");
    }
    below(dir, ".nermal.installed-by-nermal")
}

/// Where the command of a directory is.
pub fn target_path(dir: &[char]) -> (r: Vec<char>)
    ensures
        r@ == paths::inside(Platform::Unix, dir@, cli_install::cli(Platform::Unix)),
{
    let name: Vec<char> = cli_install::cli_name(Platform::Unix);
    paths::join(Platform::Unix, dir, name.as_slice())
}

/// The name under which the command is written before it takes its own, which is different for
/// every process.
pub open spec fn temporary_name(pid: u32) -> Seq<char> {
    ".nermal."@ + numbers::decimal(pid as nat) + ".tmp"@
}

/// Where the command is written before it takes its own name.
pub fn temporary_path(dir: &[char], pid: u32) -> (r: Vec<char>)
    ensures
        r@ == paths::inside(Platform::Unix, dir@, temporary_name(pid)),
{
    proof {
        reveal_strlit(".nermal.");
    }
    let mut name: Vec<char> = text::chars_of(".nermal.");
    text::extend(&mut name, numbers::write_decimal(pid as u64).as_slice());
    text::extend(&mut name, text::chars_of(".tmp").as_slice());
    assert(name@[0] == '.');
    paths::join(Platform::Unix, dir, name.as_slice())
}

/// What the marker says.
pub open spec fn marker_note(target: Seq<char>) -> Seq<char> {
    target + " was installed by the nermal app, which replaces it on upgrade.\nDelete this marker to have nermal treat that binary as yours and leave it alone.\n"@
}

/// What the marker says of the copy at a path.
pub fn marker_text(target: &[char]) -> (r: String)
    ensures
        r@ == marker_note(target@),
{
    let mut out: Vec<char> = vstd::slice::slice_to_vec(target);
    assert(out@ =~= target@);
    text::extend(
        &mut out,
        text::chars_of(
            " was installed by the nermal app, which replaces it on upgrade.\nDelete this marker to have nermal treat that binary as yours and leave it alone.\n",
        ).as_slice(),
    );
    text::text_of(out.as_slice())
}

/// A step of the writing of the command: it is written under a temporary name, which then takes
/// the place of its own at once.
#[derive(Clone, Copy, Debug, PartialEq, Eq, Structural)]
pub enum WriteStep {
    /// Remove what an earlier run has left under the temporary name.
    Clean,
    /// Copy the command to the temporary name.
    Copy,
    /// Let the copy be executed.
    Allow,
    /// Link the temporary name to the command.
    Link,
    /// Give what is under the temporary name the name of the command.
    Rename,
    /// Write the marker of a copy.
    Claim,
    /// Remove the marker of a copy that was replaced.
    Disown,
    /// Remove what is under the temporary name.
    Undo,
    Written,
    Failed,
}

/// The step that follows another, given whether that one succeeded.
pub open spec fn step_after(step: WriteStep, ok: bool, mode: Mode) -> WriteStep {
    match step {
        WriteStep::Clean => match mode {
            Mode::Copy => WriteStep::Copy,
            Mode::Symlink => WriteStep::Link,
        },
        WriteStep::Copy => if ok {
            WriteStep::Allow
        } else {
            WriteStep::Undo
        },
        WriteStep::Allow | WriteStep::Link => if ok {
            WriteStep::Rename
        } else {
            WriteStep::Undo
        },
        WriteStep::Rename => if !ok {
            WriteStep::Undo
        } else {
            match mode {
                Mode::Copy => WriteStep::Claim,
                Mode::Symlink => WriteStep::Disown,
            }
        },
        WriteStep::Claim | WriteStep::Disown => WriteStep::Written,
        WriteStep::Undo => WriteStep::Failed,
        WriteStep::Written => WriteStep::Written,
        WriteStep::Failed => WriteStep::Failed,
    }
}

/// The step that follows another, given whether that one succeeded.
pub fn write_atomically(step: WriteStep, ok: bool, mode: Mode) -> (r: WriteStep)
    ensures
        r == step_after(step, ok, mode),
{
    match step {
        WriteStep::Clean => match mode {
            Mode::Copy => WriteStep::Copy,
            Mode::Symlink => WriteStep::Link,
        },
        WriteStep::Copy => if ok {
            WriteStep::Allow
        } else {
            WriteStep::Undo
        },
        WriteStep::Allow | WriteStep::Link => if ok {
            WriteStep::Rename
        } else {
            WriteStep::Undo
        },
        WriteStep::Rename => if !ok {
            WriteStep::Undo
        } else {
            match mode {
                Mode::Copy => WriteStep::Claim,
                Mode::Symlink => WriteStep::Disown,
            }
        },
        WriteStep::Claim | WriteStep::Disown => WriteStep::Written,
        WriteStep::Undo => WriteStep::Failed,
        WriteStep::Written => WriteStep::Written,
        WriteStep::Failed => WriteStep::Failed,
    }
}

/// What stands under a name.
pub enum Entry {
    /// A link, and where it leads.
    Link(Seq<char>),
    /// A copy of what is at a path.
    Copy(Seq<char>),
    /// Something else.
    Other,
}

/// What a directory holds, as far as it matters here.
pub struct Shelf {
    pub temporary: Option<Entry>,
    pub target: Option<Entry>,
    pub marked: bool,
}

/// What a directory holds after a step that succeeded.
pub open spec fn performed(shelf: Shelf, step: WriteStep, cli: Seq<char>) -> Shelf {
    match step {
        WriteStep::Clean | WriteStep::Undo => Shelf { temporary: None, ..shelf },
        WriteStep::Copy => Shelf { temporary: Some(Entry::Copy(cli)), ..shelf },
        WriteStep::Link => Shelf { temporary: Some(Entry::Link(cli)), ..shelf },
        WriteStep::Rename => Shelf { temporary: None, target: shelf.temporary, ..shelf },
        WriteStep::Claim => Shelf { marked: true, ..shelf },
        WriteStep::Disown => Shelf { marked: false, ..shelf },
        _ => shelf,
    }
}

/// What a directory holds once `n` steps have succeeded, and the step that comes then.
pub open spec fn after_steps(shelf: Shelf, n: nat, cli: Seq<char>, mode: Mode) -> (Shelf, WriteStep)
    decreases n,
{
    if n == 0 {
        (shelf, WriteStep::Clean)
    } else {
        let (before, step) = after_steps(shelf, (n - 1) as nat, cli, mode);
        (performed(before, step, cli), step_after(step, true, mode))
    }
}

/// What a written command is found as by the next run.
pub open spec fn found_again(shelf: Shelf) -> Found {
    match shelf.target {
        None => Found::Missing,
        Some(Entry::Link(p)) => Found::Link(p),
        Some(_) => Found::File { marked: shelf.marked, same_size: true },
    }
}

/// At every moment the name of the command stands for what it stood for before or for the new
/// command, and once everything is done for the new command, with the marker beside a copy and
/// none beside a link.
pub proof fn law_the_command_is_replaced_at_once(
    shelf: Shelf,
    n: nat,
    cli: Seq<char>,
    mode: Mode,
)
    ensures
        ({
            let (now, step) = after_steps(shelf, n, cli, mode);
            let new = match mode {
                Mode::Copy => Entry::Copy(cli),
                Mode::Symlink => Entry::Link(cli),
            };
            &&& now.target == shelf.target || now.target == Some(new)
            &&& step is Written ==> now.target == Some(new) && now.temporary is None && now.marked
                == (mode == Mode::Copy)
            &&& n >= 5 ==> step is Written
        }),
    decreases n,
{
    reveal_with_fuel(after_steps, 6);
    if n >= 6 {
        law_the_command_is_replaced_at_once(shelf, (n - 1) as nat, cli, mode);
    }
}

/// A step that does not succeed leads to no other place than to the end with the temporary name
/// removed, and nothing is renamed any more.
pub proof fn law_a_failure_ends_the_writing(step: WriteStep, mode: Mode)
    requires
        step is Copy || step is Allow || step is Link || step is Rename,
    ensures
        step_after(step, false, mode) == WriteStep::Undo,
        step_after(WriteStep::Undo, true, mode) == WriteStep::Failed,
        step_after(WriteStep::Undo, false, mode) == WriteStep::Failed,
{
}

/// What one run has written the next run of the same build in the same mode keeps.
pub proof fn law_a_written_command_is_kept(shelf: Shelf, n: nat, cli: Seq<char>, mode: Mode)
    requires
        after_steps(shelf, n, cli, mode).1 is Written,
    ensures
        decided(cli, mode, found_again(after_steps(shelf, n, cli, mode).0)) == Decision::Keep,
{
    law_the_command_is_replaced_at_once(shelf, n, cli, mode);
}

/// What one build has written another build replaces, in the same mode or the other: a link to a
/// command of the same name at another place, and a copy that is not as large or is to be a link.
pub proof fn law_a_written_command_is_replaced_by_another_build(
    shelf: Shelf,
    n: nat,
    cli: Seq<char>,
    mode: Mode,
    newer: Seq<char>,
    now: Mode,
)
    requires
        after_steps(shelf, n, cli, mode).1 is Written,
        paths::last_name(Platform::Unix, cli) == Some(cli_install::cli(Platform::Unix)),
        paths::parts(Platform::Unix, cli) != paths::parts(Platform::Unix, newer),
        now is Symlink || mode is Symlink,
    ensures
        decided(newer, now, found_again(after_steps(shelf, n, cli, mode).0)) == Decision::Write,
{
    law_the_command_is_replaced_at_once(shelf, n, cli, mode);
}

/// A file without the marker is never replaced, and neither is a link to something of another
/// name.
pub proof fn law_what_is_not_ours_is_left_alone(cli: Seq<char>, mode: Mode, found: Found)
    requires
        match found {
            Found::Missing => false,
            Found::Link(p) => paths::last_name(Platform::Unix, p) != Some(
                cli_install::cli(Platform::Unix),
            ) && paths::parts(Platform::Unix, p) != paths::parts(Platform::Unix, cli),
            Found::File { marked, .. } => !marked,
        },
    ensures
        decided(cli, mode, found) == Decision::Leave,
{
}

/// What came of a directory.
#[derive(Debug)]
pub enum Tried {
    /// The command was there.
    Already(String),
    /// The command was written.
    Wrote(String),
    /// Something is there that is not ours to replace.
    Occupied(String),
    /// The directory could not be used.
    Error(String),
}

/// What came of a directory, as it is seen.
pub enum Try {
    Already(Seq<char>),
    Wrote(Seq<char>),
    Occupied(Seq<char>),
    Error(Seq<char>),
}

impl View for Tried {
    type V = Try;

    open spec fn view(&self) -> Try {
        match self {
            Tried::Already(p) => Try::Already(p@),
            Tried::Wrote(p) => Try::Wrote(p@),
            Tried::Occupied(p) => Try::Occupied(p@),
            Tried::Error(e) => Try::Error(e@),
        }
    }
}

/// What is known from the directories tried so far: the first that is taken, and the last error.
pub struct Scan {
    pub occupied: Option<Seq<char>>,
    pub last_error: Option<Seq<char>>,
}

/// The report that ends the search at a directory, if it ends there.
pub open spec fn ended(path_dirs: Seq<Seq<char>>, dir: Seq<char>, tried: Try) -> Option<
    cli_install::Report,
> {
    match tried {
        Try::Already(p) => Some(
            if search_path::lists(Platform::Unix, path_dirs, dir) {
                cli_install::Report::AlreadyInstalled(p)
            } else {
                cli_install::Report::InstalledOffPath(p)
            },
        ),
        Try::Wrote(p) => Some(
            if search_path::lists(Platform::Unix, path_dirs, dir) {
                cli_install::Report::Installed(p)
            } else {
                cli_install::Report::InstalledOffPath(p)
            },
        ),
        _ => None,
    }
}

/// A command is said to be within reach exactly where the search path lists the directory it is in,
/// be it there already or new.
pub proof fn law_only_what_is_on_the_path_is_reachable(
    path_dirs: Seq<Seq<char>>,
    dir: Seq<char>,
    tried: Try,
)
    requires
        ended(path_dirs, dir, tried) is Some,
    ensures
        ({
            let report = ended(path_dirs, dir, tried)->0;
            &&& report is AlreadyInstalled || report is Installed <==> search_path::lists(
                Platform::Unix,
                path_dirs,
                dir,
            )
            &&& report is InstalledOffPath <==> !search_path::lists(Platform::Unix, path_dirs, dir)
        }),
{
}

/// What is known once one more directory was tried in vain.
pub open spec fn noted(scan: Scan, dir: Seq<char>, tried: Try) -> Scan {
    match tried {
        Try::Occupied(p) => Scan {
            occupied: match scan.occupied {
                Some(first) => Some(first),
                None => Some(p),
            },
            ..scan
        },
        Try::Error(e) => Scan { last_error: Some(dir + ": "@ + e), ..scan },
        _ => scan,
    }
}

/// The report where every directory was tried in vain.
pub open spec fn given_up(scan: Scan) -> cli_install::Report {
    match (scan.occupied, scan.last_error) {
        (Some(p), _) => cli_install::Report::Occupied(p),
        (None, Some(e)) => cli_install::Report::Failed(e),
        (None, None) => cli_install::Report::Failed("no writable directory on PATH"@),
    }
}

/// The report of an installation from the directory `k` on, given what comes of each directory and
/// what is known from those before.
pub open spec fn reported(
    path_dirs: Seq<Seq<char>>,
    dirs: Seq<Seq<char>>,
    tries: Seq<Try>,
    k: int,
    scan: Scan,
) -> cli_install::Report
    decreases dirs.len() - k,
{
    if k >= dirs.len() {
        given_up(scan)
    } else {
        match ended(path_dirs, dirs[k], tries[k]) {
            Some(report) => report,
            None => reported(path_dirs, dirs, tries, k + 1, noted(scan, dirs[k], tries[k])),
        }
    }
}

/// The report of a whole installation, given what comes of each directory.
pub open spec fn outcome(
    path_dirs: Seq<Seq<char>>,
    dirs: Seq<Seq<char>>,
    tries: Seq<Try>,
) -> cli_install::Report {
    reported(path_dirs, dirs, tries, 0, Scan { occupied: None, last_error: None })
}

/// Whether the command is in a directory, be it there already or new.
pub open spec fn is_success(tried: Try) -> bool {
    tried is Already || tried is Wrote
}

/// The first directory in which the command is, or can be written, decides. Where there is none,
/// the first that someone else's command takes is reported; and where there is none of these either,
/// the error of the last directory, or that there was no directory at all.
pub proof fn law_the_first_success_decides(
    path_dirs: Seq<Seq<char>>,
    dirs: Seq<Seq<char>>,
    tries: Seq<Try>,
    k: int,
)
    requires
        tries.len() == dirs.len(),
    ensures
        0 <= k < tries.len() && is_success(tries[k]) && (forall|j: int|
            0 <= j < k ==> !is_success(#[trigger] tries[j])) ==> Some(
            outcome(path_dirs, dirs, tries),
        ) == ended(path_dirs, dirs[k], tries[k]),
        (forall|j: int| 0 <= j < tries.len() ==> !is_success(#[trigger] tries[j])) ==> {
            &&& 0 <= k < tries.len() && tries[k] is Occupied && (forall|j: int|
                0 <= j < k ==> !(#[trigger] tries[j] is Occupied)) ==> outcome(
                path_dirs,
                dirs,
                tries,
            ) == cli_install::Report::Occupied(tries[k]->Occupied_0)
            &&& tries.len() > 0 && (forall|j: int|
                0 <= j < tries.len() ==> #[trigger] tries[j] is Error) ==> outcome(
                path_dirs,
                dirs,
                tries,
            ) == cli_install::Report::Failed(dirs.last() + ": "@ + tries.last()->Error_0)
            &&& tries.len() == 0 ==> outcome(path_dirs, dirs, tries)
                == cli_install::Report::Failed("no writable directory on PATH"@)
        },
{
    let none = Scan { occupied: None, last_error: None };
    lemma_from_there_on(path_dirs, dirs, tries, 0, none, k);
}

/// What decides from a directory on.
proof fn lemma_from_there_on(
    path_dirs: Seq<Seq<char>>,
    dirs: Seq<Seq<char>>,
    tries: Seq<Try>,
    n: int,
    scan: Scan,
    k: int,
)
    requires
        tries.len() == dirs.len(),
        0 <= n <= dirs.len(),
    ensures
        ({
            let report = reported(path_dirs, dirs, tries, n, scan);
            &&& n <= k < tries.len() && is_success(tries[k]) && (forall|j: int|
                n <= j < k ==> !is_success(#[trigger] tries[j])) ==> Some(report) == ended(
                path_dirs,
                dirs[k],
                tries[k],
            )
            &&& (forall|j: int| n <= j < tries.len() ==> !is_success(#[trigger] tries[j])) ==> {
                &&& scan.occupied matches Some(p) ==> report == cli_install::Report::Occupied(p)
                &&& scan.occupied is None && n <= k < tries.len() && tries[k] is Occupied && (
                forall|j: int| n <= j < k ==> !(#[trigger] tries[j] is Occupied)) ==> report
                    == cli_install::Report::Occupied(tries[k]->Occupied_0)
                &&& scan.occupied is None && n < tries.len() && (forall|j: int|
                    n <= j < tries.len() ==> #[trigger] tries[j] is Error) ==> report
                    == cli_install::Report::Failed(dirs.last() + ": "@ + tries.last()->Error_0)
            }
        }),
    decreases dirs.len() - n,
{
    if n < dirs.len() {
        let next = noted(scan, dirs[n], tries[n]);
        lemma_from_there_on(path_dirs, dirs, tries, n + 1, next, k);
        assert(is_success(tries[n]) || !is_success(tries[n]));
    }
}

/// An installation on its way through the directories.
pub struct UnixInstall {
    path_dirs: Vec<Vec<char>>,
    dirs: Vec<Vec<char>>,
    tried: usize,
    occupied: Option<String>,
    last_error: Option<String>,
}

/// Begins an installation, given the directories of the search path and the home directory.
pub fn platform_install(path_dirs: Vec<Vec<char>>, home: Option<&str>) -> (r: UnixInstall)
    ensures
        r.wf(),
        r.path_dirs() == text::views(path_dirs@),
        r.dirs() == candidates(
            text::views(path_dirs@),
            match home {
                Some(h) => Some(h@),
                None => None,
            },
        ),
        r.tried() == 0,
        r.scan() == (Scan { occupied: None, last_error: None }),
{
    let dirs: Vec<Vec<char>> = candidate_dirs(&path_dirs, home);
    UnixInstall { path_dirs, dirs, tried: 0, occupied: None, last_error: None }
}

impl UnixInstall {
    /// The directories of the search path.
    pub closed spec fn path_dirs(self) -> Seq<Seq<char>> {
        text::views(self.path_dirs@)
    }

    /// The directories to be tried.
    pub closed spec fn dirs(self) -> Seq<Seq<char>> {
        text::views(self.dirs@)
    }

    /// How many were tried.
    pub closed spec fn tried(self) -> int {
        self.tried as int
    }

    /// What is known from them.
    pub closed spec fn scan(self) -> Scan {
        Scan {
            occupied: cli_install::shown(self.occupied),
            last_error: cli_install::shown(self.last_error),
        }
    }

    pub open spec fn wf(self) -> bool {
        0 <= self.tried() <= self.dirs().len()
    }

    /// The directory to be tried next, if there is one left.
    pub fn dir(&self) -> (r: Option<Vec<char>>)
        requires
            self.wf(),
        ensures
            r is Some <==> self.tried() < self.dirs().len(),
            r matches Some(dir) ==> dir@ == self.dirs()[self.tried()],
    {
        if self.tried < self.dirs.len() {
            let dir: Vec<char> = vstd::slice::slice_to_vec(self.dirs[self.tried].as_slice());
            assert(dir@ =~= self.dirs()[self.tried()]);
            Some(dir)
        } else {
            None
        }
    }

    /// Takes what came of the directory that was to be tried; gives the outcome where that ends
    /// the search. One that is taken does not: a later one may be free.
    pub fn take(&mut self, tried: Tried) -> (r: Option<Outcome>)
        requires
            old(self).wf(),
            old(self).tried() < old(self).dirs().len(),
        ensures
            final(self).wf(),
            final(self).path_dirs() == old(self).path_dirs(),
            final(self).dirs() == old(self).dirs(),
            final(self).tried() == old(self).tried() + 1,
            final(self).scan() == noted(
                old(self).scan(),
                old(self).dirs()[old(self).tried()],
                tried@,
            ),
            r is Some <==> ended(
                old(self).path_dirs(),
                old(self).dirs()[old(self).tried()],
                tried@,
            ) is Some,
            r matches Some(outcome) ==> ended(
                old(self).path_dirs(),
                old(self).dirs()[old(self).tried()],
                tried@,
            ) == Some(outcome@),
    {
        let at: usize = self.tried;
        let count: usize = self.dirs.len();
        assert(at < count);
        let ghost dir = self.dirs()[at as int];
        assert(dir == self.dirs@[at as int]@);
        self.tried = at + 1;
        match tried {
            Tried::Already(p) => {
                if search_path::is_listed(
                    Platform::Unix,
                    &self.path_dirs,
                    self.dirs[at].as_slice(),
                ) {
                    Some(Outcome::AlreadyInstalled(p))
                } else {
                    Some(Outcome::InstalledOffPath(p))
                }
            },
            Tried::Wrote(p) => {
                if search_path::is_listed(
                    Platform::Unix,
                    &self.path_dirs,
                    self.dirs[at].as_slice(),
                ) {
                    Some(Outcome::Installed(p))
                } else {
                    Some(Outcome::InstalledOffPath(p))
                }
            },
            Tried::Occupied(p) => {
                if self.occupied.is_none() {
                    self.occupied = Some(p);
                }
                None
            },
            Tried::Error(e) => {
                let mut line: Vec<char> = vstd::slice::slice_to_vec(self.dirs[at].as_slice());
                assert(line@ =~= dir);
                text::extend(&mut line, text::chars_of(": ").as_slice());
                text::extend(&mut line, text::chars_of(e.as_str()).as_slice());
                self.last_error = Some(text::text_of(line.as_slice()));
                None
            },
        }
    }

    /// The outcome where every directory was tried in vain.
    pub fn give_up(self) -> (r: Outcome)
        ensures
            r@ == given_up(self.scan()),
    {
        match (self.occupied, self.last_error) {
            (Some(p), _) => Outcome::Occupied(p),
            (None, Some(e)) => Outcome::Failed(e),
            (None, None) => Outcome::Failed(
                text::text_of(text::chars_of("no writable directory on PATH").as_slice()),
            ),
        }
    }
}

/// What is missing is written, a copy of ours that is not as large as the command is written again,
/// a link of ours that leads elsewhere is made anew, and what is there already is kept.
pub proof fn law_what_is_ours_is_brought_up_to_date(cli: Seq<char>, mode: Mode, dir: Seq<char>)
    requires
        dir.len() == 0 || dir.last() == '/',
    ensures
        decided(cli, mode, Found::Missing) == Decision::Write,
        decided(cli, Mode::Copy, Found::File { marked: true, same_size: false })
            == Decision::Write,
        decided(cli, Mode::Copy, Found::File { marked: true, same_size: true }) == Decision::Keep,
        decided(cli, Mode::Symlink, Found::Link(cli)) == Decision::Keep,
        paths::parts(Platform::Unix, dir + "nermal"@) != paths::parts(Platform::Unix, cli)
            || mode == Mode::Copy ==> decided(cli, mode, Found::Link(dir + "nermal"@))
            == Decision::Write,
        !(decided(cli, mode, Found::Link(dir + "nermal"@)) is Leave),
{
    let name = "nermal"@;
    reveal_strlit("nermal");
    assert(paths::is_name(name)) by {
        assert(name.len() == 6);
        if name.contains('/') {
            let j = choose|j: int| 0 <= j < name.len() && name[j] == '/';
            assert(false);
        }
    }
    assert(paths::inside(Platform::Unix, dir, name) =~= dir + name);
    paths::law_a_joined_name_comes_last(dir, name);
    assert(paths::last_name(Platform::Unix, dir + name) == Some(name));
}

/// A link that leads to anything but a `nermal` is left alone, unless it is the command itself.
pub proof fn law_a_link_to_something_else_is_left_alone(
    cli: Seq<char>,
    mode: Mode,
    dir: Seq<char>,
    name: Seq<char>,
)
    requires
        dir.len() == 0 || dir.last() == '/',
        paths::is_name(name),
        name != "nermal"@,
        mode == Mode::Copy || paths::parts(Platform::Unix, dir + name) != paths::parts(
            Platform::Unix,
            cli,
        ),
    ensures
        decided(cli, mode, Found::Link(dir + name)) == Decision::Leave,
        decided(cli, mode, Found::File { marked: false, same_size: true }) == Decision::Leave,
        decided(cli, mode, Found::File { marked: false, same_size: false }) == Decision::Leave,
{
    assert(paths::inside(Platform::Unix, dir, name) =~= dir + name);
    paths::law_a_joined_name_comes_last(dir, name);
    assert(paths::last_name(Platform::Unix, dir + name) == Some(name));
}

} // verus!
