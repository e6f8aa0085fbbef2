//! Putting the bundled `nermal` command on the search path: what to install where, what to leave
//! alone, and what to say about it.
//!
//! On Unix the command is linked into a directory that is on the search path already; on Windows
//! its own directory is added to the user's search path in the registry.

use vstd::prelude::*;

use crate::paths;
use crate::paths::Platform;
use crate::paths_laws;
use crate::search_path;
use crate::text;

verus! {

/// What an installation did.
#[derive(Debug, PartialEq, Eq)]
pub enum Outcome {
    /// Turned off in the configuration.
    Disabled,
    /// No command beside the program.
    NoBundledCli,
    /// A build for development: panes reach the command, the system was left alone.
    DevBuild,
    /// Reachable already, and from this installation.
    AlreadyInstalled(String),
    /// Put into a directory on the search path.
    Installed(String),
    /// Put somewhere that the search path does not cover.
    InstalledOffPath(String),
    /// Installed, but another one is found first.
    InstalledShadowed { ours: String, winner: String },
    /// Every directory is taken by a command of that name that is not ours to move.
    Occupied(String),
    /// Nowhere to write.
    Failed(String),
}

/// What an outcome stands for.
pub enum Report {
    Disabled,
    NoBundledCli,
    DevBuild,
    AlreadyInstalled(Seq<char>),
    Installed(Seq<char>),
    InstalledOffPath(Seq<char>),
    InstalledShadowed { ours: Seq<char>, winner: Seq<char> },
    Occupied(Seq<char>),
    Failed(Seq<char>),
}

impl View for Outcome {
    type V = Report;

    open spec fn view(&self) -> Report {
        match self {
            Outcome::Disabled => Report::Disabled,
            Outcome::NoBundledCli => Report::NoBundledCli,
            Outcome::DevBuild => Report::DevBuild,
            Outcome::AlreadyInstalled(p) => Report::AlreadyInstalled(p@),
            Outcome::Installed(p) => Report::Installed(p@),
            Outcome::InstalledOffPath(p) => Report::InstalledOffPath(p@),
            Outcome::InstalledShadowed { ours, winner } => Report::InstalledShadowed {
                ours: ours@,
                winner: winner@,
            },
            Outcome::Occupied(p) => Report::Occupied(p@),
            Outcome::Failed(e) => Report::Failed(e@),
        }
    }
}

/// The name of the command.
pub open spec fn cli(platform: Platform) -> Seq<char> {
    match platform {
        Platform::Unix => "nermal"@,
        Platform::Windows => "nermal.exe"@,
    }
}

/// The name of the command.
pub fn cli_name(platform: Platform) -> (r: Vec<char>)
    ensures
        r@ == cli(platform),
        paths::relative(platform, r@),
{
    proof {
        reveal_strlit("nermal");
        reveal_strlit("nermal.exe");
    }
    match platform {
        Platform::Unix => text::chars_of("nermal"),
        Platform::Windows => text::chars_of("nermal.exe"),
    }
}

/// Where the command that comes with a program is: beside the program.
pub open spec fn beside(platform: Platform, exe: Seq<char>) -> Option<Seq<char>> {
    match paths::above(platform, exe) {
        Some(dir) => Some(paths::inside(platform, dir, cli(platform))),
        None => None,
    }
}

/// Where the command that comes with a program is to be looked for, if anywhere.
pub fn bundled_cli(platform: Platform, exe: &str) -> (r: Option<String>)
    ensures
        r is Some <==> beside(platform, exe@) is Some,
        r matches Some(path) ==> beside(platform, exe@) == Some(path@),
{
    let chars: Vec<char> = text::chars_of(exe);
    match paths::parent(platform, chars.as_slice()) {
        Some(dir) => {
            let name: Vec<char> = cli_name(platform);
            let whole: Vec<char> = paths::join(platform, dir, name.as_slice());
            Some(text::text_of(whole.as_slice()))
        },
        None => None,
    }
}

/// Whether a path is in a build directory: its own directory is named after a profile, and there
/// is a `target` at or above that directory.
pub open spec fn is_build(platform: Platform, path: Seq<char>) -> bool {
    let dir = paths::parts(platform, path).drop_last();
    &&& paths::has_parent(platform, path)
    &&& dir.len() > 0
    &&& dir.last() == paths::Part::Normal("debug"@) || dir.last() == paths::Part::Normal(
        "release"@,
    )
    &&& dir.contains(paths::Part::Normal("target"@))
}

/// Whether a component is this name.
fn is_named(part: &paths::Component, name: &str) -> (r: bool)
    ensures
        r == (part@ == paths::Part::Normal(name@)),
{
    match part {
        paths::Component::Normal(found) => {
            let wanted: Vec<char> = text::chars_of(name);
            text::same(found.as_slice(), wanted.as_slice())
        },
        _ => false,
    }
}

/// Whether the command sits in a build directory, both as `target/release` and as
/// `target/<triple>/release`.
pub fn in_a_build_tree(platform: Platform, path: &str) -> (r: bool)
    ensures
        r == is_build(platform, path@),
{
    let chars: Vec<char> = text::chars_of(path);
    let list: Vec<paths::Component> = paths::components(platform, chars.as_slice());
    let ghost whole = paths::parts(platform, path@);
    let ghost dir = whole.drop_last();
    let count: usize = list.len();
    assert(whole.len() == count);
    if count < 2 {
        return false;
    }
    assert(whole.last() == list@[count - 1]@);
    match &list[count - 1] {
        paths::Component::Root => {
            return false;
        },
        paths::Component::Prefix(_) => {
            return false;
        },
        _ => {},
    }
    assert(dir.last() == list@[count - 2]@);
    if !is_named(&list[count - 2], "debug") && !is_named(&list[count - 2], "release") {
        return false;
    }
    let mut i: usize = 0;
    while i < count - 1
        invariant
            i <= count - 1,
            count == list@.len(),
            count >= 2,
            paths::views(list@) == whole,
            dir == whole.drop_last(),
            whole == paths::parts(platform, path@),
            paths::has_parent(platform, path@),
            dir.last() == paths::Part::Normal("debug"@) || dir.last() == paths::Part::Normal(
                "release"@,
            ),
            forall|k: int| 0 <= k < i ==> dir[k] != paths::Part::Normal("target"@),
        decreases count - i,
    {
        assert(dir[i as int] == list@[i as int]@);
        if is_named(&list[i], "target") {
            assert(dir.contains(dir[i as int]));
            return true;
        }
        i += 1;
    }
    false
}

/// What to do first.
#[derive(Debug)]
pub enum Start {
    /// Nothing more than to report, and, where there is a directory, to put it in front of the
    /// search path of this process.
    Stop(Outcome, Option<String>),
    /// To put the directory in front of the search path of this process, and then to install.
    Place(Option<String>),
}

/// What an optional text stands for.
pub open spec fn shown(s: Option<String>) -> Option<Seq<char>> {
    match s {
        Some(t) => Some(t@),
        None => None,
    }
}

/// What is reported without an installation, if there is to be none.
pub open spec fn stopped(
    platform: Platform,
    enabled: bool,
    cli: Option<Seq<char>>,
    debug: bool,
) -> Option<Report> {
    if !enabled {
        Some(Report::Disabled)
    } else {
        match cli {
            None => Some(Report::NoBundledCli),
            Some(path) => if debug || is_build(platform, path) {
                Some(Report::DevBuild)
            } else {
                None
            },
        }
    }
}

/// The directory that panes reach the command in, if there is one to be reached.
pub open spec fn pane_dir(platform: Platform, enabled: bool, cli: Option<Seq<char>>) -> Option<
    Seq<char>,
> {
    match cli {
        Some(path) if enabled => paths::above(platform, path),
        _ => None,
    }
}

/// The directory that a path is in.
fn dir_of(platform: Platform, path: &str) -> (r: Option<String>)
    ensures
        shown(r) == paths::above(platform, path@),
{
    let chars: Vec<char> = text::chars_of(path);
    match paths::parent(platform, chars.as_slice()) {
        Some(dir) => Some(text::text_of(dir)),
        None => None,
    }
}

/// Decides whether to install, given whether that is turned on, the command beside the program if
/// there is one, and whether the program was built for debugging. Panes reach the command in every
/// case in which there is one, before anything else is tried and whatever comes of it.
pub fn install_inner(platform: Platform, enabled: bool, cli: &Option<String>, debug: bool) -> (r:
    Start)
    ensures
        match r {
            Start::Stop(outcome, dir) => stopped(platform, enabled, shown(*cli), debug) == Some(
                outcome@,
            ) && shown(dir) == pane_dir(platform, enabled, shown(*cli)),
            Start::Place(dir) => stopped(platform, enabled, shown(*cli), debug) is None && shown(
                dir,
            ) == pane_dir(platform, enabled, shown(*cli)),
        },
{
    if !enabled {
        return Start::Stop(Outcome::Disabled, None);
    }
    match cli {
        None => Start::Stop(Outcome::NoBundledCli, None),
        Some(path) => {
            let dir: Option<String> = dir_of(platform, path.as_str());
            if debug || in_a_build_tree(platform, path.as_str()) {
                Start::Stop(Outcome::DevBuild, dir)
            } else {
                Start::Place(dir)
            }
        },
    }
}

/// Where something was installed, if it was.
pub open spec fn placed(report: Report) -> Option<Seq<char>> {
    match report {
        Report::AlreadyInstalled(p) => Some(p),
        Report::Installed(p) => Some(p),
        Report::InstalledOffPath(p) => Some(p),
        _ => None,
    }
}

/// The report once it is known which command the search path of the user leads to. To be installed
/// is not to be found: another one further in front wins.
pub open spec fn settled(platform: Platform, report: Report, winner: Option<Seq<char>>) -> Report {
    match (placed(report), winner) {
        (Some(ours), Some(first)) => if paths::parts(platform, first) != paths::parts(
            platform,
            ours,
        ) {
            Report::InstalledShadowed { ours, winner: first }
        } else {
            report
        },
        _ => report,
    }
}

/// The outcome once it is known which command the search path of the user leads to.
pub fn settle(platform: Platform, outcome: Outcome, winner: &Option<String>) -> (r: Outcome)
    ensures
        r@ == settled(platform, outcome@, shown(*winner)),
{
    let ours: String = match &outcome {
        Outcome::AlreadyInstalled(p) => p.clone(),
        Outcome::Installed(p) => p.clone(),
        Outcome::InstalledOffPath(p) => p.clone(),
        _ => {
            return outcome;
        },
    };
    match winner {
        None => outcome,
        Some(first) => {
            let a: Vec<char> = text::chars_of(first.as_str());
            let b: Vec<char> = text::chars_of(ours.as_str());
            if paths::same_path(platform, a.as_slice(), b.as_slice()) {
                outcome
            } else {
                Outcome::InstalledShadowed { ours, winner: first.clone() }
            }
        },
    }
}

/// The first of some directories that holds the command, given which of them hold it as a file.
pub open spec fn first_cli(platform: Platform, dirs: Seq<Seq<char>>, present: Seq<bool>) -> Option<
    Seq<char>,
>
    decreases dirs.len(),
{
    if dirs.len() == 0 || present.len() == 0 {
        None
    } else if present[0] {
        Some(paths::inside(platform, dirs[0], cli(platform)))
    } else {
        first_cli(platform, dirs.skip(1), present.skip(1))
    }
}

/// The first command that the directories of a search path lead to, given which of them hold one.
pub fn first_cli_on(platform: Platform, dirs: &Vec<Vec<char>>, present: &Vec<bool>) -> (r: Option<
    String,
>)
    requires
        dirs@.len() == present@.len(),
    ensures
        shown(r) == first_cli(platform, text::views(dirs@), present@),
{
    let ghost all = text::views(dirs@);
    let mut i: usize = 0;
    assert(all.skip(0) =~= all);
    assert(present@.skip(0) =~= present@);
    while i < dirs.len()
        invariant
            i <= dirs@.len(),
            dirs@.len() == present@.len(),
            all == text::views(dirs@),
            first_cli(platform, all.skip(i as int), present@.skip(i as int)) == first_cli(
                platform,
                all,
                present@,
            ),
        decreases dirs@.len() - i,
    {
        assert(all.skip(i as int)[0] == dirs@[i as int]@);
        assert(present@.skip(i as int)[0] == present@[i as int]);
        if present[i] {
            let name: Vec<char> = cli_name(platform);
            let whole: Vec<char> = paths::join(platform, dirs[i].as_slice(), name.as_slice());
            return Some(text::text_of(whole.as_slice()));
        }
        assert(all.skip(i as int).skip(1) =~= all.skip(i + 1));
        assert(present@.skip(i as int).skip(1) =~= present@.skip(i + 1));
        i += 1;
    }
    None
}

/// How much a line of the log matters.
#[derive(Clone, Copy, Debug, PartialEq, Eq, Structural)]
pub enum Level {
    Debug,
    Info,
    Warn,
}

/// How much a report matters.
pub open spec fn level(report: Report) -> Level {
    match report {
        Report::Disabled | Report::NoBundledCli | Report::DevBuild | Report::AlreadyInstalled(_) =>
        Level::Debug,
        Report::Installed(_) | Report::Occupied(_) => Level::Info,
        _ => Level::Warn,
    }
}

/// What the log says of a report.
pub open spec fn message(report: Report) -> Seq<char> {
    match report {
        Report::Disabled => "cli install skipped: Disabled"@,
        Report::NoBundledCli => "cli install skipped: NoBundledCli"@,
        Report::DevBuild => "cli install skipped: DevBuild"@,
        Report::AlreadyInstalled(p) => "nermal CLI already on PATH at "@ + p,
        Report::Installed(p) => "put the nermal CLI on PATH at "@ + p,
        Report::InstalledOffPath(p) => "installed the nermal CLI at "@ + p
            + ", which is not on your PATH — add it to use `nermal` outside a nermal pane"@,
        Report::InstalledShadowed { ours, winner } => "installed the nermal CLI at "@ + ours
            + ", but `nermal` outside a nermal pane still resolves to "@ + winner
            + " — remove that one, or reorder your PATH, to reach the bundled CLI"@,
        Report::Occupied(p) => "leaving the existing `nermal` at "@ + p
            + " alone; the bundled CLI was not installed"@,
        Report::Failed(e) => "could not put the nermal CLI on PATH: "@ + e,
    }
}

/// Three texts one behind the other.
fn glue(a: &str, b: &str, c: &str) -> (r: Vec<char>)
    ensures
        r@ == a@ + b@ + c@,
{
    let mut out: Vec<char> = text::chars_of(a);
    text::extend(&mut out, text::chars_of(b).as_slice());
    text::extend(&mut out, text::chars_of(c).as_slice());
    out
}

/// What the log says of an outcome, and how much it matters.
pub fn log_line(outcome: &Outcome) -> (r: (Level, String))
    ensures
        r.0 == level(outcome@),
        r.1@ == message(outcome@),
{
    let ghost none = ""@;
    proof {
        reveal_strlit("");
        assert(none =~= Seq::<char>::empty());
    }
    let (level, line): (Level, Vec<char>) = match outcome {
        Outcome::Disabled => (Level::Debug, text::chars_of("cli install skipped: Disabled")),
        Outcome::NoBundledCli => (
            Level::Debug,
            text::chars_of("cli install skipped: NoBundledCli"),
        ),
        Outcome::DevBuild => (Level::Debug, text::chars_of("cli install skipped: DevBuild")),
        Outcome::AlreadyInstalled(p) => (
            Level::Debug,
            glue("nermal CLI already on PATH at ", p.as_str(), ""),
        ),
        Outcome::Installed(p) => (
            Level::Info,
            glue("put the nermal CLI on PATH at ", p.as_str(), ""),
        ),
        Outcome::InstalledOffPath(p) => (
            Level::Warn,
            glue(
                "installed the nermal CLI at ",
                p.as_str(),
                ", which is not on your PATH — add it to use `nermal` outside a nermal pane",
            ),
        ),
        Outcome::InstalledShadowed { ours, winner } => {
            let mut out: Vec<char> = glue(
                "installed the nermal CLI at ",
                ours.as_str(),
                ", but `nermal` outside a nermal pane still resolves to ",
            );
            text::extend(&mut out, text::chars_of(winner.as_str()).as_slice());
            text::extend(
                &mut out,
                text::chars_of(
                    " — remove that one, or reorder your PATH, to reach the bundled CLI",
                ).as_slice(),
            );
            (Level::Warn, out)
        },
        Outcome::Occupied(p) => (
            Level::Info,
            glue(
                "leaving the existing `nermal` at ",
                p.as_str(),
                " alone; the bundled CLI was not installed",
            ),
        ),
        Outcome::Failed(e) => (
            Level::Warn,
            glue("could not put the nermal CLI on PATH: ", e.as_str(), ""),
        ),
    };
    assert(line@ =~= message(outcome@));
    (level, text::text_of(line.as_slice()))
}

/// The report of an installation as a whole, given what the installation itself came to, where one
/// was tried, and which command the search path leads to then.
pub open spec fn installed(
    platform: Platform,
    enabled: bool,
    cli: Option<Seq<char>>,
    debug: bool,
    tried: Report,
    winner: Option<Seq<char>>,
) -> Report {
    match stopped(platform, enabled, cli, debug) {
        Some(report) => report,
        None => settled(platform, tried, winner),
    }
}

/// The outcome of an installation as a whole and the line for the log, given whether installing is
/// turned on, the command beside the program if there is one, whether the program was built for
/// debugging, what the installation itself came to, and which command the search path of the user
/// leads to then. The last two count only where an installation was to be tried.
pub fn install(
    platform: Platform,
    enabled: bool,
    cli: &Option<String>,
    debug: bool,
    tried: Outcome,
    winner: &Option<String>,
) -> (r: (Outcome, Level, String))
    ensures
        r.0@ == installed(platform, enabled, shown(*cli), debug, tried@, shown(*winner)),
        r.1 == level(r.0@),
        r.2@ == message(r.0@),
{
    let outcome: Outcome = match install_inner(platform, enabled, cli, debug) {
        Start::Stop(outcome, _) => outcome,
        Start::Place(_) => settle(platform, tried, winner),
    };
    let (level, line) = log_line(&outcome);
    (outcome, level, line)
}

/// On Unix, the command that comes with a program is the `nermal` in the directory of the program.
pub proof fn law_the_command_is_beside_the_program(
    front: Seq<char>,
    last: Seq<char>,
    name: Seq<char>,
)
    requires
        front.len() == 0 || front.last() == '/',
        paths::is_name(last),
        paths::is_name(name),
    ensures
        beside(Platform::Unix, front + last + seq!['/'] + name) == Some(
            front + last + "/nermal"@,
        ),
        pane_dir(Platform::Unix, true, Some(front + last + seq!['/'] + name)) == Some(front + last),
        pane_dir(Platform::Unix, false, Some(front + last + seq!['/'] + name)) is None,
        pane_dir(Platform::Unix, true, None) is None,
{
    let dir = front + last;
    paths_laws::law_the_parent_is_the_directory(front, last, name);
    reveal_strlit("nermal");
    reveal_strlit("/nermal");
    assert(last.contains(last.last()));
    assert(dir.last() == last.last());
    assert(dir.push('/') + "nermal"@ =~= dir + "/nermal"@);
}

/// On Unix, the command is in a build directory if and only if its own directory is `debug` or
/// `release` and some directory on the way is `target`.
pub proof fn law_a_build_directory_is_recognised(names: Seq<Seq<char>>, name: Seq<char>)
    requires
        names.len() > 0,
        forall|j: int| 0 <= j < names.len() ==> paths::is_name(#[trigger] names[j]),
        paths::is_name(name),
    ensures
        is_build(Platform::Unix, search_path::from_root(names.push(name))) <==> (names.last()
            == "debug"@ || names.last() == "release"@) && names.contains("target"@),
{
    let all = names.push(name);
    let s = search_path::from_root(all);
    assert forall|j: int| 0 <= j < all.len() implies paths::is_name(#[trigger] all[j]) by {
        if j < names.len() {
            assert(all[j] == names[j]);
        }
    }
    paths_laws::law_a_path_is_its_names(all);
    let list = paths::parts(Platform::Unix, s);
    let dir = list.drop_last();
    assert(list.last() == paths::Part::Normal(name));
    assert(dir.last() == paths::Part::Normal(names.last()));
    if names.contains("target"@) {
        let j = choose|j: int| 0 <= j < names.len() && names[j] == "target"@;
        assert(dir[j + 1] == paths::Part::Normal("target"@));
    }
    if dir.contains(paths::Part::Normal("target"@)) {
        let j = choose|j: int| 0 <= j < dir.len() && dir[j] == paths::Part::Normal("target"@);
        assert(j > 0);
        assert(dir[j] == paths::Part::Normal(names[j - 1]));
        assert(names.contains(names[j - 1]));
    }
}

/// Nothing is installed where that is turned off, where there is no command, or where the command
/// is built for development, and then nothing that was tried counts.
pub proof fn law_nothing_is_installed_without_cause(
    platform: Platform,
    path: Seq<char>,
    debug: bool,
    tried: Report,
    winner: Option<Seq<char>>,
)
    ensures
        installed(platform, false, Some(path), debug, tried, winner) is Disabled,
        installed(platform, false, None, debug, tried, winner) is Disabled,
        installed(platform, true, None, debug, tried, winner) is NoBundledCli,
        installed(platform, true, Some(path), true, tried, winner) is DevBuild,
        is_build(platform, path) ==> installed(platform, true, Some(path), debug, tried, winner)
            is DevBuild,
{
}

/// Else what was tried is what came of it, but that what was put somewhere is reported as shadowed
/// where the search path leads to something else.
pub proof fn law_what_is_found_first_wins(
    platform: Platform,
    path: Seq<char>,
    tried: Report,
    first: Seq<char>,
    ours: Seq<char>,
)
    requires
        !is_build(platform, path),
    ensures
        ({
            let without = installed(platform, true, Some(path), false, tried, None);
            let with = installed(platform, true, Some(path), false, tried, Some(first));
            let put = tried == Report::AlreadyInstalled(ours) || tried == Report::Installed(ours)
                || tried == Report::InstalledOffPath(ours);
            &&& without == tried
            &&& with == tried || with is InstalledShadowed
            &&& put && first == ours ==> with == tried
            &&& put && paths::parts(platform, first) != paths::parts(platform, ours) ==> with
                == (Report::InstalledShadowed { ours, winner: first })
            &&& tried is Occupied || tried is Failed ==> with == tried
        }),
{
}

/// The command that is found is the one in the first directory that holds one.
pub proof fn law_the_first_directory_with_the_command_is_found(
    dirs: Seq<Seq<char>>,
    present: Seq<bool>,
    k: int,
)
    requires
        dirs.len() == present.len(),
    ensures
        0 <= k < dirs.len() && present[k] && (forall|j: int|
            0 <= j < k ==> !(#[trigger] present[j])) ==> first_cli(Platform::Unix, dirs, present)
            == Some(
            if dirs[k].len() == 0 || dirs[k].last() == '/' {
                dirs[k] + "nermal"@
            } else {
                dirs[k] + "/nermal"@
            },
        ),
        (forall|j: int| 0 <= j < dirs.len() ==> !(#[trigger] present[j])) ==> first_cli(
            Platform::Unix,
            dirs,
            present,
        ) is None,
    decreases dirs.len(),
{
    if dirs.len() > 0 {
        if present[0] {
            reveal_strlit("nermal");
            reveal_strlit("/nermal");
            if dirs[0].len() > 0 && dirs[0].last() != '/' {
                assert(dirs[0].push('/') + "nermal"@ =~= dirs[0] + "/nermal"@);
            }
            if k > 0 && (forall|j: int| 0 <= j < k ==> !(#[trigger] present[j])) {
                assert(!present[0]);
            }
        } else {
            let rest = present.skip(1);
            law_the_first_directory_with_the_command_is_found(dirs.skip(1), rest, k - 1);
            if forall|j: int| 0 <= j < k ==> !(#[trigger] present[j]) {
                assert forall|j: int| 0 <= j < k - 1 && j < rest.len() implies !(
                #[trigger] rest[j]) by {
                    assert(rest[j] == present[j + 1]);
                }
            }
            if forall|j: int| 0 <= j < dirs.len() ==> !(#[trigger] present[j]) {
                assert forall|j: int| 0 <= j < rest.len() implies !(#[trigger] rest[j]) by {
                    assert(rest[j] == present[j + 1]);
                }
            }
        }
    }
}

/// The log names what it speaks of, and warns where the command cannot be reached.
pub proof fn law_the_log_says_where(p: Seq<char>, q: Seq<char>)
    ensures
        message(Report::AlreadyInstalled(p)).skip("nermal CLI already on PATH at "@.len() as int)
            == p,
        message(Report::Installed(p)).skip("put the nermal CLI on PATH at "@.len() as int) == p,
        message(Report::Failed(p)).skip(
            "could not put the nermal CLI on PATH: "@.len() as int,
        ) == p,
        ("installed the nermal CLI at "@ + p).is_prefix_of(message(Report::InstalledOffPath(p))),
        ("installed the nermal CLI at "@ + p).is_prefix_of(
            message(Report::InstalledShadowed { ours: p, winner: q }),
        ),
        ("leaving the existing `nermal` at "@ + p).is_prefix_of(message(Report::Occupied(p))),
        level(Report::InstalledOffPath(p)) == Level::Warn,
        level(Report::InstalledShadowed { ours: p, winner: q }) == Level::Warn,
        level(Report::Failed(p)) == Level::Warn,
        level(Report::Installed(p)) == Level::Info,
        level(Report::Occupied(p)) == Level::Info,
        level(Report::AlreadyInstalled(p)) == Level::Debug,
        level(Report::Disabled) == Level::Debug,
        level(Report::NoBundledCli) == Level::Debug,
        level(Report::DevBuild) == Level::Debug,
{
}

} // verus!
