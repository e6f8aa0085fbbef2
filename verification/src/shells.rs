//! Shells: what a shell is, how it is named, and which ones a Unix machine has.

use vstd::prelude::*;

use crate::paths;
use crate::paths::Platform;
use crate::text;

verus! {

/// A shell that can be offered.
#[derive(Debug, Clone, PartialEq, Eq)]
pub struct DetectedShell {
    pub label: String,
    pub program: String,
    pub args: Vec<String>,
    /// The arguments come from the detection of shells and not from the user.
    pub args_are_nermal_defaults: bool,
    /// The user wrote this row.
    pub user_authored: bool,
}

/// What a shell stands for.
#[verifier::ext_equal]
pub struct Shell {
    pub label: Seq<char>,
    pub program: Seq<char>,
    pub args: Seq<Seq<char>>,
    pub args_are_nermal_defaults: bool,
    pub user_authored: bool,
}

impl View for DetectedShell {
    type V = Shell;

    open spec fn view(&self) -> Shell {
        Shell {
            label: self.label@,
            program: self.program@,
            args: text::strings(self.args@),
            args_are_nermal_defaults: self.args_are_nermal_defaults,
            user_authored: self.user_authored,
        }
    }
}

/// What some shells stand for.
pub open spec fn views(list: Seq<DetectedShell>) -> Seq<Shell> {
    Seq::new(list.len(), |i: int| list[i]@)
}

/// A shell without arguments that was found.
pub open spec fn plain(label: Seq<char>, program: Seq<char>) -> Shell {
    Shell { label, program, args: seq![], args_are_nermal_defaults: true, user_authored: false }
}

/// A text as a string.
pub fn owned(s: &str) -> (r: String)
    ensures
        r@ == s@,
{
    text::text_of(text::chars_of(s).as_slice())
}

impl DetectedShell {
    /// A shell without arguments that was found.
    pub fn bare(label: &str, program: &str) -> (r: Self)
        ensures
            r@ == plain(label@, program@),
    {
        let r = DetectedShell {
            label: owned(label),
            program: owned(program),
            args: Vec::new(),
            args_are_nermal_defaults: true,
            user_authored: false,
        };
        assert(r@.args =~= seq![]);
        r
    }

    /// A shell as a peer describes it. An older one says neither where the arguments come from,
    /// which were all defaults then, nor who wrote the row, which was never the user.
    pub fn from_peer(
        label: String,
        program: String,
        args: Vec<String>,
        args_are_nermal_defaults: Option<bool>,
        user_authored: Option<bool>,
    ) -> (r: Self)
        ensures
            r@ == (Shell {
                label: label@,
                program: program@,
                args: text::strings(args@),
                args_are_nermal_defaults: match args_are_nermal_defaults {
                    Some(b) => b,
                    None => true,
                },
                user_authored: match user_authored {
                    Some(b) => b,
                    None => false,
                },
            }),
    {
        DetectedShell {
            label,
            program,
            args,
            args_are_nermal_defaults: match args_are_nermal_defaults {
                Some(b) => b,
                None => default_true(),
            },
            user_authored: match user_authored {
                Some(b) => b,
                None => false,
            },
        }
    }
}

/// What is taken for the origin of arguments that a peer says nothing of.
pub fn default_true() -> (r: bool)
    ensures
        r,
{
    true
}

/// The name of a program: what its path ends in, or the whole where that is no name. On Windows
/// the case of letters and an `.exe` at the end do not belong to it.
pub open spec fn base(platform: Platform, program: Seq<char>) -> Seq<char> {
    let name = match paths::last_name(platform, program) {
        Some(name) => name,
        None => program,
    };
    match platform {
        Platform::Unix => name,
        Platform::Windows => {
            let low = text::lowered(name);
            if low.len() >= 4 && low.skip(low.len() - 4) == ".exe"@ {
                low.take(low.len() - 4)
            } else {
                low
            }
        },
    }
}

/// The name of a program.
pub fn basename(platform: Platform, program: &str) -> (r: String)
    ensures
        r@ == base(platform, program@),
{
    let chars: Vec<char> = text::chars_of(program);
    let name: Vec<char> = match paths::file_name(platform, chars.as_slice()) {
        Some(name) => name,
        None => chars,
    };
    match platform {
        Platform::Unix => text::text_of(name.as_slice()),
        Platform::Windows => {
            let low: Vec<char> = text::to_lowered(name.as_slice());
            let exe: Vec<char> = text::chars_of(".exe");
            proof {
                reveal_strlit(".exe");
            }
            let n: usize = low.len();
            if n >= 4 {
                let tail: &[char] = vstd::slice::slice_subrange(low.as_slice(), n - 4, n);
                assert(tail@ =~= low@.skip(n - 4));
                if text::same(tail, exe.as_slice()) {
                    let front: &[char] = vstd::slice::slice_subrange(low.as_slice(), 0, n - 4);
                    assert(front@ =~= low@.take(n - 4));
                    return text::text_of(front);
                }
            }
            text::text_of(low.as_slice())
        },
    }
}

/// Whether a program is named without a directory, so that it is looked for along the search path.
pub open spec fn is_bare(platform: Platform, program: Seq<char>) -> bool {
    paths::parts(platform, program).len() <= 1
}

/// Whether a program is named without a directory.
pub fn is_bare_program(platform: Platform, program: &str) -> (r: bool)
    ensures
        r == is_bare(platform, program@),
{
    let chars: Vec<char> = text::chars_of(program);
    let list: Vec<paths::Component> = paths::components(platform, chars.as_slice());
    assert(paths::views(list@).len() == list@.len());
    list.len() <= 1
}

/// The label of a shell: its name, but for Nushell, which has the same label everywhere.
pub open spec fn label_of(name: Seq<char>) -> Seq<char> {
    if text::same_letters(name, "nu"@) {
        "Nushell"@
    } else {
        name
    }
}

/// The label of a shell.
pub fn shell_label(name: &str) -> (r: String)
    ensures
        r@ == label_of(name@),
{
    let chars: Vec<char> = text::chars_of(name);
    let nu: Vec<char> = text::chars_of("nu");
    if text::eq_letters(chars.as_slice(), nu.as_slice()) {
        owned("Nushell")
    } else {
        text::text_of(chars.as_slice())
    }
}

/// The login shell: what the user database says, and else what the environment says, whichever is
/// not blank.
pub open spec fn login(passwd: Option<Seq<char>>, env: Option<Seq<char>>) -> Seq<char> {
    if passwd matches Some(p) && text::trimmed(p).len() > 0 {
        text::trimmed(passwd->0)
    } else if env matches Some(e) && text::trimmed(e).len() > 0 {
        text::trimmed(env->0)
    } else {
        "sh"@
    }
}

/// What an optional string stands for.
pub open spec fn shown(s: Option<String>) -> Option<Seq<char>> {
    match s {
        Some(t) => Some(t@),
        None => None,
    }
}

/// Picks the login shell. The environment keeps what it was when the session began, so the user
/// database goes first.
pub fn pick_login_shell(passwd: &Option<String>, env: &Option<String>) -> (r: String)
    ensures
        r@ == login(shown(*passwd), shown(*env)),
{
    if let Some(p) = passwd {
        let chars: Vec<char> = text::chars_of(p.as_str());
        let name: &[char] = text::trim(chars.as_slice());
        if name.len() > 0 {
            return text::text_of(name);
        }
    }
    if let Some(e) = env {
        let chars: Vec<char> = text::chars_of(e.as_str());
        let name: &[char] = text::trim(chars.as_slice());
        if name.len() > 0 {
            return text::text_of(name);
        }
    }
    owned("sh")
}

/// The default shell of a Windows machine: PowerShell 7 where it was found.
pub open spec fn windows_default(pwsh: Option<Seq<char>>) -> Seq<char> {
    match pwsh {
        Some(p) => p,
        None => "powershell.exe"@,
    }
}

/// The default shell of a Windows machine.
pub fn windows_default_shell(pwsh: &Option<String>) -> (r: String)
    ensures
        r@ == windows_default(shown(*pwsh)),
{
    match pwsh {
        Some(p) => p.clone(),
        None => owned("powershell.exe"),
    }
}

/// The shell that a session begins with.
pub open spec fn first_shell(
    platform: Platform,
    passwd: Option<Seq<char>>,
    env: Option<Seq<char>>,
    pwsh: Option<Seq<char>>,
) -> Seq<char> {
    match platform {
        Platform::Unix => login(passwd, env),
        Platform::Windows => windows_default(pwsh),
    }
}

/// The shell that a session begins with, given what the user database and the environment say of
/// it, and where PowerShell 7 was found.
pub fn login_shell(
    platform: Platform,
    passwd: &Option<String>,
    env: &Option<String>,
    pwsh: &Option<String>,
) -> (r: String)
    ensures
        r@ == first_shell(platform, shown(*passwd), shown(*env), shown(*pwsh)),
{
    match platform {
        Platform::Unix => pick_login_shell(passwd, env),
        Platform::Windows => windows_default_shell(pwsh),
    }
}

/// The name of the default shell, given the configured one and the one that a session begins with.
pub open spec fn default_name(
    platform: Platform,
    configured: Option<Seq<char>>,
    login: Seq<char>,
) -> Seq<char> {
    if configured matches Some(p) && text::trimmed(p).len() > 0 {
        base(platform, configured->0)
    } else {
        base(platform, login)
    }
}

/// The name of the default shell.
pub fn default_shell_name(platform: Platform, configured: Option<&str>, login: &str) -> (r: String)
    ensures
        r@ == default_name(
            platform,
            match configured {
                Some(p) => Some(p@),
                None => None,
            },
            login@,
        ),
{
    if let Some(p) = configured {
        let chars: Vec<char> = text::chars_of(p);
        if text::trim(chars.as_slice()).len() > 0 {
            return basename(platform, p);
        }
    }
    basename(platform, login)
}

/// How much room an entry of the user database gets at first, given what the system recommends.
pub fn first_buffer(recommended: i64) -> (r: usize)
    requires
        recommended <= usize::MAX,
    ensures
        r == (if recommended > 0 {
            recommended as int
        } else {
            1024
        }),
{
    if recommended > 0 {
        recommended as usize
    } else {
        1024
    }
}

/// What to do after a look into the user database.
#[derive(Clone, Copy, Debug, PartialEq, Eq, Structural)]
pub enum PasswdStep {
    /// Look again with this much room.
    Again(usize),
    /// There is nothing to be had.
    Nothing,
    /// Take what was found.
    Take,
}

/// Decides what to do after a look into the user database, given the room it had, whether that was
/// too little, whether the look failed, and whether it found an entry with a shell. Room is doubled
/// up to a limit.
pub fn passwd_step(room: usize, too_small: bool, failed: bool, found: bool) -> (r: PasswdStep)
    ensures
        r == (if too_small && room < 65536 {
            PasswdStep::Again((room * 2) as usize)
        } else if too_small || failed || !found {
            PasswdStep::Nothing
        } else {
            PasswdStep::Take
        }),
{
    if too_small && room < 65536 {
        PasswdStep::Again(room * 2)
    } else if too_small || failed || !found {
        PasswdStep::Nothing
    } else {
        PasswdStep::Take
    }
}

/// Whether a line of `/etc/shells` names a shell.
pub open spec fn names_shell(line: Seq<char>) -> bool {
    let name = text::trimmed(line);
    name.len() > 0 && name[0] != '#'
}

/// The shells that the first `upto` lines of `/etc/shells` name.
pub open spec fn etc_shells(lines: Seq<Seq<char>>, upto: int) -> Seq<Seq<char>>
    decreases upto,
{
    if upto <= 0 {
        seq![]
    } else if names_shell(lines[upto - 1]) {
        etc_shells(lines, upto - 1).push(text::trimmed(lines[upto - 1]))
    } else {
        etc_shells(lines, upto - 1)
    }
}

/// The shells that `/etc/shells` names.
pub fn parse_etc_shells(content: &str) -> (r: Vec<String>)
    ensures
        text::strings(r@) == etc_shells(
            text::lines_of(content@),
            text::lines_of(content@).len() as int,
        ),
{
    let whole: Vec<char> = text::chars_of(content);
    let lines: Vec<Vec<char>> = text::lines(whole.as_slice());
    let ghost all = text::lines_of(content@);
    let mut out: Vec<String> = Vec::new();
    let mut i: usize = 0;
    assert(text::strings(out@) =~= Seq::<Seq<char>>::empty());
    while i < lines.len()
        invariant
            i <= lines@.len(),
            all == text::views(lines@),
            text::strings(out@) == etc_shells(all, i as int),
        decreases lines@.len() - i,
    {
        assert(all[i as int] == lines@[i as int]@);
        let name: &[char] = text::trim(lines[i].as_slice());
        if name.len() > 0 && name[0] != '#' {
            let ghost before = text::strings(out@);
            out.push(text::text_of(name));
            assert(text::strings(out@) =~= before.push(name@));
        }
        i += 1;
    }
    out
}

/// Whether one of the first `upto` paths that are there has a name.
pub open spec fn is_taken(
    paths: Seq<Seq<char>>,
    present: Seq<bool>,
    name: Seq<char>,
    upto: int,
) -> bool {
    exists|j: int| 0 <= j < upto && present[j] && base(Platform::Unix, #[trigger] paths[j]) == name
}

/// The shells among the first `upto` paths that are there, one for each name: the first.
pub open spec fn first_named(paths: Seq<Seq<char>>, present: Seq<bool>, upto: int) -> Seq<Shell>
    decreases upto,
{
    if upto <= 0 {
        seq![]
    } else {
        let front = first_named(paths, present, upto - 1);
        let name = base(Platform::Unix, paths[upto - 1]);
        if present[upto - 1] && !is_taken(paths, present, name, upto - 1) {
            front.push(plain(label_of(name), paths[upto - 1]))
        } else {
            front
        }
    }
}

/// The shells among some paths, given which of them are files; one for each name, the first of it.
pub fn unix_shells_from(candidates: &Vec<String>, present: &Vec<bool>) -> (r: Vec<DetectedShell>)
    requires
        candidates@.len() == present@.len(),
    ensures
        views(r@) == first_named(
            text::strings(candidates@),
            present@,
            candidates@.len() as int,
        ),
{
    let ghost all = text::strings(candidates@);
    let mut seen: Vec<String> = Vec::new();
    let mut out: Vec<DetectedShell> = Vec::new();
    let mut i: usize = 0;
    assert(views(out@) =~= Seq::<Shell>::empty());
    while i < candidates.len()
        invariant
            i <= candidates@.len(),
            candidates@.len() == present@.len(),
            all == text::strings(candidates@),
            views(out@) == first_named(all, present@, i as int),
            forall|name: Seq<char>|
                text::strings(seen@).contains(name) <==> #[trigger] is_taken(
                    all,
                    present@,
                    name,
                    i as int,
                ),
        decreases candidates@.len() - i,
    {
        assert(all[i as int] == candidates@[i as int]@);
        if present[i] {
            let name: String = basename(Platform::Unix, candidates[i].as_str());
            let known: bool = is_among(&seen, name.as_str());
            let ghost was = text::strings(seen@);
            if !known {
                let ghost before = views(out@);
                let label: String = shell_label(name.as_str());
                out.push(DetectedShell::bare(label.as_str(), candidates[i].as_str()));
                assert(views(out@) =~= before.push(plain(label_of(name@), all[i as int])));
                let ghost fresh = name@;
                seen.push(name);
                assert(text::strings(seen@) =~= was.push(fresh));
            }
            proof {
                lemma_taken_next(all, present@, i as int);
                let fresh = base(Platform::Unix, all[i as int]);
                assert forall|n: Seq<char>|
                    text::strings(seen@).contains(n) <==> #[trigger] is_taken(
                        all,
                        present@,
                        n,
                        i + 1,
                    ) by {
                    assert(was.contains(n) <==> is_taken(all, present@, n, i as int));
                    if !known {
                        assert(was.push(fresh).contains(n) <==> was.contains(n) || n == fresh) by {
                            if was.contains(n) {
                                let k = choose|k: int| 0 <= k < was.len() && was[k] == n;
                                assert(was.push(fresh)[k] == n);
                            }
                            if n == fresh {
                                assert(was.push(fresh)[was.len() as int] == n);
                            }
                        }
                    }
                }
            }
        } else {
            proof {
                lemma_taken_next(all, present@, i as int);
            }
        }
        i += 1;
    }
    out
}

/// One more path takes its name, if it is there.
proof fn lemma_taken_next(paths: Seq<Seq<char>>, present: Seq<bool>, upto: int)
    requires
        0 <= upto,
    ensures
        forall|name: Seq<char>| #[trigger]
            is_taken(paths, present, name, upto + 1) <==> is_taken(paths, present, name, upto) || (
            present[upto] && base(Platform::Unix, paths[upto]) == name),
{
    assert forall|name: Seq<char>| #[trigger]
        is_taken(paths, present, name, upto + 1) <==> is_taken(paths, present, name, upto) || (
        present[upto] && base(Platform::Unix, paths[upto]) == name) by {
        if is_taken(paths, present, name, upto) {
            let j = choose|j: int|
                0 <= j < upto && present[j] && base(Platform::Unix, #[trigger] paths[j]) == name;
            assert(base(Platform::Unix, paths[j]) == name);
        }
        if present[upto] && base(Platform::Unix, paths[upto]) == name {
            assert(base(Platform::Unix, paths[upto]) == name);
        }
    }
}

/// Whether a text is among others.
pub fn is_among(list: &Vec<String>, s: &str) -> (r: bool)
    ensures
        r == text::strings(list@).contains(s@),
{
    let ghost all = text::strings(list@);
    let mut i: usize = 0;
    while i < list.len()
        invariant
            i <= list@.len(),
            all == text::strings(list@),
            forall|k: int| 0 <= k < i ==> all[k] != s@,
        decreases list@.len() - i,
    {
        assert(all[i as int] == list@[i as int]@);
        if text::same_text(list[i].as_str(), s) {
            return true;
        }
        i += 1;
    }
    false
}

/// The first path of a name that is there is offered, whatever comes behind it.
pub proof fn law_the_first_of_a_name_is_offered(paths: Seq<Seq<char>>, present: Seq<bool>, k: int)
    requires
        0 <= k < paths.len(),
        present[k],
        !is_taken(paths, present, base(Platform::Unix, paths[k]), k),
    ensures
        first_named(paths, present, paths.len() as int).contains(
            plain(label_of(base(Platform::Unix, paths[k])), paths[k]),
        ),
{
    lemma_offered(paths, present, k, paths.len() as int);
}

proof fn lemma_offered(paths: Seq<Seq<char>>, present: Seq<bool>, k: int, upto: int)
    requires
        0 <= k < upto <= paths.len(),
        present[k],
        !is_taken(paths, present, base(Platform::Unix, paths[k]), k),
    ensures
        first_named(paths, present, upto).contains(
            plain(label_of(base(Platform::Unix, paths[k])), paths[k]),
        ),
    decreases upto,
{
    let row = plain(label_of(base(Platform::Unix, paths[k])), paths[k]);
    let front = first_named(paths, present, upto - 1);
    let all = first_named(paths, present, upto);
    if k == upto - 1 {
        assert(all[front.len() as int] == row);
    } else {
        lemma_offered(paths, present, k, upto - 1);
        let i = choose|i: int| 0 <= i < front.len() && front[i] == row;
        assert(all[i] == row);
    }
}

/// What is offered is there, and no two shells that are offered have the same name.
pub proof fn law_each_name_is_offered_once(
    paths: Seq<Seq<char>>,
    present: Seq<bool>,
    upto: int,
    i: int,
    j: int,
)
    requires
        0 <= upto <= paths.len(),
        0 <= i < j < first_named(paths, present, upto).len(),
    ensures
        base(Platform::Unix, first_named(paths, present, upto)[i].program) != base(
            Platform::Unix,
            first_named(paths, present, upto)[j].program,
        ),
    decreases upto,
{
    let front = first_named(paths, present, upto - 1);
    if j < front.len() {
        law_each_name_is_offered_once(paths, present, upto - 1, i, j);
    } else {
        let k = law_what_is_offered_is_there(paths, present, upto - 1, i);
        assert(base(Platform::Unix, paths[k]) == base(Platform::Unix, front[i].program));
    }
}

/// A shell that is offered is one of the paths that are there, under the label of its name.
pub proof fn law_what_is_offered_is_there(
    paths: Seq<Seq<char>>,
    present: Seq<bool>,
    upto: int,
    i: int,
) -> (k: int)
    requires
        0 <= upto <= paths.len(),
        0 <= i < first_named(paths, present, upto).len(),
    ensures
        0 <= k < upto,
        present[k],
        first_named(paths, present, upto)[i] == plain(
            label_of(base(Platform::Unix, paths[k])),
            paths[k],
        ),
    decreases upto,
{
    if i < first_named(paths, present, upto - 1).len() {
        law_what_is_offered_is_there(paths, present, upto - 1, i)
    } else {
        upto - 1
    }
}

/// The names of the shells that are looked for along the search path.
pub open spec fn probed_names() -> Seq<Seq<char>> {
    seq![
        "bash"@,
        "zsh"@,
        "fish"@,
        "nu"@,
        "pwsh"@,
        "elvish"@,
        "xonsh"@,
        "sh"@,
        "ksh"@,
        "dash"@,
        "tcsh"@,
        "csh"@,
    ]
}

/// The names of the shells that are looked for along the search path.
pub fn path_probed_shells() -> (r: Vec<Vec<char>>)
    ensures
        text::views(r@) == probed_names(),
{
    let mut out: Vec<Vec<char>> = Vec::new();
    out.push(text::chars_of("bash"));
    out.push(text::chars_of("zsh"));
    out.push(text::chars_of("fish"));
    out.push(text::chars_of("nu"));
    out.push(text::chars_of("pwsh"));
    out.push(text::chars_of("elvish"));
    out.push(text::chars_of("xonsh"));
    out.push(text::chars_of("sh"));
    out.push(text::chars_of("ksh"));
    out.push(text::chars_of("dash"));
    out.push(text::chars_of("tcsh"));
    out.push(text::chars_of("csh"));
    assert(text::views(out@) =~= probed_names());
    out
}

/// The directories of a search path that begin at the root.
pub open spec fn rooted(dirs: Seq<Seq<char>>) -> Seq<Seq<char>>
    decreases dirs.len(),
{
    if dirs.len() == 0 {
        seq![]
    } else {
        let front = rooted(dirs.drop_last());
        if dirs.last().len() > 0 && dirs.last()[0] == '/' {
            front.push(dirs.last())
        } else {
            front
        }
    }
}

/// A name in each of some directories.
pub open spec fn in_each(dirs: Seq<Seq<char>>, name: Seq<char>) -> Seq<Seq<char>> {
    Seq::new(dirs.len(), |i: int| text::cut_end(dirs[i], seq!['/']).push('/') + name)
}

/// The first `n` names, each in every one of some directories.
pub open spec fn names_in_each(dirs: Seq<Seq<char>>, n: int) -> Seq<Seq<char>>
    decreases n,
{
    if n <= 0 {
        seq![]
    } else {
        names_in_each(dirs, n - 1) + in_each(dirs, probed_names()[n - 1])
    }
}

/// Where the shells may be along a search path: each name in every directory, in the order of the
/// search path.
pub open spec fn probes(path: Seq<char>) -> Seq<Seq<char>> {
    names_in_each(rooted(text::pieces(path, ':')), probed_names().len() as int)
}

/// Where the shells may be along a search path.
pub fn path_shell_candidates(path_var: &str) -> (r: Vec<String>)
    ensures
        text::strings(r@) == probes(path_var@),
{
    let chars: Vec<char> = text::chars_of(path_var);
    let list: Vec<Vec<char>> = text::split(chars.as_slice(), ':');
    let ghost all = text::pieces(path_var@, ':');
    let mut dirs: Vec<Vec<char>> = Vec::new();
    let mut i: usize = 0;
    assert(text::views(dirs@) =~= rooted(all.take(0)));
    while i < list.len()
        invariant
            i <= list@.len(),
            all == text::views(list@),
            text::views(dirs@) == rooted(all.take(i as int)),
        decreases list@.len() - i,
    {
        let one: &[char] = list[i].as_slice();
        let ghost before = text::views(dirs@);
        proof {
            assert(all.take(i + 1).drop_last() =~= all.take(i as int));
            assert(all.take(i + 1).last() == one@);
        }
        if one.len() > 0 && one[0] == '/' {
            let copy: Vec<char> = vstd::slice::slice_to_vec(one);
            assert(copy@ =~= one@);
            dirs.push(copy);
            assert(text::views(dirs@) =~= before.push(one@));
        }
        i += 1;
    }
    assert(all.take(i as int) =~= all);
    let ghost places = text::views(dirs@);
    let names: Vec<Vec<char>> = path_probed_shells();
    let slash: [char; 1] = ['/'];
    assert(slash@ =~= seq!['/']);
    let mut out: Vec<String> = Vec::new();
    let mut n: usize = 0;
    assert(text::strings(out@) =~= Seq::<Seq<char>>::empty());
    while n < names.len()
        invariant
            n <= names@.len(),
            text::views(names@) == probed_names(),
            places == text::views(dirs@),
            slash@ == seq!['/'],
            text::strings(out@) == names_in_each(places, n as int),
        decreases names@.len() - n,
    {
        let name: &[char] = names[n].as_slice();
        assert(probed_names()[n as int] == name@);
        let ghost before = text::strings(out@);
        let ghost row = in_each(places, name@);
        let mut k: usize = 0;
        assert(text::strings(out@) =~= before + row.take(0));
        while k < dirs.len()
            invariant
                k <= dirs@.len(),
                places == text::views(dirs@),
                row == in_each(places, name@),
                slash@ == seq!['/'],
                text::strings(out@) == before + row.take(k as int),
            decreases dirs@.len() - k,
        {
            let mut path: Vec<char> = vstd::slice::slice_to_vec(
                text::strip_end(dirs[k].as_slice(), &slash),
            );
            assert(path@ =~= text::cut_end(places[k as int], seq!['/']));
            path.push('/');
            text::extend(&mut path, name);
            let ghost was = text::strings(out@);
            out.push(text::text_of(path.as_slice()));
            assert(text::strings(out@) =~= was.push(row[k as int]));
            k += 1;
            assert(text::strings(out@) =~= before + row.take(k as int));
        }
        assert(row.take(k as int) =~= row);
        n += 1;
    }
    out
}

/// Every place where a shell is looked for begins at the root, and there is one for each name in
/// each directory of the search path that does.
pub proof fn law_shells_are_looked_for_from_the_root(path: Seq<char>, i: int)
    requires
        0 <= i < probes(path).len(),
    ensures
        probes(path).len() == 12 * rooted(text::pieces(path, ':')).len(),
        probes(path)[i].len() > 0,
        probes(path)[i][0] == '/',
{
    let dirs = rooted(text::pieces(path, ':'));
    lemma_all_rooted(text::pieces(path, ':'));
    lemma_names_in_each(dirs, 12);
}

proof fn lemma_all_rooted(dirs: Seq<Seq<char>>)
    ensures
        forall|i: int|
            0 <= i < rooted(dirs).len() ==> (#[trigger] rooted(dirs)[i]).len() > 0 && rooted(
                dirs,
            )[i][0] == '/',
    decreases dirs.len(),
{
    if dirs.len() > 0 {
        lemma_all_rooted(dirs.drop_last());
        let front = rooted(dirs.drop_last());
        assert forall|i: int| 0 <= i < rooted(dirs).len() implies (#[trigger] rooted(
            dirs,
        )[i]).len() > 0 && rooted(dirs)[i][0] == '/' by {
            if i < front.len() {
                assert(rooted(dirs)[i] == front[i]);
            }
        }
    }
}

proof fn lemma_names_in_each(dirs: Seq<Seq<char>>, n: int)
    requires
        0 <= n <= 12,
        forall|i: int| 0 <= i < dirs.len() ==> (#[trigger] dirs[i]).len() > 0 && dirs[i][0] == '/',
    ensures
        names_in_each(dirs, n).len() == n * dirs.len(),
        forall|i: int|
            0 <= i < names_in_each(dirs, n).len() ==> (#[trigger] names_in_each(dirs, n)[i]).len()
                > 0 && names_in_each(dirs, n)[i][0] == '/',
    decreases n,
{
    if n > 0 {
        lemma_names_in_each(dirs, n - 1);
        let front = names_in_each(dirs, n - 1);
        let row = in_each(dirs, probed_names()[n - 1]);
        assert(n * dirs.len() == (n - 1) * dirs.len() + dirs.len()) by (nonlinear_arith);
        assert forall|i: int| 0 <= i < names_in_each(dirs, n).len() implies (
        #[trigger] names_in_each(dirs, n)[i]).len() > 0 && names_in_each(dirs, n)[i][0] == '/' by {
            if i < front.len() {
                assert(names_in_each(dirs, n)[i] == front[i]);
            } else {
                let k = i - front.len();
                assert(names_in_each(dirs, n)[i] == row[k]);
                lemma_cut_end_keeps_front(dirs[k], seq!['/']);
            }
        }
    }
}

proof fn lemma_cut_end_keeps_front(s: Seq<char>, set: Seq<char>)
    ensures
        text::cut_end(s, set).is_prefix_of(s),
    decreases s.len(),
{
    if s.len() > 0 && set.contains(s.last()) {
        lemma_cut_end_keeps_front(s.drop_last(), set);
    }
}

/// Where the shells of a Unix machine may be: the login shell first, then what the search path
/// leads to, and last what `/etc/shells` knows besides.
pub open spec fn unix_places(login: Seq<char>, path: Seq<char>, etc: Seq<char>) -> Seq<Seq<char>> {
    seq![login] + probes(path) + etc_shells(text::lines_of(etc), text::lines_of(etc).len() as int)
}

/// Where the shells of a Unix machine may be, given its login shell, its search path and its
/// `/etc/shells`.
pub fn unix_candidates(login: &str, path_var: &str, etc: &str) -> (r: Vec<String>)
    ensures
        text::strings(r@) == unix_places(login@, path_var@, etc@),
{
    let mut out: Vec<String> = Vec::new();
    out.push(owned(login));
    assert(text::strings(out@) =~= seq![login@]);
    append(&mut out, &path_shell_candidates(path_var));
    append(&mut out, &parse_etc_shells(etc));
    out
}

/// Puts texts behind others.
fn append(out: &mut Vec<String>, more: &Vec<String>)
    ensures
        text::strings(final(out)@) == text::strings(old(out)@) + text::strings(more@),
{
    let ghost base = text::strings(out@);
    let ghost all = text::strings(more@);
    let mut i: usize = 0;
    assert(text::strings(out@) =~= base + all.take(0));
    while i < more.len()
        invariant
            i <= more@.len(),
            all == text::strings(more@),
            text::strings(out@) == base + all.take(i as int),
        decreases more@.len() - i,
    {
        let ghost before = text::strings(out@);
        out.push(more[i].clone());
        assert(text::strings(out@) =~= before.push(all[i as int]));
        i += 1;
        assert(text::strings(out@) =~= base + all.take(i as int));
    }
    assert(all.take(i as int) =~= all);
}

/// The login shell is offered under its name wherever its file is there, whatever else the search
/// path or `/etc/shells` has under that name.
pub proof fn law_the_login_shell_wins_its_name(
    login: Seq<char>,
    path: Seq<char>,
    etc: Seq<char>,
    present: Seq<bool>,
)
    requires
        present.len() == unix_places(login, path, etc).len(),
        present[0],
    ensures
        ({
            let shells = first_named(
                unix_places(login, path, etc),
                present,
                present.len() as int,
            );
            shells.len() > 0 && shells[0] == plain(label_of(base(Platform::Unix, login)), login)
        }),
{
    let places = unix_places(login, path, etc);
    assert(places[0] == login);
    lemma_first_stays(places, present, present.len() as int);
}

proof fn lemma_first_stays(paths: Seq<Seq<char>>, present: Seq<bool>, upto: int)
    requires
        1 <= upto,
        present[0],
    ensures
        first_named(paths, present, upto).len() > 0,
        first_named(paths, present, upto)[0] == plain(
            label_of(base(Platform::Unix, paths[0])),
            paths[0],
        ),
    decreases upto,
{
    reveal_with_fuel(first_named, 2);
    if upto > 1 {
        lemma_first_stays(paths, present, upto - 1);
    }
}

} // verus!
