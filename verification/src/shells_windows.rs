//! The shells of a Windows machine, the distributions of its Linux subsystem among them.

use vstd::prelude::*;

use crate::paths;
use crate::paths::Platform;
use crate::search_path;
use crate::shells;
use crate::shells::DetectedShell;
use crate::text;
use crate::utf16;

verus! {

/// The variables of a Windows environment that say where programs are.
#[derive(Debug)]
pub struct Places {
    pub program_files: Option<String>,
    pub program_files_x86: Option<String>,
    pub program_files_arm: Option<String>,
    pub user_profile: Option<String>,
    pub local_app_data: Option<String>,
    pub system_root: Option<String>,
}

/// Some names, each in the one before it.
pub open spec fn nested(dir: Seq<char>, names: Seq<Seq<char>>) -> Seq<char>
    decreases names.len(),
{
    if names.len() == 0 {
        dir
    } else {
        paths::inside(Platform::Windows, nested(dir, names.drop_last()), names.last())
    }
}

/// A path below a variable, if the variable is set and not empty.
pub open spec fn below(var: Option<String>, names: Seq<Seq<char>>) -> Seq<Seq<char>> {
    match var {
        Some(dir) => if dir@.len() > 0 {
            seq![nested(dir@, names)]
        } else {
            seq![]
        },
        None => seq![],
    }
}

/// Whether names can be put behind directories.
pub open spec fn all_relative(names: Seq<Seq<char>>) -> bool {
    forall|i: int| 0 <= i < names.len() ==> paths::relative(Platform::Windows, #[trigger] names[i])
}

/// What some string slices hold.
pub open spec fn slices(list: Seq<&str>) -> Seq<Seq<char>> {
    Seq::new(list.len(), |i: int| list[i]@)
}

/// Some names, each in the one before it.
fn nest(dir: &str, names: &[&str]) -> (r: Vec<char>)
    requires
        all_relative(slices(names@)),
    ensures
        r@ == nested(dir@, slices(names@)),
{
    let ghost all = slices(names@);
    let mut out: Vec<char> = text::chars_of(dir);
    let mut i: usize = 0;
    assert(all.take(0) =~= Seq::<Seq<char>>::empty());
    while i < names.len()
        invariant
            i <= names@.len(),
            all == slices(names@),
            all_relative(all),
            out@ == nested(dir@, all.take(i as int)),
        decreases names@.len() - i,
    {
        proof {
            assert(all.take(i + 1).drop_last() =~= all.take(i as int));
            assert(all.take(i + 1).last() == names@[i as int]@);
            assert(paths::relative(Platform::Windows, all[i as int]));
        }
        let name: Vec<char> = text::chars_of(names[i]);
        out = paths::join(Platform::Windows, out.as_slice(), name.as_slice());
        i += 1;
    }
    assert(all.take(i as int) =~= all);
    out
}

/// Adds a path below a variable, if the variable is set and not empty.
fn add_below(out: &mut Vec<String>, var: &Option<String>, names: &[&str])
    requires
        all_relative(slices(names@)),
    ensures
        text::strings(final(out)@) == text::strings(old(out)@) + below(*var, slices(names@)),
{
    let ghost before = text::strings(out@);
    if let Some(dir) = var {
        let chars: Vec<char> = text::chars_of(dir.as_str());
        if chars.len() > 0 {
            let path: Vec<char> = nest(dir.as_str(), names);
            out.push(text::text_of(path.as_slice()));
            assert(text::strings(out@) =~= before + seq![path@]);
            return ;
        }
    }
    assert(text::strings(out@) =~= before + Seq::<Seq<char>>::empty());
}

/// Where PowerShell 7 may be, the best first.
pub open spec fn pwsh7_places(places: Places) -> Seq<Seq<char>> {
    let stable = seq!["PowerShell"@, "7"@, "pwsh.exe"@];
    let preview = seq!["PowerShell"@, "7-preview"@, "pwsh.exe"@];
    below(places.program_files, stable) + below(places.program_files, preview) + below(
        places.program_files_x86,
        stable,
    ) + below(places.program_files_x86, preview) + below(places.program_files_arm, stable) + below(
        places.program_files_arm,
        preview,
    ) + below(places.user_profile, seq![".dotnet"@, "tools"@, "pwsh.exe"@]) + below(
        places.user_profile,
        seq!["scoop"@, "shims"@, "pwsh.exe"@],
    ) + below(places.local_app_data, seq!["Microsoft"@, "WindowsApps"@, "pwsh.exe"@])
}

/// Where PowerShell 7 may be, the best first, before the search path is asked.
pub fn pwsh7_candidates(places: &Places) -> (r: Vec<String>)
    ensures
        text::strings(r@) == pwsh7_places(*places),
{
    proof {
        reveal_strlit("PowerShell");
        reveal_strlit("7");
        reveal_strlit("7-preview");
        reveal_strlit("pwsh.exe");
        reveal_strlit(".dotnet");
        reveal_strlit("tools");
        reveal_strlit("scoop");
        reveal_strlit("shims");
        reveal_strlit("Microsoft");
        reveal_strlit("WindowsApps");
    }
    let stable: [&str; 3] = ["PowerShell", "7", "pwsh.exe"];
    assert(slices(stable@) =~= seq!["PowerShell"@, "7"@, "pwsh.exe"@]);
    let preview: [&str; 3] = ["PowerShell", "7-preview", "pwsh.exe"];
    assert(slices(preview@) =~= seq!["PowerShell"@, "7-preview"@, "pwsh.exe"@]);
    let dotnet: [&str; 3] = [".dotnet", "tools", "pwsh.exe"];
    assert(slices(dotnet@) =~= seq![".dotnet"@, "tools"@, "pwsh.exe"@]);
    let scoop: [&str; 3] = ["scoop", "shims", "pwsh.exe"];
    assert(slices(scoop@) =~= seq!["scoop"@, "shims"@, "pwsh.exe"@]);
    let apps: [&str; 3] = ["Microsoft", "WindowsApps", "pwsh.exe"];
    assert(slices(apps@) =~= seq!["Microsoft"@, "WindowsApps"@, "pwsh.exe"@]);
    let mut out: Vec<String> = Vec::new();
    add_below(&mut out, &places.program_files, &stable);
    add_below(&mut out, &places.program_files, &preview);
    add_below(&mut out, &places.program_files_x86, &stable);
    add_below(&mut out, &places.program_files_x86, &preview);
    add_below(&mut out, &places.program_files_arm, &stable);
    add_below(&mut out, &places.program_files_arm, &preview);
    add_below(&mut out, &places.user_profile, &dotnet);
    add_below(&mut out, &places.user_profile, &scoop);
    add_below(&mut out, &places.local_app_data, &apps);
    assert(text::strings(out@) =~= pwsh7_places(*places));
    out
}

/// Where the Bash that comes with Git may be.
pub open spec fn git_bash_places(places: Places) -> Seq<Seq<char>> {
    let names = seq!["Git"@, "bin"@, "bash.exe"@];
    below(places.program_files, names) + below(places.program_files_x86, names) + below(
        places.local_app_data,
        seq!["Programs"@, "Git"@, "bin"@, "bash.exe"@],
    )
}

/// Where the Bash that comes with Git may be, the best first.
pub fn git_bash_candidates(places: &Places) -> (r: Vec<String>)
    ensures
        text::strings(r@) == git_bash_places(*places),
{
    proof {
        reveal_strlit("Git");
        reveal_strlit("bin");
        reveal_strlit("bash.exe");
        reveal_strlit("Programs");
    }
    let shared: [&str; 3] = ["Git", "bin", "bash.exe"];
    assert(slices(shared@) =~= seq!["Git"@, "bin"@, "bash.exe"@]);
    let own: [&str; 4] = ["Programs", "Git", "bin", "bash.exe"];
    assert(slices(own@) =~= seq!["Programs"@, "Git"@, "bin"@, "bash.exe"@]);
    let mut out: Vec<String> = Vec::new();
    add_below(&mut out, &places.program_files, &shared);
    add_below(&mut out, &places.program_files_x86, &shared);
    add_below(&mut out, &places.local_app_data, &own);
    assert(text::strings(out@) =~= git_bash_places(*places));
    out
}

/// The directory of the system.
pub open spec fn system(places: Places) -> Seq<char> {
    match places.system_root {
        Some(dir) => dir@,
        None => r"C:\Windows"@,
    }
}

/// Where Windows PowerShell is.
pub open spec fn ps5_place(places: Places) -> Seq<char> {
    nested(
        system(places),
        seq!["System32"@, "WindowsPowerShell"@, "v1.0"@, "powershell.exe"@],
    )
}

/// Where the command prompt is, if the environment does not say it.
pub open spec fn cmd_place(places: Places) -> Seq<char> {
    nested(system(places), seq!["System32"@, "cmd.exe"@])
}

/// The directory of the system.
fn system_root(places: &Places) -> (r: String)
    ensures
        r@ == system(*places),
{
    match &places.system_root {
        Some(dir) => dir.clone(),
        None => shells::owned(r"C:\Windows"),
    }
}

/// Where Windows PowerShell is.
pub fn ps5_path(places: &Places) -> (r: String)
    ensures
        r@ == ps5_place(*places),
{
    proof {
        reveal_strlit("System32");
        reveal_strlit("WindowsPowerShell");
        reveal_strlit("v1.0");
        reveal_strlit("powershell.exe");
    }
    let names: [&str; 4] = ["System32", "WindowsPowerShell", "v1.0", "powershell.exe"];
    assert(slices(names@) =~= seq![
        "System32"@,
        "WindowsPowerShell"@,
        "v1.0"@,
        "powershell.exe"@,
    ]);
    let root: String = system_root(places);
    text::text_of(nest(root.as_str(), &names).as_slice())
}

/// Where the command prompt is, if the environment does not say it.
pub fn cmd_path(places: &Places) -> (r: String)
    ensures
        r@ == cmd_place(*places),
{
    proof {
        reveal_strlit("System32");
        reveal_strlit("cmd.exe");
    }
    let names: [&str; 2] = ["System32", "cmd.exe"];
    assert(slices(names@) =~= seq!["System32"@, "cmd.exe"@]);
    let root: String = system_root(places);
    text::text_of(nest(root.as_str(), &names).as_slice())
}

/// The command prompt: the one of the environment where it is a file, and else the one of the
/// system where that is.
pub fn cmd_program(
    comspec: &Option<String>,
    comspec_is_file: bool,
    fallback: &str,
    fallback_is_file: bool,
) -> (r: Option<String>)
    ensures
        shells::shown(r) == (if comspec is Some && comspec_is_file {
            shells::shown(*comspec)
        } else if fallback_is_file {
            Some(fallback@)
        } else {
            None
        }),
{
    match comspec {
        Some(path) if comspec_is_file => Some(path.clone()),
        _ => if fallback_is_file {
            Some(shells::owned(fallback))
        } else {
            None
        },
    }
}

/// The first of some paths that is a file.
pub open spec fn first_present(list: Seq<Seq<char>>, present: Seq<bool>) -> Option<Seq<char>>
    decreases list.len(),
{
    if list.len() == 0 || present.len() == 0 {
        None
    } else if present[0] {
        Some(list[0])
    } else {
        first_present(list.skip(1), present.skip(1))
    }
}

/// The first of some paths that is a file, given which of them are.
pub fn pick_first_existing(candidates: &Vec<String>, present: &Vec<bool>) -> (r: Option<String>)
    requires
        candidates@.len() == present@.len(),
    ensures
        shells::shown(r) == first_present(text::strings(candidates@), present@),
{
    let ghost all = text::strings(candidates@);
    let mut i: usize = 0;
    assert(all.skip(0) =~= all);
    assert(present@.skip(0) =~= present@);
    while i < candidates.len()
        invariant
            i <= candidates@.len(),
            candidates@.len() == present@.len(),
            all == text::strings(candidates@),
            first_present(all.skip(i as int), present@.skip(i as int)) == first_present(
                all,
                present@,
            ),
        decreases candidates@.len() - i,
    {
        assert(all.skip(i as int)[0] == candidates@[i as int]@);
        assert(present@.skip(i as int)[0] == present@[i as int]);
        if present[i] {
            return Some(candidates[i].clone());
        }
        assert(all.skip(i as int).skip(1) =~= all.skip(i + 1));
        assert(present@.skip(i as int).skip(1) =~= present@.skip(i + 1));
        i += 1;
    }
    None
}

/// A program in each directory of a search path.
pub open spec fn along(path: Seq<char>, exe: Seq<char>) -> Seq<Seq<char>> {
    let dirs = search_path::listed(Platform::Windows, path);
    Seq::new(dirs.len(), |i: int| paths::inside(Platform::Windows, dirs[i], exe))
}

/// A program in each directory of a search path, in the order of the search path; nowhere where
/// there is none.
pub fn find_in_path(exe: &str, path: &Option<String>) -> (r: Vec<String>)
    requires
        paths::relative(Platform::Windows, exe@),
    ensures
        text::strings(r@) == (match *path {
            Some(p) => along(p@, exe@),
            None => seq![],
        }),
{
    let mut out: Vec<String> = Vec::new();
    match path {
        None => {
            assert(text::strings(out@) =~= seq![]);
        },
        Some(p) => {
            let name: Vec<char> = text::chars_of(exe);
            let dirs: Vec<Vec<char>> = search_path::path_dirs(Platform::Windows, p.as_str());
            let ghost all = along(p@, exe@);
            let mut i: usize = 0;
            assert(text::strings(out@) =~= all.take(0));
            assert(all.len() == dirs@.len());
            while i < dirs.len()
                invariant
                    i <= dirs@.len(),
                    name@ == exe@,
                    paths::relative(Platform::Windows, exe@),
                    text::views(dirs@) == search_path::listed(Platform::Windows, p@),
                    all == along(p@, exe@),
                    all.len() == dirs@.len(),
                    text::strings(out@) == all.take(i as int),
                decreases dirs@.len() - i,
            {
                let whole: Vec<char> = paths::join(
                    Platform::Windows,
                    dirs[i].as_slice(),
                    name.as_slice(),
                );
                assert(whole@ == all[i as int]) by {
                    assert(text::views(dirs@)[i as int] == dirs@[i as int]@);
                }
                let ghost before = text::strings(out@);
                out.push(text::text_of(whole.as_slice()));
                assert(text::strings(out@) =~= before.push(all[i as int]));
                i += 1;
                assert(text::strings(out@) =~= all.take(i as int));
            }
            assert(all.take(i as int) =~= all);
        },
    }
    out
}

/// PowerShell 7: the first of its usual places, and else the first on the search path, given which
/// of both are files.
pub fn find_pwsh7(
    places: &Places,
    present: &Vec<bool>,
    path: &Option<String>,
    present_along: &Vec<bool>,
) -> (r: Option<String>)
    requires
        present@.len() == pwsh7_places(*places).len(),
        present_along@.len() == (match *path {
            Some(p) => along(p@, "pwsh.exe"@).len(),
            None => 0,
        }),
    ensures
        shells::shown(r) == (match first_present(pwsh7_places(*places), present@) {
            Some(usual) => Some(usual),
            None => match *path {
                Some(p) => first_present(along(p@, "pwsh.exe"@), present_along@),
                None => None,
            },
        }),
{
    proof {
        reveal_strlit("pwsh.exe");
    }
    let usual: Vec<String> = pwsh7_candidates(places);
    assert(text::strings(usual@).len() == usual@.len());
    match pick_first_existing(&usual, present) {
        Some(program) => Some(program),
        None => {
            let list: Vec<String> = find_in_path("pwsh.exe", path);
            assert(text::strings(list@).len() == list@.len());
            pick_first_existing(&list, present_along)
        },
    }
}

/// The Bash that comes with Git, given where it may be and which of the places are files.
pub fn git_bash_path(places: &Places, present: &Vec<bool>) -> (r: Option<String>)
    requires
        present@.len() == git_bash_places(*places).len(),
    ensures
        shells::shown(r) == first_present(git_bash_places(*places), present@),
{
    let list: Vec<String> = git_bash_candidates(places);
    assert(text::strings(list@).len() == list@.len());
    pick_first_existing(&list, present)
}

/// Nushell, which has no fixed place: the first on the search path.
pub fn nushell_path(path: &Option<String>, present: &Vec<bool>) -> (r: Option<String>)
    requires
        present@.len() == (match *path {
            Some(p) => along(p@, "nu.exe"@).len(),
            None => 0,
        }),
    ensures
        shells::shown(r) == (match *path {
            Some(p) => first_present(along(p@, "nu.exe"@), present@),
            None => None,
        }),
{
    proof {
        reveal_strlit("nu.exe");
    }
    let list: Vec<String> = find_in_path("nu.exe", path);
    assert(text::strings(list@).len() == list@.len());
    pick_first_existing(&list, present)
}

/// What was found on a Windows machine.
#[derive(Debug)]
pub struct WindowsShells {
    pub pwsh: Option<String>,
    pub nu: Option<String>,
    pub ps5: Option<String>,
    pub cmd: Option<String>,
    pub git_bash: Option<String>,
    pub distros: Vec<String>,
}

/// A shell without arguments, if it was found.
pub open spec fn one(label: Seq<char>, program: Option<String>) -> Seq<shells::Shell> {
    match program {
        Some(p) => seq![shells::plain(label, p@)],
        None => seq![],
    }
}

/// The Bash that comes with Git, as a login shell that can be typed into.
pub open spec fn bash_row(program: Option<String>) -> Seq<shells::Shell> {
    match program {
        Some(p) => seq![
            shells::Shell {
                label: "Git Bash"@,
                program: p@,
                args: seq!["-i"@, "-l"@],
                args_are_nermal_defaults: true,
                user_authored: false,
            },
        ],
        None => seq![],
    }
}

/// A distribution, opened in the home directory of its user.
pub open spec fn distro_row(name: Seq<char>) -> shells::Shell {
    shells::Shell {
        label: "WSL · "@ + name,
        program: "wsl.exe"@,
        args: seq!["--distribution"@, name, "--cd"@, "~"@],
        args_are_nermal_defaults: true,
        user_authored: false,
    }
}

/// The distributions as shells.
pub open spec fn distro_rows(names: Seq<Seq<char>>) -> Seq<shells::Shell> {
    Seq::new(names.len(), |i: int| distro_row(names[i]))
}

/// The shells of a Windows machine, in the order in which they are offered.
pub open spec fn windows_rows(found: WindowsShells) -> Seq<shells::Shell> {
    one("PowerShell 7"@, found.pwsh) + one("Nushell"@, found.nu) + one(
        "Windows PowerShell"@,
        found.ps5,
    ) + one("Command Prompt"@, found.cmd) + bash_row(found.git_bash) + distro_rows(
        text::strings(found.distros@),
    )
}

/// Whether a row opens a program with arguments that are the library's own.
pub open spec fn opens(
    row: shells::Shell,
    label: Seq<char>,
    program: Seq<char>,
    args: Seq<Seq<char>>,
) -> bool {
    &&& row.label == label
    &&& row.program == program
    &&& row.args == args
    &&& row.args_are_nermal_defaults
    &&& !row.user_authored
}

/// How many programs were found at a place: one or none.
pub open spec fn ones(program: Option<String>) -> int {
    if program is Some {
        1
    } else {
        0
    }
}

/// Every shell that was found is offered, and no other: PowerShell 7, Nushell, Windows PowerShell,
/// the command prompt, the Bash of Git and then each distribution, in this order, each under its
/// label and with what it needs to be started.
pub proof fn law_every_shell_that_was_found_is_offered(
    found: WindowsShells,
    rows: Seq<shells::Shell>,
    i: int,
)
    requires
        rows == windows_rows(found),
        0 <= i < found.distros@.len(),
    ensures
        ({
            let n1 = ones(found.pwsh);
            let n2 = n1 + ones(found.nu);
            let n3 = n2 + ones(found.ps5);
            let n4 = n3 + ones(found.cmd);
            let n5 = n4 + ones(found.git_bash);
            let name = found.distros@[i]@;
            &&& rows.len() == n5 + found.distros@.len()
            &&& opens(
                rows[n5 + i],
                "WSL · "@ + name,
                "wsl.exe"@,
                seq!["--distribution"@, name, "--cd"@, "~"@],
            )
        }),
{
    law_every_program_that_was_found_is_offered(found, rows);
    assert(text::strings(found.distros@)[i] == found.distros@[i]@);
}

/// Every program that was found is offered, where there are distributions and where there are
/// none.
pub proof fn law_every_program_that_was_found_is_offered(
    found: WindowsShells,
    rows: Seq<shells::Shell>,
)
    requires
        rows == windows_rows(found),
    ensures
        ({
            let n1 = ones(found.pwsh);
            let n2 = n1 + ones(found.nu);
            let n3 = n2 + ones(found.ps5);
            let n4 = n3 + ones(found.cmd);
            let n5 = n4 + ones(found.git_bash);
            &&& rows.len() == n5 + found.distros@.len()
            &&& found.pwsh matches Some(p) ==> opens(rows[0], "PowerShell 7"@, p@, seq![])
            &&& found.nu matches Some(p) ==> opens(rows[n1], "Nushell"@, p@, seq![])
            &&& found.ps5 matches Some(p) ==> opens(rows[n2], "Windows PowerShell"@, p@, seq![])
            &&& found.cmd matches Some(p) ==> opens(rows[n3], "Command Prompt"@, p@, seq![])
            &&& found.git_bash matches Some(p) ==> opens(
                rows[n4],
                "Git Bash"@,
                p@,
                seq!["-i"@, "-l"@],
            )
        }),
{
}

/// Adds a shell without arguments, if it was found.
fn add_one(out: &mut Vec<DetectedShell>, label: &str, program: &Option<String>)
    ensures
        shells::views(final(out)@) == shells::views(old(out)@) + one(label@, *program),
{
    let ghost before = shells::views(out@);
    match program {
        Some(p) => {
            out.push(DetectedShell::bare(label, p.as_str()));
            assert(shells::views(out@) =~= before + seq![shells::plain(label@, p@)]);
        },
        None => {
            assert(shells::views(out@) =~= before + seq![]);
        },
    }
}

/// The shells of a Windows machine, given what was found on it.
pub fn detect_windows(found: &WindowsShells) -> (r: Vec<DetectedShell>)
    ensures
        shells::views(r@) == windows_rows(*found),
{
    let mut out: Vec<DetectedShell> = Vec::new();
    add_one(&mut out, "PowerShell 7", &found.pwsh);
    add_one(&mut out, "Nushell", &found.nu);
    add_one(&mut out, "Windows PowerShell", &found.ps5);
    add_one(&mut out, "Command Prompt", &found.cmd);
    let ghost before = shells::views(out@);
    match &found.git_bash {
        Some(p) => {
            let mut args: Vec<String> = Vec::new();
            args.push(shells::owned("-i"));
            args.push(shells::owned("-l"));
            assert(text::strings(args@) =~= seq!["-i"@, "-l"@]);
            out.push(
                DetectedShell {
                    label: shells::owned("Git Bash"),
                    program: p.clone(),
                    args,
                    args_are_nermal_defaults: true,
                    user_authored: false,
                },
            );
            assert(shells::views(out@) =~= before + bash_row(found.git_bash));
        },
        None => {
            assert(shells::views(out@) =~= before + bash_row(found.git_bash));
        },
    }
    let ghost base = shells::views(out@);
    let ghost names = text::strings(found.distros@);
    let mut i: usize = 0;
    assert(shells::views(out@) =~= base + distro_rows(names.take(0)));
    while i < found.distros.len()
        invariant
            i <= found.distros@.len(),
            names == text::strings(found.distros@),
            shells::views(out@) == base + distro_rows(names.take(i as int)),
        decreases found.distros@.len() - i,
    {
        let name: &str = found.distros[i].as_str();
        let ghost was = shells::views(out@);
        let mut label: Vec<char> = text::chars_of("WSL · ");
        text::extend(&mut label, text::chars_of(name).as_slice());
        let mut args: Vec<String> = Vec::new();
        args.push(shells::owned("--distribution"));
        args.push(shells::owned(name));
        args.push(shells::owned("--cd"));
        args.push(shells::owned("~"));
        assert(text::strings(args@) =~= seq!["--distribution"@, name@, "--cd"@, "~"@]);
        out.push(
            DetectedShell {
                label: text::text_of(label.as_slice()),
                program: shells::owned("wsl.exe"),
                args,
                args_are_nermal_defaults: true,
                user_authored: false,
            },
        );
        assert(shells::views(out@) =~= was.push(distro_row(names[i as int])));
        i += 1;
        assert(shells::views(out@) =~= base + distro_rows(names.take(i as int)));
    }
    assert(names.take(i as int) =~= names);
    assert(shells::views(out@) =~= windows_rows(*found));
    out
}

/// What was found on a machine.
#[derive(Debug)]
pub enum Probe {
    /// Where shells may be, and which of these places are files.
    Unix(Vec<String>, Vec<bool>),
    Windows(WindowsShells),
}

/// The shells of a machine, given what was found on it.
pub fn detect_shells(probe: &Probe) -> (r: Vec<DetectedShell>)
    requires
        probe matches Probe::Unix(candidates, present) ==> candidates@.len() == present@.len(),
    ensures
        shells::views(r@) == (match *probe {
            Probe::Unix(candidates, present) => shells::first_named(
                text::strings(candidates@),
                present@,
                candidates@.len() as int,
            ),
            Probe::Windows(found) => windows_rows(found),
        }),
{
    match probe {
        Probe::Unix(candidates, present) => shells::unix_shells_from(candidates, present),
        Probe::Windows(found) => detect_windows(found),
    }
}

/// Where the distributions are registered.
pub open spec fn lxss() -> Seq<char> {
    r"Software\Microsoft\Windows\CurrentVersion\Lxss"@
}

/// The key of a distribution.
pub fn distro_key(guid: &str) -> (r: String)
    ensures
        r@ == lxss().push('\\') + guid@,
{
    let mut out: Vec<char> = text::chars_of(r"Software\Microsoft\Windows\CurrentVersion\Lxss");
    out.push('\\');
    text::extend(&mut out, text::chars_of(guid).as_slice());
    text::text_of(out.as_slice())
}

/// Whether a distribution is to be typed into: it has a name, and it does not just carry a
/// container runtime.
pub open spec fn is_offered(name: Seq<char>) -> bool {
    name.len() > 0 && !"docker-desktop"@.is_prefix_of(name) && !"rancher-desktop"@.is_prefix_of(
        name,
    )
}

/// Whether a distribution is to be typed into.
pub fn worth_offering(name: &[char]) -> (r: bool)
    ensures
        r == is_offered(name@),
{
    let docker: Vec<char> = text::chars_of("docker-desktop");
    let rancher: Vec<char> = text::chars_of("rancher-desktop");
    name.len() > 0 && !text::starts_with(name, docker.as_slice()) && !text::starts_with(
        name,
        rancher.as_slice(),
    )
}

/// The state of a distribution that is installed.
pub const INSTALLED: u32 = 1;

/// A distribution as it is registered, as far as that can be read.
#[derive(Debug)]
pub struct Distro {
    pub state: Option<u32>,
    pub name: Option<String>,
}

/// Whether a registered distribution is offered. Without a state it is taken to be installed.
pub open spec fn is_usable(distro: Distro) -> bool {
    &&& distro.state matches Some(state) ==> state == INSTALLED
    &&& distro.name matches Some(name) && is_offered(name@)
}

/// The names of the registered distributions that are offered, among the first `upto`.
pub open spec fn usable(distros: Seq<Distro>, upto: int) -> Seq<Seq<char>>
    decreases upto,
{
    if upto <= 0 {
        seq![]
    } else if is_usable(distros[upto - 1]) {
        usable(distros, upto - 1).push(distros[upto - 1].name->0@)
    } else {
        usable(distros, upto - 1)
    }
}

/// What the registry says of the distributions. `None` means that it does not say: that is so where
/// the list could not be read, and where there are entries but none that can be offered.
pub open spec fn registered(distros: Option<Vec<Distro>>) -> Option<Seq<Seq<char>>> {
    match distros {
        Some(list) => {
            let names = usable(list@, list@.len() as int);
            if names.len() == 0 && list@.len() > 0 {
                None
            } else {
                Some(names)
            }
        },
        None => None,
    }
}

/// What an optional list of strings stands for.
pub open spec fn listed(list: Option<Vec<String>>) -> Option<Seq<Seq<char>>> {
    match list {
        Some(l) => Some(text::strings(l@)),
        None => None,
    }
}

/// The distributions that the registry offers, given what it holds.
pub fn registered_wsl_distros(distros: &Option<Vec<Distro>>) -> (r: Option<Vec<String>>)
    ensures
        listed(r) == registered(*distros),
{
    match distros {
        None => None,
        Some(list) => {
            let mut names: Vec<String> = Vec::new();
            let mut i: usize = 0;
            assert(text::strings(names@) =~= seq![]);
            while i < list.len()
                invariant
                    i <= list@.len(),
                    text::strings(names@) == usable(list@, i as int),
                decreases list@.len() - i,
            {
                let installed: bool = match list[i].state {
                    Some(state) => state == INSTALLED,
                    None => true,
                };
                if installed {
                    if let Some(name) = &list[i].name {
                        let chars: Vec<char> = text::chars_of(name.as_str());
                        if worth_offering(chars.as_slice()) {
                            let ghost before = text::strings(names@);
                            names.push(name.clone());
                            assert(text::strings(names@) =~= before.push(name@));
                        }
                    }
                }
                i += 1;
            }
            assert(text::strings(names@).len() == names@.len());
            if names.len() == 0 && list.len() > 0 {
                None
            } else {
                Some(names)
            }
        },
    }
}

/// The registry never offers a distribution that is not fully installed, nor one that is not to be
/// typed into.
pub proof fn law_only_usable_distributions_are_offered(distros: Seq<Distro>, upto: int, k: int) -> (
    n: int)
    requires
        0 <= upto <= distros.len(),
        0 <= k < usable(distros, upto).len(),
    ensures
        0 <= n < upto,
        is_usable(distros[n]),
        usable(distros, upto)[k] == distros[n].name->0@,
    decreases upto,
{
    if is_usable(distros[upto - 1]) && k == usable(distros, upto - 1).len() {
        upto - 1
    } else {
        law_only_usable_distributions_are_offered(distros, upto - 1, k)
    }
}

/// The units that bytes in little-endian order write; an odd byte at the end counts for nothing.
pub open spec fn units(bytes: Seq<u8>) -> Seq<u16> {
    Seq::new(
        bytes.len() / 2,
        |i: int| (bytes[2 * i] + 256 * bytes[2 * i + 1]) as u16,
    )
}

/// Whether a character does not belong to the name of a distribution at its ends.
pub open spec fn is_padding(c: char) -> bool {
    text::is_space(c) || c == '\u{feff}' || c == '\0'
}

/// A line without the padding at its front.
pub open spec fn unpadded_start(s: Seq<char>) -> Seq<char>
    decreases s.len(),
{
    if s.len() > 0 && is_padding(s[0]) {
        unpadded_start(s.skip(1))
    } else {
        s
    }
}

/// A line without the padding at its end.
pub open spec fn unpadded_end(s: Seq<char>) -> Seq<char>
    decreases s.len(),
{
    if s.len() > 0 && is_padding(s.last()) {
        unpadded_end(s.drop_last())
    } else {
        s
    }
}

/// A line without the padding at its ends.
pub open spec fn unpadded(s: Seq<char>) -> Seq<char> {
    unpadded_end(unpadded_start(s))
}

/// The distributions that the first `upto` lines name.
pub open spec fn named(lines: Seq<Seq<char>>, upto: int) -> Seq<Seq<char>>
    decreases upto,
{
    if upto <= 0 {
        seq![]
    } else {
        let name = unpadded(lines[upto - 1]);
        if is_offered(name) {
            named(lines, upto - 1).push(name)
        } else {
            named(lines, upto - 1)
        }
    }
}

/// The distributions that `wsl -l -q` lists.
pub open spec fn wsl_list(bytes: Seq<u8>) -> Seq<Seq<char>> {
    let lines = text::lines_of(utf16::decoded(units(bytes)));
    named(lines, lines.len() as int)
}

/// Whether a character does not belong to the name of a distribution at its ends.
fn padding(c: char) -> (r: bool)
    ensures
        r == is_padding(c),
{
    text::space(c) || c == '\u{feff}' || c == '\0'
}

/// A line without the padding at its ends.
fn unpad(s: &[char]) -> (r: &[char])
    ensures
        r@ == unpadded(s@),
{
    let mut from: usize = 0;
    assert(s@.skip(0) =~= s@);
    while from < s.len() && padding(s[from])
        invariant
            from <= s@.len(),
            unpadded_start(s@.skip(from as int)) == unpadded_start(s@),
        decreases s@.len() - from,
    {
        assert(s@.skip(from as int).skip(1) =~= s@.skip(from + 1));
        from += 1;
    }
    let t: &[char] = vstd::slice::slice_subrange(s, from, s.len());
    assert(t@ =~= s@.skip(from as int));
    let mut to: usize = t.len();
    assert(t@.take(to as int) =~= t@);
    while to > 0 && padding(t[to - 1])
        invariant
            to <= t@.len(),
            unpadded_end(t@.take(to as int)) == unpadded_end(t@),
        decreases to,
    {
        assert(t@.take(to as int).drop_last() =~= t@.take(to - 1));
        to -= 1;
    }
    let r: &[char] = vstd::slice::slice_subrange(t, 0, to);
    assert(r@ =~= t@.take(to as int));
    r
}

/// The distributions that `wsl -l -q` lists, out of what it printed.
pub fn parse_wsl_list(bytes: &[u8]) -> (r: Vec<String>)
    ensures
        text::strings(r@) == wsl_list(bytes@),
{
    let mut code: Vec<u16> = Vec::new();
    let total: usize = bytes.len();
    let half: usize = total / 2;
    let mut i: usize = 0;
    assert(code@ =~= units(bytes@).take(0));
    while i < half
        invariant
            i <= half,
            total == bytes@.len(),
            half == total / 2,
            code@ == units(bytes@).take(i as int),
        decreases half - i,
    {
        let unit: u16 = bytes[2 * i] as u16 + 256 * bytes[2 * i + 1] as u16;
        code.push(unit);
        i += 1;
        assert(code@ =~= units(bytes@).take(i as int));
    }
    assert(units(bytes@).take(i as int) =~= units(bytes@));
    let whole: Vec<char> = utf16::decode(code.as_slice());
    let lines: Vec<Vec<char>> = text::lines(whole.as_slice());
    let ghost all = text::lines_of(utf16::decoded(units(bytes@)));
    let mut out: Vec<String> = Vec::new();
    let mut n: usize = 0;
    assert(text::strings(out@) =~= seq![]);
    while n < lines.len()
        invariant
            n <= lines@.len(),
            all == text::views(lines@),
            text::strings(out@) == named(all, n as int),
        decreases lines@.len() - n,
    {
        assert(all[n as int] == lines@[n as int]@);
        let name: &[char] = unpad(lines[n].as_slice());
        if worth_offering(name) {
            let ghost before = text::strings(out@);
            out.push(text::text_of(name));
            assert(text::strings(out@) =~= before.push(name@));
        }
        n += 1;
    }
    out
}

/// The distributions, given what the registry says of them and what `wsl -l -q` printed, if it ran
/// in time. The second counts only where the registry does not say.
pub open spec fn distros(
    registry: Option<Vec<Distro>>,
    answered: bool,
    success: bool,
    stdout: Seq<u8>,
) -> Option<Seq<Seq<char>>> {
    match registered(registry) {
        Some(names) => Some(names),
        None => if answered && success {
            Some(wsl_list(stdout))
        } else {
            None
        },
    }
}

/// Whichever way the distributions were listed, each that is offered is one to type into.
pub proof fn law_every_distribution_is_to_be_typed_into(
    registry: Option<Vec<Distro>>,
    answered: bool,
    success: bool,
    stdout: Seq<u8>,
    k: int,
)
    requires
        distros(registry, answered, success, stdout) matches Some(names) && 0 <= k < names.len(),
    ensures
        is_offered(distros(registry, answered, success, stdout)->0[k]),
{
    if registered(registry) is Some {
        let list = registry->0@;
        let n = law_only_usable_distributions_are_offered(list, list.len() as int, k);
    } else {
        let lines = text::lines_of(utf16::decoded(units(stdout)));
        lemma_named_are_offered(lines, lines.len() as int, k);
    }
}

/// What a line names is to be typed into.
proof fn lemma_named_are_offered(lines: Seq<Seq<char>>, upto: int, k: int)
    requires
        0 <= k < named(lines, upto).len(),
    ensures
        is_offered(named(lines, upto)[k]),
    decreases upto,
{
    if upto > 0 && k < named(lines, upto - 1).len() {
        lemma_named_are_offered(lines, upto - 1, k);
    }
}

/// The distributions of a Windows machine; `None` where nothing could be told.
pub fn list_wsl_distros(
    registry: &Option<Vec<Distro>>,
    answered: bool,
    success: bool,
    stdout: &[u8],
) -> (r: Option<Vec<String>>)
    ensures
        listed(r) == distros(*registry, answered, success, stdout@),
{
    match registered_wsl_distros(registry) {
        Some(names) => Some(names),
        None => if answered && success {
            Some(parse_wsl_list(stdout))
        } else {
            None
        },
    }
}

/// The distributions of a machine; `None` where nothing could be told. A Unix machine has none.
pub fn wsl_distros_probed(platform: Platform, found: Option<Vec<String>>) -> (r: Option<
    Vec<String>,
>)
    ensures
        listed(r) == (match platform {
            Platform::Windows => listed(found),
            Platform::Unix => Some(seq![]),
        }),
{
    match platform {
        Platform::Windows => found,
        Platform::Unix => {
            let none: Vec<String> = Vec::new();
            assert(text::strings(none@) =~= seq![]);
            Some(none)
        },
    }
}

/// The distributions of a machine; none where nothing could be told.
pub fn wsl_distros(platform: Platform, found: Option<Vec<String>>) -> (r: Vec<String>)
    ensures
        text::strings(r@) == (match (platform, listed(found)) {
            (Platform::Windows, Some(names)) => names,
            _ => seq![],
        }),
{
    match wsl_distros_probed(platform, found) {
        Some(names) => names,
        None => {
            let none: Vec<String> = Vec::new();
            assert(text::strings(none@) =~= seq![]);
            none
        },
    }
}

/// The distribution that is opened where none is asked for, given the key that the registry calls
/// the default and the name under that key. A Unix machine has none.
pub fn default_wsl_distro(platform: Platform, guid: &Option<String>, name: &Option<String>) -> (r:
    Option<String>)
    ensures
        shells::shown(r) == (if platform == Platform::Windows && guid is Some && name is Some
            && name->0@.len() > 0 {
            shells::shown(*name)
        } else {
            None
        }),
{
    match platform {
        Platform::Unix => None,
        Platform::Windows => match (guid, name) {
            (Some(_), Some(n)) => {
                let chars: Vec<char> = text::chars_of(n.as_str());
                if chars.len() > 0 {
                    Some(n.clone())
                } else {
                    None
                }
            },
            _ => None,
        },
    }
}

} // verus!
