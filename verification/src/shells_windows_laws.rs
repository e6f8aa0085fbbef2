//! What holds of the shells of every Windows machine, said of what was found there.

use vstd::prelude::*;

use crate::paths;
use crate::paths::Platform;
use crate::search_path;
use crate::shells_windows;
use crate::shells_windows::Distro;
use crate::shells_windows::Places;
use crate::text;
use crate::text_laws;
use crate::utf16;

verus! {

/// Whether a directory is written in full: something that ends neither in a slash nor in the colon
/// of a drive, and not the beginning of a path that is taken as it is.
pub open spec fn is_whole(dir: Seq<char>) -> bool {
    &&& dir.len() > 0
    &&& dir.last() != '\\'
    &&& dir.last() != '/'
    &&& dir.last() != ':'
    &&& !seq!['\\', '\\', '?'].is_prefix_of(dir)
}

/// Whether a variable holds a directory that is written in full, if it holds any.
pub open spec fn is_whole_if_set(var: Option<String>) -> bool {
    var matches Some(dir) ==> dir@.len() == 0 || is_whole(dir@)
}

/// A place below the directory that a variable holds, if it holds one.
pub open spec fn behind(var: Option<String>, tail: Seq<char>) -> Seq<Seq<char>> {
    match var {
        Some(dir) => if dir@.len() > 0 {
            seq![dir@ + tail]
        } else {
            seq![]
        },
        None => seq![],
    }
}

/// A name below a directory that is written in full.
proof fn lemma_one_below(dir: Seq<char>, name: Seq<char>)
    requires
        is_whole(dir),
        is_whole(name),
    ensures
        paths::inside(Platform::Windows, dir, name) == dir + seq!['\\'] + name,
        is_whole(dir + seq!['\\'] + name),
{
    let verbatim = seq!['\\', '\\', '?', '\\'];
    let three = seq!['\\', '\\', '?'];
    if verbatim.is_prefix_of(dir) {
        assert forall|i: int| 0 <= i < 3 implies three[i] == dir[i] by {
            assert(verbatim[i] == dir[i]);
        }
        assert(three.is_prefix_of(dir));
    }
    assert(!paths::is_verbatim(Platform::Windows, dir));
    assert(text::backslashed(dir).last() != '\\');
    assert(dir.push('\\') + name =~= dir + seq!['\\'] + name);
    let s = dir + seq!['\\'] + name;
    assert(s.last() == name.last());
    if three.is_prefix_of(s) {
        assert(three[0] == s[0] && three[1] == s[1] && three[2] == s[2]);
        if dir.len() >= 3 {
            assert(three =~= dir.take(3));
            assert(three.is_prefix_of(dir));
        } else if dir.len() == 2 {
            assert(dir.last() == s[1]);
        } else {
            assert(dir.last() == s[0]);
        }
    }
}

/// Names with a backslash in front of each.
pub open spec fn chain(names: Seq<Seq<char>>) -> Seq<char>
    decreases names.len(),
{
    if names.len() == 0 {
        seq![]
    } else {
        chain(names.drop_last()) + (seq!['\\'] + names.last())
    }
}

/// Names below a directory that is written in full.
proof fn lemma_all_below(dir: Seq<char>, names: Seq<Seq<char>>)
    requires
        is_whole(dir),
        forall|i: int| 0 <= i < names.len() ==> is_whole(#[trigger] names[i]),
    ensures
        shells_windows::nested(dir, names) == dir + chain(names),
        is_whole(dir + chain(names)),
    decreases names.len(),
{
    if names.len() == 0 {
        assert(dir + chain(names) =~= dir);
    } else {
        let front = names.drop_last();
        assert forall|i: int| 0 <= i < front.len() implies is_whole(#[trigger] front[i]) by {
            assert(front[i] == names[i]);
        }
        lemma_all_below(dir, front);
        let last = names[names.len() - 1];
        assert(is_whole(last));
        let x = dir + chain(front);
        lemma_one_below(x, last);
        assert(x + seq!['\\'] + last =~= dir + chain(names));
    }
}

/// Two, three and four names with a backslash in front of each.
proof fn lemma_chain(a: Seq<char>, b: Seq<char>, c: Seq<char>, d: Seq<char>)
    ensures
        chain(seq![a, b]) == seq!['\\'] + a + seq!['\\'] + b,
        chain(seq![a, b, c]) == seq!['\\'] + a + seq!['\\'] + b + seq!['\\'] + c,
        chain(seq![a, b, c, d]) == seq!['\\'] + a + seq!['\\'] + b + seq!['\\'] + c + seq!['\\']
            + d,
{
    let none = Seq::<Seq<char>>::empty();
    assert(chain(none) =~= seq![]);
    assert(seq![a].drop_last() =~= none);
    assert(chain(seq![a]) =~= seq!['\\'] + a);
    assert(seq![a, b].drop_last() =~= seq![a]);
    assert(chain(seq![a, b]) =~= seq!['\\'] + a + seq!['\\'] + b);
    assert(seq![a, b, c].drop_last() =~= seq![a, b]);
    assert(chain(seq![a, b, c]) =~= seq!['\\'] + a + seq!['\\'] + b + seq!['\\'] + c);
    assert(seq![a, b, c, d].drop_last() =~= seq![a, b, c]);
    assert(chain(seq![a, b, c, d]) =~= seq!['\\'] + a + seq!['\\'] + b + seq!['\\'] + c + seq!['\\']
        + d);
}

/// Names below the directory that a variable holds.
proof fn lemma_below_var(var: Option<String>, names: Seq<Seq<char>>)
    requires
        is_whole_if_set(var),
        forall|i: int| 0 <= i < names.len() ==> is_whole(#[trigger] names[i]),
    ensures
        shells_windows::below(var, names) == behind(var, chain(names)),
{
    if var is Some && var->0@.len() > 0 {
        lemma_all_below(var->0@, names);
    }
}

/// PowerShell 7 is looked for below the program directories, the released version before the
/// preview in each, then among the tools of the user.
pub proof fn law_powershell_is_looked_for_where_it_is_installed(places: Places)
    requires
        is_whole_if_set(places.program_files),
        is_whole_if_set(places.program_files_x86),
        is_whole_if_set(places.program_files_arm),
        is_whole_if_set(places.user_profile),
        is_whole_if_set(places.local_app_data),
    ensures
        shells_windows::pwsh7_places(places) == behind(
            places.program_files,
            r"\PowerShell\7\pwsh.exe"@,
        ) + behind(places.program_files, r"\PowerShell\7-preview\pwsh.exe"@) + behind(
            places.program_files_x86,
            r"\PowerShell\7\pwsh.exe"@,
        ) + behind(places.program_files_x86, r"\PowerShell\7-preview\pwsh.exe"@) + behind(
            places.program_files_arm,
            r"\PowerShell\7\pwsh.exe"@,
        ) + behind(places.program_files_arm, r"\PowerShell\7-preview\pwsh.exe"@) + behind(
            places.user_profile,
            r"\.dotnet\tools\pwsh.exe"@,
        ) + behind(places.user_profile, r"\scoop\shims\pwsh.exe"@) + behind(
            places.local_app_data,
            r"\Microsoft\WindowsApps\pwsh.exe"@,
        ),
{
    reveal_strlit("PowerShell");
    reveal_strlit("7");
    reveal_strlit("7-preview");
    reveal_strlit("pwsh.exe");
    reveal_strlit(".dotnet");
    reveal_strlit("tools");
    reveal_strlit("scoop");
    reveal_strlit("shims");
    reveal_strlit("Microsoft");
    reveal_strlit("WindowsApps");
    reveal_strlit(r"\PowerShell\7\pwsh.exe");
    reveal_strlit(r"\PowerShell\7-preview\pwsh.exe");
    reveal_strlit(r"\.dotnet\tools\pwsh.exe");
    reveal_strlit(r"\scoop\shims\pwsh.exe");
    reveal_strlit(r"\Microsoft\WindowsApps\pwsh.exe");
    let slash = seq!['\\'];
    assert(slash + "PowerShell"@ + slash + "7"@ + slash + "pwsh.exe"@
        =~= r"\PowerShell\7\pwsh.exe"@);
    assert(slash + "PowerShell"@ + slash + "7-preview"@ + slash + "pwsh.exe"@
        =~= r"\PowerShell\7-preview\pwsh.exe"@);
    assert(slash + ".dotnet"@ + slash + "tools"@ + slash + "pwsh.exe"@
        =~= r"\.dotnet\tools\pwsh.exe"@);
    assert(slash + "scoop"@ + slash + "shims"@ + slash + "pwsh.exe"@ =~= r"\scoop\shims\pwsh.exe"@);
    assert(slash + "Microsoft"@ + slash + "WindowsApps"@ + slash + "pwsh.exe"@
        =~= r"\Microsoft\WindowsApps\pwsh.exe"@);
    assert(is_whole("PowerShell"@) && is_whole("7"@) && is_whole("7-preview"@) && is_whole(
        "pwsh.exe"@,
    ));
    assert(is_whole(".dotnet"@) && is_whole("tools"@) && is_whole("scoop"@) && is_whole("shims"@));
    assert(is_whole("Microsoft"@) && is_whole("WindowsApps"@));
    lemma_below_var(places.program_files, seq!["PowerShell"@, "7"@, "pwsh.exe"@]);
    lemma_chain("PowerShell"@, "7"@, "pwsh.exe"@, "pwsh.exe"@);
    lemma_below_var(places.program_files, seq!["PowerShell"@, "7-preview"@, "pwsh.exe"@]);
    lemma_chain("PowerShell"@, "7-preview"@, "pwsh.exe"@, "pwsh.exe"@);
    lemma_below_var(places.program_files_x86, seq!["PowerShell"@, "7"@, "pwsh.exe"@]);
    lemma_chain("PowerShell"@, "7"@, "pwsh.exe"@, "pwsh.exe"@);
    lemma_below_var(places.program_files_x86, seq!["PowerShell"@, "7-preview"@, "pwsh.exe"@]);
    lemma_chain("PowerShell"@, "7-preview"@, "pwsh.exe"@, "pwsh.exe"@);
    lemma_below_var(places.program_files_arm, seq!["PowerShell"@, "7"@, "pwsh.exe"@]);
    lemma_chain("PowerShell"@, "7"@, "pwsh.exe"@, "pwsh.exe"@);
    lemma_below_var(places.program_files_arm, seq!["PowerShell"@, "7-preview"@, "pwsh.exe"@]);
    lemma_chain("PowerShell"@, "7-preview"@, "pwsh.exe"@, "pwsh.exe"@);
    lemma_below_var(places.user_profile, seq![".dotnet"@, "tools"@, "pwsh.exe"@]);
    lemma_chain(".dotnet"@, "tools"@, "pwsh.exe"@, "pwsh.exe"@);
    lemma_below_var(places.user_profile, seq!["scoop"@, "shims"@, "pwsh.exe"@]);
    lemma_chain("scoop"@, "shims"@, "pwsh.exe"@, "pwsh.exe"@);
    lemma_below_var(places.local_app_data, seq!["Microsoft"@, "WindowsApps"@, "pwsh.exe"@]);
    lemma_chain("Microsoft"@, "WindowsApps"@, "pwsh.exe"@, "pwsh.exe"@);
}

/// Git Bash is looked for below the program directories, then below the programs of the user.
pub proof fn law_git_bash_is_looked_for_where_it_is_installed(places: Places)
    requires
        is_whole_if_set(places.program_files),
        is_whole_if_set(places.program_files_x86),
        is_whole_if_set(places.local_app_data),
    ensures
        shells_windows::git_bash_places(places) == behind(
            places.program_files,
            r"\Git\bin\bash.exe"@,
        ) + behind(places.program_files_x86, r"\Git\bin\bash.exe"@) + behind(
            places.local_app_data,
            r"\Programs\Git\bin\bash.exe"@,
        ),
{
    reveal_strlit("Git");
    reveal_strlit("bin");
    reveal_strlit("bash.exe");
    reveal_strlit("Programs");
    reveal_strlit(r"\Git\bin\bash.exe");
    reveal_strlit(r"\Programs\Git\bin\bash.exe");
    let slash = seq!['\\'];
    assert(slash + "Git"@ + slash + "bin"@ + slash + "bash.exe"@ =~= r"\Git\bin\bash.exe"@);
    assert(slash + "Programs"@ + slash + "Git"@ + slash + "bin"@ + slash + "bash.exe"@
        =~= r"\Programs\Git\bin\bash.exe"@);
    assert(is_whole("Git"@) && is_whole("bin"@) && is_whole("bash.exe"@) && is_whole("Programs"@));
    lemma_below_var(places.program_files, seq!["Git"@, "bin"@, "bash.exe"@]);
    lemma_chain("Git"@, "bin"@, "bash.exe"@, "bash.exe"@);
    lemma_below_var(places.program_files_x86, seq!["Git"@, "bin"@, "bash.exe"@]);
    lemma_chain("Git"@, "bin"@, "bash.exe"@, "bash.exe"@);
    lemma_below_var(places.local_app_data, seq!["Programs"@, "Git"@, "bin"@, "bash.exe"@]);
    lemma_chain("Programs"@, "Git"@, "bin"@, "bash.exe"@);
}

/// The shells of the system are below its directory, which is `C:\Windows` where nothing else is
/// said.
pub proof fn law_the_shells_of_the_system_are_below_it(places: Places)
    requires
        places.system_root matches Some(dir) ==> is_whole(dir@),
    ensures
        ({
            let root = match places.system_root {
                Some(dir) => dir@,
                None => r"C:\Windows"@,
            };
            &&& shells_windows::cmd_place(places) == root + r"\System32\cmd.exe"@
            &&& shells_windows::ps5_place(places) == root
                + r"\System32\WindowsPowerShell\v1.0\powershell.exe"@
        }),
{
    reveal_strlit(r"C:\Windows");
    reveal_strlit("System32");
    reveal_strlit("WindowsPowerShell");
    reveal_strlit("v1.0");
    reveal_strlit("powershell.exe");
    reveal_strlit("cmd.exe");
    reveal_strlit(r"\System32\cmd.exe");
    reveal_strlit(r"\System32\WindowsPowerShell\v1.0\powershell.exe");
    let slash = seq!['\\'];
    let root = match places.system_root {
        Some(dir) => dir@,
        None => r"C:\Windows"@,
    };
    assert(is_whole(r"C:\Windows"@)) by {
        if seq!['\\', '\\', '?'].is_prefix_of(r"C:\Windows"@) {
            assert(seq!['\\', '\\', '?'][0] == r"C:\Windows"@[0]);
        }
    }
    assert(is_whole("System32"@) && is_whole("WindowsPowerShell"@) && is_whole("v1.0"@) && is_whole(
        "powershell.exe"@,
    ) && is_whole("cmd.exe"@));
    assert(slash + "System32"@ + slash + "cmd.exe"@ =~= r"\System32\cmd.exe"@);
    assert(slash + "System32"@ + slash + "WindowsPowerShell"@ + slash + "v1.0"@ + slash
        + "powershell.exe"@ =~= r"\System32\WindowsPowerShell\v1.0\powershell.exe"@);
    lemma_all_below(root, seq!["System32"@, "cmd.exe"@]);
    lemma_chain("System32"@, "cmd.exe"@, "cmd.exe"@, "cmd.exe"@);
    lemma_all_below(root, seq!["System32"@, "WindowsPowerShell"@, "v1.0"@, "powershell.exe"@]);
    lemma_chain("System32"@, "WindowsPowerShell"@, "v1.0"@, "powershell.exe"@);
}

/// The first place that holds a file is taken, and none where none does.
pub proof fn law_the_first_place_is_taken(list: Seq<Seq<char>>, present: Seq<bool>, k: int)
    requires
        list.len() == present.len(),
    ensures
        0 <= k < list.len() && present[k] && (forall|j: int|
            0 <= j < k ==> !(#[trigger] present[j])) ==> shells_windows::first_present(
            list,
            present,
        ) == Some(list[k]),
        (forall|j: int| 0 <= j < list.len() ==> !(#[trigger] present[j]))
            ==> shells_windows::first_present(list, present) is None,
    decreases list.len(),
{
    if list.len() > 0 {
        if present[0] {
            if k > 0 && (forall|j: int| 0 <= j < k ==> !(#[trigger] present[j])) {
                assert(!present[0]);
            }
        } else {
            let rest = present.skip(1);
            law_the_first_place_is_taken(list.skip(1), rest, k - 1);
            if forall|j: int| 0 <= j < k ==> !(#[trigger] present[j]) {
                assert forall|j: int| 0 <= j < k - 1 && j < rest.len() implies !(
                #[trigger] rest[j]) by {
                    assert(rest[j] == present[j + 1]);
                }
            }
            if forall|j: int| 0 <= j < list.len() ==> !(#[trigger] present[j]) {
                assert forall|j: int| 0 <= j < rest.len() implies !(#[trigger] rest[j]) by {
                    assert(rest[j] == present[j + 1]);
                }
            }
        }
    }
}

/// Whether a name is that of a distribution to type into.
pub open spec fn is_to_be_offered(name: Seq<char>) -> bool {
    &&& name.len() > 0
    &&& !"docker-desktop"@.is_prefix_of(name)
    &&& !"rancher-desktop"@.is_prefix_of(name)
}

proof fn lemma_usable_front(a: Seq<Distro>, b: Seq<Distro>, upto: int)
    requires
        0 <= upto <= a.len(),
    ensures
        shells_windows::usable(a + b, upto) == shells_windows::usable(a, upto),
    decreases upto,
{
    if upto > 0 {
        lemma_usable_front(a, b, upto - 1);
        assert((a + b)[upto - 1] == a[upto - 1]);
    }
}

proof fn lemma_usable_sum(a: Seq<Distro>, b: Seq<Distro>, upto: int)
    requires
        0 <= upto <= b.len(),
    ensures
        shells_windows::usable(a + b, a.len() + upto) == shells_windows::usable(a, a.len() as int)
            + shells_windows::usable(b, upto),
    decreases upto,
{
    if upto == 0 {
        lemma_usable_front(a, b, a.len() as int);
        assert(shells_windows::usable(a, a.len() as int) + shells_windows::usable(b, 0)
            =~= shells_windows::usable(a, a.len() as int));
    } else {
        lemma_usable_sum(a, b, upto - 1);
        assert((a + b)[a.len() + upto - 1] == b[upto - 1]);
        assert(shells_windows::usable(a + b, a.len() + upto) =~= shells_windows::usable(
            a,
            a.len() as int,
        ) + shells_windows::usable(b, upto));
    }
}

/// Each distribution in the registry is offered by its name, whatever is around it, unless it is
/// not installed, or has no name, or is one of those that others bring for themselves.
pub proof fn law_each_distribution_is_offered(a: Seq<Distro>, distro: Distro, b: Seq<Distro>)
    ensures
        ({
            let list = a + seq![distro] + b;
            let installed = distro.state is None || distro.state == Some(1u32);
            shells_windows::usable(list, list.len() as int) == shells_windows::usable(
                a,
                a.len() as int,
            ) + (if installed && distro.name is Some && is_to_be_offered(distro.name->0@) {
                seq![distro.name->0@]
            } else {
                seq![]
            }) + shells_windows::usable(b, b.len() as int)
        }),
{
    let list = a + seq![distro] + b;
    let one = seq![distro];
    lemma_usable_sum(a, one, 1);
    lemma_usable_sum(a + one, b, b.len() as int);
    reveal_with_fuel(shells_windows::usable, 2);
    let row = if (distro.state is None || distro.state == Some(1u32)) && distro.name is Some
        && is_to_be_offered(distro.name->0@) {
        seq![distro.name->0@]
    } else {
        seq![]
    };
    assert(one[0] == distro);
    assert(shells_windows::usable(one, 1) =~= row);
    assert(list.len() == (a + one).len() + b.len());
}

/// What the registry says counts, unless it lists distributions and none of them is to be offered;
/// then, and where the registry cannot be read, the command that lists them is believed, if it
/// ends well.
pub proof fn law_the_registry_is_asked_first(
    list: Vec<Distro>,
    answered: bool,
    success: bool,
    stdout: Seq<u8>,
)
    ensures
        ({
            let names = shells_windows::usable(list@, list@.len() as int);
            let known = shells_windows::distros(Some(list), answered, success, stdout);
            let unknown = shells_windows::distros(None, answered, success, stdout);
            &&& names.len() > 0 || list@.len() == 0 ==> known == Some(names)
            &&& names.len() == 0 && list@.len() > 0 ==> known == unknown
            &&& answered && success ==> unknown == Some(shells_windows::wsl_list(stdout))
            &&& !answered || !success ==> unknown is None
        }),
{
}

proof fn lemma_named_front(a: Seq<Seq<char>>, b: Seq<Seq<char>>, upto: int)
    requires
        0 <= upto <= a.len(),
    ensures
        shells_windows::named(a + b, upto) == shells_windows::named(a, upto),
    decreases upto,
{
    if upto > 0 {
        lemma_named_front(a, b, upto - 1);
        assert((a + b)[upto - 1] == a[upto - 1]);
    }
}

proof fn lemma_named_sum(a: Seq<Seq<char>>, b: Seq<Seq<char>>, upto: int)
    requires
        0 <= upto <= b.len(),
    ensures
        shells_windows::named(a + b, a.len() + upto) == shells_windows::named(a, a.len() as int)
            + shells_windows::named(b, upto),
    decreases upto,
{
    if upto == 0 {
        lemma_named_front(a, b, a.len() as int);
        assert(shells_windows::named(a, a.len() as int) + shells_windows::named(b, 0)
            =~= shells_windows::named(a, a.len() as int));
    } else {
        lemma_named_sum(a, b, upto - 1);
        assert((a + b)[a.len() + upto - 1] == b[upto - 1]);
        assert(shells_windows::named(a + b, a.len() + upto) =~= shells_windows::named(
            a,
            a.len() as int,
        ) + shells_windows::named(b, upto));
    }
}

/// Whether a text is made of white space, marks of the byte order and zeros.
pub open spec fn is_blank(s: Seq<char>) -> bool {
    forall|i: int|
        0 <= i < s.len() ==> text::is_space(#[trigger] s[i]) || s[i] == '\u{feff}' || s[i] == '\0'
}

/// Whether a text neither begins nor ends with what is blank.
pub open spec fn is_bounded(s: Seq<char>) -> bool {
    s.len() > 0 ==> !is_blank(seq![s[0]]) && !is_blank(seq![s.last()])
}

proof fn lemma_unpadded_start(pad: Seq<char>, rest: Seq<char>)
    requires
        is_blank(pad),
        rest.len() > 0 ==> !is_blank(seq![rest[0]]),
    ensures
        shells_windows::unpadded_start(pad + rest) == rest,
    decreases pad.len(),
{
    let s = pad + rest;
    if pad.len() == 0 {
        assert(s =~= rest);
        if rest.len() > 0 {
            assert(!shells_windows::is_padding(rest[0])) by {
                if shells_windows::is_padding(rest[0]) {
                    assert(is_blank(seq![rest[0]]));
                }
            }
        }
    } else {
        assert(shells_windows::is_padding(pad[0]));
        let less = pad.skip(1);
        assert forall|i: int| 0 <= i < less.len() implies text::is_space(#[trigger] less[i])
            || less[i] == '\u{feff}' || less[i] == '\0' by {
            assert(less[i] == pad[i + 1]);
        }
        lemma_unpadded_start(less, rest);
        assert(s.skip(1) =~= less + rest);
        assert(s[0] == pad[0]);
    }
}

proof fn lemma_unpadded_end(front: Seq<char>, pad: Seq<char>)
    requires
        is_blank(pad),
        front.len() > 0 ==> !is_blank(seq![front.last()]),
    ensures
        shells_windows::unpadded_end(front + pad) == front,
    decreases pad.len(),
{
    let s = front + pad;
    if pad.len() == 0 {
        assert(s =~= front);
        if front.len() > 0 {
            assert(!shells_windows::is_padding(front.last())) by {
                if shells_windows::is_padding(front.last()) {
                    assert(is_blank(seq![front.last()]));
                }
            }
        }
    } else {
        assert(s.last() == pad[pad.len() - 1]);
        assert(shells_windows::is_padding(pad[pad.len() - 1]));
        let less = pad.drop_last();
        assert forall|i: int| 0 <= i < less.len() implies text::is_space(#[trigger] less[i])
            || less[i] == '\u{feff}' || less[i] == '\0' by {
            assert(less[i] == pad[i]);
        }
        lemma_unpadded_end(front, less);
        assert(s.drop_last() =~= front + less);
    }
}

proof fn lemma_unpadded(left: Seq<char>, name: Seq<char>, right: Seq<char>)
    requires
        is_blank(left),
        is_blank(right),
        is_bounded(name),
    ensures
        shells_windows::unpadded(left + name + right) == name,
{
    if name.len() > 0 {
        let rest = name + right;
        assert(rest[0] == name[0]);
        lemma_unpadded_start(left, rest);
        assert(left + rest =~= left + name + right);
        lemma_unpadded_end(name, right);
    } else {
        let pad = left + right;
        let none = Seq::<char>::empty();
        assert forall|i: int| 0 <= i < pad.len() implies text::is_space(#[trigger] pad[i])
            || pad[i] == '\u{feff}' || pad[i] == '\0' by {
            if i < left.len() {
                assert(pad[i] == left[i]);
            } else {
                assert(pad[i] == right[i - left.len()]);
            }
        }
        lemma_unpadded_start(pad, none);
        assert(pad + none =~= left + name + right);
        assert(name =~= none);
    }
}

/// Each line of the command that lists the distributions names one, whatever lines are around it:
/// what is in it without the blanks around, unless that is not to be offered.
pub proof fn law_each_line_names_a_distribution(
    whole: Seq<u8>,
    above: Seq<u8>,
    below: Seq<u8>,
    left: Seq<char>,
    name: Seq<char>,
    right: Seq<char>,
)
    requires
        ({
            let before = utf16::decoded(shells_windows::units(above));
            let after = utf16::decoded(shells_windows::units(below));
            &&& before.len() == 0 || before.last() == '\n'
            &&& utf16::decoded(shells_windows::units(whole)) == before + (left + name + right)
                + seq!['\n'] + after
        }),
        is_blank(left),
        is_blank(right),
        is_bounded(name),
        !(left + name + right).contains('\n'),
    ensures
        shells_windows::wsl_list(whole) == shells_windows::wsl_list(above) + (if is_to_be_offered(
            name,
        ) {
            seq![name]
        } else {
            seq![]
        }) + shells_windows::wsl_list(below),
{
    let before = utf16::decoded(shells_windows::units(above));
    let after = utf16::decoded(shells_windows::units(below));
    let line = left + name + right;
    let end = line.push('\n');
    text_laws::law_a_line_is_a_line(line);
    text_laws::law_lines_follow_each_other(end, after);
    text_laws::law_lines_follow_each_other(before, end + after);
    assert(before + (end + after) =~= before + line + seq!['\n'] + after);
    let a = text::lines_of(before);
    let b = seq![text::without_return(line)];
    let c = text::lines_of(after);
    assert(text::lines_of(end) =~= b);
    lemma_named_sum(b, c, c.len() as int);
    lemma_named_sum(a, b + c, (b + c).len() as int);
    lemma_unpadded(left, name, right);
    if line.len() > 0 && line.last() == '\r' {
        let t = line.drop_last();
        if right.len() > 0 {
            let less = right.drop_last();
            assert forall|i: int| 0 <= i < less.len() implies text::is_space(#[trigger] less[i])
                || less[i] == '\u{feff}' || less[i] == '\0' by {
                assert(less[i] == right[i]);
            }
            lemma_unpadded(left, name, less);
            assert(t =~= left + name + less);
        } else if name.len() > 0 {
            assert(line.last() == name.last());
            assert(is_blank(seq![name.last()]));
            assert(false);
        } else {
            let less = left.drop_last();
            assert forall|i: int| 0 <= i < less.len() implies text::is_space(#[trigger] less[i])
                || less[i] == '\u{feff}' || less[i] == '\0' by {
                assert(less[i] == left[i]);
            }
            lemma_unpadded(less, name, right);
            assert(t =~= less + name + right);
        }
    }
    reveal_with_fuel(shells_windows::named, 2);
    let one = if is_to_be_offered(name) {
        seq![name]
    } else {
        seq![]
    };
    assert(shells_windows::named(b, 1) =~= one);
    assert(shells_windows::wsl_list(whole) =~= shells_windows::wsl_list(above) + one
        + shells_windows::wsl_list(below));
}

/// A program is looked for in each directory of the search path, one behind the other.
pub proof fn law_a_program_is_looked_for_along_the_search_path(
    path: Seq<char>,
    exe: Seq<char>,
    i: int,
)
    requires
        !path.contains('"'),
        is_whole(exe),
        0 <= i < text::pieces(path, ';').len(),
    ensures
        shells_windows::along(path, exe).len() == text::pieces(path, ';').len(),
        is_whole(text::pieces(path, ';')[i]) ==> shells_windows::along(path, exe)[i]
            == text::pieces(path, ';')[i] + seq!['\\'] + exe,
{
    search_path::law_a_search_path_is_split_at_its_separators(path);
    if is_whole(text::pieces(path, ';')[i]) {
        lemma_one_below(text::pieces(path, ';')[i], exe);
    }
}

} // verus!
