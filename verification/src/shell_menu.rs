//! The menu of shells: the detected ones, the configured one, and those that the user added.

use vstd::prelude::*;

use crate::paths;
use crate::paths::Platform;
use crate::shells;
use crate::shells::DetectedShell;
use crate::shells_windows;
use crate::shells_windows::Probe;
use crate::text;

verus! {

/// The shells that are offered, and the label of the one that a new tab opens with.
#[derive(Debug, Clone, Default, PartialEq, Eq)]
pub struct ShellInventory {
    pub shells: Vec<DetectedShell>,
    pub default_name: String,
}

/// What the menu stands for.
#[verifier::ext_equal]
pub struct Menu {
    pub shells: Seq<shells::Shell>,
    pub default_name: Seq<char>,
}

impl View for ShellInventory {
    type V = Menu;

    open spec fn view(&self) -> Menu {
        Menu { shells: shells::views(self.shells@), default_name: self.default_name@ }
    }
}

/// An entry that the user added.
#[derive(Debug, Clone, PartialEq, Eq)]
pub struct CustomShell {
    pub label: String,
    pub program: String,
    pub args: Vec<String>,
}

/// What an entry stands for.
pub struct Custom {
    pub label: Seq<char>,
    pub program: Seq<char>,
    pub args: Seq<Seq<char>>,
}

impl View for CustomShell {
    type V = Custom;

    open spec fn view(&self) -> Custom {
        Custom { label: self.label@, program: self.program@, args: text::strings(self.args@) }
    }
}

/// What some entries stand for.
pub open spec fn customs(list: Seq<CustomShell>) -> Seq<Custom> {
    Seq::new(list.len(), |i: int| list[i]@)
}

/// A path in the form in which programs are compared: as the file system resolves it, if it does,
/// and on Windows whatever the case and the separators.
pub open spec fn comparable(platform: Platform, path: Seq<char>, resolved: Option<String>) -> Seq<
    char,
> {
    let whole = match resolved {
        Some(r) => r@,
        None => path,
    };
    match platform {
        Platform::Unix => whole,
        Platform::Windows => text::lowered(text::backslashed(whole)),
    }
}

/// Whether a detected program is the configured one. A bare name is any program of that name,
/// since both are looked for along the search path; a path is only itself, so that two
/// installations of one shell stay apart.
pub open spec fn same_program(
    platform: Platform,
    detected: Seq<char>,
    configured: Seq<char>,
    detected_resolved: Option<String>,
    configured_resolved: Option<String>,
) -> bool {
    let d = text::trimmed(detected);
    let c = text::trimmed(configured);
    if d.len() == 0 || c.len() == 0 {
        false
    } else if shells::is_bare(platform, c) {
        shells::base(platform, d) == shells::base(platform, c)
    } else if shells::is_bare(platform, d) {
        false
    } else {
        comparable(platform, d, detected_resolved) == comparable(platform, c, configured_resolved)
    }
}

/// A text without white space at its ends.
fn trim(s: &str) -> (r: String)
    ensures
        r@ == text::trimmed(s@),
{
    let chars: Vec<char> = text::chars_of(s);
    text::text_of(text::trim(chars.as_slice()))
}

/// Whether a text holds anything.
fn is_blank(s: &str) -> (r: bool)
    ensures
        r == (s@.len() == 0),
{
    text::chars_of(s).len() == 0
}

/// A path in the form in which programs are compared.
fn comparable_program_path(platform: Platform, path: &str, resolved: &Option<String>) -> (r: Vec<char>)
    ensures
        r@ == comparable(platform, path@, *resolved),
{
    let whole: Vec<char> = match resolved {
        Some(r) => text::chars_of(r.as_str()),
        None => text::chars_of(path),
    };
    match platform {
        Platform::Unix => whole,
        Platform::Windows => {
            let flat: Vec<char> = text::to_backslashes(whole.as_slice());
            text::to_lowered(flat.as_slice())
        },
    }
}

/// Whether a detected program is the configured one, given what the file system resolves the two
/// to, without white space at their ends.
pub fn same_shell_program(
    platform: Platform,
    detected: &str,
    configured: &str,
    detected_resolved: &Option<String>,
    configured_resolved: &Option<String>,
) -> (r: bool)
    ensures
        r == same_program(platform, detected@, configured@, *detected_resolved, *configured_resolved),
{
    let d: String = trim(detected);
    let c: String = trim(configured);
    if is_blank(d.as_str()) || is_blank(c.as_str()) {
        return false;
    }
    if shells::is_bare_program(platform, c.as_str()) {
        let a: String = shells::basename(platform, d.as_str());
        let b: String = shells::basename(platform, c.as_str());
        return text::same_text(a.as_str(), b.as_str());
    }
    if shells::is_bare_program(platform, d.as_str()) {
        return false;
    }
    let a: Vec<char> = comparable_program_path(platform, d.as_str(), detected_resolved);
    let b: Vec<char> = comparable_program_path(platform, c.as_str(), configured_resolved);
    text::same(a.as_slice(), b.as_slice())
}

/// A configured shell that names a program.
pub open spec fn chosen(configured: Option<(String, Vec<String>)>) -> Option<
    (Seq<char>, Seq<Seq<char>>),
> {
    match configured {
        Some((program, args)) => if text::trimmed(program@).len() > 0 {
            Some((program@, text::strings(args@)))
        } else {
            None
        },
        None => None,
    }
}

/// The program that a new tab opens with.
pub open spec fn default_program(
    configured: Option<(String, Vec<String>)>,
    fallback: Seq<char>,
) -> Seq<char> {
    match chosen(configured) {
        Some((program, _)) => program,
        None => fallback,
    }
}

/// Whether the shell at a position is the default program.
pub open spec fn is_default(
    platform: Platform,
    list: Seq<shells::Shell>,
    resolutions: Seq<Option<String>>,
    program: Seq<char>,
    resolved: Option<String>,
    i: int,
) -> bool {
    same_program(platform, list[i].program, program, resolutions[i], resolved)
}

/// Where the first shell that is the default program stands, or how many there are.
pub open spec fn default_at(
    platform: Platform,
    list: Seq<shells::Shell>,
    resolutions: Seq<Option<String>>,
    program: Seq<char>,
    resolved: Option<String>,
    from: int,
) -> int
    decreases list.len() - from,
{
    if from >= list.len() || is_default(platform, list, resolutions, program, resolved, from) {
        from
    } else {
        default_at(platform, list, resolutions, program, resolved, from + 1)
    }
}

/// Whether a label is among those of some shells.
pub open spec fn has_label(list: Seq<shells::Shell>, label: Seq<char>) -> bool {
    exists|i: int| 0 <= i < list.len() && (#[trigger] list[i]).label == label
}

/// The label of a configured shell that was not detected.
pub open spec fn configured_label(list: Seq<shells::Shell>, name: Seq<char>) -> Seq<char> {
    if has_label(list, name) {
        name + " (Configured)"@
    } else {
        name
    }
}

/// The menu of the detected shells and the configured one.
pub open spec fn menu_from(
    platform: Platform,
    list: Seq<shells::Shell>,
    configured: Option<(String, Vec<String>)>,
    fallback: Seq<char>,
    resolutions: Seq<Option<String>>,
    resolved: Option<String>,
) -> Menu {
    let program = default_program(configured, fallback);
    let at = default_at(platform, list, resolutions, program, resolved, 0);
    if at < list.len() {
        Menu {
            shells: match chosen(configured) {
                Some((program, args)) => list.update(
                    at,
                    shells::Shell { program, args, args_are_nermal_defaults: false, ..list[at] },
                ),
                None => list,
            },
            default_name: list[at].label,
        }
    } else {
        let name = shells::base(platform, program);
        match chosen(configured) {
            Some((program, args)) => {
                let label = configured_label(list, name);
                Menu {
                    shells: seq![
                        shells::Shell {
                            label,
                            program,
                            args,
                            args_are_nermal_defaults: false,
                            user_authored: false,
                        },
                    ] + list,
                    default_name: label,
                }
            },
            None => Menu { shells: list, default_name: name },
        }
    }
}

/// The label of the first shell that is the default program is found.
proof fn lemma_default_at(
    platform: Platform,
    list: Seq<shells::Shell>,
    resolutions: Seq<Option<String>>,
    program: Seq<char>,
    resolved: Option<String>,
    from: int,
)
    requires
        0 <= from <= list.len(),
    ensures
        from <= default_at(platform, list, resolutions, program, resolved, from) <= list.len(),
    decreases list.len() - from,
{
    if from < list.len() && !is_default(platform, list, resolutions, program, resolved, from) {
        lemma_default_at(platform, list, resolutions, program, resolved, from + 1);
    }
}

/// Whether a label is among those of some shells.
fn is_label(list: &Vec<DetectedShell>, label: &str) -> (r: bool)
    ensures
        r == has_label(shells::views(list@), label@),
{
    let ghost all = shells::views(list@);
    let mut i: usize = 0;
    while i < list.len()
        invariant
            i <= list@.len(),
            all == shells::views(list@),
            forall|k: int| 0 <= k < i ==> (#[trigger] all[k]).label != label@,
        decreases list@.len() - i,
    {
        assert(all[i as int] == list@[i as int]@);
        if text::same_text(list[i].label.as_str(), label) {
            return true;
        }
        i += 1;
    }
    false
}

/// A copy of some texts.
fn copy_all(list: &Vec<String>) -> (r: Vec<String>)
    ensures
        text::strings(r@) == text::strings(list@),
{
    let ghost all = text::strings(list@);
    let mut out: Vec<String> = Vec::new();
    let mut i: usize = 0;
    assert(text::strings(out@) =~= all.take(0));
    while i < list.len()
        invariant
            i <= list@.len(),
            all == text::strings(list@),
            text::strings(out@) == all.take(i as int),
        decreases list@.len() - i,
    {
        let ghost before = text::strings(out@);
        out.push(list[i].clone());
        assert(text::strings(out@) =~= before.push(all[i as int]));
        i += 1;
        assert(text::strings(out@) =~= all.take(i as int));
    }
    assert(all.take(i as int) =~= all);
    out
}

/// Where the first shell that is the default program stands, or how many there are.
fn position_of(
    platform: Platform,
    list: &Vec<DetectedShell>,
    resolutions: &Vec<Option<String>>,
    program: &str,
    resolved: &Option<String>,
) -> (r: usize)
    requires
        list@.len() == resolutions@.len(),
    ensures
        r == default_at(platform, shells::views(list@), resolutions@, program@, *resolved, 0),
        r <= list@.len(),
{
    let ghost all = shells::views(list@);
    let mut i: usize = 0;
    while i < list.len()
        invariant
            i <= list@.len(),
            list@.len() == resolutions@.len(),
            all == shells::views(list@),
            default_at(platform, all, resolutions@, program@, *resolved, i as int) == default_at(
                platform,
                all,
                resolutions@,
                program@,
                *resolved,
                0,
            ),
        decreases list@.len() - i,
    {
        assert(all[i as int] == list@[i as int]@);
        if same_shell_program(platform, list[i].program.as_str(), program, &resolutions[i], resolved) {
            return i;
        }
        i += 1;
    }
    i
}

/// Combines the detected shells with the configured one, given the shell that a session begins
/// with, and what the file system resolves the program of each shell and the default program to.
///
/// A detected shell that is the configured one keeps its label, and takes the command and the
/// arguments of the user. One that is not among them comes first.
pub fn inventory_from(
    platform: Platform,
    detected: Vec<DetectedShell>,
    configured: &Option<(String, Vec<String>)>,
    fallback: &str,
    resolutions: &Vec<Option<String>>,
    resolved: &Option<String>,
) -> (r: ShellInventory)
    requires
        detected@.len() == resolutions@.len(),
    ensures
        r@ == menu_from(
            platform,
            shells::views(detected@),
            *configured,
            fallback@,
            resolutions@,
            *resolved,
        ),
{
    let ghost all = shells::views(detected@);
    let named: bool = match configured {
        Some((program, _)) => {
            let shown: String = trim(program.as_str());
            !is_blank(shown.as_str())
        },
        None => false,
    };
    let program: String = match configured {
        Some((program, _)) if named => program.clone(),
        _ => shells::owned(fallback),
    };
    let at: usize = position_of(platform, &detected, resolutions, program.as_str(), resolved);
    let mut rows: Vec<DetectedShell> = detected;
    if at < rows.len() {
        let label: String = rows[at].label.clone();
        let authored: bool = rows[at].user_authored;
        assert(all[at as int].label == label@);
        if let Some((_, args)) = configured {
            if named {
                let own: Vec<String> = copy_all(args);
                rows.set(
                    at,
                    DetectedShell {
                        label: label.clone(),
                        program,
                        args: own,
                        args_are_nermal_defaults: false,
                        user_authored: authored,
                    },
                );
                assert(shells::views(rows@) =~= menu_from(
                    platform,
                    all,
                    *configured,
                    fallback@,
                    resolutions@,
                    *resolved,
                ).shells);
            }
        }
        return ShellInventory { shells: rows, default_name: label };
    }
    let mut name: String = shells::basename(platform, program.as_str());
    if let Some((_, args)) = configured {
        if named {
            if is_label(&rows, name.as_str()) {
                let mut longer: Vec<char> = text::chars_of(name.as_str());
                text::extend(&mut longer, text::chars_of(" (Configured)").as_slice());
                name = text::text_of(longer.as_slice());
            }
            let own: Vec<String> = copy_all(args);
            let row = DetectedShell {
                label: name.clone(),
                program,
                args: own,
                args_are_nermal_defaults: false,
                user_authored: false,
            };
            let ghost first = row@;
            rows.insert(0, row);
            assert(shells::views(rows@) =~= seq![first] + all);
        }
    }
    ShellInventory { shells: rows, default_name: name }
}

/// The names that no added entry may take: the labels of all rows, and the name of the default,
/// whether a row carries it or not.
pub open spec fn names(menu: Menu) -> Seq<Seq<char>> {
    Seq::new(menu.shells.len(), |i: int| menu.shells[i].label).push(menu.default_name)
}

/// How long the longest of some texts is.
pub open spec fn longest(list: Seq<Seq<char>>) -> nat
    decreases list.len(),
{
    if list.len() == 0 {
        0
    } else {
        let front = longest(list.drop_last());
        if list.last().len() > front {
            list.last().len()
        } else {
            front
        }
    }
}

/// No text is longer than the longest.
pub proof fn lemma_longest(list: Seq<Seq<char>>, s: Seq<char>)
    requires
        list.contains(s),
    ensures
        s.len() <= longest(list),
    decreases list.len(),
{
    let k = choose|k: int| 0 <= k < list.len() && list[k] == s;
    if k < list.len() - 1 {
        assert(list.drop_last()[k] == s);
        lemma_longest(list.drop_last(), s);
    }
}

/// What is put behind a label that is taken.
pub open spec fn suffix() -> Seq<char> {
    " (Custom)"@
}

/// A label that is not taken: the one that was asked for, with the suffix as often behind it as it
/// takes.
pub open spec fn free_label(label: Seq<char>, taken: Seq<Seq<char>>) -> Seq<char>
    decreases longest(taken) + 10 - label.len(),
{
    if taken.contains(label) {
        proof {
            lemma_longest(taken, label);
            reveal_strlit(" (Custom)");
        }
        free_label(label + suffix(), taken)
    } else {
        label
    }
}

/// The label that an entry asks for: its own, or the name of its program.
pub open spec fn asked_label(platform: Platform, entry: Custom) -> Seq<char> {
    if text::trimmed(entry.label).len() > 0 {
        text::trimmed(entry.label)
    } else {
        shells::base(platform, text::trimmed(entry.program))
    }
}

/// The menu with one more entry. An entry without a program is passed over.
pub open spec fn with_entry(platform: Platform, menu: Menu, entry: Custom) -> Menu {
    let program = text::trimmed(entry.program);
    if program.len() == 0 {
        menu
    } else {
        Menu {
            shells: menu.shells.push(
                shells::Shell {
                    label: free_label(asked_label(platform, entry), names(menu)),
                    program,
                    args: entry.args,
                    args_are_nermal_defaults: false,
                    user_authored: true,
                },
            ),
            ..menu
        }
    }
}

/// The menu with the first `upto` entries behind it.
pub open spec fn with_entries(platform: Platform, menu: Menu, entries: Seq<Custom>, upto: int) -> Menu
    decreases upto,
{
    if upto <= 0 {
        menu
    } else {
        with_entry(platform, with_entries(platform, menu, entries, upto - 1), entries[upto - 1])
    }
}

/// A name is taken where a row has it for a label or where it is that of the default.
proof fn lemma_taken(menu: Menu, label: Seq<char>)
    ensures
        names(menu).contains(label) <==> menu.default_name == label || has_label(
            menu.shells,
            label,
        ),
{
    let all = names(menu);
    if all.contains(label) {
        let k = choose|k: int| 0 <= k < all.len() && all[k] == label;
        if k < menu.shells.len() {
            assert(menu.shells[k].label == label);
        }
    }
    if menu.default_name == label {
        assert(all[menu.shells.len() as int] == label);
    }
    if has_label(menu.shells, label) {
        let k = choose|k: int|
            0 <= k < menu.shells.len() && (#[trigger] menu.shells[k]).label == label;
        assert(all[k] == label);
    }
}

/// A label that is not taken.
fn find_free_label(inventory: &ShellInventory, label: &[char]) -> (r: String)
    ensures
        r@ == free_label(label@, names(inventory@)),
{
    let ghost taken = names(inventory@);
    let more: Vec<char> = text::chars_of(" (Custom)");
    let mut name: Vec<char> = vstd::slice::slice_to_vec(label);
    assert(name@ =~= label@);
    loop
        invariant
            taken == names(inventory@),
            more@ == suffix(),
            free_label(name@, taken) == free_label(label@, taken),
        decreases longest(taken) + 10 - name@.len(),
    {
        let shown: String = text::text_of(name.as_slice());
        proof {
            lemma_taken(inventory@, name@);
        }
        if text::same_text(inventory.default_name.as_str(), shown.as_str()) || is_label(
            &inventory.shells,
            shown.as_str(),
        ) {
            proof {
                lemma_longest(taken, name@);
                reveal_strlit(" (Custom)");
            }
            text::extend(&mut name, more.as_slice());
        } else {
            return shown;
        }
    }
}

/// Adds the entries of the user behind everything that was detected. They are extras: none of them
/// moves the default or takes a name that is in use.
pub fn append_custom(platform: Platform, inventory: &mut ShellInventory, custom: &Vec<CustomShell>)
    ensures
        final(inventory)@ == with_entries(
            platform,
            old(inventory)@,
            customs(custom@),
            custom@.len() as int,
        ),
{
    let ghost start = inventory@;
    let ghost all = customs(custom@);
    let mut i: usize = 0;
    while i < custom.len()
        invariant
            i <= custom@.len(),
            all == customs(custom@),
            inventory@ == with_entries(platform, start, all, i as int),
        decreases custom@.len() - i,
    {
        let entry: &CustomShell = &custom[i];
        assert(all[i as int] == entry@);
        let program: String = trim(entry.program.as_str());
        if !is_blank(program.as_str()) {
            let own: String = trim(entry.label.as_str());
            let asked: Vec<char> = if is_blank(own.as_str()) {
                text::chars_of(shells::basename(platform, program.as_str()).as_str())
            } else {
                text::chars_of(own.as_str())
            };
            let label: String = find_free_label(inventory, asked.as_slice());
            let args: Vec<String> = copy_all(&entry.args);
            let row = DetectedShell {
                label,
                program,
                args,
                args_are_nermal_defaults: false,
                user_authored: true,
            };
            let ghost before = inventory@;
            let ghost added = row@;
            inventory.shells.push(row);
            assert(inventory@.shells =~= before.shells.push(added));
            assert(inventory@ == with_entry(platform, before, entry@));
        }
        i += 1;
    }
}

/// The menu of a machine as a whole.
pub open spec fn whole_menu(
    platform: Platform,
    detected: Seq<shells::Shell>,
    configured: Option<(String, Vec<String>)>,
    login: Seq<char>,
    resolutions: Seq<Option<String>>,
    resolved: Option<String>,
    custom: Seq<Custom>,
) -> Menu {
    with_entries(
        platform,
        menu_from(platform, detected, configured, login, resolutions, resolved),
        custom,
        custom.len() as int,
    )
}

/// The menu of a machine, given what was found on it, the configured shell, the shell that a
/// session begins with, what the file system resolves the programs to, and the entries of the
/// user.
pub fn inventory(
    platform: Platform,
    probe: &Probe,
    configured: &Option<(String, Vec<String>)>,
    login: &str,
    resolutions: &Vec<Option<String>>,
    resolved: &Option<String>,
    custom: &Vec<CustomShell>,
) -> (r: ShellInventory)
    requires
        probe matches Probe::Unix(candidates, present) ==> candidates@.len() == present@.len(),
        resolutions@.len() == detected_rows(*probe).len(),
    ensures
        r@ == whole_menu(
            platform,
            detected_rows(*probe),
            *configured,
            login@,
            resolutions@,
            *resolved,
            customs(custom@),
        ),
{
    let detected: Vec<DetectedShell> = shells_windows::detect_shells(probe);
    assert(shells::views(detected@).len() == detected@.len());
    let mut out: ShellInventory = inventory_from(
        platform,
        detected,
        configured,
        login,
        resolutions,
        resolved,
    );
    append_custom(platform, &mut out, custom);
    out
}

/// The shells of a machine.
pub open spec fn detected_rows(probe: Probe) -> Seq<shells::Shell> {
    match probe {
        Probe::Unix(candidates, present) => shells::first_named(
            text::strings(candidates@),
            present@,
            candidates@.len() as int,
        ),
        Probe::Windows(found) => shells_windows::windows_rows(found),
    }
}

/// A label that was found free is not taken, and begins with the one that was asked for.
pub proof fn law_a_free_label_is_free(label: Seq<char>, taken: Seq<Seq<char>>)
    ensures
        !taken.contains(free_label(label, taken)),
        label.is_prefix_of(free_label(label, taken)),
        !taken.contains(label) ==> free_label(label, taken) == label,
    decreases longest(taken) + 10 - label.len(),
{
    if taken.contains(label) {
        lemma_longest(taken, label);
        reveal_strlit(" (Custom)");
        let more = label + suffix();
        law_a_free_label_is_free(more, taken);
        assert forall|i: int| 0 <= i < label.len() implies label[i] == free_label(
            label,
            taken,
        )[i] by {
            assert(more[i] == label[i]);
        }
    }
}

/// Whether no two rows have the same label.
pub open spec fn labels_differ(list: Seq<shells::Shell>) -> bool {
    forall|i: int, j: int|
        0 <= i < j < list.len() ==> (#[trigger] list[i]).label != (#[trigger] list[j]).label
}

/// Added entries leave every row and the default as they were, never take the name of the default,
/// and give no two rows the same label where no two had it before.
pub proof fn law_added_entries_disturb_nothing(
    platform: Platform,
    menu: Menu,
    entries: Seq<Custom>,
    upto: int,
)
    requires
        0 <= upto <= entries.len(),
    ensures
        ({
            let new = with_entries(platform, menu, entries, upto);
            &&& new.default_name == menu.default_name
            &&& menu.shells.is_prefix_of(new.shells)
            &&& forall|i: int|
                menu.shells.len() <= i < new.shells.len() ==> {
                    let row = #[trigger] new.shells[i];
                    row.label != menu.default_name && row.user_authored
                        && !row.args_are_nermal_defaults
                }
            &&& labels_differ(menu.shells) ==> labels_differ(new.shells)
        }),
    decreases upto,
{
    if upto > 0 {
        law_added_entries_disturb_nothing(platform, menu, entries, upto - 1);
        let old = with_entries(platform, menu, entries, upto - 1);
        let new = with_entries(platform, menu, entries, upto);
        let entry = entries[upto - 1];
        if text::trimmed(entry.program).len() > 0 {
            let label = free_label(asked_label(platform, entry), names(old));
            law_a_free_label_is_free(asked_label(platform, entry), names(old));
            lemma_taken(old, label);
            assert forall|i: int| menu.shells.len() <= i < new.shells.len() implies {
                let row = #[trigger] new.shells[i];
                row.label != menu.default_name && row.user_authored
                    && !row.args_are_nermal_defaults
            } by {
                if i < old.shells.len() {
                    assert(new.shells[i] == old.shells[i]);
                }
            }
            if labels_differ(menu.shells) {
                assert forall|i: int, j: int| 0 <= i < j < new.shells.len() implies (
                #[trigger] new.shells[i]).label != (#[trigger] new.shells[j]).label by {
                    assert(new.shells[i] == old.shells[i]);
                    if j < old.shells.len() {
                        assert(new.shells[j] == old.shells[j]);
                    } else {
                        assert(old.shells[i].label != label);
                    }
                }
            }
        }
    }
}

/// An entry with a program has a row of its own, with its program and its arguments as they are
/// written.
pub proof fn law_an_entry_has_its_row(
    platform: Platform,
    menu: Menu,
    entries: Seq<Custom>,
    upto: int,
    k: int,
) -> (n: int)
    requires
        0 <= k < upto <= entries.len(),
        text::trimmed(entries[k].program).len() > 0,
    ensures
        menu.shells.len() <= n < with_entries(platform, menu, entries, upto).shells.len(),
        ({
            let row = with_entries(platform, menu, entries, upto).shells[n];
            &&& row.program == text::trimmed(entries[k].program)
            &&& row.args == entries[k].args
            &&& asked_label(platform, entries[k]).is_prefix_of(row.label)
        }),
    decreases upto,
{
    let old = with_entries(platform, menu, entries, upto - 1);
    law_added_entries_disturb_nothing(platform, menu, entries, upto - 1);
    if k == upto - 1 {
        law_a_free_label_is_free(asked_label(platform, entries[k]), names(old));
        old.shells.len() as int
    } else {
        let n = law_an_entry_has_its_row(platform, menu, entries, upto - 1, k);
        let new = with_entries(platform, menu, entries, upto);
        assert(new.shells[n] == old.shells[n]);
        n
    }
}

/// Where a shell is configured, the row that the default name belongs to runs it, with the
/// arguments of the user, which are marked as theirs; and no other row is changed.
pub proof fn law_the_configured_shell_is_the_default(
    platform: Platform,
    list: Seq<shells::Shell>,
    configured: Option<(String, Vec<String>)>,
    fallback: Seq<char>,
    resolutions: Seq<Option<String>>,
    resolved: Option<String>,
) -> (n: int)
    requires
        chosen(configured) is Some,
    ensures
        ({
            let menu = menu_from(platform, list, configured, fallback, resolutions, resolved);
            let (program, args) = chosen(configured)->0;
            &&& 0 <= n < menu.shells.len()
            &&& menu.shells[n].label == menu.default_name
            &&& menu.shells[n].program == program
            &&& menu.shells[n].args == args
            &&& !menu.shells[n].args_are_nermal_defaults
            &&& menu.shells.remove(n) == list || (menu.shells.len() == list.len() && forall|i: int|
                0 <= i < list.len() && i != n ==> #[trigger] menu.shells[i] == list[i])
        }),
{
    let program = default_program(configured, fallback);
    let at = default_at(platform, list, resolutions, program, resolved, 0);
    lemma_default_at(platform, list, resolutions, program, resolved, 0);
    if at < list.len() {
        at
    } else {
        let menu = menu_from(platform, list, configured, fallback, resolutions, resolved);
        assert(menu.shells.remove(0) =~= list);
        0
    }
}

/// Where none is configured, the detected shells stay as they are.
pub proof fn law_without_a_configured_shell_nothing_is_changed(
    platform: Platform,
    list: Seq<shells::Shell>,
    configured: Option<(String, Vec<String>)>,
    fallback: Seq<char>,
    resolutions: Seq<Option<String>>,
    resolved: Option<String>,
)
    requires
        chosen(configured) is None,
    ensures
        menu_from(platform, list, configured, fallback, resolutions, resolved).shells == list,
{
}

/// Two paths that the file system takes for different files are never taken for the same shell.
pub proof fn law_two_installations_stay_apart(
    platform: Platform,
    detected: Seq<char>,
    configured: Seq<char>,
    detected_resolved: Option<String>,
    configured_resolved: Option<String>,
)
    requires
        !shells::is_bare(platform, text::trimmed(configured)),
        comparable(platform, text::trimmed(detected), detected_resolved) != comparable(
            platform,
            text::trimmed(configured),
            configured_resolved,
        ),
    ensures
        !same_program(platform, detected, configured, detected_resolved, configured_resolved),
{
}

} // verus!
