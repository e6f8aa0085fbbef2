//! What holds of every menu of shells, said of the rows and programs that it is made of.

use vstd::prelude::*;

use crate::paths;
use crate::paths::Platform;
use crate::shell_menu;
use crate::shell_menu::Custom;
use crate::shell_menu::Menu;
use crate::shells;
use crate::shells_laws;
use crate::text;

verus! {

/// On Unix, a program that is configured by its name alone is the one of that name, wherever it
/// is, and no other.
pub proof fn law_a_bare_name_is_any_program_of_that_name(
    dir: Seq<char>,
    name: Seq<char>,
    detected: Seq<char>,
    configured: Seq<char>,
    wanted: Seq<char>,
    here: Option<String>,
    there: Option<String>,
)
    requires
        dir.len() == 0 || dir.last() == '/',
        paths::is_name(name),
        paths::is_name(wanted),
        text::trimmed(detected) == dir + name,
        text::trimmed(configured) == wanted,
    ensures
        shell_menu::same_program(Platform::Unix, detected, configured, here, there) <==> name
            == wanted,
{
    shells_laws::law_a_shell_is_named_after_its_file(dir, name);
    shells_laws::law_a_shell_is_named_after_its_file(seq![], wanted);
    assert(Seq::<char>::empty() + wanted =~= wanted);
}

/// On Unix, a program that is configured by its path is the one at that path, or at the path that
/// this leads to, and no other; a name alone is not a path.
pub proof fn law_a_path_is_one_program(
    dir: Seq<char>,
    name: Seq<char>,
    front: Seq<char>,
    wanted: Seq<char>,
    detected: Seq<char>,
    configured: Seq<char>,
    here: String,
    there: String,
)
    requires
        dir.len() > 0,
        dir.last() == '/',
        front.len() > 0,
        front.last() == '/',
        paths::is_name(name),
        paths::is_name(wanted),
        text::trimmed(detected) == dir + name,
        text::trimmed(configured) == front + wanted,
    ensures
        shell_menu::same_program(Platform::Unix, detected, configured, None, None) <==> dir + name
            == front + wanted,
        shell_menu::same_program(
            Platform::Unix,
            detected,
            configured,
            Some(here),
            Some(there),
        ) <==> here@ == there@,
        shell_menu::same_program(Platform::Unix, detected, configured, Some(here), None) <==> here@
            == front + wanted,
        shell_menu::same_program(Platform::Unix, detected, configured, None, Some(there)) <==> dir
            + name == there@,
        text::trimmed(name) == name ==> !shell_menu::same_program(
            Platform::Unix,
            name,
            configured,
            Some(here),
            Some(there),
        ),
{
    shells_laws::law_a_shell_is_named_after_its_file(dir, name);
    shells_laws::law_a_shell_is_named_after_its_file(front, wanted);
}

/// On Windows, neither case nor the kind of slash tells two paths apart. A blank is no program.
pub proof fn law_case_and_slashes_do_not_matter_on_windows(
    detected: Seq<char>,
    configured: Seq<char>,
)
    ensures
        !shells::is_bare(Platform::Windows, text::trimmed(detected)) && !shells::is_bare(
            Platform::Windows,
            text::trimmed(configured),
        ) && text::trimmed(detected).len() > 0 && text::trimmed(configured).len() > 0 ==> (
        shell_menu::same_program(Platform::Windows, detected, configured, None, None)
            <==> text::same_letters(
            text::backslashed(text::trimmed(detected)),
            text::backslashed(text::trimmed(configured)),
        )),
        text::trimmed(detected).len() == 0 || text::trimmed(configured).len() == 0
            ==> !shell_menu::same_program(Platform::Windows, detected, configured, None, None)
            && !shell_menu::same_program(Platform::Unix, detected, configured, None, None),
{
}

/// Where the row of the default is.
proof fn lemma_default_at(
    platform: Platform,
    list: Seq<shells::Shell>,
    resolutions: Seq<Option<String>>,
    program: Seq<char>,
    resolved: Option<String>,
    from: int,
)
    requires
        0 <= from <= list.len(),
    ensures
        ({
            let at = shell_menu::default_at(platform, list, resolutions, program, resolved, from);
            &&& from <= at <= list.len()
            &&& at < list.len() ==> shell_menu::same_program(
                platform,
                list[at].program,
                program,
                resolutions[at],
                resolved,
            )
            &&& forall|j: int|
                from <= j < at ==> !shell_menu::same_program(
                    platform,
                    (#[trigger] list[j]).program,
                    program,
                    resolutions[j],
                    resolved,
                )
        }),
    decreases list.len() - from,
{
    if from < list.len() && !shell_menu::is_default(
        platform,
        list,
        resolutions,
        program,
        resolved,
        from,
    ) {
        lemma_default_at(platform, list, resolutions, program, resolved, from + 1);
    }
}

/// The default is the first row with the program that is configured: it is given the configured
/// arguments and keeps its label. Where no row has it, it comes in front under its own name, or with
/// a word behind the name where that is taken.
pub proof fn law_the_first_row_with_the_program_is_the_default(
    platform: Platform,
    list: Seq<shells::Shell>,
    program: String,
    args: Vec<String>,
    fallback: Seq<char>,
    resolutions: Seq<Option<String>>,
    resolved: Option<String>,
    k: int,
)
    requires
        text::trimmed(program@).len() > 0,
        list.len() == resolutions.len(),
    ensures
        ({
            let menu = shell_menu::menu_from(
                platform,
                list,
                Some((program, args)),
                fallback,
                resolutions,
                resolved,
            );
            let name = shells::base(platform, program@);
            let same = |j: int|
                shell_menu::same_program(
                    platform,
                    list[j].program,
                    program@,
                    resolutions[j],
                    resolved,
                );
            &&& 0 <= k < list.len() && same(k) && (forall|j: int|
                0 <= j < k ==> !#[trigger] same(j)) ==> {
                &&& menu.default_name == list[k].label
                &&& menu.shells.len() == list.len()
                &&& menu.shells[k].label == list[k].label
                &&& menu.shells[k].program == program@
                &&& menu.shells[k].args == text::strings(args@)
                &&& !menu.shells[k].args_are_nermal_defaults
                &&& menu.shells[k].user_authored == list[k].user_authored
                &&& forall|j: int| 0 <= j < list.len() && j != k ==> #[trigger] menu.shells[j]
                    == list[j]
            }
            &&& (forall|j: int| 0 <= j < list.len() ==> !#[trigger] same(j)) ==> {
                &&& menu.shells.len() == list.len() + 1
                &&& menu.shells.skip(1) == list
                &&& menu.shells[0].label == menu.default_name
                &&& menu.shells[0].program == program@
                &&& menu.shells[0].args == text::strings(args@)
                &&& !menu.shells[0].args_are_nermal_defaults
                &&& !menu.shells[0].user_authored
                &&& (forall|j: int| 0 <= j < list.len() ==> (#[trigger] list[j]).label != name)
                    ==> menu.default_name == name
                &&& (exists|j: int| 0 <= j < list.len() && (#[trigger] list[j]).label == name)
                    ==> menu.default_name == name + " (Configured)"@
            }
        }),
{
    let menu = shell_menu::menu_from(
        platform,
        list,
        Some((program, args)),
        fallback,
        resolutions,
        resolved,
    );
    let same = |j: int|
        shell_menu::same_program(platform, list[j].program, program@, resolutions[j], resolved);
    lemma_default_at(platform, list, resolutions, program@, resolved, 0);
    let at = shell_menu::default_at(platform, list, resolutions, program@, resolved, 0);
    if at < list.len() {
        assert(same(at));
    } else {
        assert(menu.shells.skip(1) =~= list);
    }
    if 0 <= k < list.len() && same(k) && (forall|j: int| 0 <= j < k ==> !#[trigger] same(j)) {
        assert(at == k) by {
            if k < at {
                assert(!shell_menu::same_program(
                    platform,
                    list[k].program,
                    program@,
                    resolutions[k],
                    resolved,
                ));
            }
        }
    }
}

/// Where nothing is configured, the rows stay as they are, and the default is the label of the first
/// row with the login shell, or the name of that shell where no row has it.
pub proof fn law_the_login_shell_is_the_default(
    platform: Platform,
    list: Seq<shells::Shell>,
    fallback: Seq<char>,
    resolutions: Seq<Option<String>>,
    resolved: Option<String>,
    k: int,
)
    requires
        list.len() == resolutions.len(),
    ensures
        ({
            let menu = shell_menu::menu_from(
                platform,
                list,
                None,
                fallback,
                resolutions,
                resolved,
            );
            let same = |j: int|
                shell_menu::same_program(
                    platform,
                    list[j].program,
                    fallback,
                    resolutions[j],
                    resolved,
                );
            &&& menu.shells == list
            &&& 0 <= k < list.len() && same(k) && (forall|j: int|
                0 <= j < k ==> !#[trigger] same(j)) ==> menu.default_name == list[k].label
            &&& (forall|j: int| 0 <= j < list.len() ==> !#[trigger] same(j)) ==> menu.default_name
                == shells::base(platform, fallback)
        }),
{
    let same = |j: int|
        shell_menu::same_program(platform, list[j].program, fallback, resolutions[j], resolved);
    lemma_default_at(platform, list, resolutions, fallback, resolved, 0);
    let at = shell_menu::default_at(platform, list, resolutions, fallback, resolved, 0);
    if at < list.len() {
        assert(same(at));
    }
    if 0 <= k < list.len() && same(k) && (forall|j: int| 0 <= j < k ==> !#[trigger] same(j)) {
        assert(at == k) by {
            if k < at {
                assert(!shell_menu::same_program(
                    platform,
                    list[k].program,
                    fallback,
                    resolutions[k],
                    resolved,
                ));
            }
        }
    }
}

/// A configured program of blanks is none.
pub proof fn law_a_blank_program_is_not_configured(
    platform: Platform,
    list: Seq<shells::Shell>,
    program: String,
    args: Vec<String>,
    fallback: Seq<char>,
    resolutions: Seq<Option<String>>,
    resolved: Option<String>,
)
    requires
        text::trimmed(program@).len() == 0,
    ensures
        shell_menu::menu_from(
            platform,
            list,
            Some((program, args)),
            fallback,
            resolutions,
            resolved,
        ) == shell_menu::menu_from(platform, list, None, fallback, resolutions, resolved),
{
}

/// An entry of the user is called what it asks for, or after its program where it asks for nothing,
/// with a word behind that for as long as a row, or the default, is called so; it runs its program
/// with its arguments. Without a program it is nothing.
pub proof fn law_an_entry_is_called_what_it_asks_for(platform: Platform, menu: Menu, entry: Custom)
    ensures
        ({
            let new = shell_menu::with_entry(platform, menu, entry);
            let row = new.shells.last();
            let asked = if text::trimmed(entry.label).len() > 0 {
                text::trimmed(entry.label)
            } else {
                shells::base(platform, text::trimmed(entry.program))
            };
            let is_free = |label: Seq<char>|
                label != menu.default_name && forall|j: int|
                    0 <= j < menu.shells.len() ==> (#[trigger] menu.shells[j]).label != label;
            &&& new.default_name == menu.default_name
            &&& text::trimmed(entry.program).len() == 0 ==> new == menu
            &&& text::trimmed(entry.program).len() > 0 ==> {
                &&& new.shells.len() == menu.shells.len() + 1
                &&& new.shells.drop_last() == menu.shells
                &&& row.program == text::trimmed(entry.program)
                &&& row.args == entry.args
                &&& row.user_authored
                &&& !row.args_are_nermal_defaults
                &&& is_free(asked) ==> row.label == asked
                &&& !is_free(asked) && is_free(asked + " (Custom)"@) ==> row.label == asked
                    + " (Custom)"@
                &&& !is_free(asked) && !is_free(asked + " (Custom)"@) && is_free(
                    asked + " (Custom)"@ + " (Custom)"@,
                ) ==> row.label == asked + " (Custom)"@ + " (Custom)"@
            }
        }),
{
    let new = shell_menu::with_entry(platform, menu, entry);
    let taken = shell_menu::names(menu);
    let asked = if text::trimmed(entry.label).len() > 0 {
        text::trimmed(entry.label)
    } else {
        shells::base(platform, text::trimmed(entry.program))
    };
    let is_free = |label: Seq<char>|
        label != menu.default_name && forall|j: int|
            0 <= j < menu.shells.len() ==> (#[trigger] menu.shells[j]).label != label;
    assert forall|label: Seq<char>| #[trigger] is_free(label) == !taken.contains(label) by {
        if taken.contains(label) {
            let j = choose|j: int| 0 <= j < taken.len() && taken[j] == label;
            if j < menu.shells.len() {
                assert(menu.shells[j].label == label);
            }
        } else {
            assert forall|j: int| 0 <= j < menu.shells.len() implies (
            #[trigger] menu.shells[j]).label != label by {
                assert(taken[j] == menu.shells[j].label);
            }
            assert(taken[menu.shells.len() as int] == menu.default_name);
        }
    }
    reveal_with_fuel(shell_menu::free_label, 4);
    assert(is_free(asked) == !taken.contains(asked));
    assert(is_free(asked + " (Custom)"@) == !taken.contains(asked + " (Custom)"@));
    assert(is_free(asked + " (Custom)"@ + " (Custom)"@) == !taken.contains(
        asked + " (Custom)"@ + " (Custom)"@,
    ));
    if text::trimmed(entry.program).len() > 0 {
        assert(new.shells.drop_last() =~= menu.shells);
    }
}

/// Entries are added one behind the other.
pub proof fn law_entries_are_added_in_turn(
    platform: Platform,
    menu: Menu,
    entries: Seq<Custom>,
    entry: Custom,
)
    ensures
        shell_menu::with_entries(platform, menu, seq![], 0) == menu,
        shell_menu::with_entries(platform, menu, entries.push(entry), entries.len() as int + 1)
            == shell_menu::with_entry(
            platform,
            shell_menu::with_entries(platform, menu, entries, entries.len() as int),
            entry,
        ),
{
    lemma_entries_front(platform, menu, entries, entry, entries.len() as int);
}

proof fn lemma_entries_front(
    platform: Platform,
    menu: Menu,
    entries: Seq<Custom>,
    entry: Custom,
    upto: int,
)
    requires
        0 <= upto <= entries.len(),
    ensures
        shell_menu::with_entries(platform, menu, entries.push(entry), upto)
            == shell_menu::with_entries(platform, menu, entries, upto),
    decreases upto,
{
    if upto > 0 {
        lemma_entries_front(platform, menu, entries, entry, upto - 1);
    }
}

} // verus!
