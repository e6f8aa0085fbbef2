//! What holds of every environment that [`merge_environment`](crate::windows_env::merge_environment)
//! builds.

use vstd::prelude::*;

use crate::environment;
use crate::text;
use crate::windows_env;

verus! {

/// Splitting a text around a separator splits what stands on either side of it.
pub proof fn lemma_pieces_around(a: Seq<char>, b: Seq<char>, c: char)
    ensures
        text::pieces(a + seq![c] + b, c) == text::pieces(a, c) + text::pieces(b, c),
    decreases a.len(),
{
    let whole = a + seq![c] + b;
    let i = text::first_of(a, c);
    text::lemma_first_of(a, c);
    if i < a.len() {
        assert forall|j: int| 0 <= j < i implies whole[j] != c by {
            assert(whole[j] == a[j]);
        }
        text::lemma_first_of_is(whole, c, i);
        assert(whole.take(i) =~= a.take(i));
        assert(whole.skip(i + 1) =~= a.skip(i + 1) + seq![c] + b);
        lemma_pieces_around(a.skip(i + 1), b, c);
        assert(text::pieces(whole, c) =~= text::pieces(a, c) + text::pieces(b, c));
    } else {
        assert forall|j: int| 0 <= j < a.len() implies whole[j] != c by {
            assert(whole[j] == a[j]);
        }
        text::lemma_first_of_is(whole, c, a.len() as int);
        assert(whole.take(a.len() as int) =~= a);
        assert(whole.skip(a.len() as int + 1) =~= b);
        assert(text::pieces(whole, c) =~= text::pieces(a, c) + text::pieces(b, c));
    }
}

/// The entries of a list around a separator are those on either side of it.
pub proof fn lemma_entries_around(a: Seq<char>, b: Seq<char>)
    ensures
        windows_env::entries(a + seq![';'] + b) == windows_env::entries(a) + windows_env::entries(b),
{
    let keep = |e: Seq<char>| e.len() > 0;
    lemma_pieces_around(a, b, ';');
    Seq::filter_distributes_over_add(text::pieces(a, ';'), text::pieces(b, ';'), keep);
}

/// A list without separators has itself as its only entry, unless it is empty.
pub proof fn lemma_single_entry(a: Seq<char>)
    requires
        !a.contains(';'),
    ensures
        windows_env::entries(a) == (if a.len() == 0 {
            Seq::<Seq<char>>::empty()
        } else {
            seq![a]
        }),
{
    text::lemma_first_of(a, ';');
    let one = text::pieces(a, ';');
    assert(one =~= seq![a]);
    reveal_with_fuel(Seq::filter, 2);
    assert(one.drop_last() =~= Seq::<Seq<char>>::empty());
    assert(windows_env::entries(a) =~= (if a.len() == 0 {
        Seq::<Seq<char>>::empty()
    } else {
        seq![a]
    }));
}

/// Separators at the end of a list add no entry.
pub proof fn lemma_entries_cut_end(a: Seq<char>)
    ensures
        windows_env::entries(text::cut_end(a, seq![';'])) == windows_env::entries(a),
    decreases a.len(),
{
    if a.len() > 0 && seq![';'].contains(a.last()) {
        let none = Seq::<char>::empty();
        lemma_entries_cut_end(a.drop_last());
        assert(a =~= a.drop_last() + seq![';'] + none);
        lemma_entries_around(a.drop_last(), none);
        lemma_single_entry(none);
        assert(windows_env::entries(a) =~= windows_env::entries(a.drop_last()));
    }
}

/// Separators at the start of a list add no entry.
pub proof fn lemma_entries_cut_start(a: Seq<char>)
    ensures
        windows_env::entries(text::cut_start(a, seq![';'])) == windows_env::entries(a),
    decreases a.len(),
{
    if a.len() > 0 && seq![';'].contains(a[0]) {
        let none = Seq::<char>::empty();
        lemma_entries_cut_start(a.skip(1));
        assert(a =~= none + seq![';'] + a.skip(1));
        lemma_entries_around(none, a.skip(1));
        lemma_single_entry(none);
        assert(windows_env::entries(a) =~= windows_env::entries(a.skip(1)));
    }
}

/// The machine's entries come first and the user's are appended behind them: joining two lists
/// neither loses, adds nor reorders an entry.
pub proof fn law_user_entries_follow_the_machine_entries(machine: Seq<char>, user: Seq<char>)
    ensures
        windows_env::entries(windows_env::list_sum(machine, user)) == windows_env::entries(machine)
            + windows_env::entries(user),
{
    let head = text::cut_end(machine, seq![';']);
    let tail = text::cut_start(user, seq![';']);
    lemma_entries_cut_end(machine);
    lemma_entries_cut_start(user);
    lemma_entries_around(head, tail);
    lemma_single_entry(Seq::<char>::empty());
    if head.len() == 0 {
        assert(head =~= Seq::<char>::empty());
        assert(windows_env::entries(machine) + windows_env::entries(user) =~= windows_env::entries(
            user,
        ));
    } else if tail.len() == 0 {
        assert(tail =~= Seq::<char>::empty());
        assert(windows_env::entries(machine) + windows_env::entries(user) =~= windows_env::entries(
            machine,
        ));
    }
}

/// The entries of a list are not empty and hold no separator.
pub proof fn lemma_pieces_plain(s: Seq<char>, c: char)
    ensures
        forall|i: int|
            0 <= i < text::pieces(s, c).len() ==> !(#[trigger] text::pieces(s, c)[i]).contains(c),
    decreases s.len(),
{
    let i = text::first_of(s, c);
    text::lemma_first_of(s, c);
    if i < s.len() {
        lemma_pieces_plain(s.skip(i + 1), c);
        let all = text::pieces(s, c);
        let rest = text::pieces(s.skip(i + 1), c);
        assert forall|j: int| 0 <= j < all.len() implies !(#[trigger] all[j]).contains(c) by {
            if j == 0 {
                assert(all[0] == s.take(i));
            } else {
                assert(all[j] == rest[j - 1]);
            }
        }
    } else {
        assert(text::pieces(s, c) =~= seq![s]);
    }
}

/// Entries that are not empty and hold no separator, joined by separators, are the entries again.
pub proof fn lemma_entries_of_joined(list: Seq<Seq<char>>)
    requires
        forall|i: int|
            0 <= i < list.len() ==> (#[trigger] list[i]).len() > 0 && !list[i].contains(';'),
    ensures
        windows_env::entries(text::joined(list, seq![';'])) == list,
    decreases list.len(),
{
    if list.len() == 0 {
        lemma_single_entry(Seq::<char>::empty());
        assert(text::joined(list, seq![';']) =~= Seq::<char>::empty());
        assert(list =~= Seq::<Seq<char>>::empty());
    } else if list.len() == 1 {
        assert(list[0].len() > 0);
        lemma_single_entry(list[0]);
        assert(list =~= seq![list[0]]);
    } else {
        let head = list.drop_last();
        lemma_entries_of_joined(head);
        assert(list.last() == list[list.len() - 1]);
        lemma_single_entry(list.last());
        lemma_entries_around(text::joined(head, seq![';']), list.last());
        assert(list =~= head + seq![list.last()]);
    }
}

/// The entries of a list are not empty and hold no separator.
pub proof fn lemma_entries_plain(s: Seq<char>)
    ensures
        forall|i: int|
            0 <= i < windows_env::entries(s).len() ==> (#[trigger] windows_env::entries(s)[i]).len()
                > 0 && !windows_env::entries(s)[i].contains(';'),
{
    lemma_pieces_plain(s, ';');
    let all = text::pieces(s, ';');
    let keep = |e: Seq<char>| e.len() > 0;
    text::lemma_filtered(all, keep);
    assert forall|i: int| 0 <= i < windows_env::entries(s).len() implies (
        #[trigger] windows_env::entries(s)[i]).len() > 0 && !windows_env::entries(s)[i].contains(
        ';',
    ) by {
        let e = all.filter(keep)[i];
        assert(all.contains(e) && keep(e));
        let k = choose|k: int| 0 <= k < all.len() && all[k] == e;
        assert(!all[k].contains(';'));
    }
}

/// Filling up a list keeps what it has in front, and every added directory is named in the end.
pub proof fn lemma_with_missing(list: Seq<Seq<char>>, extra: Seq<Seq<char>>)
    ensures
        list.is_prefix_of(windows_env::with_missing(list, extra)),
        forall|i: int|
            0 <= i < extra.len() ==> windows_env::names_directory(
                windows_env::with_missing(list, extra),
                #[trigger] extra[i],
            ),
        forall|j: int|
            0 <= j < windows_env::with_missing(list, extra).len() ==> list.contains(
                #[trigger] windows_env::with_missing(list, extra)[j],
            ) || extra.contains(windows_env::with_missing(list, extra)[j]),
    decreases extra.len(),
{
    let all = windows_env::with_missing(list, extra);
    if extra.len() > 0 {
        let head = extra.drop_last();
        let done = windows_env::with_missing(list, head);
        lemma_with_missing(list, head);
        assert forall|i: int| 0 <= i < extra.len() implies windows_env::names_directory(
            all,
            #[trigger] extra[i],
        ) by {
            if i < head.len() {
                assert(head[i] == extra[i]);
                let k = choose|k: int|
                    0 <= k < done.len() && windows_env::same_directory(#[trigger] done[k], extra[i]);
                assert(all[k] == done[k]);
            } else if !windows_env::names_directory(done, extra.last()) {
                assert(all[done.len() as int] == extra.last());
                assert(windows_env::same_directory(all[done.len() as int], extra[i]));
            }
        }
        assert forall|j: int| 0 <= j < all.len() implies list.contains(#[trigger] all[j])
            || extra.contains(all[j]) by {
            if j < done.len() {
                assert(all[j] == done[j]);
                if head.contains(done[j]) {
                    let k = choose|k: int| 0 <= k < head.len() && head[k] == done[j];
                    assert(extra[k] == done[j]);
                }
            } else {
                assert(extra[extra.len() - 1] == all[j]);
            }
        }
    } else {
        assert forall|j: int| 0 <= j < all.len() implies list.contains(#[trigger] all[j]) by {
            assert(list[j] == all[j]);
        }
    }
}

/// Filling up a list keeps its entries in front and makes every directory of the other list an
/// entry, be it spelled in another case or with a trailing separator.
pub proof fn law_missing_entries_are_appended(base: Seq<char>, extra: Seq<char>)
    ensures
        windows_env::entries(base).is_prefix_of(
            windows_env::entries(windows_env::list_with_missing(base, extra)),
        ),
        forall|i: int|
            0 <= i < windows_env::entries(extra).len() ==> windows_env::names_directory(
                windows_env::entries(windows_env::list_with_missing(base, extra)),
                #[trigger] windows_env::entries(extra)[i],
            ),
{
    let list = windows_env::entries(base);
    let more = windows_env::entries(extra);
    let all = windows_env::with_missing(list, more);
    lemma_with_missing(list, more);
    lemma_entries_plain(base);
    lemma_entries_plain(extra);
    assert forall|j: int| 0 <= j < all.len() implies (#[trigger] all[j]).len() > 0
        && !all[j].contains(';') by {
        if list.contains(all[j]) {
            let k = choose|k: int| 0 <= k < list.len() && list[k] == all[j];
            assert(list[k].len() > 0);
        } else {
            let k = choose|k: int| 0 <= k < more.len() && more[k] == all[j];
            assert(more[k].len() > 0);
        }
    }
    lemma_entries_of_joined(all);
}

/// Whether some variable of a list has the lower-case name `key`.
pub open spec fn defines(vars: Seq<environment::Var>, key: Seq<char>) -> bool {
    exists|i: int| 0 <= i < vars.len() && text::lowered((#[trigger] vars[i]).name) == key
}

/// Variables of other names leave a name alone.
pub proof fn lemma_with_vars_other(
    env: Map<Seq<char>, environment::Var>,
    vars: Seq<environment::Var>,
    key: Seq<char>,
)
    requires
        !defines(vars, key),
    ensures
        windows_env::with_vars(env, vars).contains_key(key) == env.contains_key(key),
        env.contains_key(key) ==> windows_env::with_vars(env, vars)[key] == env[key],
    decreases vars.len(),
{
    if vars.len() > 0 {
        let head = vars.drop_last();
        assert(!defines(head, key)) by {
            if defines(head, key) {
                let i = choose|i: int|
                    0 <= i < head.len() && text::lowered((#[trigger] head[i]).name) == key;
                assert(text::lowered(vars[i].name) == key);
            }
        }
        lemma_with_vars_other(env, head, key);
        assert(text::lowered(vars[vars.len() - 1].name) != key);
    }
}

/// The last variable of a name is the one that stays.
pub proof fn lemma_with_vars_last(
    env: Map<Seq<char>, environment::Var>,
    vars: Seq<environment::Var>,
    i: int,
)
    requires
        0 <= i < vars.len(),
        forall|j: int|
            i < j < vars.len() ==> text::lowered((#[trigger] vars[j]).name) != text::lowered(
                vars[i].name,
            ),
    ensures
        windows_env::with_vars(env, vars).contains_key(text::lowered(vars[i].name)),
        windows_env::with_vars(env, vars)[text::lowered(vars[i].name)] == vars[i],
    decreases vars.len(),
{
    if i < vars.len() - 1 {
        let head = vars.drop_last();
        assert(head[i] == vars[i]);
        lemma_with_vars_last(env, head, i);
        assert(text::lowered(vars[vars.len() - 1].name) != text::lowered(vars[i].name));
    }
}

/// A configured variable beats every other source, however any of them spells its name.
pub proof fn law_an_override_wins(
    machine: Seq<environment::Var>,
    user: Seq<environment::Var>,
    process: Seq<environment::Var>,
    overrides: Seq<environment::Var>,
    i: int,
)
    requires
        0 <= i < overrides.len(),
        forall|j: int|
            i < j < overrides.len() ==> !text::same_letters(
                (#[trigger] overrides[j]).name,
                overrides[i].name,
            ),
    ensures
        ({
            let env = windows_env::pane_environment(machine, user, process, overrides);
            let key = text::lowered(overrides[i].name);
            env.contains_key(key) && env[key] == overrides[i]
        }),
{
    let fresh = windows_env::all_resolved(
        windows_env::layered(machine, user, process),
        windows_env::fronts(machine, user),
    );
    let path = windows_env::with_inherited(fresh, machine + user, process, "PATH"@);
    let both = windows_env::with_inherited(path, machine + user, process, "PSModulePath"@);
    lemma_with_vars_last(both, overrides, i);
}

/// No two variables of a listed environment have the same name in different case.
pub proof fn law_names_are_unique(
    out: Seq<(String, String)>,
    env: Map<Seq<char>, environment::Var>,
    i: int,
    j: int,
)
    requires
        windows_env::lists(out, env),
        0 <= i < j < out.len(),
    ensures
        !text::same_letters(out[i].0@, out[j].0@),
{
    assert(environment::before(text::lowered(out[i].0@), text::lowered(out[j].0@)));
    environment::lemma_before_total(text::lowered(out[i].0@), text::lowered(out[j].0@));
}

/// Dropping variables of another name does not change which is the first of a name.
pub proof fn lemma_first_named_kept(vars: Seq<environment::Var>, name: Seq<char>)
    requires
        !text::same_letters(name, "USERNAME"@),
    ensures
        windows_env::first_named(windows_env::without_username(vars), name)
            == windows_env::first_named(vars, name),
    decreases vars.len(),
{
    let keep = |var: environment::Var| !text::same_letters(var.name, "USERNAME"@);
    reveal(Seq::filter);
    if vars.len() > 0 {
        let first = seq![vars[0]];
        let rest = vars.skip(1);
        assert(vars =~= first + rest);
        Seq::filter_distributes_over_add(first, rest, keep);
        assert(first.drop_last() =~= Seq::<environment::Var>::empty());
        assert(Seq::<environment::Var>::empty().filter(keep) =~= Seq::<environment::Var>::empty());
        lemma_first_named_kept(rest, name);
        let kept = windows_env::without_username(vars);
        let kept_rest = windows_env::without_username(rest);
        if keep(vars[0]) {
            assert(first.filter(keep) =~= first);
            assert(kept =~= first + kept_rest);
            assert(kept.skip(1) =~= kept_rest);
            assert(kept[0] == vars[0]);
        } else {
            assert(first.filter(keep) =~= Seq::<environment::Var>::empty());
            assert(kept =~= kept_rest);
        }
    }
}

/// A filter lets through everything that it let through before.
pub proof fn lemma_username_dropped_once(vars: Seq<environment::Var>)
    ensures
        windows_env::without_username(windows_env::without_username(vars))
            == windows_env::without_username(vars),
    decreases vars.len(),
{
    let keep = |var: environment::Var| !text::same_letters(var.name, "USERNAME"@);
    reveal(Seq::filter);
    if vars.len() > 0 {
        let head = vars.drop_last();
        lemma_username_dropped_once(head);
        if keep(vars.last()) {
            let kept = vars.filter(keep);
            assert(kept == head.filter(keep).push(vars.last()));
            assert(kept.drop_last() =~= head.filter(keep));
            assert(kept.filter(keep) == kept.drop_last().filter(keep).push(kept.last()));
        }
    }
}

/// The machine hive's `USERNAME` has no say in the environment: it is the same without it.
pub proof fn law_the_machine_username_is_ignored(
    machine: Seq<environment::Var>,
    user: Seq<environment::Var>,
    process: Seq<environment::Var>,
    overrides: Seq<environment::Var>,
)
    ensures
        windows_env::pane_environment(
            windows_env::without_username(machine),
            user,
            process,
            overrides,
        ) == windows_env::pane_environment(machine, user, process, overrides),
{
    reveal_strlit("PATH");
    reveal_strlit("PSModulePath");
    reveal_strlit("USERNAME");
    let kept = windows_env::without_username(machine);
    lemma_username_dropped_once(machine);
    assert(text::lowered("PATH"@).len() == 4);
    assert(text::lowered("PSModulePath"@).len() == 12);
    assert(text::lowered("USERNAME"@).len() == 8);
    lemma_first_named_kept(machine, "PATH"@);
    lemma_first_named_kept(machine, "PSModulePath"@);
    windows_env::lemma_named_in_either(machine, user, "PATH"@);
    windows_env::lemma_named_in_either(machine, user, "PSModulePath"@);
    windows_env::lemma_named_in_either(kept, user, "PATH"@);
    windows_env::lemma_named_in_either(kept, user, "PSModulePath"@);
}

/// What is looked up by name is defined.
pub proof fn lemma_first_named_defines(vars: Seq<environment::Var>, name: Seq<char>)
    ensures
        windows_env::first_named(vars, name) is Some <==> defines(vars, text::lowered(name)),
    decreases vars.len(),
{
    if vars.len() > 0 {
        let rest = vars.skip(1);
        lemma_first_named_defines(rest, name);
        if text::same_letters(vars[0].name, name) {
            assert(text::lowered(vars[0].name) == text::lowered(name));
        }
        if defines(rest, text::lowered(name)) {
            let i = choose|i: int|
                0 <= i < rest.len() && text::lowered((#[trigger] rest[i]).name) == text::lowered(
                    name,
                );
            assert(text::lowered(vars[i + 1].name) == text::lowered(name));
        }
        if defines(vars, text::lowered(name)) && !text::same_letters(vars[0].name, name) {
            let i = choose|i: int|
                0 <= i < vars.len() && text::lowered((#[trigger] vars[i]).name) == text::lowered(
                    name,
                );
            assert(text::lowered(rest[i - 1].name) == text::lowered(name));
        }
    }
}

/// A half stands in front of combined lists alone, and only of those that the user hive has.
proof fn lemma_fronts(machine: Seq<environment::Var>, user: Seq<environment::Var>, name: Seq<char>)
    requires
        !windows_env::appended(name) || !defines(user, text::lowered(name)),
    ensures
        !windows_env::fronts(machine, user).contains_key(text::lowered(name)),
{
    lemma_first_named_defines(user, "PATH"@);
    lemma_first_named_defines(user, "PSModulePath"@);
}

/// A variable that only the process block has, in no hive and not configured, reaches the pane as
/// it is. So the kernel's and the session's own variables survive the refresh.
pub proof fn law_a_process_only_variable_survives(
    machine: Seq<environment::Var>,
    user: Seq<environment::Var>,
    process: Seq<environment::Var>,
    overrides: Seq<environment::Var>,
    i: int,
)
    requires
        0 <= i < process.len(),
        !process[i].expandable,
        forall|j: int|
            i < j < process.len() ==> !text::same_letters(
                (#[trigger] process[j]).name,
                process[i].name,
            ),
        !defines(machine, text::lowered(process[i].name)),
        !defines(user, text::lowered(process[i].name)),
        !defines(overrides, text::lowered(process[i].name)),
    ensures
        ({
            let env = windows_env::pane_environment(machine, user, process, overrides);
            let key = text::lowered(process[i].name);
            env.contains_key(key) && env[key] == process[i]
        }),
{
    let key = text::lowered(process[i].name);
    let none = Map::<Seq<char>, environment::Var>::empty();
    let base = windows_env::with_vars(none, process);
    lemma_with_vars_last(none, process, i);
    let kept = windows_env::without_username(machine);
    let keep = |var: environment::Var| !text::same_letters(var.name, "USERNAME"@);
    assert(!defines(kept, key)) by {
        text::lemma_filtered(machine, keep);
        if defines(kept, key) {
            let k = choose|k: int|
                0 <= k < kept.len() && text::lowered((#[trigger] kept[k]).name) == key;
            assert(machine.contains(machine.filter(keep)[k]));
            let m = choose|m: int| 0 <= m < machine.len() && machine[m] == kept[k];
            assert(text::lowered(machine[m].name) == key);
        }
    }
    lemma_with_vars_other(base, kept, key);
    let mid = windows_env::with_vars(base, kept);
    lemma_with_vars_other(mid, user, key);
    lemma_fronts(machine, user, process[i].name);
    let merged = windows_env::layered(machine, user, process);
    let fresh = windows_env::all_resolved(merged, windows_env::fronts(machine, user));
    assert(fresh.contains_key(key) && fresh[key] == process[i]);
    let path = windows_env::with_inherited(fresh, machine + user, process, "PATH"@);
    let both = windows_env::with_inherited(path, machine + user, process, "PSModulePath"@);
    windows_env::lemma_named_in_either(machine, user, "PATH"@);
    windows_env::lemma_named_in_either(machine, user, "PSModulePath"@);
    lemma_first_named_defines(machine, "PATH"@);
    lemma_first_named_defines(machine, "PSModulePath"@);
    lemma_first_named_defines(user, "PATH"@);
    lemma_first_named_defines(user, "PSModulePath"@);
    assert(path.contains_key(key) && path[key] == process[i]);
    assert(both.contains_key(key) && both[key] == process[i]);
    lemma_with_vars_other(both, overrides, key);
}

/// Literal variables stay literal.
pub proof fn lemma_with_vars_literal(
    env: Map<Seq<char>, environment::Var>,
    vars: Seq<environment::Var>,
)
    requires
        forall|i: int| 0 <= i < vars.len() ==> !(#[trigger] vars[i]).expandable,
        forall|key: Seq<char>| #[trigger] env.contains_key(key) ==> !env[key].expandable,
    ensures
        forall|key: Seq<char>| #[trigger]
            windows_env::with_vars(env, vars).contains_key(key) ==> !windows_env::with_vars(
                env,
                vars,
            )[key].expandable,
    decreases vars.len(),
{
    if vars.len() > 0 {
        let head = vars.drop_last();
        assert forall|i: int| 0 <= i < head.len() implies !(#[trigger] head[i]).expandable by {
            assert(!vars[i].expandable);
        }
        lemma_with_vars_literal(env, head);
        assert(!vars[vars.len() - 1].expandable);
        let all = windows_env::with_vars(env, vars);
        let done = windows_env::with_vars(env, head);
        assert forall|key: Seq<char>| #[trigger] all.contains_key(key) implies !all[key].expandable by {
            if key != text::lowered(vars.last().name) {
                assert(done.contains_key(key));
            }
        }
    }
}

/// With both hives empty and nothing configured, the pane gets the process block as it is.
pub proof fn law_an_empty_registry_leaves_the_process_block_alone(process: Seq<environment::Var>)
    requires
        forall|i: int| 0 <= i < process.len() ==> !(#[trigger] process[i]).expandable,
    ensures
        windows_env::pane_environment(seq![], seq![], process, seq![]) == windows_env::with_vars(
            Map::empty(),
            process,
        ),
{
    let none = Seq::<environment::Var>::empty();
    let base = windows_env::with_vars(Map::empty(), process);
    lemma_with_vars_literal(Map::empty(), process);
    reveal(Seq::filter);
    assert(windows_env::without_username(none) =~= none);
    assert(windows_env::layered(none, none, process) == base);
    let halves = windows_env::fronts(none, none);
    assert(halves =~= Map::empty());
    assert(windows_env::all_resolved(base, halves) =~= base) by {
        assert forall|key: Seq<char>| #[trigger] base.contains_key(key) implies windows_env::resolved(
            base[key],
            base,
            halves,
        ) == base[key] by {}
    }
    assert(none + none =~= none);
}

/// A list that a hive defines keeps every directory of the process block's list reachable, unless
/// it is configured away: the refresh only adds what can be resolved.
pub proof fn law_the_process_lists_stay_reachable(
    machine: Seq<environment::Var>,
    user: Seq<environment::Var>,
    process: Seq<environment::Var>,
    overrides: Seq<environment::Var>,
    name: Seq<char>,
    i: int,
)
    requires
        name == "PATH"@ || name == "PSModulePath"@,
        defines(machine, text::lowered(name)) || defines(user, text::lowered(name)),
        !defines(overrides, text::lowered(name)),
        0 <= i < windows_env::entries(windows_env::inherited(process, name)).len(),
    ensures
        ({
            let env = windows_env::pane_environment(machine, user, process, overrides);
            let key = text::lowered(name);
            env.contains_key(key) && windows_env::names_directory(
                windows_env::entries(env[key].value),
                windows_env::entries(windows_env::inherited(process, name))[i],
            )
        }),
{
    reveal_strlit("PATH");
    reveal_strlit("PSModulePath");
    reveal_strlit("USERNAME");
    let key = text::lowered(name);
    assert(text::lowered("PATH"@).len() == 4);
    assert(text::lowered("PSModulePath"@).len() == 12);
    assert(text::lowered("USERNAME"@).len() == 8);
    let base = windows_env::with_vars(Map::empty(), process);
    let kept = windows_env::without_username(machine);
    let mid = windows_env::with_vars(base, kept);
    let merged = windows_env::layered(machine, user, process);
    lemma_first_named_defines(machine, name);
    lemma_first_named_defines(user, name);
    lemma_first_named_kept(machine, name);
    lemma_first_named_defines(kept, name);
    windows_env::lemma_named_in_either(machine, user, name);
    if defines(user, key) {
        lemma_with_vars_defined(mid, user, key);
    } else {
        lemma_with_vars_defined(base, kept, key);
        lemma_with_vars_other(mid, user, key);
    }
    assert(merged.contains_key(key));
    let fresh = windows_env::all_resolved(merged, windows_env::fronts(machine, user));
    let path = windows_env::with_inherited(fresh, machine + user, process, "PATH"@);
    let both = windows_env::with_inherited(path, machine + user, process, "PSModulePath"@);
    lemma_with_vars_other(both, overrides, key);
    let extra = windows_env::inherited(process, name);
    law_missing_entries_are_appended(fresh[key].value, extra);
    assert(both[key].value == windows_env::list_with_missing(fresh[key].value, extra));
}

/// A name that some of the variables put into a block has, the block has.
pub proof fn lemma_with_vars_defined(
    env: Map<Seq<char>, environment::Var>,
    vars: Seq<environment::Var>,
    key: Seq<char>,
)
    requires
        defines(vars, key),
    ensures
        windows_env::with_vars(env, vars).contains_key(key),
    decreases vars.len(),
{
    let i = choose|i: int| 0 <= i < vars.len() && text::lowered((#[trigger] vars[i]).name) == key;
    if i < vars.len() - 1 {
        assert(text::lowered(vars.drop_last()[i].name) == key);
        lemma_with_vars_defined(env, vars.drop_last(), key);
    }
}

/// A name that is no combined list and is not configured keeps, behind the process block's lists,
/// what the layers made of it.
proof fn lemma_only_resolved(
    machine: Seq<environment::Var>,
    user: Seq<environment::Var>,
    process: Seq<environment::Var>,
    overrides: Seq<environment::Var>,
    name: Seq<char>,
)
    requires
        !windows_env::appended(name),
        !defines(overrides, text::lowered(name)),
        windows_env::layered(machine, user, process).contains_key(text::lowered(name)),
    ensures
        ({
            let env = windows_env::pane_environment(machine, user, process, overrides);
            let merged = windows_env::layered(machine, user, process);
            let key = text::lowered(name);
            env.contains_key(key) && env[key] == windows_env::resolved(
                merged[key],
                merged,
                windows_env::fronts(machine, user),
            )
        }),
{
    let key = text::lowered(name);
    let fresh = windows_env::all_resolved(
        windows_env::layered(machine, user, process),
        windows_env::fronts(machine, user),
    );
    let path = windows_env::with_inherited(fresh, machine + user, process, "PATH"@);
    let both = windows_env::with_inherited(path, machine + user, process, "PSModulePath"@);
    assert(both.contains_key(key) && both[key] == fresh[key]);
    lemma_with_vars_other(both, overrides, key);
}

/// A variable of the user hive that is no combined list beats the machine hive and the process
/// block, and is resolved against everything, unless it is configured.
pub proof fn law_a_user_variable_wins(
    machine: Seq<environment::Var>,
    user: Seq<environment::Var>,
    process: Seq<environment::Var>,
    overrides: Seq<environment::Var>,
    i: int,
)
    requires
        0 <= i < user.len(),
        forall|j: int|
            i < j < user.len() ==> !text::same_letters((#[trigger] user[j]).name, user[i].name),
        !windows_env::appended(user[i].name),
        !defines(overrides, text::lowered(user[i].name)),
    ensures
        ({
            let env = windows_env::pane_environment(machine, user, process, overrides);
            let key = text::lowered(user[i].name);
            env.contains_key(key) && env[key] == windows_env::resolved(
                user[i],
                windows_env::layered(machine, user, process),
                windows_env::fronts(machine, user),
            )
        }),
{
    let base = windows_env::with_vars(Map::empty(), process);
    let mid = windows_env::with_vars(base, windows_env::without_username(machine));
    lemma_with_vars_last(mid, user, i);
    lemma_only_resolved(machine, user, process, overrides, user[i].name);
}

/// Dropping `USERNAME` from some variables changes nothing for any other name.
pub proof fn lemma_with_vars_without_username(
    env: Map<Seq<char>, environment::Var>,
    vars: Seq<environment::Var>,
    name: Seq<char>,
)
    requires
        !text::same_letters(name, "USERNAME"@),
    ensures
        ({
            let key = text::lowered(name);
            let kept = windows_env::with_vars(env, windows_env::without_username(vars));
            let all = windows_env::with_vars(env, vars);
            kept.contains_key(key) == all.contains_key(key) && (all.contains_key(key) ==> kept[key]
                == all[key])
        }),
    decreases vars.len(),
{
    let keep = |var: environment::Var| !text::same_letters(var.name, "USERNAME"@);
    reveal(Seq::filter);
    if vars.len() > 0 {
        let head = vars.drop_last();
        lemma_with_vars_without_username(env, head, name);
        if keep(vars.last()) {
            let kept = vars.filter(keep);
            assert(kept == head.filter(keep).push(vars.last()));
            assert(kept.drop_last() =~= head.filter(keep));
        }
    }
}

/// A variable of the machine hive that the user hive does not have and that is no combined list
/// beats the process block, and is resolved against everything, unless it is configured. Its
/// `USERNAME` alone does not.
pub proof fn law_a_machine_variable_wins(
    machine: Seq<environment::Var>,
    user: Seq<environment::Var>,
    process: Seq<environment::Var>,
    overrides: Seq<environment::Var>,
    i: int,
)
    requires
        0 <= i < machine.len(),
        forall|j: int|
            i < j < machine.len() ==> !text::same_letters(
                (#[trigger] machine[j]).name,
                machine[i].name,
            ),
        !text::same_letters(machine[i].name, "USERNAME"@),
        !windows_env::appended(machine[i].name),
        !defines(user, text::lowered(machine[i].name)),
        !defines(overrides, text::lowered(machine[i].name)),
    ensures
        ({
            let env = windows_env::pane_environment(machine, user, process, overrides);
            let key = text::lowered(machine[i].name);
            env.contains_key(key) && env[key] == windows_env::resolved(
                machine[i],
                windows_env::layered(machine, user, process),
                windows_env::fronts(machine, user),
            )
        }),
{
    let key = text::lowered(machine[i].name);
    let base = windows_env::with_vars(Map::empty(), process);
    let mid = windows_env::with_vars(base, windows_env::without_username(machine));
    lemma_with_vars_last(base, machine, i);
    lemma_with_vars_without_username(base, machine, machine[i].name);
    lemma_with_vars_other(mid, user, key);
    lemma_only_resolved(machine, user, process, overrides, machine[i].name);
}

/// Where both hives have a combined list, the machine's entries come first and the user's behind
/// them; what the process block has more comes after both. Two halves whose references are resolved
/// are resolved as the one list that they make; of any other two the one whose references are
/// resolved is, and a literal one is taken as it is.
pub proof fn law_the_registry_lists_come_first(
    machine: Seq<environment::Var>,
    user: Seq<environment::Var>,
    process: Seq<environment::Var>,
    overrides: Seq<environment::Var>,
    name: Seq<char>,
    half: environment::Var,
    i: int,
)
    requires
        name == "PATH"@ || name == "PSModulePath"@,
        windows_env::first_named(machine, name) == Some(half),
        0 <= i < user.len(),
        text::same_letters(user[i].name, name),
        forall|j: int| i < j < user.len() ==> !text::same_letters((#[trigger] user[j]).name, name),
        !defines(overrides, text::lowered(name)),
    ensures
        ({
            let env = windows_env::pane_environment(machine, user, process, overrides);
            let merged = windows_env::layered(machine, user, process);
            let halves = windows_env::fronts(machine, user);
            let depth = windows_env::MAX_EXPANSION_DEPTH as nat;
            let key = text::lowered(name);
            let first = windows_env::own_text(half, merged, halves, depth);
            let second = windows_env::own_text(user[i], merged, halves, depth);
            let one = windows_env::list_sum(half.value, user[i].value);
            &&& windows_env::entries(one) == windows_env::entries(half.value)
                + windows_env::entries(user[i].value)
            &&& env.contains_key(key)
            &&& half.expandable && user[i].expandable ==> windows_env::entries(
                windows_env::expansion(one, merged, halves, depth),
            ).is_prefix_of(windows_env::entries(env[key].value))
            &&& !(half.expandable && user[i].expandable) ==> (windows_env::entries(first)
                + windows_env::entries(second)).is_prefix_of(windows_env::entries(env[key].value))
        }),
{
    reveal_strlit("PATH");
    reveal_strlit("PSModulePath");
    let key = text::lowered(name);
    assert(text::lowered("PATH"@).len() == 4);
    assert(text::lowered("PSModulePath"@).len() == 12);
    let base = windows_env::with_vars(Map::empty(), process);
    let mid = windows_env::with_vars(base, windows_env::without_username(machine));
    assert forall|j: int| i < j < user.len() implies text::lowered((#[trigger] user[j]).name)
        != text::lowered(user[i].name) by {
        assert(!text::same_letters(user[j].name, name));
    }
    lemma_with_vars_last(mid, user, i);
    assert(defines(user, key)) by {
        assert(text::lowered(user[i].name) == key);
    }
    lemma_first_named_defines(user, name);
    let merged = windows_env::layered(machine, user, process);
    let halves = windows_env::fronts(machine, user);
    let depth = windows_env::MAX_EXPANSION_DEPTH as nat;
    assert(halves.contains_key(key) && halves[key] == half);
    let first = windows_env::own_text(half, merged, halves, depth);
    let second = windows_env::own_text(user[i], merged, halves, depth);
    let one = windows_env::list_sum(half.value, user[i].value);
    let whole = if half.expandable && user[i].expandable {
        windows_env::expansion(one, merged, halves, depth)
    } else {
        windows_env::list_sum(first, second)
    };
    law_user_entries_follow_the_machine_entries(half.value, user[i].value);
    assert(windows_env::meaning(user[i], merged, halves, depth) == whole);
    let fresh = windows_env::all_resolved(merged, halves);
    assert(fresh.contains_key(key) && fresh[key].value == whole);
    let path = windows_env::with_inherited(fresh, machine + user, process, "PATH"@);
    let both = windows_env::with_inherited(path, machine + user, process, "PSModulePath"@);
    windows_env::lemma_named_in_either(machine, user, name);
    let extra = windows_env::inherited(process, name);
    assert(both[key].value == windows_env::list_with_missing(whole, extra));
    lemma_with_vars_other(both, overrides, key);
    law_user_entries_follow_the_machine_entries(first, second);
    law_missing_entries_are_appended(whole, extra);
}

/// A value that is taken literally stands for itself, character for character, and it does so too
/// wherever another value refers to its variable: no `%` in it is looked at.
pub proof fn law_a_literal_value_is_taken_as_it_is(
    var: environment::Var,
    env: Map<Seq<char>, environment::Var>,
    halves: Map<Seq<char>, environment::Var>,
    before: Seq<char>,
    name: Seq<char>,
    behind: Seq<char>,
    depth: nat,
)
    requires
        !var.expandable,
        !halves.contains_key(text::lowered(var.name)),
        env.contains_pair(text::lowered(name), var),
        name.len() > 0,
        !name.contains('%'),
        !before.contains('%'),
        depth > 0,
    ensures
        windows_env::meaning(var, env, halves, depth) == var.value,
        windows_env::expansion(
            before + seq!['%'] + name + seq!['%'] + behind,
            env,
            halves,
            depth,
        ) == before + var.value + windows_env::expansion(behind, env, halves, depth),
{
    let value = before + seq!['%'] + name + seq!['%'] + behind;
    let open = before.len() as int;
    assert forall|j: int| 0 <= j < open implies value[j] != '%' by {
        assert(value[j] == before[j]);
    }
    text::lemma_first_of_is(value, '%', open);
    let after = value.skip(open + 1);
    assert(after =~= name + seq!['%'] + behind);
    assert forall|j: int| 0 <= j < name.len() implies after[j] != '%' by {
        assert(after[j] == name[j]);
    }
    text::lemma_first_of_is(after, '%', name.len() as int);
    assert(after.take(name.len() as int) =~= name);
    assert(value.take(open) =~= before);
    assert(after.skip(name.len() as int + 1) =~= behind);
    assert(windows_env::meaning(var, env, halves, (depth - 1) as nat) == var.value);
}

/// The names that a value refers to, `%` paired with `%` from the left.
pub open spec fn references(value: Seq<char>) -> Seq<Seq<char>>
    decreases value.len(),
{
    let open = text::first_of(value, '%');
    let after = value.skip(open + 1);
    let close = text::first_of(after, '%');
    if 0 <= open < value.len() && 0 <= close < after.len() {
        seq![after.take(close)] + references(after.skip(close + 1))
    } else {
        seq![]
    }
}

/// References to names that nothing defines stay in the value as they are written.
pub proof fn law_unresolved_references_survive(
    value: Seq<char>,
    env: Map<Seq<char>, environment::Var>,
    halves: Map<Seq<char>, environment::Var>,
    depth: nat,
)
    requires
        forall|i: int|
            0 <= i < references(value).len() ==> {
                let name = #[trigger] references(value)[i];
                name.len() == 0 || !env.contains_key(text::lowered(name))
            },
    ensures
        windows_env::expansion(value, env, halves, depth) == value,
    decreases value.len(),
{
    let open = text::first_of(value, '%');
    let after = value.skip(open + 1);
    let close = text::first_of(after, '%');
    text::lemma_first_of(value, '%');
    text::lemma_first_of(after, '%');
    if depth > 0 && open < value.len() && close < after.len() {
        let rest = after.skip(close + 1);
        let name = after.take(close);
        assert(references(value)[0] == name);
        assert forall|i: int| 0 <= i < references(rest).len() implies ({
            let name = #[trigger] references(rest)[i];
            name.len() == 0 || !env.contains_key(text::lowered(name))
        }) by {
            assert(references(value)[i + 1] == references(rest)[i]);
        }
        law_unresolved_references_survive(rest, env, halves, depth);
        assert(value =~= value.take(open) + (seq!['%'] + name + seq!['%']) + rest);
    }
}

} // verus!
