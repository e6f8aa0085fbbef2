//! The values of the environment that
//! [`merge_environment`](crate::windows_env::merge_environment) builds, out of what the sources
//! hold.

use vstd::prelude::*;

use crate::environment;
use crate::text;
use crate::text_laws;
use crate::windows_env;
use crate::windows_env_laws;

verus! {

/// Where an environment comes from.
pub struct Sources {
    pub machine: Seq<environment::Var>,
    pub user: Seq<environment::Var>,
    pub process: Seq<environment::Var>,
}

/// Whether the last variable of a name stands at `j`, whatever the case of the name.
pub open spec fn is_last_of(vars: Seq<environment::Var>, name: Seq<char>, j: int) -> bool {
    &&& 0 <= j < vars.len()
    &&& text::same_letters(vars[j].name, name)
    &&& forall|k: int| j < k < vars.len() ==> !text::same_letters((#[trigger] vars[k]).name, name)
}

/// Whether the first variable of a name stands at `j`, whatever the case of the name.
pub open spec fn is_first_of(vars: Seq<environment::Var>, name: Seq<char>, j: int) -> bool {
    &&& 0 <= j < vars.len()
    &&& text::same_letters(vars[j].name, name)
    &&& forall|k: int| 0 <= k < j ==> !text::same_letters((#[trigger] vars[k]).name, name)
}

/// Whether some source has a variable of a name.
pub open spec fn has_name(vars: Seq<environment::Var>, name: Seq<char>) -> bool {
    windows_env_laws::defines(vars, text::lowered(name))
}

/// Whether a name stands for a variable: that of the user hive, else that of the machine hive, else
/// that of the process. The `USERNAME` of the machine hive stands for nothing.
pub open spec fn is_topmost(from: Sources, name: Seq<char>, var: environment::Var) -> bool {
    ||| exists|j: int| #[trigger] is_last_of(from.user, name, j) && from.user[j] == var
    ||| !has_name(from.user, name) && !text::same_letters(name, "USERNAME"@) && exists|j: int|
        #[trigger] is_last_of(from.machine, name, j) && from.machine[j] == var
    ||| !has_name(from.user, name) && (!has_name(from.machine, name) || text::same_letters(
        name,
        "USERNAME"@,
    )) && exists|j: int| #[trigger] is_last_of(from.process, name, j) && from.process[j] == var
}

/// Whether a name is one of the two lists of directories.
pub open spec fn is_list(name: Seq<char>) -> bool {
    text::same_letters(name, "PATH"@) || text::same_letters(name, "PSModulePath"@)
}

/// Whether a list is combined out of both hives.
pub open spec fn is_combined(from: Sources, name: Seq<char>) -> bool {
    is_list(name) && has_name(from.machine, name) && has_name(from.user, name)
}

/// Texts with other texts between them: the first text, the first of the others, the second text
/// and so on.
pub open spec fn woven(texts: Seq<Seq<char>>, fills: Seq<Seq<char>>) -> Seq<char>
    decreases fills.len(),
{
    if fills.len() == 0 {
        texts[0]
    } else {
        texts[0] + fills[0] + woven(texts.skip(1), fills.skip(1))
    }
}

/// Names as they are referred to.
pub open spec fn referred(names: Seq<Seq<char>>) -> Seq<Seq<char>> {
    Seq::new(names.len(), |i: int| seq!['%'] + names[i] + seq!['%'])
}

/// Whether a value is made of texts with references to names between them.
pub open spec fn is_made_of(
    value: Seq<char>,
    texts: Seq<Seq<char>>,
    names: Seq<Seq<char>>,
) -> bool {
    &&& texts.len() == names.len() + 1
    &&& forall|i: int| 0 <= i < texts.len() ==> !(#[trigger] texts[i]).contains('%')
    &&& forall|i: int| 0 <= i < names.len() ==> !(#[trigger] names[i]).contains('%')
    &&& value == woven(texts, referred(names))
}

/// What names stand for in a table of values. What is not in the table stays as it is.
pub open spec fn looked_up(
    table: Map<Seq<char>, Seq<char>>,
    names: Seq<Seq<char>>,
) -> Seq<Seq<char>> {
    Seq::new(
        names.len(),
        |i: int|
            if table.contains_key(text::lowered(names[i])) {
                table[text::lowered(names[i])]
            } else {
                seq!['%'] + names[i] + seq!['%']
            },
    )
}

/// Whether nothing goes by a name.
pub open spec fn is_unknown(from: Sources, name: Seq<char>) -> bool {
    name.len() == 0 || (!has_name(from.user, name) && !has_name(from.process, name) && (!has_name(
        from.machine,
        name,
    ) || text::same_letters(name, "USERNAME"@)))
}

/// Whether a reference can be followed: its name is in a table, with a rank below the one given, or
/// nothing goes by it.
pub open spec fn is_followed(
    from: Sources,
    table: Map<Seq<char>, Seq<char>>,
    ranks: Map<Seq<char>, nat>,
    rank: nat,
    name: Seq<char>,
) -> bool {
    if table.contains_key(text::lowered(name)) {
        name.len() > 0 && ranks[text::lowered(name)] < rank
    } else {
        is_unknown(from, name)
    }
}

/// Whether a table gives a variable its value with each reference replaced by what the table gives
/// for the name, and every such name has a smaller rank.
pub open spec fn is_filled(
    from: Sources,
    table: Map<Seq<char>, Seq<char>>,
    ranks: Map<Seq<char>, nat>,
    key: Seq<char>,
    var: environment::Var,
    texts: Seq<Seq<char>>,
    names: Seq<Seq<char>>,
) -> bool {
    &&& is_made_of(var.value, texts, names)
    &&& table[key] == woven(texts, looked_up(table, names))
    &&& forall|i: int|
        0 <= i < names.len() ==> is_followed(from, table, ranks, ranks[key], #[trigger] names[i])
}

/// Whether a table gives a name the value of the variable that it stands for: a literal value as it
/// is, and any other with its references replaced.
pub open spec fn is_right(
    from: Sources,
    table: Map<Seq<char>, Seq<char>>,
    ranks: Map<Seq<char>, nat>,
    key: Seq<char>,
    var: environment::Var,
) -> bool {
    &&& is_topmost(from, key, var)
    &&& !is_combined(from, key)
    &&& !var.expandable ==> table[key] == var.value
    &&& var.expandable ==> ranks[key] > 0 && exists|
        texts: Seq<Seq<char>>,
        names: Seq<Seq<char>>,
    | #[trigger]
        is_filled(from, table, ranks, key, var, texts, names)
}

/// Whether a table gives every name that it has the value that it stands for. References go from
/// larger to smaller ranks, so there is no going round in a circle.
pub open spec fn is_table(
    from: Sources,
    table: Map<Seq<char>, Seq<char>>,
    ranks: Map<Seq<char>, nat>,
) -> bool {
    forall|key: Seq<char>| #[trigger]
        table.contains_key(key) ==> exists|var: environment::Var| #[trigger]
            is_right(from, table, ranks, key, var)
}

/// Whether a list has no empty entry: no separator at its ends, and no two one behind the other.
pub open spec fn is_tidy(list: Seq<char>) -> bool {
    &&& list.len() > 0
    &&& list[0] != ';'
    &&& list.last() != ';'
    &&& forall|i: int|
        0 <= i < list.len() - 1 ==> !(#[trigger] list[i] == ';' && list[i + 1] == ';')
}

/// Whether an environment gives a name, as it is spelled, a value.
pub open spec fn gives(
    out: Seq<(String, String)>,
    name: Seq<char>,
    value: Seq<char>,
    i: int,
) -> bool {
    0 <= i < out.len() && out[i].0@ == name && out[i].1@ == value
}

/// A name stands in the layered block for its topmost variable.
proof fn lemma_topmost(from: Sources, name: Seq<char>, var: environment::Var)
    requires
        is_topmost(from, name, var),
    ensures
        ({
            let merged = windows_env::layered(from.machine, from.user, from.process);
            merged.contains_key(text::lowered(name)) && merged[text::lowered(name)] == var
        }),
        text::lowered(var.name) == text::lowered(name),
{
    let key = text::lowered(name);
    let base = windows_env::with_vars(Map::empty(), from.process);
    let kept = windows_env::without_username(from.machine);
    let mid = windows_env::with_vars(base, kept);
    if exists|j: int| #[trigger] is_last_of(from.user, name, j) && from.user[j] == var {
        let j = choose|j: int| #[trigger] is_last_of(from.user, name, j) && from.user[j] == var;
        windows_env_laws::lemma_with_vars_last(mid, from.user, j);
    } else {
        windows_env_laws::lemma_with_vars_other(mid, from.user, key);
        if !text::same_letters(name, "USERNAME"@) && exists|j: int|
            #[trigger] is_last_of(from.machine, name, j) && from.machine[j] == var {
            let j = choose|j: int|
                #[trigger] is_last_of(from.machine, name, j) && from.machine[j] == var;
            windows_env_laws::lemma_with_vars_last(base, from.machine, j);
            windows_env_laws::lemma_with_vars_without_username(base, from.machine, name);
        } else {
            let j = choose|j: int|
                #[trigger] is_last_of(from.process, name, j) && from.process[j] == var;
            windows_env_laws::lemma_with_vars_last(Map::empty(), from.process, j);
            let keep = |v: environment::Var| !text::same_letters(v.name, "USERNAME"@);
            text::lemma_filtered(from.machine, keep);
            assert(!windows_env_laws::defines(kept, key)) by {
                if windows_env_laws::defines(kept, key) {
                    let k = choose|k: int|
                        0 <= k < kept.len() && text::lowered((#[trigger] kept[k]).name) == key;
                    assert(from.machine.contains(from.machine.filter(keep)[k]));
                    assert(keep(from.machine.filter(keep)[k]));
                    let m = choose|m: int| 0 <= m < from.machine.len() && from.machine[m] == kept[k];
                    assert(text::lowered(from.machine[m].name) == key);
                }
            }
            windows_env_laws::lemma_with_vars_other(base, kept, key);
        }
    }
}

/// A half stands in front of a combined list alone.
proof fn lemma_no_front(from: Sources, name: Seq<char>)
    requires
        !is_combined(from, name),
    ensures
        !windows_env::fronts(from.machine, from.user).contains_key(text::lowered(name)),
{
    windows_env_laws::lemma_first_named_defines(from.user, "PATH"@);
    windows_env_laws::lemma_first_named_defines(from.user, "PSModulePath"@);
    windows_env_laws::lemma_first_named_defines(from.machine, "PATH"@);
    windows_env_laws::lemma_first_named_defines(from.machine, "PSModulePath"@);
}

/// Text without a reference is kept in front of what comes behind it.
proof fn lemma_text_is_kept(
    before: Seq<char>,
    behind: Seq<char>,
    env: Map<Seq<char>, environment::Var>,
    halves: Map<Seq<char>, environment::Var>,
    depth: nat,
)
    requires
        !before.contains('%'),
    ensures
        windows_env::expansion(before + behind, env, halves, depth) == before
            + windows_env::expansion(behind, env, halves, depth),
{
    let s = before + behind;
    let n = before.len() as int;
    let open = text::first_of(behind, '%');
    text::lemma_first_of(behind, '%');
    assert forall|j: int| 0 <= j < n + open implies s[j] != '%' by {
        if j < n {
            assert(s[j] == before[j]);
            assert(before.contains(before[j]));
        } else {
            assert(s[j] == behind[j - n]);
        }
    }
    if open < behind.len() {
        assert(s[n + open] == behind[open]);
    }
    text::lemma_first_of_is(s, '%', n + open);
    if depth > 0 && open < behind.len() {
        assert(s.skip(n + open + 1) =~= behind.skip(open + 1));
        assert(s.take(n + open) =~= before + behind.take(open));
        let after = behind.skip(open + 1);
        let close = text::first_of(after, '%');
        text::lemma_first_of(after, '%');
        if close < after.len() {
            assert(windows_env::expansion(s, env, halves, depth) =~= before
                + windows_env::expansion(behind, env, halves, depth));
        }
    }
}

/// A reference is replaced by what the name stands for.
proof fn lemma_reference_is_replaced(
    name: Seq<char>,
    behind: Seq<char>,
    env: Map<Seq<char>, environment::Var>,
    halves: Map<Seq<char>, environment::Var>,
    depth: nat,
)
    requires
        depth > 0,
        name.len() > 0,
        !name.contains('%'),
        env.contains_key(text::lowered(name)),
    ensures
        windows_env::expansion(seq!['%'] + name + seq!['%'] + behind, env, halves, depth)
            == windows_env::meaning(env[text::lowered(name)], env, halves, (depth - 1) as nat)
            + windows_env::expansion(behind, env, halves, depth),
{
    let s = seq!['%'] + name + seq!['%'] + behind;
    text::lemma_first_of_is(s, '%', 0);
    let after = s.skip(1);
    assert(after =~= name + seq!['%'] + behind);
    assert forall|j: int| 0 <= j < name.len() implies after[j] != '%' by {
        assert(after[j] == name[j]);
        assert(name.contains(name[j]));
    }
    text::lemma_first_of_is(after, '%', name.len() as int);
    assert(after.take(name.len() as int) =~= name);
    assert(after.skip(name.len() as int + 1) =~= behind);
    let m = windows_env::meaning(env[text::lowered(name)], env, halves, (depth - 1) as nat);
    let e = windows_env::expansion(behind, env, halves, depth);
    assert(s.take(0) + m + e =~= m + e);
}

/// A name that nothing goes by is not in the layered block.
proof fn lemma_unknown(from: Sources, name: Seq<char>)
    requires
        is_unknown(from, name),
    ensures
        name.len() == 0 || !windows_env::layered(
            from.machine,
            from.user,
            from.process,
        ).contains_key(text::lowered(name)),
        !has_name(from.user, name) && !has_name(from.process, name) && !has_name(from.machine, name)
            ==> !windows_env::layered(from.machine, from.user, from.process).contains_key(
            text::lowered(name),
        ),
{
    if !has_name(from.user, name) && !has_name(from.process, name) && (!has_name(from.machine, name)
        || text::same_letters(name, "USERNAME"@)) {
        let key = text::lowered(name);
        let base = windows_env::with_vars(Map::empty(), from.process);
        let kept = windows_env::without_username(from.machine);
        let keep = |v: environment::Var| !text::same_letters(v.name, "USERNAME"@);
        text::lemma_filtered(from.machine, keep);
        assert(!windows_env_laws::defines(kept, key)) by {
            if windows_env_laws::defines(kept, key) {
                let k = choose|k: int|
                    0 <= k < kept.len() && text::lowered((#[trigger] kept[k]).name) == key;
                assert(from.machine.contains(from.machine.filter(keep)[k]));
                assert(keep(from.machine.filter(keep)[k]));
                let m = choose|m: int| 0 <= m < from.machine.len() && from.machine[m] == kept[k];
                assert(text::lowered(from.machine[m].name) == key);
            }
        }
        windows_env_laws::lemma_with_vars_other(Map::empty(), from.process, key);
        windows_env_laws::lemma_with_vars_other(base, kept, key);
        windows_env_laws::lemma_with_vars_other(
            windows_env::with_vars(base, kept),
            from.user,
            key,
        );
    }
}

/// A reference to nothing stays as it is.
proof fn lemma_reference_is_kept(
    name: Seq<char>,
    behind: Seq<char>,
    env: Map<Seq<char>, environment::Var>,
    halves: Map<Seq<char>, environment::Var>,
    depth: nat,
)
    requires
        depth > 0,
        !name.contains('%'),
        name.len() == 0 || !env.contains_key(text::lowered(name)),
    ensures
        windows_env::expansion(seq!['%'] + name + seq!['%'] + behind, env, halves, depth) == seq![
            '%',
        ] + name + seq!['%'] + windows_env::expansion(behind, env, halves, depth),
{
    let s = seq!['%'] + name + seq!['%'] + behind;
    text::lemma_first_of_is(s, '%', 0);
    let after = s.skip(1);
    assert(after =~= name + seq!['%'] + behind);
    assert forall|j: int| 0 <= j < name.len() implies after[j] != '%' by {
        assert(after[j] == name[j]);
        assert(name.contains(name[j]));
    }
    text::lemma_first_of_is(after, '%', name.len() as int);
    assert(after.take(name.len() as int) =~= name);
    assert(after.skip(name.len() as int + 1) =~= behind);
    let m = seq!['%'] + name + seq!['%'];
    let e = windows_env::expansion(behind, env, halves, depth);
    assert(s.take(0) + m + e =~= m + e);
}

/// What a value is made of, with every reference replaced, is what it stands for, and what is behind
/// it comes behind.
proof fn lemma_filled(
    from: Sources,
    table: Map<Seq<char>, Seq<char>>,
    ranks: Map<Seq<char>, nat>,
    rank: nat,
    texts: Seq<Seq<char>>,
    names: Seq<Seq<char>>,
    behind: Seq<char>,
    depth: nat,
)
    requires
        is_table(from, table, ranks),
        rank <= depth,
        depth > 0,
        texts.len() == names.len() + 1,
        forall|i: int| 0 <= i < texts.len() ==> !(#[trigger] texts[i]).contains('%'),
        forall|i: int| 0 <= i < names.len() ==> !(#[trigger] names[i]).contains('%'),
        forall|i: int|
            0 <= i < names.len() ==> is_followed(from, table, ranks, rank, #[trigger] names[i]),
    ensures
        ({
            let env = windows_env::layered(from.machine, from.user, from.process);
            let halves = windows_env::fronts(from.machine, from.user);
            windows_env::expansion(woven(texts, referred(names)) + behind, env, halves, depth)
                == woven(texts, looked_up(table, names)) + windows_env::expansion(
                behind,
                env,
                halves,
                depth,
            )
        }),
    decreases rank, 0int, names.len(),
{
    let env = windows_env::layered(from.machine, from.user, from.process);
    let halves = windows_env::fronts(from.machine, from.user);
    let refs = referred(names);
    let fills = looked_up(table, names);
    if names.len() == 0 {
        lemma_text_is_kept(texts[0], behind, env, halves, depth);
    } else {
        let name = names[0];
        let key = text::lowered(name);
        assert(is_followed(from, table, ranks, rank, name));
        if table.contains_key(key) {
            assert(text::lowered(key) =~= key);
            let v = choose|v: environment::Var| #[trigger] is_right(from, table, ranks, key, v);
            lemma_topmost(from, key, v);
            lemma_no_front(from, key);
            lemma_right(from, table, ranks, key, v, (depth - 1) as nat);
        } else {
            lemma_unknown(from, name);
        }
        let rest_texts = texts.skip(1);
        let rest_names = names.skip(1);
        assert forall|i: int| 0 <= i < rest_texts.len() implies !(#[trigger] rest_texts[i]).contains(
            '%',
        ) by {
            assert(rest_texts[i] == texts[i + 1]);
        }
        assert forall|i: int| 0 <= i < rest_names.len() implies !(#[trigger] rest_names[i]).contains(
            '%',
        ) && is_followed(from, table, ranks, rank, rest_names[i]) by {
            assert(rest_names[i] == names[i + 1]);
        }
        lemma_filled(from, table, ranks, rank, rest_texts, rest_names, behind, depth);
        let tail = woven(rest_texts, referred(rest_names)) + behind;
        assert(refs.skip(1) =~= referred(rest_names));
        assert(fills.skip(1) =~= looked_up(table, rest_names));
        if table.contains_key(key) {
            lemma_reference_is_replaced(name, tail, env, halves, depth);
        } else {
            lemma_reference_is_kept(name, tail, env, halves, depth);
        }
        let refer = seq!['%'] + name + seq!['%'];
        lemma_text_is_kept(texts[0], refer + tail, env, halves, depth);
        assert(refs[0] == refer);
        assert(woven(texts, refs) + behind =~= texts[0] + (refer + tail));
        let e = windows_env::expansion(behind, env, halves, depth);
        assert(texts[0] + (fills[0] + (woven(rest_texts, fills.skip(1)) + e)) =~= woven(
            texts,
            fills,
        ) + e);
    }
}

/// What a table gives for a name is what its variable stands for.
proof fn lemma_right(
    from: Sources,
    table: Map<Seq<char>, Seq<char>>,
    ranks: Map<Seq<char>, nat>,
    key: Seq<char>,
    var: environment::Var,
    depth: nat,
)
    requires
        is_table(from, table, ranks),
        is_right(from, table, ranks, key, var),
        ranks[key] <= depth,
    ensures
        ({
            let env = windows_env::layered(from.machine, from.user, from.process);
            let halves = windows_env::fronts(from.machine, from.user);
            &&& windows_env::own_text(var, env, halves, depth) == table[key]
            &&& windows_env::meaning(var, env, halves, depth) == table[key]
        }),
    decreases ranks[key], 1int, 0nat,
{
    let env = windows_env::layered(from.machine, from.user, from.process);
    let halves = windows_env::fronts(from.machine, from.user);
    lemma_topmost(from, key, var);
    lemma_no_front(from, key);
    if var.expandable {
        let (texts, names) = choose|texts: Seq<Seq<char>>, names: Seq<Seq<char>>| #[trigger]
            is_filled(from, table, ranks, key, var, texts, names);
        let none = Seq::<char>::empty();
        lemma_filled(from, table, ranks, ranks[key], texts, names, none, depth);
        assert(var.value + none =~= var.value);
        lemma_nothing(env, halves, depth);
        assert(table[key] + none =~= table[key]);
    }
}

proof fn lemma_nothing(
    env: Map<Seq<char>, environment::Var>,
    halves: Map<Seq<char>, environment::Var>,
    depth: nat,
)
    ensures
        windows_env::expansion(seq![], env, halves, depth) == Seq::<char>::empty(),
{
    text::lemma_first_of(seq![], '%');
}

/// Where a variable of an environment is listed.
proof fn lemma_listed(
    out: Seq<(String, String)>,
    env: Map<Seq<char>, environment::Var>,
    key: Seq<char>,
) -> (i: int)
    requires
        windows_env::lists(out, env),
        env.contains_key(key),
    ensures
        gives(out, env[key].name, env[key].value, i),
{
    let i = choose|i: int| 0 <= i < out.len() && text::lowered(#[trigger] out[i].0@) == key;
    i
}

/// A name that stands for one variable, of one source, is listed with the value of that variable,
/// each reference in it replaced by what the name stands for, through as many as eight references
/// one behind the other, and a reference to nothing left as it is. So it is for every variable but the lists that a hive has, whose values
/// may go on behind that.
pub proof fn law_references_are_replaced(
    from: Sources,
    overrides: Seq<environment::Var>,
    out: Seq<(String, String)>,
    table: Map<Seq<char>, Seq<char>>,
    ranks: Map<Seq<char>, nat>,
    key: Seq<char>,
    var: environment::Var,
) -> (i: int)
    requires
        windows_env::lists(
            out,
            windows_env::pane_environment(from.machine, from.user, from.process, overrides),
        ),
        is_table(from, table, ranks),
        is_right(from, table, ranks, key, var),
        ranks[key] <= 8,
        !has_name(overrides, key),
        is_list(key) ==> !has_name(from.machine, key) && !has_name(from.user, key),
    ensures
        gives(out, var.name, table[key], i),
{
    let env = windows_env::pane_environment(from.machine, from.user, from.process, overrides);
    let merged = windows_env::layered(from.machine, from.user, from.process);
    let halves = windows_env::fronts(from.machine, from.user);
    let low = text::lowered(key);
    lemma_topmost(from, key, var);
    lemma_right(from, table, ranks, key, var, 8);
    let fresh = windows_env::all_resolved(merged, halves);
    assert(fresh.contains_key(low) && fresh[low].value == table[key]);
    let both = from.machine + from.user;
    let path = windows_env::with_inherited(fresh, both, from.process, "PATH"@);
    let all = windows_env::with_inherited(path, both, from.process, "PSModulePath"@);
    windows_env::lemma_named_in_either(from.machine, from.user, "PATH"@);
    windows_env::lemma_named_in_either(from.machine, from.user, "PSModulePath"@);
    windows_env_laws::lemma_first_named_defines(from.machine, "PATH"@);
    windows_env_laws::lemma_first_named_defines(from.machine, "PSModulePath"@);
    windows_env_laws::lemma_first_named_defines(from.user, "PATH"@);
    windows_env_laws::lemma_first_named_defines(from.user, "PSModulePath"@);
    assert(all.contains_key(low) && all[low] == fresh[low]);
    windows_env_laws::lemma_with_vars_other(all, overrides, low);
    lemma_listed(out, env, low)
}

/// The entries of a tidy list are its pieces.
proof fn lemma_tidy_entries(list: Seq<char>)
    requires
        is_tidy(list),
    ensures
        windows_env::entries(list) == text::pieces(list, ';'),
        windows_env::entries(list).len() > 0,
        text::joined(windows_env::entries(list), seq![';']) == list,
{
    let all = text::pieces(list, ';');
    lemma_tidy_pieces(list);
    text_laws::law_the_pieces_make_up_the_text(list, ';');
    lemma_all_pass(all, |e: Seq<char>| e.len() > 0);
}

/// No piece of a tidy list is empty.
proof fn lemma_tidy_pieces(list: Seq<char>)
    requires
        is_tidy(list),
    ensures
        forall|i: int|
            0 <= i < text::pieces(list, ';').len() ==> (#[trigger] text::pieces(list, ';')[i]).len()
                > 0,
    decreases list.len(),
{
    let i = text::first_of(list, ';');
    text::lemma_first_of(list, ';');
    if i < list.len() {
        let rest = list.skip(i + 1);
        assert(list[i] == ';');
        assert(i < list.len() - 1);
        assert(rest.last() == list.last());
        assert(rest[0] == list[i + 1]);
        assert forall|j: int| 0 <= j < rest.len() - 1 implies !(#[trigger] rest[j] == ';' && rest[j
            + 1] == ';') by {
            assert(rest[j] == list[i + 1 + j]);
            assert(rest[j + 1] == list[i + 1 + j + 1]);
        }
        lemma_tidy_pieces(rest);
        let all = text::pieces(list, ';');
        assert forall|k: int| 0 <= k < all.len() implies (#[trigger] all[k]).len() > 0 by {
            if k > 0 {
                assert(all[k] == text::pieces(rest, ';')[k - 1]);
            }
        }
    }
}

/// A filter that everything passes keeps everything.
proof fn lemma_all_pass(list: Seq<Seq<char>>, keep: spec_fn(Seq<char>) -> bool)
    requires
        forall|i: int| 0 <= i < list.len() ==> keep(#[trigger] list[i]),
    ensures
        list.filter(keep) == list,
    decreases list.len(),
{
    reveal(Seq::filter);
    if list.len() > 0 {
        let front = list.drop_last();
        assert forall|i: int| 0 <= i < front.len() implies keep(#[trigger] front[i]) by {
            assert(front[i] == list[i]);
        }
        lemma_all_pass(front, keep);
        assert(keep(list[list.len() - 1]));
        assert(list.filter(keep) =~= list);
    }
}

/// What is joined first comes first.
proof fn lemma_joined_prefix(a: Seq<Seq<char>>, b: Seq<Seq<char>>, sep: Seq<char>)
    requires
        a.len() > 0,
        a.is_prefix_of(b),
    ensures
        text::joined(a, sep).is_prefix_of(text::joined(b, sep)),
    decreases b.len(),
{
    if a.len() == b.len() {
        assert(a =~= b);
    } else {
        assert(a.is_prefix_of(b.drop_last()));
        lemma_joined_prefix(a, b.drop_last(), sep);
    }
}

/// A tidy list is kept in front when missing entries are put behind it, and where there are none it
/// is kept as it is.
proof fn lemma_tidy_is_kept(list: Seq<char>, extra: Seq<char>)
    requires
        is_tidy(list),
    ensures
        list.is_prefix_of(windows_env::list_with_missing(list, extra)),
        extra.len() == 0 ==> windows_env::list_with_missing(list, extra) == list,
{
    lemma_tidy_entries(list);
    let kept = windows_env::entries(list);
    let more = windows_env::entries(extra);
    windows_env_laws::lemma_with_missing(kept, more);
    lemma_joined_prefix(kept, windows_env::with_missing(kept, more), seq![';']);
    if extra.len() == 0 {
        windows_env_laws::lemma_single_entry(extra);
        assert(windows_env::with_missing(kept, more) == kept);
    }
}

/// What a list becomes once the directories of the process are behind it.
proof fn lemma_list_goes_on(
    from: Sources,
    overrides: Seq<environment::Var>,
    out: Seq<(String, String)>,
    name: Seq<char>,
    var: environment::Var,
    value: Seq<char>,
) -> (i: int)
    requires
        windows_env::lists(
            out,
            windows_env::pane_environment(from.machine, from.user, from.process, overrides),
        ),
        is_list(name),
        has_name(from.machine, name) || has_name(from.user, name),
        !has_name(overrides, name),
        is_topmost(from, name, var),
        windows_env::meaning(
            var,
            windows_env::layered(from.machine, from.user, from.process),
            windows_env::fronts(from.machine, from.user),
            windows_env::MAX_EXPANSION_DEPTH as nat,
        ) == value,
        is_tidy(value),
    ensures
        0 <= i < out.len(),
        out[i].0@ == var.name,
        value.is_prefix_of(out[i].1@),
        !has_name(from.process, name) ==> out[i].1@ == value,
        forall|j: int| #[trigger]
            is_first_of(from.process, name, j) ==> out[i].1@ == windows_env::list_with_missing(
                value,
                from.process[j].value,
            ),
{
    reveal_strlit("PATH");
    reveal_strlit("PSModulePath");
    assert(text::lowered("PATH"@).len() == 4);
    assert(text::lowered("PSModulePath"@).len() == 12);
    let env = windows_env::pane_environment(from.machine, from.user, from.process, overrides);
    let merged = windows_env::layered(from.machine, from.user, from.process);
    let halves = windows_env::fronts(from.machine, from.user);
    let low = text::lowered(name);
    lemma_topmost(from, name, var);
    let fresh = windows_env::all_resolved(merged, halves);
    assert(fresh.contains_key(low) && fresh[low].value == value);
    let both = from.machine + from.user;
    let path = windows_env::with_inherited(fresh, both, from.process, "PATH"@);
    let all = windows_env::with_inherited(path, both, from.process, "PSModulePath"@);
    let known = if text::same_letters(name, "PATH"@) {
        "PATH"@
    } else {
        "PSModulePath"@
    };
    windows_env::lemma_named_in_either(from.machine, from.user, known);
    windows_env_laws::lemma_first_named_defines(from.machine, known);
    windows_env_laws::lemma_first_named_defines(from.user, known);
    windows_env_laws::lemma_first_named_defines(from.process, known);
    let extra = windows_env::inherited(from.process, known);
    assert(all.contains_key(low));
    assert(all[low].value == windows_env::list_with_missing(value, extra));
    lemma_tidy_is_kept(value, extra);
    windows_env_laws::lemma_with_vars_other(all, overrides, low);
    assert forall|j: int| #[trigger] is_first_of(from.process, name, j) implies extra
        == from.process[j].value by {
        lemma_first(from.process, known, j);
    }
    lemma_listed(out, env, low)
}

/// Whether a text is made of slashes of either kind.
pub open spec fn is_slashes(s: Seq<char>) -> bool {
    forall|i: int| 0 <= i < s.len() ==> #[trigger] s[i] == '\\' || s[i] == '/'
}

/// Whether a text does not end in a slash.
pub open spec fn is_bare(s: Seq<char>) -> bool {
    s.len() == 0 || (s.last() != '\\' && s.last() != '/')
}

/// A directory is named without the slashes at its end.
proof fn lemma_directory(x: Seq<char>, tail: Seq<char>)
    requires
        is_bare(x),
        is_slashes(tail),
    ensures
        windows_env::directory(x + tail) == x,
    decreases tail.len(),
{
    let set = seq!['\\', '/'];
    let s = x + tail;
    if tail.len() == 0 {
        assert(s =~= x);
        if x.len() > 0 && set.contains(x.last()) {
            let k = choose|k: int| 0 <= k < set.len() && set[k] == x.last();
            assert(k == 0 || k == 1);
        }
    } else {
        let less = tail.drop_last();
        assert forall|i: int| 0 <= i < less.len() implies #[trigger] less[i] == '\\' || less[i]
            == '/' by {
            assert(less[i] == tail[i]);
        }
        lemma_directory(x, less);
        assert(s.last() == tail[tail.len() - 1]);
        assert(set[0] == '\\' && set[1] == '/');
        assert(set.contains(s.last()));
        assert(s.drop_last() =~= x + less);
    }
}

/// The directories that a tidy list names, without the slashes at their ends, and these slashes.
pub open spec fn names_directories(
    list: Seq<char>,
    dirs: Seq<Seq<char>>,
    tails: Seq<Seq<char>>,
) -> bool {
    &&& text::pieces(list, ';').len() == dirs.len() == tails.len()
    &&& forall|i: int|
        0 <= i < dirs.len() ==> (#[trigger] text::pieces(list, ';')[i]) == dirs[i] + tails[i]
            && is_bare(dirs[i]) && is_slashes(tails[i])
}

/// A directory that the process lists comes behind a list of the hives, unless it is in that list,
/// whatever the case of its name and the slashes at its end.
pub proof fn law_a_directory_of_the_process_is_appended_once(
    from: Sources,
    overrides: Seq<environment::Var>,
    out: Seq<(String, String)>,
    table: Map<Seq<char>, Seq<char>>,
    ranks: Map<Seq<char>, nat>,
    key: Seq<char>,
    var: environment::Var,
    dirs: Seq<Seq<char>>,
    tails: Seq<Seq<char>>,
    j: int,
    dir: Seq<char>,
    tail: Seq<char>,
) -> (i: int)
    requires
        windows_env::lists(
            out,
            windows_env::pane_environment(from.machine, from.user, from.process, overrides),
        ),
        is_table(from, table, ranks),
        is_right(from, table, ranks, key, var),
        ranks[key] <= 8,
        is_list(key),
        has_name(from.machine, key) || has_name(from.user, key),
        !has_name(overrides, key),
        is_tidy(table[key]),
        names_directories(table[key], dirs, tails),
        is_first_of(from.process, key, j),
        from.process[j].value == dir + tail,
        is_bare(dir),
        is_slashes(tail),
        !(dir + tail).contains(';'),
        (dir + tail).len() > 0,
    ensures
        0 <= i < out.len(),
        out[i].0@ == var.name,
        (exists|k: int| 0 <= k < dirs.len() && text::same_letters(#[trigger] dirs[k], dir))
            ==> out[i].1@ == table[key],
        (forall|k: int| 0 <= k < dirs.len() ==> !text::same_letters(#[trigger] dirs[k], dir))
            ==> out[i].1@ == table[key] + seq![';'] + (dir + tail),
{
    lemma_right(from, table, ranks, key, var, 8);
    let i = lemma_list_goes_on(from, overrides, out, key, var, table[key]);
    let list = table[key];
    let one = dir + tail;
    lemma_tidy_entries(list);
    let kept = windows_env::entries(list);
    windows_env_laws::lemma_single_entry(one);
    let more = windows_env::entries(one);
    assert(more =~= seq![one]);
    assert(more.drop_last() =~= Seq::<Seq<char>>::empty());
    assert(windows_env::with_missing(kept, more.drop_last()) == kept);
    lemma_directory(dir, tail);
    assert forall|k: int| 0 <= k < dirs.len() implies windows_env::same_directory(
        kept[k],
        one,
    ) == text::same_letters(#[trigger] dirs[k], dir) by {
        assert(text::pieces(list, ';')[k] == dirs[k] + tails[k]);
        lemma_directory(dirs[k], tails[k]);
    }
    if exists|k: int| 0 <= k < dirs.len() && text::same_letters(#[trigger] dirs[k], dir) {
        let k = choose|k: int| 0 <= k < dirs.len() && text::same_letters(#[trigger] dirs[k], dir);
        assert(windows_env::same_directory(kept[k], one));
        assert(windows_env::with_missing(kept, more) == kept);
    } else {
        if windows_env::names_directory(kept, one) {
            let k = choose|k: int|
                0 <= k < kept.len() && windows_env::same_directory(#[trigger] kept[k], one);
            assert(text::same_letters(dirs[k], dir));
        }
        let all = windows_env::with_missing(kept, more);
        assert(all == kept.push(one));
        assert(all.drop_last() =~= kept);
        assert(text::joined(all, seq![';']) == list + seq![';'] + one);
    }
    i
}

/// More that the process lists is looked at one directory behind the other.
pub proof fn law_the_directories_of_the_process_are_taken_in_turn(
    list: Seq<char>,
    first: Seq<char>,
    second: Seq<char>,
)
    ensures
        windows_env::list_with_missing(list, first + seq![';'] + second)
            == windows_env::list_with_missing(
            windows_env::list_with_missing(list, first),
            second,
        ),
{
    let kept = windows_env::entries(list);
    let a = windows_env::entries(first);
    let b = windows_env::entries(second);
    windows_env_laws::lemma_entries_around(first, second);
    windows_env_laws::lemma_entries_plain(list);
    windows_env_laws::lemma_entries_plain(first);
    lemma_with_missing_sum(kept, a, b);
    let done = windows_env::with_missing(kept, a);
    windows_env_laws::lemma_with_missing(kept, a);
    assert forall|k: int| 0 <= k < done.len() implies (#[trigger] done[k]).len() > 0
        && !done[k].contains(';') by {
        if kept.contains(done[k]) {
            let n = choose|n: int| 0 <= n < kept.len() && kept[n] == done[k];
            assert(kept[n].len() > 0);
        } else {
            let n = choose|n: int| 0 <= n < a.len() && a[n] == done[k];
            assert(a[n].len() > 0);
        }
    }
    windows_env_laws::lemma_entries_of_joined(done);
}

proof fn lemma_with_missing_sum(list: Seq<Seq<char>>, a: Seq<Seq<char>>, b: Seq<Seq<char>>)
    ensures
        windows_env::with_missing(list, a + b) == windows_env::with_missing(
            windows_env::with_missing(list, a),
            b,
        ),
    decreases b.len(),
{
    if b.len() == 0 {
        assert(a + b =~= a);
    } else {
        lemma_with_missing_sum(list, a, b.drop_last());
        assert((a + b).drop_last() =~= a + b.drop_last());
    }
}

/// A list that one hive has is listed with its value, each reference in it replaced by what the
/// name stands for; behind it comes only what the process lists more, and where the process has no
/// such list nothing does.
pub proof fn law_the_list_of_one_hive_is_resolved(
    from: Sources,
    overrides: Seq<environment::Var>,
    out: Seq<(String, String)>,
    table: Map<Seq<char>, Seq<char>>,
    ranks: Map<Seq<char>, nat>,
    key: Seq<char>,
    var: environment::Var,
) -> (i: int)
    requires
        windows_env::lists(
            out,
            windows_env::pane_environment(from.machine, from.user, from.process, overrides),
        ),
        is_table(from, table, ranks),
        is_right(from, table, ranks, key, var),
        ranks[key] <= 8,
        is_list(key),
        has_name(from.machine, key) || has_name(from.user, key),
        !has_name(overrides, key),
        is_tidy(table[key]),
    ensures
        0 <= i < out.len(),
        out[i].0@ == var.name,
        table[key].is_prefix_of(out[i].1@),
        !has_name(from.process, key) ==> out[i].1@ == table[key],
{
    lemma_right(from, table, ranks, key, var, 8);
    lemma_list_goes_on(from, overrides, out, key, var, table[key])
}

/// Whether a half of a list comes to a text: it is literal and is that text, or it is the text with
/// references in it, each replaced by what its name stands for.
pub open spec fn half_comes_to(
    from: Sources,
    table: Map<Seq<char>, Seq<char>>,
    ranks: Map<Seq<char>, nat>,
    half: environment::Var,
    value: Seq<char>,
    texts: Seq<Seq<char>>,
    names: Seq<Seq<char>>,
) -> bool {
    &&& !half.expandable ==> value == half.value
    &&& half.expandable ==> {
        &&& is_made_of(half.value, texts, names)
        &&& value == woven(texts, looked_up(table, names))
        &&& forall|i: int|
            0 <= i < names.len() ==> is_followed(from, table, ranks, 8, #[trigger] names[i])
    }
}

/// A list that both hives have is listed with what the machine's half comes to, a separator, and
/// what the user's half comes to, under the name that the user's hive gives it; behind that comes
/// only what the process lists more.
pub proof fn law_the_halves_of_a_list_follow_each_other(
    from: Sources,
    overrides: Seq<environment::Var>,
    out: Seq<(String, String)>,
    table: Map<Seq<char>, Seq<char>>,
    ranks: Map<Seq<char>, nat>,
    name: Seq<char>,
    m: int,
    u: int,
    first: Seq<char>,
    first_texts: Seq<Seq<char>>,
    first_names: Seq<Seq<char>>,
    second: Seq<char>,
    second_texts: Seq<Seq<char>>,
    second_names: Seq<Seq<char>>,
) -> (i: int)
    requires
        windows_env::lists(
            out,
            windows_env::pane_environment(from.machine, from.user, from.process, overrides),
        ),
        is_table(from, table, ranks),
        is_list(name),
        is_first_of(from.machine, name, m),
        is_last_of(from.user, name, u),
        !has_name(overrides, name),
        half_comes_to(from, table, ranks, from.machine[m], first, first_texts, first_names),
        half_comes_to(from, table, ranks, from.user[u], second, second_texts, second_names),
        is_tidy(from.machine[m].value),
        is_tidy(from.user[u].value),
        is_tidy(first),
        is_tidy(second),
    ensures
        0 <= i < out.len(),
        out[i].0@ == from.user[u].name,
        (first + seq![';'] + second).is_prefix_of(out[i].1@),
        !has_name(from.process, name) ==> out[i].1@ == first + seq![';'] + second,
{
    let merged = windows_env::layered(from.machine, from.user, from.process);
    let halves = windows_env::fronts(from.machine, from.user);
    let half = from.machine[m];
    let var = from.user[u];
    let whole = first + seq![';'] + second;
    let none = Seq::<char>::empty();
    let known = if text::same_letters(name, "PATH"@) {
        "PATH"@
    } else {
        "PSModulePath"@
    };
    reveal_strlit("PATH");
    reveal_strlit("PSModulePath");
    assert(text::lowered("PATH"@).len() == 4);
    assert(text::lowered("PSModulePath"@).len() == 12);
    assert(text::lowered(var.name) == text::lowered(name));
    assert(has_name(from.user, name));
    lemma_first(from.machine, known, m);
    windows_env_laws::lemma_first_named_defines(from.user, known);
    let low = text::lowered(name);
    assert(halves.contains_key(low) && halves[low] == half);
    assert(is_tidy(whole)) by {
        let n = first.len() as int;
        assert(whole[0] == first[0]);
        assert(whole.last() == second.last());
        assert forall|j: int| 0 <= j < whole.len() - 1 implies !(#[trigger] whole[j] == ';'
            && whole[j + 1] == ';') by {
            if j + 1 < n {
                assert(whole[j] == first[j] && whole[j + 1] == first[j + 1]);
            } else if j + 1 == n {
                assert(whole[j] == first.last());
            } else if j == n {
                assert(whole[j + 1] == second[0]);
            } else {
                assert(whole[j] == second[j - n - 1] && whole[j + 1] == second[j - n - 1 + 1]);
            }
        }
    }
    lemma_nothing(merged, halves, 8);
    if half.expandable {
        lemma_filled(from, table, ranks, 8, first_texts, first_names, none, 8);
        assert(half.value + none =~= half.value);
        assert(first + none =~= first);
    }
    if var.expandable {
        lemma_filled(from, table, ranks, 8, second_texts, second_names, none, 8);
        assert(var.value + none =~= var.value);
        assert(second + none =~= second);
    }
    lemma_tidy_sum(half.value, var.value);
    lemma_tidy_sum(first, second);
    if half.expandable && var.expandable {
        let tail = seq![';'] + var.value;
        lemma_filled(from, table, ranks, 8, first_texts, first_names, tail, 8);
        lemma_text_is_kept(seq![';'], var.value, merged, halves, 8);
        assert(half.value + seq![';'] + var.value =~= half.value + tail);
        assert(first + (seq![';'] + second) =~= whole);
    }
    assert(windows_env::meaning(var, merged, halves, 8) == whole);
    assert(is_topmost(from, name, var));
    lemma_list_goes_on(from, overrides, out, name, var, whole)
}

/// The first variable of a name is the one that is found.
proof fn lemma_first(vars: Seq<environment::Var>, name: Seq<char>, j: int)
    requires
        is_first_of(vars, name, j),
    ensures
        windows_env::first_named(vars, name) == Some(vars[j]),
    decreases j,
{
    if j > 0 {
        assert(!text::same_letters(vars[0].name, name));
        let rest = vars.skip(1);
        assert forall|k: int| 0 <= k < j - 1 implies !text::same_letters(
            (#[trigger] rest[k]).name,
            name,
        ) by {
            assert(rest[k] == vars[k + 1]);
        }
        lemma_first(rest, name, j - 1);
    }
}

/// Two tidy lists are joined by one separator.
proof fn lemma_tidy_sum(a: Seq<char>, b: Seq<char>)
    requires
        is_tidy(a),
        is_tidy(b),
    ensures
        windows_env::list_sum(a, b) == a + seq![';'] + b,
{
    assert(!seq![';'].contains(a.last()));
    assert(!seq![';'].contains(b[0]));
}

/// A text so many times.
pub open spec fn times(s: Seq<char>, n: nat) -> Seq<char>
    decreases n,
{
    if n == 0 {
        seq![]
    } else {
        s + times(s, (n - 1) as nat)
    }
}

/// One more at the end is one more at the start.
proof fn lemma_times(s: Seq<char>, n: nat)
    ensures
        times(s, n) + s == times(s, n + 1),
    decreases n,
{
    if n == 0 {
        assert(times(s, 0) + s =~= s + times(s, 0));
    } else {
        lemma_times(s, (n - 1) as nat);
        assert(s + (times(s, (n - 1) as nat) + s) =~= times(s, n) + s);
    }
}

/// What a reference to itself comes to.
proof fn lemma_round(
    env: Map<Seq<char>, environment::Var>,
    halves: Map<Seq<char>, environment::Var>,
    var: environment::Var,
    a: Seq<char>,
    name: Seq<char>,
    b: Seq<char>,
    depth: nat,
)
    requires
        var.expandable,
        var.value == a + (seq!['%'] + name + seq!['%']) + b,
        !a.contains('%'),
        !b.contains('%'),
        !name.contains('%'),
        name.len() > 0,
        text::same_letters(var.name, name),
        env.contains_key(text::lowered(name)),
        env[text::lowered(name)] == var,
        !halves.contains_key(text::lowered(name)),
    ensures
        windows_env::meaning(var, env, halves, depth) == times(a, depth + 1) + (seq!['%'] + name
            + seq!['%']) + times(b, depth + 1),
    decreases depth,
{
    let refer = seq!['%'] + name + seq!['%'];
    let none = Seq::<char>::empty();
    if depth == 0 {
        assert(times(a, 0) =~= none);
        assert(times(b, 0) =~= none);
        assert(times(a, 1) =~= a);
        assert(times(b, 1) =~= b);
        assert(windows_env::expansion(var.value, env, halves, depth) == var.value);
        assert(windows_env::own_text(var, env, halves, depth) == var.value);
        assert(windows_env::meaning(var, env, halves, depth) == var.value);
    } else {
        lemma_round(env, halves, var, a, name, b, (depth - 1) as nat);
        assert(var.value =~= a + (refer + b));
        lemma_text_is_kept(a, refer + b, env, halves, depth);
        lemma_reference_is_replaced(name, b, env, halves, depth);
        lemma_text_is_kept(b, none, env, halves, depth);
        lemma_nothing(env, halves, depth);
        assert(b + none =~= b);
        lemma_times(b, depth);
        let less = windows_env::meaning(var, env, halves, (depth - 1) as nat);
        assert(windows_env::expansion(var.value, env, halves, depth) == a + (less + b));
        assert(windows_env::own_text(var, env, halves, depth) == a + (less + b));
        assert(windows_env::meaning(var, env, halves, depth) == a + (less + b));
        assert(a + (less + b) =~= times(a, depth + 1) + refer + times(b, depth + 1));
    }
}

/// A variable that refers to itself goes round nine times, and then the reference is left as it is.
pub proof fn law_going_round_in_a_circle_ends(
    from: Sources,
    overrides: Seq<environment::Var>,
    out: Seq<(String, String)>,
    var: environment::Var,
    a: Seq<char>,
    name: Seq<char>,
    b: Seq<char>,
) -> (i: int)
    requires
        windows_env::lists(
            out,
            windows_env::pane_environment(from.machine, from.user, from.process, overrides),
        ),
        is_topmost(from, name, var),
        !is_list(name),
        !has_name(overrides, name),
        var.expandable,
        var.value == a + (seq!['%'] + name + seq!['%']) + b,
        !a.contains('%'),
        !b.contains('%'),
        !name.contains('%'),
        name.len() > 0,
    ensures
        gives(out, var.name, times(a, 9) + (seq!['%'] + name + seq!['%']) + times(b, 9), i),
{
    let env = windows_env::pane_environment(from.machine, from.user, from.process, overrides);
    let merged = windows_env::layered(from.machine, from.user, from.process);
    let halves = windows_env::fronts(from.machine, from.user);
    let low = text::lowered(name);
    lemma_topmost(from, name, var);
    lemma_no_front(from, name);
    lemma_round(merged, halves, var, a, name, b, 8);
    let fresh = windows_env::all_resolved(merged, halves);
    let both = from.machine + from.user;
    let path = windows_env::with_inherited(fresh, both, from.process, "PATH"@);
    let all = windows_env::with_inherited(path, both, from.process, "PSModulePath"@);
    assert(all.contains_key(low) && all[low] == fresh[low]);
    windows_env_laws::lemma_with_vars_other(all, overrides, low);
    lemma_listed(out, env, low)
}

/// Nothing is listed but what some source has, and the `USERNAME` of the machine hive is not.
pub proof fn law_nothing_is_made_up(
    from: Sources,
    overrides: Seq<environment::Var>,
    out: Seq<(String, String)>,
    i: int,
)
    requires
        windows_env::lists(
            out,
            windows_env::pane_environment(from.machine, from.user, from.process, overrides),
        ),
        0 <= i < out.len(),
    ensures
        has_name(overrides, out[i].0@) || has_name(from.process, out[i].0@) || has_name(
            from.user,
            out[i].0@,
        ) || (has_name(from.machine, out[i].0@) && !text::same_letters(out[i].0@, "USERNAME"@)),
{
    let env = windows_env::pane_environment(from.machine, from.user, from.process, overrides);
    let merged = windows_env::layered(from.machine, from.user, from.process);
    let halves = windows_env::fronts(from.machine, from.user);
    let name = out[i].0@;
    let low = text::lowered(name);
    assert(env.contains_key(low));
    let fresh = windows_env::all_resolved(merged, halves);
    let both = from.machine + from.user;
    let path = windows_env::with_inherited(fresh, both, from.process, "PATH"@);
    let all = windows_env::with_inherited(path, both, from.process, "PSModulePath"@);
    if !has_name(overrides, name) {
        windows_env_laws::lemma_with_vars_other(all, overrides, low);
        assert(all.contains_key(low));
        assert(fresh.contains_key(low));
        assert(merged.contains_key(low));
        if !has_name(from.process, name) && !has_name(from.user, name) && (!has_name(
            from.machine,
            name,
        ) || text::same_letters(name, "USERNAME"@)) {
            reveal_strlit("USERNAME");
            assert(text::lowered("USERNAME"@).len() == 8);
            assert(text::lowered(name).len() == name.len());
            lemma_unknown(from, name);
        }
    }
}

} // verus!
