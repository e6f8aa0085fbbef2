//! The environment that a newly created pane inherits on Windows.
//!
//! Windows keeps the environment in the registry, and every process gets a private copy of the
//! merged block when it is created. A daemon that has been up for days would hand its old `PATH`
//! to a pane created today. So the two hives that Windows builds an environment from are read
//! again whenever a pane is spawned, and merged here the way Windows merges them.

use vstd::prelude::*;

use crate::environment;
use crate::environment::{Environment, Slot};
use crate::text;

verus! {

/// One value as it is stored under a Windows environment key.
#[derive(Clone, Debug, PartialEq, Eq)]
pub struct RegistryVar {
    pub name: String,
    pub value: String,
    /// The value was stored as `REG_EXPAND_SZ`: it may contain `%Name%` references that Windows
    /// resolves before the variable reaches a process. `REG_SZ` values are taken literally.
    pub expandable: bool,
}

impl View for RegistryVar {
    type V = environment::Var;

    open spec fn view(&self) -> environment::Var {
        environment::Var {
            name: self.name@,
            value: self.value@,
            expandable: self.expandable,
        }
    }
}

/// How far a `%Name%` reference may chain before it is no longer resolved.
pub const MAX_EXPANSION_DEPTH: u8 = 8;

/// The variables that the values of a hive define.
pub open spec fn hive(vars: Seq<RegistryVar>) -> Seq<environment::Var> {
    Seq::new(vars.len(), |i: int| vars[i]@)
}

/// The variables that name and value pairs define, all of them literal.
pub open spec fn literal(pairs: Seq<(String, String)>) -> Seq<environment::Var> {
    Seq::new(
        pairs.len(),
        |i: int|
            environment::Var { name: pairs[i].0@, value: pairs[i].1@, expandable: false },
    )
}

/// The two variables that Windows combines across the hives instead of letting the user hive
/// replace the machine hive.
pub open spec fn appended(name: Seq<char>) -> bool {
    text::same_letters(name, "PATH"@) || text::same_letters(name, "PSModulePath"@)
}

/// The first variable of a name, whatever its case.
pub open spec fn first_named(
    vars: Seq<environment::Var>,
    name: Seq<char>,
) -> Option<environment::Var>
    decreases vars.len(),
{
    if vars.len() == 0 {
        None
    } else if text::same_letters(vars[0].name, name) {
        Some(vars[0])
    } else {
        first_named(vars.skip(1), name)
    }
}

/// A block after some variables were put into it one after the other.
pub open spec fn with_vars(
    env: Map<Seq<char>, environment::Var>,
    vars: Seq<environment::Var>,
) -> Map<Seq<char>, environment::Var>
    decreases vars.len(),
{
    if vars.len() == 0 {
        env
    } else {
        with_vars(env, vars.drop_last()).insert(text::lowered(vars.last().name), vars.last())
    }
}

/// The variables of the machine hive that reach a process: its `USERNAME` is a leftover of the
/// boot environment and is dropped.
pub open spec fn without_username(vars: Seq<environment::Var>) -> Seq<environment::Var> {
    vars.filter(|var: environment::Var| !text::same_letters(var.name, "USERNAME"@))
}

/// Two lists one behind the other, without the separators that either leaves at the seam.
pub open spec fn list_sum(machine: Seq<char>, user: Seq<char>) -> Seq<char> {
    let head = text::cut_end(machine, seq![';']);
    let tail = text::cut_start(user, seq![';']);
    if head.len() == 0 {
        tail
    } else if tail.len() == 0 {
        head
    } else {
        head + seq![';'] + tail
    }
}

/// Halves in front of lists, with the machine hive's `name` where both hives have it.
pub open spec fn with_front(
    fronts: Map<Seq<char>, environment::Var>,
    machine: Seq<environment::Var>,
    user: Seq<environment::Var>,
    name: Seq<char>,
) -> Map<Seq<char>, environment::Var> {
    match first_named(machine, name) {
        Some(half) if first_named(user, name) is Some => fronts.insert(text::lowered(name), half),
        _ => fronts,
    }
}

/// What the machine hive puts in front of the combined variables that the user hive has too.
pub open spec fn fronts(
    machine: Seq<environment::Var>,
    user: Seq<environment::Var>,
) -> Map<Seq<char>, environment::Var> {
    with_front(
        with_front(Map::empty(), machine, user, "PATH"@),
        machine,
        user,
        "PSModulePath"@,
    )
}

/// The process block, then the machine hive, then the user hive, each over the one before.
pub open spec fn layered(
    machine: Seq<environment::Var>,
    user: Seq<environment::Var>,
    process: Seq<environment::Var>,
) -> Map<Seq<char>, environment::Var> {
    with_vars(with_vars(with_vars(Map::empty(), process), without_username(machine)), user)
}

/// A value with its `%Name%` references resolved, each through at most `depth` values.
///
/// A reference to a name that is not defined, and a `%` without a partner, stay as they are.
pub open spec fn expansion(
    value: Seq<char>,
    env: Map<Seq<char>, environment::Var>,
    fronts: Map<Seq<char>, environment::Var>,
    depth: nat,
) -> Seq<char>
    decreases depth, 0int, value.len(),
{
    let open = text::first_of(value, '%');
    let after = value.skip(open + 1);
    let close = text::first_of(after, '%');
    if depth == 0 || !(0 <= open < value.len()) || !(0 <= close < after.len()) {
        value
    } else {
        let name = after.take(close);
        let key = text::lowered(name);
        let resolved = if name.len() > 0 && env.contains_key(key) {
            meaning(env[key], env, fronts, (depth - 1) as nat)
        } else {
            seq!['%'] + name + seq!['%']
        };
        value.take(open) + resolved + expansion(after.skip(close + 1), env, fronts, depth)
    }
}

/// What the value of a variable stands for by itself: one whose references are resolved with them
/// resolved, any other as it is.
pub open spec fn own_text(
    var: environment::Var,
    env: Map<Seq<char>, environment::Var>,
    fronts: Map<Seq<char>, environment::Var>,
    depth: nat,
) -> Seq<char>
    decreases depth, 1int, 0nat,
{
    if var.expandable {
        expansion(var.value, env, fronts, depth)
    } else {
        var.value
    }
}

/// What a variable stands for: what its value does, behind what the half in front of it does. Two
/// halves whose references are resolved are one text; of any other two each is taken by its own
/// kind.
pub open spec fn meaning(
    var: environment::Var,
    env: Map<Seq<char>, environment::Var>,
    fronts: Map<Seq<char>, environment::Var>,
    depth: nat,
) -> Seq<char>
    decreases depth, 2int, 0nat,
{
    let own = own_text(var, env, fronts, depth);
    let key = text::lowered(var.name);
    if fronts.contains_key(key) {
        if fronts[key].expandable && var.expandable {
            expansion(list_sum(fronts[key].value, var.value), env, fronts, depth)
        } else {
            list_sum(own_text(fronts[key], env, fronts, depth), own)
        }
    } else {
        own
    }
}

/// A variable with its references resolved.
pub open spec fn resolved(
    var: environment::Var,
    env: Map<Seq<char>, environment::Var>,
    fronts: Map<Seq<char>, environment::Var>,
) -> environment::Var {
    environment::Var {
        name: var.name,
        value: meaning(var, env, fronts, MAX_EXPANSION_DEPTH as nat),
        expandable: false,
    }
}

/// A block with every variable resolved against the whole of it.
pub open spec fn all_resolved(
    env: Map<Seq<char>, environment::Var>,
    fronts: Map<Seq<char>, environment::Var>,
) -> Map<Seq<char>, environment::Var> {
    env.map_values(|var: environment::Var| resolved(var, env, fronts))
}

/// A directory of a list without the separators it may end in.
pub open spec fn directory(entry: Seq<char>) -> Seq<char> {
    text::cut_end(entry, seq!['\\', '/'])
}

/// Whether two entries name the same directory: they differ at most in case or in a trailing
/// separator.
pub open spec fn same_directory(a: Seq<char>, b: Seq<char>) -> bool {
    text::same_letters(directory(a), directory(b))
}

/// Whether a list names a directory.
pub open spec fn names_directory(list: Seq<Seq<char>>, entry: Seq<char>) -> bool {
    exists|i: int| 0 <= i < list.len() && same_directory(#[trigger] list[i], entry)
}

/// The entries of a `;` list, empty ones left out.
pub open spec fn entries(list: Seq<char>) -> Seq<Seq<char>> {
    text::pieces(list, ';').filter(|e: Seq<char>| e.len() > 0)
}

/// `list`, with each entry of `extra` behind it that names a directory not yet named.
pub open spec fn with_missing(list: Seq<Seq<char>>, extra: Seq<Seq<char>>) -> Seq<Seq<char>>
    decreases extra.len(),
{
    if extra.len() == 0 {
        list
    } else {
        let done = with_missing(list, extra.drop_last());
        if names_directory(done, extra.last()) {
            done
        } else {
            done.push(extra.last())
        }
    }
}

/// The `;` list `base` with the directories of `extra` that it lacks behind it.
pub open spec fn list_with_missing(base: Seq<char>, extra: Seq<char>) -> Seq<char> {
    text::joined(with_missing(entries(base), entries(extra)), seq![';'])
}

/// The value that the process block has first for a name, or nothing.
pub open spec fn inherited(process: Seq<environment::Var>, name: Seq<char>) -> Seq<char> {
    match first_named(process, name) {
        Some(var) => var.value,
        None => seq![],
    }
}

/// A block in which the list `name`, where a hive defines it, also has the directories that only
/// the process block lists.
pub open spec fn with_inherited(
    env: Map<Seq<char>, environment::Var>,
    registry: Seq<environment::Var>,
    process: Seq<environment::Var>,
    name: Seq<char>,
) -> Map<Seq<char>, environment::Var> {
    let key = text::lowered(name);
    if first_named(registry, name) is Some && env.contains_key(key) {
        env.insert(
            key,
            environment::Var {
                name: env[key].name,
                value: list_with_missing(env[key].value, inherited(process, name)),
                expandable: false,
            },
        )
    } else {
        env
    }
}

/// The environment of a pane: the layered sources resolved, what only the process block lists
/// kept reachable, and the configured variables over everything.
pub open spec fn pane_environment(
    machine: Seq<environment::Var>,
    user: Seq<environment::Var>,
    process: Seq<environment::Var>,
    overrides: Seq<environment::Var>,
) -> Map<Seq<char>, environment::Var> {
    let fresh = all_resolved(layered(machine, user, process), fronts(machine, user));
    let path = with_inherited(fresh, machine + user, process, "PATH"@);
    let both = with_inherited(path, machine + user, process, "PSModulePath"@);
    with_vars(both, overrides)
}

/// Whether `out` lists the variables of `env`, each once, in the order of their lower-case names.
pub open spec fn lists(out: Seq<(String, String)>, env: Map<Seq<char>, environment::Var>) -> bool {
    &&& forall|i: int, j: int|
        0 <= i < j < out.len() ==> environment::before(
            text::lowered(#[trigger] out[i].0@),
            text::lowered(#[trigger] out[j].0@),
        )
    &&& forall|i: int|
        0 <= i < out.len() ==> {
            let key = text::lowered(#[trigger] out[i].0@);
            env.contains_key(key) && env[key].name == out[i].0@ && env[key].value == out[i].1@
        }
    &&& forall|key: Seq<char>| #[trigger]
        env.contains_key(key) ==> exists|i: int|
            0 <= i < out.len() && text::lowered(#[trigger] out[i].0@) == key
}

/// Whether Windows combines a variable across the hives.
pub fn is_appended(name: &str) -> (r: bool)
    ensures
        r == appended(name@),
{
    let name: Vec<char> = text::chars_of(name);
    let path: Vec<char> = text::chars_of("PATH");
    let modules: Vec<char> = text::chars_of("PSModulePath");
    text::eq_letters(name.as_slice(), path.as_slice()) || text::eq_letters(
        name.as_slice(),
        modules.as_slice(),
    )
}

/// The machine's list in front, the user's behind it, without a stray separator between them.
pub fn join_lists(machine: &[char], user: &[char]) -> (r: Vec<char>)
    ensures
        r@ == list_sum(machine@, user@),
{
    let sep: [char; 1] = [';'];
    assert(sep@ =~= seq![';']);
    let head: &[char] = text::strip_end(machine, &sep);
    let tail: &[char] = text::strip_start(user, &sep);
    if head.len() == 0 {
        return vstd::slice::slice_to_vec(tail);
    }
    let mut out: Vec<char> = vstd::slice::slice_to_vec(head);
    if tail.len() > 0 {
        out.push(';');
        text::extend(&mut out, tail);
        assert(out@ =~= head@ + seq![';'] + tail@);
    }
    out
}

/// Whether two entries name the same directory.
pub fn same_path_entry(a: &[char], b: &[char]) -> (r: bool)
    ensures
        r == same_directory(a@, b@),
{
    let seps: [char; 2] = ['\\', '/'];
    assert(seps@ =~= seq!['\\', '/']);
    text::eq_letters(text::strip_end(a, &seps), text::strip_end(b, &seps))
}

/// The entries of a `;` list, empty ones left out.
fn split_entries(list: &[char]) -> (r: Vec<Vec<char>>)
    ensures
        text::views(r@) == entries(list@),
{
    let parts: Vec<Vec<char>> = text::split(list, ';');
    let mut out: Vec<Vec<char>> = Vec::new();
    let mut i: usize = 0;
    let ghost all = text::pieces(list@, ';');
    let ghost keep = |e: Seq<char>| e.len() > 0;
    while i < parts.len()
        invariant
            i <= parts@.len(),
            all == text::views(parts@),
            text::views(out@) == all.take(i as int).filter(keep),
            keep == |e: Seq<char>| e.len() > 0,
        decreases parts@.len() - i,
    {
        proof {
            reveal(Seq::filter);
            assert(all.take(i + 1).drop_last() =~= all.take(i as int));
            assert(all[i as int] == parts@[i as int]@);
        }
        let ghost before = text::views(out@);
        if parts[i].len() > 0 {
            out.push(vstd::slice::slice_to_vec(parts[i].as_slice()));
            assert(text::views(out@) =~= before.push(all[i as int]));
        }
        i += 1;
    }
    assert(all.take(i as int) =~= all);
    out
}

/// A `;` list with the directories of another that it lacks behind it.
pub fn append_missing_entries(base: &[char], extra: &[char]) -> (r: Vec<char>)
    ensures
        r@ == list_with_missing(base@, extra@),
{
    let mut out: Vec<Vec<char>> = split_entries(base);
    let more: Vec<Vec<char>> = split_entries(extra);
    let ghost list = entries(base@);
    let ghost all = entries(extra@);
    let mut i: usize = 0;
    assert(with_missing(list, all.take(0)) =~= list);
    while i < more.len()
        invariant
            i <= more@.len(),
            all == text::views(more@),
            text::views(out@) == with_missing(list, all.take(i as int)),
        decreases more@.len() - i,
    {
        let mut named: bool = false;
        let mut j: usize = 0;
        let ghost kept = text::views(out@);
        while j < out.len() && !named
            invariant
                i < more@.len(),
                j <= out@.len(),
                kept == text::views(out@),
                named ==> names_directory(kept, more@[i as int]@),
                !named ==> forall|k: int|
                    0 <= k < j ==> !same_directory(#[trigger] kept[k], more@[i as int]@),
            decreases out@.len() - j + (if named { 0int } else { 1int }),
        {
            assert(kept[j as int] == out@[j as int]@);
            if same_path_entry(out[j].as_slice(), more[i].as_slice()) {
                named = true;
            } else {
                j += 1;
            }
        }
        proof {
            assert(all.take(i + 1).drop_last() =~= all.take(i as int));
            assert(all.take(i + 1).last() == more@[i as int]@);
        }
        if !named {
            out.push(vstd::slice::slice_to_vec(more[i].as_slice()));
            assert(text::views(out@) =~= kept.push(more@[i as int]@));
        }
        i += 1;
    }
    assert(all.take(i as int) =~= all);
    let sep: [char; 1] = [';'];
    assert(sep@ =~= seq![';']);
    text::join(&out, &sep)
}

/// Resolves the `%Name%` references of a value.
pub fn expand(value: &[char], env: &Environment, fronts: &Environment, depth: u8) -> (r: Vec<char>)
    requires
        env.wf(),
        fronts.wf(),
    ensures
        r@ == expansion(value@, env@, fronts@, depth as nat),
    decreases depth, 0int,
{
    if depth == 0 {
        return vstd::slice::slice_to_vec(value);
    }
    let mut out: Vec<char> = Vec::new();
    let mut rest: &[char] = value;
    assert(out@ + expansion(rest@, env@, fronts@, depth as nat) =~= expansion(value@, env@, fronts@, depth as nat));
    loop
        invariant
            depth > 0,
            env.wf(),
            fronts.wf(),
            out@ + expansion(rest@, env@, fronts@, depth as nat) == expansion(value@, env@, fronts@, depth as nat),
        decreases rest@.len(),
    {
        let open: usize = text::find(rest, '%');
        if open >= rest.len() {
            text::extend(&mut out, rest);
            return out;
        }
        let after: &[char] = vstd::slice::slice_subrange(rest, open + 1, rest.len());
        assert(after@ =~= rest@.skip(open + 1));
        let close: usize = text::find(after, '%');
        if close >= after.len() {
            text::extend(&mut out, rest);
            return out;
        }
        let head: &[char] = vstd::slice::slice_subrange(rest, 0, open);
        assert(head@ =~= rest@.take(open as int));
        let name: &[char] = vstd::slice::slice_subrange(after, 0, close);
        assert(name@ =~= after@.take(close as int));
        let ghost before_out = out@;
        text::extend(&mut out, head);
        let key: Vec<char> = text::to_lowered(name);
        let ghost middle: Seq<char>;
        match env.get(key.as_slice()) {
            Some(slot) if name.len() > 0 => {
                let inner: Vec<char> = mean(slot, env, fronts, depth - 1);
                text::extend(&mut out, inner.as_slice());
                proof {
                    middle = inner@;
                }
            },
            _ => {
                out.push('%');
                text::extend(&mut out, name);
                out.push('%');
                proof {
                    middle = seq!['%'] + name@ + seq!['%'];
                    assert(out@ =~= before_out + head@ + middle);
                }
            },
        }
        let ghost prev = rest@;
        rest = vstd::slice::slice_subrange(after, close + 1, after.len());
        proof {
            assert(rest@ =~= after@.skip(close + 1));
            assert(expansion(prev, env@, fronts@, depth as nat) == head@ + middle + expansion(
                rest@,
                env@,
                fronts@,
                depth as nat,
            ));
            assert(out@ + expansion(rest@, env@, fronts@, depth as nat) =~= before_out + expansion(
                prev,
                env@,
                fronts@,
                depth as nat,
            ));
        }
    }
}

/// What the value of a variable stands for by itself.
fn own(slot: &Slot, env: &Environment, fronts: &Environment, depth: u8) -> (r: Vec<char>)
    requires
        env.wf(),
        fronts.wf(),
    ensures
        r@ == own_text(slot@, env@, fronts@, depth as nat),
    decreases depth, 1int,
{
    if slot.expandable {
        expand(slot.value.as_slice(), env, fronts, depth)
    } else {
        vstd::slice::slice_to_vec(slot.value.as_slice())
    }
}

/// What a variable stands for.
fn mean(slot: &Slot, env: &Environment, fronts: &Environment, depth: u8) -> (r: Vec<char>)
    requires
        env.wf(),
        fronts.wf(),
    ensures
        r@ == meaning(slot@, env@, fronts@, depth as nat),
    decreases depth, 2int,
{
    let key: Vec<char> = text::to_lowered(slot.name.as_slice());
    match fronts.get(key.as_slice()) {
        Some(half) => {
            if half.expandable && slot.expandable {
                let whole: Vec<char> = join_lists(half.value.as_slice(), slot.value.as_slice());
                expand(whole.as_slice(), env, fronts, depth)
            } else {
                let head: Vec<char> = own(half, env, fronts, depth);
                let tail: Vec<char> = own(slot, env, fronts, depth);
                join_lists(head.as_slice(), tail.as_slice())
            }
        },
        None => own(slot, env, fronts, depth),
    }
}

/// Where the first variable of a name stands, or the number of variables when there is none.
fn find_named(vars: &[RegistryVar], name: &[char]) -> (r: usize)
    ensures
        r <= vars@.len(),
        r < vars@.len() ==> first_named(hive(vars@), name@) == Some(vars@[r as int]@),
        r == vars@.len() ==> first_named(hive(vars@), name@) is None,
{
    let mut i: usize = 0;
    assert(hive(vars@).skip(0) =~= hive(vars@));
    while i < vars.len()
        invariant
            i <= vars@.len(),
            first_named(hive(vars@), name@) == first_named(hive(vars@).skip(i as int), name@),
        decreases vars@.len() - i,
    {
        assert(hive(vars@).skip(i as int).skip(1) =~= hive(vars@).skip(i + 1));
        let other: Vec<char> = text::chars_of(vars[i].name.as_str());
        if text::eq_letters(other.as_slice(), name) {
            return i;
        }
        i += 1;
    }
    i
}

/// The value of the first pair of a name, or nothing.
fn find_inherited(pairs: &[(String, String)], name: &[char]) -> (r: Vec<char>)
    ensures
        r@ == inherited(literal(pairs@), name@),
{
    let mut i: usize = 0;
    let ghost all = literal(pairs@);
    assert(all.skip(0) =~= all);
    while i < pairs.len()
        invariant
            i <= pairs@.len(),
            all == literal(pairs@),
            first_named(all, name@) == first_named(all.skip(i as int), name@),
        decreases pairs@.len() - i,
    {
        assert(all.skip(i as int).skip(1) =~= all.skip(i + 1));
        let other: Vec<char> = text::chars_of(pairs[i].0.as_str());
        if text::eq_letters(other.as_slice(), name) {
            return text::chars_of(pairs[i].1.as_str());
        }
        i += 1;
    }
    Vec::new()
}

/// Puts pairs into a block one after the other.
fn insert_pairs(env: &mut Environment, pairs: &[(String, String)])
    requires
        old(env).wf(),
    ensures
        final(env).wf(),
        final(env)@ == with_vars(old(env)@, literal(pairs@)),
{
    let mut i: usize = 0;
    let ghost all = literal(pairs@);
    while i < pairs.len()
        invariant
            i <= pairs@.len(),
            all == literal(pairs@),
            env.wf(),
            env@ == with_vars(old(env)@, all.take(i as int)),
        decreases pairs@.len() - i,
    {
        let name: Vec<char> = text::chars_of(pairs[i].0.as_str());
        let value: Vec<char> = text::chars_of(pairs[i].1.as_str());
        env.insert(name.as_slice(), value, false);
        proof {
            assert(all.take(i + 1).drop_last() =~= all.take(i as int));
            assert(all.take(i + 1).last() == all[i as int]);
        }
        i += 1;
    }
    assert(all.take(i as int) =~= all);
}

/// Puts the machine hive into a block.
fn insert_machine(env: &mut Environment, machine: &[RegistryVar])
    requires
        old(env).wf(),
    ensures
        final(env).wf(),
        final(env)@ == with_vars(old(env)@, without_username(hive(machine@))),
{
    let username: Vec<char> = text::chars_of("USERNAME");
    let mut i: usize = 0;
    let ghost all = hive(machine@);
    let ghost keep = |var: environment::Var| !text::same_letters(var.name, "USERNAME"@);
    while i < machine.len()
        invariant
            i <= machine@.len(),
            all == hive(machine@),
            username@ == "USERNAME"@,
            keep == |var: environment::Var| !text::same_letters(var.name, "USERNAME"@),
            env.wf(),
            env@ == with_vars(old(env)@, all.take(i as int).filter(keep)),
        decreases machine@.len() - i,
    {
        proof {
            reveal(Seq::filter);
            assert(all.take(i + 1).drop_last() =~= all.take(i as int));
            assert(all.take(i + 1).last() == all[i as int]);
        }
        let name: Vec<char> = text::chars_of(machine[i].name.as_str());
        if !text::eq_letters(name.as_slice(), username.as_slice()) {
            let value: Vec<char> = text::chars_of(machine[i].value.as_str());
            env.insert(name.as_slice(), value, machine[i].expandable);
            proof {
                let kept = all.take(i + 1).filter(keep);
                assert(kept == all.take(i as int).filter(keep).push(all[i as int]));
                assert(kept.drop_last() =~= all.take(i as int).filter(keep));
            }
        }
        i += 1;
    }
    assert(all.take(i as int) =~= all);
}

/// Puts the user hive into a block.
fn insert_user(env: &mut Environment, user: &[RegistryVar])
    requires
        old(env).wf(),
    ensures
        final(env).wf(),
        final(env)@ == with_vars(old(env)@, hive(user@)),
{
    let mut i: usize = 0;
    let ghost all = hive(user@);
    while i < user.len()
        invariant
            i <= user@.len(),
            all == hive(user@),
            env.wf(),
            env@ == with_vars(old(env)@, all.take(i as int)),
        decreases user@.len() - i,
    {
        let name: Vec<char> = text::chars_of(user[i].name.as_str());
        let value: Vec<char> = text::chars_of(user[i].value.as_str());
        env.insert(name.as_slice(), value, user[i].expandable);
        proof {
            assert(all.take(i + 1).drop_last() =~= all.take(i as int));
            assert(all.take(i + 1).last() == all[i as int]);
        }
        i += 1;
    }
    assert(all.take(i as int) =~= all);
}

/// Two names that differ in case alone are found under the same key.
proof fn lemma_first_is_alike(vars: Seq<environment::Var>, name: Seq<char>)
    ensures
        first_named(vars, name) matches Some(var) ==> text::lowered(var.name) == text::lowered(name),
    decreases vars.len(),
{
    if vars.len() > 0 {
        lemma_first_is_alike(vars.skip(1), name);
    }
}

/// Keeps the machine hive's half of a variable that the user hive has too.
fn keep_front(
    kept: &mut Environment,
    machine: &[RegistryVar],
    user: &[RegistryVar],
    name: &[char],
)
    requires
        old(kept).wf(),
    ensures
        final(kept).wf(),
        final(kept)@ == with_front(old(kept)@, hive(machine@), hive(user@), name@),
{
    let half: usize = find_named(machine, name);
    let own: usize = find_named(user, name);
    if half < machine.len() && own < user.len() {
        proof {
            lemma_first_is_alike(hive(machine@), name@);
        }
        let spelling: Vec<char> = text::chars_of(machine[half].name.as_str());
        let value: Vec<char> = text::chars_of(machine[half].value.as_str());
        kept.insert(spelling.as_slice(), value, machine[half].expandable);
    }
}

/// Resolves every variable of a block against the whole of it.
fn resolve_all(env: &Environment, halves: &Environment) -> (r: Environment)
    requires
        env.wf(),
        halves.wf(),
    ensures
        r.wf(),
        r@ == all_resolved(env@, halves@),
{
    let mut slots: Vec<Slot> = Vec::new();
    let mut i: usize = 0;
    while i < env.slots.len()
        invariant
            i <= env.slots@.len(),
            env.wf(),
            halves.wf(),
            slots@.len() == i,
            forall|j: int|
                0 <= j < i ==> {
                    &&& #[trigger] slots@[j].key@ == env.slots@[j].key@
                    &&& slots@[j]@ == resolved(env.slots@[j]@, env@, halves@)
                },
        decreases env.slots@.len() - i,
    {
        let slot: &Slot = &env.slots[i];
        let value: Vec<char> = mean(slot, env, halves, MAX_EXPANSION_DEPTH);
        slots.push(
            Slot {
                key: vstd::slice::slice_to_vec(slot.key.as_slice()),
                name: vstd::slice::slice_to_vec(slot.name.as_slice()),
                value,
                expandable: false,
            },
        );
        i += 1;
    }
    let r: Environment = Environment { slots };
    proof {
        let m = all_resolved(env@, halves@);
        assert forall|j: int| 0 <= j < r.slots@.len() implies m.contains_key(
            #[trigger] r.slots@[j].key@,
        ) && m[r.slots@[j].key@] == r.slots@[j]@ by {
            assert(env.sits(env.slots@[j].key@, j));
            environment::lemma_sits(env, env.slots@[j].key@, j);
        }
        assert forall|key: Seq<char>| #[trigger] m.contains_key(key) implies exists|j: int|
            r.sits(key, j) by {
            assert(env@.contains_key(key));
            let j = choose|j: int| env.sits(key, j);
            assert(env.sits(key, j));
            assert(r.slots@[j].key@ == env.slots@[j].key@);
            assert(r.sits(key, j));
        }
        assert forall|j: int| 0 <= j < r.slots@.len() implies #[trigger] r.slots@[j].key@
            == text::lowered(r.slots@[j].name@) by {
            assert(slots@[j].key@ == env.slots@[j].key@);
            assert(slots@[j]@.name == env.slots@[j]@.name);
        }
        assert forall|j: int, k: int| 0 <= j < k < r.slots@.len() implies environment::before(
            #[trigger] r.slots@[j].key@,
            #[trigger] r.slots@[k].key@,
        ) by {
            assert(environment::before(env.slots@[j].key@, env.slots@[k].key@));
        }
        environment::lemma_is_map(&r, m);
    }
    r
}

/// A name is among two lists when it is in the first or in the second.
pub proof fn lemma_named_in_either(
    a: Seq<environment::Var>,
    b: Seq<environment::Var>,
    name: Seq<char>,
)
    ensures
        first_named(a + b, name) is Some <==> first_named(a, name) is Some || first_named(
            b,
            name,
        ) is Some,
    decreases a.len(),
{
    if a.len() == 0 {
        assert(a + b =~= b);
    } else {
        assert((a + b).skip(1) =~= a.skip(1) + b);
        lemma_named_in_either(a.skip(1), b, name);
    }
}

/// Puts the directories that only the process block lists behind the list `name`.
fn keep_inherited(
    env: &mut Environment,
    machine: &[RegistryVar],
    user: &[RegistryVar],
    process: &[(String, String)],
    name: &[char],
)
    requires
        old(env).wf(),
    ensures
        final(env).wf(),
        final(env)@ == with_inherited(
            old(env)@,
            hive(machine@) + hive(user@),
            literal(process@),
            name@,
        ),
{
    proof {
        lemma_named_in_either(hive(machine@), hive(user@), name@);
    }
    let in_machine: bool = find_named(machine, name) < machine.len();
    let in_user: bool = find_named(user, name) < user.len();
    if in_machine || in_user {
        let more: Vec<char> = find_inherited(process, name);
        let key: Vec<char> = text::to_lowered(name);
        let mut spelling: Vec<char> = Vec::new();
        let mut value: Vec<char> = Vec::new();
        let found: bool = match env.get(key.as_slice()) {
            Some(slot) => {
                spelling = vstd::slice::slice_to_vec(slot.name.as_slice());
                value = append_missing_entries(slot.value.as_slice(), more.as_slice());
                true
            },
            None => false,
        };
        if found {
            proof {
                let i = choose|i: int| env.sits(key@, i);
                assert(env.sits(key@, i));
                environment::lemma_sits(env, key@, i);
            }
            env.insert(spelling.as_slice(), value, false);
        }
    }
}

/// The variables of a block, in the order of their lower-case names.
fn list_out(env: &Environment) -> (r: Vec<(String, String)>)
    requires
        env.wf(),
    ensures
        lists(r@, env@),
{
    let mut out: Vec<(String, String)> = Vec::new();
    let mut i: usize = 0;
    while i < env.slots.len()
        invariant
            i <= env.slots@.len(),
            out@.len() == i,
            forall|j: int|
                0 <= j < i ==> #[trigger] out@[j].0@ == env.slots@[j].name@ && out@[j].1@
                    == env.slots@[j].value@,
        decreases env.slots@.len() - i,
    {
        let name: String = text::text_of(env.slots[i].name.as_slice());
        let value: String = text::text_of(env.slots[i].value.as_slice());
        let ghost before = out@;
        out.push((name, value));
        proof {
            assert forall|j: int| 0 <= j < i + 1 implies #[trigger] out@[j].0@
                == env.slots@[j].name@ && out@[j].1@ == env.slots@[j].value@ by {
                if j < i {
                    assert(before[j].0@ == env.slots@[j].name@);
                }
            }
        }
        i += 1;
    }
    proof {
        assert forall|j: int, k: int| 0 <= j < k < out@.len() implies environment::before(
            text::lowered(#[trigger] out@[j].0@),
            text::lowered(#[trigger] out@[k].0@),
        ) by {
            assert(environment::before(env.slots@[j].key@, env.slots@[k].key@));
        }
        assert forall|j: int| 0 <= j < out@.len() implies {
            let key = text::lowered(#[trigger] out@[j].0@);
            env@.contains_key(key) && env@[key].name == out@[j].0@ && env@[key].value == out@[j].1@
        } by {
            assert(env.sits(env.slots@[j].key@, j));
            environment::lemma_sits(env, env.slots@[j].key@, j);
        }
        assert forall|key: Seq<char>| #[trigger] env@.contains_key(key) implies exists|j: int|
            0 <= j < out@.len() && text::lowered(#[trigger] out@[j].0@) == key by {
            let j = choose|j: int| env.sits(key, j);
            assert(env.sits(key, j));
            assert(text::lowered(out@[j].0@) == key);
        }
    }
    out
}

/// Merges the sources that Windows builds a fresh process environment from.
///
/// Precedence runs from the process block over the machine hive and the user hive to the
/// configured `overrides`, which count in the order in which they are given.
pub fn merge_environment(
    machine: &[RegistryVar],
    user: &[RegistryVar],
    process: &[(String, String)],
    overrides: &[(String, String)],
) -> (r: Vec<(String, String)>)
    ensures
        lists(
            r@,
            pane_environment(hive(machine@), hive(user@), literal(process@), literal(overrides@)),
        ),
{
    let mut merged: Environment = Environment::new();
    insert_pairs(&mut merged, process);
    insert_machine(&mut merged, machine);
    insert_user(&mut merged, user);
    let path: Vec<char> = text::chars_of("PATH");
    let modules: Vec<char> = text::chars_of("PSModulePath");
    let mut halves: Environment = Environment::new();
    keep_front(&mut halves, machine, user, path.as_slice());
    keep_front(&mut halves, machine, user, modules.as_slice());
    let mut env: Environment = resolve_all(&merged, &halves);
    keep_inherited(&mut env, machine, user, process, path.as_slice());
    keep_inherited(&mut env, machine, user, process, modules.as_slice());
    insert_pairs(&mut env, overrides);
    list_out(&env)
}

/// The variables to set on a pane that is spawned now, given what was read of the two hives.
///
/// Nothing is to be set when neither hive could be read: a pane on an old `PATH` beats a pane with
/// no `PATH` at all.
pub fn refreshed_pane_environment(
    machine: &[RegistryVar],
    user: &[RegistryVar],
    process: &[(String, String)],
    overrides: &[(String, String)],
) -> (r: Vec<(String, String)>)
    ensures
        machine@.len() == 0 && user@.len() == 0 ==> r@.len() == 0,
        machine@.len() > 0 || user@.len() > 0 ==> lists(
            r@,
            pane_environment(hive(machine@), hive(user@), literal(process@), literal(overrides@)),
        ),
{
    if machine.len() == 0 && user.len() == 0 {
        return Vec::new();
    }
    merge_environment(machine, user, process, overrides)
}

} // verus!
