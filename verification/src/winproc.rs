//! The process tree of a pane on Windows: who descends from its shell, and what runs in front.

use vstd::prelude::*;

use crate::text;
use crate::utf16;

verus! {

/// A process in a snapshot of the system.
#[derive(Clone, Debug, PartialEq, Eq)]
pub struct Proc {
    pub pid: u32,
    pub parent: u32,
    pub name: String,
}

/// Whether one of the processes at the positions `known` has the number `pid`.
pub open spec fn met(procs: Seq<Proc>, known: Seq<int>, pid: u32) -> bool {
    exists|k: int| 0 <= k < known.len() && procs[#[trigger] known[k]].pid == pid
}

/// Whether the process at `at` is a child of `parent` that was not met before. A process that
/// names itself as its parent is no child.
pub open spec fn fresh(procs: Seq<Proc>, root: u32, parent: u32, known: Seq<int>, at: int) -> bool {
    &&& procs[at].parent == parent
    &&& procs[at].pid != parent
    &&& procs[at].pid != root
    &&& !met(procs, known, procs[at].pid)
}

/// The positions, among the first `upto`, of the children of `parent` that are new to `known`.
pub open spec fn brood(
    procs: Seq<Proc>,
    root: u32,
    parent: u32,
    known: Seq<int>,
    upto: int,
) -> Seq<int>
    decreases upto,
{
    if upto <= 0 {
        seq![]
    } else {
        let found = brood(procs, root, parent, known, upto - 1);
        if fresh(procs, root, parent, known + found, upto - 1) {
            found.push(upto - 1)
        } else {
            found
        }
    }
}

/// The children of all of `parents` that are new to `known`, in the order of the parents.
pub open spec fn broods(
    procs: Seq<Proc>,
    root: u32,
    parents: Seq<u32>,
    known: Seq<int>,
) -> Seq<int>
    decreases parents.len(),
{
    if parents.len() == 0 {
        seq![]
    } else {
        let found = broods(procs, root, parents.drop_last(), known);
        found + brood(procs, root, parents.last(), known + found, procs.len() as int)
    }
}

/// The numbers of the processes at some positions.
pub open spec fn pids(procs: Seq<Proc>, list: Seq<int>) -> Seq<u32> {
    Seq::new(list.len(), |k: int| procs[list[k]].pid)
}

/// The processes `depth` steps below the root, by their positions.
pub open spec fn generation(procs: Seq<Proc>, root: u32, depth: nat) -> Seq<int>
    decreases depth, 1int,
{
    if depth == 0 {
        seq![]
    } else {
        let parents = if depth == 1 {
            seq![root]
        } else {
            pids(procs, generation(procs, root, (depth - 1) as nat))
        };
        broods(procs, root, parents, down_to(procs, root, (depth - 1) as nat))
    }
}

/// The processes at most `depth` steps below the root, the nearest first.
pub open spec fn down_to(procs: Seq<Proc>, root: u32, depth: nat) -> Seq<int>
    decreases depth, 2int,
{
    if depth == 0 {
        seq![]
    } else {
        down_to(procs, root, (depth - 1) as nat) + generation(procs, root, depth)
    }
}

/// The processes at most `depth` steps below the root, the deepest first.
pub open spec fn deepest_first(procs: Seq<Proc>, root: u32, depth: nat) -> Seq<int>
    decreases depth,
{
    if depth == 0 {
        seq![]
    } else {
        generation(procs, root, depth) + deepest_first(procs, root, (depth - 1) as nat)
    }
}

/// All positions are those of processes, each number occurs once, and the root's does not.
pub open spec fn listed_once(procs: Seq<Proc>, root: u32, list: Seq<int>) -> bool {
    &&& forall|k: int|
        0 <= k < list.len() ==> 0 <= #[trigger] list[k] < procs.len() && procs[list[k]].pid != root
    &&& forall|j: int, k: int|
        0 <= j < k < list.len() ==> procs[#[trigger] list[j]].pid != procs[#[trigger] list[k]].pid
}

proof fn lemma_brood_once(procs: Seq<Proc>, root: u32, parent: u32, known: Seq<int>, upto: int)
    requires
        0 <= upto <= procs.len(),
        listed_once(procs, root, known),
    ensures
        listed_once(procs, root, known + brood(procs, root, parent, known, upto)),
    decreases upto,
{
    if upto == 0 {
        assert(known + brood(procs, root, parent, known, upto) =~= known);
    } else {
        lemma_brood_once(procs, root, parent, known, upto - 1);
        let found = brood(procs, root, parent, known, upto - 1);
        if fresh(procs, root, parent, known + found, upto - 1) {
            let all = known + found;
            let list = known + brood(procs, root, parent, known, upto);
            assert(list =~= all.push(upto - 1));
            assert forall|j: int, k: int| 0 <= j < k < list.len() implies procs[
                #[trigger] list[j]].pid != procs[#[trigger] list[k]].pid by {
                if k == all.len() {
                    assert(all[j] == list[j]);
                } else {
                    assert(all[j] == list[j] && all[k] == list[k]);
                }
            }
            assert forall|k: int| 0 <= k < list.len() implies 0 <= #[trigger] list[k] < procs.len()
                && procs[list[k]].pid != root by {
                if k < all.len() {
                    assert(all[k] == list[k]);
                }
            }
        }
    }
}

proof fn lemma_broods_once(procs: Seq<Proc>, root: u32, parents: Seq<u32>, known: Seq<int>)
    requires
        listed_once(procs, root, known),
    ensures
        listed_once(procs, root, known + broods(procs, root, parents, known)),
    decreases parents.len(),
{
    if parents.len() == 0 {
        assert(known + broods(procs, root, parents, known) =~= known);
    } else {
        lemma_broods_once(procs, root, parents.drop_last(), known);
        let found = broods(procs, root, parents.drop_last(), known);
        lemma_brood_once(procs, root, parents.last(), known + found, procs.len() as int);
        assert(known + broods(procs, root, parents, known) =~= (known + found) + brood(
            procs,
            root,
            parents.last(),
            known + found,
            procs.len() as int,
        ));
    }
}

/// The parents of a generation.
pub open spec fn parents_of(procs: Seq<Proc>, root: u32, depth: nat) -> Seq<u32> {
    if depth <= 1 {
        seq![root]
    } else {
        pids(procs, generation(procs, root, (depth - 1) as nat))
    }
}

/// A generation is what the one above it brings, and comes behind it.
proof fn lemma_unfold(procs: Seq<Proc>, root: u32, depth: nat)
    requires
        depth > 0,
    ensures
        generation(procs, root, depth) == broods(
            procs,
            root,
            parents_of(procs, root, depth),
            down_to(procs, root, (depth - 1) as nat),
        ),
        down_to(procs, root, depth) == down_to(procs, root, (depth - 1) as nat) + generation(
            procs,
            root,
            depth,
        ),
{
    reveal_with_fuel(generation, 2);
    reveal_with_fuel(down_to, 2);
}

/// Every descendant is listed once, and the root is not.
pub proof fn law_a_descendant_is_listed_once(procs: Seq<Proc>, root: u32, depth: nat)
    ensures
        listed_once(procs, root, down_to(procs, root, depth)),
    decreases depth,
{
    if depth > 0 {
        law_a_descendant_is_listed_once(procs, root, (depth - 1) as nat);
        lemma_unfold(procs, root, depth);
        let parents = parents_of(procs, root, depth);
        lemma_broods_once(procs, root, parents, down_to(procs, root, (depth - 1) as nat));
    }
}

/// A list without repeats is no longer than what it picks from.
proof fn lemma_at_most_all(procs: Seq<Proc>, root: u32, list: Seq<int>)
    requires
        listed_once(procs, root, list),
    ensures
        list.len() <= procs.len(),
{
    assert(list.no_duplicates()) by {
        assert forall|j: int, k: int| 0 <= j < list.len() && 0 <= k < list.len() && j != k implies list[j]
            != list[k] by {
            if j < k {
                assert(procs[list[j]].pid != procs[list[k]].pid);
            } else {
                assert(procs[list[k]].pid != procs[list[j]].pid);
            }
        }
    }
    list.unique_seq_to_set();
    let all = vstd::set_lib::set_int_range(0, procs.len() as int);
    vstd::set_lib::lemma_int_range(0, procs.len() as int);
    assert(list.to_set().subset_of(all)) by {
        assert forall|x: int| list.to_set().contains(x) implies all.contains(x) by {
            let k = choose|k: int| 0 <= k < list.len() && list[k] == x;
            assert(0 <= list[k] < procs.len());
        }
    }
    vstd::set_lib::lemma_len_subset(list.to_set(), all);
}

/// Below a generation without anybody there is nobody.
proof fn lemma_ends(procs: Seq<Proc>, root: u32, depth: nat, deeper: nat)
    requires
        0 < depth <= deeper,
        generation(procs, root, depth).len() == 0,
    ensures
        generation(procs, root, deeper).len() == 0,
        down_to(procs, root, deeper) == down_to(procs, root, (depth - 1) as nat),
        deepest_first(procs, root, deeper) == deepest_first(procs, root, (depth - 1) as nat),
    decreases deeper,
{
    lemma_unfold(procs, root, deeper);
    if depth == deeper {
        assert(down_to(procs, root, deeper) =~= down_to(procs, root, (depth - 1) as nat));
        assert(deepest_first(procs, root, deeper) =~= deepest_first(procs, root, (depth - 1) as nat));
    } else {
        lemma_ends(procs, root, depth, (deeper - 1) as nat);
        let parents = pids(procs, generation(procs, root, (deeper - 1) as nat));
        assert(parents.len() == 0);
        assert(down_to(procs, root, deeper) =~= down_to(procs, root, (depth - 1) as nat));
        assert(deepest_first(procs, root, deeper) =~= deepest_first(procs, root, (depth - 1) as nat));
    }
}

/// Whether some process `child` names `parent` as its parent.
pub open spec fn spawned(procs: Seq<Proc>, parent: u32, child: u32) -> bool {
    exists|k: int|
        0 <= k < procs.len() && (#[trigger] procs[k]).parent == parent && procs[k].pid == child
            && child != parent
}

/// Whether a line of processes leads from parent to child at each step.
pub open spec fn is_line(procs: Seq<Proc>, line: Seq<u32>) -> bool {
    &&& line.len() > 0
    &&& forall|i: int|
        0 <= i < line.len() - 1 ==> spawned(procs, #[trigger] line[i], line[i + 1])
}

proof fn lemma_brood_members(procs: Seq<Proc>, root: u32, parent: u32, known: Seq<int>, upto: int)
    requires
        0 <= upto <= procs.len(),
    ensures
        forall|k: int|
            0 <= k < brood(procs, root, parent, known, upto).len() ==> {
                let at = #[trigger] brood(procs, root, parent, known, upto)[k];
                0 <= at < upto && procs[at].parent == parent && procs[at].pid != parent
            },
        forall|at: int|
            0 <= at < upto && (#[trigger] procs[at]).parent == parent && procs[at].pid != parent
                && procs[at].pid != root ==> met(
                procs,
                known + brood(procs, root, parent, known, upto),
                procs[at].pid,
            ),
    decreases upto,
{
    if upto > 0 {
        lemma_brood_members(procs, root, parent, known, upto - 1);
        let found = brood(procs, root, parent, known, upto - 1);
        let all = brood(procs, root, parent, known, upto);
        assert forall|k: int| 0 <= k < all.len() implies {
            let at = #[trigger] all[k];
            0 <= at < upto && procs[at].parent == parent && procs[at].pid != parent
        } by {
            if k < found.len() {
                assert(found[k] == all[k]);
            }
        }
        assert forall|at: int|
            0 <= at < upto && (#[trigger] procs[at]).parent == parent && procs[at].pid != parent
                && procs[at].pid != root implies met(procs, known + all, procs[at].pid) by {
            if met(procs, known + found, procs[at].pid) {
                let k = choose|k: int|
                    0 <= k < (known + found).len() && procs[#[trigger] (known + found)[k]].pid
                        == procs[at].pid;
                assert((known + all)[k] == (known + found)[k]);
            } else {
                assert(at == upto - 1);
                assert((known + all)[(known + found).len() as int] == at);
            }
        }
    }
}

proof fn lemma_broods_members(procs: Seq<Proc>, root: u32, parents: Seq<u32>, known: Seq<int>)
    ensures
        forall|k: int|
            0 <= k < broods(procs, root, parents, known).len() ==> {
                let at = #[trigger] broods(procs, root, parents, known)[k];
                &&& 0 <= at < procs.len()
                &&& procs[at].pid != procs[at].parent
                &&& parents.contains(procs[at].parent)
            },
        forall|at: int|
            0 <= at < procs.len() && parents.contains((#[trigger] procs[at]).parent)
                && procs[at].pid != procs[at].parent && procs[at].pid != root ==> met(
                procs,
                known + broods(procs, root, parents, known),
                procs[at].pid,
            ),
    decreases parents.len(),
{
    if parents.len() > 0 {
        let head = parents.drop_last();
        let last = parents.last();
        lemma_broods_members(procs, root, head, known);
        let found = broods(procs, root, head, known);
        lemma_brood_members(procs, root, last, known + found, procs.len() as int);
        let more = brood(procs, root, last, known + found, procs.len() as int);
        let all = broods(procs, root, parents, known);
        assert forall|k: int| 0 <= k < all.len() implies {
            let at = #[trigger] all[k];
            &&& 0 <= at < procs.len()
            &&& procs[at].pid != procs[at].parent
            &&& parents.contains(procs[at].parent)
        } by {
            if k < found.len() {
                let at = found[k];
                assert(at == all[k]);
                let m = choose|m: int| 0 <= m < head.len() && head[m] == procs[at].parent;
                assert(parents[m] == procs[at].parent);
            } else {
                assert(more[k - found.len()] == all[k]);
                assert(parents[parents.len() - 1] == last);
            }
        }
        assert(known + all =~= (known + found) + more);
        assert forall|at: int|
            0 <= at < procs.len() && parents.contains((#[trigger] procs[at]).parent)
                && procs[at].pid != procs[at].parent && procs[at].pid != root implies met(
            procs,
            known + all,
            procs[at].pid,
        ) by {
            if procs[at].parent != last {
                let m = choose|m: int| 0 <= m < parents.len() && parents[m] == procs[at].parent;
                assert(head[m] == procs[at].parent);
                assert(met(procs, known + found, procs[at].pid));
                let k = choose|k: int|
                    0 <= k < (known + found).len() && procs[#[trigger] (known + found)[k]].pid
                        == procs[at].pid;
                assert((known + all)[k] == (known + found)[k]);
            }
        }
    }
}

/// Whoever is listed descends from the root: a line of that many steps leads there.
pub proof fn law_who_is_listed_descends(procs: Seq<Proc>, root: u32, depth: nat, k: int)
    requires
        0 <= k < generation(procs, root, depth).len(),
    ensures
        exists|line: Seq<u32>|
            {
                &&& #[trigger] is_line(procs, line)
                &&& line.len() == depth + 1
                &&& line[0] == root
                &&& line.last() == procs[generation(procs, root, depth)[k]].pid
            },
    decreases depth,
{
    let at = generation(procs, root, depth)[k];
    let parents = parents_of(procs, root, depth);
    let known = down_to(procs, root, (depth - 1) as nat);
    lemma_broods_members(procs, root, parents, known);
    assert(broods(procs, root, parents, known)[k] == at);
    let parent = procs[at].parent;
    assert(spawned(procs, parent, procs[at].pid));
    if depth == 1 {
        let m = choose|m: int| 0 <= m < parents.len() && parents[m] == parent;
        let line = seq![root, procs[at].pid];
        assert(is_line(procs, line));
    } else {
        let before = generation(procs, root, (depth - 1) as nat);
        let m = choose|m: int| 0 <= m < parents.len() && parents[m] == parent;
        law_who_is_listed_descends(procs, root, (depth - 1) as nat, m);
        let line = choose|line: Seq<u32>|
            {
                &&& #[trigger] is_line(procs, line)
                &&& line.len() == depth
                &&& line[0] == root
                &&& line.last() == procs[before[m]].pid
            };
        let longer = line.push(procs[at].pid);
        assert forall|i: int| 0 <= i < longer.len() - 1 implies spawned(
            procs,
            #[trigger] longer[i],
            longer[i + 1],
        ) by {
            if i < line.len() - 1 {
                assert(spawned(procs, line[i], line[i + 1]));
            }
        }
        assert(is_line(procs, longer));
    }
}

/// Looking deeper loses nobody.
proof fn lemma_deeper(procs: Seq<Proc>, root: u32, depth: nat, deeper: nat, pid: u32)
    requires
        depth <= deeper,
        met(procs, down_to(procs, root, depth), pid),
    ensures
        met(procs, down_to(procs, root, deeper), pid),
    decreases deeper,
{
    if depth < deeper {
        lemma_deeper(procs, root, depth, (deeper - 1) as nat, pid);
        let list = down_to(procs, root, (deeper - 1) as nat);
        let k = choose|k: int| 0 <= k < list.len() && procs[#[trigger] list[k]].pid == pid;
        assert(down_to(procs, root, deeper)[k] == list[k]);
    }
}

/// Whoever is met within some depth is in one of the generations.
proof fn lemma_in_a_generation(procs: Seq<Proc>, root: u32, depth: nat, pid: u32) -> (at: (nat, int))
    requires
        met(procs, down_to(procs, root, depth), pid),
    ensures
        0 < at.0 <= depth,
        0 <= at.1 < generation(procs, root, at.0).len(),
        procs[generation(procs, root, at.0)[at.1]].pid == pid,
    decreases depth,
{
    let list = down_to(procs, root, depth);
    let k = choose|k: int| 0 <= k < list.len() && procs[#[trigger] list[k]].pid == pid;
    let before = down_to(procs, root, (depth - 1) as nat);
    if k < before.len() {
        assert(before[k] == list[k]);
        lemma_in_a_generation(procs, root, (depth - 1) as nat, pid)
    } else {
        assert(generation(procs, root, depth)[k - before.len()] == list[k]);
        (depth, k - before.len())
    }
}

/// Whoever descends from the root is listed, no deeper than the shortest line that leads there.
pub proof fn law_who_descends_is_listed(procs: Seq<Proc>, line: Seq<u32>)
    requires
        is_line(procs, line),
    ensures
        line.last() == line[0] || met(
            procs,
            down_to(procs, line[0], (line.len() - 1) as nat),
            line.last(),
        ),
    decreases line.len(),
{
    let root = line[0];
    if line.len() > 1 && line.last() != root {
        let head = line.drop_last();
        assert forall|i: int| 0 <= i < head.len() - 1 implies spawned(
            procs,
            #[trigger] head[i],
            head[i + 1],
        ) by {
            assert(spawned(procs, line[i], line[i + 1]));
        }
        law_who_descends_is_listed(procs, head);
        let parent = head.last();
        let steps = (line.len() - 1) as nat;
        assert(parent == line[line.len() - 2]);
        assert(spawned(procs, line[line.len() - 2], line[line.len() - 2 + 1]));
        let at = choose|k: int|
            0 <= k < procs.len() && (#[trigger] procs[k]).parent == parent && procs[k].pid
                == line.last() && line.last() != parent;
        if parent == root {
            let parents = parents_of(procs, root, 1);
            assert(parents[0] == root);
            lemma_unfold(procs, root, 1);
            lemma_broods_members(procs, root, parents, down_to(procs, root, 0));
            assert(met(procs, down_to(procs, root, 1), procs[at].pid));
            lemma_deeper(procs, root, 1, steps, line.last());
        } else {
            let (d, k) = lemma_in_a_generation(procs, root, (steps - 1) as nat, parent);
            let parents = parents_of(procs, root, (d + 1) as nat);
            assert(parents[k] == parent);
            lemma_unfold(procs, root, (d + 1) as nat);
            lemma_broods_members(procs, root, parents, down_to(procs, root, d));
            assert(met(procs, down_to(procs, root, (d + 1) as nat), procs[at].pid));
            lemma_deeper(procs, root, (d + 1) as nat, steps, line.last());
        }
    }
}

/// A process of a generation is that many steps below the root and no fewer: every line that
/// leads there is at least as long.
pub proof fn law_a_generation_is_a_distance(
    procs: Seq<Proc>,
    root: u32,
    depth: nat,
    k: int,
    line: Seq<u32>,
)
    requires
        0 <= k < generation(procs, root, depth).len(),
        is_line(procs, line),
        line[0] == root,
        line.last() == procs[generation(procs, root, depth)[k]].pid,
    ensures
        line.len() >= depth + 1,
{
    let steps = (line.len() - 1) as nat;
    let at = generation(procs, root, depth)[k];
    law_a_descendant_is_listed_once(procs, root, depth);
    let before = down_to(procs, root, (depth - 1) as nat);
    let list = down_to(procs, root, depth);
    assert(list[before.len() + k] == at);
    if steps < depth {
        law_who_descends_is_listed(procs, line);
        lemma_deeper(procs, root, steps, (depth - 1) as nat, line.last());
        let j = choose|j: int|
            0 <= j < before.len() && procs[#[trigger] before[j]].pid == line.last();
        assert(list[j] == before[j]);
    }
}

/// Positions as the executable code keeps them.
pub open spec fn positions(list: Seq<usize>) -> Seq<int> {
    Seq::new(list.len(), |k: int| list[k] as int)
}

/// Whether one of the processes at some positions has the number `pid`.
fn is_met(procs: &[Proc], known: &Vec<usize>, pid: u32) -> (r: bool)
    requires
        forall|k: int| 0 <= k < known@.len() ==> #[trigger] known@[k] < procs@.len(),
    ensures
        r == met(procs@, positions(known@), pid),
{
    let mut i: usize = 0;
    let ghost list = positions(known@);
    while i < known.len()
        invariant
            i <= known@.len(),
            list == positions(known@),
            forall|k: int| 0 <= k < known@.len() ==> #[trigger] known@[k] < procs@.len(),
            forall|k: int| 0 <= k < i ==> procs@[#[trigger] list[k]].pid != pid,
        decreases known@.len() - i,
    {
        assert(known@[i as int] < procs@.len());
        if procs[known[i]].pid == pid {
            assert(procs@[list[i as int]].pid == pid);
            return true;
        }
        i += 1;
    }
    false
}

/// Adds the children of `parent` that were not met before to `known`.
fn add_brood(procs: &[Proc], root: u32, parent: u32, known: &mut Vec<usize>)
    requires
        forall|k: int| 0 <= k < old(known)@.len() ==> #[trigger] old(known)@[k] < procs@.len(),
    ensures
        forall|k: int| 0 <= k < final(known)@.len() ==> #[trigger] final(known)@[k] < procs@.len(),
        positions(final(known)@) == positions(old(known)@) + brood(
            procs@,
            root,
            parent,
            positions(old(known)@),
            procs@.len() as int,
        ),
{
    let ghost before = positions(old(known)@);
    let mut i: usize = 0;
    assert(positions(known@) =~= before + brood(procs@, root, parent, before, 0));
    while i < procs.len()
        invariant
            i <= procs@.len(),
            before == positions(old(known)@),
            forall|k: int| 0 <= k < known@.len() ==> #[trigger] known@[k] < procs@.len(),
            positions(known@) == before + brood(procs@, root, parent, before, i as int),
        decreases procs@.len() - i,
    {
        let ghost was = positions(known@);
        if procs[i].parent == parent && procs[i].pid != parent && procs[i].pid != root && !is_met(
            procs,
            known,
            procs[i].pid,
        ) {
            known.push(i);
            assert(positions(known@) =~= was.push(i as int));
        }
        i += 1;
        assert(positions(known@) =~= before + brood(procs@, root, parent, before, i as int));
    }
}

/// The descendants of a process, by their positions and the nearest first, and where each
/// generation of them ends.
fn walk(procs: &[Proc], root: u32) -> (r: (Vec<usize>, Vec<usize>))
    ensures
        forall|k: int| 0 <= k < r.0@.len() ==> #[trigger] r.0@[k] < procs@.len(),
        r.1@.len() <= procs@.len(),
        generation(procs@, root, (r.1@.len() + 1) as nat).len() == 0,
        r.1@.len() > 0 ==> generation(procs@, root, r.1@.len() as nat).len() > 0,
        positions(r.0@) == down_to(procs@, root, r.1@.len() as nat),
        forall|d: int|
            0 <= d < r.1@.len() ==> #[trigger] r.1@[d] == down_to(
                procs@,
                root,
                (d + 1) as nat,
            ).len(),
{
    let mut known: Vec<usize> = Vec::new();
    let mut ends: Vec<usize> = Vec::new();
    let mut from: usize = 0;
    add_brood(procs, root, root, &mut known);
    proof {
        reveal_with_fuel(broods, 2);
        let none = Seq::<int>::empty();
        assert(seq![root].drop_last() =~= Seq::<u32>::empty());
        assert(none + none =~= none);
        assert(positions(Seq::<usize>::empty()) =~= none);
        assert(down_to(procs@, root, 0) =~= none);
        assert(generation(procs@, root, 1) =~= brood(
            procs@,
            root,
            root,
            none,
            procs@.len() as int,
        ));
        assert(positions(known@) =~= down_to(procs@, root, 1));
    }
    while from < known.len()
        invariant
            forall|k: int| 0 <= k < known@.len() ==> #[trigger] known@[k] < procs@.len(),
            from == down_to(procs@, root, ends@.len() as nat).len(),
            ends@.len() <= from <= known@.len(),
            ends@.len() > 0 ==> generation(procs@, root, ends@.len() as nat).len() > 0,
            positions(known@) == down_to(procs@, root, (ends@.len() + 1) as nat),
            forall|d: int|
                0 <= d < ends@.len() ==> #[trigger] ends@[d] == down_to(
                    procs@,
                    root,
                    (d + 1) as nat,
                ).len(),
        decreases procs@.len() - from,
    {
        proof {
            law_a_descendant_is_listed_once(procs@, root, (ends@.len() + 1) as nat);
            lemma_at_most_all(procs@, root, positions(known@));
        }
        let end: usize = known.len();
        let ghost depth = (ends@.len() + 1) as nat;
        proof {
            lemma_unfold(procs@, root, depth);
        }
        let ghost base = positions(known@);
        let ghost parents = pids(procs@, generation(procs@, root, depth));
        let mut i: usize = from;
        assert(base =~= base + broods(procs@, root, parents.take(0), base));
        while i < end
            invariant
                from <= i <= end,
                end <= known@.len(),
                end == base.len(),
                base == down_to(procs@, root, depth),
                from == down_to(procs@, root, (depth - 1) as nat).len(),
                depth > 0,
                parents == pids(procs@, generation(procs@, root, depth)),
                forall|k: int| 0 <= k < known@.len() ==> #[trigger] known@[k] < procs@.len(),
                positions(known@) == base + broods(procs@, root, parents.take(i - from), base),
            decreases end - i,
        {
            let ghost was = positions(known@);
            proof {
                assert(was[i as int] == base[i as int]);
                assert(generation(procs@, root, depth)[i - from] == base[i as int]);
                assert(parents.take(i + 1 - from).drop_last() =~= parents.take(i - from));
                assert(parents.take(i + 1 - from).last() == procs@[known@[i as int] as int].pid);
            }
            assert(known@[i as int] < procs@.len());
            let parent: u32 = procs[known[i]].pid;
            add_brood(procs, root, parent, &mut known);
            i += 1;
            assert(positions(known@) =~= base + broods(
                procs@,
                root,
                parents.take(i - from),
                base,
            ));
        }
        proof {
            assert(parents.take(i - from) =~= parents);
            assert(generation(procs@, root, (depth + 1) as nat) == broods(
                procs@,
                root,
                parents,
                base,
            ));
        }
        ends.push(end);
        from = end;
    }
    proof {
        lemma_unfold(procs@, root, (ends@.len() + 1) as nat);
        assert(positions(known@) =~= down_to(procs@, root, ends@.len() as nat));
        law_a_descendant_is_listed_once(procs@, root, ends@.len() as nat);
        lemma_at_most_all(procs@, root, positions(known@));
    }
    (known, ends)
}

/// Where a generation stands when the deepest come first: behind all that is deeper.
pub open spec fn deeper_than(procs: Seq<Proc>, root: u32, d: nat, depth: nat) -> nat
    decreases depth,
{
    if depth <= d {
        0
    } else {
        generation(procs, root, depth).len() + deeper_than(procs, root, d, (depth - 1) as nat)
    }
}

proof fn lemma_stands(procs: Seq<Proc>, root: u32, d: nat, k: int, depth: nat)
    requires
        0 < d <= depth,
        0 <= k < generation(procs, root, d).len(),
    ensures
        deeper_than(procs, root, d, depth) + k < deepest_first(procs, root, depth).len(),
        deepest_first(procs, root, depth)[deeper_than(procs, root, d, depth) + k] == generation(
            procs,
            root,
            d,
        )[k],
    decreases depth,
{
    if d < depth {
        lemma_stands(procs, root, d, k, (depth - 1) as nat);
    }
}

/// Who is deeper comes first: what is in one generation stands before all of the generations
/// above it.
pub proof fn law_the_deepest_come_first(
    procs: Seq<Proc>,
    root: u32,
    d1: nat,
    k1: int,
    d2: nat,
    k2: int,
    depth: nat,
)
    requires
        0 < d2 < d1 <= depth,
        0 <= k1 < generation(procs, root, d1).len(),
        0 <= k2 < generation(procs, root, d2).len(),
    ensures
        ({
            let list = deepest_first(procs, root, depth);
            exists|i: int, j: int|
                0 <= i < j < list.len() && #[trigger] list[i] == generation(procs, root, d1)[k1]
                    && #[trigger] list[j] == generation(procs, root, d2)[k2]
        }),
{
    lemma_stands(procs, root, d1, k1, depth);
    lemma_stands(procs, root, d2, k2, depth);
    lemma_stands_behind(procs, root, d1, d2, depth);
}

proof fn lemma_stands_behind(procs: Seq<Proc>, root: u32, d1: nat, d2: nat, depth: nat)
    requires
        d2 < d1 <= depth,
    ensures
        deeper_than(procs, root, d1, depth) + generation(procs, root, d1).len() <= deeper_than(
            procs,
            root,
            d2,
            depth,
        ),
    decreases depth,
{
    reveal_with_fuel(deeper_than, 2);
    if d1 < depth {
        lemma_stands_behind(procs, root, d1, d2, (depth - 1) as nat);
    }
}

/// The deepest generation holds everything that is as deep as can be.
proof fn lemma_whole_tree(procs: Seq<Proc>, root: u32, depth: nat)
    requires
        depth <= procs.len(),
        generation(procs, root, (depth + 1) as nat).len() == 0,
    ensures
        down_to(procs, root, procs.len()) == down_to(procs, root, depth),
        deepest_first(procs, root, procs.len()) == deepest_first(procs, root, depth),
{
    if depth < procs.len() {
        lemma_ends(procs, root, (depth + 1) as nat, procs.len());
    }
}

/// The descendants of a process, the deepest first, so that a parent never comes before a child
/// that it could start again.
pub fn descendants(procs: &[Proc], root: u32) -> (r: Vec<u32>)
    ensures
        r@ == pids(procs@, deepest_first(procs@, root, procs@.len())),
{
    let (known, ends) = walk(procs, root);
    let mut out: Vec<u32> = Vec::new();
    let mut depth: usize = ends.len();
    proof {
        lemma_whole_tree(procs@, root, ends@.len() as nat);
    }
    let ghost whole = deepest_first(procs@, root, ends@.len() as nat);
    assert(pids(procs@, whole) =~= out@ + pids(procs@, whole));
    while depth > 0
        invariant
            depth <= ends@.len(),
            forall|k: int| 0 <= k < known@.len() ==> #[trigger] known@[k] < procs@.len(),
            positions(known@) == down_to(procs@, root, ends@.len() as nat),
            forall|d: int|
                0 <= d < ends@.len() ==> #[trigger] ends@[d] == down_to(
                    procs@,
                    root,
                    (d + 1) as nat,
                ).len(),
            pids(procs@, whole) == out@ + pids(
                procs@,
                deepest_first(procs@, root, depth as nat),
            ),
        decreases depth,
    {
        let from: usize = if depth > 1 {
            ends[depth - 2]
        } else {
            0
        };
        let end: usize = ends[depth - 1];
        let mut i: usize = from;
        let ghost list = generation(procs@, root, depth as nat);
        let ghost base = out@;
        proof {
            lemma_unfold(procs@, root, depth as nat);
            lemma_prefix(procs@, root, depth as nat, ends@.len() as nat);
            assert(ends@[depth - 1] == down_to(procs@, root, depth as nat).len());
            if depth > 1 {
                assert(ends@[depth - 2] == down_to(procs@, root, (depth - 1) as nat).len());
            }
            assert(base =~= base + pids(procs@, list.take(0)));
            let all = down_to(procs@, root, depth as nat);
            assert forall|k: int| 0 <= k < list.len() implies positions(known@)[from + k]
                == #[trigger] list[k] by {
                assert(all[from + k] == list[k]);
            }
        }
        while i < end
            invariant
                from <= i <= end,
                depth > 0,
                end <= known@.len(),
                list == generation(procs@, root, depth as nat),
                list.len() == end - from,
                forall|k: int| 0 <= k < known@.len() ==> #[trigger] known@[k] < procs@.len(),
                forall|k: int|
                    0 <= k < list.len() ==> positions(known@)[from + k] == #[trigger] list[k],
                out@ == base + pids(procs@, list.take(i - from)),
            decreases end - i,
        {
            assert(known@[i as int] < procs@.len());
            assert(positions(known@)[from + (i - from)] == list[i - from]);
            out.push(procs[known[i]].pid);
            i += 1;
            assert(out@ =~= base + pids(procs@, list.take(i - from)));
        }
        proof {
            assert(list.take(i - from) =~= list);
            let rest = deepest_first(procs@, root, (depth - 1) as nat);
            assert(pids(procs@, list + rest) =~= pids(procs@, list) + pids(procs@, rest));
            assert(pids(procs@, whole) =~= out@ + pids(procs@, rest));
        }
        depth -= 1;
    }
    assert(pids(procs@, whole) =~= out@);
    out
}

/// A shallower look is the front of a deeper one.
proof fn lemma_prefix(procs: Seq<Proc>, root: u32, depth: nat, deeper: nat)
    requires
        depth <= deeper,
    ensures
        down_to(procs, root, depth).is_prefix_of(down_to(procs, root, deeper)),
    decreases deeper,
{
    if depth < deeper {
        lemma_prefix(procs, root, depth, (deeper - 1) as nat);
    }
}

/// Whether the process `k` of a generation is in front: nobody is deeper, and nobody as deep has a
/// higher number.
pub open spec fn in_front(procs: Seq<Proc>, root: u32, depth: nat, k: int) -> bool {
    let list = generation(procs, root, depth);
    &&& 0 <= k < list.len()
    &&& generation(procs, root, (depth + 1) as nat).len() == 0
    &&& forall|j: int| 0 <= j < list.len() ==> procs[#[trigger] list[j]].pid <= procs[list[k]].pid
}

/// Only one process is in front.
pub proof fn law_one_process_is_in_front(
    procs: Seq<Proc>,
    root: u32,
    d1: nat,
    k1: int,
    d2: nat,
    k2: int,
)
    requires
        in_front(procs, root, d1, k1),
        in_front(procs, root, d2, k2),
    ensures
        d1 == d2,
        k1 == k2,
{
    if d1 < d2 {
        lemma_ends(procs, root, (d1 + 1) as nat, d2);
    } else if d2 < d1 {
        lemma_ends(procs, root, (d2 + 1) as nat, d1);
    }
    law_a_descendant_is_listed_once(procs, root, d1);
    let before = down_to(procs, root, (d1 - 1) as nat);
    let list = generation(procs, root, d1);
    let all = down_to(procs, root, d1);
    assert(procs[list[k1]].pid == procs[list[k2]].pid);
    assert(all[before.len() + k1] == list[k1]);
    assert(all[before.len() + k2] == list[k2]);
}

/// The name of the command in front of a shell, or `None` at an idle prompt.
pub fn foreground_name(procs: &[Proc], shell_pid: u32) -> (r: Option<String>)
    ensures
        r is None <==> generation(procs@, shell_pid, 1).len() == 0,
        r matches Some(name) ==> exists|d: nat, k: int| #[trigger]
            in_front(procs@, shell_pid, d, k) && name@ == procs@[generation(
                procs@,
                shell_pid,
                d,
            )[k]].name@,
{
    let (known, ends) = walk(procs, shell_pid);
    let depth: usize = ends.len();
    if depth == 0 {
        return None;
    }
    let from: usize = if depth > 1 {
        ends[depth - 2]
    } else {
        0
    };
    let ghost list = generation(procs@, shell_pid, depth as nat);
    proof {
        lemma_unfold(procs@, shell_pid, depth as nat);
        assert(known@.len() == positions(known@).len());
        if depth > 1 {
            assert(ends@[depth - 2] == down_to(procs@, shell_pid, (depth - 1) as nat).len());
        }
        if generation(procs@, shell_pid, 1).len() == 0 {
            lemma_ends(procs@, shell_pid, 1, depth as nat);
        }
    }
    let mut best: usize = from;
    let mut i: usize = from;
    while i < known.len()
        invariant
            from <= best < known@.len(),
            from <= i <= known@.len(),
            forall|k: int| 0 <= k < known@.len() ==> #[trigger] known@[k] < procs@.len(),
            forall|k: int|
                from <= k < i ==> procs@[#[trigger] known@[k] as int].pid
                    <= procs@[known@[best as int] as int].pid,
        decreases known@.len() - i,
    {
        assert(known@[i as int] < procs@.len() && known@[best as int] < procs@.len());
        if procs[known[i]].pid > procs[known[best]].pid {
            best = i;
        }
        i += 1;
    }
    proof {
        let k = best - from;
        assert forall|j: int| 0 <= j < list.len() implies positions(known@)[from + j]
            == #[trigger] list[j] by {}
        assert(list[k] == known@[best as int]);
        assert forall|j: int| 0 <= j < list.len() implies procs@[#[trigger] list[j]].pid
            <= procs@[list[k]].pid by {
            assert(known@[from + j] == list[j]);
        }
        assert(in_front(procs@, shell_pid, depth as nat, k));
    }
    assert(known@[best as int] < procs@.len());
    Some(procs[known[best]].name.clone())
}

/// The name of an executable as a snapshot holds it: the units in front of the zero.
pub fn exe_name(raw: &[u16]) -> (r: String)
    ensures
        r@ == utf16::decoded(utf16::to_nul(raw@)),
{
    utf16::utf16_value(raw)
}

/// How many ticks of 100 ns lie between the start of the Windows epoch and of the Unix epoch.
pub const EPOCH_TICKS: u64 = 116_444_736_000_000_000;

/// When a process started, as seconds and nanoseconds since the Unix epoch, given the two halves
/// of the number of 100 ns ticks since the start of 1601; `None` for a time before the Unix epoch.
pub fn unix_time(high: u32, low: u32) -> (r: Option<(u64, u32)>)
    ensures
        ({
            let ticks = high * 0x1_0000_0000 + low - EPOCH_TICKS;
            match r {
                None => ticks < 0,
                Some((secs, nanos)) => ticks >= 0 && nanos < 1_000_000_000 && secs * 1_000_000_000
                    + nanos == ticks * 100,
            }
        }),
{
    let ticks: u64 = (high as u64) * 0x1_0000_0000 + low as u64;
    if ticks < EPOCH_TICKS {
        return None;
    }
    let unix: u64 = ticks - EPOCH_TICKS;
    Some((unix / 10_000_000, (unix % 10_000_000) as u32 * 100))
}

/// A waiting time in the milliseconds that Windows takes, one short of the number that means
/// forever.
pub fn wait_millis(millis: u128) -> (r: u32)
    ensures
        r == (if millis < u32::MAX {
            millis as int
        } else {
            u32::MAX - 1
        }),
{
    if millis < u32::MAX as u128 {
        millis as u32
    } else {
        u32::MAX - 1
    }
}

/// The lower-case form of a text by Unicode's rules.
pub uninterp spec fn lowercase(s: Seq<char>) -> Seq<char>;

/// `str::to_lowercase` gives the lower-case form of a text, which depends on the text alone. Of the
/// letters of ASCII that is the small letter, and the other characters of ASCII are kept.
#[verifier::external_body]
fn to_lowercase(s: &str) -> (r: String)
    ensures
        r@ == lowercase(s@),
        vstd::utf8::is_ascii_chars(s@) ==> r@ == text::lowered(s@),
{
    s.to_lowercase()
}

/// Whether a path in lower case names something inside a directory in lower case.
pub open spec fn inside(path: Seq<char>, dir: Seq<char>) -> bool {
    dir.len() > 0 && text::backslashed(dir).push('\\').is_prefix_of(text::backslashed(path))
}

/// A directory without the separators it ends in.
pub open spec fn bare_dir(dir: Seq<char>) -> Seq<char> {
    text::cut_end(dir, seq!['\\', '/'])
}

/// Whether a path names something inside a directory, whatever the case and the separators. Nothing
/// is inside a directory without a name.
pub open spec fn under(path: Seq<char>, dir: Seq<char>) -> bool {
    bare_dir(dir).len() > 0 && inside(lowercase(path), lowercase(bare_dir(dir)))
}

/// Whether a path in lower case names something inside a directory in lower case. It does only at
/// the boundary of a component, so `nermal-two` is not inside `nermal`.
pub fn is_inside(path: &[char], dir: &[char]) -> (r: bool)
    ensures
        r == inside(path@, dir@),
{
    if dir.len() == 0 {
        return false;
    }
    let path: Vec<char> = text::to_backslashes(path);
    let mut head: Vec<char> = text::to_backslashes(dir);
    head.push('\\');
    text::starts_with(path.as_slice(), head.as_slice())
}

/// Whether a path names something inside a directory, both of them ASCII, whatever the case and the
/// separators.
pub open spec fn plainly_under(path: Seq<char>, dir: Seq<char>) -> bool {
    bare_dir(dir).len() > 0 && inside(text::lowered(path), text::lowered(bare_dir(dir)))
}

/// Whether `path` names a file inside `dir`, the way the file system sees it.
pub fn path_is_under(path: &str, dir: &str) -> (r: bool)
    ensures
        r == under(path@, dir@),
        vstd::utf8::is_ascii_chars(path@) && vstd::utf8::is_ascii_chars(dir@) ==> r
            == plainly_under(path@, dir@),
{
    proof {
        lemma_bare_dir(dir@);
    }
    let seps: [char; 2] = ['\\', '/'];
    assert(seps@ =~= seq!['\\', '/']);
    let whole: Vec<char> = text::chars_of(dir);
    let name: &[char] = text::strip_end(whole.as_slice(), &seps);
    if name.len() == 0 {
        return false;
    }
    let bare: String = text::text_of(name);
    let low_path: Vec<char> = text::chars_of(to_lowercase(path).as_str());
    let low_dir: Vec<char> = text::chars_of(to_lowercase(bare.as_str()).as_str());
    is_inside(low_path.as_slice(), low_dir.as_slice())
}

/// The name of a directory is a beginning of what it is written as.
proof fn lemma_bare_dir(dir: Seq<char>)
    ensures
        bare_dir(dir).is_prefix_of(dir),
        vstd::utf8::is_ascii_chars(dir) ==> vstd::utf8::is_ascii_chars(bare_dir(dir)),
    decreases dir.len(),
{
    if dir.len() > 0 && seq!['\\', '/'].contains(dir.last()) {
        lemma_bare_dir(dir.drop_last());
    }
}

/// The case of ASCII letters says nothing about what is under what.
pub proof fn law_case_does_not_matter(
    path: Seq<char>,
    other_path: Seq<char>,
    dir: Seq<char>,
    other_dir: Seq<char>,
)
    requires
        text::same_letters(path, other_path),
        text::same_letters(dir, other_dir),
    ensures
        plainly_under(path, dir) == plainly_under(other_path, other_dir),
{
    lemma_bare_dirs_alike(dir, other_dir);
}

/// Directories that differ in case alone have names that differ in case alone.
proof fn lemma_bare_dirs_alike(a: Seq<char>, b: Seq<char>)
    requires
        text::same_letters(a, b),
    ensures
        text::same_letters(bare_dir(a), bare_dir(b)),
    decreases a.len(),
{
    assert(text::lowered(a).len() == text::lowered(b).len());
    if a.len() > 0 {
        assert(text::lowered(a)[a.len() - 1] == text::lowered(b)[b.len() - 1]);
        assert(text::lower(a.last()) == text::lower(b.last()));
        assert(text::lowered(a.drop_last()) =~= text::lowered(a).drop_last());
        assert(text::lowered(b.drop_last()) =~= text::lowered(b).drop_last());
        let seps = seq!['\\', '/'];
        assert(seps[0] == '\\' && seps[1] == '/');
        assert(seps.contains(a.last()) == (a.last() == '\\' || a.last() == '/'));
        assert(seps.contains(b.last()) == (b.last() == '\\' || b.last() == '/'));
        if seps.contains(a.last()) {
            lemma_bare_dirs_alike(a.drop_last(), b.drop_last());
        }
    }
}

/// What is inside a directory goes on behind it with a separator, so nothing is inside itself and
/// a longer name is not inside a shorter one.
pub proof fn law_inside_only_at_a_component_boundary(path: Seq<char>, dir: Seq<char>)
    requires
        inside(path, dir),
    ensures
        path.len() > dir.len(),
        path[dir.len() as int] == '\\' || path[dir.len() as int] == '/',
{
    let head = text::backslashed(dir).push('\\');
    assert(head[dir.len() as int] == text::backslashed(path)[dir.len() as int]);
}

/// A text without the `\\?\` that a resolved path may begin with.
pub open spec fn without_verbatim(s: Seq<char>) -> Seq<char> {
    if r"\\?\"@.is_prefix_of(s) {
        s.skip(4)
    } else {
        s
    }
}

/// Whether an image keeps the files of a directory from being replaced, which may also be known
/// by its resolved path.
pub open spec fn locks(image: Option<String>, dir: Seq<char>, resolved: Option<String>) -> bool {
    image matches Some(path) && (under(path@, dir) || (resolved matches Some(whole) && under(
        path@,
        without_verbatim(whole@),
    )))
}

/// The numbers, among the first `upto` processes, of those that run from a directory.
pub open spec fn running_from(
    procs: Seq<Proc>,
    images: Seq<Option<String>>,
    own: u32,
    dir: Seq<char>,
    resolved: Option<String>,
    upto: int,
) -> Seq<u32>
    decreases upto,
{
    if upto <= 0 {
        seq![]
    } else {
        let found = running_from(procs, images, own, dir, resolved, upto - 1);
        let pid = procs[upto - 1].pid;
        if pid != own && pid > 4 && locks(images[upto - 1], dir, resolved) {
            found.push(pid)
        } else {
            found
        }
    }
}

/// The processes other than the caller's own whose executable lives under `dir`, given the image
/// of each process, as far as it can be asked for, and what `dir` resolves to, if anything.
pub fn processes_running_from(
    procs: &[Proc],
    images: &[Option<String>],
    own: u32,
    dir: &str,
    resolved: &Option<String>,
) -> (r: Vec<u32>)
    requires
        procs@.len() == images@.len(),
    ensures
        r@ == running_from(procs@, images@, own, dir@, *resolved, procs@.len() as int),
{
    proof {
        reveal_strlit(r"\\?\");
    }
    let mark: Vec<char> = text::chars_of(r"\\?\");
    let mut plain: Option<String> = None;
    if let Some(path) = resolved {
        let whole: Vec<char> = text::chars_of(path.as_str());
        if text::starts_with(whole.as_slice(), mark.as_slice()) {
            let rest: &[char] = vstd::slice::slice_subrange(whole.as_slice(), 4, whole.len());
            assert(rest@ =~= path@.skip(4));
            plain = Some(text::text_of(rest));
        } else {
            plain = Some(text::text_of(whole.as_slice()));
        }
    }
    let mut out: Vec<u32> = Vec::new();
    let mut i: usize = 0;
    while i < procs.len()
        invariant
            i <= procs@.len(),
            procs@.len() == images@.len(),
            plain is Some <==> *resolved is Some,
            plain matches Some(path) ==> path@ == without_verbatim(resolved->0@),
            out@ == running_from(procs@, images@, own, dir@, *resolved, i as int),
        decreases procs@.len() - i,
    {
        let pid: u32 = procs[i].pid;
        if pid != own && pid > 4 {
            if let Some(image) = &images[i] {
                let mut found: bool = path_is_under(image.as_str(), dir);
                if !found {
                    if let Some(path) = &plain {
                        found = path_is_under(image.as_str(), path.as_str());
                    }
                }
                if found {
                    out.push(pid);
                }
            }
        }
        i += 1;
    }
    out
}

/// What to do next on the way to the end of some processes.
#[derive(Clone, Copy, Debug, PartialEq, Eq, Structural)]
pub enum ReapStep {
    /// End the process.
    Terminate(u32),
    /// Wait for the process to let go of its image, this many milliseconds at most.
    Wait(u32, u32),
    Done,
}

/// The end of some processes, each terminated and then each waited for, all within one deadline.
pub struct Reaper {
    pids: Vec<u32>,
    deadline: u128,
    taken: usize,
}

/// How long a wait may last at a moment, in milliseconds, when everything has to be over at
/// `deadline`. Both moments are in nanoseconds of one clock.
pub open spec fn patience(now: u128, deadline: u128) -> int {
    let millis = if now < deadline {
        (deadline - now) / 1_000_000
    } else {
        0
    };
    if millis < u32::MAX {
        millis
    } else {
        u32::MAX - 1
    }
}

/// The step that follows `taken` of them at a moment.
pub open spec fn reap_step(pids: Seq<u32>, deadline: u128, taken: int, now: u128) -> ReapStep {
    if taken < pids.len() {
        ReapStep::Terminate(pids[taken])
    } else if taken < 2 * pids.len() {
        ReapStep::Wait(pids[taken - pids.len()], patience(now, deadline) as u32)
    } else {
        ReapStep::Done
    }
}

impl Reaper {
    pub closed spec fn pids(self) -> Seq<u32> {
        self.pids@
    }

    pub closed spec fn deadline(self) -> u128 {
        self.deadline
    }

    pub closed spec fn taken(self) -> int {
        self.taken as int
    }

    /// No more steps are taken than there are.
    pub open spec fn wf(self) -> bool {
        0 <= self.taken() <= 2 * self.pids().len() && 2 * self.pids().len() <= usize::MAX
    }

    /// The next step, at a moment in nanoseconds of the clock of the deadline.
    pub fn next(&mut self, now: u128) -> (r: ReapStep)
        requires
            old(self).wf(),
        ensures
            final(self).wf(),
            final(self).pids() == old(self).pids(),
            final(self).deadline() == old(self).deadline(),
            r == reap_step(old(self).pids(), old(self).deadline(), old(self).taken(), now),
            final(self).taken() == old(self).taken() + (if r is Done {
                0int
            } else {
                1int
            }),
    {
        let count: usize = self.pids.len();
        if self.taken < count {
            let pid: u32 = self.pids[self.taken];
            self.taken = self.taken + 1;
            ReapStep::Terminate(pid)
        } else if self.taken < 2 * count {
            let pid: u32 = self.pids[self.taken - count];
            let left: u128 = if now < self.deadline {
                self.deadline - now
            } else {
                0
            };
            self.taken = self.taken + 1;
            ReapStep::Wait(pid, wait_millis(left / 1_000_000))
        } else {
            ReapStep::Done
        }
    }
}

/// Terminates every process in order and then waits for each, all within one `deadline`. Parents
/// come behind children where a parent could start one again.
pub fn terminate_and_wait_all(pids: &[u32], deadline: u128) -> (r: Reaper)
    requires
        2 * pids@.len() <= usize::MAX,
    ensures
        r.wf(),
        r.pids() == pids@,
        r.deadline() == deadline,
        r.taken() == 0,
{
    Reaper { pids: vstd::slice::slice_to_vec(pids), deadline, taken: 0 }
}

/// Ends every descendant of a process, the deepest first, within `timeout` from `now`; `None`
/// where that moment is past what the clock can show.
pub fn reap_descendants_of(procs: &[Proc], root: u32, now: u128, timeout: u128) -> (r: Option<
    Reaper,
>)
    requires
        2 * procs@.len() <= usize::MAX,
    ensures
        r is Some <==> now + timeout <= u128::MAX,
        r matches Some(reaper) ==> reaper.wf() && reaper.taken() == 0 && reaper.pids() == pids(
            procs@,
            deepest_first(procs@, root, procs@.len()),
        ) && reaper.deadline() == now + timeout,
{
    if timeout > u128::MAX - now {
        return None;
    }
    let list: Vec<u32> = descendants(procs, root);
    proof {
        lemma_as_many(procs@, root, procs@.len());
        law_a_descendant_is_listed_once(procs@, root, procs@.len());
        lemma_at_most_all(procs@, root, down_to(procs@, root, procs@.len()));
    }
    Some(terminate_and_wait_all(list.as_slice(), now + timeout))
}

/// Both orders list as many processes.
proof fn lemma_as_many(procs: Seq<Proc>, root: u32, depth: nat)
    ensures
        deepest_first(procs, root, depth).len() == down_to(procs, root, depth).len(),
    decreases depth,
{
    if depth > 0 {
        lemma_unfold(procs, root, depth);
        lemma_as_many(procs, root, (depth - 1) as nat);
    }
}

/// Every process is terminated before the first wait begins.
pub proof fn law_terminations_come_first(
    pids: Seq<u32>,
    deadline: u128,
    t1: int,
    now1: u128,
    t2: int,
    now2: u128,
)
    requires
        0 <= t1,
        0 <= t2,
        reap_step(pids, deadline, t1, now1) is Terminate,
        reap_step(pids, deadline, t2, now2) is Wait,
    ensures
        t1 < t2,
{
}

/// No wait lasts beyond the deadline.
pub proof fn law_a_wait_ends_by_the_deadline(
    pids: Seq<u32>,
    deadline: u128,
    taken: int,
    now: u128,
    pid: u32,
    millis: u32,
)
    requires
        0 <= taken,
        reap_step(pids, deadline, taken, now) == ReapStep::Wait(pid, millis),
    ensures
        millis > 0 ==> now + millis * 1_000_000 <= deadline,
{
}

/// Whether a wait found the process gone, given whether the process could be opened and what the
/// wait returned. One that cannot be opened leaves nothing to wait for.
pub fn wait_for_exit(opened: bool, result: u32) -> (r: bool)
    ensures
        r == (!opened || result == 0),
{
    !opened || result == 0
}

/// A path is under a directory if and only if it begins with it, whatever the case of the letters, the
/// kind of the slashes and the slashes at its end, and a slash comes next.
pub proof fn law_what_is_under_a_directory_begins_with_it(
    path: Seq<char>,
    dir: Seq<char>,
    tail: Seq<char>,
)
    requires
        dir.len() > 0,
        dir.last() != '\\',
        dir.last() != '/',
        forall|i: int| 0 <= i < tail.len() ==> #[trigger] tail[i] == '\\' || tail[i] == '/',
    ensures
        ({
            let n = dir.len() as int;
            plainly_under(path, dir + tail) <==> path.len() > n && (path[n] == '\\' || path[n]
                == '/') && text::same_letters(
                text::backslashed(path.take(n)),
                text::backslashed(dir),
            )
        }),
{
    let n = dir.len() as int;
    lemma_bare(dir, tail);
    assert(bare_dir(dir + tail) == dir);
    let low = text::lowered(dir);
    let whole = text::backslashed(text::lowered(path));
    let front = text::backslashed(low).push('\\');
    assert(text::backslashed(low) =~= text::lowered(text::backslashed(dir)));
    assert(whole =~= text::lowered(text::backslashed(path)));
    if plainly_under(path, dir + tail) {
        assert(front.is_prefix_of(whole));
        assert(front[n] == whole[n]);
        assert forall|i: int| 0 <= i < n implies text::lowered(text::backslashed(path.take(n)))[i]
            == text::lowered(text::backslashed(dir))[i] by {
            assert(front[i] == whole[i]);
        }
        assert(text::lowered(text::backslashed(path.take(n))) =~= text::lowered(
            text::backslashed(dir),
        ));
    }
    if path.len() > n && (path[n] == '\\' || path[n] == '/') && text::same_letters(
        text::backslashed(path.take(n)),
        text::backslashed(dir),
    ) {
        assert forall|i: int| 0 <= i < n + 1 implies front[i] == whole[i] by {
            if i < n {
                assert(text::lowered(text::backslashed(path.take(n)))[i] == text::lowered(
                    text::backslashed(dir),
                )[i]);
            }
        }
        assert(front =~= whole.take(n + 1));
        assert(front.is_prefix_of(whole));
    }
}

proof fn lemma_bare(dir: Seq<char>, tail: Seq<char>)
    requires
        dir.len() > 0,
        dir.last() != '\\',
        dir.last() != '/',
        forall|i: int| 0 <= i < tail.len() ==> #[trigger] tail[i] == '\\' || tail[i] == '/',
    ensures
        bare_dir(dir + tail) == dir,
    decreases tail.len(),
{
    let set = seq!['\\', '/'];
    let s = dir + tail;
    if tail.len() == 0 {
        assert(s =~= dir);
        if set.contains(dir.last()) {
            let k = choose|k: int| 0 <= k < set.len() && set[k] == dir.last();
            assert(k == 0 || k == 1);
        }
    } else {
        let less = tail.drop_last();
        assert forall|i: int| 0 <= i < less.len() implies #[trigger] less[i] == '\\' || less[i]
            == '/' by {
            assert(less[i] == tail[i]);
        }
        lemma_bare(dir, less);
        assert(s.last() == tail[tail.len() - 1]);
        assert(set[0] == '\\' && set[1] == '/');
        assert(set.contains(s.last()));
        assert(s.drop_last() =~= dir + less);
    }
}

/// Each process that runs from a directory is listed, but this one and those of the system, and no
/// other. What the directory leads to counts too, without the mark of a path that is taken as it
/// is.
pub proof fn law_who_runs_from_the_directory_is_listed(
    procs: Seq<Proc>,
    images: Seq<Option<String>>,
    own: u32,
    dir: Seq<char>,
    resolved: Option<String>,
    upto: int,
    k: int,
)
    requires
        0 <= k < upto <= procs.len(),
        procs.len() == images.len(),
    ensures
        ({
            let list = running_from(procs, images, own, dir, resolved, upto);
            let less = running_from(procs, images, own, dir, resolved, upto - 1);
            let runs = |i: int|
                images[i] is Some && (under(images[i]->0@, dir) || (resolved is Some && under(
                    images[i]->0@,
                    without_verbatim(resolved->0@),
                )));
            &&& procs[k].pid != own && procs[k].pid > 4 && runs(k) ==> list.contains(procs[k].pid)
            &&& procs[upto - 1].pid != own && procs[upto - 1].pid > 4 && runs(upto - 1) ==> list
                == less.push(procs[upto - 1].pid)
            &&& procs[upto - 1].pid == own || procs[upto - 1].pid <= 4 || !runs(upto - 1) ==> list
                == less
        }),
    decreases upto,
{
    if k < upto - 1 {
        law_who_runs_from_the_directory_is_listed(procs, images, own, dir, resolved, upto - 1, k);
        let list = running_from(procs, images, own, dir, resolved, upto);
        let less = running_from(procs, images, own, dir, resolved, upto - 1);
        if less.contains(procs[k].pid) {
            let i = choose|i: int| 0 <= i < less.len() && less[i] == procs[k].pid;
            assert(list[i] == less[i]);
        }
    } else {
        let list = running_from(procs, images, own, dir, resolved, upto);
        if list.len() > 0 {
            assert(list.contains(list[list.len() - 1]));
        }
    }
}

/// The mark of a path that is taken as it is comes off, and nothing else does.
pub proof fn law_the_verbatim_mark_comes_off(s: Seq<char>)
    ensures
        without_verbatim(seq!['\\', '\\', '?', '\\'] + s) == s,
        s.len() < 4 || s.take(4) != seq!['\\', '\\', '?', '\\'] ==> without_verbatim(s) == s,
{
    reveal_strlit(r"\\?\");
    let mark = r"\\?\"@;
    assert(mark =~= seq!['\\', '\\', '?', '\\']);
    let whole = seq!['\\', '\\', '?', '\\'] + s;
    assert(mark =~= whole.take(4));
    assert(mark.is_prefix_of(whole));
    assert(whole.skip(4) =~= s);
    if mark.is_prefix_of(s) {
        assert(s.take(4) =~= mark);
    }
}

/// First each process is ended, then each is waited for, in the same order, until the deadline and no
/// longer, and never without an end; then it is done.
pub proof fn law_each_process_is_ended_and_waited_for(
    pids: Seq<u32>,
    deadline: u128,
    i: int,
    now: u128,
)
    requires
        0 <= i < pids.len(),
    ensures
        reap_step(pids, deadline, i, now) == ReapStep::Terminate(pids[i]),
        reap_step(pids, deadline, 2 * pids.len() as int, now) is Done,
        reap_step(pids, deadline, pids.len() + i, now) matches ReapStep::Wait(pid, millis) && {
            &&& pid == pids[i]
            &&& millis < 0xFFFF_FFFF
            &&& now >= deadline ==> millis == 0
            &&& now < deadline && deadline - now < 0xFFFF_FFFF * 1_000_000 ==> millis * 1_000_000
                <= deadline - now < (millis + 1) * 1_000_000
            &&& now < deadline && deadline - now >= 0xFFFF_FFFF * 1_000_000 ==> millis
                == 0xFFFF_FFFE
        },
{
}

} // verus!
