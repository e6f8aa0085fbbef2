//! A block of environment variables whose names ignore case, kept in the order of the names.

use vstd::prelude::*;

use crate::text;

verus! {

/// What an environment variable is.
#[verifier::ext_equal]
pub struct Var {
    /// The name as its source spells it.
    pub name: Seq<char>,
    /// The value.
    pub value: Seq<char>,
    /// Whether `%Name%` references in the value are to be resolved.
    pub expandable: bool,
}

/// Whether `a` comes before `b` in the order of their code points.
pub open spec fn before(a: Seq<char>, b: Seq<char>) -> bool
    decreases a.len(),
{
    if b.len() == 0 {
        false
    } else if a.len() == 0 {
        true
    } else if a[0] != b[0] {
        a[0] < b[0]
    } else {
        before(a.skip(1), b.skip(1))
    }
}

/// Nothing comes before itself, and of two different texts exactly one comes first.
pub proof fn lemma_before_total(a: Seq<char>, b: Seq<char>)
    ensures
        a == b ==> !before(a, b),
        before(a, b) ==> !before(b, a),
        a != b ==> before(a, b) || before(b, a),
    decreases a.len(),
{
    if a.len() > 0 && b.len() > 0 {
        lemma_before_total(a.skip(1), b.skip(1));
        if a[0] == b[0] && a.skip(1) == b.skip(1) {
            assert(a =~= b) by {
                assert forall|i: int| 0 <= i < a.len() implies a[i] == b[i] by {
                    if i > 0 {
                        assert(a.skip(1)[i - 1] == b.skip(1)[i - 1]);
                    }
                }
                assert(a.skip(1).len() == b.skip(1).len());
            }
        }
    } else if a.len() == 0 && b.len() == 0 {
        assert(a =~= b);
    }
}

/// The order carries over.
pub proof fn lemma_before_transitive(a: Seq<char>, b: Seq<char>, c: Seq<char>)
    requires
        before(a, b),
        before(b, c),
    ensures
        before(a, c),
    decreases a.len(),
{
    if a.len() > 0 && a[0] == b[0] && b[0] == c[0] {
        lemma_before_transitive(a.skip(1), b.skip(1), c.skip(1));
    }
}

/// One variable of a block.
pub struct Slot {
    /// The name in lower case, by which the variable is found.
    pub key: Vec<char>,
    /// The name as its source spells it.
    pub name: Vec<char>,
    /// The value.
    pub value: Vec<char>,
    /// Whether `%Name%` references in the value are to be resolved.
    pub expandable: bool,
}

impl View for Slot {
    type V = Var;

    open spec fn view(&self) -> Var {
        Var { name: self.name@, value: self.value@, expandable: self.expandable }
    }
}

/// A block of variables, at most one of each name.
pub struct Environment {
    /// The variables, in the order of their keys.
    pub slots: Vec<Slot>,
}

impl Environment {
    /// The variables are found by their lower-case names and stand in that order.
    pub open spec fn wf(&self) -> bool {
        &&& forall|i: int|
            0 <= i < self.slots@.len() ==> #[trigger] self.slots@[i].key@ == text::lowered(
                self.slots@[i].name@,
            )
        &&& forall|i: int, j: int|
            0 <= i < j < self.slots@.len() ==> before(
                #[trigger] self.slots@[i].key@,
                #[trigger] self.slots@[j].key@,
            )
    }

    /// Whether the variable at `i` has the lower-case name `key`.
    pub open spec fn sits(&self, key: Seq<char>, i: int) -> bool {
        0 <= i < self.slots@.len() && self.slots@[i].key@ == key
    }
}

impl View for Environment {
    type V = Map<Seq<char>, Var>;

    open spec fn view(&self) -> Map<Seq<char>, Var> {
        Map::new(
            |key: Seq<char>| exists|i: int| self.sits(key, i),
            |key: Seq<char>| self.slots@[choose|i: int| self.sits(key, i)]@,
        )
    }
}

/// What sits in a block is found under its key.
pub proof fn lemma_sits(env: &Environment, key: Seq<char>, i: int)
    requires
        env.wf(),
        env.sits(key, i),
    ensures
        env@.contains_key(key),
        env@[key] == env.slots@[i]@,
{
    let j = choose|j: int| env.sits(key, j);
    assert(env.sits(key, j));
    lemma_before_total(key, key);
    if i < j {
        assert(before(env.slots@[i].key@, env.slots@[j].key@));
    } else if j < i {
        assert(before(env.slots@[j].key@, env.slots@[i].key@));
    }
}

/// A block that agrees with `m` slot by slot, and lists every key of it, is `m`.
pub proof fn lemma_is_map(env: &Environment, m: Map<Seq<char>, Var>)
    requires
        env.wf(),
        forall|i: int|
            0 <= i < env.slots@.len() ==> m.contains_key(#[trigger] env.slots@[i].key@)
                && m[env.slots@[i].key@] == env.slots@[i]@,
        forall|key: Seq<char>| #[trigger] m.contains_key(key) ==> exists|i: int| env.sits(key, i),
    ensures
        env@ == m,
{
    assert forall|key: Seq<char>| env@.contains_key(key) == m.contains_key(key) && (m.contains_key(
        key,
    ) ==> env@[key] == m[key]) by {
        if env@.contains_key(key) {
            let i = choose|i: int| env.sits(key, i);
            assert(env.sits(key, i));
            lemma_sits(env, key, i);
            assert(m.contains_key(env.slots@[i].key@));
        }
    }
    assert(env@ =~= m);
}

/// Whether `a` comes before `b` in the order of their code points.
pub fn is_before(a: &[char], b: &[char]) -> (r: bool)
    ensures
        r == before(a@, b@),
{
    let mut i: usize = 0;
    assert(a@.skip(0) =~= a@);
    assert(b@.skip(0) =~= b@);
    while i < a.len() && i < b.len()
        invariant
            i <= a@.len(),
            i <= b@.len(),
            before(a@, b@) == before(a@.skip(i as int), b@.skip(i as int)),
        decreases a@.len() - i,
    {
        assert(a@.skip(i as int).skip(1) =~= a@.skip(i + 1));
        assert(b@.skip(i as int).skip(1) =~= b@.skip(i + 1));
        if a[i] != b[i] {
            return a[i] < b[i];
        }
        i += 1;
    }
    i < b.len()
}

impl Environment {
    /// A block without variables.
    pub fn new() -> (r: Environment)
        ensures
            r.wf(),
            r@ == Map::<Seq<char>, Var>::empty(),
    {
        let r: Environment = Environment { slots: Vec::new() };
        proof {
            lemma_is_map(&r, Map::empty());
        }
        r
    }

    /// The position of the first variable whose key does not come before `key`.
    fn position(&self, key: &[char]) -> (r: usize)
        requires
            self.wf(),
        ensures
            r <= self.slots@.len(),
            forall|i: int| 0 <= i < r ==> before(#[trigger] self.slots@[i].key@, key@),
            forall|i: int| r <= i < self.slots@.len() ==> !before(#[trigger] self.slots@[i].key@, key@),
    {
        let mut i: usize = 0;
        while i < self.slots.len() && is_before(self.slots[i].key.as_slice(), key)
            invariant
                i <= self.slots@.len(),
                forall|j: int| 0 <= j < i ==> before(#[trigger] self.slots@[j].key@, key@),
            decreases self.slots@.len() - i,
        {
            i += 1;
        }
        proof {
            assert forall|j: int| i <= j < self.slots@.len() implies !before(
                #[trigger] self.slots@[j].key@,
                key@,
            ) by {
                if i < j && before(self.slots@[j].key@, key@) {
                    assert(before(self.slots@[i as int].key@, self.slots@[j].key@));
                    lemma_before_transitive(self.slots@[i as int].key@, self.slots@[j].key@, key@);
                }
            }
        }
        i
    }

    /// The variable of a lower-case name.
    pub fn get(&self, key: &[char]) -> (r: Option<&Slot>)
        requires
            self.wf(),
        ensures
            r is Some <==> self@.contains_key(key@),
            r matches Some(slot) ==> slot@ == self@[key@],
    {
        let i: usize = self.position(key);
        if i < self.slots.len() && text::same(self.slots[i].key.as_slice(), key) {
            proof {
                assert(self.sits(key@, i as int));
                lemma_sits(self, key@, i as int);
            }
            Some(&self.slots[i])
        } else {
            proof {
                if self@.contains_key(key@) {
                    let j = choose|j: int| self.sits(key@, j);
                    assert(self.sits(key@, j));
                    lemma_before_total(key@, key@);
                    if j < i {
                        assert(before(self.slots@[j].key@, key@));
                    } else {
                        assert(!before(self.slots@[i as int].key@, key@));
                        if i < j {
                            assert(before(self.slots@[i as int].key@, self.slots@[j].key@));
                        }
                    }
                }
            }
            None
        }
    }

    /// Puts a variable into the block. The newer source wins both the value and the spelling.
    pub fn insert(&mut self, name: &[char], value: Vec<char>, expandable: bool)
        requires
            old(self).wf(),
        ensures
            final(self).wf(),
            final(self)@ == old(self)@.insert(
                text::lowered(name@),
                (Var { name: name@, value: value@, expandable }),
            ),
    {
        let key: Vec<char> = text::to_lowered(name);
        let i: usize = self.position(key.as_slice());
        let ghost before_slots = self.slots@;
        let ghost m = self@.insert(key@, Var { name: name@, value: value@, expandable });
        let found: bool = i < self.slots.len() && text::same(
            self.slots[i].key.as_slice(),
            key.as_slice(),
        );
        let ghost key_view = key@;
        let slot: Slot = Slot { key, name: vstd::slice::slice_to_vec(name), value, expandable };
        let ghost slot_view = slot@;
        if found {
            self.slots.set(i, slot);
        } else {
            self.slots.insert(i, slot);
        }
        proof {
            let now = self.slots@;
            let shift: int = if found { 0 } else { 1 };
            assert forall|j: int| 0 <= j < now.len() implies #[trigger] now[j] == (if j < i {
                before_slots[j]
            } else if j == i {
                slot
            } else {
                before_slots[j - shift]
            }) by {}
            assert forall|j: int| i + 1 - shift <= j < before_slots.len() implies before(
                key_view,
                #[trigger] before_slots[j].key@,
            ) by {
                assert(!before(before_slots[j].key@, key_view));
                lemma_before_total(key_view, before_slots[j].key@);
                if found {
                    assert(before(before_slots[i as int].key@, before_slots[j].key@));
                } else {
                    if before_slots[j].key@ == key_view {
                        if i < j {
                            assert(before(before_slots[i as int].key@, before_slots[j].key@));
                            assert(!before(before_slots[i as int].key@, key_view));
                        }
                    }
                }
            }
            assert forall|j: int, k: int| 0 <= j < k < now.len() implies before(
                #[trigger] now[j].key@,
                #[trigger] now[k].key@,
            ) by {
                assert(now[j] == now[j] && now[k] == now[k]);
                if j < i && k == i {
                    assert(before(before_slots[j].key@, key_view));
                }
            }
            assert(self.wf());
            assert forall|j: int| 0 <= j < now.len() implies m.contains_key(#[trigger] now[j].key@)
                && m[now[j].key@] == now[j]@ by {
                if j != i {
                    let o = if j < i { j } else { j - shift };
                    assert(old(self).sits(before_slots[o].key@, o));
                    lemma_sits(old(self), before_slots[o].key@, o);
                    lemma_before_total(key_view, key_view);
                    if j < i {
                        assert(before(before_slots[o].key@, key_view));
                    } else {
                        assert(before(key_view, before_slots[o].key@));
                    }
                }
            }
            assert forall|k: Seq<char>| #[trigger] m.contains_key(k) implies exists|j: int|
                self.sits(k, j) by {
                if k == key_view {
                    assert(self.sits(k, i as int));
                } else {
                    let o = choose|o: int| old(self).sits(k, o);
                    assert(old(self).sits(k, o));
                    let j = if o < i { o } else { o + shift };
                    assert(self.sits(k, j));
                }
            }
            lemma_is_map(self, m);
        }
    }
}

/// Names are ordered as in a dictionary: by the first character in which they differ, and a name
/// before those that begin with it.
pub proof fn law_names_are_ordered_as_in_a_dictionary(
    front: Seq<char>,
    x: char,
    y: char,
    a: Seq<char>,
    b: Seq<char>,
)
    ensures
        x != y ==> (before(front + seq![x] + a, front + seq![y] + b) <==> x < y),
        before(front, front + seq![x] + a),
        !before(front + seq![x] + a, front),
        !before(front, front),
    decreases front.len(),
{
    let p = front + seq![x] + a;
    let q = front + seq![y] + b;
    if front.len() == 0 {
        assert(p[0] == x && q[0] == y);
    } else {
        let rest = front.skip(1);
        law_names_are_ordered_as_in_a_dictionary(rest, x, y, a, b);
        assert(p[0] == front[0] && q[0] == front[0]);
        assert(p.skip(1) =~= rest + seq![x] + a);
        assert(q.skip(1) =~= rest + seq![y] + b);
    }
}

} // verus!
