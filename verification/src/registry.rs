//! Reading the Windows registry: what each answer of its interface means and what to ask next.

use vstd::prelude::*;

use crate::environment;
use crate::text;
use crate::utf16;
use crate::windows_env;
use crate::windows_env::RegistryVar;

verus! {

/// The call succeeded.
pub const ERROR_SUCCESS: u32 = 0;

/// A buffer was too small.
pub const ERROR_MORE_DATA: u32 = 234;

/// There is nothing left to enumerate.
pub const ERROR_NO_MORE_ITEMS: u32 = 259;

/// A string value.
pub const REG_SZ: u32 = 1;

/// A string value with `%Name%` references in it.
pub const REG_EXPAND_SZ: u32 = 2;

/// The longest name of a registry value, in units.
pub const MAX_NAME_UNITS: usize = 16384;

/// The longest registry value, in units.
pub const MAX_VALUE_UNITS: usize = 524288;

/// Twice a size, but no more than a limit.
pub open spec fn doubled(size: int, limit: int) -> int {
    if size * 2 <= limit {
        size * 2
    } else {
        limit
    }
}

/// A value of a key.
pub struct Value {
    pub kind: u32,
    pub name: Seq<u16>,
    pub data: Seq<u16>,
}

/// An answer to the question for a value: how the call ended, and the value where it succeeded.
pub struct Answer {
    pub status: u32,
    pub value: Value,
}

/// Whether a value is a string.
pub open spec fn is_string(value: Value) -> bool {
    value.kind == REG_SZ || value.kind == REG_EXPAND_SZ
}

/// The variable that a string value defines: its name, and its data up to the NUL.
pub open spec fn defined(value: Value) -> environment::Var {
    environment::Var {
        name: utf16::decoded(value.name),
        value: utf16::decoded(utf16::to_nul(value.data)),
        expandable: value.kind == REG_EXPAND_SZ,
    }
}

/// The variables that the string values among some values define, in their order.
pub open spec fn strings_of(values: Seq<Value>) -> Seq<environment::Var>
    decreases values.len(),
{
    if values.len() == 0 {
        seq![]
    } else if is_string(values.last()) {
        strings_of(values.drop_last()).push(defined(values.last()))
    } else {
        strings_of(values.drop_last())
    }
}

/// What an enumeration stands for.
#[verifier::ext_equal]
pub struct Reading {
    pub vars: Seq<environment::Var>,
    pub index: int,
    pub name_units: int,
    pub value_units: int,
}

/// An enumeration that has not begun.
pub open spec fn beginning() -> Reading {
    Reading { vars: seq![], index: 0, name_units: 256, value_units: 2048 }
}

/// Whether there is another question to ask after an answer: the call succeeded, or a buffer was
/// too small and can still grow.
pub open spec fn goes_on(reading: Reading, answer: Answer) -> bool {
    answer.status == ERROR_SUCCESS || (answer.status == ERROR_MORE_DATA && (reading.name_units
        < MAX_NAME_UNITS || reading.value_units < MAX_VALUE_UNITS))
}

/// An enumeration once it has an answer.
pub open spec fn taken(reading: Reading, answer: Answer) -> Reading {
    if answer.status == ERROR_SUCCESS {
        Reading {
            vars: if is_string(answer.value) {
                reading.vars.push(defined(answer.value))
            } else {
                reading.vars
            },
            index: reading.index + 1,
            ..reading
        }
    } else if goes_on(reading, answer) {
        Reading {
            name_units: doubled(reading.name_units, MAX_NAME_UNITS as int),
            value_units: doubled(reading.value_units, MAX_VALUE_UNITS as int),
            ..reading
        }
    } else {
        reading
    }
}

/// An enumeration once it has had all the answers, one after the other.
pub open spec fn read_all(answers: Seq<Answer>) -> Reading
    decreases answers.len(),
{
    if answers.len() == 0 {
        beginning()
    } else {
        taken(read_all(answers.drop_last()), answers.last())
    }
}

/// The values that the answers hold.
pub open spec fn given(answers: Seq<Answer>) -> Seq<Value>
    decreases answers.len(),
{
    if answers.len() == 0 {
        seq![]
    } else if answers.last().status == ERROR_SUCCESS {
        given(answers.drop_last()).push(answers.last().value)
    } else {
        given(answers.drop_last())
    }
}

/// Whatever the answers are, an enumeration holds exactly the string values they gave, in order,
/// each with its name, its data up to the NUL and its kind; and it asks next for the value behind
/// those that it was given.
pub proof fn law_the_strings_are_read_in_order(answers: Seq<Answer>)
    ensures
        read_all(answers).vars == strings_of(given(answers)),
        read_all(answers).index == given(answers).len(),
    decreases answers.len(),
{
    if answers.len() > 0 {
        let front = answers.drop_last();
        law_the_strings_are_read_in_order(front);
        if answers.last().status == ERROR_SUCCESS {
            assert(given(answers).drop_last() =~= given(front));
        }
    }
}

/// Whether the answers are those of a key: a call that succeeds gives the value at the index that
/// was asked for, and there is nothing left only behind the last one.
pub open spec fn answers_for(key: Seq<Value>, answers: Seq<Answer>) -> bool {
    forall|i: int|
        0 <= i < answers.len() ==> {
            let asked = read_all(answers.take(i)).index;
            &&& (#[trigger] answers[i]).status == ERROR_SUCCESS ==> asked < key.len()
                && answers[i].value == key[asked]
            &&& answers[i].status == ERROR_NO_MORE_ITEMS ==> asked >= key.len()
        }
}

/// A key is read whole: once nothing is left to enumerate, the enumeration holds the variables of
/// all its string values, in order, however often a buffer had to grow on the way.
pub proof fn law_a_key_is_read_whole(key: Seq<Value>, answers: Seq<Answer>)
    requires
        answers_for(key, answers),
        answers.len() > 0,
        answers.last().status == ERROR_NO_MORE_ITEMS,
    ensures
        read_all(answers).vars == strings_of(key),
        !goes_on(read_all(answers.drop_last()), answers.last()),
{
    let front = answers.drop_last();
    lemma_given_in_order(key, answers, front.len() as int);
    assert(answers.take(front.len() as int) =~= front);
    law_the_strings_are_read_in_order(front);
    assert(answers[answers.len() - 1].status == ERROR_NO_MORE_ITEMS);
    assert(given(front) =~= key);
}

/// What the first answers of a key hold are its first values.
proof fn lemma_given_in_order(key: Seq<Value>, answers: Seq<Answer>, n: int)
    requires
        answers_for(key, answers),
        0 <= n <= answers.len(),
    ensures
        given(answers.take(n)).len() <= key.len(),
        given(answers.take(n)) == key.take(given(answers.take(n)).len() as int),
    decreases n,
{
    if n > 0 {
        let front = answers.take(n - 1);
        lemma_given_in_order(key, answers, n - 1);
        law_the_strings_are_read_in_order(front);
        assert(answers.take(n).drop_last() =~= front);
        assert(answers.take(n).last() == answers[n - 1]);
        assert(given(answers.take(n)) =~= key.take(given(answers.take(n)).len() as int));
    } else {
        assert(answers.take(0) =~= Seq::<Answer>::empty());
        assert(key.take(0) =~= Seq::<Value>::empty());
    }
}

/// An enumeration of the string values under an environment key.
pub struct HiveReader {
    /// The values read so far.
    pub vars: Vec<RegistryVar>,
    /// The index to ask for next.
    pub index: u32,
    /// The size of the buffer for a name.
    pub name_units: usize,
    /// The size of the buffer for a value.
    pub value_units: usize,
}

impl View for HiveReader {
    type V = Reading;

    open spec fn view(&self) -> Reading {
        Reading {
            vars: windows_env::hive(self.vars@),
            index: self.index as int,
            name_units: self.name_units as int,
            value_units: self.value_units as int,
        }
    }
}

impl HiveReader {
    /// The buffers are not empty and within the registry's own limits.
    pub open spec fn wf(&self) -> bool {
        0 < self.name_units <= MAX_NAME_UNITS && 0 < self.value_units <= MAX_VALUE_UNITS
    }

    /// How far the buffers are from their limits.
    pub open spec fn room(&self) -> int {
        (MAX_NAME_UNITS - self.name_units) + (MAX_VALUE_UNITS - self.value_units)
    }

    /// An enumeration that has not begun.
    pub fn new() -> (r: HiveReader)
        ensures
            r.wf(),
            r@ == beginning(),
    {
        let r = HiveReader { vars: Vec::new(), index: 0, name_units: 256, value_units: 2048 };
        assert(r@.vars =~= seq![]);
        r
    }

    /// Takes the answer to the question for the value at the index, and says whether there is
    /// another question to ask.
    ///
    /// A value that is no string is passed over. Which of the two buffers was too small is not
    /// reliably reported, so both grow and the same index is asked for again. Anything else ends
    /// the enumeration with what was read so far.
    pub fn take(&mut self, status: u32, kind: u32, name: &[u16], value: &[u16]) -> (more: bool)
        requires
            old(self).wf(),
            old(self).index < u32::MAX,
        ensures
            final(self).wf(),
            ({
                let answer = Answer { status, value: Value { kind, name: name@, data: value@ } };
                final(self)@ == taken(old(self)@, answer) && more == goes_on(old(self)@, answer)
            }),
            more && status != ERROR_SUCCESS ==> final(self).room() < old(self).room(),
    {
        let ghost before = self@.vars;
        if status == ERROR_SUCCESS {
            if kind == REG_SZ || kind == REG_EXPAND_SZ {
                let label: Vec<char> = utf16::decode(name);
                self.vars.push(
                    RegistryVar {
                        name: text::text_of(label.as_slice()),
                        value: utf16::utf16_value(value),
                        expandable: kind == REG_EXPAND_SZ,
                    },
                );
                assert(self@.vars =~= before.push(
                    defined(Value { kind, name: name@, data: value@ }),
                ));
            }
            self.index = self.index + 1;
            true
        } else if status == ERROR_MORE_DATA && (self.name_units < MAX_NAME_UNITS || self.value_units
            < MAX_VALUE_UNITS) {
            self.name_units =
            if self.name_units * 2 <= MAX_NAME_UNITS {
                self.name_units * 2
            } else {
                MAX_NAME_UNITS
            };
            self.value_units =
            if self.value_units * 2 <= MAX_VALUE_UNITS {
                self.value_units * 2
            } else {
                MAX_VALUE_UNITS
            };
            true
        } else {
            false
        }
    }
}

/// How many units to make room for, given the answer to the question for a string's size in bytes;
/// `None` when there is no such string.
pub fn string_units(status: u32, bytes: u32) -> (r: Option<usize>)
    ensures
        r == (if status != ERROR_SUCCESS || bytes == 0 {
            None::<usize>
        } else {
            Some(((bytes + 1) / 2) as usize)
        }),
{
    if status != ERROR_SUCCESS || bytes == 0 {
        None
    } else {
        Some((bytes / 2 + bytes % 2) as usize)
    }
}

/// How an enumeration of subkeys goes on.
pub enum SubkeyStep {
    /// Ask for the next one.
    Next,
    /// The enumeration is over; the names are all there are, or `None` when that is not known.
    Done(Option<Vec<String>>),
}

/// Takes the answer to the question for one more subkey.
///
/// There is one honest way for the walk to end. Anything else leaves a list that is short by an
/// unknown amount, which nobody could tell from a complete one, so then there is no list at all.
pub fn take_subkey(names: Vec<String>, status: u32, units: &[u16]) -> (r: (
    Vec<String>,
    SubkeyStep,
))
    ensures
        status == ERROR_SUCCESS ==> r.1 is Next && text::strings(r.0@) == text::strings(
            names@,
        ).push(utf16::decoded(units@)),
        status == ERROR_NO_MORE_ITEMS ==> (r.1 matches SubkeyStep::Done(Some(all)) && all@ == names@),
        status != ERROR_SUCCESS && status != ERROR_NO_MORE_ITEMS ==> (r.1 matches SubkeyStep::Done(
            list,
        ) && list is None),
        status != ERROR_SUCCESS ==> r.0@.len() == 0,
{
    if status == ERROR_SUCCESS {
        let mut more: Vec<String> = names;
        let name: Vec<char> = utf16::decode(units);
        more.push(text::text_of(name.as_slice()));
        assert(text::strings(more@) =~= text::strings(names@).push(utf16::decoded(units@)));
        (more, SubkeyStep::Next)
    } else if status == ERROR_NO_MORE_ITEMS {
        (Vec::new(), SubkeyStep::Done(Some(names)))
    } else {
        (Vec::new(), SubkeyStep::Done(None))
    }
}

proof fn lemma_strings_sum(a: Seq<Value>, b: Seq<Value>)
    ensures
        strings_of(a + b) == strings_of(a) + strings_of(b),
    decreases b.len(),
{
    if b.len() == 0 {
        assert(a + b =~= a);
        assert(strings_of(a) + strings_of(b) =~= strings_of(a));
    } else {
        lemma_strings_sum(a, b.drop_last());
        assert((a + b).drop_last() =~= a + b.drop_last());
        assert(strings_of(a + b) =~= strings_of(a) + strings_of(b));
    }
}

/// Each text in a key is a variable, whatever is around it: its name, its value up to the first
/// zero, and whether references in it are to be resolved. Nothing else in the key is one.
pub proof fn law_each_text_is_a_variable(
    a: Seq<Value>,
    kind: u32,
    name: Seq<u16>,
    value: Seq<u16>,
    rest: Seq<u16>,
    b: Seq<Value>,
)
    requires
        !value.contains(0),
    ensures
        strings_of(a + seq![Value { kind, name, data: value + seq![0u16] + rest }] + b)
            == strings_of(a) + (if kind == 1 || kind == 2 {
            seq![
                environment::Var {
                    name: utf16::decoded(name),
                    value: utf16::decoded(value),
                    expandable: kind == 2,
                },
            ]
        } else {
            seq![]
        }) + strings_of(b),
        strings_of(a + seq![Value { kind, name, data: value }] + b) == strings_of(
            a + seq![Value { kind, name, data: value + seq![0u16] + rest }] + b,
        ),
{
    let ended = Value { kind, name, data: value + seq![0u16] + rest };
    let open = Value { kind, name, data: value };
    utf16::law_a_zero_ends_the_text(value, rest);
    lemma_strings_sum(a, seq![ended]);
    lemma_strings_sum(a + seq![ended], b);
    lemma_strings_sum(a, seq![open]);
    lemma_strings_sum(a + seq![open], b);
    reveal_with_fuel(strings_of, 2);
    assert(seq![ended].drop_last() =~= seq![]);
    assert(seq![open].drop_last() =~= seq![]);
    assert(strings_of(seq![ended]) =~= strings_of(seq![open]));
    let one = if kind == 1 || kind == 2 {
        seq![
            environment::Var {
                name: utf16::decoded(name),
                value: utf16::decoded(value),
                expandable: kind == 2,
            },
        ]
    } else {
        seq![]
    };
    assert(strings_of(seq![ended]) =~= one);
}

/// Where there is too little room it is doubled, up to what a name and a value can be, and the same
/// value is asked for again; where there is no more room to be had, and at any other answer but a
/// value, the reading ends with what it has.
pub proof fn law_there_is_room_in_the_end(reading: Reading, answer: Answer)
    requires
        0 < reading.name_units <= 16384,
        0 < reading.value_units <= 524288,
    ensures
        answer.status == 234 ==> {
            let next = taken(reading, answer);
            &&& goes_on(reading, answer) <==> reading.name_units < 16384 || reading.value_units
                < 524288
            &&& next.vars == reading.vars
            &&& next.index == reading.index
            &&& reading.name_units <= 8192 ==> next.name_units == 2 * reading.name_units
            &&& reading.name_units >= 8192 ==> next.name_units == 16384
            &&& reading.value_units <= 262144 ==> next.value_units == 2 * reading.value_units
            &&& reading.value_units >= 262144 ==> next.value_units == 524288
        },
        answer.status == 0 ==> goes_on(reading, answer) && taken(reading, answer).index
            == reading.index + 1 && taken(reading, answer).name_units == reading.name_units
            && taken(reading, answer).value_units == reading.value_units,
        answer.status != 0 && answer.status != 234 ==> !goes_on(reading, answer) && taken(
            reading,
            answer,
        ) == reading,
{
}

} // verus!
