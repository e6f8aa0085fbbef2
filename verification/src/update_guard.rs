//! The file that says that an installer is replacing the installation right now.
//!
//! It names its holder by the number of its process. A number is taken for the holder only while it
//! can be: the process lives, and it began before the file was written.

use vstd::prelude::*;

use crate::numbers;
use crate::offsets;
use crate::paths;
use crate::paths::Platform;
use crate::shells;
use crate::text;
use crate::text_laws;
use crate::winproc;
use crate::winproc::Proc;

verus! {

/// How long a holder whose beginning cannot be read may hold, in nanoseconds: ten minutes.
pub const GUARD_TTL: i128 = 600_000_000_000;

/// How much later than the file its holder may have begun, in nanoseconds: ten seconds. Some file
/// systems keep time no better than that.
pub const START_SLACK: i128 = 10_000_000_000;

/// Whether the process that a guard names holds it: `started` is when it began, `written` when the
/// guard was written. A holder that is known to be the writer holds for as long as it lives; one of
/// which that cannot be known holds for a limited time.
pub open spec fn is_held(alive: bool, started: Option<i128>, written: Option<i128>, now: i128) -> bool {
    alive && match (started, written) {
        (Some(s), Some(w)) => s <= w + START_SLACK,
        (None, Some(w)) => w <= now && now - w <= GUARD_TTL,
        _ => false,
    }
}

/// Whether the process that a guard names holds it. The moments are in nanoseconds of one clock.
pub fn writer_holds(alive: bool, started: Option<i128>, written: Option<i128>, now: i128) -> (r:
    bool)
    requires
        written matches Some(w) ==> -0x1000_0000_0000_0000_0000_0000_0000 < w
            < 0x1000_0000_0000_0000_0000_0000_0000,
        -0x1000_0000_0000_0000_0000_0000_0000 < now < 0x1000_0000_0000_0000_0000_0000_0000,
    ensures
        r == is_held(alive, started, written, now),
{
    if !alive {
        return false;
    }
    match (started, written) {
        (Some(s), Some(w)) => s <= w + START_SLACK,
        (None, Some(w)) => w <= now && now - w <= GUARD_TTL,
        _ => false,
    }
}

/// A writer that is known by its beginning holds whatever the time.
pub proof fn law_a_known_writer_holds_while_it_lives(
    started: i128,
    written: i128,
    now: i128,
    later: i128,
)
    requires
        is_held(true, Some(started), Some(written), now),
    ensures
        is_held(true, Some(started), Some(written), later),
{
}

/// A process that began after the guard was written has just the same number, and a process that
/// lives no more holds nothing.
pub proof fn law_a_recycled_number_holds_nothing(
    alive: bool,
    started: i128,
    written: i128,
    now: i128,
)
    requires
        !alive || started > written + START_SLACK,
    ensures
        !is_held(alive, Some(started), Some(written), now),
{
}

/// A holder of which nothing is known stops holding for good once its time is over.
pub proof fn law_an_unknown_holder_stops_holding(written: i128, now: i128, later: i128)
    requires
        written <= now <= later,
        !is_held(true, None, Some(written), now),
    ensures
        !is_held(true, None, Some(written), later),
{
}

/// Whether a process lives, given whether it could be opened and what a wait of no time returned.
pub fn process_alive(opened: bool, result: u32) -> (r: bool)
    ensures
        r == (opened && result != 0),
{
    !winproc::wait_for_exit(opened, result)
}

/// The number that the bytes of a guard name, if they are text and that is a number.
pub open spec fn named(contents: Seq<u8>) -> Option<u32> {
    if vstd::utf8::valid_utf8(contents) {
        numbers::unsigned(text::trimmed(vstd::utf8::decode_utf8(contents)))
    } else {
        None
    }
}

/// The number that a guard names.
pub fn guard_pid(contents: &[u8]) -> (r: Option<u32>)
    ensures
        r == named(contents@),
{
    match offsets::from_utf8(contents) {
        None => None,
        Some(s) => {
            let chars: Vec<char> = text::chars_of(s.as_str());
            numbers::parse_u32(text::trim(chars.as_slice()))
        },
    }
}

/// What a look at the guard came to.
#[derive(Clone, Copy, Debug, PartialEq, Eq, Structural)]
pub struct Look {
    /// An installation is running.
    pub held: bool,
    /// The guard is stale, and to be removed.
    pub stale: bool,
}

/// Whether an installation is running, given the bytes of the guard, if there is one, and of the
/// process it names whether it lives, when it began, and when the guard was written. A guard that
/// is not held, or that cannot be understood, be it text or not, is removed on sight.
pub fn held(
    contents: Option<&[u8]>,
    alive: bool,
    started: Option<i128>,
    written: Option<i128>,
    now: i128,
) -> (r: Look)
    requires
        written matches Some(w) ==> -0x1000_0000_0000_0000_0000_0000_0000 < w
            < 0x1000_0000_0000_0000_0000_0000_0000,
        -0x1000_0000_0000_0000_0000_0000_0000 < now < 0x1000_0000_0000_0000_0000_0000_0000,
    ensures
        match contents {
            None => !r.held && !r.stale,
            Some(s) => r.held == (named(s@) is Some && is_held(alive, started, written, now))
                && r.stale == !r.held,
        },
{
    match contents {
        None => Look { held: false, stale: false },
        Some(s) => {
            let held: bool = guard_pid(s).is_some() && writer_holds(alive, started, written, now);
            Look { held, stale: !held }
        },
    }
}

/// What is written into the guard for a process.
pub fn hold(pid: u32) -> (r: String)
    ensures
        r@ == numbers::decimal(pid as nat),
{
    numbers::decimal_text(pid as u64)
}

/// What is written into the guard is read back as the process it was written for.
pub proof fn law_a_guard_names_its_holder(pid: u32)
    ensures
        named(vstd::utf8::encode_utf8(numbers::decimal(pid as nat))) == Some(pid),
{
    let s = numbers::decimal(pid as nat);
    vstd::utf8::encode_utf8_valid_utf8(s);
    vstd::utf8::encode_utf8_decode_utf8(s);
    numbers::lemma_decimal(pid as nat);
    numbers::law_a_written_number_is_read_back(pid);
    assert(numbers::is_digit(s[0]));
    assert(numbers::is_digit(s[s.len() - 1]));
    assert(text::trimmed_start(s) == s);
    assert(text::trimmed_end(s) == s);
}

/// Where a process first stands in a list, or how many there are.
pub open spec fn first_at(procs: Seq<Proc>, pid: u32) -> int
    decreases procs.len(),
{
    if procs.len() == 0 || procs[0].pid == pid {
        0
    } else {
        1 + first_at(procs.skip(1), pid)
    }
}

/// The process that the guard is held for on behalf of the parent of a process: the parent, where
/// it is known and is no part of the system, and else the process itself.
pub open spec fn holder(procs: Seq<Proc>, own: u32) -> u32 {
    let at = first_at(procs, own);
    if 0 <= at < procs.len() && procs[at].parent > 4 {
        procs[at].parent
    } else {
        own
    }
}

/// What is written into the guard on behalf of the parent of a process, which lives as long as the
/// files are being replaced.
pub fn hold_for_parent(procs: &[Proc], own: u32) -> (r: String)
    ensures
        r@ == numbers::decimal(holder(procs@, own) as nat),
{
    let mut i: usize = 0;
    assert(procs@.skip(0) =~= procs@);
    while i < procs.len() && procs[i].pid != own
        invariant
            i <= procs@.len(),
            first_at(procs@, own) == i + first_at(procs@.skip(i as int), own),
        decreases procs@.len() - i,
    {
        assert(procs@.skip(i as int).skip(1) =~= procs@.skip(i + 1));
        assert(procs@.skip(i as int)[0] == procs@[i as int]);
        i += 1;
    }
    proof {
        if i < procs@.len() {
            assert(procs@.skip(i as int)[0] == procs@[i as int]);
        }
    }
    if i < procs.len() && procs[i].parent > 4 {
        hold(procs[i].parent)
    } else {
        hold(own)
    }
}

/// Where the guard is, given the directory of the configuration.
pub fn path(platform: Platform, config_dir: &Option<String>) -> (r: Option<String>)
    ensures
        shells::shown(r) == (match *config_dir {
            Some(dir) => Some(paths::inside(platform, dir@, "update.lock"@)),
            None => None,
        }),
{
    proof {
        reveal_strlit("update.lock");
    }
    match config_dir {
        Some(dir) => {
            let chars: Vec<char> = text::chars_of(dir.as_str());
            let name: Vec<char> = text::chars_of("update.lock");
            let whole: Vec<char> = paths::join(platform, chars.as_slice(), name.as_slice());
            Some(text::text_of(whole.as_slice()))
        },
        None => None,
    }
}

/// A holder whose beginning is known holds if it lives and began at most ten seconds after the guard
/// was written; one whose beginning is not known holds for ten minutes from then. Whoever is dead
/// holds nothing, and neither does anyone where it is not known when the guard was written.
pub proof fn law_a_guard_lasts_as_long_as_its_holder(
    alive: bool,
    started: Option<i128>,
    written: i128,
    now: i128,
)
    ensures
        !is_held(false, started, Some(written), now),
        !is_held(alive, started, None, now),
        started matches Some(s) ==> (is_held(true, started, Some(written), now) <==> s <= written
            + 10_000_000_000),
        is_held(true, None, Some(written), now) <==> written <= now <= written + 600_000_000_000,
{
}

/// Blanks around the number of the holder do not matter.
pub proof fn law_a_holder_is_named_between_blanks(left: Seq<char>, pid: u32, right: Seq<char>)
    requires
        forall|i: int| 0 <= i < left.len() ==> text::is_space(#[trigger] left[i]),
        forall|i: int| 0 <= i < right.len() ==> text::is_space(#[trigger] right[i]),
    ensures
        named(vstd::utf8::encode_utf8(left + numbers::decimal(pid as nat) + right)) == Some(pid),
{
    let n = numbers::decimal(pid as nat);
    let s = left + n + right;
    vstd::utf8::encode_utf8_valid_utf8(s);
    vstd::utf8::encode_utf8_decode_utf8(s);
    numbers::lemma_decimal(pid as nat);
    numbers::law_a_written_number_is_read_back(pid);
    assert(numbers::is_digit(n[0]));
    assert(numbers::is_digit(n[n.len() - 1]));
    text_laws::law_blanks_around_are_trimmed(left, n, right);
}

/// The guard is held for the process that started this one, unless that is one of the system, or
/// this one is not listed; then it is held for this one.
pub proof fn law_the_guard_is_held_for_the_parent(a: Seq<Proc>, one: Proc, b: Seq<Proc>, own: u32)
    requires
        forall|i: int| 0 <= i < a.len() ==> (#[trigger] a[i]).pid != own,
        one.pid == own,
    ensures
        one.parent > 4 ==> holder(a + seq![one] + b, own) == one.parent,
        one.parent <= 4 ==> holder(a + seq![one] + b, own) == own,
        holder(a, own) == own,
{
    lemma_first_at(a, one, b, own);
    assert((a + seq![one] + b)[a.len() as int] == one);
}

proof fn lemma_first_at(a: Seq<Proc>, one: Proc, b: Seq<Proc>, own: u32)
    requires
        forall|i: int| 0 <= i < a.len() ==> (#[trigger] a[i]).pid != own,
        one.pid == own,
    ensures
        first_at(a + seq![one] + b, own) == a.len(),
        first_at(a, own) == a.len(),
    decreases a.len(),
{
    let all = a + seq![one] + b;
    if a.len() > 0 {
        let rest = a.skip(1);
        assert forall|i: int| 0 <= i < rest.len() implies (#[trigger] rest[i]).pid != own by {
            assert(rest[i] == a[i + 1]);
        }
        lemma_first_at(rest, one, b, own);
        assert(all.skip(1) =~= rest + seq![one] + b);
        assert(all[0] == a[0]);
        assert(a[0].pid != own);
    } else {
        assert(all[0] == one);
    }
}

} // verus!
