//! Starting the daemon on Windows: the command line of the new process and when it needs another
//! parent.

use vstd::prelude::*;

verus! {

/// The unit of a double quote.
pub const QUOTE: u16 = 34;

/// The unit of a backslash.
pub const BACKSLASH: u16 = 92;

/// The unit of a space.
pub const SPACE: u16 = 32;

/// The unit of a tab.
pub const TAB: u16 = 9;

/// A run of backslashes.
pub open spec fn backslashes(n: nat) -> Seq<u16> {
    Seq::new(n, |i: int| BACKSLASH)
}

/// What stands between the quotes for an argument of which a run of `run` backslashes is still to
/// be written: a run before a quote, or at the end, is doubled, and a quote gets one more.
pub open spec fn escaped(arg: Seq<u16>, run: nat) -> Seq<u16>
    decreases arg.len(),
{
    if arg.len() == 0 {
        backslashes(2 * run)
    } else if arg[0] == BACKSLASH {
        escaped(arg.skip(1), run + 1)
    } else if arg[0] == QUOTE {
        backslashes(2 * run + 1) + seq![QUOTE] + escaped(arg.skip(1), 0)
    } else {
        backslashes(run) + seq![arg[0]] + escaped(arg.skip(1), 0)
    }
}

/// An argument as it stands in a command line.
pub open spec fn quoted(arg: Seq<u16>) -> Seq<u16> {
    seq![QUOTE] + escaped(arg, 0) + seq![QUOTE]
}

/// The arguments behind the program, each after a space.
pub open spec fn quoted_all(args: Seq<Seq<u16>>) -> Seq<u16>
    decreases args.len(),
{
    if args.len() == 0 {
        seq![]
    } else {
        quoted_all(args.drop_last()) + seq![SPACE] + quoted(args.last())
    }
}

/// A command line without its terminating zero.
pub open spec fn line_of(program: Seq<u16>, args: Seq<Seq<u16>>) -> Seq<u16> {
    quoted(program) + quoted_all(args)
}

/// What each of some unit vectors holds.
pub open spec fn unit_views(list: Seq<Vec<u16>>) -> Seq<Seq<u16>> {
    Seq::new(list.len(), |i: int| list[i]@)
}

/// How the Windows C runtime reads one argument off a command line: the argument, and what is
/// left behind the blank that ends it.
///
/// `inside` tells whether a quote is open, `run` counts the backslashes just read, and `arg` is
/// what was read before them. Backslashes are themselves unless a quote follows them; then each
/// two are one backslash, and an odd one makes the quote a character of the argument.
pub open spec fn crt_arg(line: Seq<u16>, inside: bool, run: nat, arg: Seq<u16>) -> (
    Seq<u16>,
    Seq<u16>,
)
    decreases line.len(),
{
    if line.len() == 0 {
        (arg + backslashes(run), seq![])
    } else if line[0] == BACKSLASH {
        crt_arg(line.skip(1), inside, run + 1, arg)
    } else if line[0] == QUOTE && run % 2 == 0 {
        crt_arg(line.skip(1), !inside, 0, arg + backslashes(run / 2))
    } else if line[0] == QUOTE {
        crt_arg(line.skip(1), inside, 0, arg + backslashes(run / 2) + seq![QUOTE])
    } else if (line[0] == SPACE || line[0] == TAB) && !inside {
        (arg + backslashes(run), line.skip(1))
    } else {
        crt_arg(line.skip(1), inside, 0, arg + backslashes(run) + seq![line[0]])
    }
}

/// The arguments that the Windows C runtime reads off a command line.
pub open spec fn crt_args(line: Seq<u16>) -> Seq<Seq<u16>>
    decreases line.len(),
{
    if line.len() == 0 {
        seq![]
    } else if line[0] == SPACE || line[0] == TAB {
        crt_args(line.skip(1))
    } else {
        let (arg, rest) = crt_arg(line, false, 0, seq![]);
        if rest.len() < line.len() {
            seq![arg] + crt_args(rest)
        } else {
            seq![arg]
        }
    }
}

/// A run of backslashes is counted.
proof fn lemma_run(n: nat, rest: Seq<u16>, inside: bool, run: nat, arg: Seq<u16>)
    ensures
        crt_arg(backslashes(n) + rest, inside, run, arg) == crt_arg(rest, inside, run + n, arg),
    decreases n,
{
    if n == 0 {
        assert(backslashes(0) + rest =~= rest);
    } else {
        let line = backslashes(n) + rest;
        assert(line.skip(1) =~= backslashes((n - 1) as nat) + rest);
        lemma_run((n - 1) as nat, rest, inside, run + 1, arg);
    }
}

/// Reading what stands between the quotes, and the closing quote, gives the argument.
proof fn lemma_escaped(text: Seq<u16>, run: nat, arg: Seq<u16>, rest: Seq<u16>)
    ensures
        crt_arg(escaped(text, run) + seq![QUOTE] + rest, true, 0, arg) == crt_arg(
            rest,
            false,
            0,
            arg + backslashes(run) + text,
        ),
    decreases text.len(),
{
    let line = escaped(text, run) + seq![QUOTE] + rest;
    if text.len() == 0 {
        let tail = seq![QUOTE] + rest;
        assert(line =~= backslashes(2 * run) + tail);
        lemma_run(2 * run, tail, true, 0, arg);
        assert(tail.skip(1) =~= rest);
        assert(arg + backslashes(run) + text =~= arg + backslashes(run));
        assert((2 * run) / 2 == run);
    } else if text[0] == BACKSLASH {
        lemma_escaped(text.skip(1), run + 1, arg, rest);
        assert(arg + backslashes(run) + text =~= arg + backslashes(run + 1) + text.skip(1));
    } else if text[0] == QUOTE {
        let after = escaped(text.skip(1), 0) + seq![QUOTE] + rest;
        let tail = seq![QUOTE] + after;
        assert(line =~= backslashes(2 * run + 1) + tail);
        lemma_run(2 * run + 1, tail, true, 0, arg);
        assert(tail.skip(1) =~= after);
        assert((2 * run + 1) / 2 == run);
        let done = arg + backslashes(run) + seq![QUOTE];
        lemma_escaped(text.skip(1), 0, done, rest);
        assert(done + backslashes(0) + text.skip(1) =~= arg + backslashes(run) + text);
    } else {
        let after = escaped(text.skip(1), 0) + seq![QUOTE] + rest;
        let tail = seq![text[0]] + after;
        assert(line =~= backslashes(run) + tail);
        lemma_run(run, tail, true, 0, arg);
        assert(tail.skip(1) =~= after);
        let done = arg + backslashes(run) + seq![text[0]];
        lemma_escaped(text.skip(1), 0, done, rest);
        assert(done + backslashes(0) + text.skip(1) =~= arg + backslashes(run) + text);
    }
}

/// A quoted argument is read back as it was, and nothing behind it is taken along.
pub proof fn law_a_quoted_argument_is_read_back(arg: Seq<u16>, rest: Seq<u16>)
    requires
        rest.len() == 0 || rest[0] == SPACE,
    ensures
        crt_arg(quoted(arg) + rest, false, 0, seq![]) == (
            arg,
            if rest.len() == 0 {
                Seq::<u16>::empty()
            } else {
                rest.skip(1)
            },
        ),
{
    let none = Seq::<u16>::empty();
    let line = quoted(arg) + rest;
    let body = escaped(arg, 0) + seq![QUOTE] + rest;
    assert(line =~= seq![QUOTE] + body);
    assert(line.skip(1) =~= body);
    assert(none + backslashes(0) =~= none);
    lemma_escaped(arg, 0, none, rest);
    assert(none + backslashes(0) + arg =~= arg);
    assert(arg + backslashes(0) =~= arg);
}

/// The arguments of a command line that starts with a space are read back.
proof fn lemma_all_read_back(args: Seq<Seq<u16>>, from: int)
    requires
        0 <= from <= args.len(),
    ensures
        crt_args(quoted_all(args.skip(from))) == args.skip(from),
        args.skip(from).len() > 0 ==> quoted_all(args.skip(from))[0] == SPACE,
        args.skip(from).len() == 0 ==> quoted_all(args.skip(from)).len() == 0,
    decreases args.len() - from,
{
    let list = args.skip(from);
    if from < args.len() {
        lemma_all_read_back(args, from + 1);
        let others = args.skip(from + 1);
        lemma_quoted_front(list);
        assert(list.skip(1) =~= others);
        let rest = quoted_all(others);
        let line = quoted(list[0]) + rest;
        assert(quoted_all(list) =~= seq![SPACE] + line);
        assert(quoted_all(list).skip(1) =~= line);
        assert(line[0] == QUOTE);
        law_a_quoted_argument_is_read_back(list[0], rest);
        if others.len() > 0 {
            assert(crt_args(rest) == crt_args(rest.skip(1)));
        }
        assert(crt_args(line) =~= seq![list[0]] + others);
        assert(list =~= seq![list[0]] + others);
    } else {
        assert(list =~= Seq::<Seq<u16>>::empty());
    }
}

/// The first argument can be written first.
proof fn lemma_quoted_front(args: Seq<Seq<u16>>)
    requires
        args.len() > 0,
    ensures
        quoted_all(args) == seq![SPACE] + quoted(args[0]) + quoted_all(args.skip(1)),
    decreases args.len(),
{
    if args.len() == 1 {
        assert(args.drop_last() =~= Seq::<Seq<u16>>::empty());
        assert(args.skip(1) =~= Seq::<Seq<u16>>::empty());
        assert(quoted_all(args) =~= seq![SPACE] + quoted(args[0]) + quoted_all(args.skip(1)));
    } else {
        lemma_quoted_front(args.drop_last());
        assert(args.drop_last().skip(1) =~= args.skip(1).drop_last());
        assert(args.skip(1).last() == args.last());
        assert(quoted_all(args) =~= seq![SPACE] + quoted(args[0]) + quoted_all(args.skip(1)));
    }
}

/// A command line is read back as the program and the arguments it was made of, whatever blanks,
/// quotes and backslashes they hold: none is lost, split or merged with the next.
pub proof fn law_a_command_line_is_read_back(program: Seq<u16>, args: Seq<Seq<u16>>)
    ensures
        crt_args(line_of(program, args)) == seq![program] + args,
{
    let rest = quoted_all(args);
    assert(args.skip(0) =~= args);
    lemma_all_read_back(args, 0);
    law_a_quoted_argument_is_read_back(program, rest);
    let line = line_of(program, args);
    assert(line[0] == QUOTE);
    if args.len() > 0 {
        assert(crt_args(rest) == crt_args(rest.skip(1)));
    }
    assert(crt_args(line) =~= seq![program] + args);
}

/// What has no quote in it and does not end in a backslash needs no escaping.
proof fn lemma_plain(arg: Seq<u16>, run: nat)
    requires
        !arg.contains(QUOTE),
        arg.len() > 0 ==> arg.last() != BACKSLASH,
        arg.len() == 0 ==> run == 0,
    ensures
        escaped(arg, run) == backslashes(run) + arg,
    decreases arg.len(),
{
    if arg.len() > 0 {
        let rest = arg.skip(1);
        assert(arg.contains(arg[0]));
        assert forall|u: u16| rest.contains(u) implies arg.contains(u) by {
            let k = choose|k: int| 0 <= k < rest.len() && rest[k] == u;
            assert(arg[k + 1] == u);
        }
        if rest.len() > 0 {
            assert(rest.last() == arg.last());
        }
        if arg[0] == BACKSLASH {
            lemma_plain(rest, run + 1);
            assert(backslashes(run + 1) + rest =~= backslashes(run) + arg);
        } else {
            lemma_plain(rest, 0);
            assert(backslashes(run) + seq![arg[0]] + (backslashes(0) + rest) =~= backslashes(run)
                + arg);
        }
    }
    assert(escaped(arg, run) =~= backslashes(run) + arg);
}

/// What has no quote in it and does not end in a backslash, such as the path of a program, is only
/// put between quotes.
pub proof fn law_a_plain_argument_is_quoted_verbatim(arg: Seq<u16>)
    requires
        !arg.contains(QUOTE),
        arg.len() > 0 ==> arg.last() != BACKSLASH,
    ensures
        quoted(arg) == seq![QUOTE] + arg + seq![QUOTE],
{
    lemma_plain(arg, 0);
    assert(escaped(arg, 0) =~= arg);
}

/// Appends a run of backslashes.
fn push_run(line: &mut Vec<u16>, n: usize)
    ensures
        final(line)@ == old(line)@ + backslashes(n as nat),
{
    let mut i: usize = 0;
    assert(line@ =~= old(line)@ + backslashes(0));
    while i < n
        invariant
            i <= n,
            line@ == old(line)@ + backslashes(i as nat),
        decreases n - i,
    {
        line.push(BACKSLASH);
        i += 1;
        assert(line@ =~= old(line)@ + backslashes(i as nat));
    }
}

/// Appends one argument by the quoting rules of the Windows C runtime.
pub fn push_quoted_arg(command_line: &mut Vec<u16>, arg: &[u16])
    ensures
        final(command_line)@ == old(command_line)@ + quoted(arg@),
{
    command_line.push(QUOTE);
    let ghost open = old(command_line)@ + seq![QUOTE];
    let mut run: usize = 0;
    let mut i: usize = 0;
    assert(arg@.skip(0) =~= arg@);
    assert(command_line@ + escaped(arg@, 0) =~= open + escaped(arg@, 0));
    while i < arg.len()
        invariant
            run <= i <= arg@.len(),
            command_line@ + escaped(arg@.skip(i as int), run as nat) == open + escaped(arg@, 0),
        decreases arg@.len() - i,
    {
        let unit: u16 = arg[i];
        let ghost before = command_line@;
        let ghost rest = arg@.skip(i as int);
        assert(rest.skip(1) =~= arg@.skip(i + 1));
        if unit == BACKSLASH {
            run += 1;
        } else {
            if unit == QUOTE {
                push_run(command_line, run);
                push_run(command_line, run);
                command_line.push(BACKSLASH);
                command_line.push(unit);
                assert(command_line@ =~= before + (backslashes((2 * run + 1) as nat) + seq![QUOTE]));
            } else {
                push_run(command_line, run);
                command_line.push(unit);
                assert(command_line@ =~= before + (backslashes(run as nat) + seq![unit]));
            }
            assert(command_line@ + escaped(rest.skip(1), 0) =~= before + escaped(rest, run as nat));
            run = 0;
        }
        i += 1;
    }
    let ghost before = command_line@;
    push_run(command_line, run);
    push_run(command_line, run);
    assert(command_line@ =~= before + escaped(arg@.skip(i as int), run as nat));
    command_line.push(QUOTE);
    assert(command_line@ =~= old(command_line)@ + quoted(arg@));
}

/// The command line of a process, with the zero that ends it.
pub fn command_line(program: &[u16], args: &[Vec<u16>]) -> (r: Vec<u16>)
    ensures
        r@ == line_of(program@, unit_views(args@)).push(0),
{
    let mut line: Vec<u16> = Vec::new();
    push_quoted_arg(&mut line, program);
    let ghost all = unit_views(args@);
    let mut i: usize = 0;
    assert(line@ =~= quoted(program@) + quoted_all(all.take(0)));
    while i < args.len()
        invariant
            i <= args@.len(),
            all == unit_views(args@),
            line@ == quoted(program@) + quoted_all(all.take(i as int)),
        decreases args@.len() - i,
    {
        assert(all.take(i + 1).drop_last() =~= all.take(i as int));
        assert(all.take(i + 1).last() == args@[i as int]@);
        line.push(SPACE);
        push_quoted_arg(&mut line, args[i].as_slice());
        i += 1;
        assert(line@ =~= quoted(program@) + quoted_all(all.take(i as int)));
    }
    assert(all.take(i as int) =~= all);
    line.push(0);
    line
}

/// Whether the current process has the enforcing Redirection Trust bit, given the answer to the
/// question for its policy.
///
/// A question that was not answered falls back to the ordinary way of spawning: another parent is
/// only needed when Windows confirms that the policy is on.
pub fn redirection_trust_enforced(answered: i32, flags: u32) -> (r: bool)
    ensures
        r == (answered != 0 && flags % 2 == 1),
{
    assert((flags & 0x1 != 0) == (flags % 2 == 1)) by (bit_vector);
    answered != 0 && flags & 0x1 != 0
}

} // verus!
