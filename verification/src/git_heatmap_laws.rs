//! What holds of every graph that [`graph`](crate::git_heatmap::graph) draws.

use vstd::prelude::*;

use crate::git_heatmap;
use crate::git_heatmap::{Date, HeatmapMonth};
use crate::numbers;
use crate::text;
use crate::text_laws;

verus! {

/// A number as `git` writes a month or a day: with two digits at least.
pub open spec fn two_digits(n: nat) -> Seq<char> {
    if n < 10 {
        seq!['0'] + numbers::decimal(n)
    } else {
        numbers::decimal(n)
    }
}

/// The line that `git log` prints for a commit of a date.
pub open spec fn date_line(y: u32, m: u32, d: u32) -> Seq<char> {
    seq!['D', ':'] + numbers::decimal(y as nat) + seq!['-'] + two_digits(m as nat) + seq!['-']
        + two_digits(d as nat)
}

/// The line that `git log` prints for a file with lines added and removed.
pub open spec fn change_line(added: u32, removed: u32, path: Seq<char>) -> Seq<char> {
    numbers::decimal(added as nat) + seq!['\t'] + numbers::decimal(removed as nat) + seq!['\t']
        + path
}

proof fn lemma_digits_hold_none_other(n: nat, c: char)
    requires
        !numbers::is_digit(c),
    ensures
        !numbers::decimal(n).contains(c),
        !two_digits(n).contains(c),
{
    numbers::lemma_decimal(n);
    let s = numbers::decimal(n);
    if s.contains(c) {
        let k = choose|k: int| 0 <= k < s.len() && s[k] == c;
        assert(numbers::is_digit(s[k]));
    }
    let t = two_digits(n);
    if t.contains(c) {
        let k = choose|k: int| 0 <= k < t.len() && t[k] == c;
        if n < 10 {
            if k > 0 {
                assert(s[k - 1] == c);
                assert(numbers::is_digit(s[k - 1]));
            }
        } else {
            assert(numbers::is_digit(s[k]));
        }
    }
}

proof fn lemma_two_digits(n: u32)
    ensures
        numbers::unsigned(two_digits(n as nat)) == Some(n),
{
    numbers::lemma_decimal(n as nat);
    numbers::law_a_written_number_is_read_back(n);
    if n < 10 {
        reveal_with_fuel(numbers::value, 3);
        let s = two_digits(n as nat);
        let one = numbers::decimal(n as nat);
        assert(one.len() == 1);
        assert(s[0] == '0' && s[1] == one[0]);
        assert(s.drop_last() =~= seq!['0']);
        assert(s.drop_last().drop_last() =~= Seq::<char>::empty());
        assert(one.drop_last() =~= Seq::<char>::empty());
        assert(numbers::is_digit(one[0]));
        assert(numbers::is_number(s));
        assert(numbers::value(s) == n);
    }
}

/// The date of a date line is the one it was written for.
proof fn lemma_date_line(y: u32, m: u32, d: u32)
    requires
        y <= i32::MAX,
    ensures
        git_heatmap::is_dated(date_line(y, m, d)),
        git_heatmap::date_of(date_line(y, m, d).skip(2)) == Some((y as i32, m, d)),
        !date_line(y, m, d).contains('\n'),
        date_line(y, m, d).last() != '\r',
{
    let line = date_line(y, m, d);
    let a = numbers::decimal(y as nat);
    let b = two_digits(m as nat);
    let c = two_digits(d as nat);
    let parts = seq![a, b, c];
    lemma_digits_hold_none_other(y as nat, '-');
    lemma_digits_hold_none_other(m as nat, '-');
    lemma_digits_hold_none_other(d as nat, '-');
    lemma_digits_hold_none_other(y as nat, '\n');
    lemma_digits_hold_none_other(m as nat, '\n');
    lemma_digits_hold_none_other(d as nat, '\n');
    lemma_digits_hold_none_other(d as nat, '\r');
    reveal_with_fuel(text::joined, 4);
    assert(parts.drop_last() =~= seq![a, b]);
    assert(parts.drop_last().drop_last() =~= seq![a]);
    assert(line.skip(2) =~= text::joined(parts, seq!['-']));
    text_laws::law_joined_texts_are_split_again(parts, '-');
    numbers::lemma_decimal(y as nat);
    assert(numbers::is_digit(a[0]));
    assert(numbers::signed(a) == Some(y as i32));
    lemma_two_digits(m);
    lemma_two_digits(d);
    numbers::lemma_decimal(d as nat);
    assert(c.len() > 0);
    assert(line.last() == c.last());
    assert(c.contains(c.last()));
    if line.contains('\n') {
        let k = choose|k: int| 0 <= k < line.len() && line[k] == '\n';
        let n1 = 2 + a.len();
        let n2 = n1 + 1 + b.len();
        if 2 <= k < n1 {
            assert(a[k - 2] == '\n');
        } else if n1 < k < n2 {
            assert(b[k - n1 - 1] == '\n');
        } else if k > n2 {
            assert(c[k - n2 - 1] == '\n');
        }
    }
}

/// A line of changes speaks of as many lines as were added and removed.
proof fn lemma_change_line(added: u32, removed: u32, path: Seq<char>)
    ensures
        !git_heatmap::is_dated(change_line(added, removed, path)),
        git_heatmap::changed(change_line(added, removed, path)) == Some(added + removed),
{
    let line = change_line(added, removed, path);
    let a = numbers::decimal(added as nat);
    let r = numbers::decimal(removed as nat);
    numbers::lemma_decimal(added as nat);
    numbers::law_a_written_number_is_read_back(added);
    numbers::law_a_written_number_is_read_back(removed);
    lemma_digits_hold_none_other(added as nat, '\t');
    lemma_digits_hold_none_other(removed as nat, '\t');
    assert(line[0] == a[0] && numbers::is_digit(a[0]));
    assert forall|j: int| 0 <= j < a.len() implies line[j] != '\t' by {
        assert(line[j] == a[j]);
        assert(a.contains(a[j]));
    }
    text::lemma_first_of_is(line, '\t', a.len() as int);
    assert(line.take(a.len() as int) =~= a);
    let rest = line.skip(a.len() as int + 1);
    assert(rest =~= r + seq!['\t'] + path);
    assert forall|j: int| 0 <= j < r.len() implies rest[j] != '\t' by {
        assert(rest[j] == r[j]);
        assert(r.contains(r[j]));
    }
    text::lemma_first_of_is(rest, '\t', r.len() as int);
    assert(rest.take(r.len() as int) =~= r);
    let p = text::pieces(line, '\t');
    assert(text::pieces(rest, '\t')[0] == r);
    assert(p[0] == a && p[1] == text::pieces(rest, '\t')[0]);
}

/// Whether `with` has a line more than `without`, at `p`.
spec fn has_one_more(with: Seq<Seq<char>>, without: Seq<Seq<char>>, p: int) -> bool {
    &&& 0 <= p < with.len()
    &&& with.len() == without.len() + 1
    &&& forall|j: int| 0 <= j < p ==> #[trigger] with[j] == without[j]
    &&& forall|j: int| p <= j < without.len() ==> with[j + 1] == #[trigger] without[j]
}

/// A line that is no date leaves the dates of the others alone.
proof fn lemma_same_dates(with: Seq<Seq<char>>, without: Seq<Seq<char>>, p: int, n: int)
    requires
        has_one_more(with, without, p),
        !git_heatmap::is_dated(with[p]),
        0 <= n <= without.len(),
    ensures
        n <= p ==> git_heatmap::current(with, n) == git_heatmap::current(without, n),
        n >= p ==> git_heatmap::current(with, n + 1) == git_heatmap::current(without, n),
    decreases n,
{
    if n > 0 {
        lemma_same_dates(with, without, p, n - 1);
        if n <= p {
            assert(with[n - 1] == without[n - 1]);
        } else {
            assert(with[n] == without[n - 1]);
        }
    }
    if n == p {
        assert(git_heatmap::current(with, n + 1) == git_heatmap::current(with, n));
    }
}

/// A line that is no date adds its share, and changes no other.
proof fn lemma_one_share_more(
    with: Seq<Seq<char>>,
    without: Seq<Seq<char>>,
    p: int,
    n: int,
    date: Date,
)
    requires
        has_one_more(with, without, p),
        !git_heatmap::is_dated(with[p]),
        0 <= n <= without.len(),
    ensures
        n <= p ==> git_heatmap::on_day(with, n, date) == git_heatmap::on_day(without, n, date),
        n >= p ==> git_heatmap::on_day(with, n + 1, date) == git_heatmap::on_day(without, n, date)
            + git_heatmap::share(with, p, date),
    decreases n,
{
    if n > 0 {
        lemma_one_share_more(with, without, p, n - 1, date);
        lemma_same_dates(with, without, p, n - 1);
        if n <= p {
            assert(with[n - 1] == without[n - 1]);
            assert(git_heatmap::share(with, n - 1, date) == git_heatmap::share(without, n - 1, date));
        } else {
            assert(with[n] == without[n - 1]);
            assert(git_heatmap::share(with, n, date) == git_heatmap::share(without, n - 1, date));
        }
    }
    if n == p {
        assert(git_heatmap::on_day(with, n + 1, date) == git_heatmap::on_day(with, n, date)
            + git_heatmap::share(with, n, date));
    }
}

/// What is put into a log between whole lines is the lines that it is made of.
proof fn lemma_lines_between(before: Seq<char>, line: Seq<char>, behind: Seq<char>)
    requires
        before.len() == 0 || before.last() == '\n',
        !line.contains('\n'),
    ensures
        text::lines_of(before + line + seq!['\n'] + behind) == text::lines_of(before)
            + seq![text::without_return(line)] + text::lines_of(behind),
{
    let one = line.push('\n');
    text_laws::law_a_line_is_a_line(line);
    text_laws::law_lines_follow_each_other(one, behind);
    text_laws::law_lines_follow_each_other(before, one + behind);
    assert(before + line + seq!['\n'] + behind =~= before + (one + behind));
    assert(text::lines_of(before) + (seq![text::without_return(line)] + text::lines_of(behind))
        =~= text::lines_of(before) + seq![text::without_return(line)] + text::lines_of(behind));
}

/// A file that `git log` lists under a date raises the count of that date by the lines added plus
/// the lines removed, be one of them none, and changes the count of no other day: so say the graphs
/// of a log with the file and of the same log without it.
pub proof fn law_a_change_raises_its_day(
    before: Seq<char>,
    y: u32,
    m: u32,
    d: u32,
    added: u32,
    removed: u32,
    path: Seq<char>,
    behind: Seq<char>,
    today: Date,
    with: Seq<HeatmapMonth>,
    without: Seq<HeatmapMonth>,
    i: int,
    k: int,
)
    requires
        before.len() == 0 || before.last() == '\n',
        y <= i32::MAX,
        !path.contains('\n'),
        git_heatmap::is_graph(
            with,
            today,
            text::lines_of(
                before + date_line(y, m, d) + seq!['\n'] + (change_line(added, removed, path)
                    + seq!['\n'] + behind),
            ),
        ),
        git_heatmap::is_graph(
            without,
            today,
            text::lines_of(before + date_line(y, m, d) + seq!['\n'] + behind),
        ),
        0 <= i < with.len(),
        0 <= k < with[i].days@.len(),
    ensures
        without.len() == with.len(),
        without[i].year == with[i].year,
        without[i].month == with[i].month,
        without[i].days@.len() == with[i].days@.len(),
        with[i].days@[k] == without[i].days@[k] + (if with[i].year == y && with[i].month == m && k
            + 1 == d {
            added + removed
        } else {
            0
        }),
{
    let day = date_line(y, m, d);
    let change = change_line(added, removed, path);
    let shown = text::without_return(change);
    let tail = change + seq!['\n'] + behind;
    let none = Seq::<char>::empty();
    lemma_date_line(y, m, d);
    lemma_change_line(added, removed, path);
    lemma_digits_hold_none_other(added as nat, '\n');
    lemma_digits_hold_none_other(removed as nat, '\n');
    assert(!change.contains('\n')) by {
        if change.contains('\n') {
            let j = choose|j: int| 0 <= j < change.len() && change[j] == '\n';
            let a = numbers::decimal(added as nat);
            let r = numbers::decimal(removed as nat);
            if j < a.len() {
                assert(a[j] == '\n');
            } else if a.len() < j < a.len() + 1 + r.len() {
                assert(r[j - a.len() - 1] == '\n');
            } else if j > a.len() + 1 + r.len() {
                assert(path[j - a.len() - r.len() - 2] == '\n');
            }
        }
    }
    assert(shown == change_line(added, removed, text::without_return(path))) by {
        if path.len() > 0 {
            assert(change.last() == path.last());
            if path.last() == '\r' {
                assert(change.drop_last() =~= change_line(added, removed, path.drop_last()));
            }
        } else {
            assert(change.last() == '\t');
        }
    }
    lemma_change_line(added, removed, text::without_return(path));
    lemma_lines_between(before, day, tail);
    lemma_lines_between(before, day, behind);
    lemma_lines_between(none, change, behind);
    assert(none + change + seq!['\n'] + behind =~= tail);
    let a = text::lines_of(before + day + seq!['\n'] + tail);
    let b = text::lines_of(before + day + seq!['\n'] + behind);
    let front = text::lines_of(before);
    let p = front.len() as int + 1;
    assert(text::lines_of(none) =~= Seq::<Seq<char>>::empty());
    assert(text::lines_of(tail) =~= seq![shown] + text::lines_of(behind));
    assert(a =~= front + seq![day] + seq![shown] + text::lines_of(behind));
    assert(b =~= front + seq![day] + text::lines_of(behind));
    assert(a[p] == shown && a[p - 1] == day);
    assert(has_one_more(a, b, p));
    assert(git_heatmap::current(a, p) == Some((y as i32, m, d)));
    let month = with[i];
    let other = without[i];
    let date = (month.year, month.month, (k + 1) as u32);
    lemma_one_share_more(a, b, p, b.len() as int, date);
    assert(git_heatmap::shows(month, a));
    assert(git_heatmap::shows(other, b));
}

/// A line that is neither a date nor begins with a number, such as an empty one or that of a file
/// which is not text, counts for nothing.
pub proof fn law_other_lines_count_for_nothing(
    before: Seq<char>,
    line: Seq<char>,
    behind: Seq<char>,
    today: Date,
    with: Seq<HeatmapMonth>,
    without: Seq<HeatmapMonth>,
    i: int,
    k: int,
)
    requires
        before.len() == 0 || before.last() == '\n',
        !line.contains('\n'),
        line.len() > 0 ==> line[0] != 'D' && line[0] != '+' && !('0' <= line[0] <= '9'),
        git_heatmap::is_graph(
            with,
            today,
            text::lines_of(before + line + seq!['\n'] + behind),
        ),
        git_heatmap::is_graph(without, today, text::lines_of(before + behind)),
        0 <= i < with.len(),
        0 <= k < with[i].days@.len(),
    ensures
        without[i].days@.len() == with[i].days@.len(),
        with[i].days@[k] == without[i].days@[k],
{
    let shown = text::without_return(line);
    lemma_lines_between(before, line, behind);
    text_laws::law_lines_follow_each_other(before, behind);
    let a = text::lines_of(before + line + seq!['\n'] + behind);
    let b = text::lines_of(before + behind);
    let p = text::lines_of(before).len() as int;
    assert(a[p] == shown);
    assert(has_one_more(a, b, p));
    assert(git_heatmap::changed(shown) is None) by {
        let t = text::pieces(shown, '\t');
        text::lemma_first_of(shown, '\t');
        let q = text::first_of(shown, '\t');
        if 0 <= q < shown.len() {
            assert(t[0] == shown.take(q));
            if q > 0 {
                assert(t[0][0] == line[0]);
            }
        } else {
            assert(t.len() == 1);
        }
        assert(t.len() >= 2 ==> numbers::unsigned(t[0]) is None) by {
            let s = t[0];
            if numbers::unsigned(s) is Some {
                assert(s.len() > 0);
                assert(s[0] == line[0]);
                assert(numbers::without_plus(s) == s);
                assert(numbers::is_digit(s[0]));
            }
        }
    }
    let month = with[i];
    let other = without[i];
    let date = (month.year, month.month, (k + 1) as u32);
    lemma_one_share_more(a, b, p, b.len() as int, date);
    assert(git_heatmap::shows(month, a));
    assert(git_heatmap::shows(other, b));
}

/// Where `git log` prints nothing, twelve months without changes are drawn; the last is the one of
/// today, and each has the days of the calendar.
pub proof fn law_an_empty_log_draws_a_year_of_nothing(
    today: Date,
    months: Seq<HeatmapMonth>,
    i: int,
    k: int,
)
    requires
        git_heatmap::is_graph(months, today, text::lines_of(seq![])),
        0 <= i < 12,
        0 <= k < months[i].days@.len(),
    ensures
        months.len() == 12,
        months[11].year == today.0,
        months[11].month == today.1,
        months[i].days@[k] == 0,
        months[i].month == 4 || months[i].month == 6 || months[i].month == 9 || months[i].month
            == 11 ==> months[i].days@.len() == 30,
        months[i].month == 2 ==> months[i].days@.len() == (if (months[i].year % 4 == 0
            && months[i].year % 100 != 0) || months[i].year % 400 == 0 {
            29
        } else {
            28int
        }),
        months[i].month % 2 == 1 && months[i].month < 8 || months[i].month % 2 == 0 && 8
            <= months[i].month <= 12 ==> months[i].days@.len() == 31,
{
    assert(git_heatmap::shows(months[i], text::lines_of(seq![])));
    assert(months[11].year == today.0);
}

} // verus!
