//! The lines changed per day in a repository: out of what `git log` prints, and as the months that
//! are drawn.

use vstd::prelude::*;

use crate::calendar;
use crate::numbers;
use crate::offsets;
use crate::paths;
use crate::paths::Platform;
use crate::text;

verus! {

/// A date: the year, the month and the day of the month, as they are written.
pub type Date = (i32, u32, u32);

/// The date that a text of three numbers with hyphens between them writes.
pub open spec fn date_of(s: Seq<char>) -> Option<Date> {
    let p = text::pieces(s, '-');
    if p.len() != 3 {
        None
    } else {
        match (numbers::signed(p[0]), numbers::unsigned(p[1]), numbers::unsigned(p[2])) {
            (Some(y), Some(m), Some(d)) => Some((y, m, d)),
            _ => None,
        }
    }
}

/// Whether a line gives the date of a commit.
pub open spec fn is_dated(line: Seq<char>) -> bool {
    line.len() >= 2 && line[0] == 'D' && line[1] == ':'
}

/// The date of the commit that the first `n` lines end in, if it is known.
pub open spec fn current(lines: Seq<Seq<char>>, n: int) -> Option<Date>
    decreases n,
{
    if n <= 0 {
        None
    } else if is_dated(lines[n - 1]) {
        date_of(lines[n - 1].skip(2))
    } else {
        current(lines, n - 1)
    }
}

/// The lines added and removed that a line speaks of: its first two fields, where both are
/// numbers. Tabs separate the fields.
pub open spec fn changed(line: Seq<char>) -> Option<int> {
    let p = text::pieces(line, '\t');
    if p.len() < 2 {
        None
    } else {
        match (numbers::unsigned(p[0]), numbers::unsigned(p[1])) {
            (Some(added), Some(removed)) => Some(added + removed),
            _ => None,
        }
    }
}

/// What a line adds to a day.
pub open spec fn share(lines: Seq<Seq<char>>, n: int, date: Date) -> int {
    if !is_dated(lines[n]) && current(lines, n) == Some(date) {
        match changed(lines[n]) {
            Some(count) => count,
            None => 0,
        }
    } else {
        0
    }
}

/// How many lines were changed on a day, by the first `n` lines.
pub open spec fn on_day(lines: Seq<Seq<char>>, n: int, date: Date) -> int
    decreases n,
{
    if n <= 0 {
        0
    } else {
        on_day(lines, n - 1, date) + share(lines, n - 1, date)
    }
}

/// Whether the count of every day fits.
pub open spec fn counts_fit(lines: Seq<Seq<char>>) -> bool {
    forall|date: Date| #[trigger] on_day(lines, lines.len() as int, date) <= u32::MAX
}

/// A count never shrinks.
proof fn lemma_counts_grow(lines: Seq<Seq<char>>, n: int, m: int, date: Date)
    requires
        0 <= n <= m,
    ensures
        0 <= on_day(lines, n, date) <= on_day(lines, m, date),
    decreases m,
{
    if m > 0 {
        lemma_counts_grow(
            lines,
            if n < m {
                n
            } else {
                m - 1
            },
            m - 1,
            date,
        );
    }
}

/// The date that a text writes.
fn parse_date(s: &[char]) -> (r: Option<Date>)
    ensures
        r == date_of(s@),
{
    let p: Vec<Vec<char>> = text::split(s, '-');
    let ghost all = text::pieces(s@, '-');
    assert(all.len() == p@.len());
    if p.len() != 3 {
        return None;
    }
    assert(all[0] == p@[0]@ && all[1] == p@[1]@ && all[2] == p@[2]@);
    match (
        numbers::parse_i32(p[0].as_slice()),
        numbers::parse_u32(p[1].as_slice()),
        numbers::parse_u32(p[2].as_slice()),
    ) {
        (Some(y), Some(m), Some(d)) => Some((y, m, d)),
        _ => None,
    }
}

/// The lines added and removed that a line speaks of.
fn parse_changed(line: &[char]) -> (r: Option<u64>)
    ensures
        r is Some <==> changed(line@) is Some,
        r matches Some(count) ==> changed(line@) == Some(count as int),
{
    let p: Vec<Vec<char>> = text::split(line, '\t');
    let ghost all = text::pieces(line@, '\t');
    assert(all.len() == p@.len());
    if p.len() < 2 {
        return None;
    }
    assert(all[0] == p@[0]@ && all[1] == p@[1]@);
    match (numbers::parse_u32(p[0].as_slice()), numbers::parse_u32(p[1].as_slice())) {
        (Some(added), Some(removed)) => Some(added as u64 + removed as u64),
        _ => None,
    }
}

/// The counts of some days.
struct Tally {
    days: Vec<(Date, u32)>,
}

/// The count of a day among some.
spec fn counted(days: Seq<(Date, u32)>, date: Date) -> int
    decreases days.len(),
{
    if days.len() == 0 {
        0
    } else if days.last().0 == date {
        days.last().1 as int
    } else {
        counted(days.drop_last(), date)
    }
}

/// No day is counted twice.
spec fn distinct(days: Seq<(Date, u32)>) -> bool {
    forall|i: int, j: int|
        0 <= i < j < days.len() ==> (#[trigger] days[i]).0 != (#[trigger] days[j]).0
}

/// The count of a day that stands at a position is what stands there.
proof fn lemma_counted(days: Seq<(Date, u32)>, i: int)
    requires
        distinct(days),
        0 <= i < days.len(),
    ensures
        counted(days, days[i].0) == days[i].1,
    decreases days.len(),
{
    if i < days.len() - 1 {
        assert(days[i].0 != days[days.len() - 1].0);
        lemma_counted(days.drop_last(), i);
    }
}

/// The count of a day that stands nowhere is none.
proof fn lemma_not_counted(days: Seq<(Date, u32)>, date: Date)
    requires
        forall|i: int| 0 <= i < days.len() ==> (#[trigger] days[i]).0 != date,
    ensures
        counted(days, date) == 0,
    decreases days.len(),
{
    if days.len() > 0 {
        let front = days.drop_last();
        assert forall|i: int| 0 <= i < front.len() implies (#[trigger] front[i]).0 != date by {
            assert(days[i].0 != date);
        }
        lemma_not_counted(front, date);
    }
}

/// A new count at a position changes that day and no other.
proof fn lemma_recounted(days: Seq<(Date, u32)>, i: int, count: u32, date: Date)
    requires
        distinct(days),
        0 <= i < days.len(),
    ensures
        distinct(days.update(i, (days[i].0, count))),
        counted(days.update(i, (days[i].0, count)), date) == (if date == days[i].0 {
            count as int
        } else {
            counted(days, date)
        }),
    decreases days.len(),
{
    let new = days.update(i, (days[i].0, count));
    assert forall|a: int, b: int| 0 <= a < b < new.len() implies (#[trigger] new[a]).0 != (
    #[trigger] new[b]).0 by {
        assert(days[a].0 != days[b].0);
    }
    if i < days.len() - 1 {
        assert(days[i].0 != days[days.len() - 1].0);
        let front = days.drop_last();
        lemma_recounted(front, i, count, date);
        assert(new.drop_last() =~= front.update(i, (front[i].0, count)));
    } else {
        assert(new.drop_last() =~= days.drop_last());
    }
}

impl Tally {
    spec fn wf(self) -> bool {
        distinct(self.days@)
    }

    spec fn count(self, date: Date) -> int {
        counted(self.days@, date)
    }

    /// Where a day stands, or how many there are.
    fn position(&self, date: Date) -> (r: usize)
        ensures
            r <= self.days@.len(),
            r < self.days@.len() ==> self.days@[r as int].0 == date,
            r == self.days@.len() ==> forall|i: int|
                0 <= i < self.days@.len() ==> (#[trigger] self.days@[i]).0 != date,
    {
        let mut i: usize = 0;
        while i < self.days.len()
            invariant
                i <= self.days@.len(),
                forall|k: int| 0 <= k < i ==> (#[trigger] self.days@[k]).0 != date,
            decreases self.days@.len() - i,
        {
            let found: Date = self.days[i].0;
            if found.0 == date.0 && found.1 == date.1 && found.2 == date.2 {
                return i;
            }
            i += 1;
        }
        i
    }

    /// The count of a day.
    fn get(&self, date: Date) -> (r: u32)
        requires
            self.wf(),
        ensures
            r == self.count(date),
    {
        let i: usize = self.position(date);
        if i < self.days.len() {
            proof {
                lemma_counted(self.days@, i as int);
            }
            self.days[i].1
        } else {
            proof {
                lemma_not_counted(self.days@, date);
            }
            0
        }
    }

    /// Adds to the count of a day, where the sum fits.
    fn add_to(&mut self, date: Date, more: u64) -> (r: bool)
        requires
            old(self).wf(),
            more <= 0x1_ffff_fffe,
        ensures
            final(self).wf(),
            r == (old(self).count(date) + more <= u32::MAX),
            r ==> forall|d: Date| #[trigger]
                final(self).count(d) == old(self).count(d) + (if d == date {
                    more as int
                } else {
                    0int
                }),
    {
        let ghost before = self.days@;
        let i: usize = self.position(date);
        if i < self.days.len() {
            proof {
                lemma_counted(before, i as int);
            }
            let sum: u64 = self.days[i].1 as u64 + more;
            if sum > u32::MAX as u64 {
                return false;
            }
            let new: u32 = sum as u32;
            self.days.set(i, (date, new));
            proof {
                assert forall|d: Date| #[trigger]
                    self.count(d) == counted(before, d) + (if d == date {
                        more as int
                    } else {
                        0int
                    }) by {
                    lemma_recounted(before, i as int, new, d);
                }
                lemma_recounted(before, i as int, new, date);
            }
            true
        } else {
            proof {
                lemma_not_counted(before, date);
            }
            if more > u32::MAX as u64 {
                return false;
            }
            self.days.push((date, more as u32));
            proof {
                assert forall|d: Date| #[trigger]
                    self.count(d) == counted(before, d) + (if d == date {
                        more as int
                    } else {
                        0int
                    }) by {
                    assert(self.days@.drop_last() =~= before);
                }
            }
            true
        }
    }
}

/// The counts of all days, where they all fit.
fn tally(lines: &Vec<Vec<char>>) -> (r: Option<Tally>)
    ensures
        r is Some <==> counts_fit(text::views(lines@)),
        r matches Some(t) ==> t.wf() && forall|date: Date| #[trigger]
            t.count(date) == on_day(text::views(lines@), lines@.len() as int, date),
{
    let ghost all = text::views(lines@);
    let mut out: Tally = Tally { days: Vec::new() };
    let mut date: Option<Date> = None;
    let mut i: usize = 0;
    while i < lines.len()
        invariant
            i <= lines@.len(),
            all == text::views(lines@),
            out.wf(),
            date == current(all, i as int),
            forall|d: Date| #[trigger] out.count(d) == on_day(all, i as int, d),
            forall|d: Date| #[trigger] on_day(all, i as int, d) <= u32::MAX,
        decreases lines@.len() - i,
    {
        let line: &[char] = lines[i].as_slice();
        let ghost before = out;
        assert(all[i as int] == line@);
        if line.len() >= 2 && line[0] == 'D' && line[1] == ':' {
            let rest: &[char] = vstd::slice::slice_subrange(line, 2, line.len());
            assert(rest@ =~= line@.skip(2));
            date = parse_date(rest);
            assert forall|d: Date| #[trigger] out.count(d) == on_day(all, i + 1, d) by {
                assert(out.count(d) == on_day(all, i as int, d));
            }
        } else {
            match (parse_changed(line), date) {
                (Some(count), Some(day)) => {
                    assert(before.count(day) == on_day(all, i as int, day));
                    if !out.add_to(day, count) {
                        proof {
                            assert(on_day(all, i + 1, day) > u32::MAX);
                            lemma_counts_grow(all, i + 1, all.len() as int, day);
                        }
                        return None;
                    }
                    assert forall|d: Date| #[trigger] out.count(d) == on_day(all, i + 1, d) by {
                        assert(before.count(d) == on_day(all, i as int, d));
                    }
                },
                _ => {
                    assert forall|d: Date| #[trigger] out.count(d) == on_day(all, i + 1, d) by {
                        assert(out.count(d) == on_day(all, i as int, d));
                    }
                },
            }
        }
        assert forall|d: Date| #[trigger] on_day(all, i + 1, d) <= u32::MAX by {
            assert(out.count(d) == on_day(all, i + 1, d));
            lemma_count_fits(out.days@, d);
        }
        i += 1;
    }
    Some(out)
}

proof fn lemma_count_fits(days: Seq<(Date, u32)>, date: Date)
    ensures
        counted(days, date) <= u32::MAX,
    decreases days.len(),
{
    if days.len() > 0 {
        lemma_count_fits(days.drop_last(), date);
    }
}

/// A month of the graph.
#[derive(Debug)]
pub struct HeatmapMonth {
    pub year: i32,
    pub month: u32,
    /// The lines changed on each day, the first day first.
    pub days: Vec<u32>,
}

/// Whether a month shows what was changed on each of its days.
pub open spec fn shows(month: HeatmapMonth, lines: Seq<Seq<char>>) -> bool {
    &&& month.days@.len() == calendar::length(month.year as int, month.month as int)
    &&& forall|k: int|
        0 <= k < month.days@.len() ==> #[trigger] month.days@[k] == on_day(
            lines,
            lines.len() as int,
            (month.year, month.month, (k + 1) as u32),
        )
}

/// Whether the months are those that end with the one of a date, and show what was changed.
pub open spec fn is_graph(months: Seq<HeatmapMonth>, today: Date, lines: Seq<Seq<char>>) -> bool {
    &&& months.len() == calendar::MONTHS
    &&& forall|i: int|
        0 <= i < months.len() ==> {
            let month = #[trigger] months[i];
            &&& (month.year as int, month.month as int) == calendar::back(
                today.0 as int,
                today.1 as int,
                calendar::MONTHS - 1 - i,
            )
            &&& shows(month, lines)
        }
}

/// The days of a month.
fn month_of(t: &Tally, year: i32, month: u32) -> (r: HeatmapMonth)
    requires
        t.wf(),
    ensures
        r.year == year,
        r.month == month,
        r.days@.len() == calendar::length(year as int, month as int),
        forall|k: int|
            0 <= k < r.days@.len() ==> #[trigger] r.days@[k] == t.count(
                (year, month, (k + 1) as u32),
            ),
{
    let count: u32 = calendar::days_in_month(year, month);
    let mut days: Vec<u32> = Vec::new();
    let mut d: u32 = 1;
    while d <= count
        invariant
            1 <= d <= count + 1,
            count <= 31,
            days@.len() == d - 1,
            t.wf(),
            forall|k: int|
                0 <= k < days@.len() ==> #[trigger] days@[k] == t.count(
                    (year, month, (k + 1) as u32),
                ),
        decreases count + 1 - d,
    {
        days.push(t.get((year, month, d)));
        d += 1;
    }
    HeatmapMonth { year, month, days }
}

/// The months of the graph.
fn months_of(t: &Tally, today: Date) -> (r: Vec<HeatmapMonth>)
    requires
        t.wf(),
        today.1 >= 1,
        today.1 > 12 || today.0 > i32::MIN,
    ensures
        r@.len() == calendar::MONTHS,
        forall|i: int|
            0 <= i < r@.len() ==> {
                let month = #[trigger] r@[i];
                &&& (month.year as int, month.month as int) == calendar::back(
                    today.0 as int,
                    today.1 as int,
                    calendar::MONTHS - 1 - i,
                )
                &&& month.days@.len() == calendar::length(month.year as int, month.month as int)
                &&& forall|k: int|
                    0 <= k < month.days@.len() ==> #[trigger] month.days@[k] == t.count(
                        (month.year, month.month, (k + 1) as u32),
                    )
            },
{
    let window: Vec<(i32, u32)> = calendar::month_window(today.0, today.1);
    let mut out: Vec<HeatmapMonth> = Vec::new();
    let mut i: usize = 0;
    while i < window.len()
        invariant
            i <= window@.len(),
            window@.len() == calendar::MONTHS,
            out@.len() == i,
            t.wf(),
            forall|j: int|
                0 <= j < window@.len() ==> {
                    let (y, m) = #[trigger] window@[j];
                    (y as int, m as int) == calendar::back(
                        today.0 as int,
                        today.1 as int,
                        calendar::MONTHS - 1 - j,
                    )
                },
            forall|j: int|
                0 <= j < out@.len() ==> {
                    let month = #[trigger] out@[j];
                    &&& (month.year as int, month.month as int) == calendar::back(
                        today.0 as int,
                        today.1 as int,
                        calendar::MONTHS - 1 - j,
                    )
                    &&& month.days@.len() == calendar::length(
                        month.year as int,
                        month.month as int,
                    )
                    &&& forall|k: int|
                        0 <= k < month.days@.len() ==> #[trigger] month.days@[k] == t.count(
                            (month.year, month.month, (k + 1) as u32),
                        )
                },
        decreases window@.len() - i,
    {
        let (year, month) = window[i];
        out.push(month_of(t, year, month));
        i += 1;
    }
    out
}

/// The months of the graph out of what `git log` printed, for a date of today.
pub fn graph(output: &str, today: Date) -> (r: Vec<HeatmapMonth>)
    requires
        counts_fit(text::lines_of(output@)),
        today.1 >= 1,
        today.1 > 12 || today.0 > i32::MIN,
    ensures
        is_graph(r@, today, text::lines_of(output@)),
{
    let whole: Vec<char> = text::chars_of(output);
    let lines: Vec<Vec<char>> = text::lines(whole.as_slice());
    assert(text::lines_of(output@).len() == lines@.len());
    match tally(&lines) {
        Some(t) => {
            let r: Vec<HeatmapMonth> = months_of(&t, today);
            assert forall|i: int| 0 <= i < r@.len() implies shows(
                #[trigger] r@[i],
                text::lines_of(output@),
            ) by {
                assert forall|k: int| 0 <= k < r@[i].days@.len() implies #[trigger] r@[i].days@[k]
                    == on_day(
                    text::lines_of(output@),
                    lines@.len() as int,
                    (r@[i].year, r@[i].month, (k + 1) as u32),
                ) by {
                    assert(r@[i].days@[k] == t.count(
                        (r@[i].year, r@[i].month, (k + 1) as u32),
                    ));
                }
            }
            r
        },
        None => {
            assert(false);
            Vec::new()
        },
    }
}

/// What `git log` gave.
#[derive(Debug)]
pub enum Fetched {
    /// The directory is no repository that can be read.
    Nothing,
    /// A count was too large.
    Overflow,
    Months(Vec<HeatmapMonth>),
}

/// The months of the graph, given whether `git log` succeeded, what it printed, and the seconds
/// since the start of 1970. Nothing is drawn for a directory that is no repository.
pub fn fetch(success: bool, stdout: &[u8], secs: u64) -> (r: Fetched)
    requires
        forall|date: Date, y: int| #[trigger]
            calendar::is_date_of((secs / 86_400) as int, date, y) ==> date.0 > i32::MIN,
    ensures
        r is Nothing <==> !success,
        success ==> (r is Months <==> counts_fit(text::lines_of(offsets::lossy(stdout@)))),
        r matches Fetched::Months(months) ==> exists|today: Date, y: int| #[trigger]
            calendar::is_date_of((secs / 86_400) as int, today, y) && is_graph(
                months@,
                today,
                text::lines_of(offsets::lossy(stdout@)),
            ),
{
    if !success {
        return Fetched::Nothing;
    }
    let output: String = offsets::from_utf8_lossy(stdout);
    let whole: Vec<char> = text::chars_of(output.as_str());
    let lines: Vec<Vec<char>> = text::lines(whole.as_slice());
    match tally(&lines) {
        None => Fetched::Overflow,
        Some(_) => {
            let today: Date = calendar::today(secs);
            Fetched::Months(graph(output.as_str(), today))
        },
    }
}

/// How strongly a day is drawn: not at all, or in one of four bands.
pub open spec fn band(lines: int) -> int {
    if lines == 0 {
        0
    } else if lines < 10 {
        1
    } else if lines < 50 {
        2
    } else if lines < 200 {
        3
    } else {
        4
    }
}

/// How strongly a day is drawn.
pub fn bucket(lines: u32) -> (r: u8)
    ensures
        r == band(lines as int),
{
    if lines == 0 {
        0
    } else if lines < 10 {
        1
    } else if lines < 50 {
        2
    } else if lines < 200 {
        3
    } else {
        4
    }
}

/// More changes are never drawn more weakly.
pub proof fn law_more_changes_are_drawn_no_weaker(a: u32, b: u32)
    requires
        a <= b,
    ensures
        0 <= band(a as int) <= band(b as int) <= 4,
        band(a as int) == 0 <==> a == 0,
{
}

/// The graph that a panel shows: for which repository it is, and whether it is on its way.
#[derive(Debug)]
pub struct Heatmap {
    pub root: Option<String>,
    pub loading: bool,
    pub months: Option<Vec<HeatmapMonth>>,
}

/// Whether a repository is the one that a panel has.
pub open spec fn is_root(platform: Platform, root: Option<String>, path: Seq<char>) -> bool {
    root matches Some(r) && paths::parts(platform, r@) == paths::parts(platform, path)
}

impl Heatmap {
    fn has_root(&self, platform: Platform, path: &str) -> (r: bool)
        ensures
            r == is_root(platform, self.root, path@),
    {
        match &self.root {
            Some(root) => {
                let a: Vec<char> = text::chars_of(root.as_str());
                let b: Vec<char> = text::chars_of(path);
                paths::same_path(platform, a.as_slice(), b.as_slice())
            },
            None => false,
        }
    }

    /// Asks for the graph of a repository; says whether it is to be fetched. What there is stays
    /// until the new one has come.
    pub fn request(&mut self, platform: Platform, path: &str) -> (r: bool)
        ensures
            r == (!is_root(platform, old(self).root, path@) && !old(self).loading),
            final(self).months == old(self).months,
            r ==> final(self).loading && (final(self).root matches Some(root) && root@ == path@),
            !r ==> *final(self) == *old(self),
    {
        if self.has_root(platform, path) || self.loading {
            return false;
        }
        self.loading = true;
        self.root = Some(text::text_of(text::chars_of(path).as_slice()));
        true
    }

    /// Takes the graph of a repository; says whether it is shown. It is not, where another
    /// repository was asked for since.
    pub fn land(&mut self, platform: Platform, path: &str, months: Option<Vec<HeatmapMonth>>) -> (r:
        bool)
        ensures
            r == is_root(platform, old(self).root, path@),
            final(self).root == old(self).root,
            !final(self).loading,
            final(self).months == (if r {
                months
            } else {
                old(self).months
            }),
    {
        self.loading = false;
        if self.has_root(platform, path) {
            self.months = months;
            true
        } else {
            false
        }
    }
}

/// A day is drawn stronger from one change on, from ten, from fifty and from two hundred.
pub proof fn law_the_days_are_drawn_in_five_strengths(lines: u32)
    ensures
        lines == 0 ==> band(lines as int) == 0,
        1 <= lines <= 9 ==> band(lines as int) == 1,
        10 <= lines <= 49 ==> band(lines as int) == 2,
        50 <= lines <= 199 ==> band(lines as int) == 3,
        200 <= lines ==> band(lines as int) == 4,
{
}

/// A graph is of twelve months, one behind the other, the last of them the month of today; each has
/// its days, and each day what was changed on it.
pub proof fn law_the_graph_ends_with_this_month(
    months: Seq<HeatmapMonth>,
    today: Date,
    lines: Seq<Seq<char>>,
    i: int,
    k: int,
)
    requires
        is_graph(months, today, lines),
        1 <= today.1 <= 12,
        0 <= i < 12,
    ensures
        months.len() == 12,
        months[11].year == today.0,
        months[11].month == today.1,
        1 <= months[i].month <= 12,
        12 * months[i].year + months[i].month == 12 * today.0 + today.1 - (11 - i),
        months[i].days@.len() == calendar::length(months[i].year as int, months[i].month as int),
        0 <= k < months[i].days@.len() ==> months[i].days@[k] == on_day(
            lines,
            lines.len() as int,
            (months[i].year, months[i].month, (k + 1) as u32),
        ),
{
    let last = months[11];
    let month = months[i];
    calendar::law_a_month_back_is_a_month_less(today.0 as int, today.1 as int, 11 - i);
    calendar::law_a_month_back_is_a_month_less(today.0 as int, today.1 as int, 0);
    assert(shows(month, lines));
    if 0 <= k < month.days@.len() {
        assert(month.days@[k] == on_day(
            lines,
            lines.len() as int,
            (month.year, month.month, (k + 1) as u32),
        ));
    }
}

} // verus!
