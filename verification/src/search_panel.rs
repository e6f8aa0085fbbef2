//! Find and replace across the files of a workspace: the pattern that a query stands for, what is
//! found in a file, and the pieces in which a line is shown.

use vstd::prelude::*;

use crate::offsets;
use crate::text;
use crate::text_laws;

verus! {

/// A compiled regular expression.
#[verifier::external_type_specification]
#[verifier::external_body]
pub struct ExRegex(regex::Regex);

/// Why a pattern is no regular expression.
#[verifier::external_type_specification]
#[verifier::external_body]
pub struct ExError(regex::Error);

/// Past this many matches a search stops looking.
pub const MAX_MATCHES: usize = 2000;

/// A larger file is not searched.
pub const MAX_FILE_BYTES: u64 = 2097152;

/// The characters that mean something in a regular expression.
pub open spec fn is_meta(c: char) -> bool {
    ||| c == '\\' || c == '.' || c == '+' || c == '*' || c == '?' || c == '('
    ||| c == ')' || c == '|' || c == '[' || c == ']' || c == '{' || c == '}'
    ||| c == '^' || c == '$' || c == '#' || c == '&' || c == '-' || c == '~'
}

/// A text with a backslash in front of every character that would mean something.
pub open spec fn escaped(s: Seq<char>) -> Seq<char>
    decreases s.len(),
{
    if s.len() == 0 {
        seq![]
    } else {
        let front = escaped(s.drop_last());
        if is_meta(s.last()) {
            front.push('\\').push(s.last())
        } else {
            front.push(s.last())
        }
    }
}

/// `regex::escape` puts a backslash in front of every character that has a meaning in a regular
/// expression, and keeps the others.
pub assume_specification[ regex::escape ](pattern: &str) -> (r: String)
    ensures
        r@ == escaped(pattern@),
;

/// The regular expression that a pattern compiles to, if it is one.
pub uninterp spec fn compiled(pattern: Seq<char>) -> Option<regex::Regex>;

/// Where a regular expression matches in a text: the bytes at which each match begins and ends.
pub uninterp spec fn found(re: regex::Regex, haystack: Seq<char>) -> Seq<(usize, usize)>;

/// Whether a text holds another.
pub open spec fn holds(s: Seq<char>, part: Seq<char>) -> bool {
    exists|i: int|
        0 <= i && i + part.len() <= s.len() && #[trigger] s.subrange(i, i + part.len()) == part
}

/// `regex::Regex::new` compiles a pattern, and what comes out depends on the pattern alone. An
/// escaped text is a literal: the expression matches in exactly the texts that hold it. How large a
/// pattern may be is not said here.
pub assume_specification[ regex::Regex::new ](re: &str) -> (r: Result<regex::Regex, regex::Error>)
    ensures
        r is Ok <==> compiled(re@) is Some,
        r matches Ok(x) ==> compiled(re@) == Some(x),
        r matches Ok(x) ==> forall|q: Seq<char>, t: Seq<char>|
            re@ == #[trigger] escaped(q) ==> ((#[trigger] found(x, t)).len() > 0 <==> holds(t, q)),
;

/// Whether ranges of bytes lie in a text, in order, without overlap, and between characters.
pub open spec fn well_placed(ranges: Seq<(usize, usize)>, haystack: Seq<char>) -> bool {
    &&& forall|i: int|
        0 <= i < ranges.len() ==> {
            let (start, end) = #[trigger] ranges[i];
            start <= end && offsets::is_boundary(haystack, start as int) && offsets::is_boundary(
                haystack,
                end as int,
            )
        }
    &&& forall|i: int, j: int|
        0 <= i < j < ranges.len() ==> (#[trigger] ranges[i]).1 <= (#[trigger] ranges[j]).0
}

/// `regex::Regex::find_iter` gives the matches in a text, which depend on the expression and the
/// text alone. They come in order and do not overlap, and each begins and ends between characters.
#[verifier::external_body]
fn find_ranges(re: &regex::Regex, haystack: &str) -> (r: Vec<(usize, usize)>)
    ensures
        r@ == found(*re, haystack@),
        well_placed(r@, haystack@),
{
    re.find_iter(haystack).map(|m| (m.start(), m.end())).collect()
}

/// A text with every match of a regular expression replaced.
pub uninterp spec fn replaced(
    re: regex::Regex,
    haystack: Seq<char>,
    replacement: Seq<char>,
) -> Seq<char>;

/// `regex::Regex::replace_all` replaces every match in a text, and what comes out depends on the
/// expression, the text and the replacement alone.
#[verifier::external_body]
pub(crate) fn replace_matches(re: &regex::Regex, haystack: &str, replacement: &str) -> (r: String)
    ensures
        r@ == replaced(*re, haystack@, replacement@),
{
    re.replace_all(haystack, replacement).into_owned()
}

/// The pattern that a query stands for. Every way to search goes through one matcher: a literal
/// query is an escaped pattern.
pub open spec fn pattern(
    query: Seq<char>,
    case_sensitive: bool,
    whole_word: bool,
    regex: bool,
) -> Seq<char> {
    let literal = if regex {
        query
    } else {
        escaped(query)
    };
    let worded = if whole_word {
        seq!['\\', 'b'] + literal + seq!['\\', 'b']
    } else {
        literal
    };
    if case_sensitive {
        worded
    } else {
        seq!['(', '?', 'i', ')'] + worded
    }
}

/// The text of the pattern that a query stands for.
pub fn pattern_text(query: &str, case_sensitive: bool, whole_word: bool, regex: bool) -> (r: String)
    ensures
        r@ == pattern(query@, case_sensitive, whole_word, regex),
{
    let body: Vec<char> = if regex {
        text::chars_of(query)
    } else {
        text::chars_of(regex::escape(query).as_str())
    };
    let mut out: Vec<char> = Vec::new();
    let edge: [char; 2] = ['\\', 'b'];
    assert(edge@ =~= seq!['\\', 'b']);
    if !case_sensitive {
        let flag: [char; 4] = ['(', '?', 'i', ')'];
        text::extend(&mut out, &flag);
        assert(out@ =~= seq!['(', '?', 'i', ')']);
    }
    if whole_word {
        text::extend(&mut out, &edge);
    }
    text::extend(&mut out, body.as_slice());
    if whole_word {
        text::extend(&mut out, &edge);
    }
    assert(out@ =~= pattern(query@, case_sensitive, whole_word, regex));
    text::text_of(out.as_slice())
}

/// In every way to search, what does not regard the case is the expression that does, behind the
/// flag that turns it off; a whole word is the expression between two boundaries of words; and a
/// regular expression is the query as it is typed.
pub proof fn law_the_switches_add_up(
    query: Seq<char>,
    case_sensitive: bool,
    whole_word: bool,
    regex: bool,
)
    ensures
        pattern(query, false, whole_word, regex) == seq!['(', '?', 'i', ')'] + pattern(
            query,
            true,
            whole_word,
            regex,
        ),
        pattern(query, true, true, regex) == seq!['\\', 'b'] + pattern(query, true, false, regex)
            + seq!['\\', 'b'],
        pattern(query, true, false, true) == query,
{
}

/// A literal query is the query with every character that means something in a regular expression
/// behind a backslash, and so for each of its parts; no other character is touched.
pub proof fn law_a_literal_query_is_escaped(a: Seq<char>, b: Seq<char>, c: char)
    ensures
        pattern(a + b, true, false, false) == pattern(a, true, false, false) + pattern(
            b,
            true,
            false,
            false,
        ),
        r"\.+*?()|[]{}^$#&-~"@.contains(c) ==> pattern(seq![c], true, false, false) == seq!['\\', c],
        !r"\.+*?()|[]{}^$#&-~"@.contains(c) ==> pattern(seq![c], true, false, false) == seq![c],
        pattern(seq![], true, false, false) == Seq::<char>::empty(),
{
    reveal_strlit(r"\.+*?()|[]{}^$#&-~");
    lemma_escaped_apart(a, b);
    let all = r"\.+*?()|[]{}^$#&-~"@;
    assert(all.len() == 18);
    reveal_with_fuel(escaped, 2);
    assert(seq![c].drop_last() =~= Seq::<char>::empty());
    assert(escaped(seq![c]) =~= if is_meta(c) {
        seq!['\\', c]
    } else {
        seq![c]
    });
    assert(all.contains(c) <==> is_meta(c)) by {
        assert(all[0] == '\\' && all[1] == '.' && all[2] == '+' && all[3] == '*' && all[4] == '?'
            && all[5] == '(' && all[6] == ')' && all[7] == '|' && all[8] == '[' && all[9] == ']'
            && all[10] == '{' && all[11] == '}' && all[12] == '^' && all[13] == '$' && all[14]
            == '#' && all[15] == '&' && all[16] == '-' && all[17] == '~');
    }
}

/// Two texts are escaped apart.
proof fn lemma_escaped_apart(a: Seq<char>, b: Seq<char>)
    ensures
        escaped(a + b) == escaped(a) + escaped(b),
    decreases b.len(),
{
    if b.len() == 0 {
        assert(a + b =~= a);
        assert(escaped(a) + escaped(b) =~= escaped(a));
    } else {
        lemma_escaped_apart(a, b.drop_last());
        assert((a + b).drop_last() =~= a + b.drop_last());
        assert((a + b).last() == b.last());
        assert(escaped(a + b) =~= escaped(a) + escaped(b));
    }
}

/// The regular expression that a query stands for; there is none for a blank query, nor for one
/// that is no regular expression.
pub open spec fn sought(
    query: Seq<char>,
    case_sensitive: bool,
    whole_word: bool,
    regex: bool,
) -> Option<regex::Regex> {
    if query.len() == 0 {
        None
    } else {
        compiled(pattern(query, case_sensitive, whole_word, regex))
    }
}

/// Builds the regular expression that a query stands for.
pub fn build_pattern(query: &str, case_sensitive: bool, whole_word: bool, regex: bool) -> (r: Option<
    regex::Regex,
>)
    ensures
        r == sought(query@, case_sensitive, whole_word, regex),
        case_sensitive && !whole_word && !regex ==> (r matches Some(re) ==> forall|t: Seq<char>|
            (#[trigger] found(re, t)).len() > 0 <==> holds(t, query@)),
{
    proof {
        offsets::lemma_bytes_bound(query@);
        if query@.len() == 0 {
            assert(query@ =~= Seq::<char>::empty());
        }
    }
    if offsets::byte_len(query) == 0 {
        return None;
    }
    match regex::Regex::new(
        pattern_text(query, case_sensitive, whole_word, regex).as_str(),
    ) {
        Ok(re) => Some(re),
        Err(_) => None,
    }
}

/// What an escaped text stands for: the backslashes in front of other characters are gone.
pub open spec fn unescaped(s: Seq<char>) -> Seq<char>
    decreases s.len(),
{
    if s.len() == 0 {
        seq![]
    } else if s.len() > 1 && s[s.len() - 2] == '\\' && is_meta(s.last()) {
        unescaped(s.take(s.len() - 2)).push(s.last())
    } else {
        unescaped(s.drop_last()).push(s.last())
    }
}

/// A literal query can be read off its pattern, so two different ones never share a pattern.
pub proof fn law_a_literal_query_is_read_back(query: Seq<char>)
    ensures
        unescaped(escaped(query)) == query,
    decreases query.len(),
{
    if query.len() > 0 {
        law_a_literal_query_is_read_back(query.drop_last());
        let front = escaped(query.drop_last());
        let c = query.last();
        let all = escaped(query);
        if is_meta(c) {
            assert(all.take(all.len() - 2) =~= front);
        } else {
            assert(all.drop_last() =~= front);
        }
        assert(query =~= query.drop_last().push(c));
    } else {
        assert(query =~= Seq::<char>::empty());
    }
}

/// A line on which something was found.
#[derive(Debug)]
pub struct SearchMatch {
    /// The number of the line, counted from one.
    pub line: u32,
    pub text: String,
    /// The bytes at which each match on the line begins and ends.
    pub ranges: Vec<(usize, usize)>,
}

/// A file in which something was found.
#[derive(Debug)]
pub struct SearchFileResult {
    pub path: String,
    pub matches: Vec<SearchMatch>,
    /// The letter of the file's status in the working tree, when it has one.
    pub git_status: Option<char>,
}

/// What a line on which something was found stands for.
pub struct Hit {
    pub line: u32,
    pub text: Seq<char>,
    pub ranges: Seq<(usize, usize)>,
}

/// What a file in which something was found stands for.
pub struct Finding {
    pub path: Seq<char>,
    pub hits: Seq<Hit>,
    pub git_status: Option<char>,
}

impl View for SearchMatch {
    type V = Hit;

    open spec fn view(&self) -> Hit {
        Hit { line: self.line, text: self.text@, ranges: self.ranges@ }
    }
}

/// What some lines stand for.
pub open spec fn hits(list: Seq<SearchMatch>) -> Seq<Hit> {
    Seq::new(list.len(), |i: int| list[i]@)
}

impl View for SearchFileResult {
    type V = Finding;

    open spec fn view(&self) -> Finding {
        Finding { path: self.path@, hits: hits(self.matches@), git_status: self.git_status }
    }
}

/// What some files stand for.
pub open spec fn findings(list: Seq<SearchFileResult>) -> Seq<Finding> {
    Seq::new(list.len(), |i: int| list[i]@)
}

/// The lines, among the first `upto`, on which the expression matches; no more than `room`.
pub open spec fn matching_lines(
    re: regex::Regex,
    lines: Seq<Seq<char>>,
    room: int,
    upto: int,
) -> Seq<Hit>
    decreases upto,
{
    if upto <= 0 {
        seq![]
    } else {
        let front = matching_lines(re, lines, room, upto - 1);
        let ranges = found(re, lines[upto - 1]);
        if ranges.len() > 0 && front.len() < room {
            front.push(Hit { line: upto as u32, text: lines[upto - 1], ranges })
        } else {
            front
        }
    }
}

/// All the lines of a text on which the expression matches; no more than `room`.
pub open spec fn hits_in(re: regex::Regex, content: Seq<char>, room: int) -> Seq<Hit> {
    let lines = text::lines_of(content);
    matching_lines(re, lines, room, lines.len() as int)
}

/// Whether the ranges of every hit lie on its line, in order and without overlap.
pub open spec fn all_placed(list: Seq<Hit>) -> bool {
    forall|k: int| 0 <= k < list.len() ==> well_placed((#[trigger] list[k]).ranges, list[k].text)
}

/// Once there is no room left no line is added.
proof fn lemma_no_room(re: regex::Regex, lines: Seq<Seq<char>>, room: int, n: int, upto: int)
    requires
        0 <= n <= upto,
        matching_lines(re, lines, room, n).len() >= room,
    ensures
        matching_lines(re, lines, room, upto) == matching_lines(re, lines, room, n),
    decreases upto,
{
    if n < upto {
        lemma_no_room(re, lines, room, n, upto - 1);
    }
}

/// Keeps a line with the ranges that were found on it, where there are any and there is room for
/// one more.
pub fn keep_line(
    kept: &mut Vec<SearchMatch>,
    number: u32,
    line: String,
    ranges: Vec<(usize, usize)>,
    room: usize,
)
    ensures
        hits(final(kept)@) == (if ranges@.len() > 0 && old(kept)@.len() < room {
            hits(old(kept)@).push((Hit { line: number, text: line@, ranges: ranges@ }))
        } else {
            hits(old(kept)@)
        }),
{
    if ranges.len() > 0 && kept.len() < room {
        let ghost before = hits(kept@);
        let ghost hit = Hit { line: number, text: line@, ranges: ranges@ };
        kept.push(SearchMatch { line: number, text: line, ranges });
        assert(hits(kept@) =~= before.push(hit));
    }
}

/// The lines of a text on which the expression matches; no more than `room`.
pub fn search_text(re: &regex::Regex, content: &str, room: usize) -> (r: Vec<SearchMatch>)
    ensures
        hits(r@) == hits_in(*re, content@, room as int),
        r@.len() <= room,
        forall|k: int|
            0 <= k < r@.len() ==> well_placed((#[trigger] r@[k]).ranges@, r@[k].text@),
{
    let whole: Vec<char> = text::chars_of(content);
    let lines: Vec<Vec<char>> = text::lines(whole.as_slice());
    let ghost all = text::views(lines@);
    let mut out: Vec<SearchMatch> = Vec::new();
    let mut i: usize = 0;
    assert(hits(out@) =~= Seq::<Hit>::empty());
    while i < lines.len() && out.len() < room
        invariant
            i <= lines@.len(),
            all == text::views(lines@),
            hits(out@) == matching_lines(*re, all, room as int, i as int),
            out@.len() <= room,
            all_placed(hits(out@)),
        decreases lines@.len() - i,
    {
        let line: String = text::text_of(lines[i].as_slice());
        let ranges: Vec<(usize, usize)> = find_ranges(re, line.as_str());
        assert(all[i as int] == line@);
        assert(hits(out@).len() == out@.len());
        i += 1;
        keep_line(&mut out, i as u32, line, ranges, room);
        assert(hits(out@).len() == out@.len());
    }
    assert forall|k: int| 0 <= k < out@.len() implies well_placed(
        (#[trigger] out@[k]).ranges@,
        out@[k].text@,
    ) by {
        assert(hits(out@)[k] == out@[k]@);
    }
    proof {
        if i < lines@.len() {
            lemma_no_room(*re, all, room as int, i as int, lines@.len() as int);
        }
    }
    out
}

/// Every hit is on a line of the text, with the matches that the line holds.
pub proof fn law_a_hit_is_a_matching_line(
    re: regex::Regex,
    lines: Seq<Seq<char>>,
    room: int,
    upto: int,
    k: int,
) -> (n: int)
    requires
        0 <= upto <= lines.len(),
        0 <= k < matching_lines(re, lines, room, upto).len(),
    ensures
        k <= n < upto,
        matching_lines(re, lines, room, upto)[k] == (Hit {
            line: (n + 1) as u32,
            text: lines[n],
            ranges: found(re, lines[n]),
        }),
        found(re, lines[n]).len() > 0,
    decreases upto,
{
    lemma_at_most_a_hit_each(re, lines, room, upto);
    if k < matching_lines(re, lines, room, upto - 1).len() {
        law_a_hit_is_a_matching_line(re, lines, room, upto - 1, k)
    } else {
        lemma_at_most_a_hit_each(re, lines, room, upto - 1);
        upto - 1
    }
}

proof fn lemma_at_most_a_hit_each(re: regex::Regex, lines: Seq<Seq<char>>, room: int, upto: int)
    requires
        0 <= upto,
    ensures
        matching_lines(re, lines, room, upto).len() <= upto,
    decreases upto,
{
    if upto > 0 {
        lemma_at_most_a_hit_each(re, lines, room, upto - 1);
    }
}

/// Where there is room, every line on which the expression matches is a hit.
pub proof fn law_a_matching_line_is_a_hit(
    re: regex::Regex,
    lines: Seq<Seq<char>>,
    room: int,
    upto: int,
    n: int,
)
    requires
        0 <= n < upto <= lines.len(),
        found(re, lines[n]).len() > 0,
        matching_lines(re, lines, room, upto).len() < room,
    ensures
        matching_lines(re, lines, room, upto).contains(
            (Hit { line: (n + 1) as u32, text: lines[n], ranges: found(re, lines[n]) }),
        ),
    decreases upto,
{
    let hit = Hit { line: (n + 1) as u32, text: lines[n], ranges: found(re, lines[n]) };
    let all = matching_lines(re, lines, room, upto);
    let front = matching_lines(re, lines, room, upto - 1);
    if n == upto - 1 {
        assert(all[all.len() - 1] == hit);
    } else {
        law_a_matching_line_is_a_hit(re, lines, room, upto - 1, n);
        let k = choose|k: int| 0 <= k < front.len() && front[k] == hit;
        assert(all[k] == hit);
    }
}

/// The hits of a text come in the order of its lines, each on a line of its own; the first line has
/// the number one.
pub proof fn law_the_hits_go_down_the_text(
    re: regex::Regex,
    lines: Seq<Seq<char>>,
    room: int,
    upto: int,
    i: int,
    j: int,
)
    requires
        0 <= upto <= lines.len(),
        upto <= u32::MAX,
        0 <= i < j < matching_lines(re, lines, room, upto).len(),
    ensures
        1 <= matching_lines(re, lines, room, upto)[i].line < matching_lines(
            re,
            lines,
            room,
            upto,
        )[j].line,
    decreases upto,
{
    let front = matching_lines(re, lines, room, upto - 1);
    if j < front.len() {
        law_the_hits_go_down_the_text(re, lines, room, upto - 1, i, j);
    } else {
        let n = law_a_hit_is_a_matching_line(re, lines, room, upto - 1, i);
    }
}

/// How many lines were found in some files.
pub open spec fn count(list: Seq<Finding>) -> int
    decreases list.len(),
{
    if list.len() == 0 {
        0
    } else {
        count(list.drop_last()) + list.last().hits.len()
    }
}

/// What a search may find: no more lines than the limit; in every file at least one, with ranges
/// that lie on it in order and without overlap; and, where only changed files are searched, only
/// files with a status.
pub open spec fn is_outcome(list: Seq<Finding>, modified_only: bool) -> bool {
    &&& count(list) <= MAX_MATCHES
    &&& forall|i: int|
        0 <= i < list.len() ==> (#[trigger] list[i]).hits.len() > 0 && all_placed(list[i].hits)
    &&& modified_only ==> forall|i: int|
        0 <= i < list.len() ==> (#[trigger] list[i]).git_status is Some
}

/// A search on its way through the files of a workspace.
pub struct Search {
    modified_only: bool,
    results: Vec<SearchFileResult>,
    total: usize,
}

impl Search {
    pub closed spec fn modified_only(self) -> bool {
        self.modified_only
    }

    pub closed spec fn results(self) -> Seq<Finding> {
        findings(self.results@)
    }

    pub closed spec fn total(self) -> int {
        self.total as int
    }

    /// The total is what was found, and that is what a search may find.
    pub open spec fn wf(self) -> bool {
        &&& self.total() == count(self.results())
        &&& is_outcome(self.results(), self.modified_only())
    }

    /// A search that has found nothing yet; it may be restricted to files with changes that are
    /// not committed.
    pub fn new(modified_only: bool) -> (r: Self)
        ensures
            r.wf(),
            r.modified_only() == modified_only,
            r.results() == Seq::<Finding>::empty(),
    {
        let r = Search { modified_only, results: Vec::new(), total: 0 };
        assert(r.results() =~= Seq::<Finding>::empty());
        r
    }

    /// Whether enough was found.
    pub fn is_full(&self) -> (r: bool)
        ensures
            r == (self.total() >= MAX_MATCHES),
    {
        self.total >= MAX_MATCHES
    }

    /// Whether a root is worth a walk, given how many of its files have a status.
    pub fn wants_root(&self, statuses: usize) -> (r: bool)
        ensures
            r == !(self.modified_only() && statuses == 0),
    {
        !(self.modified_only && statuses == 0)
    }

    /// Whether something in the tree is worth reading, given whether it is a file, its status and
    /// its size as far as it is known.
    pub fn wants_file(&self, is_file: bool, status: Option<char>, size: Option<u64>) -> (r: bool)
        ensures
            r == (is_file && !(self.modified_only() && status is None) && !(size matches Some(n)
                && n > MAX_FILE_BYTES)),
    {
        if !is_file {
            return false;
        }
        if self.modified_only && status.is_none() {
            return false;
        }
        match size {
            Some(n) => n <= MAX_FILE_BYTES,
            None => true,
        }
    }

    /// Searches what a file holds, and keeps the file where something was found. A file without a
    /// status is not searched where only changed ones are.
    pub fn visit(&mut self, re: &regex::Regex, path: &str, content: &str, status: Option<char>)
        requires
            old(self).wf(),
        ensures
            final(self).wf(),
            final(self).modified_only() == old(self).modified_only(),
            ({
                let hits = if old(self).modified_only() && status is None {
                    seq![]
                } else {
                    hits_in(*re, content@, MAX_MATCHES - old(self).total())
                };
                final(self).results() == (if hits.len() > 0 {
                    old(self).results().push((Finding { path: path@, hits, git_status: status }))
                } else {
                    old(self).results()
                })
            }),
    {
        if self.modified_only && status.is_none() {
            return;
        }
        let room: usize = MAX_MATCHES - self.total;
        let matches: Vec<SearchMatch> = search_text(re, content, room);
        let ghost before = self.results();
        if matches.len() > 0 {
            let added: usize = matches.len();
            let ghost finding = Finding { path: path@, hits: hits(matches@), git_status: status };
            let chars: Vec<char> = text::chars_of(path);
            self.results.push(
                SearchFileResult {
                    path: text::text_of(chars.as_slice()),
                    matches,
                    git_status: status,
                },
            );
            self.total = self.total + added;
            assert(self.results() =~= before.push(finding));
            assert(self.results().drop_last() =~= before);
        }
    }

    /// What was found.
    pub fn finish(self) -> (r: Vec<SearchFileResult>)
        requires
            self.wf(),
        ensures
            findings(r@) == self.results(),
            is_outcome(findings(r@), self.modified_only()),
    {
        self.results
    }
}

/// Whether a line of status output can be taken apart: it is too short to say anything, or its
/// first two bytes are whole characters.
pub open spec fn has_code(line: Seq<char>) -> bool {
    offsets::bytes_in(line) <= 3 || offsets::is_boundary(line, 2)
}

/// The letter of a status code: the first that is no space.
pub open spec fn letter(code: Seq<char>) -> char {
    let shown = text::trimmed(code);
    if shown.len() > 0 {
        shown[0]
    } else {
        'M'
    }
}

/// What the first `upto` lines of status output say: each path with its letter.
pub open spec fn statuses(lines: Seq<Seq<char>>, upto: int) -> Seq<(Seq<char>, char)>
    decreases upto,
{
    if upto <= 0 {
        seq![]
    } else {
        let front = statuses(lines, upto - 1);
        let line = lines[upto - 1];
        if offsets::bytes_in(line) <= 3 {
            front
        } else {
            let end = offsets::bytes_in(line);
            front.push(
                (
                    text::trimmed(offsets::part(line, 2, end)),
                    letter(offsets::part(line, 0, 2)),
                ),
            )
        }
    }
}

/// What some paths with their letters stand for.
pub open spec fn status_views(list: Seq<(String, char)>) -> Seq<(Seq<char>, char)> {
    Seq::new(list.len(), |i: int| (list[i].0@, list[i].1))
}

/// The start and the end of a text are between characters.
proof fn lemma_ends_are_boundaries(s: Seq<char>)
    ensures
        offsets::is_boundary(s, 0),
        offsets::is_boundary(s, offsets::bytes_in(s)),
{
    assert(s.take(0) =~= Seq::<char>::empty());
    assert(offsets::is_at(s, 0, 0));
    assert(s.take(s.len() as int) =~= s);
    assert(offsets::is_at(s, s.len() as int, offsets::bytes_in(s)));
}

/// What one line of status output says.
fn status_of(line: &[char]) -> (r: Option<(String, char)>)
    requires
        has_code(line@),
    ensures
        r is None <==> offsets::bytes_in(line@) <= 3,
        r matches Some((path, c)) ==> path@ == text::trimmed(
            offsets::part(line@, 2, offsets::bytes_in(line@)),
        ) && c == letter(offsets::part(line@, 0, 2)),
{
    let whole: String = text::text_of(line);
    let end: usize = offsets::byte_len(whole.as_str());
    if end <= 3 {
        return None;
    }
    let code: Vec<char> = offsets::part_of(line, 0, 2);
    let rest: Vec<char> = offsets::part_of(line, 2, end);
    let shown: &[char] = text::trim(code.as_slice());
    let c: char = if shown.len() > 0 {
        shown[0]
    } else {
        'M'
    };
    Some((text::text_of(text::trim(rest.as_slice())), c))
}

/// The paths that `git status --porcelain=v1` lists, relative to the root it was asked for, each
/// with the letter of its status.
pub fn git_status_lines(output: &str) -> (r: Vec<(String, char)>)
    requires
        forall|i: int|
            0 <= i < text::lines_of(output@).len() ==> has_code(
                #[trigger] text::lines_of(output@)[i],
            ),
    ensures
        status_views(r@) == statuses(
            text::lines_of(output@),
            text::lines_of(output@).len() as int,
        ),
{
    let whole: Vec<char> = text::chars_of(output);
    let lines: Vec<Vec<char>> = text::lines(whole.as_slice());
    let ghost all = text::lines_of(output@);
    let mut out: Vec<(String, char)> = Vec::new();
    let mut i: usize = 0;
    assert(status_views(out@) =~= Seq::<(Seq<char>, char)>::empty());
    while i < lines.len()
        invariant
            i <= lines@.len(),
            all == text::views(lines@),
            forall|k: int| 0 <= k < all.len() ==> has_code(#[trigger] all[k]),
            status_views(out@) == statuses(all, i as int),
        decreases lines@.len() - i,
    {
        let ghost before = status_views(out@);
        assert(all[i as int] == lines@[i as int]@);
        if let Some((path, c)) = status_of(lines[i].as_slice()) {
            let ghost entry = (path@, c);
            out.push((path, c));
            assert(status_views(out@) =~= before.push(entry));
        }
        i += 1;
    }
    out
}

/// Whether every line of status output can be taken apart.
pub open spec fn all_have_codes(output: Seq<char>) -> bool {
    forall|i: int|
        0 <= i < text::lines_of(output).len() ==> has_code(#[trigger] text::lines_of(output)[i])
}

/// The paths that `git status --porcelain=v1` lists, relative to the root it was asked for, each
/// with the letter of its status, given whether the command succeeded and what it printed. Output
/// that cannot be taken apart gives `None`.
pub fn git_status_map(success: bool, stdout: &[u8]) -> (r: Option<Vec<(String, char)>>)
    ensures
        !success ==> (r matches Some(list) && list@.len() == 0),
        success ==> (r is Some <==> all_have_codes(offsets::lossy(stdout@))),
        success ==> (r matches Some(list) ==> ({
            let lines = text::lines_of(offsets::lossy(stdout@));
            status_views(list@) == statuses(lines, lines.len() as int)
        })),
{
    if !success {
        return Some(Vec::new());
    }
    let output: String = offsets::from_utf8_lossy(stdout);
    let whole: Vec<char> = text::chars_of(output.as_str());
    let lines: Vec<Vec<char>> = text::lines(whole.as_slice());
    let ghost all = text::lines_of(output@);
    let mut i: usize = 0;
    while i < lines.len()
        invariant
            i <= lines@.len(),
            all == text::views(lines@),
            all == text::lines_of(output@),
            success,
            output@ == offsets::lossy(stdout@),
            forall|k: int| 0 <= k < i ==> has_code(#[trigger] all[k]),
        decreases lines@.len() - i,
    {
        let line: &[char] = lines[i].as_slice();
        let shown: String = text::text_of(line);
        assert(all[i as int] == line@);
        if offsets::byte_len(shown.as_str()) > 3 && offsets::locate(line, 2).is_none() {
            assert(!has_code(all[i as int]));
            assert(!all_have_codes(output@));
            return None;
        }
        i += 1;
    }
    Some(git_status_lines(output.as_str()))
}

/// A piece of a line, which is shown as found or not.
#[derive(Debug)]
pub struct Segment {
    pub text: String,
    pub found: bool,
}

/// What some pieces of a line stand for.
pub open spec fn segment_views(list: Seq<Segment>) -> Seq<(Seq<char>, bool)> {
    Seq::new(list.len(), |i: int| (list[i].text@, list[i].found))
}

/// The bytes that the white space at the front of a line takes.
pub open spec fn indent(line: Seq<char>) -> int {
    offsets::bytes_in(line.take(line.len() - text::trimmed_start(line).len()))
}

/// Where the pieces shown for the first `upto` ranges end.
pub open spec fn shown_to(line: Seq<char>, ranges: Seq<(usize, usize)>, upto: int) -> int
    decreases upto,
{
    if upto <= 0 {
        indent(line)
    } else if ranges[upto - 1].0 < indent(line) {
        shown_to(line, ranges, upto - 1)
    } else {
        ranges[upto - 1].1 as int
    }
}

/// The pieces shown for the first `upto` ranges of a line. A match that begins in the white space
/// at the front, which is not shown, is passed over.
pub open spec fn pieces_to(line: Seq<char>, ranges: Seq<(usize, usize)>, upto: int) -> Seq<
    (Seq<char>, bool),
>
    decreases upto,
{
    if upto <= 0 {
        seq![]
    } else {
        let front = pieces_to(line, ranges, upto - 1);
        let (start, end) = ranges[upto - 1];
        let cursor = shown_to(line, ranges, upto - 1);
        if start < indent(line) {
            front
        } else {
            let plain = if cursor < start {
                front.push((offsets::part(line, cursor, start as int), false))
            } else {
                front
            };
            plain.push((offsets::part(line, start as int, end as int), true))
        }
    }
}

/// The pieces in which a line is shown.
pub open spec fn pieces(line: Seq<char>, ranges: Seq<(usize, usize)>) -> Seq<(Seq<char>, bool)> {
    let front = pieces_to(line, ranges, ranges.len() as int);
    let cursor = shown_to(line, ranges, ranges.len() as int);
    let end = offsets::bytes_in(line);
    if cursor < end {
        front.push((offsets::part(line, cursor, end), false))
    } else {
        front
    }
}

/// The pieces in which a line is shown, without the white space at its front.
pub fn segments(line: &str, ranges: &Vec<(usize, usize)>) -> (r: Vec<Segment>)
    ensures
        segment_views(r@) == pieces(line@, ranges@),
{
    let chars: Vec<char> = text::chars_of(line);
    let end: usize = offsets::byte_len(line);
    let rest: &[char] = text::trim_start(chars.as_slice());
    let lead: usize = chars.len() - rest.len();
    let space: &[char] = vstd::slice::slice_subrange(chars.as_slice(), 0, lead);
    let skipped: String = text::text_of(space);
    let offset: usize = offsets::byte_len(skipped.as_str());
    assert(space@ =~= line@.take(lead as int));
    let mut cursor: usize = offset;
    let mut out: Vec<Segment> = Vec::new();
    let mut i: usize = 0;
    assert(segment_views(out@) =~= Seq::<(Seq<char>, bool)>::empty());
    while i < ranges.len()
        invariant
            i <= ranges@.len(),
            chars@ == line@,
            offset == indent(line@),
            cursor == shown_to(line@, ranges@, i as int),
            segment_views(out@) == pieces_to(line@, ranges@, i as int),
        decreases ranges@.len() - i,
    {
        let (start, stop) = ranges[i];
        if start >= offset {
            if cursor < start {
                let ghost before = segment_views(out@);
                let plain: Vec<char> = offsets::part_of(chars.as_slice(), cursor, start);
                let shown: String = text::text_of(plain.as_slice());
                out.push(Segment { text: shown, found: false });
                assert(segment_views(out@) =~= before.push((plain@, false)));
            }
            let ghost before = segment_views(out@);
            let hit: Vec<char> = offsets::part_of(chars.as_slice(), start, stop);
            let shown: String = text::text_of(hit.as_slice());
            out.push(Segment { text: shown, found: true });
            assert(segment_views(out@) =~= before.push((hit@, true)));
            cursor = stop;
        }
        i += 1;
    }
    if cursor < end {
        let ghost before = segment_views(out@);
        let plain: Vec<char> = offsets::part_of(chars.as_slice(), cursor, end);
        let shown: String = text::text_of(plain.as_slice());
        out.push(Segment { text: shown, found: false });
        assert(segment_views(out@) =~= before.push((plain@, false)));
    }
    out
}

/// Pieces one behind the other.
pub open spec fn put_together(list: Seq<(Seq<char>, bool)>) -> Seq<char>
    decreases list.len(),
{
    if list.len() == 0 {
        seq![]
    } else {
        put_together(list.drop_last()) + list.last().0
    }
}

/// One piece more at the end.
proof fn lemma_put_one_more(list: Seq<(Seq<char>, bool)>, piece: (Seq<char>, bool))
    ensures
        put_together(list.push(piece)) == put_together(list) + piece.0,
{
    assert(list.push(piece).drop_last() =~= list);
}

/// Two parts that meet are one part.
proof fn lemma_parts_meet(s: Seq<char>, a: int, b: int, c: int)
    requires
        a <= b <= c,
        offsets::is_boundary(s, a),
        offsets::is_boundary(s, b),
        offsets::is_boundary(s, c),
    ensures
        offsets::part(s, a, b) + offsets::part(s, b, c) == offsets::part(s, a, c),
{
    offsets::lemma_in_order(s, a, b);
    offsets::lemma_in_order(s, b, c);
    assert(offsets::part(s, a, b) + offsets::part(s, b, c) =~= offsets::part(s, a, c));
}

/// Where the pieces shown so far end, and what they hold.
proof fn lemma_pieces_to(line: Seq<char>, ranges: Seq<(usize, usize)>, upto: int)
    requires
        0 <= upto <= ranges.len(),
        well_placed(ranges, line),
    ensures
        indent(line) <= shown_to(line, ranges, upto),
        offsets::is_boundary(line, shown_to(line, ranges, upto)),
        forall|j: int|
            upto <= j < ranges.len() && (#[trigger] ranges[j]).0 >= indent(line) ==> shown_to(
                line,
                ranges,
                upto,
            ) <= ranges[j].0,
        put_together(pieces_to(line, ranges, upto)) == offsets::part(
            line,
            indent(line),
            shown_to(line, ranges, upto),
        ),
    decreases upto,
{
    let n = line.len() - text::trimmed_start(line).len();
    lemma_trimmed_is_suffix(line);
    assert(offsets::is_at(line, n, indent(line)));
    assert(offsets::is_boundary(line, indent(line)));
    if upto == 0 {
        offsets::lemma_in_order(line, indent(line), indent(line));
        assert(offsets::part(line, indent(line), indent(line)) =~= Seq::<char>::empty());
    } else {
        lemma_pieces_to(line, ranges, upto - 1);
        let front = pieces_to(line, ranges, upto - 1);
        let (start, end) = ranges[upto - 1];
        let cursor = shown_to(line, ranges, upto - 1);
        if start >= indent(line) {
            assert(cursor <= start);
            lemma_parts_meet(line, indent(line), cursor, start as int);
            lemma_parts_meet(line, indent(line), start as int, end as int);
            let plain = if cursor < start {
                front.push((offsets::part(line, cursor, start as int), false))
            } else {
                front
            };
            if cursor < start {
                lemma_put_one_more(front, (offsets::part(line, cursor, start as int), false));
            }
            lemma_put_one_more(plain, (offsets::part(line, start as int, end as int), true));
        }
    }
}

/// Trimming the front leaves the end of a text.
proof fn lemma_trimmed_is_suffix(s: Seq<char>)
    ensures
        text::trimmed_start(s).len() <= s.len(),
        text::trimmed_start(s) == s.skip(s.len() - text::trimmed_start(s).len()),
    decreases s.len(),
{
    if s.len() > 0 && text::is_space(s[0]) {
        lemma_trimmed_is_suffix(s.skip(1));
        assert(s.skip(1).skip(s.len() - 1 - text::trimmed_start(s).len()) =~= s.skip(
            s.len() - text::trimmed_start(s).len(),
        ));
    } else {
        assert(s.skip(0) =~= s);
    }
}

/// A line from behind its white space to its end.
proof fn lemma_behind_the_indent(line: Seq<char>)
    ensures
        offsets::is_boundary(line, indent(line)),
        offsets::part(line, indent(line), offsets::bytes_in(line)) == text::trimmed_start(line),
{
    let n = line.len() - text::trimmed_start(line).len();
    let end = offsets::bytes_in(line);
    lemma_trimmed_is_suffix(line);
    assert(line.take(line.len() as int) =~= line);
    offsets::lemma_bytes_grow(line, n, line.len() as int);
    assert(offsets::is_at(line, n, indent(line)));
    assert(offsets::is_at(line, line.len() as int, end));
    offsets::lemma_at_one(line, n, indent(line));
    offsets::lemma_at_one(line, line.len() as int, end);
    assert(line.subrange(n, line.len() as int) =~= line.skip(n));
}

/// The pieces in which a line is shown make up the line without the white space at its front:
/// highlighting neither loses nor repeats anything.
pub proof fn law_the_pieces_make_up_the_line(line: Seq<char>, ranges: Seq<(usize, usize)>)
    requires
        well_placed(ranges, line),
    ensures
        put_together(pieces(line, ranges)) == text::trimmed_start(line),
{
    let upto = ranges.len() as int;
    let cursor = shown_to(line, ranges, upto);
    let end = offsets::bytes_in(line);
    let front = pieces_to(line, ranges, upto);
    lemma_pieces_to(line, ranges, upto);
    lemma_ends_are_boundaries(line);
    lemma_behind_the_indent(line);
    assert(cursor <= end) by {
        let k = offsets::char_at(line, cursor);
        assert(offsets::is_at(line, k, cursor));
        offsets::lemma_bytes_grow(line, k, line.len() as int);
        assert(line.take(line.len() as int) =~= line);
    }
    lemma_parts_meet(line, indent(line), cursor, end);
    if cursor < end {
        lemma_put_one_more(front, (offsets::part(line, cursor, end), false));
    } else {
        let rest = offsets::part(line, cursor, end);
        offsets::lemma_in_order(line, cursor, end);
        assert(rest =~= Seq::<char>::empty());
        assert(put_together(front) + rest =~= put_together(front));
    }
}

/// The states that a listing of the working tree gives.
pub open spec fn statuses_in(output: Seq<char>) -> Seq<(Seq<char>, char)> {
    statuses(text::lines_of(output), text::lines_of(output).len() as int)
}

proof fn lemma_statuses_front(a: Seq<Seq<char>>, b: Seq<Seq<char>>, upto: int)
    requires
        0 <= upto <= a.len(),
    ensures
        statuses(a + b, upto) == statuses(a, upto),
    decreases upto,
{
    if upto > 0 {
        lemma_statuses_front(a, b, upto - 1);
        assert((a + b)[upto - 1] == a[upto - 1]);
    }
}

proof fn lemma_statuses_sum(a: Seq<Seq<char>>, b: Seq<Seq<char>>, upto: int)
    requires
        0 <= upto <= b.len(),
    ensures
        statuses(a + b, a.len() + upto) == statuses(a, a.len() as int) + statuses(b, upto),
    decreases upto,
{
    if upto == 0 {
        lemma_statuses_front(a, b, a.len() as int);
        assert(statuses(a, a.len() as int) + statuses(b, 0) =~= statuses(a, a.len() as int));
    } else {
        lemma_statuses_sum(a, b, upto - 1);
        assert((a + b)[a.len() + upto - 1] == b[upto - 1]);
        assert(statuses(a + b, a.len() + upto) =~= statuses(a, a.len() as int) + statuses(
            b,
            upto,
        ));
    }
}

/// The state that a code of two letters stands for: the first of them that is no blank, or `M` where
/// both are.
pub open spec fn state_of(x: char, y: char) -> char {
    if !text::is_space(x) {
        x
    } else if !text::is_space(y) {
        y
    } else {
        'M'
    }
}

proof fn lemma_letter(x: char, y: char)
    ensures
        letter(seq![x, y]) == state_of(x, y),
{
    let none = Seq::<char>::empty();
    let code = seq![x, y];
    if !text::is_space(x) && !text::is_space(y) {
        text_laws::law_blanks_around_are_trimmed(none, code, none);
        assert(none + code + none =~= code);
    } else if !text::is_space(x) {
        text_laws::law_blanks_around_are_trimmed(none, seq![x], seq![y]);
        assert(none + seq![x] + seq![y] =~= code);
    } else if !text::is_space(y) {
        text_laws::law_blanks_around_are_trimmed(seq![x], seq![y], none);
        assert(seq![x] + seq![y] + none =~= code);
    } else {
        text_laws::law_blanks_around_are_trimmed(code, none, none);
        assert(code + none + none =~= code);
    }
}

proof fn lemma_status_line(x: char, y: char, path: Seq<char>)
    requires
        (x as u32) < 128,
        (y as u32) < 128,
        path.len() > 0,
        !text::is_space(path[0]),
        !text::is_space(path.last()),
    ensures
        statuses(seq![seq![x, y, ' '] + path], 1) == seq![(path, state_of(x, y))],
{
    let line = seq![x, y, ' '] + path;
    let none = Seq::<char>::empty();
    let code = seq![x, y];
    let tail = seq![' '] + path;
    assert(line =~= none + code + tail);
    assert(line =~= code + tail + none);
    offsets::law_a_part_is_what_is_between(none, code, tail);
    offsets::law_a_part_is_what_is_between(code, tail, none);
    offsets::lemma_bytes_bound(path);
    offsets::lemma_bytes_concat(seq![' '], path);
    offsets::lemma_bytes_concat(code, tail);
    assert(code + tail =~= line);
    assert(offsets::bytes_in(none) == 0);
    assert(seq![x].drop_last() =~= none);
    assert(offsets::bytes_in(seq![x]) == 1);
    assert(code.drop_last() =~= seq![x]);
    assert(offsets::bytes_in(code) == 2);
    assert(seq![' '].drop_last() =~= none);
    assert(offsets::bytes_in(seq![' ']) == 1);
    assert(offsets::bytes_in(line) == 2 + offsets::bytes_in(tail));
    assert(offsets::bytes_in(line) > 3);
    text_laws::law_blanks_around_are_trimmed(seq![' '], path, none);
    assert(seq![' '] + path + none =~= tail);
    lemma_letter(x, y);
    let b = seq![line];
    assert(statuses(b, 0) =~= seq![]);
    assert(b[0] == line);
    assert(offsets::part(line, 0, 2) == code);
    assert(offsets::part(line, 2, offsets::bytes_in(line)) == tail);
    assert(statuses(b, 1) =~= seq![(path, state_of(x, y))]);
}

/// Each line of a listing of the working tree gives the file behind its code a state, whatever lines
/// are around it: the first letter of the code that is no blank, or `M` where both are.
pub proof fn law_each_line_gives_a_file_its_state(
    before: Seq<char>,
    x: char,
    y: char,
    path: Seq<char>,
    after: Seq<char>,
)
    requires
        before.len() == 0 || before.last() == '\n',
        (x as u32) < 128,
        (y as u32) < 128,
        x != '\n',
        y != '\n',
        path.len() > 0,
        !path.contains('\n'),
        !text::is_space(path[0]),
        !text::is_space(path.last()),
    ensures
        statuses_in(before + (seq![x, y, ' '] + path) + seq!['\n'] + after) == statuses_in(before)
            + seq![
            (path, state_of(x, y)),
        ] + statuses_in(after),
{
    let line = seq![x, y, ' '] + path;
    let end = line.push('\n');
    assert(!line.contains('\n')) by {
        if line.contains('\n') {
            let i = choose|i: int| 0 <= i < line.len() && line[i] == '\n';
            if i >= 3 {
                assert(path[i - 3] == '\n');
                assert(path.contains(path[i - 3]));
            }
        }
    }
    assert(line.last() == path.last());
    text_laws::law_a_line_is_a_line(line);
    text_laws::law_lines_follow_each_other(end, after);
    text_laws::law_lines_follow_each_other(before, end + after);
    assert(before + (end + after) =~= before + line + seq!['\n'] + after);
    let a = text::lines_of(before);
    let b = seq![line];
    let c = text::lines_of(after);
    assert(text::lines_of(end) =~= b);
    lemma_statuses_sum(b, c, c.len() as int);
    lemma_statuses_sum(a, b + c, (b + c).len() as int);
    let state = state_of(x, y);
    lemma_status_line(x, y, path);
    assert(statuses_in(before + line + seq!['\n'] + after) =~= statuses_in(before) + seq![
        (path, state),
    ] + statuses_in(after));
}

/// Where there is room for fewer lines, the first ones are kept.
pub proof fn law_the_first_matching_lines_are_kept(
    re: regex::Regex,
    lines: Seq<Seq<char>>,
    room: int,
    more: int,
    upto: int,
)
    requires
        0 <= room <= more,
    ensures
        ({
            let few = matching_lines(re, lines, room, upto);
            let many = matching_lines(re, lines, more, upto);
            &&& few.is_prefix_of(many)
            &&& few.len() == (if many.len() < room {
                many.len() as int
            } else {
                room
            })
        }),
    decreases upto,
{
    if upto > 0 {
        law_the_first_matching_lines_are_kept(re, lines, room, more, upto - 1);
    }
}

/// The files of a search are as many matches as all of them together, and a search ends with no more
/// than two thousand.
pub proof fn law_the_matches_of_all_files_count(
    a: Seq<Finding>,
    b: Seq<Finding>,
    one: Finding,
    modified_only: bool,
)
    ensures
        count(a + b) == count(a) + count(b),
        count(seq![one]) == one.hits.len(),
        count(seq![]) == 0,
        is_outcome(a, modified_only) ==> count(a) <= 2000,
    decreases b.len(),
{
    if b.len() == 0 {
        assert(a + b =~= a);
    } else {
        law_the_matches_of_all_files_count(a, b.drop_last(), one, modified_only);
        assert((a + b).drop_last() =~= a + b.drop_last());
    }
    assert(seq![one].drop_last() =~= seq![]);
    reveal_with_fuel(count, 2);
}

/// The texts of the pieces that were found.
pub open spec fn found_texts(list: Seq<(Seq<char>, bool)>) -> Seq<Seq<char>>
    decreases list.len(),
{
    if list.len() == 0 {
        seq![]
    } else if list.last().1 {
        found_texts(list.drop_last()).push(list.last().0)
    } else {
        found_texts(list.drop_last())
    }
}

/// The texts at some ranges.
pub open spec fn texts_at(line: Seq<char>, ranges: Seq<(usize, usize)>) -> Seq<Seq<char>> {
    Seq::new(
        ranges.len(),
        |i: int| offsets::part(line, ranges[i].0 as int, ranges[i].1 as int),
    )
}

/// What was found is drawn as found, match by match, and nothing else is, where no match begins in
/// the white space in front.
pub proof fn law_what_was_found_is_drawn_as_found(line: Seq<char>, ranges: Seq<(usize, usize)>)
    requires
        forall|i: int| 0 <= i < ranges.len() ==> (#[trigger] ranges[i]).0 >= indent(line),
    ensures
        found_texts(pieces(line, ranges)) == texts_at(line, ranges),
{
    let upto = ranges.len() as int;
    lemma_found_texts(line, ranges, upto);
    assert(ranges.take(upto) =~= ranges);
    let front = pieces_to(line, ranges, upto);
    let whole = pieces(line, ranges);
    if whole.len() > front.len() {
        assert(whole.drop_last() =~= front);
    }
}

proof fn lemma_found_texts(line: Seq<char>, ranges: Seq<(usize, usize)>, upto: int)
    requires
        0 <= upto <= ranges.len(),
        forall|i: int| 0 <= i < ranges.len() ==> (#[trigger] ranges[i]).0 >= indent(line),
    ensures
        found_texts(pieces_to(line, ranges, upto)) == texts_at(line, ranges.take(upto)),
    decreases upto,
{
    if upto > 0 {
        lemma_found_texts(line, ranges, upto - 1);
        let front = pieces_to(line, ranges, upto - 1);
        let (start, end) = ranges[upto - 1];
        assert(ranges[upto - 1].0 >= indent(line));
        let cursor = shown_to(line, ranges, upto - 1);
        let plain = if cursor < start {
            front.push((offsets::part(line, cursor, start as int), false))
        } else {
            front
        };
        if cursor < start {
            assert(plain.drop_last() =~= front);
        }
        assert(found_texts(plain) == found_texts(front));
        let all = pieces_to(line, ranges, upto);
        assert(all.drop_last() =~= plain);
        assert(found_texts(all) =~= texts_at(line, ranges.take(upto)));
    } else {
        assert(found_texts(pieces_to(line, ranges, upto)) =~= texts_at(line, ranges.take(upto)));
    }
}

} // verus!
