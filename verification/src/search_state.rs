//! The state of the search panel: what is asked for, what was found, and what of it is shown.

use vstd::prelude::*;

use crate::numbers;
use crate::paths;
use crate::paths::Platform;
use crate::search_panel;
use crate::search_panel::SearchFileResult;
use crate::text;

verus! {

/// Past this many lines the list stops drawing more.
pub const MAX_RENDERED_ROWS: usize = 300;

/// What a search looks for: the text that was typed, and the switches that say how it is meant.
#[derive(Debug)]
pub struct Wanted {
    pub query: String,
    pub case_sensitive: bool,
    pub whole_word: bool,
    pub regex: bool,
}

/// What a search looks for.
#[verifier::ext_equal]
pub struct Question {
    pub query: Seq<char>,
    pub case_sensitive: bool,
    pub whole_word: bool,
    pub regex: bool,
}

impl View for Wanted {
    type V = Question;

    open spec fn view(&self) -> Question {
        Question {
            query: self.query@,
            case_sensitive: self.case_sensitive,
            whole_word: self.whole_word,
            regex: self.regex,
        }
    }
}

impl Question {
    /// The expression that is looked for.
    pub open spec fn sought(self) -> Option<regex::Regex> {
        search_panel::sought(self.query, self.case_sensitive, self.whole_word, self.regex)
    }
}

/// The same once more.
fn once_more(wanted: &Wanted) -> (r: Wanted)
    ensures
        r@ == wanted@,
{
    Wanted {
        query: wanted.query.clone(),
        case_sensitive: wanted.case_sensitive,
        whole_word: wanted.whole_word,
        regex: wanted.regex,
    }
}

/// The search panel.
#[derive(Debug)]
pub struct SearchPanel {
    pub case_sensitive: bool,
    pub whole_word: bool,
    pub regex: bool,
    /// Only files with changes that are not committed are searched.
    pub modified_only: bool,
    pub results: Vec<SearchFileResult>,
    pub file_count: usize,
    pub match_count: usize,
    pub searching: bool,
    pub truncated: bool,
    pub elapsed_ms: u64,
    /// The files whose matches are folded away.
    pub collapsed: Vec<String>,
    /// Grows with every search, so that the answer to an older one is known when it comes.
    pub generation: u64,
    /// What was asked for last.
    pub wanted: Wanted,
    /// What the results were found with.
    pub found_with: Wanted,
}

/// What the search panel stands for.
#[verifier::ext_equal]
pub struct Panel {
    pub case_sensitive: bool,
    pub whole_word: bool,
    pub regex: bool,
    pub modified_only: bool,
    pub results: Seq<search_panel::Finding>,
    pub file_count: int,
    pub match_count: int,
    pub searching: bool,
    pub truncated: bool,
    pub elapsed_ms: u64,
    pub collapsed: Seq<Seq<char>>,
    pub generation: u64,
    pub wanted: Question,
    pub found_with: Question,
}

impl View for SearchPanel {
    type V = Panel;

    open spec fn view(&self) -> Panel {
        Panel {
            case_sensitive: self.case_sensitive,
            whole_word: self.whole_word,
            regex: self.regex,
            modified_only: self.modified_only,
            results: search_panel::findings(self.results@),
            file_count: self.file_count as int,
            match_count: self.match_count as int,
            searching: self.searching,
            truncated: self.truncated,
            elapsed_ms: self.elapsed_ms,
            collapsed: text::strings(self.collapsed@),
            generation: self.generation,
            wanted: self.wanted@,
            found_with: self.found_with@,
        }
    }
}

/// A search to be run in the background.
pub struct Job {
    pub generation: u64,
    pub pattern: regex::Regex,
    pub modified_only: bool,
}

impl Panel {
    /// The expression that a query stands for in this panel.
    pub open spec fn sought(self, query: Seq<char>) -> Option<regex::Regex> {
        search_panel::sought(query, self.case_sensitive, self.whole_word, self.regex)
    }

    /// What a query asks for in this panel.
    pub open spec fn question(self, query: Seq<char>) -> Question {
        Question {
            query,
            case_sensitive: self.case_sensitive,
            whole_word: self.whole_word,
            regex: self.regex,
        }
    }

    /// The panel once a search was asked for, with at least one root or none, on this machine or
    /// another.
    pub open spec fn asked(self, query: Seq<char>, roots: bool, local: bool) -> Panel {
        let next = Panel {
            generation: (self.generation + 1) as u64,
            wanted: self.question(query),
            ..self
        };
        if self.sought(query) is None {
            Panel {
                results: seq![],
                file_count: 0,
                match_count: 0,
                truncated: false,
                searching: false,
                found_with: next.wanted,
                ..next
            }
        } else if !roots || !local {
            Panel { results: seq![], found_with: next.wanted, ..next }
        } else {
            Panel { searching: true, ..next }
        }
    }

    /// The panel once a search has ended.
    pub open spec fn landed(
        self,
        platform: Platform,
        generation: u64,
        results: Seq<search_panel::Finding>,
        elapsed_ms: u64,
    ) -> Panel {
        if self.generation != generation {
            self
        } else {
            Panel {
                searching: false,
                file_count: results.len() as int,
                match_count: search_panel::count(results),
                truncated: search_panel::count(results) >= search_panel::MAX_MATCHES,
                elapsed_ms,
                collapsed: self.collapsed.filter(
                    |path: Seq<char>| among(platform, result_paths(results), path),
                ),
                results,
                found_with: self.wanted,
                ..self
            }
        }
    }
}

/// The paths of some files.
pub open spec fn result_paths(results: Seq<search_panel::Finding>) -> Seq<Seq<char>> {
    Seq::new(results.len(), |i: int| results[i].path)
}

/// Whether a path is among others.
pub open spec fn among(platform: Platform, list: Seq<Seq<char>>, path: Seq<char>) -> bool {
    exists|i: int|
        0 <= i < list.len() && paths::parts(platform, #[trigger] list[i]) == paths::parts(
            platform,
            path,
        )
}

/// The folded files once one of them was clicked: it is folded if it was not, and else no longer.
pub open spec fn toggled(platform: Platform, list: Seq<Seq<char>>, path: Seq<char>) -> Seq<
    Seq<char>,
> {
    if among(platform, list, path) {
        list.filter(|p: Seq<char>| paths::parts(platform, p) != paths::parts(platform, path))
    } else {
        list.push(path)
    }
}

/// Whether a path is among some files.
fn is_among_results(platform: Platform, list: &Vec<SearchFileResult>, path: &str) -> (r: bool)
    ensures
        r == among(platform, result_paths(search_panel::findings(list@)), path@),
{
    let sought: Vec<char> = text::chars_of(path);
    let ghost all = result_paths(search_panel::findings(list@));
    let mut i: usize = 0;
    while i < list.len()
        invariant
            i <= list@.len(),
            sought@ == path@,
            all == result_paths(search_panel::findings(list@)),
            forall|k: int|
                0 <= k < i ==> paths::parts(platform, #[trigger] all[k]) != paths::parts(
                    platform,
                    path@,
                ),
        decreases list@.len() - i,
    {
        let one: Vec<char> = text::chars_of(list[i].path.as_str());
        assert(all[i as int] == one@);
        if paths::same_path(platform, one.as_slice(), sought.as_slice()) {
            return true;
        }
        i += 1;
    }
    false
}

/// Whether a path is among others.
fn is_among(platform: Platform, list: &Vec<String>, path: &str) -> (r: bool)
    ensures
        r == among(platform, text::strings(list@), path@),
{
    let sought: Vec<char> = text::chars_of(path);
    let ghost all = text::strings(list@);
    let mut i: usize = 0;
    while i < list.len()
        invariant
            i <= list@.len(),
            sought@ == path@,
            all == text::strings(list@),
            forall|k: int|
                0 <= k < i ==> paths::parts(platform, #[trigger] all[k]) != paths::parts(
                    platform,
                    path@,
                ),
        decreases list@.len() - i,
    {
        let one: Vec<char> = text::chars_of(list[i].as_str());
        assert(all[i as int] == one@);
        if paths::same_path(platform, one.as_slice(), sought.as_slice()) {
            return true;
        }
        i += 1;
    }
    false
}

/// How many lines were found in some files, and no fewer in more of them.
proof fn lemma_count_grows(list: Seq<search_panel::Finding>, n: int)
    requires
        0 <= n <= list.len(),
    ensures
        0 <= search_panel::count(list.take(n)) <= search_panel::count(list),
    decreases list.len(),
{
    if n == list.len() {
        assert(list.take(n) =~= list);
        if n > 0 {
            lemma_count_grows(list.drop_last(), n - 1);
            assert(list.drop_last().take(n - 1) =~= list.drop_last());
        }
    } else {
        lemma_count_grows(list.drop_last(), n);
        assert(list.drop_last().take(n) =~= list.take(n));
    }
}

/// How many lines were found in some files.
fn count_matches(list: &Vec<SearchFileResult>) -> (r: usize)
    requires
        search_panel::count(search_panel::findings(list@)) <= usize::MAX,
    ensures
        r == search_panel::count(search_panel::findings(list@)),
{
    let ghost all = search_panel::findings(list@);
    let mut sum: usize = 0;
    let mut i: usize = 0;
    while i < list.len()
        invariant
            i <= list@.len(),
            all == search_panel::findings(list@),
            search_panel::count(all) <= usize::MAX,
            sum == search_panel::count(all.take(i as int)),
        decreases list@.len() - i,
    {
        proof {
            lemma_count_grows(all, i + 1);
            assert(all.take(i + 1).drop_last() =~= all.take(i as int));
            assert(all.take(i + 1).last() == list@[i as int]@);
        }
        sum += list[i].matches.len();
        i += 1;
    }
    assert(all.take(i as int) =~= all);
    sum
}

/// One of the switches of the panel.
#[derive(Clone, Copy, Debug, PartialEq, Eq, Structural)]
pub enum Flag {
    CaseSensitive,
    WholeWord,
    Regex,
    ModifiedOnly,
}

/// A line of the summary.
pub open spec fn summary_line(
    base: Seq<char>,
    elapsed_ms: u64,
    truncated: bool,
    note: Seq<char>,
) -> Seq<char> {
    let line = base + " ("@ + numbers::decimal(elapsed_ms as nat) + " ms)"@;
    if truncated {
        line + " — "@ + note
    } else {
        line
    }
}

/// The question of a panel in which nothing was asked for yet.
pub open spec fn nothing() -> Question {
    Question { query: seq![], case_sensitive: false, whole_word: false, regex: false }
}

/// The question of a panel in which nothing was asked for yet.
fn no_question() -> (r: Wanted)
    ensures
        r@ == nothing(),
{
    let query: String = String::new();
    assert(query@ =~= seq![]);
    Wanted { query, case_sensitive: false, whole_word: false, regex: false }
}

impl SearchPanel {
    /// A panel in which nothing was asked for yet.
    pub fn new() -> (r: Self)
        ensures
            r@ == (Panel {
                case_sensitive: false,
                whole_word: false,
                regex: false,
                modified_only: false,
                results: seq![],
                file_count: 0,
                match_count: 0,
                searching: false,
                truncated: false,
                elapsed_ms: 0,
                collapsed: seq![],
                generation: 0,
                wanted: nothing(),
                found_with: nothing(),
            }),
    {
        let r = SearchPanel {
            case_sensitive: false,
            whole_word: false,
            regex: false,
            modified_only: false,
            results: Vec::new(),
            file_count: 0,
            match_count: 0,
            searching: false,
            truncated: false,
            elapsed_ms: 0,
            collapsed: Vec::new(),
            generation: 0,
            wanted: no_question(),
            found_with: no_question(),
        };
        assert(r@.results =~= seq![]);
        assert(r@.collapsed =~= seq![]);
        r
    }

    /// Turns one of the switches over.
    pub fn toggle(&mut self, flag: Flag)
        ensures
            final(self)@ == (match flag {
                Flag::CaseSensitive => Panel {
                    case_sensitive: !old(self)@.case_sensitive,
                    ..old(self)@
                },
                Flag::WholeWord => Panel { whole_word: !old(self)@.whole_word, ..old(self)@ },
                Flag::Regex => Panel { regex: !old(self)@.regex, ..old(self)@ },
                Flag::ModifiedOnly => Panel {
                    modified_only: !old(self)@.modified_only,
                    ..old(self)@
                },
            }),
    {
        match flag {
            Flag::CaseSensitive => {
                self.case_sensitive = !self.case_sensitive;
            },
            Flag::WholeWord => {
                self.whole_word = !self.whole_word;
            },
            Flag::Regex => {
                self.regex = !self.regex;
            },
            Flag::ModifiedOnly => {
                self.modified_only = !self.modified_only;
            },
        }
    }

    /// Asks for a search, given whether the workspace has roots and is on this machine. The search
    /// to be run, if any, carries the generation it belongs to.
    pub fn run_search(&mut self, query: &str, roots: bool, local: bool) -> (r: Option<Job>)
        requires
            old(self)@.generation < u64::MAX,
        ensures
            final(self)@ == old(self)@.asked(query@, roots, local),
            r is Some <==> old(self)@.sought(query@) is Some && roots && local,
            r matches Some(job) ==> job.generation == final(self)@.generation && Some(job.pattern)
                == old(self)@.sought(query@) && job.modified_only == old(self)@.modified_only,
    {
        self.generation = self.generation + 1;
        let chars: Vec<char> = text::chars_of(query);
        self.wanted =
        Wanted {
            query: text::text_of(chars.as_slice()),
            case_sensitive: self.case_sensitive,
            whole_word: self.whole_word,
            regex: self.regex,
        };
        let ghost none = Seq::<search_panel::Finding>::empty();
        match search_panel::build_pattern(query, self.case_sensitive, self.whole_word, self.regex) {
            None => {
                self.results = Vec::new();
                self.found_with = once_more(&self.wanted);
                self.file_count = 0;
                self.match_count = 0;
                self.truncated = false;
                self.searching = false;
                assert(self@.results =~= none);
                None
            },
            Some(pattern) => {
                if !roots || !local {
                    self.results = Vec::new();
                    self.found_with = once_more(&self.wanted);
                    assert(self@.results =~= none);
                    return None;
                }
                self.searching = true;
                Some(
                    Job { generation: self.generation, pattern, modified_only: self.modified_only },
                )
            },
        }
    }

    /// Takes what a search has found. What belongs to an older generation answers a question that
    /// nobody asks any more, and changes nothing.
    pub fn land(
        &mut self,
        platform: Platform,
        generation: u64,
        found: Vec<SearchFileResult>,
        elapsed_ms: u64,
    )
        requires
            generation == old(self)@.generation ==> search_panel::count(
                search_panel::findings(found@),
            ) <= usize::MAX,
        ensures
            final(self)@ == old(self)@.landed(
                platform,
                generation,
                search_panel::findings(found@),
                elapsed_ms,
            ),
    {
        if self.generation != generation {
            return ;
        }
        let ghost all = text::strings(self.collapsed@);
        let ghost results = search_panel::findings(found@);
        let ghost keep = |path: Seq<char>| among(platform, result_paths(results), path);
        let mut kept: Vec<String> = Vec::new();
        let mut i: usize = 0;
        proof {
            reveal(Seq::filter);
            assert(text::strings(kept@) =~= all.take(0).filter(keep));
        }
        while i < self.collapsed.len()
            invariant
                i <= self.collapsed@.len(),
                all == text::strings(self.collapsed@),
                results == search_panel::findings(found@),
                keep == (|path: Seq<char>| among(platform, result_paths(results), path)),
                text::strings(kept@) == all.take(i as int).filter(keep),
            decreases self.collapsed@.len() - i,
        {
            let ghost before = text::strings(kept@);
            proof {
                reveal(Seq::filter);
                assert(all.take(i + 1).drop_last() =~= all.take(i as int));
                assert(all.take(i + 1).last() == self.collapsed@[i as int]@);
            }
            if is_among_results(platform, &found, self.collapsed[i].as_str()) {
                kept.push(self.collapsed[i].clone());
                assert(text::strings(kept@) =~= before.push(self.collapsed@[i as int]@));
            }
            i += 1;
        }
        assert(all.take(i as int) =~= all);
        self.searching = false;
        self.file_count = found.len();
        self.match_count = count_matches(&found);
        self.truncated = self.match_count >= search_panel::MAX_MATCHES;
        self.elapsed_ms = elapsed_ms;
        self.collapsed = kept;
        self.results = found;
        self.found_with = once_more(&self.wanted);
    }

    /// Folds the matches of a file away, or brings them back.
    pub fn toggle_collapsed(&mut self, platform: Platform, path: &str)
        ensures
            final(self)@ == (Panel {
                collapsed: toggled(platform, old(self)@.collapsed, path@),
                ..old(self)@
            }),
    {
        let ghost all = text::strings(self.collapsed@);
        let chars: Vec<char> = text::chars_of(path);
        if !is_among(platform, &self.collapsed, path) {
            self.collapsed.push(text::text_of(chars.as_slice()));
            assert(text::strings(self.collapsed@) =~= all.push(path@));
            return ;
        }
        let ghost keep = |p: Seq<char>|
            paths::parts(platform, p) != paths::parts(platform, path@);
        let mut kept: Vec<String> = Vec::new();
        let mut i: usize = 0;
        proof {
            reveal(Seq::filter);
            assert(text::strings(kept@) =~= all.take(0).filter(keep));
        }
        while i < self.collapsed.len()
            invariant
                i <= self.collapsed@.len(),
                chars@ == path@,
                all == text::strings(self.collapsed@),
                keep == (|p: Seq<char>|
                    paths::parts(platform, p) != paths::parts(platform, path@)),
                text::strings(kept@) == all.take(i as int).filter(keep),
            decreases self.collapsed@.len() - i,
        {
            let ghost before = text::strings(kept@);
            proof {
                reveal(Seq::filter);
                assert(all.take(i + 1).drop_last() =~= all.take(i as int));
                assert(all.take(i + 1).last() == self.collapsed@[i as int]@);
            }
            let one: Vec<char> = text::chars_of(self.collapsed[i].as_str());
            if !paths::same_path(platform, one.as_slice(), chars.as_slice()) {
                kept.push(self.collapsed[i].clone());
                assert(text::strings(kept@) =~= before.push(self.collapsed@[i as int]@));
            }
            i += 1;
        }
        assert(all.take(i as int) =~= all);
        self.collapsed = kept;
    }

    /// What to replace in which files, given whether the workspace is on this machine: the
    /// expression that the results were found with, and the files of the results.
    pub fn search_replace_all(&self, local: bool) -> (r: Option<(regex::Regex, Vec<String>)>)
        ensures
            r is Some <==> self@.found_with.sought() is Some && local,
            r matches Some((re, files)) ==> Some(re) == self@.found_with.sought() && text::strings(
                files@,
            ) == result_paths(self@.results),
    {
        let re: Option<regex::Regex> = search_panel::build_pattern(
            self.found_with.query.as_str(),
            self.found_with.case_sensitive,
            self.found_with.whole_word,
            self.found_with.regex,
        );
        if !local {
            return None;
        }
        match re {
            None => None,
            Some(re) => {
                let ghost all = result_paths(self@.results);
                let mut files: Vec<String> = Vec::new();
                let mut i: usize = 0;
                while i < self.results.len()
                    invariant
                        i <= self.results@.len(),
                        all == result_paths(search_panel::findings(self.results@)),
                        text::strings(files@) == all.take(i as int),
                    decreases self.results@.len() - i,
                {
                    let ghost before = text::strings(files@);
                    files.push(self.results[i].path.clone());
                    assert(text::strings(files@) =~= before.push(all[i as int]));
                    i += 1;
                    assert(text::strings(files@) =~= all.take(i as int));
                }
                assert(all.take(i as int) =~= all);
                Some((re, files))
            },
        }
    }

    /// Whether the panel has nothing to show.
    pub fn is_empty(&self) -> (r: bool)
        ensures
            r == (self@.results.len() == 0 && !self@.searching),
    {
        self.results.len() == 0 && !self.searching
    }

    /// The line above the results, made of texts in the language of the user: what to say during a
    /// search, how many matches were found, and that there were more.
    pub fn summary(&self, searching: &str, base: &str, note: &str) -> (r: String)
        ensures
            r@ == (if self@.searching {
                searching@
            } else if self@.results.len() == 0 {
                seq![]
            } else {
                summary_line(base@, self@.elapsed_ms, self@.truncated, note@)
            }),
    {
        let mut out: Vec<char> = Vec::new();
        if self.searching {
            out = text::chars_of(searching);
        } else if self.results.len() > 0 {
            out = text::chars_of(base);
            text::extend(&mut out, text::chars_of(" (").as_slice());
            text::extend(&mut out, numbers::write_decimal(self.elapsed_ms).as_slice());
            text::extend(&mut out, text::chars_of(" ms)").as_slice());
            if self.truncated {
                text::extend(&mut out, text::chars_of(" — ").as_slice());
                text::extend(&mut out, text::chars_of(note).as_slice());
            }
        } else {
            assert(out@ =~= seq![]);
        }
        text::text_of(out.as_slice())
    }
}

/// The text to be written back to a file, where a replacement changes what the file holds.
pub fn rewritten(re: &regex::Regex, content: &str, replacement: &str) -> (r: Option<String>)
    ensures
        r is Some <==> search_panel::replaced(*re, content@, replacement@) != content@,
        r matches Some(new) ==> new@ == search_panel::replaced(*re, content@, replacement@),
{
    if_changed(search_panel::replace_matches(re, content, replacement), content)
}

/// A text, where it is not the one that is there already.
pub fn if_changed(new: String, content: &str) -> (r: Option<String>)
    ensures
        r is Some <==> new@ != content@,
        r matches Some(s) ==> s@ == new@,
{
    if text::same_text(new.as_str(), content) {
        None
    } else {
        Some(new)
    }
}

/// The answer to an older search changes nothing once a newer one was asked for.
pub proof fn law_a_stale_answer_changes_nothing(
    panel: Panel,
    query: Seq<char>,
    roots: bool,
    local: bool,
    platform: Platform,
    generation: u64,
    results: Seq<search_panel::Finding>,
    elapsed_ms: u64,
)
    requires
        panel.generation < u64::MAX,
        generation <= panel.generation,
    ensures
        panel.asked(query, roots, local).landed(platform, generation, results, elapsed_ms)
            == panel.asked(query, roots, local),
{
}

/// The answer to the search that was asked for last ends the search and is what is shown.
pub proof fn law_the_latest_answer_is_shown(
    panel: Panel,
    query: Seq<char>,
    platform: Platform,
    results: Seq<search_panel::Finding>,
    elapsed_ms: u64,
)
    requires
        panel.generation < u64::MAX,
        panel.sought(query) is Some,
    ensures
        ({
            let asked = panel.asked(query, true, true);
            let shown = asked.landed(platform, asked.generation, results, elapsed_ms);
            &&& asked.searching
            &&& !shown.searching
            &&& shown.results == results
            &&& shown.file_count == results.len()
            &&& shown.match_count == search_panel::count(results)
        }),
{
}

/// An answer of another generation than the panel's leaves everything as it is. One of its own ends
/// the search, is what is shown and counted, says whether there was more, and keeps of the folded
/// files exactly those in which something was found; the switches stay.
pub proof fn law_an_answer_lands_whole_or_not_at_all(
    panel: Panel,
    platform: Platform,
    generation: u64,
    results: Seq<search_panel::Finding>,
    elapsed_ms: u64,
    path: Seq<char>,
)
    ensures
        ({
            let after = panel.landed(platform, generation, results, elapsed_ms);
            &&& generation != panel.generation ==> after == panel
            &&& generation == panel.generation ==> {
                &&& !after.searching
                &&& after.results == results
                &&& after.file_count == results.len()
                &&& after.match_count == search_panel::count(results)
                &&& after.truncated <==> after.match_count >= search_panel::MAX_MATCHES
                &&& after.elapsed_ms == elapsed_ms
                &&& after.generation == panel.generation
                &&& after.collapsed.contains(path) <==> panel.collapsed.contains(path) && among(
                    platform,
                    result_paths(results),
                    path,
                )
                &&& after.case_sensitive == panel.case_sensitive
                &&& after.whole_word == panel.whole_word
                &&& after.regex == panel.regex
                &&& after.modified_only == panel.modified_only
            }
        }),
{
    if generation == panel.generation {
        law_a_search_keeps_what_is_folded(panel, platform, results, elapsed_ms, path);
    }
}

/// The results are replaced by the expression they were found with: that of the query which was
/// asked for, and neither a switch that is turned over nor a newer search on its way puts another in
/// its place.
pub proof fn law_results_are_replaced_as_they_were_found(
    panel: Panel,
    query: Seq<char>,
    platform: Platform,
    results: Seq<search_panel::Finding>,
    elapsed_ms: u64,
    changed: Panel,
    newer: Seq<char>,
)
    requires
        panel.sought(query) is Some,
        ({
            let asked = panel.asked(query, true, true);
            let shown = asked.landed(platform, asked.generation, results, elapsed_ms);
            changed == (Panel {
                case_sensitive: changed.case_sensitive,
                whole_word: changed.whole_word,
                regex: changed.regex,
                modified_only: changed.modified_only,
                ..shown
            })
        }),
        changed.sought(newer) is Some,
    ensures
        changed.results == results,
        changed.found_with.sought() == panel.sought(query),
        changed.asked(newer, true, true).results == results,
        changed.asked(newer, true, true).found_with.sought() == panel.sought(query),
{
}

/// A file stays folded as long as something is found in it, and a file that is not folded does not
/// become it by a search.
pub proof fn law_a_search_keeps_what_is_folded(
    panel: Panel,
    platform: Platform,
    results: Seq<search_panel::Finding>,
    elapsed_ms: u64,
    path: Seq<char>,
)
    ensures
        panel.landed(platform, panel.generation, results, elapsed_ms).collapsed.contains(path)
            <==> panel.collapsed.contains(path) && among(platform, result_paths(results), path),
{
    let keep = |p: Seq<char>| among(platform, result_paths(results), p);
    lemma_filter_members(panel.collapsed, keep, path);
}

/// What a filter lets through is what was there and passes.
proof fn lemma_filter_members(list: Seq<Seq<char>>, keep: spec_fn(Seq<char>) -> bool, x: Seq<char>)
    ensures
        list.filter(keep).contains(x) <==> list.contains(x) && keep(x),
    decreases list.len(),
{
    reveal(Seq::filter);
    if list.len() > 0 {
        let front = list.drop_last();
        lemma_filter_members(front, keep, x);
        let kept = front.filter(keep);
        if list.contains(x) && keep(x) {
            let k = choose|k: int| 0 <= k < list.len() && list[k] == x;
            if k < front.len() {
                assert(front[k] == x);
                let j = choose|j: int| 0 <= j < kept.len() && kept[j] == x;
                assert(list.filter(keep)[j] == x);
            } else {
                assert(list.filter(keep)[kept.len() as int] == x);
            }
        }
        if list.filter(keep).contains(x) {
            let j = choose|j: int| 0 <= j < list.filter(keep).len() && list.filter(keep)[j] == x;
            if j < kept.len() {
                assert(kept[j] == x);
                let k = choose|k: int| 0 <= k < front.len() && front[k] == x;
                assert(list[k] == x);
            } else {
                assert(list[list.len() - 1] == x);
            }
        }
    }
}

/// A row of the list: a file, or a line that was found in it.
#[derive(Clone, Copy, Debug, PartialEq, Eq, Structural)]
pub enum Row {
    File { file: usize, collapsed: bool },
    Match { file: usize, index: usize },
}

/// The rows of the first `n` lines that were found in a file.
pub open spec fn match_rows(file: int, n: int) -> Seq<Row> {
    Seq::new(n as nat, |k: int| Row::Match { file: file as usize, index: k as usize })
}

/// The list as far as it is drawn.
pub struct Drawn {
    pub rows: Seq<Row>,
    /// How many lines are shown.
    pub rendered: int,
    /// Whether there was no room for a line.
    pub stopped: bool,
}

/// The list with the first `upto` files drawn. Once there is no room for a line nothing more is
/// drawn.
pub open spec fn drawn(
    platform: Platform,
    results: Seq<search_panel::Finding>,
    collapsed: Seq<Seq<char>>,
    upto: int,
) -> Drawn
    decreases upto,
{
    if upto <= 0 {
        Drawn { rows: seq![], rendered: 0, stopped: false }
    } else {
        let front = drawn(platform, results, collapsed, upto - 1);
        let file = upto - 1;
        let folded = among(platform, collapsed, results[file].path);
        let header = front.rows.push(Row::File { file: file as usize, collapsed: folded });
        let room = MAX_RENDERED_ROWS - front.rendered;
        if front.stopped {
            front
        } else if folded {
            Drawn { rows: header, ..front }
        } else if results[file].hits.len() <= room {
            Drawn {
                rows: header + match_rows(file, results[file].hits.len() as int),
                rendered: front.rendered + results[file].hits.len(),
                stopped: false,
            }
        } else {
            Drawn { rows: header + match_rows(file, room), rendered: MAX_RENDERED_ROWS as int, stopped: true }
        }
    }
}

/// Nothing is drawn behind the point where the list stopped.
proof fn lemma_stopped(
    platform: Platform,
    results: Seq<search_panel::Finding>,
    collapsed: Seq<Seq<char>>,
    n: int,
    upto: int,
)
    requires
        0 <= n <= upto,
        drawn(platform, results, collapsed, n).stopped,
    ensures
        drawn(platform, results, collapsed, upto) == drawn(platform, results, collapsed, n),
    decreases upto,
{
    if n < upto {
        lemma_stopped(platform, results, collapsed, n, upto - 1);
    }
}

/// No more lines are shown than there is room for.
pub proof fn law_the_list_is_capped(
    platform: Platform,
    results: Seq<search_panel::Finding>,
    collapsed: Seq<Seq<char>>,
    upto: int,
)
    ensures
        0 <= drawn(platform, results, collapsed, upto).rendered <= MAX_RENDERED_ROWS,
        drawn(platform, results, collapsed, upto).stopped ==> drawn(
            platform,
            results,
            collapsed,
            upto,
        ).rendered == MAX_RENDERED_ROWS,
    decreases upto,
{
    if upto > 0 {
        law_the_list_is_capped(platform, results, collapsed, upto - 1);
    }
}

impl SearchPanel {
    /// The rows of the list, and how many lines they show.
    pub fn rows(&self, platform: Platform) -> (r: (Vec<Row>, usize))
        ensures
            ({
                let list = drawn(
                    platform,
                    self@.results,
                    self@.collapsed,
                    self@.results.len() as int,
                );
                r.0@ == list.rows && r.1 == list.rendered
            }),
    {
        let ghost results = self@.results;
        let ghost collapsed = self@.collapsed;
        let mut out: Vec<Row> = Vec::new();
        let mut rendered: usize = 0;
        let mut file: usize = 0;
        while file < self.results.len()
            invariant
                file <= self.results@.len(),
                results == search_panel::findings(self.results@),
                collapsed == text::strings(self.collapsed@),
                out@ == drawn(platform, results, collapsed, file as int).rows,
                rendered == drawn(platform, results, collapsed, file as int).rendered,
                !drawn(platform, results, collapsed, file as int).stopped,
                rendered <= MAX_RENDERED_ROWS,
            decreases self.results@.len() - file,
        {
            let one: &SearchFileResult = &self.results[file];
            assert(results[file as int] == one@);
            let folded: bool = is_among(platform, &self.collapsed, one.path.as_str());
            out.push(Row::File { file, collapsed: folded });
            if !folded {
                let room: usize = MAX_RENDERED_ROWS - rendered;
                let count: usize = one.matches.len();
                let shown: usize = if count <= room {
                    count
                } else {
                    room
                };
                let ghost header = out@;
                let mut index: usize = 0;
                assert(out@ =~= header + match_rows(file as int, 0));
                while index < shown
                    invariant
                        index <= shown,
                        out@ == header + match_rows(file as int, index as int),
                    decreases shown - index,
                {
                    out.push(Row::Match { file, index });
                    index += 1;
                    assert(out@ =~= header + match_rows(file as int, index as int));
                }
                if count > room {
                    proof {
                        lemma_stopped(
                            platform,
                            results,
                            collapsed,
                            file + 1,
                            results.len() as int,
                        );
                    }
                    return (out, MAX_RENDERED_ROWS);
                }
                rendered += shown;
            }
            file += 1;
        }
        (out, rendered)
    }

    /// What to say below the list where it does not show everything that was found.
    pub fn capped_note(&self, rendered: usize) -> (r: Option<String>)
        ensures
            r is Some <==> rendered >= MAX_RENDERED_ROWS && self@.match_count > rendered,
            r matches Some(note) ==> note@ == "Showing the first "@ + numbers::decimal(
                rendered as nat,
            ) + " results — narrow the search to see the rest."@,
    {
        if rendered < MAX_RENDERED_ROWS || self.match_count <= rendered {
            return None;
        }
        let mut out: Vec<char> = text::chars_of("Showing the first ");
        text::extend(&mut out, numbers::write_decimal(rendered as u64).as_slice());
        text::extend(
            &mut out,
            text::chars_of(" results — narrow the search to see the rest.").as_slice(),
        );
        Some(text::text_of(out.as_slice()))
    }
}

/// The name under which a file is listed: the last of its path, or the whole path where it does
/// not end in a name.
pub open spec fn label(platform: Platform, path: Seq<char>) -> Seq<char> {
    match paths::last_name(platform, path) {
        Some(name) => name,
        None => path,
    }
}

/// The name under which a file is listed.
pub fn file_label(platform: Platform, path: &str) -> (r: String)
    ensures
        r@ == label(platform, path@),
{
    let chars: Vec<char> = text::chars_of(path);
    match paths::file_name(platform, chars.as_slice()) {
        Some(name) => text::text_of(name.as_slice()),
        None => text::text_of(chars.as_slice()),
    }
}

/// Without a pattern there is nothing to find; where there is nothing to search in, what was found is
/// gone; else what was found stays until the answer comes. Each search is newer than the last.
pub proof fn law_a_search_begins_anew(panel: Panel, query: Seq<char>, roots: bool, local: bool)
    requires
        panel.generation < u64::MAX,
    ensures
        ({
            let next = panel.asked(query, roots, local);
            let pattern = panel.sought(query) is Some;
            &&& next.generation == panel.generation + 1
            &&& next.wanted.query == query
            &&& next.wanted.case_sensitive == panel.case_sensitive
            &&& next.wanted.whole_word == panel.whole_word
            &&& next.wanted.regex == panel.regex
            &&& next.case_sensitive == panel.case_sensitive
            &&& next.whole_word == panel.whole_word
            &&& next.regex == panel.regex
            &&& next.modified_only == panel.modified_only
            &&& next.collapsed == panel.collapsed
            &&& query.len() == 0 ==> !pattern
            &&& !pattern ==> next.results.len() == 0 && next.file_count == 0 && next.match_count
                == 0 && !next.truncated && !next.searching
            &&& pattern && (!roots || !local) ==> next.results.len() == 0 && next.searching
                == panel.searching
            &&& pattern && roots && local ==> next.searching && next.results == panel.results
                && next.match_count == panel.match_count && next.file_count == panel.file_count
        }),
{
}

/// An answer with two thousand matches or more is one that was cut short.
pub proof fn law_two_thousand_matches_are_too_many(
    panel: Panel,
    platform: Platform,
    results: Seq<search_panel::Finding>,
    elapsed_ms: u64,
)
    ensures
        panel.landed(platform, panel.generation, results, elapsed_ms).truncated
            <==> search_panel::count(results) >= 2000,
{
}

/// Folding a file and folding it again is as if nothing had happened; other files stay as they are.
pub proof fn law_folding_twice_unfolds(
    platform: Platform,
    list: Seq<Seq<char>>,
    path: Seq<char>,
    other: Seq<char>,
)
    ensures
        ({
            let once = toggled(platform, list, path);
            &&& among(platform, once, path) <==> !among(platform, list, path)
            &&& among(platform, toggled(platform, once, path), path) <==> among(
                platform,
                list,
                path,
            )
            &&& paths::parts(platform, other) != paths::parts(platform, path) ==> (among(
                platform,
                once,
                other,
            ) <==> among(platform, list, other))
        }),
{
    lemma_toggled(platform, list, path, path);
    lemma_toggled(platform, list, path, other);
    lemma_toggled(platform, toggled(platform, list, path), path, path);
}

proof fn lemma_toggled(
    platform: Platform,
    list: Seq<Seq<char>>,
    path: Seq<char>,
    other: Seq<char>,
)
    ensures
        ({
            let once = toggled(platform, list, path);
            &&& among(platform, once, path) <==> !among(platform, list, path)
            &&& paths::parts(platform, other) != paths::parts(platform, path) ==> (among(
                platform,
                once,
                other,
            ) <==> among(platform, list, other))
        }),
{
    let once = toggled(platform, list, path);
    let keep = |p: Seq<char>| paths::parts(platform, p) != paths::parts(platform, path);
    if among(platform, list, path) {
        text::lemma_filtered(list, keep);
        let kept = list.filter(keep);
        assert(once == kept);
        if among(platform, once, path) {
            let i = choose|i: int|
                0 <= i < once.len() && paths::parts(platform, #[trigger] once[i]) == paths::parts(
                    platform,
                    path,
                );
            assert(keep(kept[i]));
        }
        if paths::parts(platform, other) != paths::parts(platform, path) {
            if among(platform, once, other) {
                let i = choose|i: int|
                    0 <= i < once.len() && paths::parts(platform, #[trigger] once[i])
                        == paths::parts(platform, other);
                assert(list.contains(kept[i]));
                let j = choose|j: int| 0 <= j < list.len() && list[j] == kept[i];
                assert(paths::parts(platform, list[j]) == paths::parts(platform, other));
            }
            if among(platform, list, other) {
                let j = choose|j: int|
                    0 <= j < list.len() && paths::parts(platform, #[trigger] list[j])
                        == paths::parts(platform, other);
                assert(keep(list[j]));
                assert(kept.contains(list[j]));
                let i = choose|i: int| 0 <= i < kept.len() && kept[i] == list[j];
                assert(paths::parts(platform, once[i]) == paths::parts(platform, other));
            }
        }
    } else {
        assert(once[list.len() as int] == path);
        assert(among(platform, once, path));
        if among(platform, once, other) && paths::parts(platform, other) != paths::parts(
            platform,
            path,
        ) {
            let i = choose|i: int|
                0 <= i < once.len() && paths::parts(platform, #[trigger] once[i]) == paths::parts(
                    platform,
                    other,
                );
            assert(i < list.len());
            assert(list[i] == once[i]);
        }
        if among(platform, list, other) {
            let j = choose|j: int|
                0 <= j < list.len() && paths::parts(platform, #[trigger] list[j]) == paths::parts(
                    platform,
                    other,
                );
            assert(once[j] == list[j]);
        }
    }
}

/// The rows of the files come one behind the other: the row of the file, and behind it one for each
/// of its matches, unless the file is folded. After three hundred matches nothing more is drawn.
pub proof fn law_each_file_is_drawn_with_its_matches(
    platform: Platform,
    results: Seq<search_panel::Finding>,
    collapsed: Seq<Seq<char>>,
    file: int,
    k: int,
)
    requires
        0 <= file < results.len(),
        results.len() <= usize::MAX,
        results[file].hits.len() <= usize::MAX,
    ensures
        ({
            let before = drawn(platform, results, collapsed, file);
            let now = drawn(platform, results, collapsed, file + 1);
            let n = before.rows.len() as int;
            let hits = results[file].hits.len() as int;
            let folded = among(platform, collapsed, results[file].path);
            let room = 300 - before.rendered;
            let lines = if folded {
                0
            } else if hits <= room {
                hits
            } else {
                room
            };
            &&& drawn(platform, results, collapsed, 0).rows.len() == 0
            &&& drawn(platform, results, collapsed, 0).rendered == 0
            &&& !drawn(platform, results, collapsed, 0).stopped
            &&& before.stopped ==> now == before
            &&& !before.stopped ==> {
                &&& now.rows.len() == n + 1 + lines
                &&& now.rows.take(n) == before.rows
                &&& now.rows[n] == (Row::File { file: file as usize, collapsed: folded })
                &&& 0 <= k < lines ==> now.rows[n + 1 + k] == (Row::Match {
                    file: file as usize,
                    index: k as usize,
                })
                &&& now.rendered == before.rendered + lines
                &&& now.stopped <==> !folded && hits > room
            }
        }),
{
    let before = drawn(platform, results, collapsed, file);
    let now = drawn(platform, results, collapsed, file + 1);
    law_the_list_is_capped(platform, results, collapsed, file);
    if !before.stopped {
        assert(now.rows.take(before.rows.len() as int) =~= before.rows);
    }
}

/// On Unix, a file is shown by its name.
pub proof fn law_a_file_is_shown_by_its_name(front: Seq<char>, name: Seq<char>)
    requires
        front.len() == 0 || front.last() == '/',
        paths::is_name(name),
    ensures
        label(Platform::Unix, front + name) == name,
{
    assert(paths::inside(Platform::Unix, front, name) =~= front + name);
    paths::law_a_joined_name_comes_last(front, name);
    assert(paths::last_name(Platform::Unix, front + name) == Some(name));
}

/// The line above the results says how long the search took, and, where it was cut short, that it
/// was.
pub proof fn law_the_line_says_how_long_it_took(base: Seq<char>, elapsed_ms: u64, note: Seq<char>)
    ensures
        summary_line(base, elapsed_ms, false, note) == base + " ("@ + numbers::decimal(
            elapsed_ms as nat,
        ) + " ms)"@,
        summary_line(base, elapsed_ms, true, note) == summary_line(base, elapsed_ms, false, note)
            + " — "@ + note,
{
}

} // verus!
