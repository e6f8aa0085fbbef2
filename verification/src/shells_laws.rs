//! What holds of the shells of every machine, said of what was found there.

use vstd::prelude::*;

use crate::paths;
use crate::paths::Platform;
use crate::paths_laws;
use crate::shells;
use crate::text;
use crate::text_laws;

verus! {

/// On Unix, a shell is named after its file, wherever that is.
pub proof fn law_a_shell_is_named_after_its_file(dir: Seq<char>, name: Seq<char>)
    requires
        dir.len() == 0 || dir.last() == '/',
        paths::is_name(name),
    ensures
        shells::base(Platform::Unix, dir + name) == name,
        shells::is_bare(Platform::Unix, name),
        dir.len() > 0 ==> !shells::is_bare(Platform::Unix, dir + name),
{
    assert(paths::inside(Platform::Unix, dir, name) =~= dir + name);
    paths::law_a_joined_name_comes_last(dir, name);
    assert(paths::last_name(Platform::Unix, dir + name) == Some(name));
    let none = Seq::<char>::empty();
    assert(paths::inside(Platform::Unix, none, name) =~= name);
    paths::law_a_joined_name_comes_last(none, name);
    text::lemma_first_of(none, '/');
    assert(text::pieces(none, '/') =~= seq![none]);
    reveal_with_fuel(paths::body, 2);
    if dir.len() > 0 && dir[0] != '/' {
        text::lemma_first_of(dir, '/');
        let i = text::first_of(dir, '/');
        assert(dir.contains(dir.last()));
        let first = dir.take(i);
        let rest = text::pieces(dir.skip(i + 1), '/');
        paths_laws::lemma_body_sum(seq![first], rest, false);
        if first == seq!['.'] {
            assert(first[0] == '.');
            assert(i == 1);
            assert(paths::dotted(dir, '/'));
        } else {
            assert(first.len() > 0);
            assert(paths::part_of(first, false) is Some);
            assert(paths::body(seq![first], false).len() == 1);
        }
    }
}

/// Whether a text is a name without anything that Windows gives a meaning in a path.
pub open spec fn is_plain_name(name: Seq<char>) -> bool {
    paths::is_name(name) && !name.contains('\\') && !name.contains(':')
}

/// A plain name is the one component of its path.
proof fn lemma_plain_name(name: Seq<char>)
    requires
        is_plain_name(name),
    ensures
        paths::parts(Platform::Windows, name) == seq![paths::Part::Normal(name)],
{
    let b = text::backslashed(name);
    assert forall|i: int| 0 <= i < name.len() implies b[i] == name[i] && name[i] != '\\'
        && name[i] != ':' by {
        assert(name.contains(name[i]));
    }
    assert(b =~= name);
    if seq!['\\', '\\'].is_prefix_of(b) {
        assert(seq!['\\', '\\'][0] == b[0]);
    }
    assert(paths::prefix(name) is None);
    text::lemma_first_of_is(name, '\\', name.len() as int);
    assert(text::pieces(name, '\\') =~= seq![name]);
    reveal_with_fuel(paths::body, 2);
    assert(paths::body(seq![name], false) =~= seq![paths::Part::Normal(name)]);
    if paths::dotted(name, '\\') {
        assert(name =~= seq!['.']);
    }
}

/// On Windows, a shell is named after its file too, in small letters and without the `.exe` behind
/// it, whatever the case that is written in.
pub proof fn law_a_windows_shell_is_named_without_its_ending(name: Seq<char>, ending: Seq<char>)
    requires
        is_plain_name(name),
        is_plain_name(name + ending),
        text::same_letters(ending, ".exe"@),
    ensures
        shells::base(Platform::Windows, name + ending) == text::lowered(name),
        !text::same_letters(name.skip(name.len() - 4), ".exe"@) || name.len() < 4
            ==> shells::base(Platform::Windows, name) == text::lowered(name),
{
    reveal_strlit(".exe");
    let exe = ".exe"@;
    assert(text::lowered(exe) =~= exe);
    lemma_plain_name(name);
    lemma_plain_name(name + ending);
    let low = text::lowered(name + ending);
    assert(text::lowered(ending).len() == 4);
    assert(low =~= text::lowered(name) + text::lowered(ending));
    assert(low.skip(low.len() - 4) =~= exe);
    assert(low.take(low.len() - 4) =~= text::lowered(name));
    if name.len() >= 4 {
        assert(text::lowered(name).skip(name.len() - 4) =~= text::lowered(
            name.skip(name.len() - 4),
        ));
    }
}

/// The login shell is that of the user database, else that of the environment, else `sh`, where
/// blanks are nothing.
pub proof fn law_the_login_shell_is_the_first_that_is_known(
    passwd: Option<Seq<char>>,
    env: Option<Seq<char>>,
)
    ensures
        ({
            let known = passwd is Some && text::trimmed(passwd->0).len() > 0;
            let set = env is Some && text::trimmed(env->0).len() > 0;
            &&& known ==> shells::login(passwd, env) == text::trimmed(passwd->0)
            &&& !known && set ==> shells::login(passwd, env) == text::trimmed(env->0)
            &&& !known && !set ==> shells::login(passwd, env) == "sh"@
        }),
{
}

/// The default is named after the configured shell, and after the login shell where none, or a
/// blank one, is configured.
pub proof fn law_the_default_is_named_after_what_is_configured(
    platform: Platform,
    configured: Seq<char>,
    login: Seq<char>,
)
    ensures
        shells::default_name(platform, None, login) == shells::base(platform, login),
        text::trimmed(configured).len() == 0 ==> shells::default_name(
            platform,
            Some(configured),
            login,
        ) == shells::base(platform, login),
        text::trimmed(configured).len() > 0 ==> shells::default_name(
            platform,
            Some(configured),
            login,
        ) == shells::base(platform, configured),
        shells::first_shell(Platform::Windows, None, None, None) == "powershell.exe"@,
        shells::first_shell(Platform::Windows, Some(configured), Some(login), Some(login)) == login,
        text::same_letters(configured, "nu"@) ==> shells::label_of(configured) == "Nushell"@,
        !text::same_letters(configured, "nu"@) ==> shells::label_of(configured) == configured,
{
}

/// The shells that some lines name, one group behind the other.
proof fn lemma_etc_shells_sum(a: Seq<Seq<char>>, b: Seq<Seq<char>>, upto: int)
    requires
        0 <= upto <= b.len(),
    ensures
        shells::etc_shells(a + b, a.len() + upto) == shells::etc_shells(a, a.len() as int)
            + shells::etc_shells(b, upto),
    decreases upto,
{
    if upto == 0 {
        lemma_etc_shells_front(a, b, a.len() as int);
        assert(shells::etc_shells(a, a.len() as int) + shells::etc_shells(b, 0)
            =~= shells::etc_shells(a, a.len() as int));
    } else {
        lemma_etc_shells_sum(a, b, upto - 1);
        assert((a + b)[a.len() + upto - 1] == b[upto - 1]);
        assert(shells::etc_shells(a + b, a.len() + upto) =~= shells::etc_shells(a, a.len() as int)
            + shells::etc_shells(b, upto));
    }
}

/// The shells that the first lines name, whatever comes behind.
proof fn lemma_etc_shells_front(a: Seq<Seq<char>>, b: Seq<Seq<char>>, upto: int)
    requires
        0 <= upto <= a.len(),
    ensures
        shells::etc_shells(a + b, upto) == shells::etc_shells(a, upto),
    decreases upto,
{
    if upto > 0 {
        lemma_etc_shells_front(a, b, upto - 1);
        assert((a + b)[upto - 1] == a[upto - 1]);
    }
}

/// The shells that a list of login shells names.
pub open spec fn shells_in(content: Seq<char>) -> Seq<Seq<char>> {
    shells::etc_shells(text::lines_of(content), text::lines_of(content).len() as int)
}

/// A carriage return at the end is trimmed anyway.
proof fn lemma_trimmed_return(line: Seq<char>)
    ensures
        text::trimmed(text::without_return(line)) == text::trimmed(line),
{
    if line.len() > 0 && line.last() == '\r' {
        let t = line.drop_last();
        let a = text_laws::lemma_trimmed_start(line);
        let b = text_laws::lemma_trimmed_start(t);
        if a < line.len() {
            assert(!text::is_space(line[a]));
            assert(a < t.len());
            assert(t[a] == line[a]);
            if b < a {
                assert(text::is_space(line[b]));
                assert(t[b] == line[b]);
            }
            if a < b {
                assert(text::is_space(t[a]));
            }
            assert(line.skip(a).drop_last() =~= t.skip(a));
            assert(line.skip(a).last() == '\r');
            assert(text::trimmed_end(line.skip(a)) == text::trimmed_end(t.skip(a)));
        } else {
            if b < t.len() {
                assert(text::is_space(line[b]));
                assert(t[b] == line[b]);
            }
            assert(line.skip(a) =~= Seq::<char>::empty());
            assert(t.skip(b) =~= Seq::<char>::empty());
        }
    }
}

/// Each line of a list of login shells names one, whatever lines are around it: what is in it
/// without the blanks around, unless that is nothing or begins with a number sign.
pub proof fn law_each_line_names_a_shell(before: Seq<char>, line: Seq<char>, after: Seq<char>)
    requires
        before.len() == 0 || before.last() == '\n',
        !line.contains('\n'),
    ensures
        shells_in(before + line + seq!['\n'] + after) == shells_in(before) + (if text::trimmed(
            line,
        ).len() == 0 || text::trimmed(line)[0] == '#' {
            seq![]
        } else {
            seq![text::trimmed(line)]
        }) + shells_in(after),
        shells_in(seq![]) == Seq::<Seq<char>>::empty(),
{
    let end = line.push('\n');
    text_laws::law_a_line_is_a_line(line);
    text_laws::law_lines_follow_each_other(end, after);
    text_laws::law_lines_follow_each_other(before, end + after);
    assert(before + (end + after) =~= before + line + seq!['\n'] + after);
    let a = text::lines_of(before);
    let b = seq![text::without_return(line)];
    let c = text::lines_of(after);
    assert(text::lines_of(end) =~= b);
    lemma_etc_shells_sum(b, c, c.len() as int);
    lemma_etc_shells_sum(a, b + c, (b + c).len() as int);
    lemma_trimmed_return(line);
    reveal_with_fuel(shells::etc_shells, 2);
    let one = if text::trimmed(line).len() == 0 || text::trimmed(line)[0] == '#' {
        seq![]
    } else {
        seq![text::trimmed(line)]
    };
    assert(shells::etc_shells(b, 1) =~= one);
    assert(shells_in(before + line + seq!['\n'] + after) =~= shells_in(before) + one + shells_in(
        after,
    ));
}

/// Where a directory that begins with a slash comes among those that do.
proof fn lemma_rooted_at(dirs: Seq<Seq<char>>, i: int) -> (n: int)
    requires
        0 <= i < dirs.len(),
        dirs[i].len() > 0,
        dirs[i][0] == '/',
    ensures
        n == shells::rooted(dirs.take(i)).len(),
        0 <= n < shells::rooted(dirs).len(),
        shells::rooted(dirs)[n] == dirs[i],
    decreases dirs.len(),
{
    let front = dirs.drop_last();
    if i == dirs.len() - 1 {
        assert(dirs.take(i) =~= front);
        shells::rooted(front).len() as int
    } else {
        assert(front.take(i) =~= dirs.take(i));
        assert(front[i] == dirs[i]);
        lemma_rooted_at(front, i)
    }
}

/// More directories, more that begin with a slash.
proof fn lemma_rooted_grows(dirs: Seq<Seq<char>>, i: int, j: int)
    requires
        0 <= i < j <= dirs.len(),
        dirs[i].len() > 0,
        dirs[i][0] == '/',
    ensures
        shells::rooted(dirs.take(i)).len() < shells::rooted(dirs.take(j)).len(),
    decreases j,
{
    let t = dirs.take(j);
    assert(t.drop_last() =~= dirs.take(j - 1));
    assert(t.last() == dirs[j - 1]);
    if i < j - 1 {
        lemma_rooted_grows(dirs, i, j - 1);
    }
}

/// Where a name in a directory comes among all.
proof fn lemma_names_at(dirs: Seq<Seq<char>>, n: int, m: int, d: int)
    requires
        0 <= m < n,
        0 <= d < dirs.len(),
    ensures
        shells::names_in_each(dirs, n).len() == n * dirs.len(),
        0 <= m * dirs.len() + d < n * dirs.len(),
        shells::names_in_each(dirs, n)[m * dirs.len() + d] == shells::in_each(
            dirs,
            shells::probed_names()[m],
        )[d],
    decreases n,
{
    let len = dirs.len() as int;
    lemma_names_len(dirs, n - 1);
    assert((n - 1) * len + len == n * len) by (nonlinear_arith);
    if m < n - 1 {
        lemma_names_at(dirs, n - 1, m, d);
    } else {
        assert(m * len >= 0) by (nonlinear_arith)
            requires
                m >= 0,
                len >= 0,
        ;
    }
}

/// How many places there are for some names.
proof fn lemma_names_len(dirs: Seq<Seq<char>>, n: int)
    requires
        0 <= n,
    ensures
        shells::names_in_each(dirs, n).len() == n * dirs.len(),
    decreases n,
{
    if n > 0 {
        lemma_names_len(dirs, n - 1);
        let len = dirs.len() as int;
        assert((n - 1) * len + len == n * len) by (nonlinear_arith);
    } else {
        assert(0 * dirs.len() == 0) by (nonlinear_arith);
    }
}

/// Each known shell is looked for in each directory of the search path that begins with a slash, one
/// shell in all directories before the next shell.
pub proof fn law_each_shell_is_looked_for_in_each_directory(
    path: Seq<char>,
    i: int,
    j: int,
    m: int,
    n: int,
) -> (at: (int, int))
    requires
        ({
            let dirs = text::pieces(path, ':');
            &&& 0 <= i < dirs.len()
            &&& 0 <= j < dirs.len()
            &&& dirs[i].len() > 1 && dirs[i][0] == '/' && dirs[i].last() != '/'
            &&& dirs[j].len() > 1 && dirs[j][0] == '/' && dirs[j].last() != '/'
        }),
        0 <= m < 12,
        0 <= n < 12,
    ensures
        ({
            let dirs = text::pieces(path, ':');
            let names = seq![
                "bash"@,
                "zsh"@,
                "fish"@,
                "nu"@,
                "pwsh"@,
                "elvish"@,
                "xonsh"@,
                "sh"@,
                "ksh"@,
                "dash"@,
                "tcsh"@,
                "csh"@,
            ];
            &&& 0 <= at.0 < shells::probes(path).len()
            &&& 0 <= at.1 < shells::probes(path).len()
            &&& shells::probes(path)[at.0] == dirs[i] + seq!['/'] + names[m]
            &&& shells::probes(path)[at.1] == dirs[j] + seq!['/'] + names[n]
            &&& m < n ==> at.0 < at.1
            &&& m == n && i < j ==> at.0 < at.1
        }),
{
    let dirs = text::pieces(path, ':');
    let kept = shells::rooted(dirs);
    let len = kept.len() as int;
    let a = lemma_rooted_at(dirs, i);
    let b = lemma_rooted_at(dirs, j);
    if i < j {
        lemma_rooted_grows(dirs, i, j);
    }
    lemma_names_at(kept, 12, m, a);
    lemma_names_at(kept, 12, n, b);
    assert(text::cut_end(dirs[i], seq!['/']) == dirs[i]);
    assert(text::cut_end(dirs[j], seq!['/']) == dirs[j]);
    assert(dirs[i].push('/') =~= dirs[i] + seq!['/']);
    assert(dirs[j].push('/') =~= dirs[j] + seq!['/']);
    if m < n {
        assert(m * len + len <= n * len) by (nonlinear_arith)
            requires
                m + 1 <= n,
                len >= 0,
        ;
    }
    (m * len + a, n * len + b)
}

/// Shells are looked for at the login shell first, then along the search path, then where the list
/// of login shells says.
pub proof fn law_the_login_shell_is_looked_for_first(
    login: Seq<char>,
    path: Seq<char>,
    etc: Seq<char>,
)
    ensures
        ({
            let places = shells::unix_places(login, path, etc);
            let n = shells::probes(path).len() as int;
            &&& places.len() == 1 + n + shells_in(etc).len()
            &&& places[0] == login
            &&& places.subrange(1, 1 + n) == shells::probes(path)
            &&& places.skip(1 + n) == shells_in(etc)
        }),
{
    let places = shells::unix_places(login, path, etc);
    let n = shells::probes(path).len() as int;
    assert(places.subrange(1, 1 + n) =~= shells::probes(path));
    assert(places.skip(1 + n) =~= shells_in(etc));
}

/// The shells are offered in the order in which they were looked for.
pub proof fn law_the_offers_keep_their_order(
    places: Seq<Seq<char>>,
    present: Seq<bool>,
    upto: int,
    i: int,
    j: int,
) -> (k: (int, int))
    requires
        0 <= upto <= places.len(),
        0 <= i < j < shells::first_named(places, present, upto).len(),
    ensures
        0 <= k.0 < k.1 < upto,
        shells::first_named(places, present, upto)[i].program == places[k.0],
        shells::first_named(places, present, upto)[j].program == places[k.1],
        present[k.0],
        present[k.1],
    decreases upto,
{
    let front = shells::first_named(places, present, upto - 1);
    if j < front.len() {
        law_the_offers_keep_their_order(places, present, upto - 1, i, j)
    } else {
        let a = shells::law_what_is_offered_is_there(places, present, upto - 1, i);
        (a, upto - 1)
    }
}

} // verus!
