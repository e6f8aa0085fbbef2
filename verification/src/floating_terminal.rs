//! A terminal in a window of its own: what the window is called.

use vstd::prelude::*;

use crate::paths;
use crate::paths::Platform;
use crate::paths_laws;
use crate::text;

verus! {

/// The title of the window: the name of the directory that the terminal is in, or a general one
/// where it is in none that has a name.
pub open spec fn caption(platform: Platform, cwd: Option<Seq<char>>, general: Seq<char>) -> Seq<
    char,
> {
    match cwd {
        Some(dir) => match paths::last_name(platform, dir) {
            Some(name) => name,
            None => general,
        },
        None => general,
    }
}

/// The title of the window, given the directory that the terminal is in, if it is known.
pub fn title(platform: Platform, cwd: Option<&str>, general: &str) -> (r: String)
    ensures
        r@ == caption(
            platform,
            match cwd {
                Some(dir) => Some(dir@),
                None => None,
            },
            general@,
        ),
{
    if let Some(dir) = cwd {
        let chars: Vec<char> = text::chars_of(dir);
        if let Some(name) = paths::file_name(platform, chars.as_slice()) {
            return text::text_of(name.as_slice());
        }
    }
    text::text_of(text::chars_of(general).as_slice())
}

/// On Unix, the window is called after the directory that its terminal is in; anywhere, it has the
/// general title where the terminal is in none.
pub proof fn law_the_window_is_called_after_its_directory(
    platform: Platform,
    front: Seq<char>,
    name: Seq<char>,
    general: Seq<char>,
)
    requires
        front.len() == 0 || front.last() == '/',
        paths::is_name(name),
    ensures
        caption(Platform::Unix, Some(front + name), general) == name,
        caption(Platform::Unix, Some(front + name + seq!['/']), general) == name,
        caption(Platform::Unix, Some(seq!['/']), general) == general,
        caption(platform, None, general) == general,
{
    assert(paths::inside(Platform::Unix, front, name) =~= front + name);
    paths::law_a_joined_name_comes_last(front, name);
    assert(paths::last_name(Platform::Unix, front + name) == Some(name));
    paths_laws::law_slashes_and_dots_are_skipped(front + name, seq![]);
    let root = seq!['/'];
    let none = Seq::<char>::empty();
    text::lemma_first_of(none, '/');
    assert(text::pieces(none, '/') =~= seq![none]);
    assert(none.push('/') =~= root);
    paths::lemma_push_separator(none, '/');
    reveal_with_fuel(paths::body, 3);
    let q = text::pieces(root, '/');
    assert(q.drop_last() =~= seq![none]);
    assert(q.drop_last().drop_last() =~= seq![]);
    assert(paths::body(q, false) =~= seq![]);
    assert(paths::parts(Platform::Unix, root) =~= seq![paths::Part::Root]);
}

} // verus!
