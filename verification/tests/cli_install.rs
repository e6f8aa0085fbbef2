use nermal::cli_install::{
    bundled_cli, first_cli_on, in_a_build_tree, install, install_inner, log_line, settle, Level,
    Outcome, Start,
};
use nermal::cli_place::{
    candidate_dirs, copy_marker, marker_text, place, platform_install, target_path,
    temporary_path, write_atomically, Decision, Mode, Target, Tried, WriteStep,
};
use nermal::paths::Platform;
use nermal::search_path::{path_dirs, path_with_dir_first, JoinError};
use nermal::user_path::{registry_outcome, registry_update, user_path_with_dir, RegistryEnd};

fn wide(s: &str) -> Vec<u16> {
    s.encode_utf16().collect()
}

fn from_wide(s: &[u16]) -> String {
    String::from_utf16(s).unwrap()
}

fn chars(s: &str) -> Vec<char> {
    s.chars().collect()
}

fn text(s: &[char]) -> String {
    s.iter().collect()
}

fn texts(list: &[Vec<char>]) -> Vec<String> {
    list.iter().map(|s| text(s)).collect()
}

fn lists(list: &[&str]) -> Vec<Vec<char>> {
    list.iter().map(|s| chars(s)).collect()
}

#[test]
fn a_build_tree_binary_is_recognised_under_both_profile_layouts() {
    for platform in [Platform::Unix, Platform::Windows] {
        for p in [
            "/home/dev/nermal/target/debug/nermal",
            "/home/dev/nermal/target/release/nermal",
            "/home/dev/nermal/target/aarch64-apple-darwin/release/nermal",
        ] {
            assert!(in_a_build_tree(platform, p), "{p} should read as a build");
        }
        for p in [
            "/Applications/nermal.app/Contents/MacOS/nermal",
            "/opt/nermal/nermal",
            "/usr/local/bin/nermal",
            // `release` with no `target` above it is somebody's install prefix.
            "/opt/nermal/release/nermal",
        ] {
            assert!(!in_a_build_tree(platform, p), "{p} should read as shipped");
        }
    }
    assert!(!in_a_build_tree(Platform::Unix, "/"));
    assert!(!in_a_build_tree(Platform::Unix, "nermal"));
    assert!(!in_a_build_tree(Platform::Unix, "/target/debug"));
}

#[test]
fn a_directory_already_on_path_is_not_prepended_twice() {
    let current = "/usr/bin:/opt/nermal:/bin";
    assert!(path_with_dir_first(Platform::Unix, current, "/opt/nermal").is_none());

    let added = path_with_dir_first(Platform::Unix, current, "/opt/new")
        .expect("a fresh directory is added")
        .expect("the join succeeds");
    let dirs = path_dirs(Platform::Unix, &added);
    assert_eq!(dirs.first(), Some(&chars("/opt/new")));
    assert_eq!(dirs.len(), 4);
    assert!(path_with_dir_first(Platform::Unix, &added, "/opt/new/").is_none());
}

#[test]
fn a_windows_search_path_is_split_and_joined_with_its_marks() {
    let windows = Platform::Windows;
    assert_eq!(texts(&path_dirs(windows, r#"C:\a;"C:\b;c";"#)), [r"C:\a", r"C:\b;c", ""]);
    assert_eq!(texts(&path_dirs(windows, "")), [""]);
    assert_eq!(
        path_with_dir_first(windows, r#"C:\a;"C:\b;c""#, r"D:\x;y"),
        Some(Ok(r#""D:\x;y";C:\a;"C:\b;c""#.to_string()))
    );
    assert_eq!(path_with_dir_first(windows, r"C:\a", "D:\\\"x"), Some(Err(JoinError)));
    assert_eq!(path_with_dir_first(windows, r"c:\a\", r"C:\a"), None);
    assert_eq!(path_with_dir_first(Platform::Unix, "/bin", "/a:b"), Some(Err(JoinError)));
    assert_eq!(
        path_with_dir_first(Platform::Unix, "", "/a"),
        Some(Ok("/a:".to_string()))
    );
}

#[test]
fn the_user_path_gains_the_directory_once_and_losslessly() {
    // An unpaired surrogate: legal in the registry, not representable as a
    // Rust `String`. It must come back out byte for byte.
    let mut existing = wide("C:\\bin;C:\\weird");
    existing.push(0xD800);

    let updated = user_path_with_dir(&existing, &wide("C:\\nermal")).expect("a new entry");
    assert_eq!(&updated[..existing.len()], &existing[..], "mangled the tail");
    assert_eq!(&updated[existing.len()..], &wide(";C:\\nermal")[..]);

    // Idempotent, and insensitive to case and to a trailing separator.
    assert!(user_path_with_dir(&updated, &wide("C:\\nermal")).is_none());
    assert!(user_path_with_dir(&updated, &wide("c:\\nermal")).is_none());
    assert!(user_path_with_dir(&updated, &wide("C:\\nermal\\")).is_none());
}

#[test]
fn a_trailing_separator_does_not_become_an_empty_path_entry() {
    let updated = user_path_with_dir(&wide("C:\\bin;;"), &wide("C:\\nermal")).unwrap();
    assert_eq!(from_wide(&updated), "C:\\bin;C:\\nermal");

    let fresh = user_path_with_dir(&[], &wide("C:\\nermal")).unwrap();
    assert_eq!(from_wide(&fresh), "C:\\nermal");
}

#[test]
fn a_registry_value_keeps_its_type_and_ends_in_a_zero() {
    let dir = wide("C:\\n");
    let mut raw = wide("C:\\b");
    raw.extend([0, 0]);
    assert_eq!(registry_update(Some(2), &raw, &dir), Some((2, wide("C:\\b;C:\\n\0"))));
    assert_eq!(registry_update(Some(7), &raw, &dir), Some((1, wide("C:\\b;C:\\n\0"))));
    assert_eq!(registry_update(None, &raw, &dir), Some((1, wide("C:\\n\0"))));
    assert_eq!(registry_update(Some(1), &wide("c:\\N"), &dir), None);
}

#[test]
fn every_end_of_a_registry_installation_is_reported() {
    let failed = |s: &str| Outcome::Failed(s.to_string());
    let cli = r"C:\n\nermal.exe";
    assert_eq!(
        registry_outcome(cli, RegistryEnd::NoDirectory),
        failed("the CLI has no parent directory")
    );
    assert_eq!(
        registry_outcome(cli, RegistryEnd::Unopened),
        failed("could not open HKCU\\Environment")
    );
    assert_eq!(
        registry_outcome(cli, RegistryEnd::Unread),
        failed("could not read the user PATH")
    );
    assert_eq!(
        registry_outcome(cli, RegistryEnd::Unwritten),
        failed("could not write the user PATH")
    );
    assert_eq!(
        registry_outcome(cli, RegistryEnd::Listed),
        Outcome::AlreadyInstalled(cli.to_string())
    );
    assert_eq!(
        registry_outcome(cli, RegistryEnd::Written),
        Outcome::Installed(cli.to_string())
    );
}

#[test]
fn a_shim_directory_on_path_is_never_chosen() {
    let home = "/tmp/nermal-cli-install-shims";
    let shims = "/tmp/nermal-cli-install-shims/.pyenv/shims";
    let local = "/tmp/nermal-cli-install-shims/.local/bin";

    let chosen = texts(&candidate_dirs(&lists(&[shims, local]), Some(home)));
    assert!(!chosen.contains(&shims.to_string()), "shim dir was offered: {chosen:?}");
    assert_eq!(chosen.first().map(String::as_str), Some(local));
}

#[test]
fn the_known_directories_on_the_path_are_tried_best_first() {
    let path = lists(&["/h/bin/", "/usr/local/bin", "/bin", "/opt/homebrew/bin"]);
    assert_eq!(
        texts(&candidate_dirs(&path, Some("/h"))),
        ["/opt/homebrew/bin", "/usr/local/bin", "/h/bin", "/h/.local/bin"]
    );
    assert_eq!(
        texts(&candidate_dirs(&path, None)),
        ["/opt/homebrew/bin", "/usr/local/bin"]
    );
    assert_eq!(texts(&candidate_dirs(&lists(&[]), None)), Vec::<String>::new());
}

/// A directory, as far as the placing of a command looks at it.
struct Dir {
    target: Target,
    size: usize,
    marker: bool,
}

impl Dir {
    fn empty() -> Dir {
        Dir { target: Target::Missing, size: 0, marker: false }
    }

    /// Places a command of some size, in the way the decisions say.
    fn place(&mut self, cli: &str, size: usize, mode: Mode) -> Decision {
        if let Target::File { .. } = self.target {
            self.target = Target::File { marked: self.marker, same_size: self.size == size };
        }
        let decision = place(cli, mode, &self.target);
        if decision == Decision::Write {
            let mut step = WriteStep::Clean;
            loop {
                match step {
                    WriteStep::Rename => match mode {
                        Mode::Copy => {
                            self.target = Target::File { marked: false, same_size: true };
                            self.size = size;
                        }
                        Mode::Symlink => self.target = Target::Link(cli.to_string()),
                    },
                    WriteStep::Claim => self.marker = true,
                    WriteStep::Disown => self.marker = false,
                    WriteStep::Written => break,
                    WriteStep::Failed => panic!("nothing fails here"),
                    _ => {}
                }
                step = write_atomically(step, true, mode);
            }
        }
        decision
    }
}

#[test]
fn an_unrelated_binary_named_nermal_is_left_alone() {
    let mut dir = Dir::empty();
    dir.target = Target::File { marked: false, same_size: true };
    dir.size = 10;
    assert_eq!(dir.place("/src/nermal", 10, Mode::Symlink), Decision::Leave);
    assert_eq!(dir.place("/src/nermal", 10, Mode::Copy), Decision::Leave);
    assert_eq!(text(&target_path(&chars("/d"))), "/d/nermal");
}

#[test]
fn our_own_link_is_recognised_and_then_repointed_on_upgrade() {
    let mut dir = Dir::empty();
    let m = Mode::Symlink;
    assert_eq!(dir.place("/v1/nermal", 10, m), Decision::Write);
    // Second launch, same build: nothing to do.
    assert_eq!(dir.place("/v1/nermal", 10, m), Decision::Keep);
    // Upgraded install: the link follows it rather than reporting a clash.
    assert_eq!(dir.place("/v2/nermal", 10, m), Decision::Write);
    assert!(matches!(&dir.target, Target::Link(p) if p == "/v2/nermal"));
}

#[test]
fn a_link_aimed_somewhere_deliberate_is_not_hijacked() {
    let mut dir = Dir::empty();
    dir.target = Target::Link("/other/my-terminal".to_string());
    assert_eq!(dir.place("/src/nermal", 10, Mode::Symlink), Decision::Leave);
}

#[test]
fn a_copy_we_made_stays_ours_after_the_user_moves_off_the_appimage() {
    let mut dir = Dir::empty();
    assert_eq!(dir.place("/mount1/nermal", 10, Mode::Copy), Decision::Write);
    assert!(matches!(dir.target, Target::File { .. }), "should be a real copy");
    assert!(dir.marker, "the copy went unclaimed");

    // Same AppImage again: the sizes match, so there is nothing to do.
    assert_eq!(dir.place("/mount1/nermal", 10, Mode::Copy), Decision::Keep);
    // A newer AppImage: replaced, not refused.
    assert_eq!(dir.place("/mount2/nermal", 27, Mode::Copy), Decision::Write);

    // The user switches to the tarball. Without the marker this would read
    // as someone else's binary and the install would be stuck forever.
    assert_eq!(dir.place("/mount2/nermal", 27, Mode::Symlink), Decision::Write);
    assert!(matches!(&dir.target, Target::Link(p) if p == "/mount2/nermal"));
    assert!(!dir.marker, "a symlink must not keep the copy's marker");
}

#[test]
fn an_occupied_directory_does_not_end_the_search() {
    let mut scan = platform_install(lists(&["/usr/local/bin"]), Some("/h"));
    assert_eq!(scan.dir(), Some(chars("/usr/local/bin")));
    assert_eq!(scan.take(Tried::Occupied("/usr/local/bin/nermal".to_string())), None);
    assert_eq!(scan.dir(), Some(chars("/h/.local/bin")));
    assert_eq!(
        scan.take(Tried::Wrote("/h/.local/bin/nermal".to_string())),
        Some(Outcome::InstalledOffPath("/h/.local/bin/nermal".to_string()))
    );
}

#[test]
fn every_end_of_a_search_is_reported() {
    let path = ["/opt/homebrew/bin", "/usr/local/bin"];
    let here = |s: &str| s.to_string();

    let mut wrote = platform_install(lists(&path), None);
    assert_eq!(
        wrote.take(Tried::Wrote(here("/opt/homebrew/bin/nermal"))),
        Some(Outcome::Installed(here("/opt/homebrew/bin/nermal")))
    );
    let mut already = platform_install(lists(&path), None);
    assert_eq!(
        already.take(Tried::Already(here("/opt/homebrew/bin/nermal"))),
        Some(Outcome::AlreadyInstalled(here("/opt/homebrew/bin/nermal")))
    );

    // Nothing in a directory that the search path does not list is within reach.
    for (tried, dirs) in [
        (Tried::Already(here("/home/me/.local/bin/nermal")), vec![]),
        (Tried::Wrote(here("/home/me/.local/bin/nermal")), vec![]),
        (Tried::Already(here("/home/me/.local/bin/nermal")), vec!["/home/me/bin2"]),
    ] {
        let mut off = platform_install(lists(&dirs), Some("/home/me"));
        assert_eq!(
            off.take(tried),
            Some(Outcome::InstalledOffPath(here("/home/me/.local/bin/nermal")))
        );
    }

    let mut taken = platform_install(lists(&path), None);
    assert_eq!(taken.take(Tried::Occupied(here("first"))), None);
    assert_eq!(taken.take(Tried::Occupied(here("second"))), None);
    assert_eq!(taken.dir(), None);
    assert_eq!(taken.give_up(), Outcome::Occupied(here("first")));

    let mut broken = platform_install(lists(&path), None);
    assert_eq!(broken.take(Tried::Error(here("denied"))), None);
    assert_eq!(broken.take(Tried::Error(here("full"))), None);
    assert_eq!(broken.give_up(), Outcome::Failed(here("/usr/local/bin: full")));

    // A later success counts more than what came before, and what is taken more than an error.
    let mut late = platform_install(lists(&path), None);
    assert_eq!(late.take(Tried::Occupied(here("first"))), None);
    assert_eq!(
        late.take(Tried::Wrote(here("/usr/local/bin/nermal"))),
        Some(Outcome::Installed(here("/usr/local/bin/nermal")))
    );
    let mut mixed = platform_install(lists(&path), None);
    assert_eq!(mixed.take(Tried::Error(here("denied"))), None);
    assert_eq!(mixed.take(Tried::Occupied(here("second"))), None);
    assert_eq!(mixed.give_up(), Outcome::Occupied(here("second")));

    let nothing = platform_install(lists(&[]), None);
    assert_eq!(nothing.dir(), None);
    assert_eq!(nothing.give_up(), Outcome::Failed(here("no writable directory on PATH")));
}

#[test]
fn a_write_that_fails_is_undone() {
    for mode in [Mode::Copy, Mode::Symlink] {
        for step in [WriteStep::Copy, WriteStep::Allow, WriteStep::Link, WriteStep::Rename] {
            assert_eq!(write_atomically(step, false, mode), WriteStep::Undo);
        }
        assert_eq!(write_atomically(WriteStep::Undo, true, mode), WriteStep::Failed);
        assert_eq!(write_atomically(WriteStep::Undo, false, mode), WriteStep::Failed);
        // What is under the temporary name need not be there.
        assert_ne!(write_atomically(WriteStep::Clean, false, mode), WriteStep::Undo);
    }
    assert_eq!(Mode::current(true), Mode::Copy);
    assert_eq!(Mode::current(false), Mode::Symlink);
}

#[test]
fn the_files_of_an_installation_have_their_names() {
    let dir = chars("/d");
    assert_eq!(text(&copy_marker(&dir)), "/d/.nermal.installed-by-nermal");
    assert_eq!(text(&temporary_path(&dir, 4711)), "/d/.nermal.4711.tmp");
    assert_eq!(
        marker_text(&chars("/d/nermal")),
        "/d/nermal was installed by the nermal app, which replaces it on upgrade.\n\
         Delete this marker to have nermal treat that binary as yours and leave it alone.\n"
    );
}

#[test]
fn the_shadow_check_names_whoever_wins_the_lookup() {
    let unix = Platform::Unix;
    let path = lists(&["/early", "/ours"]);
    assert_eq!(first_cli_on(unix, &path, &vec![true, true]).as_deref(), Some("/early/nermal"));
    // Our own directory first: no shadow.
    assert_eq!(
        first_cli_on(unix, &lists(&["/ours", "/early"]), &vec![true, true]).as_deref(),
        Some("/ours/nermal")
    );
    // A dangling link is not something that wins a lookup.
    assert_eq!(
        first_cli_on(unix, &lists(&["/dangling", "/ours"]), &vec![false, true]).as_deref(),
        Some("/ours/nermal")
    );
    assert_eq!(first_cli_on(unix, &path, &vec![false, false]), None);
    assert_eq!(
        first_cli_on(Platform::Windows, &lists(&["C:"]), &vec![true]).as_deref(),
        Some("C:nermal.exe")
    );
}

#[test]
fn another_command_in_front_is_a_shadow() {
    let unix = Platform::Unix;
    let winner = Some("/early/nermal".to_string());
    let ours = "/ours/nermal".to_string();
    for outcome in [
        Outcome::AlreadyInstalled(ours.clone()),
        Outcome::Installed(ours.clone()),
        Outcome::InstalledOffPath(ours.clone()),
    ] {
        assert_eq!(
            settle(unix, outcome, &winner),
            Outcome::InstalledShadowed { ours: ours.clone(), winner: winner.clone().unwrap() }
        );
    }
    assert_eq!(
        settle(unix, Outcome::Installed(ours.clone()), &Some("/ours//./nermal".to_string())),
        Outcome::Installed(ours.clone())
    );
    assert_eq!(settle(unix, Outcome::Installed(ours.clone()), &None), Outcome::Installed(ours));
    assert_eq!(
        settle(unix, Outcome::Occupied("x".to_string()), &winner),
        Outcome::Occupied("x".to_string())
    );
}

#[test]
fn an_installation_is_skipped_where_it_must_be() {
    let unix = Platform::Unix;
    let cli = Some("/opt/nermal/nermal".to_string());
    let build = Some("/w/target/release/nermal".to_string());
    assert!(matches!(
        install_inner(unix, false, &cli, false),
        Start::Stop(Outcome::Disabled, None)
    ));
    assert!(matches!(
        install_inner(unix, true, &None, false),
        Start::Stop(Outcome::NoBundledCli, None)
    ));
    assert!(matches!(
        install_inner(unix, true, &cli, true),
        Start::Stop(Outcome::DevBuild, Some(dir)) if dir == "/opt/nermal"
    ));
    assert!(matches!(
        install_inner(unix, true, &build, false),
        Start::Stop(Outcome::DevBuild, Some(dir)) if dir == "/w/target/release"
    ));
    assert!(matches!(
        install_inner(unix, true, &cli, false),
        Start::Place(Some(dir)) if dir == "/opt/nermal"
    ));
}

#[test]
fn an_installation_as_a_whole() {
    let unix = Platform::Unix;
    let cli = Some("/opt/nermal/nermal".to_string());
    let tried = || Outcome::Installed("/usr/local/bin/nermal".to_string());
    let (outcome, level, line) = install(unix, true, &cli, false, tried(), &None);
    assert_eq!(outcome, tried());
    assert_eq!(level, Level::Info);
    assert_eq!(line, "put the nermal CLI on PATH at /usr/local/bin/nermal");
    let (outcome, level, line) = install(unix, false, &cli, false, tried(), &None);
    assert_eq!(outcome, Outcome::Disabled);
    assert_eq!(level, Level::Debug);
    assert_eq!(line, "cli install skipped: Disabled");
    let winner = Some("/bin/nermal".to_string());
    let (_, level, line) = install(unix, true, &cli, false, tried(), &winner);
    assert_eq!(level, Level::Warn);
    assert_eq!(
        line,
        "installed the nermal CLI at /usr/local/bin/nermal, but `nermal` outside a nermal pane \
         still resolves to /bin/nermal — remove that one, or reorder your PATH, to reach the \
         bundled CLI"
    );
}

#[test]
fn every_outcome_has_its_line() {
    let p = || "/p".to_string();
    let line = |o: Outcome| log_line(&o);
    assert_eq!(
        line(Outcome::NoBundledCli),
        (Level::Debug, "cli install skipped: NoBundledCli".to_string())
    );
    assert_eq!(
        line(Outcome::DevBuild),
        (Level::Debug, "cli install skipped: DevBuild".to_string())
    );
    assert_eq!(
        line(Outcome::AlreadyInstalled(p())),
        (Level::Debug, "nermal CLI already on PATH at /p".to_string())
    );
    assert_eq!(
        line(Outcome::InstalledOffPath(p())),
        (
            Level::Warn,
            "installed the nermal CLI at /p, which is not on your PATH — add it to use `nermal` \
             outside a nermal pane"
                .to_string()
        )
    );
    assert_eq!(
        line(Outcome::Occupied(p())),
        (
            Level::Info,
            "leaving the existing `nermal` at /p alone; the bundled CLI was not installed"
                .to_string()
        )
    );
    assert_eq!(
        line(Outcome::Failed(p())),
        (Level::Warn, "could not put the nermal CLI on PATH: /p".to_string())
    );
}

#[test]
fn the_command_is_beside_the_program() {
    assert_eq!(
        bundled_cli(Platform::Unix, "/opt/nermal/nermal-app").as_deref(),
        Some("/opt/nermal/nermal")
    );
    assert_eq!(
        bundled_cli(Platform::Windows, r"C:\nermal\nermal-app.exe").as_deref(),
        Some(r"C:\nermal\nermal.exe")
    );
    assert_eq!(bundled_cli(Platform::Unix, "/"), None);
    assert_eq!(bundled_cli(Platform::Unix, "nermal-app").as_deref(), Some("nermal"));
}
