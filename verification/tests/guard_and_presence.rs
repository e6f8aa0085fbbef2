use nermal::discord_presence::{
    activity_label, sync, Action, Command, DiscordPresenceActivity, Presence, Session,
};
use nermal::floating_terminal::title;
use nermal::gpu_usage::{
    busiest, ioreg_numbers, macos_ioreg, number_after, nvidia_smi, readings_of,
};
use nermal::paths::Platform;
use nermal::update_guard::{
    guard_pid, held, hold, hold_for_parent, path, process_alive, writer_holds, GUARD_TTL,
    START_SLACK,
};
use nermal::winproc::Proc;

const SECOND: i128 = 1_000_000_000;

#[test]
fn staleness_policy_trusts_only_a_live_writer_born_before_the_guard() {
    let now: i128 = 1_700_000_000 * SECOND;
    let before = now - 60 * SECOND;
    let later = now + 60 * SECOND;

    assert!(writer_holds(true, Some(before), Some(now), now));
    assert!(
        writer_holds(true, Some(now - GUARD_TTL * 3), Some(now - GUARD_TTL * 2), now),
        "a verified writer is never expired by the TTL, however long it runs"
    );
    assert!(
        !writer_holds(true, Some(later), Some(now), now),
        "a process born after the guard is a recycled pid"
    );
    assert!(!writer_holds(false, Some(before), Some(now), now));

    // Liveness without identity gets exactly the TTL.
    assert!(writer_holds(true, None, Some(now), now));
    assert!(!writer_holds(true, None, Some(now - GUARD_TTL * 2), now));
    assert!(!writer_holds(true, None, None, now));
}

#[test]
fn the_limits_of_a_guard_are_exact() {
    let now: i128 = 1_700_000_000 * SECOND;
    assert_eq!(GUARD_TTL, 600 * SECOND);
    assert_eq!(START_SLACK, 10 * SECOND);
    assert!(writer_holds(true, Some(now + START_SLACK), Some(now), now));
    assert!(!writer_holds(true, Some(now + START_SLACK + 1), Some(now), now));
    assert!(writer_holds(true, None, Some(now - GUARD_TTL), now));
    assert!(!writer_holds(true, None, Some(now - GUARD_TTL - 1), now));
    // A guard from the future cannot be told from any other.
    assert!(!writer_holds(true, None, Some(now + 1), now));
    assert!(!writer_holds(true, Some(now), None, now));
}

#[test]
fn guard_lifecycle_holds_for_a_live_writer_and_sheds_stale_files() {
    let now: i128 = 1_700_000_000 * SECOND;
    let look = held(None, true, Some(now), Some(now), now);
    assert!(!look.held && !look.stale, "no guard file, no guard");

    let written = hold(4711);
    assert_eq!(written, "4711");
    assert_eq!(guard_pid(written.as_bytes()), Some(4711));
    let look = held(Some(written.as_bytes()), true, Some(now), Some(now), now);
    assert!(look.held && !look.stale, "this process is alive and older than its guard");

    let look = held(Some(written.as_bytes()), false, None, Some(now), now);
    assert!(!look.held && look.stale, "a dead writer cannot be installing anything");

    // Garbage is stale by the same rule.
    let look = held(Some(b"not-a-pid"), true, Some(now), Some(now), now);
    assert!(!look.held && look.stale);
    // So is what is no text at all.
    let look = held(Some(b"47\xff11"), true, Some(now), Some(now), now);
    assert!(!look.held && look.stale);
    assert_eq!(guard_pid(b"\xff"), None);
    assert_eq!(guard_pid("\u{2003}7".as_bytes()), Some(7));
}

#[test]
fn a_guard_is_read_with_white_space_around_the_number() {
    assert_eq!(guard_pid(b" 12\r\n"), Some(12));
    assert_eq!(guard_pid(b"+12"), Some(12));
    assert_eq!(guard_pid(b"-12"), None);
    assert_eq!(guard_pid(b""), None);
    assert_eq!(guard_pid(b"4294967295"), Some(u32::MAX));
    assert_eq!(guard_pid(b"4294967296"), None);
    for pid in [0, 9, 10, 99, 100, u32::MAX] {
        assert_eq!(guard_pid(hold(pid).as_bytes()), Some(pid));
    }
}

#[test]
fn a_guard_is_held_for_the_parent_where_there_is_one() {
    let p = |pid: u32, parent: u32| Proc { pid, parent, name: String::new() };
    assert_eq!(hold_for_parent(&[p(1, 0), p(7, 5), p(7, 9)], 7), "5");
    assert_eq!(hold_for_parent(&[p(7, 4)], 7), "7");
    assert_eq!(hold_for_parent(&[p(1, 0)], 7), "7");
    assert!(process_alive(true, 258));
    assert!(!process_alive(true, 0));
    assert!(!process_alive(false, 258));
    assert_eq!(
        path(Platform::Unix, &Some("/c".to_string())).as_deref(),
        Some("/c/update.lock")
    );
    assert_eq!(path(Platform::Unix, &None), None);
}

#[test]
fn each_activity_names_nermal_by_the_verb_settings_picked() {
    assert_eq!(activity_label(DiscordPresenceActivity::Editing), "Editing in Nermal");
    assert_eq!(activity_label(DiscordPresenceActivity::Cooking), "Cooking in Nermal");
}

#[test]
fn the_same_wish_is_told_once() {
    let editing = DiscordPresenceActivity::Editing;
    let name = || Some("a.rs".to_string());
    let mut state = Presence::new();
    // Nothing was ever shown, so there is nothing to turn off.
    assert!(sync(&mut state, false, editing, None).is_none());
    assert!(matches!(
        sync(&mut state, true, editing, name()),
        Some(Command::Show { activity: DiscordPresenceActivity::Editing, file_name: Some(n) })
            if n == "a.rs"
    ));
    assert!(sync(&mut state, true, editing, name()).is_none());
    assert!(sync(&mut state, true, editing, None).is_some());
    assert!(matches!(sync(&mut state, false, editing, None), Some(Command::Disable)));
    assert!(sync(&mut state, false, editing, None).is_none());
    assert!(matches!(
        sync(&mut state, false, DiscordPresenceActivity::Cooking, None),
        Some(Command::Disable)
    ));
}

#[test]
fn a_dropped_connection_is_made_anew_once() {
    let mut session = Session::new();
    session.begin(true);
    assert_eq!(session.action(), Action::Connect);
    session.answer(true);
    assert_eq!(session.action(), Action::Send);
    session.answer(true);
    assert_eq!(session.action(), Action::Wait);
    assert!(session.connected);

    session.begin(true);
    assert_eq!(session.action(), Action::Send);
    session.answer(false);
    assert_eq!(session.action(), Action::Connect);
    session.answer(true);
    assert_eq!(session.action(), Action::Send);
    session.answer(false);
    assert_eq!(session.action(), Action::Wait);
    assert!(session.connected);

    session.begin(false);
    assert_eq!(session.action(), Action::Clear);
    session.answer(false);
    assert_eq!(session.action(), Action::Close);
    session.answer(true);
    assert_eq!(session.action(), Action::Wait);
    assert!(!session.connected);
    session.begin(false);
    assert_eq!(session.action(), Action::Wait);
}

#[test]
fn a_failed_connection_is_tried_with_the_next_command() {
    let mut session = Session::new();
    session.begin(true);
    session.answer(false);
    assert_eq!(session.action(), Action::Wait);
    assert!(!session.connected);
    session.begin(true);
    assert_eq!(session.action(), Action::Connect);
}

#[test]
fn number_after_reads_the_value_following_the_key() {
    let text = r#"| "Device Utilization %" = 42"#;
    let number = number_after(text, "\"Device Utilization %\"").and_then(|n| n.parse().ok());
    assert_eq!(number, Some(42.0));
}

#[test]
fn number_after_is_none_when_the_key_is_absent() {
    assert_eq!(number_after("nothing here", "\"Device Utilization %\""), None);
}

#[test]
fn the_number_of_a_graphics_processor() {
    assert_eq!(number_after("k x = 1.5%", "k").as_deref(), Some("1.5"));
    assert_eq!(number_after("k", "k"), None);
    assert_eq!(number_after("=1 k = 2", "k").as_deref(), Some("2"));
    assert_eq!(number_after("k=x", "k"), None);
    assert_eq!(number_after("k=1.2.3", "k"), None);
    assert_eq!(number_after("k=.", "k"), None);

    let first = "\"Device Utilization %\" = none, \"GPU Activity(%)\"=7";
    assert_eq!(ioreg_numbers(first), ["7"]);
    assert!(ioreg_numbers("\"Device Utilization %\" = 1.2.3").is_empty());
    assert_eq!(ioreg_numbers("\"Device Utilization %\" = .5 \"GPU Activity(%)\"=7"), [".5"]);
    let two = "\"Device Utilization %\"=10}\n{\"Device Utilization %\"=90}";
    assert_eq!(ioreg_numbers(two), ["10", "90"]);
    for s in ["7", ".5", "5.", "0.25", "1.2.3", ".", ""] {
        let output = format!("\"GPU Activity(%)\"={s}");
        assert_eq!(ioreg_numbers(&output).is_empty(), s.parse::<f32>().is_err(), "{s}");
    }
    assert_eq!(macos_ioreg(true, b"\"GPU Activity(%)\"=7"), ["7"]);
    assert!(macos_ioreg(false, b"\"GPU Activity(%)\"=7").is_empty());

    assert_eq!(readings_of(" 37 \r\n12\n"), ["37", "12"]);
    assert!(readings_of("").is_empty());
    assert_eq!(nvidia_smi(true, b"37\n"), ["37"]);
    assert_eq!(nvidia_smi(true, b"3\xff\n"), ["3\u{fffd}"]);
    assert!(nvidia_smi(false, b"37\n").is_empty());
}

#[test]
fn the_busiest_graphics_processor_counts() {
    assert_eq!(busiest(&nvidia_smi(true, b"10\n90\n")), Some(90));
    assert_eq!(busiest(&nvidia_smi(true, b"90\n10\n7\n")), Some(90));
    assert_eq!(busiest(&nvidia_smi(true, b"0\n")), Some(0));
    assert_eq!(busiest(&nvidia_smi(true, b"[N/A]\n90\n")), None);
    assert_eq!(busiest(&vec![]), None);
}

#[test]
fn a_window_is_called_after_the_directory_of_its_terminal() {
    assert_eq!(title(Platform::Unix, Some("/home/me/src"), "Terminal"), "src");
    assert_eq!(title(Platform::Unix, Some("/"), "Terminal"), "Terminal");
    assert_eq!(title(Platform::Unix, None, "Terminal"), "Terminal");
    assert_eq!(title(Platform::Windows, Some(r"C:\"), "Terminal"), "Terminal");
}
