use nermal::winproc::{
    descendants, exe_name, foreground_name, is_inside, path_is_under, processes_running_from,
    reap_descendants_of, terminate_and_wait_all, unix_time, wait_for_exit, wait_millis, Proc,
    ReapStep,
};

fn p(pid: u32, parent: u32, name: &str) -> Proc {
    Proc { pid, parent, name: name.to_string() }
}

#[test]
fn descendants_collects_only_the_shell_subtree() {
    let procs = vec![
        p(1, 0, "System"),
        p(100, 1, "powershell.exe"),
        p(200, 100, "git.exe"),
        p(300, 200, "less.exe"),
        p(201, 100, "node.exe"),
        p(999, 1, "explorer.exe"),
    ];
    let mut got = descendants(&procs, 100);
    got.sort();
    assert_eq!(got, vec![200, 201, 300]);
}

#[test]
fn descendants_are_ordered_deepest_first() {
    let procs = vec![p(100, 1, "sh"), p(200, 100, "a"), p(300, 200, "b")];
    assert_eq!(descendants(&procs, 100), vec![300, 200]);
}

#[test]
fn descendants_survive_a_pid_reuse_cycle() {
    let procs = vec![p(100, 200, "a"), p(200, 100, "b")];
    assert_eq!(descendants(&procs, 100), vec![200]);
}

#[test]
fn descendants_survive_self_parenting() {
    let procs = vec![p(100, 1, "sh"), p(100, 100, "self")];
    assert!(descendants(&procs, 100).is_empty());
}

#[test]
fn descendants_empty_without_children() {
    let procs = vec![p(100, 1, "sh"), p(999, 1, "other")];
    assert!(descendants(&procs, 100).is_empty());
}

#[test]
fn foreground_name_is_the_deepest_command() {
    let procs =
        vec![p(100, 1, "powershell.exe"), p(200, 100, "git.exe"), p(300, 200, "less.exe")];
    assert_eq!(foreground_name(&procs, 100).as_deref(), Some("less.exe"));
}

#[test]
fn foreground_name_is_none_at_idle_prompt() {
    let procs = vec![p(100, 1, "powershell.exe"), p(999, 1, "explorer.exe")];
    assert_eq!(foreground_name(&procs, 100), None);
}

#[test]
fn foreground_name_breaks_depth_ties_by_pid() {
    let procs = vec![p(100, 1, "sh"), p(200, 100, "a"), p(201, 100, "b")];
    assert_eq!(foreground_name(&procs, 100).as_deref(), Some("b"));
}

#[test]
fn path_is_under_respects_component_boundaries_and_case() {
    let dir = r"C:\Users\me\Apps\nermal";
    assert!(path_is_under(r"C:\Users\me\Apps\nermal\OpenConsole.exe", dir));
    assert!(path_is_under(r"c:\users\me\apps\nermal\server\nermal-server", dir));
    assert!(!path_is_under(r"C:\Users\me\Apps\nermal-two\a.exe", dir));
    assert!(!path_is_under(r"C:\Users\me\Apps\nermal", dir));
    assert!(path_is_under(
        r"C:\Users\me\Apps\nermal\x.exe",
        r"C:\Users\me\Apps\nermal\",
    ));
    assert!(!path_is_under(r"C:\anything", ""));
}

#[test]
fn lower_case_is_that_of_unicode() {
    assert!(path_is_under(r"C:\ÄPFEL\x.exe", r"c:\äpfel"));
    let chars = |s: &str| -> Vec<char> { s.chars().collect() };
    assert!(!is_inside(&chars(r"C:\ÄPFEL\x.exe"), &chars(r"c:\äpfel")));
    assert!(is_inside(&chars("c:/a/x"), &chars(r"c:\a")));
    assert!(!is_inside(&chars("c:/a"), &chars("")));
}

#[test]
fn exe_name_reads_up_to_the_nul() {
    let mut raw = [0u16; 260];
    for (i, c) in "cmd.exe".encode_utf16().enumerate() {
        raw[i] = c;
    }
    assert_eq!(exe_name(&raw), "cmd.exe");
}

#[test]
fn deepest_first_in_a_wide_tree() {
    let procs = vec![
        p(2, 1, "a"),
        p(5, 4, "d"),
        p(3, 1, "b"),
        p(4, 2, "c"),
        p(6, 3, "e"),
        p(2, 6, "again"),
    ];
    assert_eq!(descendants(&procs, 1), vec![5, 4, 6, 2, 3]);
}

#[test]
fn ticks_become_unix_time() {
    let epoch: u64 = 116_444_736_000_000_000;
    let split = |t: u64| ((t >> 32) as u32, t as u32);
    let (high, low) = split(epoch);
    assert_eq!(unix_time(high, low), Some((0, 0)));
    let (high, low) = split(epoch + 10_000_001);
    assert_eq!(unix_time(high, low), Some((1, 100)));
    let (high, low) = split(epoch - 1);
    assert_eq!(unix_time(high, low), None);
}

#[test]
fn a_wait_never_means_forever() {
    assert_eq!(wait_millis(0), 0);
    assert_eq!(wait_millis(u32::MAX as u128 - 1), u32::MAX - 1);
    assert_eq!(wait_millis(u32::MAX as u128), u32::MAX - 1);
    assert_eq!(wait_millis(u128::MAX), u32::MAX - 1);
    assert!(wait_for_exit(false, 258));
    assert!(wait_for_exit(true, 0));
    assert!(!wait_for_exit(true, 258));
}

#[test]
fn processes_are_all_terminated_before_the_first_wait() {
    let second: u128 = 1_000_000_000;
    let mut reaper = terminate_and_wait_all(&[7, 8], 5 * second);
    assert_eq!(reaper.next(0), ReapStep::Terminate(7));
    assert_eq!(reaper.next(second), ReapStep::Terminate(8));
    assert_eq!(reaper.next(2 * second), ReapStep::Wait(7, 3000));
    assert_eq!(reaper.next(9 * second), ReapStep::Wait(8, 0));
    assert_eq!(reaper.next(9 * second), ReapStep::Done);
    assert_eq!(reaper.next(9 * second), ReapStep::Done);
}

#[test]
fn descendants_are_reaped_within_one_deadline() {
    let procs = vec![p(100, 1, "sh"), p(200, 100, "a"), p(300, 200, "b")];
    let mut reaper = reap_descendants_of(&procs, 100, 10, 2_000_000).unwrap();
    assert_eq!(reaper.next(10), ReapStep::Terminate(300));
    assert_eq!(reaper.next(10), ReapStep::Terminate(200));
    assert_eq!(reaper.next(10), ReapStep::Wait(300, 2));
    assert!(reap_descendants_of(&procs, 100, u128::MAX, 1).is_none());
}

#[test]
fn processes_that_run_from_a_directory() {
    let procs = vec![p(3, 0, "sys"), p(10, 1, "a"), p(11, 1, "b"), p(12, 1, "c"), p(13, 1, "d")];
    let image = |s: &str| Some(s.to_string());
    let images = vec![
        image(r"C:\app\sys.exe"),
        image(r"C:\app\own.exe"),
        image(r"C:\APP\x.exe"),
        None,
        image(r"D:\real\y.exe"),
    ];
    assert_eq!(processes_running_from(&procs, &images, 10, r"C:\app", &None), vec![11]);
    assert_eq!(
        processes_running_from(&procs, &images, 10, r"C:\app", &image(r"\\?\D:\real")),
        vec![11, 13]
    );
    assert_eq!(
        processes_running_from(&procs, &images, 10, r"C:\app", &image(r"D:\real")),
        vec![11, 13]
    );
}
