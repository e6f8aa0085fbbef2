use nermal::paths::Platform;
use nermal::shell_menu::{append_custom, inventory, inventory_from, same_shell_program};
use nermal::shell_menu::{CustomShell, ShellInventory};
use nermal::shells::{
    basename, default_shell_name, default_true, first_buffer, is_bare_program, login_shell,
    parse_etc_shells, passwd_step, path_probed_shells, path_shell_candidates, pick_login_shell,
    shell_label, unix_candidates, unix_shells_from, windows_default_shell, DetectedShell,
    PasswdStep,
};
use nermal::shells_windows::{
    cmd_path, cmd_program, default_wsl_distro, detect_shells, detect_windows, distro_key,
    find_in_path, find_pwsh7, git_bash_candidates, git_bash_path, list_wsl_distros, nushell_path,
    parse_wsl_list, pick_first_existing, ps5_path, pwsh7_candidates, registered_wsl_distros,
    worth_offering, wsl_distros, wsl_distros_probed, Distro, Places, Probe, WindowsShells,
};

fn texts(list: &[&str]) -> Vec<String> {
    list.iter().map(|s| s.to_string()).collect()
}

fn chars(s: &str) -> Vec<char> {
    s.chars().collect()
}

fn existing(candidates: &[String], exists: impl Fn(&str) -> bool) -> Vec<bool> {
    candidates.iter().map(|c| exists(c)).collect()
}

fn found(candidates: Vec<String>, exists: impl Fn(&str) -> bool) -> Vec<DetectedShell> {
    let present = existing(&candidates, exists);
    unix_shells_from(&candidates, &present)
}

fn unresolved(n: usize) -> Vec<Option<String>> {
    (0..n).map(|_| None).collect()
}

fn menu_of(
    platform: Platform,
    detected: Vec<DetectedShell>,
    configured: Option<(String, Vec<String>)>,
    fallback: &str,
) -> ShellInventory {
    let resolved = unresolved(detected.len());
    inventory_from(platform, detected, &configured, fallback, &resolved, &None)
}

#[test]
fn parse_etc_shells_skips_comments_and_blanks() {
    let content = "# /etc/shells\n\n/bin/sh\n/bin/bash\n  /bin/zsh  \n# trailing\n";
    assert_eq!(parse_etc_shells(content), vec!["/bin/sh", "/bin/bash", "/bin/zsh"]);
}

#[test]
fn unix_shells_dedupe_by_basename_keeping_first() {
    let candidates =
        texts(&["/opt/homebrew/bin/zsh", "/bin/zsh", "/bin/bash", "/usr/local/bin/fish"]);
    let got = found(candidates, |p| p != "/usr/local/bin/fish");
    assert_eq!(
        got,
        vec![
            DetectedShell::bare("zsh", "/opt/homebrew/bin/zsh"),
            DetectedShell::bare("bash", "/bin/bash"),
        ]
    );
}

#[test]
fn path_shell_candidates_expand_dirs_in_order_skipping_relative() {
    let cands = path_shell_candidates("/opt/homebrew/bin:relative:.:/usr/bin/:");
    let probed = path_probed_shells();
    let first: String = probed[0].iter().collect();
    assert_eq!(cands[0], format!("/opt/homebrew/bin/{first}"));
    assert_eq!(cands[1], format!("/usr/bin/{first}"));
    assert!(cands.contains(&"/opt/homebrew/bin/nu".to_string()));
    assert!(cands.iter().all(|c| c.starts_with('/')));
    assert_eq!(cands.len(), probed.len() * 2);
}

#[test]
fn nushell_is_probed_from_every_unix_path_directory() {
    let candidates = path_shell_candidates("/opt/homebrew/bin:/home/user/.local/bin");
    let nushell: Vec<_> = candidates
        .iter()
        .filter(|candidate| candidate.ends_with("/nu"))
        .map(String::as_str)
        .collect();

    assert_eq!(nushell, ["/opt/homebrew/bin/nu", "/home/user/.local/bin/nu"]);

    let detected = found(candidates, |candidate| candidate == "/home/user/.local/bin/nu");
    assert_eq!(detected, [DetectedShell::bare("Nushell", "/home/user/.local/bin/nu")]);
}

#[test]
fn etc_shells_still_contributes_what_path_does_not_reach() {
    let mut candidates = path_shell_candidates("/opt/homebrew/bin:/usr/bin");
    candidates.extend(texts(&["/bin/zsh", "/opt/weird/ksh"]));
    let exists = |p: &str| {
        matches!(p, "/bin/zsh" | "/usr/bin/zsh" | "/opt/homebrew/bin/fish" | "/opt/weird/ksh")
    };
    assert_eq!(
        found(candidates, exists),
        vec![
            DetectedShell::bare("zsh", "/usr/bin/zsh"),
            DetectedShell::bare("fish", "/opt/homebrew/bin/fish"),
            DetectedShell::bare("ksh", "/opt/weird/ksh"),
        ]
    );
}

#[test]
fn a_path_shell_beats_the_same_name_in_etc_shells() {
    let etc = texts(&["/bin/bash", "/opt/homebrew/bin/bash"]);
    let exists = |p: &str| matches!(p, "/bin/bash" | "/opt/homebrew/bin/bash");
    let mut candidates = path_shell_candidates("/opt/homebrew/bin:/usr/bin");
    candidates.extend(etc.iter().cloned());
    assert_eq!(
        found(candidates, exists),
        vec![DetectedShell::bare("bash", "/opt/homebrew/bin/bash")]
    );

    let mut reversed = etc;
    reversed.extend(path_shell_candidates("/opt/homebrew/bin"));
    assert_eq!(found(reversed, exists), vec![DetectedShell::bare("bash", "/bin/bash")]);
}

#[test]
fn the_login_shell_outranks_path_for_its_own_name() {
    let mut candidates = texts(&["/opt/custom/bin/zsh"]);
    candidates.extend(path_shell_candidates("/bin"));
    let exists = |p: &str| matches!(p, "/opt/custom/bin/zsh" | "/bin/zsh" | "/bin/bash");
    let got = found(candidates, exists);
    assert_eq!(got[0], DetectedShell::bare("zsh", "/opt/custom/bin/zsh"));
    assert!(!got.iter().any(|s| s.program == "/bin/zsh"));
}

#[test]
fn login_shell_prefers_passwd_over_a_stale_env() {
    assert_eq!(
        pick_login_shell(&Some("/opt/homebrew/bin/bash".into()), &Some("/bin/zsh".into())),
        "/opt/homebrew/bin/bash"
    );
    assert_eq!(pick_login_shell(&None, &Some("/bin/zsh".into())), "/bin/zsh");
    assert_eq!(pick_login_shell(&Some("  ".into()), &Some("/bin/zsh".into())), "/bin/zsh");
    assert_eq!(pick_login_shell(&None, &None), "sh");
    assert_eq!(pick_login_shell(&Some(String::new()), &Some(String::new())), "sh");
}

#[test]
fn parse_wsl_list_decodes_utf16le_and_filters() {
    let text = "Ubuntu\r\ndocker-desktop\r\ndocker-desktop-data\r\nDebian\r\n\r\n";
    let bytes: Vec<u8> = text.encode_utf16().flat_map(u16::to_le_bytes).collect();
    assert_eq!(parse_wsl_list(&bytes), vec!["Ubuntu", "Debian"]);
}

#[test]
fn parse_wsl_list_tolerates_bom_and_empty_input() {
    assert_eq!(parse_wsl_list(&[]), Vec::<String>::new());
    let text = "\u{feff}Arch\r\n";
    let bytes: Vec<u8> = text.encode_utf16().flat_map(u16::to_le_bytes).collect();
    assert_eq!(parse_wsl_list(&bytes), vec!["Arch"]);
}

#[test]
fn basename_reduces_paths_to_shell_names() {
    for platform in [Platform::Unix, Platform::Windows] {
        assert_eq!(basename(platform, "/usr/local/bin/fish"), "fish");
        assert_eq!(basename(platform, "zsh"), "zsh");
    }
    assert_eq!(basename(Platform::Windows, r"C:\Program Files\PowerShell\7\pwsh.exe"), "pwsh");
    assert_eq!(basename(Platform::Windows, "CMD.EXE"), "cmd");
}

#[test]
fn a_unique_configured_shell_is_added_first_with_its_args() {
    for platform in [Platform::Unix, Platform::Windows] {
        let detected = vec![DetectedShell::bare("System Shell", "system-shell")];
        let inventory = menu_of(
            platform,
            detected,
            Some(("custom-shell".into(), vec!["--login".into(), "--verbose".into()])),
            "system-shell",
        );

        assert_eq!(inventory.default_name, "custom-shell");
        assert_eq!(inventory.shells.len(), 2);
        assert_eq!(inventory.shells[0].label, "custom-shell");
        assert_eq!(inventory.shells[0].program, "custom-shell");
        assert_eq!(inventory.shells[0].args, ["--login", "--verbose"]);
        assert!(!inventory.shells[0].args_are_nermal_defaults);
    }
}

#[test]
fn a_bare_configured_name_reuses_the_detected_friendly_entry() {
    for (platform, program) in [
        (Platform::Windows, r"C:\Tools\Nushell\nu.exe"),
        (Platform::Unix, "/opt/nushell/bin/nu"),
    ] {
        let inventory = menu_of(
            platform,
            vec![DetectedShell::bare("Nushell", program)],
            Some(("nu".into(), vec!["--login".into()])),
            "fallback-shell",
        );

        assert_eq!(inventory.shells.len(), 1, "the same shell was duplicated");
        assert_eq!(inventory.default_name, "Nushell");
        assert_eq!(inventory.shells[0].program, "nu");
        assert_eq!(inventory.shells[0].args, ["--login"]);
        assert!(!inventory.shells[0].args_are_nermal_defaults);
    }
}

#[test]
fn a_bare_configured_command_keeps_path_resolution_after_deduplication() {
    for platform in [Platform::Unix, Platform::Windows] {
        let inventory = menu_of(
            platform,
            vec![DetectedShell::bare("bash", "/bin/bash")],
            Some(("bash".into(), Vec::new())),
            "fallback-shell",
        );

        assert_eq!(inventory.shells.len(), 1);
        assert_eq!(inventory.shells[0].program, "bash");
        assert_eq!(inventory.default_name, "bash");
    }
}

#[test]
fn explicit_same_named_shells_at_different_paths_stay_distinct() {
    for (platform, first, second) in [
        (Platform::Windows, r"C:\Shells\first\custom.exe", r"D:\Shells\second\custom.exe"),
        (Platform::Unix, "/opt/shells/first/custom", "/opt/shells/second/custom"),
    ] {
        let inventory = menu_of(
            platform,
            vec![DetectedShell::bare("custom", first)],
            Some((second.into(), Vec::new())),
            "fallback-shell",
        );

        assert_eq!(inventory.shells.len(), 2);
        assert_eq!(inventory.shells[0].program, second);
        assert_eq!(inventory.shells[0].label, "custom (Configured)");
        assert_eq!(inventory.shells[1].label, "custom");
        assert_eq!(inventory.default_name, "custom (Configured)");
    }
}

#[test]
fn an_explicit_configured_path_does_not_collapse_a_bare_detected_name() {
    for (platform, configured, detected) in [
        (Platform::Windows, r"C:\Shells\custom.exe", "custom.exe"),
        (Platform::Unix, "/opt/shells/custom", "custom"),
    ] {
        let inventory = menu_of(
            platform,
            vec![DetectedShell::bare("custom", detected)],
            Some((configured.into(), Vec::new())),
            "fallback-shell",
        );

        assert_eq!(inventory.shells.len(), 2);
        assert_eq!(inventory.shells[0].program, configured);
    }
}

#[test]
fn detected_label_names_the_unconfigured_platform_default() {
    for (platform, program, label) in [
        (Platform::Windows, r"C:\Program Files\PowerShell\7\pwsh.exe", "PowerShell 7"),
        (Platform::Unix, "/opt/homebrew/bin/zsh", "zsh"),
    ] {
        let inventory =
            menu_of(platform, vec![DetectedShell::bare(label, program)], None, program);

        assert_eq!(inventory.default_name, label);
        assert_eq!(inventory.shells.len(), 1);
        assert!(inventory.shells[0].args_are_nermal_defaults);
    }
}

#[test]
fn inventories_from_older_peers_treat_arguments_as_nermal_defaults() {
    let sent: serde_json::Value = serde_json::from_str(
        r#"{"shells":[{"label":"Git Bash","program":"bash","args":["-l"]}],"default_name":"Git Bash"}"#,
    )
    .expect("an inventory without argument-origin metadata should remain compatible");
    let row = &sent["shells"][0];
    let shell = DetectedShell::from_peer(
        row["label"].as_str().unwrap().to_string(),
        row["program"].as_str().unwrap().to_string(),
        row["args"].as_array().unwrap().iter().map(|a| a.as_str().unwrap().to_string()).collect(),
        row.get("args_are_nermal_defaults").and_then(|b| b.as_bool()),
        row.get("user_authored").and_then(|b| b.as_bool()),
    );

    assert!(shell.args_are_nermal_defaults);
    assert!(!shell.user_authored);
    assert_eq!(shell.args, ["-l"]);
}

#[test]
fn default_shell_name_prefers_the_configured_program() {
    for platform in [Platform::Unix, Platform::Windows] {
        assert_eq!(default_shell_name(platform, Some("/usr/bin/fish"), "/bin/sh"), "fish");
        assert_eq!(default_shell_name(platform, Some("pwsh"), "/bin/sh"), "pwsh");
        assert!(!default_shell_name(platform, None, "/bin/sh").is_empty());
        assert!(!default_shell_name(platform, Some("  "), "/bin/sh").is_empty());
        assert_eq!(default_shell_name(platform, None, "/bin/zsh"), "zsh");
    }
}

fn custom(label: &str, program: &str, args: &[&str]) -> CustomShell {
    CustomShell { label: label.to_string(), program: program.to_string(), args: texts(args) }
}

fn menu(shells: &[&str]) -> ShellInventory {
    ShellInventory {
        shells: shells.iter().map(|s| DetectedShell::bare(s, s)).collect(),
        default_name: shells.first().map(|s| s.to_string()).unwrap_or_default(),
    }
}

#[test]
fn a_custom_entry_joins_the_menu_with_its_arguments_intact() {
    let mut inventory = menu(&["zsh"]);
    append_custom(
        Platform::Unix,
        &mut inventory,
        &vec![custom("Ubuntu (dev)", "wsl.exe", &["-d", "Ubuntu"])],
    );

    let added = inventory.shells.last().expect("the entry");
    assert_eq!(added.label, "Ubuntu (dev)");
    assert_eq!(added.program, "wsl.exe");
    assert_eq!(added.args, vec!["-d".to_string(), "Ubuntu".to_string()]);
    assert!(!added.args_are_nermal_defaults);
    assert!(added.user_authored);
    assert_eq!(inventory.default_name, "zsh");
}

#[test]
fn a_custom_entry_with_nothing_to_launch_is_not_offered() {
    let mut inventory = menu(&["zsh"]);
    append_custom(Platform::Unix, &mut inventory, &vec![custom("Broken", "   ", &[])]);

    assert_eq!(inventory.shells.len(), 1);
}

#[test]
fn a_custom_entry_with_no_label_is_named_after_what_it_runs() {
    let mut inventory = menu(&["zsh"]);
    append_custom(Platform::Unix, &mut inventory, &vec![custom("  ", "/opt/homebrew/bin/nu", &[])]);

    assert_eq!(inventory.shells.last().expect("the entry").label, "nu");
}

#[test]
fn a_custom_entry_cannot_take_another_rows_name() {
    let mut inventory = menu(&["zsh", "bash"]);
    append_custom(Platform::Unix, &mut inventory, &vec![custom("zsh", "/usr/local/bin/zsh", &[])]);

    assert_eq!(inventory.shells.last().expect("the entry").label, "zsh (Custom)");
    assert_eq!(
        inventory.shells.iter().filter(|s| s.label == inventory.default_name).count(),
        1
    );
}

#[test]
fn custom_entries_that_all_want_the_same_name_still_get_one_each() {
    let mut inventory = menu(&["zsh"]);
    append_custom(
        Platform::Unix,
        &mut inventory,
        &vec![
            custom("zsh", "/a", &[]),
            custom("zsh", "/b", &[]),
            custom("zsh (Custom)", "/c", &[]),
        ],
    );

    let labels: Vec<_> = inventory.shells.iter().map(|s| &s.label).collect();
    let unique: std::collections::HashSet<_> = labels.iter().collect();
    assert_eq!(labels.len(), unique.len(), "{labels:?}");
    assert_eq!(labels[1], "zsh (Custom)");
    assert_eq!(labels[2], "zsh (Custom) (Custom)");
    assert_eq!(labels[3], "zsh (Custom) (Custom) (Custom)");
}

#[test]
fn a_custom_entry_cannot_claim_a_default_name_no_row_carries() {
    let mut inventory = menu(&["zsh"]);
    inventory.default_name = "ksh".into();
    append_custom(Platform::Unix, &mut inventory, &vec![custom("ksh", "/usr/bin/ksh", &[])]);

    assert_eq!(inventory.shells.last().expect("the entry").label, "ksh (Custom)");
}

#[test]
fn no_custom_entries_leaves_the_menu_exactly_as_it_was() {
    let before = menu(&["zsh", "bash"]);
    let mut after = before.clone();
    append_custom(Platform::Unix, &mut after, &vec![]);

    assert_eq!(before, after);
}

fn distro(state: Option<u32>, name: Option<&str>) -> Distro {
    Distro { state, name: name.map(|n| n.to_string()) }
}

#[test]
fn the_default_distro_is_one_of_the_installed_ones() {
    let registry = Some(vec![distro(Some(1), Some("Ubuntu")), distro(None, Some("Debian"))]);
    let installed =
        wsl_distros(Platform::Windows, list_wsl_distros(&registry, false, false, &[]));
    let default = default_wsl_distro(
        Platform::Windows,
        &Some("{0a1b}".to_string()),
        &Some("Debian".to_string()),
    )
    .expect("a machine with installed distros names a default in Lxss");
    assert!(
        installed.contains(&default),
        "registry default {default:?} not in {installed:?}"
    );
}

#[test]
fn a_modern_distro_is_still_offered() {
    // A key says nothing here of whether the distribution is a modern one.
    let registry = Some(vec![distro(Some(1), Some("Ubuntu-24.04"))]);
    let installed =
        wsl_distros(Platform::Windows, list_wsl_distros(&registry, false, false, &[]));
    assert_eq!(installed, ["Ubuntu-24.04"]);
}

#[test]
fn listing_the_distros_does_not_wait_on_the_wsl_service() {
    // What the service would print does not matter once the registry has answered.
    let registry = Some(vec![distro(Some(1), Some("Ubuntu"))]);
    let text = "Elsewhere\r\n";
    let bytes: Vec<u8> = text.encode_utf16().flat_map(u16::to_le_bytes).collect();
    assert_eq!(list_wsl_distros(&registry, true, true, &bytes), Some(vec!["Ubuntu".to_string()]));
    assert_eq!(list_wsl_distros(&registry, false, false, &[]), Some(vec!["Ubuntu".to_string()]));
}

#[test]
fn a_distro_that_is_not_installed_is_not_offered() {
    let registry = Some(vec![
        distro(Some(1), Some("Ubuntu")),
        distro(Some(3), Some("Halfway")),
        distro(Some(0), Some("Leaving")),
    ]);
    let offered = wsl_distros(Platform::Windows, list_wsl_distros(&registry, false, false, &[]));
    assert_eq!(offered, ["Ubuntu"]);
}

#[test]
fn the_registry_says_nothing_where_no_name_can_be_read() {
    assert_eq!(registered_wsl_distros(&None), None);
    assert_eq!(registered_wsl_distros(&Some(vec![])), Some(vec![]));
    assert_eq!(registered_wsl_distros(&Some(vec![distro(Some(1), None)])), None);
    assert_eq!(registered_wsl_distros(&Some(vec![distro(Some(1), Some("docker-desktop"))])), None);
}

#[test]
fn the_service_is_asked_where_the_registry_says_nothing() {
    let bytes: Vec<u8> = "Arch\r\n".encode_utf16().flat_map(u16::to_le_bytes).collect();
    assert_eq!(list_wsl_distros(&None, true, true, &bytes), Some(vec!["Arch".to_string()]));
    assert_eq!(list_wsl_distros(&None, true, false, &bytes), None);
    assert_eq!(list_wsl_distros(&None, false, true, &bytes), None);
    assert_eq!(wsl_distros_probed(Platform::Windows, None), None);
    assert_eq!(wsl_distros_probed(Platform::Unix, None), Some(vec![]));
    assert_eq!(wsl_distros(Platform::Windows, None), Vec::<String>::new());
    assert_eq!(wsl_distros(Platform::Unix, Some(texts(&["Arch"]))), Vec::<String>::new());
}

#[test]
fn a_default_distribution_needs_a_key_and_a_name() {
    let key = Some("{1}".to_string());
    let name = Some("Arch".to_string());
    assert_eq!(default_wsl_distro(Platform::Windows, &key, &name), name);
    assert_eq!(default_wsl_distro(Platform::Unix, &key, &name), None);
    assert_eq!(default_wsl_distro(Platform::Windows, &None, &name), None);
    assert_eq!(default_wsl_distro(Platform::Windows, &key, &None), None);
    assert_eq!(default_wsl_distro(Platform::Windows, &key, &Some(String::new())), None);
    assert_eq!(
        distro_key("{1}"),
        r"Software\Microsoft\Windows\CurrentVersion\Lxss\{1}"
    );
}

#[test]
fn container_runtimes_are_not_for_typing() {
    assert!(worth_offering(&chars("Ubuntu")));
    assert!(!worth_offering(&chars("")));
    assert!(!worth_offering(&chars("docker-desktop-data")));
    assert!(!worth_offering(&chars("rancher-desktop")));
    assert!(worth_offering(&chars("my-docker-desktop")));
}

#[test]
fn an_odd_byte_at_the_end_of_a_list_counts_for_nothing() {
    let mut bytes: Vec<u8> = "Arch\0".encode_utf16().flat_map(u16::to_le_bytes).collect();
    bytes.push(65);
    assert_eq!(parse_wsl_list(&bytes), vec!["Arch"]);
}

#[test]
fn a_session_begins_with_the_shell_of_its_platform() {
    let passwd = Some("/bin/fish".to_string());
    let pwsh = Some(r"C:\pwsh.exe".to_string());
    assert_eq!(login_shell(Platform::Unix, &passwd, &None, &pwsh), "/bin/fish");
    assert_eq!(login_shell(Platform::Windows, &passwd, &None, &pwsh), r"C:\pwsh.exe");
    assert_eq!(windows_default_shell(&None), "powershell.exe");
}

#[test]
fn labels_and_bare_names() {
    assert_eq!(shell_label("nu"), "Nushell");
    assert_eq!(shell_label("NU"), "Nushell");
    assert_eq!(shell_label("nush"), "nush");
    assert!(default_true());
    assert!(is_bare_program(Platform::Unix, "bash"));
    assert!(is_bare_program(Platform::Unix, ""));
    assert!(!is_bare_program(Platform::Unix, "/bash"));
    assert!(is_bare_program(Platform::Unix, r"a\b"));
    assert!(!is_bare_program(Platform::Windows, r"a\b"));
    assert!(!is_bare_program(Platform::Windows, r"C:bash"));
    // A path without a name stands for itself.
    assert_eq!(basename(Platform::Unix, "/"), "/");
    assert_eq!(basename(Platform::Unix, ".."), "..");
}

#[test]
fn the_user_database_gets_more_room_up_to_a_limit() {
    assert_eq!(first_buffer(-1), 1024);
    assert_eq!(first_buffer(4096), 4096);
    assert_eq!(passwd_step(1024, true, true, false), PasswdStep::Again(2048));
    assert_eq!(passwd_step(65536, true, true, false), PasswdStep::Nothing);
    assert_eq!(passwd_step(1024, false, true, true), PasswdStep::Nothing);
    assert_eq!(passwd_step(1024, false, false, false), PasswdStep::Nothing);
    assert_eq!(passwd_step(1024, false, false, true), PasswdStep::Take);
}

#[test]
fn unix_shells_come_from_login_then_path_then_etc() {
    let list = unix_candidates("/bin/zsh", "/usr/bin", "# none\n/opt/ksh\n");
    assert_eq!(list[0], "/bin/zsh");
    assert_eq!(list[1], "/usr/bin/bash");
    assert_eq!(list.last().unwrap(), "/opt/ksh");
    assert_eq!(list.len(), 14);
}

#[test]
fn resolved_paths_decide_whether_two_programs_are_one() {
    let same = Some("/usr/bin/bash".to_string());
    assert!(same_shell_program(Platform::Unix, "/bin/bash", "/usr/bin/../bin/bash", &same, &same));
    assert!(!same_shell_program(Platform::Unix, "/bin/bash", "/usr/bin/bash", &None, &None));
    assert!(same_shell_program(
        Platform::Windows,
        r"C:\Tools\NU.exe",
        "c:/tools/nu.EXE",
        &None,
        &None
    ));
    assert!(!same_shell_program(Platform::Unix, "", "bash", &None, &None));
    assert!(!same_shell_program(Platform::Unix, "bash", " ", &None, &None));
    assert!(same_shell_program(Platform::Unix, " /bin/bash ", " bash", &None, &None));
}

#[test]
fn a_machine_has_one_menu() {
    let candidates = unix_candidates("/bin/zsh", "/usr/bin", "");
    let present = existing(&candidates, |p| p == "/bin/zsh" || p == "/usr/bin/fish");
    let probe = Probe::Unix(candidates, present);
    let shells = detect_shells(&probe);
    assert_eq!(
        shells,
        [DetectedShell::bare("zsh", "/bin/zsh"), DetectedShell::bare("fish", "/usr/bin/fish")]
    );
    let menu = inventory(
        Platform::Unix,
        &probe,
        &Some(("fish".to_string(), texts(&["-l"]))),
        "/bin/zsh",
        &unresolved(2),
        &None,
        &vec![custom("zsh", "/opt/zsh", &[])],
    );
    assert_eq!(menu.default_name, "fish");
    assert_eq!(menu.shells[1].program, "fish");
    assert_eq!(menu.shells[1].args, ["-l"]);
    assert_eq!(menu.shells[2].label, "zsh (Custom)");

    // Nothing configured, and a login shell whose file is gone.
    let bare = inventory(
        Platform::Unix,
        &probe,
        &None,
        "/opt/gone/ksh",
        &unresolved(2),
        &None,
        &vec![],
    );
    assert_eq!(bare.default_name, "ksh");
    assert_eq!(bare.shells, shells);
}

fn places() -> Places {
    Places {
        program_files: Some(r"C:\Program Files".to_string()),
        program_files_x86: Some(String::new()),
        program_files_arm: None,
        user_profile: Some(r"C:\Users\me".to_string()),
        local_app_data: Some(r"C:\Users\me\AppData\Local".to_string()),
        system_root: None,
    }
}

#[test]
fn powershell_is_looked_for_where_it_is_installed() {
    assert_eq!(
        pwsh7_candidates(&places()),
        [
            r"C:\Program Files\PowerShell\7\pwsh.exe",
            r"C:\Program Files\PowerShell\7-preview\pwsh.exe",
            r"C:\Users\me\.dotnet\tools\pwsh.exe",
            r"C:\Users\me\scoop\shims\pwsh.exe",
            r"C:\Users\me\AppData\Local\Microsoft\WindowsApps\pwsh.exe",
        ]
    );
    assert_eq!(
        ps5_path(&places()),
        r"C:\Windows\System32\WindowsPowerShell\v1.0\powershell.exe"
    );
    assert_eq!(cmd_path(&places()), r"C:\Windows\System32\cmd.exe");
}

#[test]
fn powershell_is_looked_for_on_the_search_path_last() {
    let path = Some(r"C:\first;C:\second".to_string());
    let nowhere = vec![false; 5];
    let third = vec![false, false, true, false, true];
    assert_eq!(
        find_pwsh7(&places(), &third, &path, &vec![true, true]).as_deref(),
        Some(r"C:\Users\me\.dotnet\tools\pwsh.exe")
    );
    assert_eq!(
        find_pwsh7(&places(), &nowhere, &path, &vec![false, true]).as_deref(),
        Some(r"C:\second\pwsh.exe")
    );
    assert_eq!(find_pwsh7(&places(), &nowhere, &None, &vec![]), None);
}

#[test]
fn git_bash_is_looked_for_where_it_is_installed() {
    let list = git_bash_candidates(&places());
    assert_eq!(
        list,
        [
            r"C:\Program Files\Git\bin\bash.exe",
            r"C:\Users\me\AppData\Local\Programs\Git\bin\bash.exe",
        ]
    );
    assert_eq!(git_bash_path(&places(), &vec![false, true]).as_deref(), Some(list[1].as_str()));
    assert_eq!(git_bash_path(&places(), &vec![false, false]), None);
    assert_eq!(pick_first_existing(&list, &vec![true, true]).as_deref(), Some(list[0].as_str()));
}

#[test]
fn the_command_prompt_is_that_of_the_environment_where_it_is_a_file() {
    let own = Some(r"D:\cmd.exe".to_string());
    assert_eq!(cmd_program(&own, true, r"C:\cmd.exe", true).as_deref(), Some(r"D:\cmd.exe"));
    assert_eq!(cmd_program(&own, false, r"C:\cmd.exe", true).as_deref(), Some(r"C:\cmd.exe"));
    assert_eq!(cmd_program(&None, true, r"C:\cmd.exe", false), None);
}

#[test]
fn windows_path_probe_finds_the_first_nushell_file() {
    let path = Some(r"C:\first;C:\second".to_string());
    assert_eq!(find_in_path("nu.exe", &path), [r"C:\first\nu.exe", r"C:\second\nu.exe"]);
    // In the first directory the name is that of a directory.
    assert_eq!(
        nushell_path(&path, &vec![false, true]).as_deref(),
        Some(r"C:\second\nu.exe")
    );
    assert_eq!(nushell_path(&None, &vec![]), None);
}

#[test]
fn windows_shells_come_in_a_fixed_order() {
    let found = WindowsShells {
        pwsh: Some(r"C:\pwsh.exe".to_string()),
        nu: None,
        ps5: Some(r"C:\ps5.exe".to_string()),
        cmd: Some(r"C:\cmd.exe".to_string()),
        git_bash: Some(r"C:\bash.exe".to_string()),
        distros: texts(&["Arch"]),
    };
    let rows = detect_windows(&found);
    let labels: Vec<_> = rows.iter().map(|r| r.label.as_str()).collect();
    assert_eq!(
        labels,
        ["PowerShell 7", "Windows PowerShell", "Command Prompt", "Git Bash", "WSL · Arch"]
    );
    assert_eq!(rows[3].args, ["-i", "-l"]);
    assert_eq!(rows[4].program, "wsl.exe");
    assert_eq!(rows[4].args, ["--distribution", "Arch", "--cd", "~"]);
    assert!(rows.iter().all(|r| r.args_are_nermal_defaults && !r.user_authored));
    assert_eq!(detect_shells(&Probe::Windows(found)), rows);
}
