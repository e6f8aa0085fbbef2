use nermal::windows_env::{
    append_missing_entries, is_appended, join_lists, merge_environment,
    refreshed_pane_environment, same_path_entry, RegistryVar,
};

fn plain(name: &str, value: &str) -> RegistryVar {
    RegistryVar { name: name.to_string(), value: value.to_string(), expandable: false }
}

fn expandable(name: &str, value: &str) -> RegistryVar {
    RegistryVar { name: name.to_string(), value: value.to_string(), expandable: true }
}

fn proc(pairs: &[(&str, &str)]) -> Vec<(String, String)> {
    pairs.iter().map(|(k, v)| (k.to_string(), v.to_string())).collect()
}

fn lookup(env: &[(String, String)], name: &str) -> Option<String> {
    env.iter().find(|(k, _)| k.eq_ignore_ascii_case(name)).map(|(_, v)| v.clone())
}

fn keys_named(env: &[(String, String)], name: &str) -> Vec<String> {
    env.iter().filter(|(k, _)| k.eq_ignore_ascii_case(name)).map(|(k, _)| k.clone()).collect()
}

fn chars(s: &str) -> Vec<char> {
    s.chars().collect()
}

fn text(s: &[char]) -> String {
    s.iter().collect()
}

#[test]
fn user_path_is_appended_after_the_machine_path() {
    let env = merge_environment(
        &[plain("Path", r"C:\Windows;C:\Windows\System32")],
        &[plain("Path", r"C:\Users\me\bin")],
        &proc(&[("Path", r"C:\stale")]),
        &[],
    );
    assert_eq!(
        lookup(&env, "PATH").as_deref(),
        Some(r"C:\Windows;C:\Windows\System32;C:\Users\me\bin;C:\stale")
    );
}

#[test]
fn psmodulepath_is_combined_the_same_way_path_is() {
    let env = merge_environment(
        &[plain("PSModulePath", r"C:\Program Files\WindowsPowerShell\Modules")],
        &[plain("PSModulePath", r"C:\Users\me\Documents\WindowsPowerShell\Modules")],
        &proc(&[]),
        &[],
    );
    assert_eq!(
        lookup(&env, "PSModulePath").as_deref(),
        Some(
            r"C:\Program Files\WindowsPowerShell\Modules;C:\Users\me\Documents\WindowsPowerShell\Modules"
        )
    );
}

#[test]
fn a_variable_added_after_the_daemon_started_reaches_the_pane() {
    let env = merge_environment(
        &[],
        &[plain("HERDR_HOME", r"C:\Users\me\AppData\Local\Programs\Herdr")],
        &proc(&[("Path", r"C:\Windows")]),
        &[],
    );
    assert_eq!(
        lookup(&env, "HERDR_HOME").as_deref(),
        Some(r"C:\Users\me\AppData\Local\Programs\Herdr")
    );
}

#[test]
fn differently_cased_names_collapse_into_one_variable() {
    let env = merge_environment(
        &[plain("PATH", r"C:\Windows")],
        &[plain("Path", r"C:\Users\me\bin")],
        &proc(&[("path", r"C:\stale")]),
        &[],
    );
    assert_eq!(keys_named(&env, "PATH").len(), 1, "env was {env:?}");
    assert_eq!(
        lookup(&env, "PATH").as_deref(),
        Some(r"C:\Windows;C:\Users\me\bin;C:\stale")
    );
}

#[test]
fn user_values_replace_machine_values_outside_path() {
    let env = merge_environment(
        &[plain("TEMP", r"C:\Windows\TEMP")],
        &[plain("temp", r"C:\Users\me\AppData\Local\Temp")],
        &proc(&[]),
        &[],
    );
    assert_eq!(lookup(&env, "TEMP").as_deref(), Some(r"C:\Users\me\AppData\Local\Temp"));
    assert_eq!(keys_named(&env, "TEMP").len(), 1);
}

#[test]
fn expand_sz_values_resolve_against_the_merged_environment() {
    let env = merge_environment(
        &[expandable("Path", r"%SystemRoot%;%SystemRoot%\System32")],
        &[expandable("Path", r"%USERPROFILE%\bin")],
        &proc(&[("SystemRoot", r"C:\Windows"), ("USERPROFILE", r"C:\Users\me")]),
        &[],
    );
    assert_eq!(
        lookup(&env, "PATH").as_deref(),
        Some(r"C:\Windows;C:\Windows\System32;C:\Users\me\bin")
    );
}

#[test]
fn expansion_chains_through_another_registry_value() {
    let env = merge_environment(
        &[expandable("TOOLS", r"%SystemRoot%\Tools")],
        &[expandable("KIT", r"%TOOLS%\kit")],
        &proc(&[("SystemRoot", r"C:\Windows")]),
        &[],
    );
    assert_eq!(lookup(&env, "KIT").as_deref(), Some(r"C:\Windows\Tools\kit"));
}

#[test]
fn a_self_referential_value_terminates() {
    let env = merge_environment(&[expandable("LOOP", "%LOOP%")], &[], &proc(&[]), &[]);
    assert!(lookup(&env, "LOOP").is_some());
}

#[test]
fn reg_sz_values_are_taken_literally() {
    let env = merge_environment(&[], &[plain("LITERAL", "100%%")], &proc(&[]), &[]);
    assert_eq!(lookup(&env, "LITERAL").as_deref(), Some("100%%"));
}

#[test]
fn unresolved_references_survive_verbatim() {
    let env = merge_environment(&[], &[expandable("ODD", r"%NOPE%\bin")], &proc(&[]), &[]);
    assert_eq!(lookup(&env, "ODD").as_deref(), Some(r"%NOPE%\bin"));
}

#[test]
fn configured_overrides_beat_every_registry_source() {
    let overrides = proc(&[("PATH", r"C:\only\this"), ("EDITOR", "hx")]);
    let env = merge_environment(
        &[plain("Path", r"C:\Windows")],
        &[plain("Path", r"C:\Users\me\bin"), plain("EDITOR", "notepad")],
        &proc(&[("Path", r"C:\stale")]),
        &overrides,
    );
    assert_eq!(lookup(&env, "PATH").as_deref(), Some(r"C:\only\this"));
    assert_eq!(lookup(&env, "EDITOR").as_deref(), Some("hx"));
    assert_eq!(keys_named(&env, "PATH").len(), 1);
}

#[test]
fn an_override_wins_even_when_it_is_cased_differently() {
    let overrides = proc(&[("path", r"C:\only\this")]);
    let env = merge_environment(
        &[plain("Path", r"C:\Windows")],
        &[],
        &proc(&[("Path", r"C:\stale")]),
        &overrides,
    );
    assert_eq!(lookup(&env, "PATH").as_deref(), Some(r"C:\only\this"));
    assert_eq!(keys_named(&env, "PATH").len(), 1);
}

#[test]
fn process_only_variables_survive_the_refresh() {
    let env = merge_environment(
        &[],
        &[],
        &proc(&[
            ("SystemRoot", r"C:\Windows"),
            ("NUMBER_OF_PROCESSORS", "16"),
            ("nermal_PANE", "7"),
        ]),
        &[],
    );
    assert_eq!(lookup(&env, "SystemRoot").as_deref(), Some(r"C:\Windows"));
    assert_eq!(lookup(&env, "NUMBER_OF_PROCESSORS").as_deref(), Some("16"));
    assert_eq!(lookup(&env, "nermal_PANE").as_deref(), Some("7"));
}

#[test]
fn process_only_path_entries_are_kept_after_the_registry_ones() {
    let env = merge_environment(
        &[plain("Path", r"C:\Windows")],
        &[plain("Path", r"C:\Users\me\bin")],
        &proc(&[("Path", r"C:\Program Files\Git\usr\bin;C:\Windows;C:\Users\me\bin")]),
        &[],
    );
    assert_eq!(
        lookup(&env, "PATH").as_deref(),
        Some(r"C:\Windows;C:\Users\me\bin;C:\Program Files\Git\usr\bin")
    );
}

#[test]
fn a_trailing_separator_does_not_duplicate_a_path_entry() {
    let env = merge_environment(
        &[plain("Path", r"C:\Program Files\nodejs\")],
        &[],
        &proc(&[("Path", r"C:\Program Files\nodejs")]),
        &[],
    );
    assert_eq!(lookup(&env, "PATH").as_deref(), Some(r"C:\Program Files\nodejs\"));
}

#[test]
fn an_empty_registry_leaves_the_process_environment_alone() {
    let env = merge_environment(
        &[],
        &[],
        &proc(&[("Path", r"C:\Windows"), ("USERNAME", "me")]),
        &[],
    );
    assert_eq!(lookup(&env, "PATH").as_deref(), Some(r"C:\Windows"));
    assert_eq!(lookup(&env, "USERNAME").as_deref(), Some("me"));
}

#[test]
fn a_missing_machine_path_leaves_the_user_path_first() {
    let env = merge_environment(&[], &[plain("Path", r"C:\Users\me\bin")], &proc(&[]), &[]);
    assert_eq!(lookup(&env, "PATH").as_deref(), Some(r"C:\Users\me\bin"));
}

#[test]
fn the_machine_hives_username_is_ignored() {
    let env = merge_environment(
        &[plain("USERNAME", "SYSTEM")],
        &[],
        &proc(&[("USERNAME", "me")]),
        &[],
    );
    assert_eq!(lookup(&env, "USERNAME").as_deref(), Some("me"));
}

#[test]
fn a_configured_override_survives_the_live_refresh() {
    let overrides = proc(&[("Path", r"C:\only\this")]);
    let env = refreshed_pane_environment(
        &[plain("Path", r"C:\Windows")],
        &[plain("Path", r"C:\Users\me\bin")],
        &proc(&[("Path", r"C:\stale")]),
        &overrides,
    );
    assert_eq!(lookup(&env, "PATH").as_deref(), Some(r"C:\only\this"));
    assert_eq!(keys_named(&env, "PATH").len(), 1);
}

#[test]
fn nothing_is_refreshed_where_neither_hive_can_be_read() {
    assert!(refreshed_pane_environment(&[], &[], &proc(&[("A", "b")]), &[]).is_empty());
}

#[test]
fn only_two_variables_are_lists() {
    assert!(is_appended("pAtH"));
    assert!(is_appended("psmodulepath"));
    assert!(!is_appended("PATHEXT"));
}

#[test]
fn lists_are_joined_without_empty_entries_between() {
    assert_eq!(text(&join_lists(&chars("a;;"), &chars(";b"))), "a;b");
    assert_eq!(text(&join_lists(&chars(""), &chars("b"))), "b");
    assert_eq!(text(&join_lists(&chars("a;"), &chars(""))), "a");
}

#[test]
fn an_entry_that_is_missing_is_put_behind() {
    assert_eq!(
        text(&append_missing_entries(&chars(r"C:\a;C:\b"), &chars(r"c:\A\;C:\c;C:\c"))),
        r"C:\a;C:\b;C:\c"
    );
    assert!(same_path_entry(&chars(r"C:\a\"), &chars("c:\\A/")));
    assert!(!same_path_entry(&chars(r"C:\a"), &chars(r"C:\ab")));
}

#[test]
fn a_reference_in_the_other_case_is_resolved() {
    let env = merge_environment(
        &[expandable("A", "<%b%>")],
        &[],
        &proc(&[("B", "x")]),
        &[],
    );
    assert_eq!(lookup(&env, "A").as_deref(), Some("<x>"));
}

#[test]
fn a_machine_value_replaces_the_one_of_the_process() {
    let env = merge_environment(
        &[plain("Editor", "new"), expandable("Tool", r"%Editor%\bin")],
        &[],
        &proc(&[("EDITOR", "old"), ("tool", "stale")]),
        &[],
    );
    assert_eq!(keys_named(&env, "editor"), ["Editor"]);
    assert_eq!(lookup(&env, "EDITOR").as_deref(), Some("new"));
    assert_eq!(lookup(&env, "TOOL").as_deref(), Some(r"new\bin"));
}

#[test]
fn each_half_of_a_list_is_taken_by_its_own_kind() {
    let block = proc(&[("SystemRoot", r"C:\Windows")]);
    let env = merge_environment(
        &[expandable("Path", "%SystemRoot%")],
        &[plain("Path", r"C:\%SystemRoot%")],
        &block,
        &[],
    );
    assert_eq!(
        env,
        proc(&[("Path", r"C:\Windows;C:\%SystemRoot%"), ("SystemRoot", r"C:\Windows")])
    );
    let env = merge_environment(
        &[plain("Path", "%SystemRoot%")],
        &[expandable("PATH", r"%SystemRoot%\bin")],
        &block,
        &[],
    );
    assert_eq!(lookup(&env, "PATH").as_deref(), Some(r"%SystemRoot%;C:\Windows\bin"));
}

#[test]
fn a_reference_to_a_literal_value_brings_it_as_it_is() {
    let env = merge_environment(
        &[plain("SIGN", "%A%"), expandable("TEXT", "<%SIGN%>")],
        &[],
        &proc(&[("A", "x")]),
        &[],
    );
    assert_eq!(lookup(&env, "SIGN").as_deref(), Some("%A%"));
    assert_eq!(lookup(&env, "TEXT").as_deref(), Some("<%A%>"));
}

#[test]
fn a_reference_to_a_combined_list_brings_both_halves() {
    let env = merge_environment(
        &[expandable("Path", r"%SystemRoot%")],
        &[plain("Path", "%X%"), expandable("ALL", "[%PATH%]")],
        &proc(&[("SystemRoot", r"C:\Windows"), ("X", "x")]),
        &[],
    );
    assert_eq!(lookup(&env, "ALL").as_deref(), Some(r"[C:\Windows;%X%]"));
}

#[test]
fn two_halves_with_references_are_resolved_as_one_list() {
    let env = merge_environment(
        &[expandable("Path", "50%")],
        &[expandable("Path", "%X%")],
        &proc(&[("X", "v")]),
        &[],
    );
    // The first `%` is paired with the one at the start of the other half.
    assert_eq!(lookup(&env, "PATH").as_deref(), Some("50%;%X%"));
}
