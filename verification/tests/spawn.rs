use nermal::spawn::{command_line, push_quoted_arg, redirection_trust_enforced};

fn units(s: &str) -> Vec<u16> {
    s.encode_utf16().collect()
}

fn quoted(arg: &str) -> String {
    let mut line = Vec::new();
    push_quoted_arg(&mut line, &units(arg));
    String::from_utf16(&line).expect("the quoter only emits units it was given plus ASCII")
}

#[test]
fn arguments_survive_the_crt_quoting_rules() {
    assert_eq!(quoted("--daemon"), r#""--daemon""#);
    assert_eq!(quoted(""), r#""""#);
    assert_eq!(quoted(r"C:\Users\me\nermal"), r#""C:\Users\me\nermal""#);
    // A trailing backslash must not escape the closing quote.
    assert_eq!(quoted(r"C:\Program Files\"), r#""C:\Program Files\\""#);
    // A literal quote takes one escape, and the run before it doubles.
    assert_eq!(quoted(r#"a"b"#), r#""a\"b""#);
    assert_eq!(quoted(r#"a\"b"#), r#""a\\\"b""#);
}

#[test]
fn a_command_line_is_quoted_throughout_and_ends_in_a_zero() {
    let line = command_line(&units(r"C:\a b\x.exe"), &[units("--dir"), units(r"C:\d\")]);
    assert_eq!(
        String::from_utf16(&line).unwrap(),
        "\"C:\\a b\\x.exe\" \"--dir\" \"C:\\d\\\\\"\0"
    );
}

#[test]
fn an_unpaired_surrogate_is_quoted_as_it_is() {
    let mut line = Vec::new();
    push_quoted_arg(&mut line, &[0xD800]);
    assert_eq!(line, vec![34, 0xD800, 34]);
}

#[test]
fn trust_is_enforced_where_the_lowest_flag_is_set() {
    assert!(redirection_trust_enforced(1, 1));
    assert!(redirection_trust_enforced(1, 3));
    assert!(!redirection_trust_enforced(1, 2));
    assert!(!redirection_trust_enforced(0, 1));
}
