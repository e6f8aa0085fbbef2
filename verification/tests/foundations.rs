use nermal::calendar::{
    civil_from_days, days_in_month, is_leap_year, month_name, month_window, today,
};
use nermal::git_heatmap::{bucket, fetch, graph, Fetched, Heatmap};
use nermal::numbers::{decimal_text, parse_i32, parse_u32};
use nermal::offsets::{byte_len, locate, part_of};
use nermal::paths::{components, file_name, join, parent, same_path, Component, Platform};
use nermal::registry::{string_units, take_subkey, HiveReader, SubkeyStep};
use nermal::text::{lines, split, space, to_lower, trim};
use nermal::utf16::{decode, utf16_value};

fn chars(s: &str) -> Vec<char> {
    s.chars().collect()
}

fn text(s: &[char]) -> String {
    s.iter().collect()
}

#[test]
fn white_space_and_lower_case_are_those_of_std() {
    for c in (0..=0x10FFFFu32).filter_map(char::from_u32) {
        assert_eq!(space(c), c.is_whitespace(), "{c:?}");
        assert_eq!(to_lower(c), c.to_ascii_lowercase(), "{c:?}");
    }
}

#[test]
fn lines_and_pieces_are_those_of_std() {
    for s in ["", "\n", "a", "a\n", "a\r\n", "a\r", "\r\n\r\n", "a\n\nb", "a\r\r\nb", "\ra"] {
        let got: Vec<String> = lines(&chars(s)).iter().map(|l| text(l)).collect();
        assert_eq!(got, s.lines().collect::<Vec<_>>(), "{s:?}");
        let got: Vec<String> = split(&chars(s), '\n').iter().map(|l| text(l)).collect();
        assert_eq!(got, s.split('\n').collect::<Vec<_>>(), "{s:?}");
        assert_eq!(text(trim(&chars(s))), s.trim(), "{s:?}");
    }
}

#[test]
fn utf16_is_decoded_as_by_std() {
    let units: [u16; 8] = [0x41, 0xD83D, 0xDE00, 0xDE00, 0xD83D, 0x42, 0xD83D, 0xE9];
    for i in 0..units.len() {
        for j in i..=units.len() {
            assert_eq!(
                text(&decode(&units[i..j])),
                String::from_utf16_lossy(&units[i..j]),
                "{i}..{j}"
            );
        }
    }
    assert_eq!(utf16_value(&[0x41, 0, 0x42]), "A");
    assert_eq!(utf16_value(&[0x41, 0x42]), "AB");
}

#[test]
fn offsets_are_those_of_std() {
    let s = "aé€😀b";
    assert_eq!(byte_len(s), s.len());
    let c = chars(s);
    for i in 0..=s.len() + 1 {
        assert_eq!(locate(&c, i).is_some(), s.is_char_boundary(i), "{i}");
        for j in 0..=s.len() + 1 {
            assert_eq!(text(&part_of(&c, i, j)), s.get(i..j).unwrap_or_default(), "{i}..{j}");
        }
    }
}

#[test]
fn numbers_are_those_of_std() {
    for s in [
        "", "0", "7", "+7", "-7", "+", "-", "007", "4294967295", "4294967296", "2147483647",
        "2147483648", "-2147483648", "-2147483649", "1a", " 1", "99999999999999999999", "-0",
        "00000000000000000000001", "++1", "1_0",
    ] {
        assert_eq!(parse_u32(&chars(s)), s.parse::<u32>().ok(), "{s:?}");
        assert_eq!(parse_i32(&chars(s)), s.parse::<i32>().ok(), "{s:?}");
    }
    for n in [0, 9, 10, 123, u64::MAX] {
        assert_eq!(decimal_text(n), n.to_string());
    }
}

fn unix_component(c: std::path::Component) -> String {
    match c {
        std::path::Component::Prefix(_) => unreachable!(),
        std::path::Component::RootDir => "<root>".to_string(),
        std::path::Component::CurDir => "<cur>".to_string(),
        std::path::Component::ParentDir => "<parent>".to_string(),
        std::path::Component::Normal(n) => n.to_str().unwrap().to_string(),
    }
}

fn shown(platform: Platform, s: &str) -> Vec<String> {
    components(platform, &chars(s))
        .iter()
        .map(|c| match c {
            Component::Prefix(p) => format!("[{}]", text(p)),
            Component::Root => "<root>".to_string(),
            Component::Cur => "<cur>".to_string(),
            Component::Parent => "<parent>".to_string(),
            Component::Normal(n) => text(n),
        })
        .collect()
}

#[test]
fn unix_paths_are_those_of_std() {
    let paths = [
        "", "/", "//", ".", "./", "..", "a", "a/", "/a", "//a", "a/b", "a//b", "a/./b", "a/../b",
        "./a", "./.", "a/.", "a/..", "/.", "/..", "/./a", ".a", "..a", "a.b/c", "../a", "/a/b/.",
        ".//a", "/a//", "a\\b", "...", "./..", "/a/b/c/",
    ];
    for s in paths {
        let path = std::path::Path::new(s);
        let want: Vec<String> = path.components().map(unix_component).collect();
        assert_eq!(shown(Platform::Unix, s), want, "{s:?}");
        assert_eq!(
            file_name(Platform::Unix, &chars(s)).map(|n| text(&n)).as_deref(),
            path.file_name().map(|n| n.to_str().unwrap()),
            "{s:?}"
        );
        assert_eq!(
            parent(Platform::Unix, &chars(s)).map(text).as_deref(),
            path.parent().map(|p| p.to_str().unwrap()),
            "{s:?}"
        );
        assert_eq!(
            text(&join(Platform::Unix, &chars(s), &chars("x/y"))),
            path.join("x/y").to_str().unwrap(),
            "{s:?}"
        );
        for t in paths {
            assert_eq!(
                same_path(Platform::Unix, &chars(s), &chars(t)),
                path == std::path::Path::new(t),
                "{s:?} {t:?}"
            );
        }
    }
}

#[test]
fn windows_paths_have_prefixes() {
    let w = Platform::Windows;
    assert_eq!(shown(w, r"c:\a/b"), ["[C:]", "<root>", "a", "b"]);
    assert_eq!(shown(w, r"c:a"), ["[C:]", "a"]);
    assert_eq!(shown(w, r"\a"), ["<root>", "a"]);
    assert_eq!(shown(w, r"a\.\b\..\c\"), ["a", "b", "<parent>", "c"]);
    assert_eq!(shown(w, r".\a"), ["<cur>", "a"]);
    assert_eq!(shown(w, r"\\server\share\x"), [r"[\\server\share]", "<root>", "x"]);
    assert_eq!(shown(w, "//server/share"), [r"[\\server\share]", "<root>"]);
    assert_eq!(shown(w, r"\\server"), ["<root>", "server"]);
    assert_eq!(shown(w, r"\\?\c:\a/b\.\c"), [r"[\\?\C:]", "<root>", "a/b", "<cur>", "c"]);
    assert_eq!(shown(w, r"\\?\UNC\s\t\x"), [r"[\\?\UNC\s\t]", "<root>", "x"]);
    assert_eq!(shown(w, r"\\?\pics\x"), [r"[\\?\pics]", "<root>", "x"]);
    assert_eq!(shown(w, r"\\.\COM42"), [r"[\\.\COM42]", "<root>"]);
    assert_eq!(shown(w, "1:"), ["1:"]);

    let up = |s: &str| parent(w, &chars(s)).map(text);
    assert_eq!(up(r"C:\a\b").as_deref(), Some(r"C:\a"));
    assert_eq!(up(r"C:\a").as_deref(), Some(r"C:\"));
    assert_eq!(up(r"C:\"), None);
    assert_eq!(up(r"C:a").as_deref(), Some("C:"));
    assert_eq!(up(r"\\server\share\x").as_deref(), Some(r"\\server\share"));
    assert_eq!(up(r"\\?\C:\a").as_deref(), Some(r"\\?\C:\"));
    assert_eq!(up(r"a\b/").as_deref(), Some("a"));

    let put = |dir: &str, name: &str| text(&join(w, &chars(dir), &chars(name)));
    assert_eq!(put(r"C:\a", "x"), r"C:\a\x");
    assert_eq!(put(r"C:\a/", "x"), r"C:\a/x");
    assert_eq!(put("C:", "x"), "C:x");
    assert_eq!(put("", "x"), "x");
    assert_eq!(put(r"\\?\C:\a", "x"), r"\\?\C:\a\x");
    // A verbatim directory is written anew.
    assert_eq!(put(r"\\?\c:\a\\b\", "x"), r"\\?\c:\a\b\x");
    assert_eq!(put(r"\\?\C:\a/b", "x/y"), r"\\?\C:\a/b\x\y");
    assert_eq!(put(r"\\?\C:\a\.\b", r".\..\c"), r"\\?\C:\a\.\c");
    assert_eq!(put(r"\\?\C:\", r"..\c"), r"\\?\C:\c");
    assert_eq!(put(r"\\?\C:", "x"), r"\\?\C:\x");
    assert_eq!(put(r"\\?\UNC\s\t", "x"), r"\\?\UNC\s\t\x");
    assert_eq!(put(r"\\?\pics\\", ""), r"\\?\pics\\");

    assert!(same_path(w, &chars(r"c:\a"), &chars(r"C:/a/")));
    assert!(!same_path(w, &chars(r"c:\a"), &chars(r"C:\A")));
}

#[test]
fn days_become_dates() {
    assert_eq!(civil_from_days(0), (1970, 1, 1));
    assert_eq!(civil_from_days(-1), (1969, 12, 31));
    assert_eq!(civil_from_days(59), (1970, 3, 1));
    assert_eq!(civil_from_days(11_016), (2000, 2, 29));
    assert_eq!(civil_from_days(11_017), (2000, 3, 1));
    assert_eq!(civil_from_days(20_819), (2027, 1, 1));
    assert_eq!(civil_from_days(-719_468), (0, 3, 1));
    assert_eq!(civil_from_days(-719_469), (0, 2, 29));
    assert_eq!(today(86_399), (1970, 1, 1));
    assert_eq!(today(86_400), (1970, 1, 2));
    let mut date = (1600, 1, 1);
    for z in -135_140..200_000 {
        assert_eq!(civil_from_days(z), date);
        date.2 += 1;
        if date.2 > days_in_month(date.0, date.1) {
            date.2 = 1;
            date.1 += 1;
        }
        if date.1 > 12 {
            date.1 = 1;
            date.0 += 1;
        }
    }
}

#[test]
fn leap_years_and_months() {
    for (y, leap) in [(2000, true), (1900, false), (2024, true), (2023, false), (0, true), (-4, true), (-100, false)] {
        assert_eq!(is_leap_year(y), leap, "{y}");
    }
    assert_eq!(days_in_month(2024, 2), 29);
    assert_eq!(days_in_month(2023, 2), 28);
    assert_eq!(days_in_month(2023, 4), 30);
    assert_eq!(days_in_month(2023, 12), 31);
    assert_eq!(days_in_month(2023, 13), 30);
    assert_eq!(month_name(1), "Jan");
    assert_eq!(month_name(12), "Dec");
    let window = month_window(2024, 3);
    assert_eq!(window.len(), 12);
    assert_eq!(window[0], (2023, 4));
    assert_eq!(window[8], (2023, 12));
    assert_eq!(window[9], (2024, 1));
    assert_eq!(window[11], (2024, 3));
}

#[test]
fn changes_are_summed_by_day() {
    let log = "D:2024-03-02\n3\t4\ta.rs\n-\t-\tb.png\n\nD:2024-03-02\n10\t0\tc\td\nD:2023-04-01\n1\t1\tx\nD:nonsense\n9\t9\ty\nD:2024-03-05\n5\n2\tx\tz\n+2\t3\tq\n";
    let months = graph(log, (2024, 3, 6));
    assert_eq!(months.len(), 12);
    assert_eq!((months[11].year, months[11].month), (2024, 3));
    assert_eq!(months[11].days.len(), 31);
    assert_eq!(months[11].days[1], 17);
    assert_eq!(months[11].days[4], 5);
    assert_eq!(months[0].days[0], 2);
    assert_eq!(months[10].days.len(), 29);
    assert_eq!(months.iter().flat_map(|m| m.days.iter()).sum::<u32>(), 24);
}

#[test]
fn a_graph_is_fetched_out_of_what_was_printed() {
    let march: u64 = 19_784 * 86_400;
    assert!(matches!(fetch(false, b"", march), Fetched::Nothing));
    let months = match fetch(true, b"D:2024-03-02\n1\t2\t\xff\n", march) {
        Fetched::Months(months) => months,
        other => panic!("{other:?}"),
    };
    assert_eq!((months[11].year, months[11].month), (2024, 3));
    assert_eq!(months[11].days[1], 3);
    let huge = b"D:2024-03-02\n4294967295\t1\ta\n";
    assert!(matches!(fetch(true, huge, march), Fetched::Overflow));
}

#[test]
fn days_are_drawn_in_bands() {
    let bands: Vec<u8> =
        [0, 1, 9, 10, 49, 50, 199, 200, u32::MAX].iter().map(|&n| bucket(n)).collect();
    assert_eq!(bands, [0, 1, 1, 2, 2, 3, 3, 4, 4]);
}

#[test]
fn a_graph_is_asked_for_once_and_shown_for_its_repository() {
    let unix = Platform::Unix;
    let mut map = Heatmap { root: None, loading: false, months: None };
    assert!(map.request(unix, "/a"));
    assert!(!map.request(unix, "/a"));
    assert!(!map.request(unix, "/b"));
    assert!(map.land(unix, "/a/", Some(vec![])));
    assert!(map.months.is_some());
    assert!(map.request(unix, "/b"));
    assert!(map.months.is_some(), "the last one stays until the next has come");
    assert!(!map.land(unix, "/a", None));
    assert!(map.months.is_some());
    assert!(!map.loading);
}

#[test]
fn a_registry_string_says_how_much_room_it_needs() {
    assert_eq!(string_units(0, 10), Some(5));
    assert_eq!(string_units(0, 11), Some(6));
    assert_eq!(string_units(0, 0), None);
    assert_eq!(string_units(2, 10), None);
}

#[test]
fn subkeys_are_all_read_or_none() {
    let (names, step) = take_subkey(vec![], 0, &[65]);
    assert!(matches!(step, SubkeyStep::Next));
    let (_, step) = take_subkey(names, 259, &[]);
    assert!(matches!(step, SubkeyStep::Done(Some(all)) if all == ["A"]));
    let (_, step) = take_subkey(vec!["A".to_string()], 1018, &[]);
    assert!(matches!(step, SubkeyStep::Done(None)));
}

#[test]
fn a_hive_reader_begins_with_nothing() {
    let reader = HiveReader::new();
    assert!(reader.vars.is_empty());
    assert_eq!(reader.index, 0);
}

#[test]
fn a_hive_is_read_value_by_value() {
    let mut reader = HiveReader::new();
    assert!(reader.take(0, 1, &[80], &[97, 0, 98]));
    assert!(reader.take(0, 4, &[81], &[1, 2]));
    assert!(reader.take(0, 2, &[82], &[99]));
    assert_eq!(reader.index, 3);
    assert_eq!(reader.vars.len(), 2);
    assert_eq!((reader.vars[0].name.as_str(), reader.vars[0].value.as_str()), ("P", "a"));
    assert!(!reader.vars[0].expandable);
    assert_eq!((reader.vars[1].name.as_str(), reader.vars[1].value.as_str()), ("R", "c"));
    assert!(reader.vars[1].expandable);
    assert!(!reader.take(259, 0, &[], &[]));
    assert_eq!(reader.vars.len(), 2);
}

#[test]
fn buffers_grow_up_to_the_limits_of_the_registry() {
    let mut reader = HiveReader::new();
    assert!(reader.take(234, 0, &[], &[]));
    assert_eq!((reader.name_units, reader.value_units, reader.index), (512, 4096, 0));
    let mut questions = 1;
    while reader.take(234, 0, &[], &[]) {
        questions += 1;
    }
    assert_eq!((reader.name_units, reader.value_units), (16384, 524288));
    assert_eq!(questions, 8);
}
