use dotchaff::rules::{
    header_name, is_blank_or_comment, is_name_character, is_whitespace, read_config, ConfigError,
};

fn lines(text: &[&str]) -> Vec<String> {
    text.iter().map(|l| l.to_string()).collect()
}

#[test]
fn blank_and_comment_lines_are_skipped() {
    assert!(is_blank_or_comment(""));
    assert!(is_blank_or_comment("   \t"));
    assert!(is_blank_or_comment("#"));
    assert!(is_blank_or_comment("# a comment"));
    assert!(is_blank_or_comment("  # indented"));
    assert!(is_blank_or_comment("\u{a0}\u{3000}#x"));
    assert!(!is_blank_or_comment("foo # not a comment"));
    assert!(!is_blank_or_comment("[a]"));
    assert!(!is_blank_or_comment(" x"));
}

#[test]
fn white_space_is_the_unicode_property() {
    for c in ['\t', '\n', '\u{b}', '\u{c}', '\r', ' ', '\u{85}', '\u{a0}', '\u{1680}'] {
        assert!(is_whitespace(c));
    }
    for c in ['\u{2000}', '\u{200a}', '\u{2028}', '\u{2029}', '\u{202f}', '\u{205f}', '\u{3000}'] {
        assert!(is_whitespace(c));
    }
    for c in ['a', '#', '\u{8}', '\u{e}', '\u{200b}', '\u{1fff}', '\u{feff}'] {
        assert!(!is_whitespace(c));
    }
}

#[test]
fn white_space_agrees_with_std() {
    let mut n: u32 = 0;
    while n < 0x11000 {
        if let Some(c) = char::from_u32(n) {
            assert_eq!(is_whitespace(c), c.is_whitespace());
        }
        n += 1;
    }
}

#[test]
fn name_characters() {
    for c in ['a', 'z', 'A', 'Z', '0', '9', '-', '_'] {
        assert!(is_name_character(c));
    }
    for c in [' ', '.', '[', ']', '/', ':', '@', '`', '{', '\u{e9}'] {
        assert!(!is_name_character(c));
    }
}

#[test]
fn header_lines_name_a_group() {
    assert_eq!(header_name("[vim]"), Some("vim".to_string()));
    assert_eq!(header_name("[a-b_9]"), Some("a-b_9".to_string()));
    assert_eq!(header_name("[x]"), Some("x".to_string()));
}

#[test]
fn other_lines_are_no_headers() {
    assert_eq!(header_name(""), None);
    assert_eq!(header_name("[]"), None);
    assert_eq!(header_name("[a b]"), None);
    assert_eq!(header_name(" [a]"), None);
    assert_eq!(header_name("[a] "), None);
    assert_eq!(header_name("[a"), None);
    assert_eq!(header_name("a]"), None);
    assert_eq!(header_name("[a.b]"), None);
    assert_eq!(header_name("[\u{e9}]"), None);
    assert_eq!(header_name("[a]]"), None);
}

#[test]
fn patterns_go_to_the_current_group() {
    let config = read_config(&lines(&[
        "# shells",
        "[bash]",
        r"^\.bashrc$",
        "",
        r"^\.bash_profile$",
        "[vim]",
        r"^\.vimrc$",
    ]))
    .unwrap();
    assert_eq!(config.len(), 2);
    assert_eq!(
        config.get("bash"),
        Some(&vec![r"^\.bashrc$".to_string(), r"^\.bash_profile$".to_string()])
    );
    assert_eq!(config.get("vim"), Some(&vec![r"^\.vimrc$".to_string()]));
    assert_eq!(config.get("zsh"), None);
}

#[test]
fn each_group_is_listed_once() {
    let config = read_config(&lines(&["[b]", "1", "[a]", "2", "[b]", "3"])).unwrap();
    let mut names: Vec<&str> = config.groups().iter().map(|g| g.name().as_str()).collect();
    names.sort();
    assert_eq!(names, vec!["a", "b"]);
    for group in config.groups() {
        assert_eq!(Some(group.patterns()), config.get(group.name()));
    }
    assert_eq!(config.get("b"), Some(&vec!["1".to_string(), "3".to_string()]));
    assert_eq!(config.get("a"), Some(&vec!["2".to_string()]));
}

#[test]
fn a_repeated_header_reopens_its_group() {
    let config = read_config(&lines(&["[a]", "one", "[b]", "two", "[a]", "three"])).unwrap();
    assert_eq!(config.len(), 2);
    assert_eq!(config.get("a"), Some(&vec!["one".to_string(), "three".to_string()]));
    assert_eq!(config.get("b"), Some(&vec!["two".to_string()]));
}

#[test]
fn patterns_are_taken_verbatim() {
    let config = read_config(&lines(&["[a]", "  indented  ", "x # y", "[not a header"])).unwrap();
    assert_eq!(
        config.get("a"),
        Some(&vec!["  indented  ".to_string(), "x # y".to_string(), "[not a header".to_string()])
    );
}

#[test]
fn a_header_without_patterns_opens_no_group() {
    let config = read_config(&lines(&["[a]", "# nothing", "[b]", "x"])).unwrap();
    assert_eq!(config.len(), 1);
    assert_eq!(config.get("a"), None);
}

#[test]
fn an_empty_file_has_no_groups() {
    let config = read_config(&lines(&[])).unwrap();
    assert!(config.is_empty());
    assert_eq!(config.len(), 0);
    let config = read_config(&lines(&["", "# only comments", "   "])).unwrap();
    assert!(config.is_empty());
}

#[test]
fn a_pattern_before_any_header_is_refused() {
    let r = read_config(&lines(&["# comment", "", "stray", "[a]", "x"]));
    match r {
        Err(ConfigError::NoTarget { index, line }) => {
            assert_eq!(index, 2);
            assert_eq!(line, "stray");
        }
        Ok(_) => panic!("the stray line was accepted"),
    }
}

#[test]
fn the_first_stray_line_is_reported() {
    let r = read_config(&lines(&["one", "two"]));
    match r {
        Err(ConfigError::NoTarget { index, line }) => {
            assert_eq!(index, 0);
            assert_eq!(line, "one");
        }
        Ok(_) => panic!("the stray line was accepted"),
    }
}
