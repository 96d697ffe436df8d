use cost_trend::profiles::{
    blank, chars_of, collect_profiles, line_break, profile_names, section_bounds, trim_bounds,
    word_at,
};

fn names_of_text(content: &str) -> Vec<String> {
    let mut names = Vec::new();
    profile_names(content, &mut names);
    names
}

#[test]
fn section_headers_name_profiles() {
    let content = "[default]\naws_access_key_id = SECRET-REDACTED\n\n[profile dev]\nregion = eu-west-1\n[prod]\n";
    assert_eq!(names_of_text(content), vec!["default", "dev", "prod"]);
}

#[test]
fn blanks_and_the_word_profile_are_dropped() {
    assert_eq!(names_of_text("[  spaced  ]"), vec!["spaced"]);
    assert_eq!(names_of_text("[profile profile twice]"), vec!["twice"]);
    assert_eq!(names_of_text("[ profile  x ]"), vec![" x"]);
    assert_eq!(names_of_text("[profile]"), vec!["profile"]);
    assert_eq!(names_of_text("[profile ]"), vec!["profile"]);
    assert_eq!(names_of_text("[profiles a]"), vec!["profiles a"]);
    assert_eq!(names_of_text("[\tdev\u{a0}]"), vec!["dev"]);
}

#[test]
fn lines_that_open_no_section_name_nothing() {
    assert!(names_of_text("").is_empty());
    assert!(names_of_text("key = value\n# [comment]\n [indented]\n[open\nclosed]\n[").is_empty());
    assert!(names_of_text("[trailing] \n").is_empty());
}

#[test]
fn empty_section_names_the_empty_profile() {
    assert_eq!(names_of_text("[]"), vec![""]);
    assert_eq!(names_of_text("[   ]"), vec![""]);
}

#[test]
fn line_ends_may_carry_a_carriage_return() {
    assert_eq!(names_of_text("[a]\r\n[b]\r\n"), vec!["a", "b"]);
    assert_eq!(names_of_text("[a]\n[b]"), vec!["a", "b"]);
    assert!(names_of_text("[a]\r").is_empty());
    assert!(names_of_text("[a]\r\r\n").is_empty());
}

#[test]
fn each_profile_is_named_once() {
    assert_eq!(names_of_text("[b]\n[a]\n[profile b]\n[a]\n"), vec!["b", "a"]);
    let contents = vec!["[default]\n[dev]\n".to_string(), "[profile dev]\n[profile ops]\n".to_string()];
    assert_eq!(collect_profiles(&contents), vec!["default", "dev", "ops"]);
    assert!(collect_profiles(&Vec::new()).is_empty());
}

#[test]
fn names_already_held_are_kept_in_front() {
    let mut names = vec!["held".to_string()];
    profile_names("[new]\n[held]\n", &mut names);
    assert_eq!(names, vec!["held", "new"]);
}

#[test]
fn names_may_hold_any_characters() {
    assert_eq!(names_of_text("[profile größe]\n[a]b]\n[[x]]"), vec!["größe", "a]b", "[x]"]);
}

#[test]
fn scanning_helpers_find_their_bounds() {
    let chars = chars_of("[ ab ]\nxy");
    assert_eq!(chars.len(), 9);
    assert_eq!(line_break(&chars, 0), 6);
    assert_eq!(line_break(&chars, 7), 9);
    assert_eq!(trim_bounds(&chars, 1, 5), (2, 4));
    assert_eq!(trim_bounds(&chars, 1, 2), (2, 2));
    assert_eq!(section_bounds(&chars, 0, 6), Some((2, 4)));
    assert_eq!(section_bounds(&chars, 7, 9), None);
    let word = chars_of("profile x");
    assert!(word_at(&word, 0, 9));
    assert!(!word_at(&word, 1, 9));
    assert!(!word_at(&word, 0, 7));
    assert!(blank(' '));
    assert!(blank('\n'));
    assert!(blank('\u{3000}'));
    assert!(!blank('a'));
    assert!(!blank('\u{200b}'));
}

#[test]
fn blanks_are_the_white_space_of_the_standard_library() {
    for code in 0..0x11000u32 {
        if let Some(c) = char::from_u32(code) {
            assert_eq!(blank(c), c.is_whitespace(), "{:?}", c);
        }
    }
}

#[test]
fn names_agree_with_the_standard_library() {
    let content = "[default]\r\n[ profile a ]\nx\n[profile profile b]\n[]\n[c\n";
    let mut expected: Vec<String> = Vec::new();
    for line in content.lines() {
        if let Some(name) = line.strip_prefix('[').and_then(|l| l.strip_suffix(']')) {
            let name = name.trim().trim_start_matches("profile ").to_string();
            if !expected.contains(&name) {
                expected.push(name);
            }
        }
    }
    assert_eq!(names_of_text(content), expected);
}
