use rust_cxx_cmake_bridge::artifact::{is_archive_name, lib_prefix_len, split_file_at_dot};
use rust_cxx_cmake_bridge::path::{
    find_body_start, find_file_name, find_last_segment_start, find_parent, find_segment_end,
    next_component, path_starts_with, trim_blank_end,
};
use rust_cxx_cmake_bridge::text::{append_text, chars_of, has_prefix, has_suffix, same_chars};
use rust_cxx_cmake_bridge::tokens::{find_token_end, next_token};
use std::path::Path;

fn chars(s: &str) -> Vec<char> {
    s.chars().collect()
}

fn text(c: &[char]) -> String {
    c.iter().collect()
}

/// Every text of at most `max` characters over the given alphabet.
fn all_texts(alphabet: &[char], max: usize) -> Vec<String> {
    let mut all = vec![String::new()];
    let mut last = vec![String::new()];
    for _ in 0..max {
        let mut next = Vec::new();
        for t in &last {
            for c in alphabet {
                let mut longer = t.clone();
                longer.push(*c);
                next.push(longer);
            }
        }
        all.extend(next.iter().cloned());
        last = next;
    }
    all
}

fn file_name_of(p: &str) -> Option<String> {
    let c = chars(p);
    find_file_name(&c).map(|(s, e)| text(&c[s..e]))
}

fn parent_of(p: &str) -> Option<String> {
    let c = chars(p);
    find_parent(&c).map(|n| text(&c[..n]))
}

fn components_of(p: &str) -> Vec<String> {
    let c = chars(p);
    let mut all = Vec::new();
    let lead = find_body_start(&c);
    if lead == 1 {
        all.push(text(&c[..1]));
    }
    let mut from = lead;
    while let Some((s, e, next)) = next_component(&c, from) {
        all.push(text(&c[s..e]));
        from = next;
    }
    all
}

#[test]
fn file_names_of_some_paths() {
    assert_eq!(file_name_of("/usr/lib/libm.so"), Some("libm.so".to_string()));
    assert_eq!(file_name_of("/usr/lib/"), Some("lib".to_string()));
    assert_eq!(file_name_of("/usr/lib/."), Some("lib".to_string()));
    assert_eq!(file_name_of("/usr/lib//"), Some("lib".to_string()));
    assert_eq!(file_name_of("libm.so"), Some("libm.so".to_string()));
    assert_eq!(file_name_of("..."), Some("...".to_string()));
    assert_eq!(file_name_of(".a"), Some(".a".to_string()));
    assert_eq!(file_name_of("/usr/lib/.."), None);
    assert_eq!(file_name_of("/"), None);
    assert_eq!(file_name_of("."), None);
    assert_eq!(file_name_of(""), None);
}

#[test]
fn parents_of_some_paths() {
    assert_eq!(parent_of("/usr/lib/libm.so"), Some("/usr/lib".to_string()));
    assert_eq!(parent_of("/usr/lib//./libm.so/"), Some("/usr/lib".to_string()));
    assert_eq!(parent_of("/usr//lib/libm.so"), Some("/usr//lib".to_string()));
    assert_eq!(parent_of("/libm.so"), Some("/".to_string()));
    assert_eq!(parent_of("libm.so"), Some("".to_string()));
    assert_eq!(parent_of("./libm.so"), Some(".".to_string()));
    assert_eq!(parent_of("a/.."), Some("a".to_string()));
    assert_eq!(parent_of("."), Some("".to_string()));
    assert_eq!(parent_of("/"), None);
    assert_eq!(parent_of(""), None);
}

#[test]
fn file_names_and_parents_are_those_of_the_platform() {
    for p in all_texts(&['/', '.', 'a'], 7) {
        let path = Path::new(&p);
        let name = path.file_name().map(|n| n.to_str().unwrap().to_string());
        let parent = path.parent().map(|d| d.to_str().unwrap().to_string());
        assert_eq!(file_name_of(&p), name, "file name of {p:?}");
        assert_eq!(parent_of(&p), parent, "parent of {p:?}");
    }
}

#[test]
fn components_are_those_of_the_platform() {
    for p in all_texts(&['/', '.', 'a'], 7) {
        let expected: Vec<String> =
            Path::new(&p).components().map(|c| c.as_os_str().to_str().unwrap().to_string()).collect();
        assert_eq!(components_of(&p), expected, "components of {p:?}");
    }
}

#[test]
fn one_path_leads_to_another_as_on_the_platform() {
    let all = all_texts(&['/', '.', 'a'], 5);
    for p in &all {
        let pc = chars(p);
        for base in &all {
            let expected = Path::new(p).starts_with(Path::new(base));
            assert_eq!(path_starts_with(&pc, &chars(base)), expected, "{p:?} from {base:?}");
        }
    }
}

#[test]
fn whole_components_are_compared() {
    let leads = |p: &str, base: &str| path_starts_with(&chars(p), &chars(base));
    assert!(leads("/usr/lib", "/usr/lib/"));
    assert!(leads("/usr/lib/x", "/usr/lib"));
    assert!(leads("/usr//lib/./x", "/usr/lib/"));
    assert!(!leads("/usr/libx", "/usr/lib/"));
    assert!(!leads("/usr", "/usr/lib/"));
    assert!(!leads("usr/lib", "/usr/lib/"));
    assert!(!leads("/usr/lib", "usr/lib"));
    assert!(leads("/usr/lib", ""));
    assert!(leads("", ""));
    assert!(!leads("", "a"));
    assert!(!leads("/usr/../lib", "/usr/lib"));
    assert!(leads("/usr/../lib", "/usr/.."));
}

#[test]
fn the_steps_of_the_scan() {
    let c = chars("/a//b/./c/");
    assert_eq!(find_body_start(&c), 1);
    assert_eq!(find_body_start(&chars("./a")), 1);
    assert_eq!(find_body_start(&chars(".")), 1);
    assert_eq!(find_body_start(&chars(".a")), 0);
    assert_eq!(find_body_start(&chars("a")), 0);
    assert_eq!(find_body_start(&chars("")), 0);
    assert_eq!(trim_blank_end(&c, 1, c.len()), 9);
    assert_eq!(trim_blank_end(&c, 1, 7), 5);
    assert_eq!(trim_blank_end(&chars("/./."), 1, 4), 1);
    assert_eq!(find_last_segment_start(&c, 1, 9), 8);
    assert_eq!(find_last_segment_start(&c, 1, 5), 4);
    assert_eq!(find_last_segment_start(&c, 1, 2), 1);
    assert_eq!(find_segment_end(&c, 1), 2);
    assert_eq!(find_segment_end(&c, 3), 3);
    assert_eq!(find_segment_end(&c, 10), 10);
    assert_eq!(next_component(&c, 2), Some((4, 5, 6)));
    assert_eq!(next_component(&c, 6), Some((8, 9, 10)));
    assert_eq!(next_component(&c, 10), None);
    assert_eq!(next_component(&chars("a/b"), 2), Some((2, 3, 3)));
}

#[test]
fn a_file_name_is_split_at_its_first_inner_dot() {
    let stem = |name: &str| {
        let c = chars(name);
        let n = split_file_at_dot(&c);
        (text(&c[..n]), text(&c[n..]))
    };
    assert_eq!(stem("libfoo.so.1.2.3"), ("libfoo".to_string(), ".so.1.2.3".to_string()));
    assert_eq!(stem("libprotobufd.so.3.19.4.0"), ("libprotobufd".to_string(), ".so.3.19.4.0".to_string()));
    assert_eq!(stem("libfoo.a"), ("libfoo".to_string(), ".a".to_string()));
    assert_eq!(stem("libfoo"), ("libfoo".to_string(), "".to_string()));
    assert_eq!(stem(".hidden"), (".hidden".to_string(), "".to_string()));
    assert_eq!(stem(".hidden.so"), (".hidden".to_string(), ".so".to_string()));
    assert_eq!(stem("a."), ("a".to_string(), ".".to_string()));
    assert_eq!(stem("..a"), (".".to_string(), ".a".to_string()));
    // The name of the directory above is not split.
    assert_eq!(stem(".."), ("..".to_string(), "".to_string()));
    assert_eq!(stem("..."), (".".to_string(), "..".to_string()));
    assert_eq!(stem("."), (".".to_string(), "".to_string()));
    assert_eq!(stem("a"), ("a".to_string(), "".to_string()));
    assert_eq!(stem(""), ("".to_string(), "".to_string()));
}

#[test]
fn the_lib_prefix_is_three_characters() {
    assert_eq!(lib_prefix_len(&chars("libfoo")), 3);
    assert_eq!(lib_prefix_len(&chars("lib")), 3);
    assert_eq!(lib_prefix_len(&chars("liblib")), 3);
    assert_eq!(lib_prefix_len(&chars("li")), 0);
    assert_eq!(lib_prefix_len(&chars("foo")), 0);
    assert_eq!(lib_prefix_len(&chars("LIBfoo")), 0);
    assert_eq!(lib_prefix_len(&chars("")), 0);
}

#[test]
fn an_archive_is_told_by_the_beginning_of_its_extension() {
    assert!(is_archive_name(&chars("libfoo.a")));
    assert!(is_archive_name(&chars("libfoo.a.2")));
    assert!(is_archive_name(&chars("libfoo.alpha")));
    assert!(!is_archive_name(&chars("libfoo.so")));
    assert!(!is_archive_name(&chars("libfoo.so.a")));
    assert!(!is_archive_name(&chars("libfoo.")));
    assert!(!is_archive_name(&chars("libfoo")));
    assert!(!is_archive_name(&chars(".a")));
    assert!(!is_archive_name(&chars("..")));
    assert!(is_archive_name(&chars("..a")));
    assert!(!is_archive_name(&chars("")));
}

#[test]
fn characters_are_compared_one_by_one() {
    let a = chars("xabcx");
    let b = chars("abcd");
    assert!(same_chars(&a, 1, 4, &b, 0, 3));
    assert!(!same_chars(&a, 1, 4, &b, 1, 4));
    assert!(!same_chars(&a, 1, 4, &b, 0, 2));
    assert!(same_chars(&a, 2, 2, &b, 4, 4));
    assert!(has_prefix(&a, &chars("xab")));
    assert!(has_prefix(&a, &chars("")));
    assert!(!has_prefix(&a, &chars("ab")));
    assert!(!has_prefix(&a, &chars("xabcxx")));
    assert!(has_suffix(&a, &chars("bcx")));
    assert!(has_suffix(&a, &a));
    assert!(!has_suffix(&a, &chars("bc")));
    assert!(!has_suffix(&a, &chars("xxabcx")));
}

#[test]
fn a_string_gives_its_characters() {
    assert_eq!(chars_of("a/ü.日"), vec!['a', '/', 'ü', '.', '日']);
    assert_eq!(chars_of(""), Vec::<char>::new());
}

#[test]
fn text_is_appended_as_utf8() {
    let mut out = vec![1u8, 2];
    append_text(&mut out, "aü");
    assert_eq!(out, vec![1, 2, b'a', 0xc3, 0xbc]);
    append_text(&mut out, "");
    assert_eq!(out.len(), 5);
}

#[test]
fn tokens_are_found_one_after_the_other() {
    let c = chars(" ab\n\ncd e");
    assert_eq!(find_token_end(&c, 1), 3);
    assert_eq!(find_token_end(&c, 3), 3);
    assert_eq!(find_token_end(&c, 8), 9);
    assert_eq!(next_token(&c, 0), Some((1, 3, 4)));
    assert_eq!(next_token(&c, 4), Some((5, 7, 8)));
    assert_eq!(next_token(&c, 8), Some((8, 9, 9)));
    assert_eq!(next_token(&c, 9), None);
    assert_eq!(next_token(&chars(" \n "), 0), None);
    // Only the space and the line break part tokens.
    let c = chars("a\tb\rc");
    assert_eq!(next_token(&c, 0), Some((0, 5, 5)));
}

#[test]
fn tokens_are_those_of_a_split_at_spaces_and_line_breaks() {
    for s in all_texts(&[' ', '\n', 'a', '/'], 6) {
        let expected: Vec<&str> = s.split(&[' ', '\n'][..]).filter(|t| !t.is_empty()).collect();
        let c = chars(&s);
        let mut found = Vec::new();
        let mut from = 0;
        while let Some((b, e, next)) = next_token(&c, from) {
            found.push(text(&c[b..e]));
            from = next;
        }
        assert_eq!(found, expected, "tokens of {s:?}");
    }
}
