use agent_gear::error::AgentGearError;
use agent_gear::paths::{parent_path, relative_path, resolve_path};
use agent_gear::search::{SearchOptions, Searcher};
use agent_gear::text::{
    chars_of, count_occurrences, line_window, lines_in, looks_binary, plan_edit, replace_all,
    readable_line_window, split_lines,
};

#[test]
fn test_edit_replace() {
    // Replace
    let result = plan_edit("Hello, World!", "World", "Rust", true).unwrap();
    assert!(result.is_some());

    // Verify
    assert_eq!(result.unwrap(), "Hello, Rust!");
}

#[test]
fn test_edit_replace_not_found() {
    // Should fail in strict mode
    let result = plan_edit("Hello, World!", "NotFound", "Replacement", true);
    assert!(result.is_err());
    assert!(matches!(result, Err(AgentGearError::TextNotFound)));

    // Should return false in non-strict mode
    let result = plan_edit("Hello, World!", "NotFound", "Replacement", false).unwrap();
    assert!(result.is_none());
}

#[test]
fn test_edit_replace_not_unique() {
    // Should fail in strict mode
    let result = plan_edit("Hello Hello Hello", "Hello", "Hi", true);
    assert!(result.is_err());
    assert!(matches!(result, Err(AgentGearError::TextNotUnique(3))));

    // Should succeed in non-strict mode (replaces all)
    let result = plan_edit("Hello Hello Hello", "Hello", "Hi", false).unwrap();
    assert!(result.is_some());

    assert_eq!(result.unwrap(), "Hi Hi Hi");
}

#[test]
fn strict_edit_replaces_the_single_occurrence() {
    let text = "a=1\nb=2\n";
    let out = plan_edit(text, "b=2", "b=3", true).unwrap().unwrap();
    assert_eq!(out, "a=1\nb=3\n");
    assert_eq!(count_occurrences(text, "b=2"), 1);
    assert_eq!(out, text.replace("b=2", "b=3"));
}

#[test]
fn counting_matches_std() {
    for (t, p) in [("aaaa", "aa"), ("abcabc", "abc"), ("", "x"), ("xyz", ""), ("", ""), ("héllo hé", "hé")] {
        assert_eq!(count_occurrences(t, p), t.matches(p).count(), "{:?} {:?}", t, p);
    }
}

#[test]
fn replacing_matches_std() {
    for (t, p, w) in [("aaaa", "aa", "b"), ("abc", "", "X"), ("", "", "X"), ("héllo", "é", "e"), ("ab", "abc", "z")] {
        assert_eq!(replace_all(t, p, w), t.replace(p, w), "{:?} {:?} {:?}", t, p, w);
    }
    assert_eq!(replace_all("abc", "", "X"), "XaXbXcX");
}

#[test]
fn empty_old_text_is_not_unique_in_strict_mode() {
    assert!(matches!(plan_edit("ab", "", "x", true), Err(AgentGearError::TextNotUnique(3))));
    assert_eq!(plan_edit("", "", "x", true).unwrap(), Some("x".to_string()));
}

#[test]
fn lines_split_like_std() {
    for t in ["", "\n", "a", "a\n", "a\r\nb", "a\n\nb\n", "x\r", "x\r\ny\r\n", "\r\n\r\n"] {
        let expect: Vec<String> = t.lines().map(|s| s.to_string()).collect();
        assert_eq!(split_lines(t), expect, "{:?}", t);
    }
}

#[test]
fn line_windows() {
    let text = "l0\nl1\nl2\nl3\n";
    assert_eq!(lines_in(text, 1, Some(2)), vec!["l1", "l2"]);
    assert_eq!(lines_in(text, 2, None), vec!["l2", "l3"]);
    assert_eq!(lines_in(text, 9, None), Vec::<String>::new());
    assert_eq!(lines_in(text, 3, Some(10)), vec!["l3"]);
    let lines = vec!["a".to_string(), "b".to_string()];
    assert_eq!(line_window(&lines, 0, Some(0)), Vec::<String>::new());
}

#[test]
fn binary_sniff_looks_at_first_bytes_only() {
    assert!(!looks_binary(b""));
    assert!(!looks_binary(b"text"));
    assert!(looks_binary(&[b'a', 0, b'b']));
    let mut late = vec![b'a'; 600];
    late[550] = 0;
    assert!(!looks_binary(&late));
    late[511] = 0;
    assert!(looks_binary(&late));
}

#[test]
fn chars_round_trip() {
    assert_eq!(chars_of("héllo"), vec!['h', 'é', 'l', 'l', 'o']);
}

#[test]
fn relative_paths() {
    assert_eq!(relative_path("/r", "/r/src/a.rs"), "src/a.rs");
    assert_eq!(relative_path("/r/", "/r/src/a.rs"), "src/a.rs");
    assert_eq!(relative_path("/r", "/r"), "");
    assert_eq!(relative_path("/r", "/rx/a"), "/rx/a");
    assert_eq!(relative_path("/r", "/other/a"), "/other/a");
    assert_eq!(relative_path("", "a/b"), "a/b");
}

#[test]
fn resolved_paths() {
    assert_eq!(resolve_path("/r", "a/b.txt"), "/r/a/b.txt");
    assert_eq!(resolve_path("/r/", "a"), "/r/a");
    assert_eq!(resolve_path("/r", "/abs/x"), "/abs/x");
    assert_eq!(resolve_path("", "a"), "a");
}

#[test]
fn parent_paths() {
    assert_eq!(parent_path("/a/b"), Some("/a".to_string()));
    assert_eq!(parent_path("/a"), Some("/".to_string()));
    assert_eq!(parent_path("/"), None);
    assert_eq!(parent_path(""), None);
    assert_eq!(parent_path("a"), Some("".to_string()));
    assert_eq!(parent_path("a/b/c"), Some("a/b".to_string()));
}

#[test]
fn glob_and_regex_decide_through_a_search() {
    let searcher = Searcher::new("/r".to_string());
    let files = vec![
        ("/r/src/main.rs".to_string(), "say HELLO
helo
".to_string()),
        ("/r/README.md".to_string(), "hello
".to_string()),
    ];
    let folded = searcher.grep_texts("hel+o", "**/*.rs", &SearchOptions::new(false, 10, 100, 0), &files).unwrap();
    assert_eq!(folded.len(), 2);
    assert_eq!(folded[0].content, "say HELLO");
    let exact = searcher.grep_texts("hel+o", "**/*.rs", &SearchOptions::new(true, 10, 100, 0), &files).unwrap();
    assert_eq!(exact.len(), 1);
    assert_eq!(exact[0].content, "helo");
    assert_eq!(exact[0].file, "src/main.rs");
}

#[test]
fn unreadable_lines_count_for_the_start_then_drop() {
    let lines = vec![Some("a".to_string()), None, Some("c".to_string()), None, Some("e".to_string())];
    assert_eq!(readable_line_window(&lines, 1, None), vec!["c", "e"]);
    assert_eq!(readable_line_window(&lines, 2, Some(1)), vec!["c"]);
    assert_eq!(readable_line_window(&lines, 0, Some(2)), vec!["a", "c"]);
    assert_eq!(readable_line_window(&lines, 9, None), Vec::<String>::new());
}
