use agent_gear::error::AgentGearError;
use agent_gear::search::{SearchOptions, Searcher};

const ROOT: &str = "/tmp/agent_gear_search";

/// The tree: `src/main.rs`, `src/lib.rs` and `README.md`, with their contents.
fn create_test_files() -> Vec<(String, String)> {
    vec![
        (
            format!("{}/src/main.rs", ROOT),
            "fn main() {\n    println!(\"Hello, World!\");\n}\n".to_string(),
        ),
        (
            format!("{}/src/lib.rs", ROOT),
            "pub fn hello() {\n    println!(\"Hello from lib!\");\n}\n\npub fn goodbye() {\n    println!(\"Goodbye!\");\n}\n"
                .to_string(),
        ),
        (format!("{}/README.md", ROOT), "# Hello Project\n\nThis is a test.".to_string()),
    ]
}

#[test]
fn test_search_basic() {
    let searcher = Searcher::new(ROOT.to_string());
    let options = SearchOptions::default();

    let results = searcher.grep_texts("Hello", "**/*", &options, &create_test_files()).unwrap();
    assert!(!results.is_empty());
}

#[test]
fn test_search_glob_filter() {
    let searcher = Searcher::new(ROOT.to_string());
    let options = SearchOptions::default();

    // Only search .rs files
    let results = searcher.grep_texts("println", "**/*.rs", &options, &create_test_files()).unwrap();
    assert!(results.len() >= 2);

    // Verify all results are from .rs files
    for result in &results {
        assert!(result.file.ends_with(".rs"));
    }
}

/// The same tree with every "hello" written "Hello".
fn create_capitalized_files() -> Vec<(String, String)> {
    create_test_files().into_iter().map(|(p, c)| (p, c.replace("hello", "Hello"))).collect()
}

#[test]
fn test_search_case_insensitive() {
    let searcher = Searcher::new(ROOT.to_string());
    let files = create_capitalized_files();

    // Case insensitive (default)
    let options = SearchOptions { case_sensitive: false, ..Default::default() };
    let results = searcher.grep_texts("hello", "**/*", &options, &files).unwrap();
    assert!(!results.is_empty());

    // Case sensitive
    let options = SearchOptions { case_sensitive: true, ..Default::default() };
    let results = searcher.grep_texts("hello", "**/*", &options, &files).unwrap();
    // "hello" (lowercase) should not match "Hello"
    let hello_count = results.iter().filter(|r| r.content.contains("hello")).count();
    assert_eq!(hello_count, 0);
}

#[test]
fn test_search_max_results() {
    let searcher = Searcher::new(ROOT.to_string());
    let options = SearchOptions { max_results: 1, ..Default::default() };

    let results = searcher.grep_texts("println", "**/*", &options, &create_test_files()).unwrap();
    assert_eq!(results.len(), 1);
}

#[test]
fn grep_reports_file_line_and_content() {
    let searcher = Searcher::new(ROOT.to_string());
    let options = SearchOptions::default();
    let results = searcher.grep_texts("println", "**/*.rs", &options, &create_test_files()).unwrap();
    assert_eq!(results.len(), 3);
    assert_eq!(results[0].file, "src/main.rs");
    assert_eq!(results[0].line_number, 2);
    assert_eq!(results[0].content, "    println!(\"Hello, World!\");");
    assert_eq!(results[1].file, "src/lib.rs");
    assert_eq!(results[1].line_number, 2);
    assert_eq!(results[2].line_number, 6);
    assert!(results[0].context_before.is_empty());
    assert!(results[0].context_after.is_empty());
}

#[test]
fn grep_with_max_results_two_stops_at_two() {
    let searcher = Searcher::new(ROOT.to_string());
    for k in 0..5usize {
        let options = SearchOptions::new(false, k, 10485760, 0);
        let results = searcher.grep_texts("println", "**/*", &options, &create_test_files()).unwrap();
        assert_eq!(results.len(), k.min(3));
        assert!(results.iter().all(|r| r.content.contains("println")));
    }
}

#[test]
fn grep_context_lines_clip_at_file_edges() {
    let searcher = Searcher::new(ROOT.to_string());
    let options = SearchOptions::new(true, 10, 10485760, 2);
    let results = searcher.grep_texts("World", "**/*", &options, &create_test_files()).unwrap();
    assert_eq!(results.len(), 1);
    assert_eq!(results[0].context_before, vec!["fn main() {"]);
    assert_eq!(results[0].context_after, vec!["}"]);
}

#[test]
fn grep_reports_rejected_patterns() {
    let searcher = Searcher::new(ROOT.to_string());
    let options = SearchOptions::default();
    assert!(matches!(
        searcher.grep_texts("(", "**/*", &options, &create_test_files()),
        Err(AgentGearError::Regex(_))
    ));
    assert!(matches!(
        searcher.grep_texts("x", "a[b", &options, &create_test_files()),
        Err(AgentGearError::Glob(_))
    ));
}

#[test]
fn search_run_scans_only_files_that_match_the_glob() {
    let searcher = Searcher::new(ROOT.to_string());
    let options = SearchOptions::default();
    let mut run = searcher.start("Hello", "**/*.md", &options).unwrap();
    assert!(!run.is_done());
    run.scan(&format!("{}/src/main.rs", ROOT), "Hello\n");
    run.scan(&format!("{}/README.md", ROOT), "# Hello Project\r\n");
    let results = run.finish();
    assert_eq!(results.len(), 1);
    assert_eq!(results[0].file, "README.md");
    assert_eq!(results[0].content, "# Hello Project");
}

#[test]
fn walk_filter_checks_size_and_glob() {
    let searcher = Searcher::new(ROOT.to_string());
    let run = searcher.start("x", "**/*.rs", &SearchOptions::default()).unwrap();
    let p = format!("{}/src/main.rs", ROOT);
    assert!(run.wants_file(&p, 10, 100));
    assert!(!run.wants_file(&p, 101, 100));
    assert!(!run.wants_file(&format!("{}/README.md", ROOT), 10, 100));
}

#[test]
fn default_options() {
    let o = SearchOptions::default();
    assert!(!o.case_sensitive);
    assert_eq!(o.max_results, 1000);
    assert_eq!(o.max_file_size, 10 * 1024 * 1024);
    assert_eq!(o.context_lines, 0);
}

#[test]
fn case_sensitive_search_finds_the_lowercase_word_where_it_is() {
    let searcher = Searcher::new(ROOT.to_string());
    let options = SearchOptions { case_sensitive: true, ..Default::default() };
    let results = searcher.grep_texts("hello", "**/*", &options, &create_test_files()).unwrap();
    assert_eq!(results.len(), 1);
    assert_eq!(results[0].content, "pub fn hello() {");
}

#[test]
fn search_with_unusable_glob_reports_it() {
    let searcher = Searcher::new(ROOT.to_string());
    let options = SearchOptions::default();
    let too_deep = format!("{}a{}", "{".repeat(100_000), "}".repeat(100_000));
    assert!(matches!(
        searcher.grep_texts("x", &too_deep, &options, &create_test_files()),
        Err(AgentGearError::Pattern(_))
    ));
    let deep = format!("{}b{}", "{a,".repeat(300), "}".repeat(300));
    assert!(matches!(
        searcher.grep_texts("x", &deep, &options, &create_test_files()),
        Err(AgentGearError::Glob(_))
    ));
}

#[test]
fn results_are_the_hits_file_by_file_cut_at_the_bound() {
    let searcher = Searcher::new(ROOT.to_string());
    let options = SearchOptions::new(false, 2, 10485760, 0);
    let results = searcher.grep_texts("println", "**/*", &options, &create_test_files()).unwrap();
    let got: Vec<(String, u32)> = results.iter().map(|r| (r.file.clone(), r.line_number)).collect();
    assert_eq!(got, vec![("src/main.rs".to_string(), 2), ("src/lib.rs".to_string(), 2)]);
}
