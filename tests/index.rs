use agent_gear::error::AgentGearError;
use agent_gear::index::{stat_target, FileIndex, WalkEntry};
use agent_gear::store::FileMetadata;
use agent_gear::text::looks_binary;
use agent_gear::watcher::{ChangeKind, Debouncer, FileChange, RawEventKind};

const ROOT: &str = "/tmp/agent_gear_tree";

fn dir(path: &str) -> WalkEntry {
    WalkEntry {
        path: path.to_string(),
        metadata: FileMetadata { size: 4096, mtime_ns: 1, is_dir: true, is_binary: false },
    }
}

fn file(path: &str, content: &[u8]) -> WalkEntry {
    WalkEntry {
        path: path.to_string(),
        metadata: FileMetadata {
            size: content.len() as u64,
            mtime_ns: 1,
            is_dir: false,
            is_binary: !content.is_empty() && looks_binary(content),
        },
    }
}

fn abs(rel: &str) -> String {
    format!("{}/{}", ROOT, rel)
}

/// The walk of a tree with `src/main.rs`, `src/lib.rs`, `tests/test.rs` and `README.md`.
fn create_test_files() -> Vec<WalkEntry> {
    vec![
        dir(ROOT),
        dir(&abs("src")),
        dir(&abs("tests")),
        file(&abs("src/main.rs"), b"fn main() {}"),
        file(&abs("src/lib.rs"), b"pub fn lib() {}"),
        file(&abs("tests/test.rs"), b"#[test] fn test() {}"),
        file(&abs("README.md"), b"# Test"),
    ]
}

fn built() -> FileIndex {
    let mut index = FileIndex::new(ROOT.to_string());
    index.build(create_test_files()).unwrap();
    index
}

#[test]
fn test_index_build() {
    let index = built();

    assert!(index.is_ready());
    assert!(index.len() > 0);
}

#[test]
fn test_list_all() {
    let mut index = built();

    let files = index.list("**/*", true).unwrap();
    assert_eq!(files.len(), 4); // 4 files
}

#[test]
fn test_glob_pattern() {
    let mut index = built();

    let rs_files = index.glob("**/*.rs").unwrap();
    assert_eq!(rs_files.len(), 3); // main.rs, lib.rs, test.rs

    let src_files = index.glob("src/*").unwrap();
    assert_eq!(src_files.len(), 2); // main.rs, lib.rs
}

#[test]
fn test_metadata() {
    let index = built();

    let main_rs = abs("src/main.rs");
    let metadata = index.get_metadata(&main_rs).unwrap();

    assert!(!metadata.is_dir);
    assert!(!metadata.is_binary);
    assert!(metadata.size > 0);
}

#[test]
fn listing_returns_exactly_the_four_files() {
    let mut index = built();
    let mut files = index.list("**/*", true).unwrap();
    files.sort();
    assert_eq!(files, vec!["README.md", "src/lib.rs", "src/main.rs", "tests/test.rs"]);
    let mut rs = index.glob("**/*.rs").unwrap();
    rs.sort();
    assert_eq!(rs, vec!["src/lib.rs", "src/main.rs", "tests/test.rs"]);
    let mut src = index.glob("src/*").unwrap();
    src.sort();
    assert_eq!(src, vec!["src/lib.rs", "src/main.rs"]);
}

#[test]
fn build_records_every_walked_path_but_the_root_once() {
    let mut walk = create_test_files();
    walk.push(file(&abs("src/main.rs"), b"again"));
    let mut index = FileIndex::new(ROOT.to_string());
    index.build(walk).unwrap();
    // Two directories and four files; the root and the repeated path are not added again.
    assert_eq!(index.len(), 6);
    assert!(index.get_metadata(ROOT).is_none());
    assert_eq!(index.get_metadata(&abs("src/main.rs")).unwrap().size, 12);
    let mut all = index.list("**", false).unwrap();
    all.sort();
    assert_eq!(all, vec!["README.md", "src", "src/lib.rs", "src/main.rs", "tests", "tests/test.rs"]);
    assert_eq!(index.list("**/*", true).unwrap().len(), 4);
}

#[test]
fn any_listing_is_within_the_listing_of_everything() {
    let mut index = built();
    let everything = index.list("**/*", true).unwrap();
    for pattern in ["*.md", "src/*", "**/*.rs", "tests/**", "nothing"] {
        for p in index.list(pattern, true).unwrap() {
            assert!(everything.contains(&p));
        }
    }
}

#[test]
fn list_with_directories_and_glob() {
    let mut index = built();
    let mut v = index.list("src*", false).unwrap();
    v.sort();
    assert_eq!(v, vec!["src", "src/lib.rs", "src/main.rs"]);
}

#[test]
fn adding_a_path_twice_lists_it_once() {
    let mut index = built();
    let p = abs("new.txt");
    let m = FileMetadata { size: 4, mtime_ns: 2, is_dir: false, is_binary: false };
    index.add_path(p.clone(), m);
    index.add_path(p.clone(), m);
    let files = index.list("**/*", true).unwrap();
    assert_eq!(files.iter().filter(|f| f.as_str() == "new.txt").count(), 1);
    assert_eq!(files.len(), 5);
}

#[test]
fn remove_path_forgets_a_file() {
    let mut index = built();
    index.remove_path(&abs("src/lib.rs"));
    assert!(index.get_metadata(&abs("src/lib.rs")).is_none());
    assert_eq!(index.glob("src/*").unwrap(), vec!["src/main.rs"]);
    assert_eq!(index.len(), 5);
}

#[test]
fn update_to_directory_takes_path_out_of_file_list() {
    let mut index = built();
    let m = FileMetadata { size: 0, mtime_ns: 3, is_dir: true, is_binary: false };
    index.update_path(abs("README.md"), m);
    assert_eq!(index.list("**/*", true).unwrap().len(), 3);
    assert!(index.get_metadata(&abs("README.md")).unwrap().is_dir);
}

#[test]
fn queries_fail_until_built_and_while_rebuilding() {
    let mut index = FileIndex::new(ROOT.to_string());
    assert!(matches!(index.list("**/*", true), Err(AgentGearError::IndexNotReady)));
    index.build(create_test_files()).unwrap();
    assert!(index.begin_refresh());
    assert!(!index.is_ready());
    assert!(index.is_building());
    assert!(!index.begin_build());
    assert!(matches!(index.glob("**/*.rs"), Err(AgentGearError::IndexNotReady)));
    index.finish_build(create_test_files());
    assert!(index.is_ready());
    assert_eq!(index.glob("**/*.rs").unwrap().len(), 3);
}

#[test]
fn refresh_rebuilds_from_the_new_walk() {
    let mut index = built();
    index.refresh(vec![dir(ROOT), file(&abs("only.txt"), b"x")]).unwrap();
    assert!(index.is_ready());
    assert_eq!(index.list("**/*", true).unwrap(), vec!["only.txt"]);
}

#[test]
fn rejected_glob_is_reported() {
    let mut index = built();
    assert!(matches!(index.glob("a[b"), Err(AgentGearError::Glob(_))));
}

#[test]
fn glob_paths_skip_binary_files() {
    let mut walk = create_test_files();
    walk.push(file(&abs("image.bin"), &[1, 0, 2]));
    let mut index = FileIndex::new(ROOT.to_string());
    index.build(walk).unwrap();
    let with = index.glob_paths_with_options("**/*", false).unwrap();
    assert_eq!(with.len(), 5);
    assert!(with.contains(&abs("image.bin")));
    let without = index.glob_paths("**/*").unwrap();
    assert_eq!(without.len(), 4);
    assert!(!without.contains(&abs("image.bin")));
    let rs = index.glob_paths("**/*.rs").unwrap();
    assert_eq!(rs.len(), 3);
    assert!(rs.iter().all(|p| p.starts_with(ROOT) && p.ends_with(".rs")));
}

#[test]
fn many_distinct_globs_stay_correct() {
    let mut index = built();
    for i in 0..300 {
        let pattern = format!("src/*{}", i);
        assert!(index.glob(&pattern).unwrap().is_empty());
    }
    assert_eq!(index.glob("src/*").unwrap().len(), 2);
}

#[test]
fn watched_creation_reaches_the_index() {
    // An empty tree, then a file appears and the watcher reports it.
    let mut index = FileIndex::new(ROOT.to_string());
    index.build(vec![dir(ROOT)]).unwrap();
    let mut d = Debouncer::new(50);
    d.add_raw_event_at(RawEventKind::CreateFile, &vec![abs("new_file.txt")], 0);
    let changes = d.flush_at(200_000_000);
    assert_eq!(changes.len(), 1);
    let stat = FileMetadata { size: 4, mtime_ns: 9, is_dir: false, is_binary: false };
    for c in &changes {
        index.apply_change(c, Some(stat));
    }
    assert_eq!(index.list("**/*", true).unwrap(), vec!["new_file.txt"]);
}

#[test]
fn rename_change_moves_the_entry() {
    let mut index = built();
    let change = FileChange {
        path: abs("README.md"),
        kind: ChangeKind::Renamed { from: abs("README.md"), to: abs("docs.md") },
        timestamp: 0,
    };
    let stat = FileMetadata { size: 6, mtime_ns: 9, is_dir: false, is_binary: false };
    index.apply_change(&change, Some(stat));
    assert!(index.get_metadata(&abs("README.md")).is_none());
    assert_eq!(index.get_metadata(&abs("docs.md")), Some(stat));
    let deleted = FileChange { path: abs("docs.md"), kind: ChangeKind::Deleted, timestamp: 1 };
    index.apply_change(&deleted, None);
    assert_eq!(index.list("**/*", true).unwrap().len(), 3);
}

#[test]
fn creation_of_a_vanished_path_changes_nothing() {
    let mut index = built();
    let change = FileChange { path: abs("gone.txt"), kind: ChangeKind::Created, timestamp: 0 };
    index.apply_change(&change, None);
    assert_eq!(index.len(), 6);
}

#[test]
fn large_index_queries_keep_order() {
    let mut walk = vec![dir(ROOT)];
    for i in 0..700 {
        let ext = if i % 2 == 0 { "txt" } else { "rs" };
        let content: &[u8] = if i % 7 == 0 { &[0, 1] } else { b"text" };
        walk.push(file(&abs(&format!("f{:04}.{}", i, ext)), content));
    }
    let mut index = FileIndex::new(ROOT.to_string());
    index.build(walk).unwrap();
    let all = index.list("**/*", true).unwrap();
    assert_eq!(all.len(), 700);
    assert_eq!(all[0], "f0000.txt");
    assert_eq!(all[699], "f0699.rs");
    let rs = index.glob("*.rs").unwrap();
    assert_eq!(rs.len(), 350);
    let mut sorted = rs.clone();
    sorted.sort();
    assert_eq!(rs, sorted);
    let text = index.glob_paths("**/*").unwrap();
    assert_eq!(text.len(), 700 - 100);
    let rs_text = index.glob_paths_with_options("*.rs", true).unwrap();
    assert_eq!(rs_text.len(), 350 - 50);
    assert!(rs_text.iter().all(|p| p.ends_with(".rs")));
}

#[test]
fn metadata_is_looked_up_where_the_change_leaves_a_path() {
    let created = FileChange { path: abs("a"), kind: ChangeKind::Created, timestamp: 0 };
    assert_eq!(stat_target(&created), Some(abs("a")));
    let modified = FileChange { path: abs("a"), kind: ChangeKind::Modified, timestamp: 0 };
    assert_eq!(stat_target(&modified), Some(abs("a")));
    let deleted = FileChange { path: abs("a"), kind: ChangeKind::Deleted, timestamp: 0 };
    assert_eq!(stat_target(&deleted), None);
    let renamed = FileChange {
        path: abs("a"),
        kind: ChangeKind::Renamed { from: abs("a"), to: abs("b") },
        timestamp: 0,
    };
    assert_eq!(stat_target(&renamed), Some(abs("b")));
}

#[test]
fn glob_nested_too_deeply_is_refused_before_compiling() {
    let mut index = built();
    let deep = format!("{}a{}", "{".repeat(100_000), "}".repeat(100_000));
    assert!(matches!(index.glob(&deep), Err(AgentGearError::Pattern(_))));
    assert!(matches!(index.glob_paths(&deep), Err(AgentGearError::Pattern(_))));
    assert_eq!(index.glob("src/*").unwrap().len(), 2);
}

#[test]
fn long_shallow_glob_is_compiled() {
    let mut index = built();
    let long = format!("{}*", "x".repeat(5_000));
    assert_eq!(index.glob(&long).unwrap().len(), 0);
}

#[test]
fn braces_in_classes_do_not_nest() {
    let mut index = built();
    let braces = format!("{}*", "[{]".repeat(1100));
    assert!(index.glob(&braces).is_ok());
}

#[test]
fn escaped_braces_do_not_nest() {
    let mut index = built();
    let escaped = format!("{}*", "\\{".repeat(1100));
    assert!(index.glob(&escaped).is_ok());
}

#[test]
fn deeply_nested_alternates_are_an_error_not_a_panic() {
    let mut index = built();
    let deep = format!("{}b{}", "{a,".repeat(300), "}".repeat(300));
    assert!(matches!(index.glob(&deep), Err(AgentGearError::Glob(_))));
}
