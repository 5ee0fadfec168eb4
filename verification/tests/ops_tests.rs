use doctree::ops::CopyStep;
use doctree::ops::DuplicateError;
use doctree::ops::MoveError;
use doctree::ops::ScanError;
use doctree::ops::check_duplicate;
use doctree::ops::check_move;
use doctree::ops::check_scan_root;
use doctree::ops::choose_duplicate_name;
use doctree::ops::copy_plan;
use doctree::ops::decimal_string;
use doctree::ops::duplicate_error_message;
use doctree::ops::move_error_message;
use doctree::ops::scan_error_message;
use doctree::ops::duplicate_candidate;
use doctree::ops::move_destination;
use doctree::text::basename;
use doctree::text::join_path;
use doctree::text::lex_le_str;
use doctree::text::split_name;
use doctree::text::str_eq_ci;
use doctree::tree::RawEntry;

fn file(name: &str) -> RawEntry {
    RawEntry { name: name.to_string(), is_directory: false, children: vec![] }
}

fn dir(name: &str, children: Vec<RawEntry>) -> RawEntry {
    RawEntry { name: name.to_string(), is_directory: true, children }
}

#[test]
fn scan_root_checks() {
    assert_eq!(check_scan_root(false, false), Err(ScanError::NotFound));
    assert_eq!(check_scan_root(false, true), Err(ScanError::NotFound));
    assert_eq!(check_scan_root(true, false), Err(ScanError::NotADirectory));
    assert_eq!(check_scan_root(true, true), Ok(()));
}

#[test]
fn move_destination_joins_basename() {
    assert_eq!(move_destination("/a/x.md", "/b").as_deref(), Some("/b/x.md"));
    assert_eq!(move_destination("x.md", "/b").as_deref(), Some("/b/x.md"));
    assert_eq!(move_destination("/a/x.md", "/b/").as_deref(), Some("/b/x.md"));
    assert_eq!(move_destination("/a/", "/b"), None);
}

#[test]
fn move_checks_in_order() {
    assert_eq!(check_move(false, true, false), Err(MoveError::NotFound));
    assert_eq!(check_move(false, false, true), Err(MoveError::NotFound));
    assert_eq!(check_move(true, false, false), Err(MoveError::NotADirectory));
    assert_eq!(check_move(true, true, false), Ok(()));
}

#[test]
fn move_rejects_name_collision() {
    // The destination already holds an entry with the source's base name:
    // the move is refused before any filesystem change.
    assert_eq!(check_move(true, true, true), Err(MoveError::NameCollision));
}

#[test]
fn duplicate_checks() {
    assert_eq!(check_duplicate(false, true), Err(DuplicateError::NotFound));
    assert_eq!(check_duplicate(true, false), Err(DuplicateError::NotADirectory));
    assert_eq!(check_duplicate(true, true), Ok(()));
}

#[test]
fn duplicate_candidates_with_extension() {
    assert_eq!(duplicate_candidate("x.md", 0), "x.md");
    assert_eq!(duplicate_candidate("x.md", 1), "x copy.md");
    assert_eq!(duplicate_candidate("x.md", 2), "x copy 2.md");
    assert_eq!(duplicate_candidate("x.md", 5), "x copy 5.md");
    assert_eq!(duplicate_candidate("a.tar.gz", 1), "a.tar copy.gz");
}

#[test]
fn duplicate_candidates_without_extension() {
    assert_eq!(duplicate_candidate("notes", 1), "notes copy");
    assert_eq!(duplicate_candidate("notes", 3), "notes copy 3");
    assert_eq!(duplicate_candidate(".bashrc", 1), ".bashrc copy");
}

#[test]
fn duplicate_three_times_names_in_sequence() {
    let mut existing: Vec<String> = vec![];
    let first = choose_duplicate_name("x.md", &existing);
    assert_eq!(first, "x.md");
    existing.push(first);
    let second = choose_duplicate_name("x.md", &existing);
    assert_eq!(second, "x copy.md");
    existing.push(second);
    let third = choose_duplicate_name("x.md", &existing);
    assert_eq!(third, "x copy 2.md");
}

#[test]
fn duplicate_skips_taken_candidates_only() {
    let existing = vec!["x copy.md".to_string()];
    assert_eq!(choose_duplicate_name("x.md", &existing), "x.md");
    let existing = vec!["x.md".to_string(), "x copy.md".to_string(), "x copy 2.md".to_string()];
    assert_eq!(choose_duplicate_name("x.md", &existing), "x copy 3.md");
}

#[test]
fn error_messages_name_operation_and_path() {
    assert_eq!(scan_error_message(ScanError::NotFound, "/docs"), "Path does not exist: /docs");
    assert_eq!(
        scan_error_message(ScanError::NotADirectory, "/docs/a.md"),
        "Path is not a directory: /docs/a.md"
    );
    assert_eq!(
        move_error_message(MoveError::NotFound, "/a/x.md", "/b"),
        "Source does not exist: /a/x.md"
    );
    assert_eq!(
        move_error_message(MoveError::NotADirectory, "/a/x.md", "/b"),
        "Target is not a directory: /b"
    );
    assert_eq!(
        move_error_message(MoveError::NameCollision, "/a/x.md", "/b"),
        "An item with the name 'x.md' already exists in the target directory"
    );
    assert_eq!(move_error_message(MoveError::MoveFailed, "/a/x.md", "/b"), "Failed to move item");
    assert_eq!(
        duplicate_error_message(DuplicateError::NotFound, "/a/x.md", "/b"),
        "Source does not exist: /a/x.md"
    );
    assert_eq!(
        duplicate_error_message(DuplicateError::NotADirectory, "/a/x.md", "/b"),
        "Target is not a directory: /b"
    );
    assert_eq!(
        duplicate_error_message(DuplicateError::CopyFailed, "/a/x.md", "/b"),
        "Failed to copy"
    );
}

#[test]
fn decimal_rendering() {
    assert_eq!(decimal_string(0), "0");
    assert_eq!(decimal_string(7), "7");
    assert_eq!(decimal_string(42), "42");
    assert_eq!(decimal_string(1203), "1203");
}

#[test]
fn copy_plan_for_file_is_one_step() {
    let steps = copy_plan("/a/x.md", "/b/x copy.md", false, &vec![]);
    assert_eq!(steps.len(), 1);
    assert!(!steps[0].make_dir);
    assert_eq!(steps[0].source, "/a/x.md");
    assert_eq!(steps[0].dest, "/b/x copy.md");
}

#[test]
fn copy_plan_for_directory_is_top_down() {
    let children = vec![file("a.md"), dir("sub", vec![file("b.md")])];
    let steps = copy_plan("/s/d", "/t/d copy", true, &children);
    let got: Vec<(bool, &str, &str)> =
        steps.iter().map(|s: &CopyStep| (s.make_dir, s.source.as_str(), s.dest.as_str())).collect();
    assert_eq!(
        got,
        vec![
            (true, "/s/d", "/t/d copy"),
            (false, "/s/d/a.md", "/t/d copy/a.md"),
            (true, "/s/d/sub", "/t/d copy/sub"),
            (false, "/s/d/sub/b.md", "/t/d copy/sub/b.md"),
        ]
    );
}

#[test]
fn copy_plan_mirrors_relative_names() {
    let children = vec![dir("inner", vec![file("deep.md")]), file("top.md")];
    let steps = copy_plan("/from/root", "/to/root copy", true, &children);
    for s in steps.iter() {
        let rel = &s.source["/from/root".len()..];
        assert_eq!(s.dest, format!("/to/root copy{}", rel));
    }
}

#[test]
fn path_helpers() {
    assert_eq!(basename("/a/b/c.md"), "c.md");
    assert_eq!(basename("plain.md"), "plain.md");
    assert_eq!(basename("/a/b/"), "");
    assert_eq!(join_path("/a", "x"), "/a/x");
    assert_eq!(join_path("/a/", "x"), "/a/x");
    assert_eq!(join_path("", "x"), "/x");
}

#[test]
fn split_name_stem_and_extension() {
    let (stem, ext) = split_name("report.md");
    assert_eq!(stem, "report");
    assert_eq!(ext.as_deref(), Some("md"));
    let (stem, ext) = split_name("archive.tar.gz");
    assert_eq!(stem, "archive.tar");
    assert_eq!(ext.as_deref(), Some("gz"));
    let (stem, ext) = split_name("noext");
    assert_eq!(stem, "noext");
    assert_eq!(ext, None);
    let (stem, ext) = split_name(".bashrc");
    assert_eq!(stem, ".bashrc");
    assert_eq!(ext, None);
}

#[test]
fn case_insensitive_comparisons() {
    assert!(str_eq_ci("MD", "md"));
    assert!(str_eq_ci("MarkDown", "markdown"));
    assert!(!str_eq_ci("md", "mdx"));
    assert!(lex_le_str("Apple", "banana"));
    assert!(lex_le_str("apple", "APPLE"));
    assert!(!lex_le_str("banana", "Apple"));
    assert!(lex_le_str("abc", "abcd"));
}
