use doctree::tree::RawEntry;
use doctree::tree::TreeNode;
use doctree::tree::default_allowed_extensions;
use doctree::tree::has_allowed_extension;
use doctree::tree::scan_entries;

fn file(name: &str) -> RawEntry {
    RawEntry { name: name.to_string(), is_directory: false, children: vec![] }
}

fn dir(name: &str, children: Vec<RawEntry>) -> RawEntry {
    RawEntry { name: name.to_string(), is_directory: true, children }
}

fn markdown_only() -> Vec<String> {
    vec!["md".to_string(), "markdown".to_string()]
}

fn names(out: &[TreeNode]) -> Vec<&str> {
    out.iter().map(|n| n.name.as_str()).collect()
}

#[test]
fn scan_docs_scenario() {
    let raws = vec![
        file("a.md"),
        dir(".hidden", vec![file("x.md")]),
        dir("Notes", vec![]),
        file("b.txt"),
    ];
    let allowed = markdown_only();
    let out = scan_entries("/docs", &raws, &allowed);
    assert_eq!(out.len(), 2);
    assert_eq!(out[0].name, "Notes");
    assert_eq!(out[0].path, "/docs/Notes");
    assert!(out[0].is_directory);
    assert_eq!(out[0].children.as_ref().unwrap().len(), 0);
    assert_eq!(out[1].name, "a.md");
    assert_eq!(out[1].path, "/docs/a.md");
    assert!(!out[1].is_directory);
    assert!(out[1].children.is_none());
}

#[test]
fn scan_excludes_hidden_everywhere() {
    let raws = vec![
        file(".secret.md"),
        dir(".git", vec![file("config.md")]),
        dir("ok", vec![file(".inner.md"), file("seen.md")]),
    ];
    let allowed = markdown_only();
    let out = scan_entries("/r", &raws, &allowed);
    assert_eq!(names(&out), vec!["ok"]);
    let kids = out[0].children.as_ref().unwrap();
    assert_eq!(kids.len(), 1);
    assert_eq!(kids[0].name, "seen.md");
    assert_eq!(kids[0].path, "/r/ok/seen.md");
}

#[test]
fn scan_orders_directories_first_then_case_insensitive() {
    let raws = vec![
        file("b.md"),
        dir("zeta", vec![]),
        file("A.md"),
        dir("Alpha", vec![]),
        file("C.MD"),
    ];
    let allowed = markdown_only();
    let out = scan_entries("/r", &raws, &allowed);
    assert_eq!(names(&out), vec!["Alpha", "zeta", "A.md", "b.md", "C.MD"]);
    assert!(out[0].is_directory && out[1].is_directory);
    assert!(!out[2].is_directory && !out[3].is_directory && !out[4].is_directory);
}

#[test]
fn scan_filters_extensions() {
    let raws = vec![
        file("keep.md"),
        file("keep.MARKDOWN"),
        file("drop.txt"),
        file("noextension"),
        file("md"),
        file("trailingdot."),
    ];
    let allowed = markdown_only();
    let out = scan_entries("/r", &raws, &allowed);
    assert_eq!(names(&out), vec!["keep.MARKDOWN", "keep.md"]);
}

#[test]
fn scan_keeps_empty_directories() {
    let raws = vec![dir("empty", vec![])];
    let allowed = markdown_only();
    let out = scan_entries("/r", &raws, &allowed);
    assert_eq!(out.len(), 1);
    assert!(out[0].is_directory);
    assert_eq!(out[0].children.as_ref().unwrap().len(), 0);
}

#[test]
fn scan_recurses_and_sorts_each_level() {
    let raws = vec![dir(
        "top",
        vec![file("z.md"), dir("Sub", vec![file("deep.md")]), file("a.md")],
    )];
    let allowed = markdown_only();
    let out = scan_entries("/r", &raws, &allowed);
    let kids = out[0].children.as_ref().unwrap();
    assert_eq!(names(kids), vec!["Sub", "a.md", "z.md"]);
    let deep = kids[0].children.as_ref().unwrap();
    assert_eq!(deep[0].path, "/r/top/Sub/deep.md");
}

#[test]
fn scan_keeps_listing_order_between_equal_names() {
    // "a.md" and "A.md" compare equal case-insensitively; the sort is
    // stable, so they stay in listing order.
    let raws = vec![file("B.md"), file("a.md"), file("A.md")];
    let allowed = markdown_only();
    let out = scan_entries("/r", &raws, &allowed);
    assert_eq!(names(&out), vec!["a.md", "A.md", "B.md"]);
}

#[test]
fn default_set_accepts_markdown_and_images() {
    assert!(has_allowed_extension("note.md"));
    assert!(has_allowed_extension("note.MD"));
    assert!(has_allowed_extension("note.markdown"));
    assert!(has_allowed_extension("pic.png"));
    assert!(has_allowed_extension("pic.JPG"));
    assert!(has_allowed_extension("pic.jpeg"));
    assert!(has_allowed_extension("pic.gif"));
    assert!(has_allowed_extension("pic.svg"));
    assert!(has_allowed_extension("pic.webp"));
}

#[test]
fn default_set_rejects_others() {
    assert!(!has_allowed_extension("note.txt"));
    assert!(!has_allowed_extension("noextension"));
    assert!(!has_allowed_extension("md"));
    assert!(!has_allowed_extension("trailing."));
    assert!(!has_allowed_extension(".md"));
}

#[test]
fn default_allowed_extensions_lists_all_eight() {
    let v = default_allowed_extensions();
    assert_eq!(v.len(), 8);
    assert_eq!(v[0], "md");
    assert_eq!(v[1], "markdown");
    assert_eq!(v[7], "webp");
}

#[test]
fn scan_with_image_set_keeps_assets() {
    let raws = vec![file("shot.PNG"), file("doc.md"), file("movie.mp4")];
    let allowed: Vec<String> = default_allowed_extensions();
    let out = scan_entries("/r", &raws, &allowed);
    assert_eq!(names(&out), vec!["doc.md", "shot.PNG"]);
}
