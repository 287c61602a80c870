use treefind::path::join_path;
use treefind::report::{decimal_of, report, summary_of};
use treefind::rule::{classify, MatchRule, SearchKind};
use treefind::tree::{enters, kind_of, walk, wanted, EntryKind, Node};
use treefind::walker::{Entry, Step, Walker, DEFAULT_MAX_DEPTH};

fn file(name: &str) -> Node {
    Node { name: name.to_string(), kind: EntryKind::File, children: vec![] }
}

fn other(name: &str) -> Node {
    Node { name: name.to_string(), kind: EntryKind::Other, children: vec![] }
}

fn dir(name: &str, children: Vec<Node>) -> Node {
    Node { name: name.to_string(), kind: EntryKind::Directory, children }
}

fn project() -> Node {
    dir("./", vec![dir("src", vec![file("main.rs"), file("lib.rs")]), file("README.md")])
}

fn listing(node: &Node) -> Vec<Entry> {
    let mut entries = vec![];
    for child in &node.children {
        entries.push(Entry { name: child.name.clone(), kind: child.kind });
    }
    entries
}

fn lookup<'a>(path: &str, at: &str, node: &'a Node) -> Option<&'a Node> {
    if at == path && enters(node.kind) {
        return Some(node);
    }
    for child in &node.children {
        if let Some(hit) = lookup(path, &join_path(at, &child.name), child) {
            return Some(hit);
        }
    }
    None
}

/// Drives a walker over a tree, and counts the listings it asks for.
fn drive(max_depth: u32, root: &Node, rule: MatchRule, kind: SearchKind) -> (Vec<String>, usize) {
    let mut walker = Walker::new(max_depth, &root.name, rule, kind);
    let mut asked = 0;
    loop {
        let at = lookup(walker.awaits(), &root.name, root).unwrap();
        assert!(enters(at.kind));
        asked += 1;
        match walker.listed(listing(at)) {
            Step::Read(next) => walker = next,
            Step::Done(found) => return (found, asked),
        }
    }
}

fn both(max_depth: u32, root: &Node, pattern: &str, kind: SearchKind) -> Vec<String> {
    let rule = classify(pattern, kind).unwrap();
    let found = walk(max_depth, root, &rule, kind).unwrap();
    let (stepwise, _) = drive(max_depth, root, rule, kind);
    assert_eq!(found, stepwise);
    found
}

#[test]
fn default_depth() {
    assert_eq!(DEFAULT_MAX_DEPTH, 5);
    let mut tree = dir("d", vec![file("deepest.txt")]);
    for _ in 0..5 {
        tree = dir("d", vec![tree]);
    }
    let root = dir(".", vec![tree]);
    assert_eq!(
        both(DEFAULT_MAX_DEPTH + 1, &root, "deepest", SearchKind::File),
        vec!["./d/d/d/d/d/d/deepest.txt"]
    );
    assert!(both(DEFAULT_MAX_DEPTH, &root, "deepest", SearchKind::File).is_empty());
    assert_eq!(
        both(DEFAULT_MAX_DEPTH, &root, "d", SearchKind::Directory),
        vec!["./d", "./d/d", "./d/d/d", "./d/d/d/d", "./d/d/d/d/d", "./d/d/d/d/d/d"]
    );
}

#[test]
fn joins_paths() {
    assert_eq!(join_path("./", "src"), "./src");
    assert_eq!(join_path("./src", "main.rs"), "./src/main.rs");
    assert_eq!(join_path("", "x"), "x");
    assert_eq!(join_path("/", "etc"), "/etc");
    assert_eq!(join_path("a/b", "c"), "a/b/c");
    assert_eq!(join_path("a/b/", "c"), "a/b/c");
    assert_eq!(join_path("日本", "語"), "日本/語");
    assert_eq!(join_path(".", ""), "./");
}

#[test]
fn kinds() {
    assert!(wanted(EntryKind::File, SearchKind::File));
    assert!(!wanted(EntryKind::Directory, SearchKind::File));
    assert!(!wanted(EntryKind::Other, SearchKind::File));
    assert!(wanted(EntryKind::Directory, SearchKind::Directory));
    assert!(!wanted(EntryKind::File, SearchKind::Directory));
    assert!(!wanted(EntryKind::Other, SearchKind::Directory));
    assert!(!wanted(EntryKind::Unnamed, SearchKind::File));
    assert!(!wanted(EntryKind::Unnamed, SearchKind::Directory));
    assert!(enters(EntryKind::Directory));
    assert!(enters(EntryKind::Unnamed));
    assert!(!enters(EntryKind::File));
    assert!(!enters(EntryKind::Other));
}

#[test]
fn kinds_of_entries() {
    assert_eq!(kind_of(true, true, false), EntryKind::File);
    assert_eq!(kind_of(true, false, true), EntryKind::Directory);
    assert_eq!(kind_of(true, false, false), EntryKind::Other);
    assert_eq!(kind_of(false, true, false), EntryKind::Other);
    assert_eq!(kind_of(false, false, true), EntryKind::Unnamed);
    assert_eq!(kind_of(false, false, false), EntryKind::Other);
    assert_eq!(kind_of(true, true, true), EntryKind::File);
    assert_eq!(kind_of(false, true, true), EntryKind::Other);
}

#[test]
fn unnamed_directory_is_entered_and_matches_nothing() {
    let odd = Node {
        name: "odd\u{fffd}".to_string(),
        kind: EntryKind::Unnamed,
        children: vec![file("inside.txt"), dir("inner", vec![file("deep.txt")])],
    };
    let root = dir(".", vec![odd, file("outside.txt")]);
    assert_eq!(
        both(5, &root, "*", SearchKind::File),
        vec!["./odd\u{fffd}/inside.txt", "./odd\u{fffd}/inner/deep.txt", "./outside.txt"]
    );
    assert_eq!(both(5, &root, "*", SearchKind::Directory), vec!["./odd\u{fffd}/inner"]);
    assert_eq!(both(0, &root, "*", SearchKind::File), vec!["./outside.txt"]);
    assert!(both(0, &root, "*", SearchKind::Directory).is_empty());
    let lone = Node { name: "x".to_string(), kind: EntryKind::Unnamed, children: vec![file("a")] };
    assert_eq!(both(1, &lone, "a", SearchKind::File), vec!["x/a"]);
}

#[test]
fn finds_rust_sources() {
    let root = project();
    for depth in [1, 2, 5, u32::MAX] {
        let found = both(depth, &root, "*.rs", SearchKind::File);
        assert_eq!(found, vec!["./src/main.rs", "./src/lib.rs"]);
        assert_eq!(
            report(&found, SearchKind::File),
            vec!["./src/main.rs", "./src/lib.rs", "", "2 files were found."]
        );
    }
}

#[test]
fn finds_by_stem() {
    let root = project();
    let found = both(1, &root, "README", SearchKind::File);
    assert_eq!(found, vec!["./README.md"]);
    assert_eq!(report(&found, SearchKind::File), vec!["./README.md", "", "1 file was found."]);
}

#[test]
fn finds_nothing() {
    let root = project();
    let found = both(5, &root, "missing", SearchKind::File);
    assert!(found.is_empty());
    assert_eq!(report(&found, SearchKind::File), vec!["Not found"]);
    assert_eq!(report(&found, SearchKind::Directory), vec!["Not found"]);
}

#[test]
fn depth_zero_stays_in_the_root() {
    let root = dir(
        "./",
        vec![file("a.rs"), dir("src", vec![file("b.rs"), dir("deep", vec![file("c.rs")])]), file("d.rs")],
    );
    assert_eq!(both(0, &root, "*.rs", SearchKind::File), vec!["./a.rs", "./d.rs"]);
    assert_eq!(both(1, &root, "*.rs", SearchKind::File), vec!["./a.rs", "./src/b.rs", "./d.rs"]);
    assert_eq!(
        both(2, &root, "*.rs", SearchKind::File),
        vec!["./a.rs", "./src/b.rs", "./src/deep/c.rs", "./d.rs"]
    );
    assert_eq!(both(0, &root, "*", SearchKind::Directory), vec!["./src"]);
    assert_eq!(both(1, &root, "*", SearchKind::Directory), vec!["./src", "./src/deep"]);
    let rule = classify("*.rs", SearchKind::File).unwrap();
    assert_eq!(drive(0, &root, rule, SearchKind::File).1, 1);
    let rule = classify("*.rs", SearchKind::File).unwrap();
    assert_eq!(drive(1, &root, rule, SearchKind::File).1, 2);
    let rule = classify("*.rs", SearchKind::File).unwrap();
    assert_eq!(drive(7, &root, rule, SearchKind::File).1, 3);
}

#[test]
fn subtree_comes_before_later_sibling() {
    let root = dir("R", vec![dir("a", vec![file("x")]), file("b")]);
    assert_eq!(both(1, &root, "*", SearchKind::File), vec!["R/a/x", "R/b"]);
    let root = dir("R", vec![file("b"), dir("a", vec![file("x")])]);
    assert_eq!(both(1, &root, "*", SearchKind::File), vec!["R/b", "R/a/x"]);
}

#[test]
fn listing_order_is_kept() {
    let root = dir("/", vec![file("z.txt"), file("a.txt"), file("m.txt")]);
    assert_eq!(both(3, &root, "*.txt", SearchKind::File), vec!["/z.txt", "/a.txt", "/m.txt"]);
}

#[test]
fn same_search_twice_gives_the_same() {
    let root = project();
    let rule = classify("*", SearchKind::File).unwrap();
    let first = walk(3, &root, &rule, SearchKind::File).unwrap();
    let second = walk(3, &root, &rule, SearchKind::File).unwrap();
    assert_eq!(first, second);
    assert_eq!(first, vec!["./src/main.rs", "./src/lib.rs", "./README.md"]);
    let (third, _) = drive(3, &root, rule, SearchKind::File);
    let rule = classify("*", SearchKind::File).unwrap();
    let (fourth, _) = drive(3, &root, rule, SearchKind::File);
    assert_eq!(third, fourth);
    assert_eq!(first, third);
}

#[test]
fn matched_directory_is_searched_too() {
    let root = dir("./", vec![dir("target", vec![dir("target", vec![]), file("target.txt")])]);
    for depth in [1, 2, 9] {
        let found = both(depth, &root, "target", SearchKind::Directory);
        assert_eq!(found, vec!["./target", "./target/target"]);
        assert_eq!(
            report(&found, SearchKind::Directory),
            vec!["./target", "./target/target", "", "2 directories were found."]
        );
    }
    let found = both(0, &root, "target", SearchKind::Directory);
    assert_eq!(found, vec!["./target"]);
    assert_eq!(
        report(&found, SearchKind::Directory),
        vec!["./target", "", "1 directory was found."]
    );
    assert_eq!(both(5, &root, "target", SearchKind::File), vec!["./target/target.txt"]);
}

#[test]
fn file_search_passes_directories_and_other_entries() {
    let root = dir(
        "top",
        vec![other("notes"), dir("notes", vec![file("notes.txt"), other("notes.txt")]), file("notes")],
    );
    assert_eq!(both(4, &root, "notes", SearchKind::File), vec!["top/notes/notes.txt", "top/notes"]);
    assert_eq!(both(4, &root, "notes", SearchKind::Directory), vec!["top/notes"]);
}

#[test]
fn root_that_is_no_directory() {
    let rule = classify("*", SearchKind::File).unwrap();
    let error = walk(3, &file("lonely.txt"), &rule, SearchKind::File).unwrap_err();
    assert_eq!(error.path, "lonely.txt");
    let error = walk(3, &other("odd"), &rule, SearchKind::Directory).unwrap_err();
    assert_eq!(error.path, "odd");
}

#[test]
fn unreadable_directory_ends_the_search() {
    let rule = classify("*", SearchKind::File).unwrap();
    let walker = Walker::new(2, "./", rule, SearchKind::File);
    assert_eq!(walker.awaits(), "./");
    let entries = vec![
        Entry { name: "a".to_string(), kind: EntryKind::File },
        Entry { name: "locked".to_string(), kind: EntryKind::Directory },
    ];
    match walker.listed(entries) {
        Step::Read(next) => {
            assert_eq!(next.awaits(), "./locked");
            assert_eq!(next.unreadable().path, "./locked");
        }
        Step::Done(_) => panic!("the directory was not entered"),
    }
    let rule = classify("*", SearchKind::File).unwrap();
    assert_eq!(Walker::new(2, "nowhere", rule, SearchKind::File).unreadable().path, "nowhere");
}

#[test]
fn empty_root() {
    let root = dir(".", vec![]);
    assert!(both(5, &root, "*", SearchKind::File).is_empty());
    assert!(both(5, &root, "*", SearchKind::Directory).is_empty());
}

#[test]
fn deep_tree_is_walked_step_by_step() {
    let mut tree = dir("d", vec![file("leaf.txt")]);
    for _ in 0..2000 {
        tree = dir("d", vec![tree, file("leaf.txt")]);
    }
    let rule = classify("leaf", SearchKind::File).unwrap();
    let mut walker = Walker::new(u32::MAX, "r", rule, SearchKind::File);
    let mut at = &tree;
    let found = loop {
        match walker.listed(listing(at)) {
            Step::Read(next) => {
                at = &at.children[0];
                walker = next;
            }
            Step::Done(found) => break found,
        }
    };
    assert_eq!(found.len(), 2001);
    assert_eq!(found[0].len(), 1 + 2 * 2000 + "/leaf.txt".len());
    assert_eq!(found[2000], "r/leaf.txt");
}

#[test]
fn decimals() {
    assert_eq!(decimal_of(0), "0");
    assert_eq!(decimal_of(7), "7");
    assert_eq!(decimal_of(10), "10");
    assert_eq!(decimal_of(12345), "12345");
    assert_eq!(decimal_of(9_876_543_210), "9876543210");
    assert_eq!(decimal_of(usize::MAX), usize::MAX.to_string());
}

#[test]
fn summaries() {
    assert_eq!(summary_of(1, SearchKind::File), "1 file was found.");
    assert_eq!(summary_of(2, SearchKind::File), "2 files were found.");
    assert_eq!(summary_of(0, SearchKind::File), "0 files were found.");
    assert_eq!(summary_of(1, SearchKind::Directory), "1 directory was found.");
    assert_eq!(summary_of(11, SearchKind::Directory), "11 directories were found.");
}
