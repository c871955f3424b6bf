use grepr::target::join;
use grepr::{Directory, Entry, File, GreprMatch, Node, SearchTarget};

fn triples(found: &[GreprMatch]) -> Vec<(usize, String, String)> {
    found
        .iter()
        .map(|m| (m.line_number(), m.pathname().to_string(), m.line().to_string()))
        .collect()
}

fn hit(line: usize, path: &str, text: &str) -> (usize, String, String) {
    (line, String::from(path), String::from(text))
}

fn file(name: &str, text: &str) -> Entry {
    Entry { name: String::from(name), node: Node::File(Some(String::from(text))) }
}

fn dir(name: &str, entries: Vec<Entry>) -> Entry {
    Entry { name: String::from(name), node: Node::Directory(Some(entries)) }
}

fn listing(entries: Vec<Entry>) -> Node {
    Node::Directory(Some(entries))
}

#[test]
fn flat_search_returns_the_match_of_the_one_matching_file() {
    let node = listing(vec![
        file("a.txt", "nothing here\n"),
        file("b.txt", "x\nthe needle\n"),
        dir("sub", vec![file("c.txt", "needle below\n")]),
    ]);
    let found = Directory::new("dir").search("needle", false, &node).unwrap();
    assert_eq!(triples(&found), vec![hit(2, "dir/b.txt", "the needle")]);
}

#[test]
fn flat_search_does_not_depend_on_what_directories_hold() {
    let with = listing(vec![
        file("b.txt", "needle\n"),
        dir("sub", vec![file("c.txt", "needle\n"), dir("deep", vec![file("d", "needle")])]),
    ]);
    let without = listing(vec![
        file("b.txt", "needle\n"),
        Entry { name: String::from("sub"), node: Node::Directory(None) },
    ]);
    let d = Directory::new("dir");
    assert_eq!(
        triples(&d.search("needle", false, &with).unwrap()),
        triples(&d.search("needle", false, &without).unwrap())
    );
}

#[test]
fn recursion_reaches_a_file_in_a_subdirectory() {
    let node = listing(vec![dir("sub", vec![file("c.txt", "a\nb\nneedle below\n")])]);
    let d = Directory::new("top");
    let deep = d.search("needle", true, &node).unwrap();
    assert_eq!(triples(&deep), vec![hit(3, "top/sub/c.txt", "needle below")]);
    let flat = d.search("needle", false, &node).unwrap();
    assert!(flat.is_empty());
}

#[test]
fn recursion_goes_to_any_depth() {
    let node = listing(vec![dir(
        "a",
        vec![dir("b", vec![dir("c", vec![file("f", "needle")]), file("g", "needle")])],
    )]);
    let found = Directory::new("r").search("needle", true, &node).unwrap();
    assert_eq!(triples(&found), vec![hit(1, "r/a/b/c/f", "needle"), hit(1, "r/a/b/g", "needle")]);
}

#[test]
fn results_are_sorted_ascending_by_path() {
    let node = listing(vec![
        file("x.txt", "needle x1\nneedle x2\n"),
        file("a.txt", "needle a1\n"),
        file("m.txt", "no\nneedle m2\n"),
    ]);
    let found = Directory::new("dir").search("needle", false, &node).unwrap();
    assert_eq!(
        triples(&found),
        vec![
            hit(1, "dir/a.txt", "needle a1"),
            hit(2, "dir/m.txt", "needle m2"),
            hit(1, "dir/x.txt", "needle x1"),
            hit(2, "dir/x.txt", "needle x2"),
        ]
    );
}

#[test]
fn matches_of_one_file_keep_the_order_of_its_lines() {
    let text = "needle 1\nneedle 2\nx\nneedle 4\nneedle 5\nneedle 6\n";
    let node = listing(vec![file("z", text), file("b", "needle\n"), file("a", text)]);
    let found = Directory::new("d").search("needle", false, &node).unwrap();
    let numbers: Vec<(String, usize)> =
        found.iter().map(|m| (m.pathname().to_string(), m.line_number())).collect();
    let mut expected = Vec::new();
    for n in [1, 2, 4, 5, 6] {
        expected.push((String::from("d/a"), n));
    }
    expected.push((String::from("d/b"), 1));
    for n in [1, 2, 4, 5, 6] {
        expected.push((String::from("d/z"), n));
    }
    assert_eq!(numbers, expected);
}

#[test]
fn paths_are_sorted_as_strings_across_directories() {
    let node = listing(vec![
        file("b", "needle"),
        dir("a", vec![file("z", "needle"), file("c", "needle")]),
        file("a.txt", "needle"),
        file("B", "needle"),
    ]);
    let found = Directory::new("d").search("needle", true, &node).unwrap();
    let paths: Vec<String> = found.iter().map(|m| m.pathname().to_string()).collect();
    let mut expected = paths.clone();
    expected.sort();
    assert_eq!(paths, expected);
    assert_eq!(paths, vec!["d/B", "d/a.txt", "d/a/c", "d/a/z", "d/b"]);
}

#[test]
fn concrete_scenario_with_one_file_and_one_subdirectory() {
    let node = listing(vec![
        file("one.txt", "foo bar\nbaz"),
        dir("sub", vec![file("two.txt", "no match\nfoo again")]),
    ]);
    let d = Directory::new("d");
    let flat = d.search("foo", false, &node).unwrap();
    assert_eq!(triples(&flat), vec![hit(1, "d/one.txt", "foo bar")]);
    let deep = d.search("foo", true, &node).unwrap();
    assert_eq!(
        triples(&deep),
        vec![hit(1, "d/one.txt", "foo bar"), hit(2, "d/sub/two.txt", "foo again")]
    );
}

#[test]
fn an_unlistable_directory_is_none() {
    let d = Directory::new("d");
    assert!(d.search("foo", true, &Node::Directory(None)).is_none());
    assert!(d.search("foo", true, &Node::Other).is_none());
    assert!(d.search("foo", true, &Node::File(Some(String::from("foo")))).is_none());
    assert!(d.search("foo", true, &Node::File(None)).is_none());
}

#[test]
fn an_empty_directory_is_some_empty() {
    let found = Directory::new("d").search("foo", true, &listing(Vec::new()));
    assert_eq!(found.map(|v| v.len()), Some(0));
}

#[test]
fn a_directory_without_matches_is_some_empty() {
    let node = listing(vec![file("a", "x"), dir("s", vec![file("b", "y")])]);
    let found = Directory::new("d").search("foo", true, &node);
    assert_eq!(found.map(|v| v.len()), Some(0));
}

#[test]
fn what_cannot_be_read_is_passed_over() {
    let node = listing(vec![
        Entry { name: String::from("locked.txt"), node: Node::File(None) },
        Entry { name: String::from("socket"), node: Node::Other },
        Entry { name: String::from("closed"), node: Node::Directory(None) },
        file("ok.txt", "foo"),
        dir("open", vec![Entry { name: String::from("gone"), node: Node::File(None) }, file("in", "foo")]),
    ]);
    let found = Directory::new("d").search("foo", true, &node).unwrap();
    assert_eq!(triples(&found), vec![hit(1, "d/ok.txt", "foo"), hit(1, "d/open/in", "foo")]);
}

#[test]
fn child_paths_are_parent_slash_name() {
    assert_eq!(join("d", "one.txt"), "d/one.txt");
    assert_eq!(join("", "x"), "/x");
    assert_eq!(join("a/b", ""), "a/b/");
    assert_eq!(join("./a/../b", "c d"), "./a/../b/c d");
    assert_eq!(join("d/", "x"), "d//x");
}

#[test]
fn a_target_searches_as_its_kind_does() {
    let tree = listing(vec![file("a", "foo")]);
    let text = Node::File(Some(String::from("foo\nbar\nfoo")));
    let as_file = SearchTarget::File(File::new("t"));
    let as_dir = SearchTarget::Directory(Directory::new("t"));
    assert_eq!(as_file.pathname(), "t");
    assert_eq!(as_dir.pathname(), "t");
    assert_eq!(
        triples(&as_file.search("foo", false, &text).unwrap()),
        vec![hit(1, "t", "foo"), hit(3, "t", "foo")]
    );
    assert!(as_file.search("foo", false, &tree).is_none());
    assert_eq!(triples(&as_dir.search("foo", false, &tree).unwrap()), vec![hit(1, "t/a", "foo")]);
    assert!(as_dir.search("foo", false, &text).is_none());
}

#[test]
fn targets_describe_themselves() {
    assert_eq!(File::new("a/b.txt").describe(), "File: a/b.txt");
    assert_eq!(Directory::new("a/b").describe(), "Directory: a/b");
    assert_eq!(File::new("a/b.txt").pathname(), "a/b.txt");
    assert_eq!(Directory::new("a/b").pathname(), "a/b");
}
