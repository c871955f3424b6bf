use std::collections::HashMap;

use grepr::target::join;
use grepr::walk::{EntryKind, Listed, Reply, Request};
use grepr::{run, Config, Directory, Entry, File, GreprMatch, Job, Node, SearchTarget, Walk};

fn triples(found: &[GreprMatch]) -> Vec<(usize, String, String)> {
    found
        .iter()
        .map(|m| (m.line_number(), m.pathname().to_string(), m.line().to_string()))
        .collect()
}

fn hit(line: usize, path: &str, text: &str) -> (usize, String, String) {
    (line, String::from(path), String::from(text))
}

fn file(name: &str, text: &str) -> Entry {
    Entry { name: String::from(name), node: Node::File(Some(String::from(text))) }
}

fn dir(name: &str, entries: Vec<Entry>) -> Entry {
    Entry { name: String::from(name), node: Node::Directory(Some(entries)) }
}

fn named(name: &str, node: Node) -> Entry {
    Entry { name: String::from(name), node }
}

enum Stored {
    Text(Option<String>),
    Names(Option<Vec<(String, EntryKind)>>),
    Thing,
}

fn kind_of(node: &Node) -> EntryKind {
    match node {
        Node::File(_) => EntryKind::File,
        Node::Directory(_) => EntryKind::Directory,
        Node::Other => EntryKind::Other,
    }
}

fn store(path: String, node: &Node, disk: &mut HashMap<String, Stored>) {
    match node {
        Node::File(text) => {
            disk.entry(path).or_insert(Stored::Text(text.clone()));
        }
        Node::Other => {
            disk.entry(path).or_insert(Stored::Thing);
        }
        Node::Directory(None) => {
            disk.entry(path).or_insert(Stored::Names(None));
        }
        Node::Directory(Some(entries)) => {
            let names = entries.iter().map(|e| (e.name.clone(), kind_of(&e.node))).collect();
            for entry in entries {
                store(join(&path, &entry.name), &entry.node, disk);
            }
            disk.entry(path).or_insert(Stored::Names(Some(names)));
        }
    }
}

fn disk_of(roots: &[Entry]) -> HashMap<String, Stored> {
    let mut disk = HashMap::new();
    for root in roots {
        store(root.name.clone(), &root.node, &mut disk);
    }
    disk
}

fn answer(disk: &HashMap<String, Stored>, request: &Request) -> Option<Reply> {
    match request {
        Request::ReadFile(path) => Some(Reply::Contents(match disk.get(path) {
            Some(Stored::Text(text)) => text.clone(),
            _ => None,
        })),
        Request::ListDirectory(path) => Some(Reply::Listing(match disk.get(path) {
            Some(Stored::Names(Some(names))) => Some(
                names.iter().map(|(name, kind)| Listed { name: name.clone(), kind: *kind }).collect(),
            ),
            _ => None,
        })),
        Request::Done => None,
    }
}

fn asked(request: &Request) -> String {
    match request {
        Request::ReadFile(path) => format!("read {}", path),
        Request::ListDirectory(path) => format!("list {}", path),
        Request::Done => String::from("done"),
    }
}

fn drive(mut walk: Walk, roots: &[Entry]) -> (Vec<GreprMatch>, Vec<String>) {
    let disk = disk_of(roots);
    let mut requests = Vec::new();
    loop {
        let request = walk.request();
        match answer(&disk, &request) {
            Some(reply) => {
                assert!(!walk.is_done());
                requests.push(asked(&request));
                walk.supply(reply);
            }
            None => break,
        }
    }
    assert!(walk.is_done());
    (walk.into_matches(), requests)
}

fn config(query: &str, files: &[&str], directories: &[&str], recursive: bool) -> Config {
    Config {
        query: String::from(query),
        files: files.iter().map(|p| File::new(p)).collect(),
        directories: directories.iter().map(|p| Directory::new(p)).collect(),
        recursive,
    }
}

fn roots() -> Vec<Entry> {
    vec![
        file("z.txt", "needle in z\nno\n"),
        file("a.txt", "no\nneedle in a\n"),
        dir(
            "src",
            vec![
                file("y.rs", "needle y"),
                named("socket", Node::Other),
                dir("deep", vec![file("c.rs", "x\nneedle c"), dir("er", vec![file("d", "needle d")])]),
                named("locked.rs", Node::File(None)),
                file("b.rs", "needle b\nneedle b2"),
                named("closed", Node::Directory(None)),
                dir("empty", Vec::new()),
            ],
        ),
        dir("docs", vec![file("m.md", "needle m"), file("k.md", "needle k")]),
        named("locked", Node::File(None)),
        named("closed", Node::Directory(None)),
        named("dev", Node::Other),
    ]
}

#[test]
fn a_walk_asks_for_each_read_in_turn() {
    let (found, requests) =
        drive(Walk::start(config("needle", &["a.txt"], &["docs"], false)), &roots());
    assert_eq!(requests, vec!["read a.txt", "list docs", "read docs/m.md", "read docs/k.md"]);
    assert_eq!(
        triples(&found),
        vec![
            hit(2, "a.txt", "needle in a"),
            hit(1, "docs/k.md", "needle k"),
            hit(1, "docs/m.md", "needle m"),
        ]
    );
}

#[test]
fn a_walk_without_recursion_reads_nothing_below_a_subdirectory() {
    let (found, requests) = drive(Walk::start(config("needle", &[], &["src"], false)), &roots());
    assert_eq!(
        requests,
        vec!["list src", "read src/y.rs", "read src/locked.rs", "read src/b.rs"]
    );
    assert_eq!(
        triples(&found),
        vec![
            hit(1, "src/b.rs", "needle b"),
            hit(2, "src/b.rs", "needle b2"),
            hit(1, "src/y.rs", "needle y"),
        ]
    );
}

#[test]
fn a_walk_with_recursion_goes_below_in_the_order_of_the_listing() {
    let (found, requests) = drive(Walk::start(config("needle", &[], &["src"], true)), &roots());
    assert_eq!(
        requests,
        vec![
            "list src",
            "read src/y.rs",
            "list src/deep",
            "read src/deep/c.rs",
            "list src/deep/er",
            "read src/deep/er/d",
            "read src/locked.rs",
            "read src/b.rs",
            "list src/closed",
            "list src/empty",
        ]
    );
    assert_eq!(
        triples(&found),
        vec![
            hit(1, "src/b.rs", "needle b"),
            hit(2, "src/b.rs", "needle b2"),
            hit(2, "src/deep/c.rs", "needle c"),
            hit(1, "src/deep/er/d", "needle d"),
            hit(1, "src/y.rs", "needle y"),
        ]
    );
}

#[test]
fn a_walk_finds_what_a_run_finds() {
    let found_there = roots();
    let files: [&[&str]; 4] = [&[], &["z.txt", "a.txt"], &["locked", "nowhere", "a.txt", "a.txt"], &["src"]];
    let directories: [&[&str]; 4] =
        [&[], &["src", "docs"], &["closed", "docs", "gone", "src", "docs"], &["a.txt", "dev"]];
    for query in ["needle", "absent", "", "b"] {
        for f in files {
            for d in directories {
                for recursive in [false, true] {
                    let (walked, _) = drive(Walk::start(config(query, f, d, recursive)), &found_there);
                    let ran = run(config(query, f, d, recursive), &found_there);
                    assert_eq!(triples(&walked), triples(&ran));
                }
            }
        }
    }
}

#[test]
fn a_walk_over_nothing_is_done_at_once() {
    let mut walk = Walk::start(config("needle", &[], &[], true));
    assert!(walk.is_done());
    assert!(matches!(walk.request(), Request::Done));
    walk.supply(Reply::Contents(Some(String::from("needle"))));
    assert!(walk.is_done());
    assert!(walk.into_matches().is_empty());
}

#[test]
fn a_walk_takes_a_reply_of_the_wrong_kind_as_a_failed_read() {
    let mut walk = Walk::start(config("needle", &["a"], &["d"], true));
    assert!(matches!(walk.request(), Request::ReadFile(path) if path == "a"));
    walk.supply(Reply::Listing(Some(vec![Listed { name: String::from("x"), kind: EntryKind::File }])));
    assert!(matches!(walk.request(), Request::ListDirectory(path) if path == "d"));
    walk.supply(Reply::Contents(Some(String::from("needle"))));
    assert!(walk.is_done());
    assert!(walk.into_matches().is_empty());
}

#[test]
fn a_walk_holds_no_matches_before_its_end() {
    let mut walk = Walk::start(config("needle", &["a", "b"], &[], false));
    walk.supply(Reply::Contents(Some(String::from("needle 1"))));
    assert!(!walk.is_done());
    assert!(matches!(walk.request(), Request::ReadFile(path) if path == "b"));
    walk.supply(Reply::Contents(None));
    assert!(walk.is_done());
    assert_eq!(triples(&walk.into_matches()), vec![hit(1, "a", "needle 1")]);
}

#[test]
fn a_walk_passes_over_entries_that_are_neither_file_nor_directory() {
    let mut walk = Walk::start(config("needle", &[], &["d"], true));
    walk.supply(Reply::Listing(Some(vec![
        Listed { name: String::from("pipe"), kind: EntryKind::Other },
        Listed { name: String::from("f"), kind: EntryKind::File },
        Listed { name: String::from("sock"), kind: EntryKind::Other },
    ])));
    assert!(matches!(walk.request(), Request::ReadFile(path) if path == "d/f"));
    walk.supply(Reply::Contents(Some(String::from("a needle"))));
    assert!(walk.is_done());
    assert_eq!(triples(&walk.into_matches()), vec![hit(1, "d/f", "a needle")]);
}

#[test]
fn a_walk_sorts_each_directory_and_not_across_targets() {
    let found_there = vec![
        dir("z", vec![file("b", "needle"), file("a", "needle")]),
        dir("y", vec![file("d", "needle"), file("c", "needle")]),
        file("x", "needle"),
    ];
    let (found, _) = drive(Walk::start(config("needle", &["x"], &["z", "y"], false)), &found_there);
    let paths: Vec<&str> = found.iter().map(|m| m.pathname()).collect();
    assert_eq!(paths, vec!["x", "z/a", "z/b", "y/c", "y/d"]);
}

#[test]
fn the_walk_of_a_job_finds_what_the_job_adds() {
    let found_there = roots();
    let jobs = [
        Job::new(SearchTarget::File(File::new("a.txt")), "needle", false),
        Job::new(SearchTarget::File(File::new("src")), "needle", true),
        Job::new(SearchTarget::Directory(Directory::new("src")), "needle", true),
        Job::new(SearchTarget::Directory(Directory::new("src")), "needle", false),
        Job::new(SearchTarget::Directory(Directory::new("closed")), "needle", true),
        Job::new(SearchTarget::File(File::new("nowhere")), "needle", true),
    ];
    for job in jobs {
        let (walked, _) = drive(job.walk(), &found_there);
        let mut ran = Vec::new();
        job.run(&found_there, &mut ran);
        assert_eq!(triples(&walked), triples(&ran));
        assert_eq!(job.query(), "needle");
    }
}
