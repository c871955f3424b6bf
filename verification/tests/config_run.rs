use grepr::config::filter_paths;
use grepr::tree::find;
use grepr::{run, Config, Directory, Entry, File, GreprMatch, Node};

fn triples(found: &[GreprMatch]) -> Vec<(usize, String, String)> {
    found
        .iter()
        .map(|m| (m.line_number(), m.pathname().to_string(), m.line().to_string()))
        .collect()
}

fn hit(line: usize, path: &str, text: &str) -> (usize, String, String) {
    (line, String::from(path), String::from(text))
}

fn args(items: &[&str]) -> Vec<String> {
    items.iter().map(|s| s.to_string()).collect()
}

fn file(name: &str, text: &str) -> Entry {
    Entry { name: String::from(name), node: Node::File(Some(String::from(text))) }
}

fn dir(name: &str, entries: Vec<Entry>) -> Entry {
    Entry { name: String::from(name), node: Node::Directory(Some(entries)) }
}

fn probes() -> Vec<Entry> {
    vec![
        Entry { name: String::from("a.txt"), node: Node::File(None) },
        Entry { name: String::from("src"), node: Node::Directory(None) },
        Entry { name: String::from("b.txt"), node: Node::File(None) },
        Entry { name: String::from("dev"), node: Node::Other },
        Entry { name: String::from("docs"), node: Node::Directory(None) },
    ]
}

fn names_of_files(config: &Config) -> Vec<String> {
    config.files.iter().map(|f| f.pathname().to_string()).collect()
}

fn names_of_directories(config: &Config) -> Vec<String> {
    config.directories.iter().map(|d| d.pathname().to_string()).collect()
}

#[test]
fn build_sorts_paths_into_files_and_directories() {
    let config =
        Config::build(args(&["grepr", "needle", "src", "a.txt", "docs", "b.txt"]), &probes())
            .unwrap();
    assert_eq!(config.query, "needle");
    assert_eq!(names_of_files(&config), vec!["a.txt", "b.txt"]);
    assert_eq!(names_of_directories(&config), vec!["src", "docs"]);
    assert!(!config.recursive);
}

#[test]
fn build_takes_the_flag_anywhere_among_the_paths() {
    for line in [
        ["grepr", "q", "-r", "src", "a.txt"],
        ["grepr", "q", "src", "-r", "a.txt"],
        ["grepr", "q", "src", "a.txt", "-r"],
    ] {
        let config = Config::build(args(&line), &probes()).unwrap();
        assert!(config.recursive);
        assert_eq!(names_of_files(&config), vec!["a.txt"]);
        assert_eq!(names_of_directories(&config), vec!["src"]);
    }
}

#[test]
fn build_keeps_the_flag_out_of_the_paths_whatever_stands_there() {
    let mut found = probes();
    found.push(Entry { name: String::from("-r"), node: Node::File(None) });
    let config = Config::build(args(&["grepr", "q", "-r", "a.txt"]), &found).unwrap();
    assert!(config.recursive);
    assert_eq!(names_of_files(&config), vec!["a.txt"]);
    assert!(config.directories.is_empty());
}

#[test]
fn build_takes_the_query_as_it_is() {
    let config = Config::build(args(&["grepr", "-r", "a.txt"]), &probes()).unwrap();
    assert_eq!(config.query, "-r");
    assert!(!config.recursive);
    assert_eq!(names_of_files(&config), vec!["a.txt"]);
}

#[test]
fn build_passes_over_what_is_neither_file_nor_directory() {
    let config =
        Config::build(args(&["grepr", "q", "dev", "nowhere", "a.txt", "nowhere"]), &probes())
            .unwrap();
    assert_eq!(names_of_files(&config), vec!["a.txt"]);
    assert!(config.directories.is_empty());
}

#[test]
fn build_keeps_a_path_that_is_named_twice() {
    let config = Config::build(args(&["grepr", "q", "a.txt", "src", "a.txt"]), &probes()).unwrap();
    assert_eq!(names_of_files(&config), vec!["a.txt", "a.txt"]);
    assert_eq!(names_of_directories(&config), vec!["src"]);
}

#[test]
fn build_refuses_a_command_line_without_query() {
    assert_eq!(Config::build(args(&[]), &probes()).err(), Some("Not enough arguments supplied"));
    assert_eq!(
        Config::build(args(&["grepr"]), &probes()).err(),
        Some("Not enough arguments supplied")
    );
}

#[test]
fn build_refuses_an_empty_query() {
    assert_eq!(
        Config::build(args(&["grepr", "", "a.txt"]), &probes()).err(),
        Some("Not enough arguments supplied")
    );
    assert!(Config::build(args(&["grepr", " ", "a.txt"]), &probes()).is_ok());
}

#[test]
fn build_refuses_a_command_line_without_paths() {
    assert_eq!(
        Config::build(args(&["grepr", "q"]), &probes()).err(),
        Some("Not enough arguments supplied")
    );
}

#[test]
fn build_refuses_a_command_line_without_a_valid_path() {
    assert_eq!(
        Config::build(args(&["grepr", "q", "nowhere", "dev"]), &probes()).err(),
        Some("Not enough arguments supplied")
    );
    assert_eq!(
        Config::build(args(&["grepr", "q", "-r"]), &probes()).err(),
        Some("Not enough arguments supplied")
    );
    assert_eq!(
        Config::build(args(&["grepr", "q", "a.txt"]), &Vec::new()).err(),
        Some("Not enough arguments supplied")
    );
}

#[test]
fn filter_paths_adds_to_what_is_there() {
    let mut files = vec![File::new("first")];
    let mut directories = vec![Directory::new("one")];
    let mut recursive = false;
    let paths = args(&["docs", "b.txt", "dev", "a.txt"]);
    filter_paths(&mut files, &mut directories, &mut recursive, &paths, &probes());
    let files: Vec<&str> = files.iter().map(|f| f.pathname()).collect();
    let directories: Vec<&str> = directories.iter().map(|d| d.pathname()).collect();
    assert_eq!(files, vec!["first", "b.txt", "a.txt"]);
    assert_eq!(directories, vec!["one", "docs"]);
    assert!(!recursive);
}

#[test]
fn filter_paths_sets_the_flag_and_never_clears_it() {
    let mut files = Vec::new();
    let mut directories = Vec::new();
    let mut recursive = false;
    filter_paths(&mut files, &mut directories, &mut recursive, &args(&["a.txt", "-r"]), &probes());
    assert!(recursive);
    filter_paths(&mut files, &mut directories, &mut recursive, &args(&["src"]), &probes());
    assert!(recursive);
    assert_eq!(files.len(), 1);
    assert_eq!(directories.len(), 1);
}

#[test]
fn find_gives_the_first_entry_of_a_name() {
    let entries = vec![file("a", "one"), file("b", "two"), file("a", "three")];
    match find(&entries, "a") {
        Some(Node::File(Some(text))) => assert_eq!(text, "one"),
        _ => panic!("no file under a"),
    }
    match find(&entries, "b") {
        Some(Node::File(Some(text))) => assert_eq!(text, "two"),
        _ => panic!("no file under b"),
    }
    assert!(find(&entries, "c").is_none());
    assert!(find(&Vec::new(), "a").is_none());
}

fn roots() -> Vec<Entry> {
    vec![
        file("z.txt", "needle in z\nno\n"),
        file("a.txt", "no\nneedle in a\n"),
        dir(
            "src",
            vec![
                file("y.rs", "needle y"),
                file("b.rs", "needle b"),
                dir("deep", vec![file("c.rs", "x\nneedle c")]),
            ],
        ),
        dir("docs", vec![file("m.md", "needle m"), file("k.md", "needle k")]),
    ]
}

fn config(files: &[&str], directories: &[&str], recursive: bool) -> Config {
    Config {
        query: String::from("needle"),
        files: files.iter().map(|p| File::new(p)).collect(),
        directories: directories.iter().map(|p| Directory::new(p)).collect(),
        recursive,
    }
}

#[test]
fn run_gives_files_first_then_directories_each_in_order() {
    let found = run(config(&["z.txt", "a.txt"], &["src", "docs"], false), &roots());
    assert_eq!(
        triples(&found),
        vec![
            hit(1, "z.txt", "needle in z"),
            hit(2, "a.txt", "needle in a"),
            hit(1, "src/b.rs", "needle b"),
            hit(1, "src/y.rs", "needle y"),
            hit(1, "docs/k.md", "needle k"),
            hit(1, "docs/m.md", "needle m"),
        ]
    );
}

#[test]
fn run_goes_below_directories_only_with_the_flag() {
    let found = run(config(&[], &["src"], true), &roots());
    assert_eq!(
        triples(&found),
        vec![
            hit(1, "src/b.rs", "needle b"),
            hit(2, "src/deep/c.rs", "needle c"),
            hit(1, "src/y.rs", "needle y"),
        ]
    );
    let found = run(config(&[], &["src"], false), &roots());
    assert_eq!(
        triples(&found),
        vec![hit(1, "src/b.rs", "needle b"), hit(1, "src/y.rs", "needle y")]
    );
}

#[test]
fn run_passes_over_a_target_that_cannot_be_read() {
    let mut found_there = roots();
    found_there.push(Entry { name: String::from("locked"), node: Node::File(None) });
    found_there.push(Entry { name: String::from("closed"), node: Node::Directory(None) });
    let found = run(
        config(&["locked", "nowhere", "a.txt"], &["closed", "gone", "docs"], true),
        &found_there,
    );
    assert_eq!(
        triples(&found),
        vec![
            hit(2, "a.txt", "needle in a"),
            hit(1, "docs/k.md", "needle k"),
            hit(1, "docs/m.md", "needle m"),
        ]
    );
}

#[test]
fn run_does_not_search_a_target_as_the_other_kind() {
    let found = run(config(&["src"], &["a.txt"], true), &roots());
    assert!(found.is_empty());
}

#[test]
fn run_without_matches_is_empty() {
    let mut c = config(&["a.txt"], &["src"], true);
    c.query = String::from("absent");
    assert!(run(c, &roots()).is_empty());
}

#[test]
fn build_then_run_from_a_command_line() {
    let found_there = roots();
    let built =
        Config::build(args(&["grepr", "needle", "src", "-r", "a.txt", "nowhere"]), &found_there)
            .unwrap();
    let found = run(built, &found_there);
    let lines: Vec<String> = found.iter().map(|m| m.to_line()).collect();
    assert_eq!(
        lines,
        vec![
            "2:a.txt | needle in a",
            "1:src/b.rs | needle b",
            "2:src/deep/c.rs | needle c",
            "1:src/y.rs | needle y",
        ]
    );
}
