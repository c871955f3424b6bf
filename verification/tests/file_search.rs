use grepr::hits::search_text;
use grepr::text::{chars_of, range_contains, str_eq};
use grepr::{Entry, File, GreprMatch, Node};

fn triples(found: &[GreprMatch]) -> Vec<(usize, String, String)> {
    found
        .iter()
        .map(|m| (m.line_number(), m.pathname().to_string(), m.line().to_string()))
        .collect()
}

fn hit(line: usize, path: &str, text: &str) -> (usize, String, String) {
    (line, String::from(path), String::from(text))
}

fn text_node(text: &str) -> Node {
    Node::File(Some(String::from(text)))
}

#[test]
fn file_search_numbers_matching_lines_from_one() {
    let file = File::new("notes.txt");
    let node = text_node("alpha\nbeta foo\ngamma\nfoo delta\n");
    let found = file.search("foo", false, &node).unwrap();
    assert_eq!(
        triples(&found),
        vec![hit(2, "notes.txt", "beta foo"), hit(4, "notes.txt", "foo delta")]
    );
}

#[test]
fn file_search_gives_one_match_per_matching_line_and_no_other() {
    let lines = ["foo", "bar", "a foo b", "", "fo o", "foofoo", "FOO"];
    let text = lines.join("\n");
    let found = File::new("f").search("foo", false, &text_node(&text)).unwrap();
    let mut expected = Vec::new();
    for (index, line) in lines.iter().enumerate() {
        if line.contains("foo") {
            expected.push(hit(index + 1, "f", line));
        }
    }
    assert_eq!(triples(&found), expected);
    assert_eq!(found.len(), 3);
}

#[test]
fn file_search_ignores_the_recursion_flag() {
    let node = text_node("x foo\ny\n");
    let file = File::new("f");
    assert_eq!(
        triples(&file.search("foo", true, &node).unwrap()),
        triples(&file.search("foo", false, &node).unwrap())
    );
}

#[test]
fn file_search_on_empty_file_is_some_empty() {
    let file = File::new("empty.txt");
    let found = file.search("foo", false, &text_node(""));
    assert_eq!(found.map(|v| v.len()), Some(0));
}

#[test]
fn file_search_without_a_match_is_some_empty() {
    let found = File::new("f").search("foo", false, &text_node("bar\nbaz\n"));
    assert_eq!(found.map(|v| v.len()), Some(0));
}

#[test]
fn file_search_on_missing_path_is_none() {
    let file = File::new("missing.txt");
    assert!(file.search("foo", false, &Node::File(None)).is_none());
    assert!(file.search("foo", false, &Node::Other).is_none());
    let listing: Vec<Entry> = Vec::new();
    assert!(file.search("foo", false, &Node::Directory(Some(listing))).is_none());
    assert!(file.search("foo", false, &Node::Directory(None)).is_none());
}

#[test]
fn search_is_case_sensitive() {
    let found = search_text("f", "Foo\nfoo\nFOO\n", "foo");
    assert_eq!(triples(&found), vec![hit(2, "f", "foo")]);
}

#[test]
fn empty_query_matches_every_line() {
    let found = search_text("f", "a\n\nb", "");
    assert_eq!(triples(&found), vec![hit(1, "f", "a"), hit(2, "f", ""), hit(3, "f", "b")]);
}

#[test]
fn lines_are_split_as_the_standard_library_splits_them() {
    let texts = [
        "",
        "\n",
        "a",
        "a\n",
        "a\nb",
        "a\nb\n",
        "a\n\nb",
        "\n\n",
        "a\r\nb\r\n",
        "a\r\n",
        "a\rb\n",
        "a\r",
        "\r\n",
        "\r",
        "a\r\r\nb",
        "\r\n\r\n",
        "one\ntwo\r\nthree\n\nfive",
        "h\u{e9}llo\nw\u{f6}rld \u{1f600}\n\u{4e16}\u{754c}",
    ];
    for text in texts {
        let found = search_text("p", text, "");
        let expected: Vec<(usize, String, String)> =
            text.lines().enumerate().map(|(i, line)| hit(i + 1, "p", line)).collect();
        assert_eq!(triples(&found), expected, "text {:?}", text);
    }
}

#[test]
fn a_line_keeps_no_line_ending() {
    let found = search_text("p", "foo\r\nfoo\nfoo", "foo");
    assert_eq!(triples(&found), vec![hit(1, "p", "foo"), hit(2, "p", "foo"), hit(3, "p", "foo")]);
}

#[test]
fn a_match_may_not_span_lines() {
    let found = search_text("p", "fo\no\n", "foo");
    assert!(found.is_empty());
    let found = search_text("p", "a\nb\n", "a\nb");
    assert!(found.is_empty());
}

#[test]
fn text_beyond_ascii_is_matched_by_character() {
    let found = search_text("p", "gr\u{fc}n\nblau\n\u{4e16}\u{754c} gr\u{fc}n\n", "r\u{fc}");
    assert_eq!(
        triples(&found),
        vec![hit(1, "p", "gr\u{fc}n"), hit(3, "p", "\u{4e16}\u{754c} gr\u{fc}n")]
    );
}

#[test]
fn range_contains_agrees_with_the_standard_library() {
    let hays = ["", "a", "abc", "aaa", "abcabc", "xay\u{e9}z", "foo bar", "ab"];
    let needles = ["", "a", "b", "bc", "abc", "abcd", "ca", "aa", "aaaa", "\u{e9}", "y\u{e9}z", "o b"];
    for hay in hays {
        let text = chars_of(hay);
        for needle in needles {
            let wanted = chars_of(needle);
            assert_eq!(
                range_contains(&text, 0, text.len(), &wanted),
                hay.contains(needle),
                "{:?} in {:?}",
                needle,
                hay
            );
        }
    }
}

#[test]
fn range_contains_looks_only_inside_the_range() {
    let text = chars_of("xxfooyy");
    let needle = chars_of("foo");
    assert!(range_contains(&text, 0, 7, &needle));
    assert!(range_contains(&text, 2, 5, &needle));
    assert!(!range_contains(&text, 3, 7, &needle));
    assert!(!range_contains(&text, 0, 4, &needle));
    assert!(!range_contains(&text, 4, 4, &needle));
    assert!(range_contains(&text, 4, 4, &chars_of("")));
}

#[test]
fn chars_of_gives_each_character() {
    assert_eq!(chars_of("a\u{e9}\u{1f600}"), vec!['a', '\u{e9}', '\u{1f600}']);
    assert!(chars_of("").is_empty());
}

#[test]
fn str_eq_compares_whole_strings() {
    assert!(str_eq("", ""));
    assert!(str_eq("-r", "-r"));
    assert!(!str_eq("-r", "-R"));
    assert!(!str_eq("-r", "-"));
    assert!(!str_eq("-", "-r"));
    assert!(!str_eq("", "a"));
    assert!(str_eq("\u{e9}t\u{e9}", "\u{e9}t\u{e9}"));
}

#[test]
fn new_match_counts_lines_from_one() {
    let m = GreprMatch::new("dir/a.txt", 0, "first");
    assert_eq!(m.line_number(), 1);
    assert_eq!(m.pathname(), "dir/a.txt");
    assert_eq!(m.line(), "first");
    let m = GreprMatch::new("b", 41, "");
    assert_eq!(m.line_number(), 42);
}

#[test]
fn a_match_is_reported_with_number_path_and_text() {
    assert_eq!(GreprMatch::new("d/one.txt", 0, "foo bar").to_line(), "1:d/one.txt | foo bar");
    assert_eq!(GreprMatch::new("x", 9, "").to_line(), "10:x | ");
    assert_eq!(GreprMatch::new("x", 1233, "a | b").to_line(), "1234:x | a | b");
    assert_eq!(
        GreprMatch::new("p", 18446744073709551614, "z").to_line().len(),
        "18446744073709551615:p | z".len()
    );
}

#[test]
fn a_match_is_reported_as_the_formatter_would() {
    for index in [0usize, 8, 9, 10, 98, 99, 100, 1000, 12344, 999999] {
        let m = GreprMatch::new("some/path", index, "the line");
        assert_eq!(m.to_line(), format!("{}:{} | {}", index + 1, "some/path", "the line"));
    }
}
