//! One search hit, and the hits of one text.

use crate::text::{
    chars_of, decimal, digit_char, lemma_line_end_is, lines, occurs_in, range_contains, strip_cr,
};
use vstd::prelude::*;

verus! {

/// What a [`GreprMatch`] stands for.
pub struct MatchView {
    /// The pathname of the file that holds the line.
    pub path: Seq<char>,
    /// The position of the line in its file, counted from 1.
    pub line_number: nat,
    /// The line, without its line ending.
    pub text: Seq<char>,
}

/// One line that holds the query: where it was found, and the line itself.
pub struct GreprMatch {
    pathname: String,
    line_num: usize,
    line: String,
}

impl View for GreprMatch {
    type V = MatchView;

    closed spec fn view(&self) -> MatchView {
        MatchView { path: self.pathname@, line_number: self.line_num as nat, text: self.line@ }
    }
}

impl DeepView for GreprMatch {
    type V = MatchView;

    open spec fn deep_view(&self) -> MatchView {
        self@
    }
}

/// The hits among `lines`, the lines of the file at `path`: one for each
/// line that holds `query`, numbered by the line's position from 1, in the
/// order of the lines.
pub open spec fn matches_in(path: Seq<char>, lines: Seq<Seq<char>>, query: Seq<char>) -> Seq<
    MatchView,
>
    decreases lines.len(),
{
    if lines.len() == 0 {
        Seq::empty()
    } else {
        let before = matches_in(path, lines.drop_last(), query);
        if occurs_in(query, lines.last()) {
            before.push(MatchView { path, line_number: lines.len(), text: lines.last() })
        } else {
            before
        }
    }
}

/// The hits of the file at `path` whose content is `text`.
pub open spec fn file_matches(path: Seq<char>, text: Seq<char>, query: Seq<char>) -> Seq<
    MatchView,
> {
    matches_in(path, lines(text), query)
}

/// The hits of a file are its lines that hold the query, one hit for each,
/// under the line's position from 1 and in the order of the lines; a line
/// that does not hold the query has no hit.
pub proof fn lemma_one_match_per_matching_line(
    path: Seq<char>,
    lines: Seq<Seq<char>>,
    query: Seq<char>,
)
    ensures
        forall|k: int|
            0 <= k < matches_in(path, lines, query).len() ==> {
                let m = #[trigger] matches_in(path, lines, query)[k];
                &&& m.path == path
                &&& 1 <= m.line_number <= lines.len()
                &&& m.text == lines[m.line_number - 1]
                &&& occurs_in(query, m.text)
            },
        forall|i: int|
            0 <= i < lines.len() && occurs_in(query, #[trigger] lines[i]) ==> matches_in(
                path,
                lines,
                query,
            ).contains(MatchView { path, line_number: (i + 1) as nat, text: lines[i] }),
        forall|j: int, k: int|
            0 <= j < k < matches_in(path, lines, query).len() ==> (#[trigger] matches_in(
                path,
                lines,
                query,
            )[j]).line_number < (#[trigger] matches_in(path, lines, query)[k]).line_number,
        matches_in(path, lines, query).len() == lines.filter(
            |line: Seq<char>| occurs_in(query, line),
        ).len(),
    decreases lines.len(),
{
    let found = matches_in(path, lines, query);
    let holds = |line: Seq<char>| occurs_in(query, line);
    if lines.len() > 0 {
        let head = lines.drop_last();
        let before = matches_in(path, head, query);
        lemma_one_match_per_matching_line(path, head, query);
        assert forall|i: int|
            0 <= i < lines.len() && occurs_in(query, #[trigger] lines[i]) implies found.contains(
            MatchView { path, line_number: (i + 1) as nat, text: lines[i] },
        ) by {
            let m = MatchView { path, line_number: (i + 1) as nat, text: lines[i] };
            if i < head.len() {
                assert(head[i] == lines[i]);
                let k = choose|k: int| 0 <= k < before.len() && before[k] == m;
                assert(found[k] == m);
            } else {
                assert(found[found.len() - 1] == m);
            }
        }
        assert(found.len() == lines.filter(holds).len()) by {
            reveal(Seq::filter);
        }
    }
}

/// Calls `String::push`, which appends one character to the end of a
/// string. Nothing is proved of the call: the contract restates the
/// documentation of the standard library.
#[verifier::external_body]
fn push_char(s: &mut String, c: char)
    ensures
        final(s)@ == old(s)@.push(c),
{
    s.push(c)
}

/// The line that reports a hit: the number of the line, a colon, the
/// path, ` | `, and the text of the line.
pub open spec fn report(m: MatchView) -> Seq<char> {
    decimal(m.line_number) + seq![':'] + m.path + seq![' ', '|', ' '] + m.text
}

/// Adds the decimal numeral of `n` to the end of `s`.
fn push_decimal(s: &mut String, n: usize)
    ensures
        final(s)@ == old(s)@ + decimal(n as nat),
    decreases n,
{
    if n >= 10 {
        push_decimal(s, n / 10);
    }
    push_char(s, digit_char(n % 10));
}

/// The string made of `chars[from..to]`.
fn string_of(chars: &Vec<char>, from: usize, to: usize) -> (s: String)
    requires
        from <= to <= chars.len(),
    ensures
        s@ == chars@.subrange(from as int, to as int),
{
    let mut s = String::new();
    let mut i: usize = from;
    while i < to
        invariant
            from <= i <= to <= chars.len(),
            s@ == chars@.subrange(from as int, i as int),
        decreases to - i,
    {
        push_char(&mut s, chars[i]);
        i += 1;
    }
    s
}

impl GreprMatch {
    /// Lines are counted from 1.
    #[verifier::type_invariant]
    spec fn numbered_from_one(self) -> bool {
        self.line_num >= 1
    }

    /// The hit on the line at position `line_num`, counted from 0, of the
    /// file at `pathname`. The hit holds the position counted from 1.
    pub fn new(pathname: &str, line_num: usize, line: &str) -> (m: GreprMatch)
        requires
            line_num < usize::MAX,
        ensures
            m@ == (MatchView { path: pathname@, line_number: (line_num + 1) as nat, text: line@ }),
    {
        GreprMatch { pathname: pathname.to_owned(), line_num: line_num + 1, line: line.to_owned() }
    }

    /// The pathname of the file that holds the line.
    pub fn pathname(&self) -> (path: &str)
        ensures
            path@ == self@.path,
    {
        self.pathname.as_str()
    }

    /// The position of the line in its file, counted from 1.
    pub fn line_number(&self) -> (n: usize)
        ensures
            n == self@.line_number,
            n >= 1,
    {
        proof {
            use_type_invariant(self);
        }
        self.line_num
    }

    /// The line, without its line ending.
    pub fn line(&self) -> (text: &str)
        ensures
            text@ == self@.text,
    {
        self.line.as_str()
    }

    /// The line that reports the hit, as it is printed.
    pub fn to_line(&self) -> (out: String)
        ensures
            out@ == report(self@),
    {
        let mut out = String::new();
        push_decimal(&mut out, self.line_num);
        proof {
            reveal_strlit(":");
            reveal_strlit(" | ");
        }
        out.append(":");
        out.append(self.pathname.as_str());
        out.append(" | ");
        out.append(self.line.as_str());
        out
    }
}

/// The hit on `chars[from..to]`, the line at position `index` from 0.
fn hit_on(pathname: &str, index: usize, chars: &Vec<char>, from: usize, to: usize) -> (m:
    GreprMatch)
    requires
        from <= to <= chars.len(),
        index < usize::MAX,
    ensures
        m@ == (MatchView {
            path: pathname@,
            line_number: (index + 1) as nat,
            text: chars@.subrange(from as int, to as int),
        }),
{
    GreprMatch {
        pathname: pathname.to_owned(),
        line_num: index + 1,
        line: string_of(chars, from, to),
    }
}

/// Searches `text`, the content of the file at `pathname`: the lines that
/// hold `query`, each with its position, in the order of the file.
pub fn search_text(pathname: &str, text: &str, query: &str) -> (found: Vec<GreprMatch>)
    ensures
        found.deep_view() == file_matches(pathname@, text@, query@),
{
    let chars = chars_of(text);
    let needle = chars_of(query);
    let mut found: Vec<GreprMatch> = Vec::new();
    let ghost mut done: Seq<Seq<char>> = Seq::empty();
    let mut start: usize = 0;
    let mut index: usize = 0;
    let mut i: usize = 0;
    assert(chars@.skip(0) =~= chars@);
    while i < chars.len()
        invariant
            chars@ == text@,
            needle@ == query@,
            index <= start <= i <= chars.len(),
            forall|j: int| start <= j < i ==> chars@[j] != '\n',
            lines(text@) == done + lines(chars@.skip(start as int)),
            done.len() == index,
            found.deep_view() == matches_in(pathname@, done, query@),
        decreases chars.len() - i,
    {
        if chars[i] == '\n' {
            let end: usize = if i > start && chars[i - 1] == '\r' {
                i - 1
            } else {
                i
            };
            let ghost rest = chars@.skip(start as int);
            let ghost line = chars@.subrange(start as int, end as int);
            proof {
                lemma_line_end_is(rest, i - start);
                assert(strip_cr(rest.take(i - start)) =~= line);
                assert(rest.skip(i - start + 1) =~= chars@.skip(i + 1));
                assert(done.push(line).drop_last() =~= done);
            }
            if range_contains(&chars, start, end, &needle) {
                let m = hit_on(pathname, index, &chars, start, end);
                found.push(m);
            }
            proof {
                done = done.push(line);
            }
            index += 1;
            start = i + 1;
        }
        i += 1;
    }
    if start < chars.len() {
        let ghost rest = chars@.skip(start as int);
        let ghost line = chars@.subrange(start as int, chars.len() as int);
        proof {
            lemma_line_end_is(rest, rest.len() as int);
            assert(done + lines(rest) =~= done.push(line));
            assert(done.push(line).drop_last() =~= done);
        }
        if range_contains(&chars, start, chars.len(), &needle) {
            let m = hit_on(pathname, index, &chars, start, chars.len());
            found.push(m);
        }
    }
    found
}

} // verus!
