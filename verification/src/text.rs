//! Text as sequences of characters: substring containment and line splitting.

use vstd::prelude::*;
use vstd::std_specs::iter::IteratorSpec;

verus! {

/// `needle` occurs in `hay` at offset `at`.
pub open spec fn occurs_at(needle: Seq<char>, hay: Seq<char>, at: int) -> bool {
    &&& 0 <= at
    &&& at + needle.len() <= hay.len()
    &&& hay.subrange(at, at + needle.len()) == needle
}

/// `needle` is a contiguous part of `hay`. Characters are compared as they
/// are: no case folding, no normalization. The empty needle occurs in every
/// text.
pub open spec fn occurs_in(needle: Seq<char>, hay: Seq<char>) -> bool {
    exists|at: int| occurs_at(needle, hay, at)
}

/// The number of characters before the first line feed of `text`, or the
/// length of `text` where it holds none.
pub open spec fn line_end(text: Seq<char>) -> int
    decreases text.len(),
{
    if text.len() == 0 || text[0] == '\n' {
        0
    } else {
        1 + line_end(text.drop_first())
    }
}

/// A line without the carriage return that stood before its line feed.
pub open spec fn strip_cr(line: Seq<char>) -> Seq<char> {
    if line.len() > 0 && line.last() == '\r' {
        line.drop_last()
    } else {
        line
    }
}

/// The lines of `text`, in order.
///
/// A line ends at a line feed, or at a carriage return directly followed by
/// a line feed; neither belongs to the line. The last line needs no line
/// ending, and a text that ends in one has no empty line after it. A
/// carriage return anywhere else is an ordinary character.
pub open spec fn lines(text: Seq<char>) -> Seq<Seq<char>>
    decreases text.len(),
{
    if text.len() == 0 {
        Seq::empty()
    } else {
        let n = line_end(text);
        if 0 <= n < text.len() {
            seq![strip_cr(text.take(n))] + lines(text.skip(n + 1))
        } else {
            seq![text]
        }
    }
}

/// `line_end` is the first position that holds a line feed.
pub proof fn lemma_line_end(text: Seq<char>)
    ensures
        0 <= line_end(text) <= text.len(),
        line_end(text) < text.len() ==> text[line_end(text)] == '\n',
        forall|i: int| 0 <= i < line_end(text) ==> text[i] != '\n',
    decreases text.len(),
{
    if text.len() > 0 && text[0] != '\n' {
        let rest = text.drop_first();
        lemma_line_end(rest);
        assert forall|i: int| 0 <= i < line_end(text) implies text[i] != '\n' by {
            if i > 0 {
                assert(text[i] == rest[i - 1]);
            }
        }
    }
}

/// A position with a line feed, or the end of the text, that no line feed
/// stands before is `line_end`.
pub proof fn lemma_line_end_is(text: Seq<char>, n: int)
    requires
        0 <= n <= text.len(),
        n < text.len() ==> text[n] == '\n',
        forall|i: int| 0 <= i < n ==> text[i] != '\n',
    ensures
        line_end(text) == n,
{
    lemma_line_end(text);
}

/// The characters of `s`, one element each.
pub fn chars_of(s: &str) -> (chars: Vec<char>)
    ensures
        chars@ == s@,
{
    let mut chars: Vec<char> = Vec::new();
    for c in it: s.chars()
        invariant
            chars@ == it.seq().take(it.index()),
            it.seq() == s@,
    {
        chars.push(c);
    }
    chars
}

/// Whether `needle` stands in `text[from..to]` at offset `at`.
fn matches_at(text: &Vec<char>, from: usize, to: usize, needle: &Vec<char>, at: usize) -> (r: bool)
    requires
        from <= to <= text.len(),
        from + at + needle.len() <= to,
    ensures
        r == occurs_at(needle@, text@.subrange(from as int, to as int), at as int),
{
    let ghost hay = text@.subrange(from as int, to as int);
    let mut k: usize = 0;
    while k < needle.len()
        invariant
            from <= to <= text.len(),
            from + at + needle.len() <= to,
            hay == text@.subrange(from as int, to as int),
            k <= needle.len(),
            forall|j: int| 0 <= j < k ==> hay[at + j] == needle@[j],
        decreases needle.len() - k,
    {
        if text[from + at + k] != needle[k] {
            return false;
        }
        k += 1;
    }
    proof {
        assert(hay.subrange(at as int, at + needle.len()) =~= needle@);
    }
    true
}

/// Whether `needle` occurs in `text[from..to]`.
pub fn range_contains(text: &Vec<char>, from: usize, to: usize, needle: &Vec<char>) -> (r: bool)
    requires
        from <= to <= text.len(),
    ensures
        r == occurs_in(needle@, text@.subrange(from as int, to as int)),
{
    let ghost hay = text@.subrange(from as int, to as int);
    if needle.len() > to - from {
        return false;
    }
    let last: usize = to - from - needle.len();
    let mut at: usize = 0;
    loop
        invariant
            from <= to <= text.len(),
            needle.len() <= to - from,
            last == to - from - needle.len(),
            hay == text@.subrange(from as int, to as int),
            at <= last,
            forall|j: int| 0 <= j < at ==> !occurs_at(needle@, hay, j),
        decreases last - at,
    {
        if matches_at(text, from, to, needle, at) {
            return true;
        }
        if at == last {
            return false;
        }
        at += 1;
    }
}

/// The character of the decimal digit `d`.
pub open spec fn digit(d: int) -> char {
    if d == 0 {
        '0'
    } else if d == 1 {
        '1'
    } else if d == 2 {
        '2'
    } else if d == 3 {
        '3'
    } else if d == 4 {
        '4'
    } else if d == 5 {
        '5'
    } else if d == 6 {
        '6'
    } else if d == 7 {
        '7'
    } else if d == 8 {
        '8'
    } else {
        '9'
    }
}

/// The decimal numeral of `n`: its digits from the highest, with no
/// leading zero and no sign.
pub open spec fn decimal(n: nat) -> Seq<char>
    decreases n,
{
    if n < 10 {
        seq![digit(n as int)]
    } else {
        decimal(n / 10).push(digit((n % 10) as int))
    }
}

/// The character of the decimal digit `d`.
pub fn digit_char(d: usize) -> (c: char)
    requires
        d < 10,
    ensures
        c == digit(d as int),
{
    if d == 0 {
        '0'
    } else if d == 1 {
        '1'
    } else if d == 2 {
        '2'
    } else if d == 3 {
        '3'
    } else if d == 4 {
        '4'
    } else if d == 5 {
        '5'
    } else if d == 6 {
        '6'
    } else if d == 7 {
        '7'
    } else if d == 8 {
        '8'
    } else {
        '9'
    }
}

/// Whether two strings hold the same characters.
pub fn str_eq(a: &str, b: &str) -> (r: bool)
    ensures
        r == (a@ == b@),
{
    let mut rest_a = a.chars();
    let mut rest_b = b.chars();
    let ghost mut n: int = 0;
    loop
        invariant
            0 <= n <= a@.len(),
            n <= b@.len(),
            a@.take(n) == b@.take(n),
            rest_a.remaining() == a@.skip(n),
            rest_b.remaining() == b@.skip(n),
            rest_a.obeys_prophetic_iter_laws(),
            rest_b.obeys_prophetic_iter_laws(),
            rest_a.decrease() is Some,
        decreases rest_a.decrease()->0,
    {
        let next_a = rest_a.next();
        let next_b = rest_b.next();
        match next_a {
            None => {
                proof {
                    if n == b@.len() {
                        assert(a@ =~= a@.take(n) && b@ =~= b@.take(n));
                    }
                }
                return next_b.is_none();
            },
            Some(x) => {
                match next_b {
                    None => {
                        return false;
                    },
                    Some(y) => {
                        if x != y {
                            return false;
                        }
                        proof {
                            n = n + 1;
                        }
                    },
                }
            },
        }
    }
}

} // verus!
