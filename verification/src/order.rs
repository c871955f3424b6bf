//! The order of paths, and the stable sort of hits by path.

use crate::hits::{GreprMatch, MatchView};
use vstd::prelude::*;
use vstd::std_specs::iter::IteratorSpec;

verus! {

/// `a` stands before `b`, or is `b`, in the order of strings: the first
/// character in which they differ decides, by its code point, and a string
/// stands before every string that it begins.
pub open spec fn path_le(a: Seq<char>, b: Seq<char>) -> bool
    decreases a.len(),
{
    if a.len() == 0 {
        true
    } else if b.len() == 0 {
        false
    } else if a[0] != b[0] {
        (a[0] as u32) < (b[0] as u32)
    } else {
        path_le(a.drop_first(), b.drop_first())
    }
}

/// Every path stands at its own place.
pub proof fn lemma_path_le_reflexive(a: Seq<char>)
    ensures
        path_le(a, a),
    decreases a.len(),
{
    if a.len() > 0 {
        lemma_path_le_reflexive(a.drop_first());
    }
}

/// Of two paths one stands before the other, or they are one path.
pub proof fn lemma_path_le_total(a: Seq<char>, b: Seq<char>)
    ensures
        path_le(a, b) || path_le(b, a),
    decreases a.len(),
{
    if a.len() > 0 && b.len() > 0 {
        if a[0] == b[0] {
            lemma_path_le_total(a.drop_first(), b.drop_first());
        } else {
            vstd::utf8::char_u32_cast(a[0], a[0] as u32);
            vstd::utf8::char_u32_cast(b[0], b[0] as u32);
        }
    }
}

/// Two paths that each stand before the other are one path.
pub proof fn lemma_path_le_antisymmetric(a: Seq<char>, b: Seq<char>)
    requires
        path_le(a, b),
        path_le(b, a),
    ensures
        a == b,
    decreases a.len(),
{
    if a.len() > 0 && b.len() > 0 {
        lemma_path_le_antisymmetric(a.drop_first(), b.drop_first());
        assert(a =~= seq![a[0]] + a.drop_first());
    }
}

/// The order of paths is transitive.
pub proof fn lemma_path_le_transitive(a: Seq<char>, b: Seq<char>, c: Seq<char>)
    requires
        path_le(a, b),
        path_le(b, c),
    ensures
        path_le(a, c),
    decreases a.len(),
{
    if a.len() > 0 && b.len() > 0 && c.len() > 0 && a[0] == b[0] && b[0] == c[0] {
        lemma_path_le_transitive(a.drop_first(), b.drop_first(), c.drop_first());
    }
}

/// Whether `a` stands before `b`, or is `b`, in the order of paths.
pub fn str_le(a: &str, b: &str) -> (r: bool)
    ensures
        r == path_le(a@, b@),
{
    let mut rest_a = a.chars();
    let mut rest_b = b.chars();
    loop
        invariant
            path_le(a@, b@) == path_le(rest_a.remaining(), rest_b.remaining()),
            rest_a.obeys_prophetic_iter_laws(),
            rest_b.obeys_prophetic_iter_laws(),
            rest_a.decrease() is Some,
        decreases rest_a.decrease()->0,
    {
        let next_a = rest_a.next();
        let next_b = rest_b.next();
        match next_a {
            None => {
                return true;
            },
            Some(x) => {
                match next_b {
                    None => {
                        return false;
                    },
                    Some(y) => {
                        if x != y {
                            return (x as u32) < (y as u32);
                        }
                    },
                }
            },
        }
    }
}

/// The hits of `s` from the file at `path`, in their order in `s`.
pub open spec fn on_path(s: Seq<MatchView>, path: Seq<char>) -> Seq<MatchView>
    decreases s.len(),
{
    if s.len() == 0 {
        s
    } else if s.last().path == path {
        on_path(s.drop_last(), path).push(s.last())
    } else {
        on_path(s.drop_last(), path)
    }
}

/// The paths of `s` never go down.
pub open spec fn sorted_by_path(s: Seq<MatchView>) -> bool {
    forall|i: int, j: int|
        0 <= i <= j < s.len() ==> path_le(#[trigger] s[i].path, #[trigger] s[j].path)
}

/// `t` holds the hits of `s` in the order of their paths, those of one
/// path in the order that they have in `s`.
pub open spec fn stable_sort_of(t: Seq<MatchView>, s: Seq<MatchView>) -> bool {
    &&& sorted_by_path(t)
    &&& forall|path: Seq<char>| #[trigger] on_path(t, path) == on_path(s, path)
}

/// `sorted` with `m` put behind the last hit whose path does not stand
/// after the path of `m`.
pub open spec fn insert_by_path(sorted: Seq<MatchView>, m: MatchView) -> Seq<MatchView>
    decreases sorted.len(),
{
    if sorted.len() == 0 || path_le(sorted.last().path, m.path) {
        sorted.push(m)
    } else {
        insert_by_path(sorted.drop_last(), m).push(sorted.last())
    }
}

/// The hits of `s` sorted by path, ascending and stable: hits of one path
/// keep the order that they have in `s`.
pub open spec fn sort_by_path(s: Seq<MatchView>) -> Seq<MatchView>
    decreases s.len(),
{
    if s.len() == 0 {
        s
    } else {
        insert_by_path(sort_by_path(s.drop_last()), s.last())
    }
}

/// The hits from one file among two sequences in a row are those of the
/// first followed by those of the second.
pub proof fn lemma_on_path_add(a: Seq<MatchView>, b: Seq<MatchView>, path: Seq<char>)
    ensures
        on_path(a + b, path) == on_path(a, path) + on_path(b, path),
    decreases b.len(),
{
    if b.len() > 0 {
        lemma_on_path_add(a, b.drop_last(), path);
        assert((a + b).drop_last() =~= a + b.drop_last());
    }
}

/// Each hit of `on_path(s, path)` is a hit of `s` with that path.
pub proof fn lemma_on_path_members(s: Seq<MatchView>, path: Seq<char>)
    ensures
        forall|k: int|
            0 <= k < on_path(s, path).len() ==> (#[trigger] on_path(s, path)[k]).path == path
                && s.contains(on_path(s, path)[k]),
        on_path(s, path).len() <= s.len(),
        (forall|i: int| 0 <= i < s.len() ==> (#[trigger] s[i]).path != path) ==> on_path(s, path)
            == Seq::<MatchView>::empty(),
    decreases s.len(),
{
    if s.len() > 0 {
        let head = s.drop_last();
        lemma_on_path_members(head, path);
    }
}

/// Putting a hit into a sorted sequence keeps it sorted, adds the hit
/// behind the hits of its own path, and moves no other hit past one of its
/// own path.
pub proof fn lemma_insert_by_path(sorted: Seq<MatchView>, m: MatchView)
    requires
        sorted_by_path(sorted),
    ensures
        sorted_by_path(insert_by_path(sorted, m)),
        insert_by_path(sorted, m).len() == sorted.len() + 1,
        forall|i: int|
            0 <= i < insert_by_path(sorted, m).len() ==> (#[trigger] insert_by_path(sorted, m)[i])
                == m || sorted.contains(insert_by_path(sorted, m)[i]),
        forall|path: Seq<char>| #[trigger]
            on_path(insert_by_path(sorted, m), path) == if m.path == path {
                on_path(sorted, path).push(m)
            } else {
                on_path(sorted, path)
            },
    decreases sorted.len(),
{
    let r = insert_by_path(sorted, m);
    if sorted.len() == 0 || path_le(sorted.last().path, m.path) {
        assert(r.drop_last() =~= sorted);
        assert forall|i: int, j: int| 0 <= i <= j < r.len() implies path_le(
            #[trigger] r[i].path,
            #[trigger] r[j].path,
        ) by {
            if j == sorted.len() {
                if i < j {
                    lemma_path_le_transitive(sorted[i].path, sorted.last().path, m.path);
                } else {
                    lemma_path_le_reflexive(m.path);
                }
            }
        }
    } else {
        let head = sorted.drop_last();
        let last = sorted.last();
        let inner = insert_by_path(head, m);
        lemma_insert_by_path(head, m);
        lemma_path_le_total(last.path, m.path);
        assert(r.drop_last() =~= inner);
        assert forall|path: Seq<char>| #[trigger]
            on_path(r, path) == if m.path == path {
                on_path(sorted, path).push(m)
            } else {
                on_path(sorted, path)
            } by {
            assert(on_path(inner, path) == if m.path == path {
                on_path(head, path).push(m)
            } else {
                on_path(head, path)
            });
        }
    }
}

/// `sort_by_path` sorts: the result is in the order of the paths, holds
/// the hits of each path in the order that they came in, and holds as
/// many hits as came in.
pub proof fn lemma_sort_by_path(s: Seq<MatchView>)
    ensures
        stable_sort_of(sort_by_path(s), s),
        sort_by_path(s).len() == s.len(),
    decreases s.len(),
{
    if s.len() > 0 {
        lemma_sort_by_path(s.drop_last());
        lemma_insert_by_path(sort_by_path(s.drop_last()), s.last());
    }
}

/// Two sorted sequences that hold the same hits of each path, in the same
/// order, are one sequence.
pub proof fn lemma_sorted_unique(t1: Seq<MatchView>, t2: Seq<MatchView>)
    requires
        sorted_by_path(t1),
        sorted_by_path(t2),
        forall|path: Seq<char>| #[trigger] on_path(t1, path) == on_path(t2, path),
    ensures
        t1 == t2,
    decreases t1.len(),
{
    if t1.len() == 0 || t2.len() == 0 {
        if t1.len() > 0 {
            assert(on_path(t1, t1.last().path) == on_path(t2, t1.last().path));
        }
        if t2.len() > 0 {
            assert(on_path(t1, t2.last().path) == on_path(t2, t2.last().path));
        }
    } else {
        let x = t1.last();
        let y = t2.last();
        let h1 = t1.drop_last();
        let h2 = t2.drop_last();
        assert(path_le(x.path, y.path)) by {
            lemma_on_path_members(t2, x.path);
            assert(on_path(t1, x.path).last() == x);
            let j = choose|j: int| 0 <= j < t2.len() && t2[j] == x;
            assert(path_le(t2[j].path, t2[t2.len() - 1].path));
        }
        assert(path_le(y.path, x.path)) by {
            assert(on_path(t1, y.path) == on_path(t2, y.path));
            lemma_on_path_members(t1, y.path);
            assert(on_path(t2, y.path).last() == y);
            let j = choose|j: int| 0 <= j < t1.len() && t1[j] == y;
            assert(path_le(t1[j].path, t1[t1.len() - 1].path));
        }
        lemma_path_le_antisymmetric(x.path, y.path);
        assert forall|path: Seq<char>| #[trigger] on_path(h1, path) == on_path(h2, path) by {
            assert(on_path(t1, path) == on_path(t2, path));
            if path == x.path {
                assert(on_path(h1, path) =~= on_path(h1, path).push(x).drop_last());
            }
        }
        lemma_sorted_unique(h1, h2);
        assert(t1 =~= h1.push(x));
    }
}

/// There is one stable sort: a sequence that is a stable sort of `s` is
/// `sort_by_path(s)`.
pub proof fn lemma_stable_sort_unique(t: Seq<MatchView>, s: Seq<MatchView>)
    requires
        stable_sort_of(t, s),
    ensures
        t == sort_by_path(s),
{
    lemma_sort_by_path(s);
    lemma_sorted_unique(t, sort_by_path(s));
}

/// A hit of `s` is among the hits of its own path.
pub proof fn lemma_on_path_holds(s: Seq<MatchView>, m: MatchView)
    requires
        s.contains(m),
    ensures
        on_path(s, m.path).contains(m),
    decreases s.len(),
{
    let i = choose|i: int| 0 <= i < s.len() && s[i] == m;
    let part = on_path(s, m.path);
    if i == s.len() - 1 {
        assert(part[part.len() - 1] == m);
    } else {
        let head = s.drop_last();
        assert(head[i] == m);
        lemma_on_path_holds(head, m);
        let before = on_path(head, m.path);
        let k = choose|k: int| 0 <= k < before.len() && before[k] == m;
        assert(part[k] == m);
    }
}

/// Sorting neither drops a hit nor makes one up.
pub proof fn lemma_sort_keeps_hits(s: Seq<MatchView>, m: MatchView)
    ensures
        sort_by_path(s).contains(m) <==> s.contains(m),
{
    let t = sort_by_path(s);
    lemma_sort_by_path(s);
    lemma_on_path_members(s, m.path);
    lemma_on_path_members(t, m.path);
    if s.contains(m) {
        lemma_on_path_holds(s, m);
    }
    if t.contains(m) {
        lemma_on_path_holds(t, m);
    }
}

/// The state of a merge of the sorted sequences `a` and `b` from their
/// ends: `a[i..]` and `b[j..]` have been merged into `tail`, which is the
/// end of the result.
spec fn merging(
    a: Seq<MatchView>,
    b: Seq<MatchView>,
    i: int,
    j: int,
    tail: Seq<MatchView>,
) -> bool {
    &&& sorted_by_path(a)
    &&& sorted_by_path(b)
    &&& 0 <= i <= a.len()
    &&& 0 <= j <= b.len()
    &&& sorted_by_path(tail)
    &&& tail.len() > 0 ==> forall|k: int|
        0 <= k < i ==> path_le((#[trigger] a[k]).path, tail[0].path)
    &&& tail.len() > 0 ==> forall|l: int|
        0 <= l < j ==> path_le((#[trigger] b[l]).path, tail[0].path)
    &&& forall|path: Seq<char>| #[trigger]
        on_path(tail, path) == on_path(a.skip(i), path) + on_path(b.skip(j), path)
    &&& forall|k: int, l: int|
        i <= k < a.len() && 0 <= l < j ==> !path_le((#[trigger] a[k]).path, (#[trigger] b[l]).path)
}

/// The hits of one path among a single hit: the hit, or none.
proof fn lemma_on_path_one(m: MatchView, path: Seq<char>)
    ensures
        on_path(seq![m], path) == if m.path == path {
            seq![m]
        } else {
            Seq::<MatchView>::empty()
        },
{
    assert(seq![m].drop_last() =~= Seq::<MatchView>::empty());
    assert(on_path(Seq::<MatchView>::empty(), path) =~= Seq::<MatchView>::empty());
}

/// A hit that stands before the first of a sorted sequence can be put
/// in front of it.
proof fn lemma_sorted_prepend(m: MatchView, tail: Seq<MatchView>)
    requires
        sorted_by_path(tail),
        tail.len() > 0 ==> path_le(m.path, tail[0].path),
    ensures
        sorted_by_path(seq![m] + tail),
{
    let next = seq![m] + tail;
    assert forall|i: int, j: int| 0 <= i <= j < next.len() implies path_le(
        #[trigger] next[i].path,
        #[trigger] next[j].path,
    ) by {
        if i == 0 {
            if j == 0 {
                lemma_path_le_reflexive(m.path);
            } else {
                lemma_path_le_transitive(m.path, tail[0].path, tail[j - 1].path);
            }
        }
    }
}

/// Taking the last hit of `b` that is left, where no hit left of `a`
/// stands after it.
proof fn lemma_merge_takes_second(
    a: Seq<MatchView>,
    b: Seq<MatchView>,
    i: int,
    j: int,
    tail: Seq<MatchView>,
)
    requires
        merging(a, b, i, j, tail),
        j > 0,
        i > 0 ==> path_le(a[i - 1].path, b[j - 1].path),
    ensures
        merging(a, b, i, j - 1, seq![b[j - 1]] + tail),
{
    let y = b[j - 1];
    let next = seq![y] + tail;
    lemma_sorted_prepend(y, tail);
    assert forall|k: int| 0 <= k < i implies path_le((#[trigger] a[k]).path, next[0].path) by {
        lemma_path_le_transitive(a[k].path, a[i - 1].path, y.path);
    }
    assert forall|path: Seq<char>| #[trigger]
        on_path(next, path) == on_path(a.skip(i), path) + on_path(b.skip(j - 1), path) by {
        lemma_on_path_add(seq![y], tail, path);
        lemma_on_path_one(y, path);
        assert(b.skip(j - 1) =~= seq![y] + b.skip(j));
        lemma_on_path_add(seq![y], b.skip(j), path);
        if y.path == path {
            lemma_on_path_members(a.skip(i), path);
        }
    }
}

/// Taking the last hit of `a` that is left, where it stands after every
/// hit left of `b`.
proof fn lemma_merge_takes_first(
    a: Seq<MatchView>,
    b: Seq<MatchView>,
    i: int,
    j: int,
    tail: Seq<MatchView>,
)
    requires
        merging(a, b, i, j, tail),
        i > 0,
        j > 0 ==> !path_le(a[i - 1].path, b[j - 1].path),
    ensures
        merging(a, b, i - 1, j, seq![a[i - 1]] + tail),
{
    let x = a[i - 1];
    let next = seq![x] + tail;
    lemma_sorted_prepend(x, tail);
    assert forall|l: int| 0 <= l < j implies path_le((#[trigger] b[l]).path, next[0].path) by {
        lemma_path_le_total(x.path, b[j - 1].path);
        lemma_path_le_transitive(b[l].path, b[j - 1].path, x.path);
    }
    assert forall|path: Seq<char>| #[trigger]
        on_path(next, path) == on_path(a.skip(i - 1), path) + on_path(b.skip(j), path) by {
        lemma_on_path_add(seq![x], tail, path);
        assert(a.skip(i - 1) =~= seq![x] + a.skip(i));
        lemma_on_path_add(seq![x], a.skip(i), path);
    }
    assert forall|k: int, l: int| i - 1 <= k < a.len() && 0 <= l < j implies !path_le(
        (#[trigger] a[k]).path,
        (#[trigger] b[l]).path,
    ) by {
        if k == i - 1 {
            if path_le(x.path, b[l].path) {
                lemma_path_le_transitive(x.path, b[l].path, b[j - 1].path);
            }
        }
    }
}

/// Merges two sorted vectors of hits into one. Hits of one path keep their
/// order, those of `a` before those of `b`.
fn merge(a: Vec<GreprMatch>, b: Vec<GreprMatch>) -> (out: Vec<GreprMatch>)
    requires
        sorted_by_path(a.deep_view()),
        sorted_by_path(b.deep_view()),
    ensures
        sorted_by_path(out.deep_view()),
        forall|path: Seq<char>| #[trigger]
            on_path(out.deep_view(), path) == on_path(a.deep_view(), path) + on_path(
                b.deep_view(),
                path,
            ),
{
    let ghost a0 = a.deep_view();
    let ghost b0 = b.deep_view();
    let mut a = a;
    let mut b = b;
    let mut rev: Vec<GreprMatch> = Vec::new();
    let ghost mut tail: Seq<MatchView> = Seq::empty();
    proof {
        assert forall|path: Seq<char>| #[trigger]
            on_path(tail, path) == on_path(a0.skip(a0.len() as int), path) + on_path(
                b0.skip(b0.len() as int),
                path,
            ) by {}
    }
    while a.len() > 0 || b.len() > 0
        invariant
            a.len() <= a0.len(),
            b.len() <= b0.len(),
            a.deep_view() == a0.take(a.len() as int),
            b.deep_view() == b0.take(b.len() as int),
            merging(a0, b0, a.len() as int, b.len() as int, tail),
            rev.len() == tail.len(),
            forall|i: int|
                0 <= i < rev.len() ==> (#[trigger] rev.deep_view()[i]) == tail[tail.len() - 1 - i],
        decreases a.len() + b.len(),
    {
        let from_second = if a.len() == 0 {
            true
        } else if b.len() == 0 {
            false
        } else {
            let x = &a[a.len() - 1];
            let y = &b[b.len() - 1];
            assert(x@ == a.deep_view()[a.len() - 1]);
            assert(y@ == b.deep_view()[b.len() - 1]);
            str_le(x.pathname(), y.pathname())
        };
        let ghost i = a.len() as int;
        let ghost j = b.len() as int;
        let ghost before = rev.deep_view();
        if from_second {
            assert(b.deep_view()[j - 1] == b@[j - 1]@);
            let y = b.pop().unwrap();
            proof {
                lemma_merge_takes_second(a0, b0, i, j, tail);
                tail = seq![y@] + tail;
            }
            rev.push(y);
        } else {
            assert(a.deep_view()[i - 1] == a@[i - 1]@);
            let x = a.pop().unwrap();
            proof {
                lemma_merge_takes_first(a0, b0, i, j, tail);
                tail = seq![x@] + tail;
            }
            rev.push(x);
        }
        proof {
            assert forall|k: int| 0 <= k < rev.len() implies (#[trigger] rev.deep_view()[k])
                == tail[tail.len() - 1 - k] by {
                if k < before.len() {
                    assert(rev.deep_view()[k] == before[k]);
                }
            }
        }
    }
    proof {
        assert(a0.skip(0) =~= a0);
        assert(b0.skip(0) =~= b0);
    }
    let mut out: Vec<GreprMatch> = Vec::new();
    while rev.len() > 0
        invariant
            out.len() + rev.len() == tail.len(),
            out.deep_view() == tail.take(out.len() as int),
            forall|i: int|
                0 <= i < rev.len() ==> (#[trigger] rev.deep_view()[i]) == tail[tail.len() - 1 - i],
        decreases rev.len(),
    {
        let ghost before = rev.deep_view();
        let m = rev.pop().unwrap();
        assert(m@ == before[before.len() - 1]);
        out.push(m);
        proof {
            assert forall|i: int| 0 <= i < rev.len() implies (#[trigger] rev.deep_view()[i])
                == tail[tail.len() - 1 - i] by {
                assert(rev.deep_view()[i] == before[i]);
            }
        }
    }
    proof {
        assert(out.deep_view() =~= tail);
    }
    out
}

/// Sorts hits by the path of their file, ascending. The sort is stable:
/// hits of one file stay in the order in which they came.
pub fn sort_matches(v: Vec<GreprMatch>) -> (sorted: Vec<GreprMatch>)
    ensures
        sorted.deep_view() == sort_by_path(v.deep_view()),
        sorted.len() == v.len(),
    decreases v.len(),
{
    let ghost whole = v.deep_view();
    proof {
        lemma_sort_by_path(whole);
    }
    if v.len() <= 1 {
        proof {
            if v.len() == 1 {
                lemma_path_le_reflexive(whole[0].path);
            }
            lemma_stable_sort_unique(whole, whole);
        }
        return v;
    }
    let mut left = v;
    let mid = left.len() / 2;
    let right = left.split_off(mid);
    let ghost first = left.deep_view();
    let ghost second = right.deep_view();
    assert(whole =~= first + second);
    let left = sort_matches(left);
    let right = sort_matches(right);
    proof {
        lemma_sort_by_path(first);
        lemma_sort_by_path(second);
    }
    let sorted = merge(left, right);
    proof {
        assert forall|path: Seq<char>| #[trigger]
            on_path(sorted.deep_view(), path) == on_path(whole, path) by {
            lemma_on_path_add(first, second, path);
        }
        lemma_stable_sort_unique(sorted.deep_view(), whole);
    }
    sorted
}

} // verus!
