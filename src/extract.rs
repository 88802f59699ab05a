//! Finding the placeholder names of a text.
use std::collections::VecDeque;
use vstd::prelude::*;
use vstd::string::*;

use crate::marker::{marker_end, marker_end_at};
use crate::text::{chars_of, trim_spaces, trimmed_bounds};

verus! {

/// The views of a sequence of strings.
pub open spec fn views(s: Seq<String>) -> Seq<Seq<char>> {
    s.map_values(|x: String| x@)
}

/// The names of the markers of `t` that a left-to-right scan from `i` meets, in order, each with
/// its enclosing spaces taken off. A marker must have a non-empty name; after a marker the scan
/// goes on behind its closing `}}`.
pub open spec fn names_from(t: Seq<char>, i: int) -> Seq<Seq<char>>
    decreases t.len() - i,
{
    if i < 0 || i >= t.len() {
        seq![]
    } else {
        match marker_end(t, i) {
            Some(j) => if j > i + 2 {
                seq![trim_spaces(t.subrange(i + 2, j))] + names_from(t, j + 2)
            } else {
                names_from(t, i + 1)
            },
            None => names_from(t, i + 1),
        }
    }
}

/// The names of all the markers of `t`, in order of appearance, repetitions kept.
pub open spec fn marker_names(t: Seq<char>) -> Seq<Seq<char>> {
    names_from(t, 0)
}

/// `s` with every element after its first occurrence dropped.
pub open spec fn dedup(s: Seq<Seq<char>>) -> Seq<Seq<char>>
    decreases s.len(),
{
    if s.len() == 0 {
        s
    } else {
        let d = dedup(s.drop_last());
        if d.contains(s.last()) {
            d
        } else {
            d.push(s.last())
        }
    }
}

/// The placeholder list of `t`: its distinct marker names, in order of first appearance.
pub open spec fn placeholders(t: Seq<char>) -> Seq<Seq<char>> {
    dedup(marker_names(t))
}

/// No element of `d` occurs twice.
pub open spec fn distinct(d: Seq<Seq<char>>) -> bool {
    forall|i: int, j: int| 0 <= i < j < d.len() ==> d[i] != d[j]
}

/// `d` holds the elements of `s` in the order of their first occurrences in `s`: wherever a
/// later element of `d` occurs in `s`, an earlier one has occurred before it.
pub open spec fn in_first_occurrence_order(d: Seq<Seq<char>>, s: Seq<Seq<char>>) -> bool {
    forall|i: int, j: int, q: int|
        0 <= i < j < d.len() && 0 <= q < s.len() && #[trigger] s[q] == #[trigger] d[j]
            ==> s.take(q).contains(#[trigger] d[i])
}

/// Dropping repetitions leaves each element once, loses none, and keeps the order of first
/// occurrences.
pub proof fn lemma_dedup(s: Seq<Seq<char>>)
    ensures
        distinct(dedup(s)),
        forall|x: Seq<char>| #[trigger] dedup(s).contains(x) <==> s.contains(x),
        in_first_occurrence_order(dedup(s), s),
    decreases s.len(),
{
    if s.len() > 0 {
        let p = s.drop_last();
        let x = s.last();
        let d = dedup(p);
        lemma_dedup(p);
        assert(s =~= p.push(x));
        assert forall|y: Seq<char>| s.contains(y) <==> p.contains(y) || y == x by {
            if s.contains(y) {
                let k = choose|k: int| 0 <= k < s.len() && s[k] == y;
                if k < p.len() {
                    assert(p[k] == y);
                }
            }
            if p.contains(y) {
                let k = choose|k: int| 0 <= k < p.len() && p[k] == y;
                assert(s[k] == y);
            }
            if y == x {
                assert(s[s.len() - 1] == y);
            }
        }
        let r = dedup(s);
        assert forall|y: Seq<char>| r.contains(y) <==> d.contains(y) || y == x by {
            if !d.contains(x) {
                if r.contains(y) {
                    let k = choose|k: int| 0 <= k < r.len() && r[k] == y;
                    if k < d.len() {
                        assert(d[k] == y);
                    }
                }
                if d.contains(y) {
                    let k = choose|k: int| 0 <= k < d.len() && d[k] == y;
                    assert(r[k] == y);
                }
                assert(r[r.len() - 1] == x);
            }
        }
        assert forall|i: int, j: int, q: int|
            0 <= i < j < r.len() && 0 <= q < s.len() && #[trigger] s[q] == #[trigger] r[j]
                implies s.take(q).contains(#[trigger] r[i]) by {
            assert(d.contains(r[i]));
            if q < p.len() {
                assert(p[q] == s[q]);
                assert(s.take(q) =~= p.take(q));
                if !d.contains(x) && j == d.len() {
                    assert(p.contains(x));
                }
            } else {
                assert(s.take(q) =~= p);
            }
        }
    }
}

/// The trimmed names of all the markers of `input`, in order of appearance, repetitions kept.
pub fn extract_contents(input: &str) -> (r: VecDeque<String>)
    ensures
        views(r@) == marker_names(input@),
{
    let t = chars_of(input);
    let mut r: VecDeque<String> = VecDeque::new();
    let mut i: usize = 0;
    while i < t.len()
        invariant
            t@ == input@,
            i <= t.len(),
            views(r@) + names_from(t@, i as int) == marker_names(t@),
        decreases t.len() - i,
    {
        match marker_end_at(&t, i) {
            Some(j) => {
                if j > i + 2 {
                    let (a, b) = trimmed_bounds(&t, i + 2, j);
                    let name = input.substring_char(a, b).to_owned();
                    proof {
                        assert(views(r@.push(name)) =~= views(r@).push(name@));
                        assert(views(r@).push(name@) + names_from(t@, j + 2) =~= views(r@)
                            + names_from(t@, i as int));
                    }
                    r.push_back(name);
                    i = j + 2;
                } else {
                    i = i + 1;
                }
            },
            None => {
                i = i + 1;
            },
        }
    }
    r
}

/// Whether one of the strings of `v` reads as `name`.
fn contains_name(v: &Vec<String>, name: &String) -> (r: bool)
    ensures
        r == views(v@).contains(name@),
{
    let mut q: usize = 0;
    while q < v.len()
        invariant
            q <= v.len(),
            forall|p: int| 0 <= p < q ==> v@[p]@ != name@,
        decreases v.len() - q,
    {
        if v[q] == *name {
            assert(views(v@)[q as int] == name@);
            return true;
        }
        q = q + 1;
    }
    proof {
        if views(v@).contains(name@) {
            let k = choose|k: int| 0 <= k < views(v@).len() && views(v@)[k] == name@;
            assert(v@[k]@ == name@);
        }
    }
    false
}

/// The strings of `contents` with every repetition of an earlier one dropped, in their order.
pub fn remove_duplicates(contents: VecDeque<String>) -> (r: Vec<String>)
    ensures
        views(r@) == dedup(views(contents@)),
        distinct(views(r@)),
        forall|x: Seq<char>| #[trigger] views(r@).contains(x) <==> views(contents@).contains(x),
        in_first_occurrence_order(views(r@), views(contents@)),
{
    let ghost all = contents@;
    let mut contents = contents;
    let mut result: Vec<String> = Vec::new();
    let ghost mut n: int = 0;
    while contents.len() > 0
        invariant
            0 <= n <= all.len(),
            contents@ == all.subrange(n, all.len() as int),
            views(result@) == dedup(views(all.take(n))),
        decreases contents@.len(),
    {
        let item = contents.pop_front().unwrap();
        let found = contains_name(&result, &item);
        proof {
            assert(views(all.take(n + 1)).drop_last() =~= views(all.take(n)));
            assert(views(all.take(n + 1)).last() == item@);
        }
        if !found {
            proof {
                assert(views(result@.push(item)) =~= views(result@).push(item@));
            }
            result.push(item);
        }
        proof {
            n = n + 1;
        }
    }
    proof {
        assert(all.take(n) =~= all);
        lemma_dedup(views(all));
    }
    result
}

/// The placeholder names of `input`: the trimmed names of its markers, each once, in order of
/// first appearance.
pub fn find_placeholders(input: &str) -> (r: Vec<String>)
    ensures
        views(r@) == placeholders(input@),
        distinct(views(r@)),
        forall|x: Seq<char>| #[trigger] views(r@).contains(x) <==> marker_names(input@).contains(x),
        in_first_occurrence_order(views(r@), marker_names(input@)),
{
    remove_duplicates(extract_contents(input))
}

} // verus!
