//! The marker grammar: `{{`, a name without braces, `}}`.
use vstd::prelude::*;

verus! {

pub open spec fn is_brace(c: char) -> bool {
    c == '{' || c == '}'
}

/// Whether no character of `s` is a brace.
pub open spec fn brace_free(s: Seq<char>) -> bool {
    forall|k: int| 0 <= k < s.len() ==> !is_brace(#[trigger] s[k])
}

/// The index of the first brace of `t` at or after `k`, or the length of `t` if there is none.
pub open spec fn next_brace(t: Seq<char>, k: int) -> int
    decreases t.len() - k,
{
    if k >= t.len() {
        t.len() as int
    } else if is_brace(t[k]) {
        k
    } else {
        next_brace(t, k + 1)
    }
}

/// Where a marker `{{name}}` starts at `i` of `t`, the index at which its name ends (the name is
/// `t[i + 2 .. j]`, and `t[j .. j + 2]` is `}}`). The name is everything up to the first brace
/// after the opening `{{`; that brace and the one after it must both be `}`.
pub open spec fn marker_end(t: Seq<char>, i: int) -> Option<int> {
    let j = next_brace(t, i + 2);
    if 0 <= i && i + 1 < t.len() && t[i] == '{' && t[i + 1] == '{' && i + 2 <= j && j + 1
        < t.len() && t[j] == '}' && t[j + 1] == '}' {
        Some(j)
    } else {
        None
    }
}

/// The text of a marker with the given name.
pub open spec fn marker_text(name: Seq<char>) -> Seq<char> {
    seq!['{', '{'] + name + seq!['}', '}']
}

pub proof fn lemma_next_brace_bounds(t: Seq<char>, k: int)
    requires
        0 <= k,
    ensures
        k <= t.len() ==> k <= next_brace(t, k) <= t.len(),
        k > t.len() ==> next_brace(t, k) == t.len(),
        forall|q: int| k <= q < next_brace(t, k) ==> !is_brace(#[trigger] t[q]),
        next_brace(t, k) < t.len() ==> is_brace(t[next_brace(t, k)]),
    decreases t.len() - k,
{
    if k < t.len() && !is_brace(t[k]) {
        lemma_next_brace_bounds(t, k + 1);
    }
}

/// Where a marker starts at `i` of `t`: the end of its name, as `marker_end` gives it.
pub fn marker_end_at(t: &Vec<char>, i: usize) -> (r: Option<usize>)
    ensures
        match r {
            Some(j) => marker_end(t@, i as int) == Some(j as int),
            None => marker_end(t@, i as int) is None,
        },
{
    if i >= t.len() || t.len() - i < 2 || t[i] != '{' || t[i + 1] != '{' {
        return None;
    }
    let mut j: usize = i + 2;
    while j < t.len() && t[j] != '{' && t[j] != '}'
        invariant
            i + 2 <= j <= t.len(),
            next_brace(t@, j as int) == next_brace(t@, i + 2),
        decreases t.len() - j,
    {
        j = j + 1;
    }
    proof {
        lemma_next_brace_bounds(t@, i + 2);
    }
    if t.len() - j >= 2 && t[j] == '}' && t[j + 1] == '}' {
        Some(j)
    } else {
        None
    }
}

} // verus!
