//! Replacing each marker by the value of its name, in one pass.
use vstd::prelude::*;
use vstd::string::*;

use crate::extract::{names_from, placeholders};
use crate::marker::{brace_free, is_brace, marker_end, marker_end_at, marker_text};
use crate::replacements::Replacements;
use crate::text::chars_of;

verus! {

/// `t` from `i` on, with each marker `{{name}}` whose name `m` maps replaced by that value. The
/// scan goes left to right, and behind a replaced marker it goes on after the marker, so a value is
/// never scanned again. A marker whose name `m` lacks is kept as it stands.
pub open spec fn subst_from(t: Seq<char>, m: Map<Seq<char>, Seq<char>>, i: int) -> Seq<char>
    decreases t.len() - i,
{
    if i < 0 || i >= t.len() {
        seq![]
    } else {
        match marker_end(t, i) {
            Some(j) => if m.contains_key(t.subrange(i + 2, j)) {
                m[t.subrange(i + 2, j)] + subst_from(t, m, j + 2)
            } else {
                seq![t[i]] + subst_from(t, m, i + 1)
            },
            None => seq![t[i]] + subst_from(t, m, i + 1),
        }
    }
}

/// `t` with each of its markers `{{name}}` whose name `m` maps replaced by that value.
pub open spec fn substitution(t: Seq<char>, m: Map<Seq<char>, Seq<char>>) -> Seq<char> {
    subst_from(t, m, 0)
}

/// `input` with every marker `{{name}}` whose name has a value in `replacements` replaced by that
/// value. The match is exact: `{{ name }}` is not a marker of `name`. Markers of names without a
/// value are left as they stand, and the values that come in are not scanned for markers again.
pub fn replace_parts(input: &str, replacements: &Replacements) -> (r: String)
    ensures
        r@ == substitution(input@, replacements@),
{
    let t = chars_of(input);
    let ghost m = replacements@;
    let mut out = String::new();
    let mut start: usize = 0;
    let mut i: usize = 0;
    while i < t.len()
        invariant
            t@ == input@,
            m == replacements@,
            start <= i <= t.len(),
            out@ + t@.subrange(start as int, i as int) + subst_from(t@, m, i as int)
                == substitution(t@, m),
        decreases t.len() - i,
    {
        let mut replaced = false;
        if let Some(j) = marker_end_at(&t, i) {
            if let Some(value) = replacements.get_chars(&t, i + 2, j) {
                proof {
                    assert(t@.subrange(start as int, i as int) + subst_from(t@, m, i as int)
                        =~= t@.subrange(start as int, i as int) + value@ + subst_from(
                        t@,
                        m,
                        j + 2,
                    ));
                }
                out.append(input.substring_char(start, i));
                out.append(value.as_str());
                i = j + 2;
                start = i;
                replaced = true;
                assert(t@.subrange(start as int, i as int) =~= Seq::<char>::empty());
            }
        }
        if !replaced {
            proof {
                assert(t@.subrange(start as int, i as int) + subst_from(t@, m, i as int)
                    =~= t@.subrange(start as int, i + 1) + subst_from(t@, m, i + 1));
            }
            i = i + 1;
        }
    }
    out.append(input.substring_char(start, i));
    assert(subst_from(t@, m, i as int) =~= Seq::<char>::empty());
    out
}

/// Whether `s` holds two `{` in a row.
pub open spec fn has_double_open(s: Seq<char>) -> bool {
    exists|k: int| 0 <= k && k + 1 < s.len() && #[trigger] s[k] == '{' && s[k + 1] == '{'
}

/// From `i` on, every `{{` of `t` opens a marker `{{name}}` whose exact name `m` maps, and no such
/// marker comes directly after a `{`.
pub open spec fn resolved_from(t: Seq<char>, m: Map<Seq<char>, Seq<char>>, i: int) -> bool
    decreases t.len() - i,
{
    if i < 0 || i >= t.len() {
        true
    } else {
        match marker_end(t, i) {
            Some(j) => if m.contains_key(t.subrange(i + 2, j)) {
                (i == 0 || t[i - 1] != '{') && resolved_from(t, m, j + 2)
            } else {
                !(t[i] == '{' && t[i + 1] == '{') && resolved_from(t, m, i + 1)
            },
            None => !(t[i] == '{' && i + 1 < t.len() && t[i + 1] == '{') && resolved_from(
                t,
                m,
                i + 1,
            ),
        }
    }
}

/// Every `{{` of `t` opens a marker `{{name}}` whose exact name `m` maps, and no such marker comes
/// directly after a `{`.
pub open spec fn fully_resolved(t: Seq<char>, m: Map<Seq<char>, Seq<char>>) -> bool {
    resolved_from(t, m, 0)
}

/// No value of `m` holds a brace.
pub open spec fn values_brace_free(m: Map<Seq<char>, Seq<char>>) -> bool {
    forall|k: Seq<char>| m.contains_key(k) ==> brace_free(#[trigger] m[k])
}

/// Whether `pat` occurs in `s`.
pub open spec fn occurs_in(pat: Seq<char>, s: Seq<char>) -> bool {
    exists|p: int| 0 <= p && p + pat.len() <= s.len() && #[trigger] s.subrange(p, p + pat.len()) == pat
}

proof fn lemma_subst_no_double_open(t: Seq<char>, m: Map<Seq<char>, Seq<char>>, i: int)
    requires
        resolved_from(t, m, i),
        values_brace_free(m),
    ensures
        !has_double_open(subst_from(t, m, i)),
    decreases t.len() - i,
{
    if 0 <= i < t.len() {
        let replaced = marker_end(t, i) is Some && m.contains_key(
            t.subrange(i + 2, marker_end(t, i)->0),
        );
        let next = if replaced {
            marker_end(t, i)->0 + 2
        } else {
            i + 1
        };
        let head = if replaced {
            m[t.subrange(i + 2, marker_end(t, i)->0)]
        } else {
            seq![t[i]]
        };
        let rest = subst_from(t, m, next);
        lemma_subst_no_double_open(t, m, next);
        assert(subst_from(t, m, i) == head + rest);
        if !replaced && t[i] == '{' && rest.len() > 0 {
            if 0 <= i + 1 < t.len() {
                let r1 = marker_end(t, i + 1) is Some && m.contains_key(
                    t.subrange(i + 3, marker_end(t, i + 1)->0),
                );
                if !r1 {
                    assert(rest[0] == t[i + 1]);
                }
            }
        }
        if has_double_open(head + rest) {
            let k = choose|k: int|
                0 <= k && k + 1 < (head + rest).len() && #[trigger] (head + rest)[k] == '{' && (
                head + rest)[k + 1] == '{';
            if k + 1 < head.len() {
                assert(brace_free(head));
                assert(!is_brace(head[k]));
            } else if k >= head.len() {
                assert((head + rest)[k] == rest[k - head.len()]);
                assert((head + rest)[k + 1] == rest[k + 1 - head.len()]);
            } else {
                assert((head + rest)[k] == head[k]);
                assert((head + rest)[k + 1] == rest[0]);
                if replaced {
                    assert(brace_free(head));
                    assert(!is_brace(head[k]));
                }
            }
        }
    }
}

proof fn lemma_no_double_open_no_markers(s: Seq<char>, i: int)
    requires
        !has_double_open(s),
    ensures
        names_from(s, i) == Seq::<Seq<char>>::empty(),
    decreases s.len() - i,
{
    if 0 <= i < s.len() {
        if s[i] == '{' && i + 1 < s.len() && s[i + 1] == '{' {
            assert(has_double_open(s));
        }
        lemma_no_double_open_no_markers(s, i + 1);
    }
}

/// Where every `{{` of a text opens a marker whose exact name has a value, no such marker comes
/// directly after a `{`, and no value holds a brace, the substituted text has no placeholder in
/// common with the text: all of its placeholders have been resolved.
pub proof fn lemma_substitution_resolves_placeholders(t: Seq<char>, m: Map<Seq<char>, Seq<char>>)
    requires
        fully_resolved(t, m),
        values_brace_free(m),
    ensures
        forall|x: Seq<char>| #[trigger] placeholders(substitution(t, m)).contains(x)
            ==> !placeholders(t).contains(x),
{
    lemma_subst_no_double_open(t, m, 0);
    lemma_no_double_open_no_markers(substitution(t, m), 0);
    assert(placeholders(substitution(t, m)) =~= Seq::<Seq<char>>::empty());
}

/// Where a map gives a value for exactly the placeholders of a text, every `{{` of the text opens a
/// marker whose exact name has a value, no such marker comes directly after a `{`, and no value
/// holds a brace, the substituted text holds no marker `{{name}}` of a name of the map.
pub proof fn lemma_no_mapped_marker_remains(t: Seq<char>, m: Map<Seq<char>, Seq<char>>)
    requires
        forall|k: Seq<char>| m.contains_key(k) <==> #[trigger] placeholders(t).contains(k),
        fully_resolved(t, m),
        values_brace_free(m),
    ensures
        forall|k: Seq<char>| #[trigger] m.contains_key(k) ==> !occurs_in(
            marker_text(k),
            substitution(t, m),
        ),
{
    let out = substitution(t, m);
    lemma_subst_no_double_open(t, m, 0);
    assert forall|k: Seq<char>| #[trigger] m.contains_key(k) implies !occurs_in(
        marker_text(k),
        out,
    ) by {
        let pat = marker_text(k);
        if occurs_in(pat, out) {
            let p = choose|p: int|
                0 <= p && p + pat.len() <= out.len() && #[trigger] out.subrange(p, p + pat.len())
                    == pat;
            assert(out.subrange(p, p + pat.len())[0] == out[p]);
            assert(out.subrange(p, p + pat.len())[1] == out[p + 1]);
            assert(pat[0] == '{' && pat[1] == '{');
            assert(has_double_open(out));
        }
    }
}

} // verus!
