//! The replacement map: a value for each placeholder name.
use vstd::prelude::*;

use crate::text::chars_of;

verus! {

/// The map that a sequence of entries describes; a later entry for a name overrides an earlier one.
pub open spec fn entries_map(s: Seq<(Vec<char>, String)>) -> Map<Seq<char>, Seq<char>>
    decreases s.len(),
{
    if s.len() == 0 {
        Map::empty()
    } else {
        entries_map(s.drop_last()).insert(s.last().0@, s.last().1@)
    }
}

/// Entries after the `n`-th that do not name `k` leave what the map says of `k` as it was.
proof fn lemma_entries_after(s: Seq<(Vec<char>, String)>, n: int, k: Seq<char>)
    requires
        0 <= n <= s.len(),
        forall|q: int| n <= q < s.len() ==> (#[trigger] s[q]).0@ != k,
    ensures
        entries_map(s).contains_key(k) == entries_map(s.take(n)).contains_key(k),
        entries_map(s).contains_key(k) ==> entries_map(s)[k] == entries_map(s.take(n))[k],
    decreases s.len(),
{
    if s.len() == n {
        assert(s.take(n) =~= s);
    } else {
        assert(s.drop_last().take(n) =~= s.take(n));
        lemma_entries_after(s.drop_last(), n, k);
    }
}

/// A replacement value for each of a set of placeholder names.
pub struct Replacements {
    entries: Vec<(Vec<char>, String)>,
}

impl View for Replacements {
    type V = Map<Seq<char>, Seq<char>>;

    closed spec fn view(&self) -> Map<Seq<char>, Seq<char>> {
        entries_map(self.entries@)
    }
}

/// Whether `a` holds the characters `t[from .. to]`.
fn same_chars(a: &Vec<char>, t: &Vec<char>, from: usize, to: usize) -> (r: bool)
    requires
        from <= to <= t.len(),
    ensures
        r == (a@ == t@.subrange(from as int, to as int)),
{
    if a.len() != to - from {
        return false;
    }
    let mut q: usize = 0;
    while q < a.len()
        invariant
            a.len() == to - from,
            from <= to <= t.len(),
            q <= a.len(),
            forall|p: int| 0 <= p < q ==> a@[p] == t@[from + p],
        decreases a.len() - q,
    {
        if a[q] != t[from + q] {
            assert(a@[q as int] != t@.subrange(from as int, to as int)[q as int]);
            return false;
        }
        q = q + 1;
    }
    assert(a@ =~= t@.subrange(from as int, to as int));
    true
}

impl Replacements {
    /// A map with no names.
    pub fn new() -> (r: Replacements)
        ensures
            r@ == Map::<Seq<char>, Seq<char>>::empty(),
    {
        Replacements { entries: Vec::new() }
    }

    /// Sets the value of `name` to `value`, in place of any value it had.
    pub fn insert(&mut self, name: &str, value: String)
        ensures
            final(self)@ == old(self)@.insert(name@, value@),
    {
        let key = chars_of(name);
        self.entries.push((key, value));
        proof {
            assert(self.entries@.drop_last() =~= old(self).entries@);
        }
    }

    /// The value of the name `t[from .. to]`, if it has one.
    pub fn get_chars(&self, t: &Vec<char>, from: usize, to: usize) -> (r: Option<&String>)
        requires
            from <= to <= t.len(),
        ensures
            match r {
                Some(v) => self@.contains_key(t@.subrange(from as int, to as int)) && self@[t@.subrange(
                    from as int,
                    to as int,
                )] == v@,
                None => !self@.contains_key(t@.subrange(from as int, to as int)),
            },
    {
        let ghost name = t@.subrange(from as int, to as int);
        let mut k: usize = self.entries.len();
        while k > 0
            invariant
                from <= to <= t.len(),
                name == t@.subrange(from as int, to as int),
                k <= self.entries.len(),
                forall|q: int| k <= q < self.entries.len() ==> (#[trigger] self.entries@[q]).0@ != name,
            decreases k,
        {
            let entry = &self.entries[k - 1];
            if same_chars(&entry.0, t, from, to) {
                proof {
                    let s = self.entries@;
                    lemma_entries_after(s, k as int, name);
                    assert(s.take(k as int).drop_last() =~= s.take(k - 1));
                }
                return Some(&entry.1);
            }
            k = k - 1;
        }
        proof {
            lemma_entries_after(self.entries@, 0, name);
        }
        None
    }

    /// The value of `name`, if it has one.
    pub fn get(&self, name: &str) -> (r: Option<&String>)
        ensures
            match r {
                Some(v) => self@.contains_key(name@) && self@[name@] == v@,
                None => !self@.contains_key(name@),
            },
    {
        let t = chars_of(name);
        proof {
            assert(t@.subrange(0, t@.len() as int) =~= t@);
        }
        self.get_chars(&t, 0, t.len())
    }
}

} // verus!
