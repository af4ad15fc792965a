//! Association lists with last-write-wins semantics, and the flattened
//! translation table of one locale built on them.
use vstd::prelude::*;

verus! {

/// The map obtained by inserting the pairs of `s` into `m`, in order: a later
/// pair overwrites an earlier one with the same key.
pub open spec fn insert_all<V>(m: Map<Seq<char>, V>, s: Seq<(Seq<char>, V)>) -> Map<Seq<char>, V>
    decreases s.len(),
{
    if s.len() == 0 {
        m
    } else {
        insert_all(m, s.drop_last()).insert(s.last().0, s.last().1)
    }
}

/// Does some pair of `s` carry the key `k`?
pub open spec fn has_key<V>(s: Seq<(Seq<char>, V)>, k: Seq<char>) -> bool {
    exists|i: int| 0 <= i < s.len() && #[trigger] s[i].0 == k
}

/// Are the keys of `s` pairwise distinct?
pub open spec fn keys_distinct<V>(s: Seq<(Seq<char>, V)>) -> bool {
    forall|i: int, j: int| 0 <= i < s.len() && 0 <= j < s.len() && i != j ==> s[i].0 != s[j].0
}

/// A key is in the result exactly when it was in `m` or in some pair of `s`.
pub proof fn lemma_insert_all_contains<V>(m: Map<Seq<char>, V>, s: Seq<(Seq<char>, V)>, k: Seq<char>)
    ensures
        insert_all(m, s).contains_key(k) <==> (m.contains_key(k) || has_key(s, k)),
    decreases s.len(),
{
    if s.len() > 0 {
        lemma_insert_all_contains(m, s.drop_last(), k);
        if has_key(s, k) && s.last().0 != k {
            let i = choose|i: int| 0 <= i < s.len() && #[trigger] s[i].0 == k;
            assert(s.drop_last()[i].0 == k);
        }
        if has_key(s.drop_last(), k) {
            let i = choose|i: int| 0 <= i < s.len() - 1 && #[trigger] s.drop_last()[i].0 == k;
            assert(s[i].0 == k);
        }
        if s.last().0 == k {
            assert(s[s.len() - 1].0 == k);
        }
    }
}

/// Where `j` is the last pair with key `k`, the result maps `k` to its value.
pub proof fn lemma_insert_all_last<V>(m: Map<Seq<char>, V>, s: Seq<(Seq<char>, V)>, k: Seq<char>, j: int)
    requires
        0 <= j < s.len(),
        s[j].0 == k,
        forall|i: int| j < i < s.len() ==> s[i].0 != k,
    ensures
        insert_all(m, s).contains_key(k),
        insert_all(m, s)[k] == s[j].1,
    decreases s.len(),
{
    if j < s.len() - 1 {
        assert(s[s.len() - 1].0 != k);
        lemma_insert_all_last(m, s.drop_last(), k, j);
    }
}

/// Where no pair of `s` has key `k`, the result agrees with `m` on `k`.
pub proof fn lemma_insert_all_absent<V>(m: Map<Seq<char>, V>, s: Seq<(Seq<char>, V)>, k: Seq<char>)
    requires
        !has_key(s, k),
    ensures
        insert_all(m, s).contains_key(k) == m.contains_key(k),
        m.contains_key(k) ==> insert_all(m, s)[k] == m[k],
    decreases s.len(),
{
    if s.len() > 0 {
        assert(s[s.len() - 1].0 != k);
        assert forall|i: int| 0 <= i < s.drop_last().len() implies s.drop_last()[i].0 != k by {
            assert(s[i].0 != k);
        }
        lemma_insert_all_absent(m, s.drop_last(), k);
    }
}

/// Appending a pair inserts it.
pub proof fn lemma_insert_all_push<V>(m: Map<Seq<char>, V>, s: Seq<(Seq<char>, V)>, p: (Seq<char>, V))
    ensures
        insert_all(m, s.push(p)) == insert_all(m, s).insert(p.0, p.1),
{
    assert(s.push(p).drop_last() =~= s);
}

/// With distinct keys, replacing the pair at `j` by one with the same key inserts it.
pub proof fn lemma_insert_all_update<V>(s: Seq<(Seq<char>, V)>, j: int, v: V)
    requires
        keys_distinct(s),
        0 <= j < s.len(),
    ensures
        insert_all(Map::empty(), s.update(j, (s[j].0, v))) == insert_all(Map::empty(), s).insert(s[j].0, v),
{
    let t = s.update(j, (s[j].0, v));
    let a = insert_all(Map::<Seq<char>, V>::empty(), t);
    let b = insert_all(Map::<Seq<char>, V>::empty(), s).insert(s[j].0, v);
    assert forall|k: Seq<char>| #[trigger] a.contains_key(k) == b.contains_key(k) && (a.contains_key(k) ==> a[k] == b[k]) by {
        lemma_insert_all_contains(Map::empty(), s, k);
        lemma_insert_all_contains(Map::empty(), t, k);
        if k == s[j].0 {
            lemma_insert_all_last(Map::empty(), t, k, j);
        } else if has_key(s, k) {
            let i = choose|i: int| 0 <= i < s.len() && #[trigger] s[i].0 == k;
            lemma_insert_all_last(Map::empty(), t, k, i);
            lemma_insert_all_last(Map::empty(), s, k, i);
        } else {
            assert(!has_key(t, k)) by {
                if has_key(t, k) {
                    let i = choose|i: int| 0 <= i < t.len() && #[trigger] t[i].0 == k;
                    assert(s[i].0 == k);
                }
            }
        }
    }
    assert(a.dom() =~= b.dom());
    assert(a =~= b);
}

/// The flattened table of one locale: dotted keys and their template strings.
/// Pairs are kept in insertion order; where a key occurs twice the later pair
/// wins, both in the model and in lookups.
pub struct TranslationTable {
    entries: Vec<(String, String)>,
}

/// The pairs of a list of string pairs, as character sequences.
pub open spec fn pairs_view(s: Seq<(String, String)>) -> Seq<(Seq<char>, Seq<char>)> {
    s.map_values(|p: (String, String)| (p.0@, p.1@))
}

impl View for TranslationTable {
    type V = Map<Seq<char>, Seq<char>>;

    closed spec fn view(&self) -> Map<Seq<char>, Seq<char>> {
        insert_all(Map::empty(), pairs_view(self.entries@))
    }
}

impl TranslationTable {
    /// The pairs written into the table, in order, overwritten ones included.
    pub closed spec fn pairs(&self) -> Seq<(Seq<char>, Seq<char>)> {
        pairs_view(self.entries@)
    }

    /// Was some key written more than once (the later value having won)?
    pub fn has_overwritten_key(&self) -> (r: bool)
        ensures
            r == !keys_distinct(self.pairs()),
    {
        let ghost pv = pairs_view(self.entries@);
        let n = self.entries.len();
        let mut i: usize = 0;
        while i < n
            invariant
                n == self.entries@.len(),
                pv == pairs_view(self.entries@),
                i <= n,
                forall|a: int, b: int| 0 <= a < i && 0 <= b < n && a != b ==> pv[a].0 != pv[b].0,
            decreases n - i,
        {
            let mut j: usize = 0;
            while j < n
                invariant
                    n == self.entries@.len(),
                    pv == pairs_view(self.entries@),
                    i < n,
                    j <= n,
                    forall|b: int| 0 <= b < j && b != i ==> pv[i as int].0 != pv[b].0,
                decreases n - j,
            {
                if j != i && self.entries[i].0 == self.entries[j].0 {
                    assert(pv[i as int].0 == pv[j as int].0);
                    return true;
                }
                j = j + 1;
            }
            i = i + 1;
        }
        false
    }

    /// An empty table.
    pub fn new() -> (r: TranslationTable)
        ensures
            r@ == Map::<Seq<char>, Seq<char>>::empty(),
    {
        TranslationTable { entries: Vec::new() }
    }

    /// A table holding the given pairs, a later pair overwriting an earlier one
    /// with the same key.
    pub fn from_pairs(pairs: Vec<(String, String)>) -> (r: TranslationTable)
        ensures
            r@ == insert_all(Map::empty(), pairs_view(pairs@)),
    {
        TranslationTable { entries: pairs }
    }

    /// Sets `key` to `value`, replacing any earlier value.
    pub fn insert(&mut self, key: String, value: String)
        ensures
            final(self)@ == old(self)@.insert(key@, value@),
    {
        let ghost s = self.entries@;
        self.entries.push((key, value));
        proof {
            assert(pairs_view(self.entries@) =~= pairs_view(s).push((key@, value@)));
            lemma_insert_all_push(Map::empty(), pairs_view(s), (key@, value@));
        }
    }

    /// The value stored for `key`, if any.
    pub fn get(&self, key: &String) -> (r: Option<&String>)
        ensures
            match r {
                Some(v) => self@.contains_key(key@) && self@[key@] == v@,
                None => !self@.contains_key(key@),
            },
    {
        let ghost pv = pairs_view(self.entries@);
        let mut i: usize = self.entries.len();
        while i > 0
            invariant
                i <= self.entries@.len(),
                pv == pairs_view(self.entries@),
                forall|j: int| i <= j < pv.len() ==> pv[j].0 != key@,
            decreases i,
        {
            i = i - 1;
            if self.entries[i].0 == *key {
                proof {
                    lemma_insert_all_last(Map::empty(), pv, key@, i as int);
                }
                return Some(&self.entries[i].1);
            }
        }
        proof {
            lemma_insert_all_contains(Map::empty(), pv, key@);
            if has_key(pv, key@) {
                let j = choose|j: int| 0 <= j < pv.len() && #[trigger] pv[j].0 == key@;
            }
        }
        None
    }

    /// Does the table hold no key?
    pub fn is_empty(&self) -> (r: bool)
        ensures
            r == (self@ == Map::<Seq<char>, Seq<char>>::empty()),
    {
        proof {
            let pv = pairs_view(self.entries@);
            if pv.len() > 0 {
                lemma_insert_all_contains(Map::empty(), pv, pv[0].0);
                assert(has_key(pv, pv[0].0));
                assert(self@.contains_key(pv[0].0));
            } else {
                assert(self@ =~= Map::<Seq<char>, Seq<char>>::empty());
            }
        }
        self.entries.len() == 0
    }
}

} // verus!
