//! `{name}` placeholder substitution in resolved template strings.
//!
//! A template is read once, left to right. At each position, a parameter whose
//! placeholder `{name}` is spelt there matches; where several match (one name
//! then reads `a`, another `a}b`), the longest name wins, and of pairs with the
//! same name the first. The matching value is put out and reading goes on after
//! the placeholder; otherwise one character is copied. Inserted values are never
//! read again, so the result does not depend on the order of parameters with
//! distinct names.
use vstd::prelude::*;
use crate::table::keys_distinct;

verus! {

/// The placeholder text for a parameter name: `{name}`.
pub open spec fn placeholder(name: Seq<char>) -> Seq<char> {
    seq!['{'] + name + seq!['}']
}

/// Does `t` begin with the placeholder of `name`?
pub open spec fn opens(t: Seq<char>, name: Seq<char>) -> bool {
    name.len() + 2 <= t.len() && t.subrange(0, name.len() + 2 as int) == placeholder(name)
}

/// The length of the name of a matched pair (zero where none matched).
pub open spec fn name_len(m: Option<(Seq<char>, Seq<char>)>) -> nat {
    match m {
        Some(p) => p.0.len(),
        None => 0,
    }
}

/// The parameter whose placeholder `t` begins with: of those, the one with the
/// longest name, and of pairs with that name the first.
pub open spec fn best_match(t: Seq<char>, params: Seq<(Seq<char>, Seq<char>)>) -> Option<(Seq<char>, Seq<char>)>
    decreases params.len(),
{
    if params.len() == 0 {
        None
    } else {
        let rest = best_match(t, params.drop_first());
        if opens(t, params[0].0) && (rest is None || name_len(rest) <= params[0].0.len()) {
            Some(params[0])
        } else {
            rest
        }
    }
}

/// The template `t` with its placeholders filled from `params` in one
/// left-to-right pass, as the module describes; all other text, placeholders
/// without a parameter included, is kept as it is.
pub open spec fn fill(t: Seq<char>, params: Seq<(Seq<char>, Seq<char>)>) -> Seq<char>
    decreases t.len(),
{
    if t.len() == 0 {
        Seq::empty()
    } else if best_match(t, params) is Some && name_len(best_match(t, params)) + 2 <= t.len() {
        let p = best_match(t, params)->0;
        p.1 + fill(t.subrange(p.0.len() + 2 as int, t.len() as int), params)
    } else {
        seq![t[0]] + fill(t.subrange(1, t.len() as int), params)
    }
}

/// With no parameters a template comes back unchanged.
pub proof fn lemma_fill_no_params(t: Seq<char>)
    ensures
        fill(t, Seq::empty()) == t,
    decreases t.len(),
{
    if t.len() > 0 {
        lemma_fill_no_params(t.subrange(1, t.len() as int));
        assert(seq![t[0]] + t.subrange(1, t.len() as int) =~= t);
    }
}

/// What `best_match` picks: a pair of `params` whose placeholder `t` begins
/// with, and no such pair has a longer name.
proof fn lemma_best_match(t: Seq<char>, params: Seq<(Seq<char>, Seq<char>)>)
    ensures
        match best_match(t, params) {
            Some(q) => params.contains(q) && opens(t, q.0)
                && forall|k: int| 0 <= k < params.len() && opens(t, #[trigger] params[k].0) ==> params[k].0.len() <= q.0.len(),
            None => forall|k: int| 0 <= k < params.len() ==> !opens(t, #[trigger] params[k].0),
        },
    decreases params.len(),
{
    if params.len() > 0 {
        let d = params.drop_first();
        lemma_best_match(t, d);
        assert(params[0] == params[0]);
        assert forall|k: int| 1 <= k < params.len() implies #[trigger] params[k] == d[k - 1] by {}
        if let Some(q) = best_match(t, d) {
            let i = choose|i: int| 0 <= i < d.len() && d[i] == q;
            assert(params[i + 1] == q);
        }
    }
}

/// Two names whose placeholders both begin `t` and that have the same length
/// are the same name.
proof fn lemma_opens_same_len(t: Seq<char>, a: Seq<char>, b: Seq<char>)
    requires
        opens(t, a),
        opens(t, b),
        a.len() == b.len(),
    ensures
        a == b,
{
    assert forall|i: int| 0 <= i < a.len() implies a[i] == b[i] by {
        assert(placeholder(a)[i + 1] == t[i + 1]);
        assert(placeholder(b)[i + 1] == t[i + 1]);
    }
    assert(a =~= b);
}

/// `fill` reads the parameters only through `best_match`.
proof fn lemma_fill_congruent(t: Seq<char>, p1: Seq<(Seq<char>, Seq<char>)>, p2: Seq<(Seq<char>, Seq<char>)>)
    requires
        forall|u: Seq<char>| best_match(u, p1) == best_match(u, p2),
    ensures
        fill(t, p1) == fill(t, p2),
    decreases t.len(),
{
    if t.len() > 0 {
        assert(best_match(t, p1) == best_match(t, p2));
        if best_match(t, p1) is Some && name_len(best_match(t, p1)) + 2 <= t.len() {
            let p = best_match(t, p1)->0;
            lemma_fill_congruent(t.subrange(p.0.len() + 2 as int, t.len() as int), p1, p2);
        }
        lemma_fill_congruent(t.subrange(1, t.len() as int), p1, p2);
    }
}

/// Filling a template does not depend on the order of the parameters, where
/// their names are distinct: two such lists holding the same pairs give the same
/// result.
pub proof fn law_fill_order_independent(
    t: Seq<char>,
    p1: Seq<(Seq<char>, Seq<char>)>,
    p2: Seq<(Seq<char>, Seq<char>)>,
)
    requires
        keys_distinct(p1),
        keys_distinct(p2),
        p1.to_set() == p2.to_set(),
    ensures
        fill(t, p1) == fill(t, p2),
{
    assert forall|u: Seq<char>| best_match(u, p1) == best_match(u, p2) by {
        lemma_best_match(u, p1);
        lemma_best_match(u, p2);
        match (best_match(u, p1), best_match(u, p2)) {
            (Some(q1), Some(q2)) => {
                assert(p1.to_set().contains(q1) && p2.to_set().contains(q2));
                let i1 = choose|i: int| 0 <= i < p2.len() && p2[i] == q1;
                let i2 = choose|i: int| 0 <= i < p2.len() && p2[i] == q2;
                let j2 = choose|i: int| 0 <= i < p1.len() && p1[i] == q2;
                assert(opens(u, p2[i1].0));
                assert(opens(u, p1[j2].0));
                lemma_opens_same_len(u, q1.0, q2.0);
                assert(p2[i1].0 == p2[i2].0);
            },
            (Some(q1), None) => {
                assert(p1.to_set().contains(q1));
                let i1 = choose|i: int| 0 <= i < p2.len() && p2[i] == q1;
                assert(opens(u, p2[i1].0));
            },
            (None, Some(q2)) => {
                assert(p2.to_set().contains(q2));
                let j2 = choose|i: int| 0 <= i < p1.len() && p1[i] == q2;
                assert(opens(u, p1[j2].0));
            },
            (None, None) => {},
        }
    }
    lemma_fill_congruent(t, p1, p2);
}

/// The characters of `s`.
fn chars_of(s: &str) -> (r: Vec<char>)
    ensures
        r@ == s@,
{
    let n = s.unicode_len();
    let mut r: Vec<char> = Vec::new();
    let mut i: usize = 0;
    while i < n
        invariant
            n == s@.len(),
            i <= n,
            r@ == s@.subrange(0, i as int),
        decreases n - i,
    {
        let c = s.get_char(i);
        r.push(c);
        i = i + 1;
        assert(r@ =~= s@.subrange(0, i as int));
    }
    assert(r@ =~= s@);
    r
}

/// Do the characters of `s` from `from` to `to` spell `word`?
fn spells(s: &Vec<char>, from: usize, to: usize, word: &Vec<char>) -> (r: bool)
    requires
        from <= to <= s@.len(),
    ensures
        r == (s@.subrange(from as int, to as int) == word@),
{
    if to - from != word.len() {
        return false;
    }
    let mut j: usize = 0;
    while j < word.len()
        invariant
            from <= to <= s@.len(),
            to - from == word@.len(),
            j <= word@.len(),
            s@.subrange(from as int, from + j) == word@.subrange(0, j as int),
        decreases word@.len() - j,
    {
        if s[from + j] != word[j] {
            assert(s@.subrange(from as int, to as int)[j as int] != word@[j as int]);
            return false;
        }
        j = j + 1;
        assert(s@.subrange(from as int, from + j) =~= word@.subrange(0, j as int));
    }
    assert(word@.subrange(0, j as int) =~= word@);
    true
}

/// Does the placeholder of `name` begin at position `i` of `s`?
fn opens_at(s: &Vec<char>, i: usize, name: &Vec<char>) -> (r: bool)
    requires
        i <= s@.len(),
    ensures
        r == opens(s@.subrange(i as int, s@.len() as int), name@),
{
    let ghost rest = s@.subrange(i as int, s@.len() as int);
    let n = s.len();
    let m = name.len();
    if m > n - i || n - i - m < 2 {
        return false;
    }
    let ghost ph = rest.subrange(0, m + 2);
    if s[i] != '{' {
        assert(ph[0] != placeholder(name@)[0]);
        return false;
    }
    if s[i + 1 + m] != '}' {
        assert(ph[m + 1] != placeholder(name@)[m + 1]);
        return false;
    }
    let inner = spells(s, i + 1, i + 1 + m, name);
    if inner {
        assert(ph =~= placeholder(name@));
    } else {
        proof {
            if ph == placeholder(name@) {
                assert(s@.subrange(i + 1, i + 1 + m) =~= name@) by {
                    assert forall|k: int| 0 <= k < m implies s@.subrange(i + 1, i + 1 + m)[k] == name@[k] by {
                        assert(ph[k + 1] == placeholder(name@)[k + 1]);
                    }
                }
            }
        }
    }
    inner
}

/// The index of the pair that `best_match` picks at position `i` of `s`, with
/// the length of its name.
fn best_at(s: &Vec<char>, i: usize, params: &Vec<(String, String)>) -> (r: Option<(usize, usize)>)
    requires
        i <= s@.len(),
    ensures
        match r {
            Some((k, len)) => k < params@.len() && len == params@[k as int].0@.len()
                && best_match(s@.subrange(i as int, s@.len() as int), params@.map_values(|p: (String, String)| (p.0@, p.1@)))
                    == Some((params@[k as int].0@, params@[k as int].1@)),
            None => best_match(s@.subrange(i as int, s@.len() as int), params@.map_values(|p: (String, String)| (p.0@, p.1@)))
                is None,
        },
{
    let ghost pv = params@.map_values(|p: (String, String)| (p.0@, p.1@));
    let ghost rest = s@.subrange(i as int, s@.len() as int);
    let n = params.len();
    let mut k: usize = n;
    let mut cur: Option<(usize, usize)> = None;
    assert(pv.subrange(n as int, n as int) =~= Seq::<(Seq<char>, Seq<char>)>::empty());
    while k > 0
        invariant
            i <= s@.len(),
            k <= n,
            n == params@.len(),
            pv == params@.map_values(|p: (String, String)| (p.0@, p.1@)),
            rest == s@.subrange(i as int, s@.len() as int),
            match cur {
                Some((c, len)) => c < n && len == pv[c as int].0.len()
                    && best_match(rest, pv.subrange(k as int, n as int)) == Some(pv[c as int]),
                None => best_match(rest, pv.subrange(k as int, n as int)) is None,
            },
        decreases k,
    {
        k = k - 1;
        let name = chars_of(params[k].0.as_str());
        let ghost sub = pv.subrange(k as int, n as int);
        assert(sub.drop_first() =~= pv.subrange(k + 1, n as int));
        assert(sub[0] == pv[k as int]);
        if opens_at(s, i, &name) {
            let longer = match cur {
                Some((_, len)) => len <= name.len(),
                None => true,
            };
            if longer {
                cur = Some((k, name.len()));
            }
        }
    }
    assert(pv.subrange(0, n as int) =~= pv);
    cur
}

/// The template `t` with its placeholders filled from `params`, as `fill` says.
pub fn substitute_params(t: &str, params: &Vec<(String, String)>) -> (r: String)
    ensures
        r@ == fill(t@, params@.map_values(|p: (String, String)| (p.0@, p.1@))),
{
    let ghost pv = params@.map_values(|p: (String, String)| (p.0@, p.1@));
    let ghost whole = fill(t@, pv);
    let sc = chars_of(t);
    let n = sc.len();
    let mut out = String::new();
    let mut start: usize = 0;
    let mut i: usize = 0;
    assert(t@.subrange(0, n as int) =~= t@);
    while i < n
        invariant
            sc@ == t@,
            n == t@.len(),
            pv == params@.map_values(|p: (String, String)| (p.0@, p.1@)),
            start <= i <= n,
            out@ + t@.subrange(start as int, i as int) + fill(t@.subrange(i as int, n as int), pv) == whole,
        decreases n - i,
    {
        let ghost rest = t@.subrange(i as int, n as int);
        match best_at(&sc, i, params) {
            Some((k, len)) => {
                let ghost q = pv[k as int];
                assert(q == (params@[k as int].0@, params@[k as int].1@));
                proof {
                    lemma_best_match(rest, pv);
                }
                assert(len + 2 <= rest.len());
                let ghost tail = fill(t@.subrange(i + len + 2, n as int), pv);
                assert(rest.subrange(len + 2, rest.len() as int) =~= t@.subrange(i + len + 2, n as int));
                assert(fill(rest, pv) == q.1 + tail);
                let ghost old_out = out@;
                let ghost mid = t@.subrange(start as int, i as int);
                let piece = t.substring_char(start, i);
                out.append(piece);
                out.append(params[k].1.as_str());
                assert(out@ == (old_out + mid) + q.1);
                i = i + len + 2;
                start = i;
                assert(t@.subrange(start as int, i as int) =~= Seq::<char>::empty());
                assert(out@ + t@.subrange(start as int, i as int) + tail =~= old_out + mid + (q.1 + tail));
            },
            None => {
                assert(rest.subrange(1, rest.len() as int) =~= t@.subrange(i + 1, n as int));
                assert(fill(rest, pv) == seq![rest[0]] + fill(t@.subrange(i + 1, n as int), pv));
                assert(t@.subrange(start as int, i as int) + seq![rest[0]] =~= t@.subrange(start as int, i + 1));
                assert(out@ + t@.subrange(start as int, i as int) + (seq![rest[0]] + fill(t@.subrange(i + 1, n as int), pv))
                    =~= out@ + t@.subrange(start as int, i + 1) + fill(t@.subrange(i + 1, n as int), pv));
                i = i + 1;
            },
        }
    }
    assert(t@.subrange(i as int, n as int) =~= Seq::<char>::empty());
    assert(out@ + t@.subrange(start as int, n as int) =~= whole);
    out.append(t.substring_char(start, n));
    out
}

} // verus!
