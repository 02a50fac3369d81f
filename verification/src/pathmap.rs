//! Maps keyed by relative path, kept sorted by path in `String` order (code
//! point order, which is also UTF-8 byte order), each path once. Sorted order
//! is what lets a sync visit parents before their children.

use vstd::prelude::*;
use crate::text::{chars_of, copy_str};

verus! {

/// `a < b` in `String` order.
pub open spec fn lex_lt(a: Seq<char>, b: Seq<char>) -> bool
    decreases a.len(),
{
    if a.len() == 0 {
        b.len() > 0
    } else if b.len() == 0 {
        false
    } else if a[0] != b[0] {
        a[0] < b[0]
    } else {
        lex_lt(a.drop_first(), b.drop_first())
    }
}

pub proof fn lemma_lex_irrefl(a: Seq<char>)
    ensures
        !lex_lt(a, a),
    decreases a.len(),
{
    if a.len() > 0 {
        lemma_lex_irrefl(a.drop_first());
    }
}

pub proof fn lemma_lex_trans(a: Seq<char>, b: Seq<char>, c: Seq<char>)
    requires
        lex_lt(a, b),
        lex_lt(b, c),
    ensures
        lex_lt(a, c),
    decreases a.len(),
{
    if a.len() > 0 && b.len() > 0 && c.len() > 0 && a[0] == b[0] && b[0] == c[0] {
        lemma_lex_trans(a.drop_first(), b.drop_first(), c.drop_first());
    }
}

pub proof fn lemma_lex_total(a: Seq<char>, b: Seq<char>)
    ensures
        a == b || lex_lt(a, b) || lex_lt(b, a),
    decreases a.len(),
{
    if a.len() > 0 && b.len() > 0 && a[0] == b[0] {
        lemma_lex_total(a.drop_first(), b.drop_first());
        if a.drop_first() == b.drop_first() {
            assert(a =~= seq![a[0]] + a.drop_first());
            assert(b =~= seq![b[0]] + b.drop_first());
        }
    } else if a.len() == 0 && b.len() == 0 {
        assert(a =~= b);
    }
}

pub proof fn lemma_lex_asym(a: Seq<char>, b: Seq<char>)
    requires
        lex_lt(a, b),
    ensures
        !lex_lt(b, a),
{
    if lex_lt(b, a) {
        lemma_lex_trans(a, b, a);
        lemma_lex_irrefl(a);
    }
}

/// `a < b` in `String` order.
pub fn lex_lt_exec(a: &str, b: &str) -> (r: bool)
    ensures
        r == lex_lt(a@, b@),
{
    let va = chars_of(a);
    let vb = chars_of(b);
    let mut i: usize = 0;
    proof {
        assert(va@.skip(0) =~= va@);
        assert(vb@.skip(0) =~= vb@);
    }
    while i < va.len() && i < vb.len() && va[i] == vb[i]
        invariant
            i <= va@.len(),
            i <= vb@.len(),
            lex_lt(a@, b@) == lex_lt(va@.skip(i as int), vb@.skip(i as int)),
            va@ == a@,
            vb@ == b@,
        decreases va.len() - i,
    {
        proof {
            assert(va@.skip(i as int).drop_first() =~= va@.skip(i + 1));
            assert(vb@.skip(i as int).drop_first() =~= vb@.skip(i + 1));
            assert(va@.skip(i as int)[0] == va@[i as int]);
            assert(vb@.skip(i as int)[0] == vb@[i as int]);
        }
        i = i + 1;
    }
    proof {
        if i < va@.len() {
            assert(va@.skip(i as int)[0] == va@[i as int]);
        }
        if i < vb@.len() {
            assert(vb@.skip(i as int)[0] == vb@[i as int]);
        }
    }
    if i == va.len() {
        i < vb.len()
    } else if i == vb.len() {
        false
    } else {
        va[i] < vb[i]
    }
}

/// One path and its value.
pub struct PathEntry<V> {
    pub path: String,
    pub value: V,
}

/// Paths of a sequence of entries.
pub open spec fn paths_of<V>(s: Seq<PathEntry<V>>) -> Seq<Seq<char>> {
    Seq::new(s.len(), |i: int| s[i].path@)
}

pub open spec fn strictly_sorted(s: Seq<Seq<char>>) -> bool {
    forall|i: int, j: int| 0 <= i < j < s.len() ==> lex_lt(#[trigger] s[i], #[trigger] s[j])
}

/// The value recorded for `k` (the last entry with that path).
pub open spec fn lookup<V>(s: Seq<PathEntry<V>>, k: Seq<char>) -> Option<V>
    decreases s.len(),
{
    if s.len() == 0 {
        None
    } else if s.last().path@ == k {
        Some(s.last().value)
    } else {
        lookup(s.drop_last(), k)
    }
}

pub open spec fn has_path<V>(s: Seq<PathEntry<V>>, k: Seq<char>) -> bool {
    exists|i: int| 0 <= i < s.len() && s[i].path@ == k
}

pub proof fn lemma_lookup<V>(s: Seq<PathEntry<V>>, k: Seq<char>)
    ensures
        lookup(s, k) is Some <==> has_path(s, k),
        strictly_sorted(paths_of(s)) ==> forall|i: int| 0 <= i < s.len() && s[i].path@ == k ==> lookup(s, k) == Some(
            s[i].value,
        ),
    decreases s.len(),
{
    if s.len() > 0 {
        let t = s.drop_last();
        lemma_lookup(t, k);
        if s.last().path@ != k {
            if has_path(s, k) {
                let i = choose|i: int| 0 <= i < s.len() && s[i].path@ == k;
                assert(t[i] == s[i]);
            }
            if has_path(t, k) {
                let i = choose|i: int| 0 <= i < t.len() && t[i].path@ == k;
                assert(s[i] == t[i]);
            }
        }
        if strictly_sorted(paths_of(s)) {
            assert(strictly_sorted(paths_of(t))) by {
                assert forall|i: int, j: int| 0 <= i < j < paths_of(t).len() implies lex_lt(
                    #[trigger] paths_of(t)[i],
                    #[trigger] paths_of(t)[j],
                ) by {
                    assert(paths_of(s)[i] == paths_of(t)[i]);
                    assert(paths_of(s)[j] == paths_of(t)[j]);
                }
            }
            assert forall|i: int| 0 <= i < s.len() && s[i].path@ == k implies lookup(s, k) == Some(s[i].value) by {
                if i < s.len() - 1 {
                    assert(t[i] == s[i]);
                    assert(paths_of(s)[i] == s[i].path@);
                    assert(paths_of(s)[s.len() - 1] == s.last().path@);
                    lemma_lex_irrefl(k);
                }
            }
        }
    }
}

/// A map from relative path to `V`, sorted by path with each path once.
pub struct PathMap<V> {
    pub entries: Vec<PathEntry<V>>,
}

impl<V> PathMap<V> {
    pub open spec fn wf(&self) -> bool {
        strictly_sorted(paths_of(self.entries@))
    }

    /// The value recorded for `k`.
    pub open spec fn get_spec(&self, k: Seq<char>) -> Option<V> {
        lookup(self.entries@, k)
    }

    /// The recorded paths, in order.
    pub open spec fn paths(&self) -> Seq<Seq<char>> {
        paths_of(self.entries@)
    }

    /// An empty map.
    pub fn new() -> (m: Self)
        ensures
            m.wf(),
            m.entries@.len() == 0,
            forall|k: Seq<char>| m.get_spec(k) is None,
    {
        let m = PathMap { entries: Vec::new() };
        proof {
            assert(paths_of(m.entries@) =~= Seq::<Seq<char>>::empty());
        }
        m
    }

    /// Number of recorded paths.
    pub fn len(&self) -> (n: usize)
        ensures
            n == self.entries@.len(),
    {
        self.entries.len()
    }

    /// Where `k` is, or where it would go.
    fn search(&self, k: &str) -> (r: (bool, usize))
        requires
            self.wf(),
        ensures
            r.1 <= self.entries@.len(),
            r.0 ==> r.1 < self.entries@.len() && self.entries@[r.1 as int].path@ == k@,
            forall|i: int| 0 <= i < r.1 && i < self.entries@.len() ==> lex_lt(#[trigger] self.entries@[i].path@, k@),
            !r.0 ==> forall|i: int| r.1 <= i < self.entries@.len() ==> lex_lt(k@, #[trigger] self.entries@[i].path@),
    {
        let ghost ps = paths_of(self.entries@);
        let mut lo: usize = 0;
        let mut hi: usize = self.entries.len();
        while lo < hi
            invariant
                lo <= hi <= self.entries@.len(),
                ps == paths_of(self.entries@),
                strictly_sorted(ps),
                forall|i: int| 0 <= i < lo ==> lex_lt(#[trigger] self.entries@[i].path@, k@),
                forall|i: int| hi <= i < self.entries@.len() ==> lex_lt(k@, #[trigger] self.entries@[i].path@),
            decreases hi - lo,
        {
            let mid = lo + (hi - lo) / 2;
            let p = self.entries[mid].path.as_str();
            proof {
                assert(ps[mid as int] == self.entries@[mid as int].path@);
            }
            if lex_lt_exec(p, k) {
                proof {
                    assert forall|i: int| 0 <= i < mid + 1 implies lex_lt(#[trigger] self.entries@[i].path@, k@) by {
                        if i < mid {
                            assert(ps[i] == self.entries@[i].path@);
                            assert(lex_lt(ps[i], ps[mid as int]));
                            lemma_lex_trans(ps[i], ps[mid as int], k@);
                        }
                    }
                }
                lo = mid + 1;
            } else if crate::text::str_eq(p, k) {
                proof {
                    assert forall|i: int| 0 <= i < mid implies lex_lt(#[trigger] self.entries@[i].path@, k@) by {
                        assert(ps[i] == self.entries@[i].path@);
                        assert(lex_lt(ps[i], ps[mid as int]));
                    }
                }
                return (true, mid);
            } else {
                proof {
                    lemma_lex_total(p@, k@);
                    assert forall|i: int| mid <= i < self.entries@.len() implies lex_lt(k@, #[trigger] self.entries@[i].path@) by {
                        if i > mid {
                            assert(ps[i] == self.entries@[i].path@);
                            assert(lex_lt(ps[mid as int], ps[i]));
                            lemma_lex_trans(k@, ps[mid as int], ps[i]);
                        }
                    }
                }
                hi = mid;
            }
        }
        (false, lo)
    }

    /// The value recorded for `key`.
    pub fn get(&self, key: &str) -> (r: Option<&V>)
        requires
            self.wf(),
        ensures
            r matches Some(v) ==> self.get_spec(key@) == Some(*v),
            r is None ==> self.get_spec(key@) is None,
    {
        proof {
            lemma_lookup(self.entries@, key@);
        }
        let (found, i) = self.search(key);
        if found {
            Some(&self.entries[i].value)
        } else {
            proof {
                assert forall|x: int| 0 <= x < self.entries@.len() implies self.entries@[x].path@ != key@ by {
                    lemma_lex_irrefl(key@);
                }
            }
            None
        }
    }

    /// Record `value` for `key`, replacing any previous value.
    pub fn insert(&mut self, key: &str, value: V)
        requires
            old(self).wf(),
        ensures
            final(self).wf(),
            final(self).get_spec(key@) == Some(value),
            forall|k: Seq<char>| k != key@ ==> final(self).get_spec(k) == old(self).get_spec(k),
            final(self).entries@.len() == old(self).entries@.len() + if has_path(old(self).entries@, key@) {
                0int
            } else {
                1int
            },
    {
        let (found, i) = self.search(key);
        let ghost o = self.entries@;
        proof {
            lemma_lookup(o, key@);
        }
        let e = PathEntry { path: copy_str(key), value };
        if found {
            self.entries.set(i, e);
            proof {
                let n = self.entries@;
                assert(n == o.update(i as int, e));
                assert(paths_of(n) =~= paths_of(o));
                lemma_lookup(n, key@);
                assert(n[i as int].path@ == key@);
                assert forall|k: Seq<char>| k != key@ implies lookup(n, k) == lookup(o, k) by {
                    lemma_lookup(n, k);
                    lemma_lookup(o, k);
                    if has_path(o, k) {
                        let x = choose|x: int| 0 <= x < o.len() && o[x].path@ == k;
                        assert(n[x] == o[x]);
                    }
                    if has_path(n, k) {
                        let x = choose|x: int| 0 <= x < n.len() && n[x].path@ == k;
                        assert(n[x] == o[x]);
                    }
                }
            }
        } else {
            self.entries.insert(i, e);
            proof {
                let n = self.entries@;
                assert(n.len() == o.len() + 1);
                assert forall|x: int| 0 <= x < i implies n[x] == o[x] by {}
                assert forall|x: int| i < x < n.len() implies n[x] == o[x - 1] by {}
                assert(n[i as int] == e);
                assert(strictly_sorted(paths_of(n))) by {
                    assert forall|a: int, b: int| 0 <= a < b < paths_of(n).len() implies lex_lt(
                        #[trigger] paths_of(n)[a],
                        #[trigger] paths_of(n)[b],
                    ) by {
                        assert(paths_of(n)[a] == n[a].path@);
                        assert(paths_of(n)[b] == n[b].path@);
                        if b < i {
                            assert(paths_of(o)[a] == o[a].path@);
                            assert(paths_of(o)[b] == o[b].path@);
                        } else if b == i {
                        } else if a == i {
                        } else if a < i {
                            lemma_lex_trans(o[a].path@, key@, o[b - 1].path@);
                        } else {
                            assert(paths_of(o)[a - 1] == o[a - 1].path@);
                            assert(paths_of(o)[b - 1] == o[b - 1].path@);
                        }
                    }
                }
                lemma_lookup(n, key@);
                assert forall|x: int| 0 <= x < o.len() implies o[x].path@ != key@ by {
                    lemma_lex_irrefl(key@);
                }
                assert(!has_path(o, key@));
                assert forall|k: Seq<char>| k != key@ implies lookup(n, k) == lookup(o, k) by {
                    lemma_lookup(n, k);
                    lemma_lookup(o, k);
                    if has_path(o, k) {
                        let x = choose|x: int| 0 <= x < o.len() && o[x].path@ == k;
                        if x < i {
                            assert(n[x] == o[x]);
                        } else {
                            assert(n[x + 1] == o[x]);
                        }
                    }
                    if has_path(n, k) {
                        let x = choose|x: int| 0 <= x < n.len() && n[x].path@ == k;
                        if x < i {
                            assert(n[x] == o[x]);
                        } else if x > i {
                            assert(n[x] == o[x - 1]);
                        }
                    }
                }
            }
        }
    }

    /// Remove `key`, returning its value.
    pub fn remove(&mut self, key: &str) -> (r: Option<V>)
        requires
            old(self).wf(),
        ensures
            final(self).wf(),
            r == old(self).get_spec(key@),
            final(self).get_spec(key@) is None,
            forall|k: Seq<char>| k != key@ ==> final(self).get_spec(k) == old(self).get_spec(k),
    {
        let (found, i) = self.search(key);
        let ghost o = self.entries@;
        proof {
            lemma_lookup(o, key@);
        }
        if !found {
            proof {
                assert forall|x: int| 0 <= x < o.len() implies o[x].path@ != key@ by {
                    lemma_lex_irrefl(key@);
                }
            }
            return None;
        }
        let e = self.entries.remove(i);
        proof {
            let n = self.entries@;
            assert(n.len() == o.len() - 1);
            assert forall|x: int| 0 <= x < i implies n[x] == o[x] by {}
            assert forall|x: int| i <= x < n.len() implies n[x] == o[x + 1] by {}
            assert(strictly_sorted(paths_of(n))) by {
                assert forall|a: int, b: int| 0 <= a < b < paths_of(n).len() implies lex_lt(
                    #[trigger] paths_of(n)[a],
                    #[trigger] paths_of(n)[b],
                ) by {
                    assert(paths_of(n)[a] == n[a].path@);
                    assert(paths_of(n)[b] == n[b].path@);
                    let oa = if a < i { a } else { a + 1 };
                    let ob = if b < i { b } else { b + 1 };
                    assert(paths_of(o)[oa] == o[oa].path@);
                    assert(paths_of(o)[ob] == o[ob].path@);
                }
            }
            lemma_lookup(n, key@);
            assert forall|x: int| 0 <= x < n.len() implies n[x].path@ != key@ by {
                let ox = if x < i { x } else { x + 1 };
                assert(paths_of(o)[ox] == o[ox].path@);
                assert(paths_of(o)[i as int] == o[i as int].path@);
                lemma_lex_irrefl(key@);
            }
            assert forall|k: Seq<char>| k != key@ implies lookup(n, k) == lookup(o, k) by {
                lemma_lookup(n, k);
                lemma_lookup(o, k);
                if has_path(o, k) {
                    let x = choose|x: int| 0 <= x < o.len() && o[x].path@ == k;
                    if x < i {
                        assert(n[x] == o[x]);
                    } else {
                        assert(x != i);
                        assert(n[x - 1] == o[x]);
                    }
                }
                if has_path(n, k) {
                    let x = choose|x: int| 0 <= x < n.len() && n[x].path@ == k;
                    if x < i {
                        assert(n[x] == o[x]);
                    } else {
                        assert(n[x] == o[x + 1]);
                    }
                }
            }
        }
        Some(e.value)
    }

    /// Remove every entry.
    pub fn clear(&mut self)
        ensures
            final(self).wf(),
            final(self).entries@.len() == 0,
            forall|k: Seq<char>| final(self).get_spec(k) is None,
    {
        self.entries.clear();
        proof {
            assert(paths_of(self.entries@) =~= Seq::<Seq<char>>::empty());
        }
    }
}

} // verus!
