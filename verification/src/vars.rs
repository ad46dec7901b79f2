use vstd::prelude::*;

verus! {

/// An ordered mapping from variable name to string value: an association
/// list with unique keys, kept in first-insertion order.  Both the
/// resolved variable set of a profile and the live environment snapshot
/// are handed around as `VarMap`s.
#[derive(Debug)]
pub struct VarMap {
    pub pairs: Vec<(String, String)>,
}

/// The value bound to `k`: the first pair of the sequence keyed `k`.
pub open spec fn lookup(s: Seq<(Seq<char>, Seq<char>)>, k: Seq<char>) -> Option<Seq<char>>
    decreases s.len(),
{
    if s.len() == 0 {
        None
    } else if s[0].0 == k {
        Some(s[0].1)
    } else {
        lookup(s.drop_first(), k)
    }
}

/// The keys of an association sequence, in order.
pub open spec fn key_seq(s: Seq<(Seq<char>, Seq<char>)>) -> Seq<Seq<char>> {
    s.map_values(|p: (Seq<char>, Seq<char>)| p.0)
}

/// No key occurs twice.
pub open spec fn unique_keys(s: Seq<(Seq<char>, Seq<char>)>) -> bool {
    forall|i: int, j: int| 0 <= i < j < s.len() ==> s[i].0 != s[j].0
}

/// Insertion with overwrite: the first pair keyed `k` has its value
/// replaced in place; a fresh key is appended at the end.
pub open spec fn spec_insert(
    s: Seq<(Seq<char>, Seq<char>)>,
    k: Seq<char>,
    v: Seq<char>,
) -> Seq<(Seq<char>, Seq<char>)>
    decreases s.len(),
{
    if s.len() == 0 {
        seq![(k, v)]
    } else if s[0].0 == k {
        seq![(k, v)] + s.drop_first()
    } else {
        seq![s[0]] + spec_insert(s.drop_first(), k, v)
    }
}

impl View for VarMap {
    type V = Seq<(Seq<char>, Seq<char>)>;

    open spec fn view(&self) -> Seq<(Seq<char>, Seq<char>)> {
        self.pairs@.map_values(|p: (String, String)| (p.0@, p.1@))
    }
}

impl VarMap {
    /// Unique keys: the well-formedness every operation preserves.
    pub open spec fn wf(&self) -> bool {
        unique_keys(self@)
    }

    pub fn new() -> (r: VarMap)
        ensures
            r@ =~= Seq::<(Seq<char>, Seq<char>)>::empty(),
            r.wf(),
    {
        VarMap { pairs: Vec::new() }
    }

    pub fn len(&self) -> (n: usize)
        ensures
            n == self@.len(),
    {
        self.pairs.len()
    }

    /// Read-only lookup of the value bound to `key`.
    pub fn get(&self, key: &String) -> (r: Option<&String>)
        ensures
            match r {
                Some(v) => lookup(self@, key@) == Some(v@),
                None => lookup(self@, key@) is None,
            },
    {
        let n = self.pairs.len();
        let mut i: usize = 0;
        while i < n
            invariant
                n == self@.len(),
                i <= n,
                forall|j: int| 0 <= j < i ==> self@[j].0 != key@,
            decreases n - i,
        {
            if self.pairs[i].0 == *key {
                proof {
                    lemma_lookup_at(self@, key@, i as int);
                }
                return Some(&self.pairs[i].1);
            }
            i = i + 1;
        }
        proof {
            lemma_lookup_none(self@, key@);
        }
        None
    }

    /// Insert or overwrite: an existing key keeps its position and takes
    /// the new value; a new key goes to the end.
    pub fn insert(&mut self, key: String, value: String)
        ensures
            final(self)@ == spec_insert(old(self)@, key@, value@),
            old(self).wf() ==> final(self).wf(),
    {
        let ghost s0 = self@;
        let n = self.pairs.len();
        let mut i: usize = 0;
        while i < n
            invariant
                n == self@.len(),
                i <= n,
                s0 == old(self)@,
                self@ == s0,
                forall|j: int| 0 <= j < i ==> self@[j].0 != key@,
            decreases n - i,
        {
            if self.pairs[i].0 == *(&key) {
                let ghost ko = key@;
                let ghost vo = value@;
                self.pairs[i] = (key, value);
                proof {
                    assert(self@ =~= s0.update(i as int, (ko, vo)));
                    lemma_insert_found(s0, ko, vo, i as int);
                    if unique_keys(s0) {
                        assert forall|a: int, b: int|
                            0 <= a < b < self@.len() implies self@[a].0 != self@[b].0 by {
                            if a == i {
                                assert(s0[a].0 == ko && self@[b] == s0[b]);
                            } else if b == i {
                                assert(s0[b].0 == ko && self@[a] == s0[a]);
                            } else {
                                assert(self@[a] == s0[a] && self@[b] == s0[b]);
                            }
                        }
                    }
                }
                return ;
            }
            i = i + 1;
        }
        proof {
            lemma_insert_fresh(s0, key@, value@);
        }
        self.pairs.push((key, value));
        proof {
            assert(self@ =~= s0.push((key@, value@)));
            if unique_keys(s0) {
                assert forall|a: int, b: int| 0 <= a < b < self@.len() implies self@[a].0
                    != self@[b].0 by {
                    if b < s0.len() {
                    } else {
                        assert(self@[b].0 == key@);
                    }
                }
            }
        }
    }
}

/// Fold a sequence of pairs into an association sequence, inserting left
/// to right, so that a later pair overwrites an earlier one's value.
pub open spec fn insert_all(
    acc: Seq<(Seq<char>, Seq<char>)>,
    ps: Seq<(Seq<char>, Seq<char>)>,
) -> Seq<(Seq<char>, Seq<char>)>
    decreases ps.len(),
{
    if ps.len() == 0 {
        acc
    } else {
        insert_all(spec_insert(acc, ps[0].0, ps[0].1), ps.drop_first())
    }
}

/// The value of the last pair keyed `k`, if any.
pub open spec fn lookup_last(s: Seq<(Seq<char>, Seq<char>)>, k: Seq<char>) -> Option<Seq<char>>
    decreases s.len(),
{
    if s.len() == 0 {
        None
    } else {
        match lookup_last(s.drop_first(), k) {
            Some(v) => Some(v),
            None => if s[0].0 == k {
                Some(s[0].1)
            } else {
                None
            },
        }
    }
}

/// Lookup in an extended sequence: an earlier binding still wins; the
/// appended pair only binds a key that was absent.
pub proof fn lemma_lookup_push(
    s: Seq<(Seq<char>, Seq<char>)>,
    p: (Seq<char>, Seq<char>),
    k: Seq<char>,
)
    ensures
        lookup(s.push(p), k) == if lookup(s, k) is Some {
            lookup(s, k)
        } else if p.0 == k {
            Some(p.1)
        } else {
            None::<Seq<char>>
        },
    decreases s.len(),
{
    if s.len() == 0 {
        assert(s.push(p)[0] == p);
        assert(s.push(p).drop_first() =~= Seq::<(Seq<char>, Seq<char>)>::empty());
        if p.0 != k {
            assert(lookup(s.push(p).drop_first(), k) is None);
        }
    } else {
        assert(s.push(p)[0] == s[0]);
        assert(s.push(p).drop_first() =~= s.drop_first().push(p));
        lemma_lookup_push(s.drop_first(), p, k);
    }
}

/// Folding distributes over concatenation.
pub proof fn lemma_insert_all_concat(
    acc: Seq<(Seq<char>, Seq<char>)>,
    a: Seq<(Seq<char>, Seq<char>)>,
    b: Seq<(Seq<char>, Seq<char>)>,
)
    ensures
        insert_all(acc, a + b) == insert_all(insert_all(acc, a), b),
    decreases a.len(),
{
    if a.len() == 0 {
        assert(a + b =~= b);
    } else {
        assert((a + b)[0] == a[0]);
        assert((a + b).drop_first() =~= a.drop_first() + b);
        lemma_insert_all_concat(spec_insert(acc, a[0].0, a[0].1), a.drop_first(), b);
    }
}

/// Lookup in a fold: the last inserted pair for a key wins; a key never
/// inserted keeps the accumulator's binding.
pub proof fn lemma_lookup_insert_all(
    acc: Seq<(Seq<char>, Seq<char>)>,
    ps: Seq<(Seq<char>, Seq<char>)>,
    k: Seq<char>,
)
    ensures
        lookup(insert_all(acc, ps), k) == match lookup_last(ps, k) {
            Some(v) => Some(v),
            None => lookup(acc, k),
        },
    decreases ps.len(),
{
    if ps.len() > 0 {
        lemma_lookup_insert(acc, ps[0].0, ps[0].1, k);
        lemma_lookup_insert_all(spec_insert(acc, ps[0].0, ps[0].1), ps.drop_first(), k);
    }
}

/// If `s[i]` is the first pair keyed `k`, lookup returns its value.
pub proof fn lemma_lookup_at(s: Seq<(Seq<char>, Seq<char>)>, k: Seq<char>, i: int)
    requires
        0 <= i < s.len(),
        s[i].0 == k,
        forall|j: int| 0 <= j < i ==> s[j].0 != k,
    ensures
        lookup(s, k) == Some(s[i].1),
    decreases i,
{
    if i > 0 {
        lemma_lookup_at(s.drop_first(), k, i - 1);
    }
}

/// If no pair is keyed `k`, lookup returns nothing.
pub proof fn lemma_lookup_none(s: Seq<(Seq<char>, Seq<char>)>, k: Seq<char>)
    requires
        forall|j: int| 0 <= j < s.len() ==> s[j].0 != k,
    ensures
        lookup(s, k) is None,
    decreases s.len(),
{
    if s.len() > 0 {
        lemma_lookup_none(s.drop_first(), k);
    }
}

/// Overwriting the first occurrence of `k` is a pointwise update.
proof fn lemma_insert_found(s: Seq<(Seq<char>, Seq<char>)>, k: Seq<char>, v: Seq<char>, i: int)
    requires
        0 <= i < s.len(),
        s[i].0 == k,
        forall|j: int| 0 <= j < i ==> s[j].0 != k,
    ensures
        spec_insert(s, k, v) =~= s.update(i, (k, v)),
    decreases i,
{
    if i == 0 {
        assert(spec_insert(s, k, v) =~= s.update(0, (k, v)));
    } else {
        lemma_insert_found(s.drop_first(), k, v, i - 1);
        assert(spec_insert(s, k, v) =~= seq![s[0]] + s.drop_first().update(i - 1, (k, v)));
        assert(seq![s[0]] + s.drop_first().update(i - 1, (k, v)) =~= s.update(i, (k, v)));
    }
}

/// Inserting a key that is absent appends the pair.
proof fn lemma_insert_fresh(s: Seq<(Seq<char>, Seq<char>)>, k: Seq<char>, v: Seq<char>)
    requires
        forall|j: int| 0 <= j < s.len() ==> s[j].0 != k,
    ensures
        spec_insert(s, k, v) =~= s.push((k, v)),
    decreases s.len(),
{
    if s.len() > 0 {
        lemma_insert_fresh(s.drop_first(), k, v);
        assert(spec_insert(s, k, v) =~= seq![s[0]] + s.drop_first().push((k, v)));
        assert(seq![s[0]] + s.drop_first().push((k, v)) =~= s.push((k, v)));
    }
}

/// Lookup after insertion: the inserted key maps to the new value and
/// every other key is untouched.
pub proof fn lemma_lookup_insert(
    s: Seq<(Seq<char>, Seq<char>)>,
    k: Seq<char>,
    v: Seq<char>,
    k2: Seq<char>,
)
    ensures
        lookup(spec_insert(s, k, v), k2) == if k2 == k {
            Some(v)
        } else {
            lookup(s, k2)
        },
    decreases s.len(),
{
    if s.len() == 0 {
        let r = spec_insert(s, k, v);
        assert(r[0] == (k, v));
        assert(r.drop_first() =~= Seq::<(Seq<char>, Seq<char>)>::empty());
        if k2 == k {
            assert(lookup(r, k2) == Some(v));
        } else {
            assert(lookup(r.drop_first(), k2) is None);
            assert(lookup(r, k2) is None);
        }
    } else if s[0].0 == k {
        let r = spec_insert(s, k, v);
        assert(r[0] == (k, v));
        assert(r.drop_first() =~= s.drop_first());
        if k2 == k {
            assert(lookup(r, k2) == Some(v));
        } else {
            assert(lookup(r, k2) == lookup(r.drop_first(), k2));
            assert(lookup(s, k2) == lookup(s.drop_first(), k2));
        }
    } else {
        lemma_lookup_insert(s.drop_first(), k, v, k2);
        let r = spec_insert(s, k, v);
        assert(r[0] == s[0]);
        assert(r.drop_first() =~= spec_insert(s.drop_first(), k, v));
        if s[0].0 == k2 {
            assert(lookup(r, k2) == Some(s[0].1));
            assert(lookup(s, k2) == Some(s[0].1));
        } else {
            assert(lookup(r, k2) == lookup(spec_insert(s.drop_first(), k, v), k2));
            assert(lookup(s, k2) == lookup(s.drop_first(), k2));
        }
    }
}

/// Insertion preserves unique keys.
pub proof fn lemma_insert_unique(s: Seq<(Seq<char>, Seq<char>)>, k: Seq<char>, v: Seq<char>)
    requires
        unique_keys(s),
    ensures
        unique_keys(spec_insert(s, k, v)),
    decreases s.len(),
{
    if s.len() == 0 {
    } else if s[0].0 == k {
        let r = spec_insert(s, k, v);
        assert(r =~= seq![(k, v)] + s.drop_first());
        assert forall|a: int, b: int| 0 <= a < b < r.len() implies r[a].0 != r[b].0 by {
            if a == 0 {
                assert(r[b] == s[b]);
                assert(s[0].0 != s[b].0);
            } else {
                assert(r[a] == s[a] && r[b] == s[b]);
            }
        }
    } else {
        assert forall|a: int, b: int|
            0 <= a < b < s.drop_first().len() implies s.drop_first()[a].0
            != s.drop_first()[b].0 by {
            assert(s.drop_first()[a] == s[a + 1] && s.drop_first()[b] == s[b + 1]);
        }
        lemma_insert_unique(s.drop_first(), k, v);
        let r = spec_insert(s, k, v);
        let rr = spec_insert(s.drop_first(), k, v);
        assert(r =~= seq![s[0]] + rr);
        lemma_insert_key_set(s.drop_first(), k, v);
        assert forall|a: int, b: int| 0 <= a < b < r.len() implies r[a].0 != r[b].0 by {
            if a == 0 {
                assert(r[b] == rr[b - 1]);
                if rr[b - 1].0 == s[0].0 {
                    assert(key_seq(rr).contains(s[0].0)) by {
                        assert(key_seq(rr)[b - 1] == rr[b - 1].0);
                    }
                    if rr[b - 1].0 == k {
                    } else {
                        assert(key_seq(s.drop_first()).contains(s[0].0) || s[0].0 == k);
                        if key_seq(s.drop_first()).contains(s[0].0) {
                            let w = choose|w: int|
                                0 <= w < key_seq(s.drop_first()).len() && key_seq(s.drop_first())[w]
                                    == s[0].0;
                            assert(s[w + 1].0 == s[0].0);
                        }
                    }
                }
            } else {
                assert(r[a] == rr[a - 1] && r[b] == rr[b - 1]);
            }
        }
    }
}

/// Every key of the inserted sequence is a key of the original or `k`.
proof fn lemma_insert_key_set(s: Seq<(Seq<char>, Seq<char>)>, k: Seq<char>, v: Seq<char>)
    ensures
        forall|j: int|
            0 <= j < spec_insert(s, k, v).len() ==> #[trigger] spec_insert(s, k, v)[j].0 == k
                || key_seq(s).contains(spec_insert(s, k, v)[j].0),
    decreases s.len(),
{
    if s.len() == 0 {
    } else if s[0].0 == k {
        let r = spec_insert(s, k, v);
        assert forall|j: int| 0 <= j < r.len() implies r[j].0 == k || key_seq(s).contains(
            r[j].0,
        ) by {
            if j > 0 {
                assert(r[j] == s[j]);
                assert(key_seq(s)[j] == s[j].0);
            }
        }
    } else {
        lemma_insert_key_set(s.drop_first(), k, v);
        let r = spec_insert(s, k, v);
        let rr = spec_insert(s.drop_first(), k, v);
        assert(r =~= seq![s[0]] + rr);
        assert forall|j: int| 0 <= j < r.len() implies r[j].0 == k || key_seq(s).contains(
            r[j].0,
        ) by {
            if j == 0 {
                assert(key_seq(s)[0] == s[0].0);
            } else {
                assert(r[j] == rr[j - 1]);
                if rr[j - 1].0 != k {
                    assert(key_seq(s.drop_first()).contains(rr[j - 1].0));
                    let w = choose|w: int|
                        0 <= w < key_seq(s.drop_first()).len() && key_seq(s.drop_first())[w] == rr[j
                            - 1].0;
                    assert(s[w + 1].0 == rr[j - 1].0);
                    assert(key_seq(s)[w + 1] == s[w + 1].0);
                }
            }
        }
    }
}

} // verus!
