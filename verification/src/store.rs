use vstd::prelude::*;

verus! {

/// One directory's activation record: the chosen profile name, and the
/// variable keys the directory last exported.  `variables` is `None`
/// until a directory-change check has resolved the profile; `Some` of an
/// empty list means "resolved, but exported zero variables".
#[derive(Debug)]
pub struct Profile {
    pub name: String,
    pub variables: Option<Vec<String>>,
}

/// The mathematical shape of an activation record.
pub struct ProfileV {
    pub name: Seq<char>,
    pub variables: Option<Seq<Seq<char>>>,
}

impl View for Profile {
    type V = ProfileV;

    open spec fn view(&self) -> ProfileV {
        ProfileV {
            name: self.name@,
            variables: match self.variables {
                Option::Some(v) => Option::Some(v.deep_view()),
                Option::None => Option::None,
            },
        }
    }
}

/// The activation store: an association list from directory key (the
/// configuration file's path) to activation record, with unique keys.
/// It is loaded whole, mutated, and rewritten on save.
#[derive(Debug)]
pub struct Metadata {
    pub profiles: Vec<(String, Profile)>,
}

/// String vectors compared element by element.
fn eq_vec_str(a: &Vec<String>, b: &Vec<String>) -> (r: bool)
    ensures
        r == (a.deep_view() == b.deep_view()),
{
    let n = a.len();
    if n != b.len() {
        proof {
            assert(a.deep_view().len() == a@.len());
            assert(b.deep_view().len() == b@.len());
        }
        return false;
    }
    let mut i: usize = 0;
    while i < n
        invariant
            n == a@.len(),
            n == b@.len(),
            i <= n,
            forall|j: int| 0 <= j < i ==> a.deep_view()[j] == b.deep_view()[j],
        decreases n - i,
    {
        if a[i] != b[i] {
            proof {
                assert(a.deep_view()[i as int] == a@[i as int]@);
                assert(b.deep_view()[i as int] == b@[i as int]@);
            }
            return false;
        }
        proof {
            assert(a.deep_view()[i as int] == a@[i as int]@);
            assert(b.deep_view()[i as int] == b@[i as int]@);
        }
        i = i + 1;
    }
    proof {
        assert(a.deep_view() =~= b.deep_view());
    }
    true
}

impl PartialEq for Profile {
    /// Records are equal when the name and the exported key list agree.
    fn eq(&self, other: &Self) -> (r: bool) {
        let names = self.name == other.name;
        let vars = match (&self.variables, &other.variables) {
            (Option::Some(a), Option::Some(b)) => eq_vec_str(a, b),
            (Option::None, Option::None) => true,
            _ => false,
        };
        names && vars
    }
}

impl vstd::std_specs::cmp::PartialEqSpecImpl for Profile {
    open spec fn obeys_eq_spec() -> bool {
        true
    }

    open spec fn eq_spec(&self, other: &Self) -> bool {
        self@ == other@
    }
}

impl PartialEq for Metadata {
    /// Stores are equal when they hold the same entries in the same
    /// order, by key and record content.
    fn eq(&self, other: &Self) -> (r: bool) {
        let n = self.profiles.len();
        if n != other.profiles.len() {
            proof {
                assert(self@.len() == self.profiles@.len());
                assert(other@.len() == other.profiles@.len());
            }
            return false;
        }
        let mut i: usize = 0;
        while i < n
            invariant
                n == self.profiles@.len(),
                n == other.profiles@.len(),
                i <= n,
                forall|j: int| 0 <= j < i ==> self@[j] == other@[j],
            decreases n - i,
        {
            if self.profiles[i].0 != other.profiles[i].0 {
                proof {
                    assert(self@[i as int].0 == self.profiles@[i as int].0@);
                    assert(other@[i as int].0 == other.profiles@[i as int].0@);
                }
                return false;
            }
            if self.profiles[i].1 != other.profiles[i].1 {
                proof {
                    assert(self@[i as int].1 == self.profiles@[i as int].1@);
                    assert(other@[i as int].1 == other.profiles@[i as int].1@);
                }
                return false;
            }
            proof {
                assert(self@[i as int] == (self.profiles@[i as int].0@, self.profiles@[
                i as int].1@));
                assert(other@[i as int] == (other.profiles@[i as int].0@, other.profiles@[
                i as int].1@));
            }
            i = i + 1;
        }
        proof {
            assert(self@ =~= other@);
        }
        true
    }
}

impl vstd::std_specs::cmp::PartialEqSpecImpl for Metadata {
    open spec fn obeys_eq_spec() -> bool {
        true
    }

    open spec fn eq_spec(&self, other: &Self) -> bool {
        self@ == other@
    }
}

impl View for Metadata {
    type V = Seq<(Seq<char>, ProfileV)>;

    open spec fn view(&self) -> Seq<(Seq<char>, ProfileV)> {
        self.profiles@.map_values(|p: (String, Profile)| (p.0@, p.1@))
    }
}

/// The record keyed `k`: the first entry with that key.
pub open spec fn store_lookup(s: Seq<(Seq<char>, ProfileV)>, k: Seq<char>) -> Option<ProfileV>
    decreases s.len(),
{
    if s.len() == 0 {
        None
    } else if s[0].0 == k {
        Some(s[0].1)
    } else {
        store_lookup(s.drop_first(), k)
    }
}

/// Insert or fully replace the record for a key: an existing key keeps
/// its position, a fresh key goes to the end.
pub open spec fn store_insert(
    s: Seq<(Seq<char>, ProfileV)>,
    k: Seq<char>,
    p: ProfileV,
) -> Seq<(Seq<char>, ProfileV)>
    decreases s.len(),
{
    if s.len() == 0 {
        seq![(k, p)]
    } else if s[0].0 == k {
        seq![(k, p)] + s.drop_first()
    } else {
        seq![s[0]] + store_insert(s.drop_first(), k, p)
    }
}

/// Delete the record for a key; unchanged when the key is absent.
pub open spec fn store_remove(s: Seq<(Seq<char>, ProfileV)>, k: Seq<char>) -> Seq<
    (Seq<char>, ProfileV),
>
    decreases s.len(),
{
    if s.len() == 0 {
        s
    } else if s[0].0 == k {
        s.drop_first()
    } else {
        seq![s[0]] + store_remove(s.drop_first(), k)
    }
}

/// No directory key occurs twice.
pub open spec fn store_unique(s: Seq<(Seq<char>, ProfileV)>) -> bool {
    forall|i: int, j: int| 0 <= i < j < s.len() ==> s[i].0 != s[j].0
}

impl Metadata {
    /// Unique directory keys: the well-formedness every operation
    /// preserves and `load` establishes.
    pub open spec fn wf(&self) -> bool {
        store_unique(self@)
    }

    /// The empty store: what a first run starts from.
    pub fn new() -> (r: Metadata)
        ensures
            r@ =~= Seq::<(Seq<char>, ProfileV)>::empty(),
            r.wf(),
    {
        Metadata { profiles: Vec::new() }
    }

    /// Read-only lookup of a directory's record; never mutates.
    pub fn get(&self, dir_key: &String) -> (r: Option<&Profile>)
        ensures
            match r {
                Some(p) => store_lookup(self@, dir_key@) == Some(p@),
                None => store_lookup(self@, dir_key@) is None,
            },
    {
        let n = self.profiles.len();
        let mut i: usize = 0;
        while i < n
            invariant
                n == self@.len(),
                i <= n,
                forall|j: int| 0 <= j < i ==> self@[j].0 != dir_key@,
            decreases n - i,
        {
            if self.profiles[i].0 == *dir_key {
                proof {
                    lemma_store_lookup_at(self@, dir_key@, i as int);
                }
                return Some(&self.profiles[i].1);
            }
            i = i + 1;
        }
        proof {
            lemma_store_lookup_none(self@, dir_key@);
        }
        None
    }

    /// Insert or fully replace the record for a directory key.
    pub fn set(&mut self, dir_key: String, record: Profile)
        ensures
            final(self)@ == store_insert(old(self)@, dir_key@, record@),
            old(self).wf() ==> final(self).wf(),
    {
        let ghost s0 = self@;
        let n = self.profiles.len();
        let mut i: usize = 0;
        while i < n
            invariant
                n == self@.len(),
                i <= n,
                s0 == old(self)@,
                self@ == s0,
                forall|j: int| 0 <= j < i ==> self@[j].0 != dir_key@,
            decreases n - i,
        {
            if self.profiles[i].0 == *(&dir_key) {
                let ghost ko = dir_key@;
                let ghost po = record@;
                self.profiles[i] = (dir_key, record);
                proof {
                    assert(self@ =~= s0.update(i as int, (ko, po)));
                    lemma_store_insert_found(s0, ko, po, i as int);
                    if store_unique(s0) {
                        assert forall|a: int, b: int|
                            0 <= a < b < self@.len() implies self@[a].0 != self@[b].0 by {
                            if a == i {
                                assert(s0[a].0 == ko && self@[b] == s0[b]);
                            } else if b == i {
                                assert(s0[b].0 == ko && self@[a] == s0[a]);
                            } else {
                                assert(self@[a] == s0[a] && self@[b] == s0[b]);
                            }
                        }
                    }
                }
                return ;
            }
            i = i + 1;
        }
        proof {
            lemma_store_insert_fresh(s0, dir_key@, record@);
        }
        self.profiles.push((dir_key, record));
        proof {
            assert(self@ =~= s0.push((dir_key@, record@)));
            if store_unique(s0) {
                assert forall|a: int, b: int| 0 <= a < b < self@.len() implies self@[a].0
                    != self@[b].0 by {
                    if b < s0.len() {
                    } else {
                        assert(self@[b].0 == dir_key@);
                    }
                }
            }
        }
    }

    /// Delete a directory's record; a no-op (not an error) when absent.
    pub fn remove(&mut self, dir_key: &String)
        ensures
            final(self)@ == store_remove(old(self)@, dir_key@),
            old(self).wf() ==> final(self).wf(),
    {
        let ghost s0 = self@;
        let n = self.profiles.len();
        let mut i: usize = 0;
        while i < n
            invariant
                n == self@.len(),
                i <= n,
                s0 == old(self)@,
                self@ == s0,
                forall|j: int| 0 <= j < i ==> self@[j].0 != dir_key@,
            decreases n - i,
        {
            if self.profiles[i].0 == *dir_key {
                self.profiles.remove(i);
                proof {
                    assert(self@ =~= s0.remove(i as int));
                    lemma_store_remove_found(s0, dir_key@, i as int);
                    if store_unique(s0) {
                        assert forall|a: int, b: int|
                            0 <= a < b < self@.len() implies self@[a].0 != self@[b].0 by {
                            let a0 = if a < i {
                                a
                            } else {
                                a + 1
                            };
                            let b0 = if b < i {
                                b
                            } else {
                                b + 1
                            };
                            assert(self@[a] == s0[a0] && self@[b] == s0[b0]);
                        }
                    }
                }
                return ;
            }
            i = i + 1;
        }
        proof {
            lemma_store_remove_absent(s0, dir_key@);
        }
    }
}

/// If `s[i]` is the first entry keyed `k`, lookup returns its record.
pub proof fn lemma_store_lookup_at(s: Seq<(Seq<char>, ProfileV)>, k: Seq<char>, i: int)
    requires
        0 <= i < s.len(),
        s[i].0 == k,
        forall|j: int| 0 <= j < i ==> s[j].0 != k,
    ensures
        store_lookup(s, k) == Some(s[i].1),
    decreases i,
{
    if i > 0 {
        lemma_store_lookup_at(s.drop_first(), k, i - 1);
    }
}

/// If no entry is keyed `k`, lookup returns nothing.
pub proof fn lemma_store_lookup_none(s: Seq<(Seq<char>, ProfileV)>, k: Seq<char>)
    requires
        forall|j: int| 0 <= j < s.len() ==> s[j].0 != k,
    ensures
        store_lookup(s, k) is None,
    decreases s.len(),
{
    if s.len() > 0 {
        lemma_store_lookup_none(s.drop_first(), k);
    }
}

/// Replacing the first entry keyed `k` is a pointwise update.
proof fn lemma_store_insert_found(s: Seq<(Seq<char>, ProfileV)>, k: Seq<char>, p: ProfileV, i: int)
    requires
        0 <= i < s.len(),
        s[i].0 == k,
        forall|j: int| 0 <= j < i ==> s[j].0 != k,
    ensures
        store_insert(s, k, p) =~= s.update(i, (k, p)),
    decreases i,
{
    if i == 0 {
        assert(store_insert(s, k, p) =~= s.update(0, (k, p)));
    } else {
        lemma_store_insert_found(s.drop_first(), k, p, i - 1);
        assert(store_insert(s, k, p) =~= seq![s[0]] + s.drop_first().update(i - 1, (k, p)));
        assert(seq![s[0]] + s.drop_first().update(i - 1, (k, p)) =~= s.update(i, (k, p)));
    }
}

/// Inserting a fresh key appends the entry.
proof fn lemma_store_insert_fresh(s: Seq<(Seq<char>, ProfileV)>, k: Seq<char>, p: ProfileV)
    requires
        forall|j: int| 0 <= j < s.len() ==> s[j].0 != k,
    ensures
        store_insert(s, k, p) =~= s.push((k, p)),
    decreases s.len(),
{
    if s.len() > 0 {
        lemma_store_insert_fresh(s.drop_first(), k, p);
        assert(store_insert(s, k, p) =~= seq![s[0]] + s.drop_first().push((k, p)));
        assert(seq![s[0]] + s.drop_first().push((k, p)) =~= s.push((k, p)));
    }
}

/// Removing the first entry keyed `k` deletes exactly that position.
proof fn lemma_store_remove_found(s: Seq<(Seq<char>, ProfileV)>, k: Seq<char>, i: int)
    requires
        0 <= i < s.len(),
        s[i].0 == k,
        forall|j: int| 0 <= j < i ==> s[j].0 != k,
    ensures
        store_remove(s, k) =~= s.remove(i),
    decreases i,
{
    if i == 0 {
        assert(store_remove(s, k) =~= s.remove(0));
    } else {
        lemma_store_remove_found(s.drop_first(), k, i - 1);
        assert(store_remove(s, k) =~= seq![s[0]] + s.drop_first().remove(i - 1));
        assert(seq![s[0]] + s.drop_first().remove(i - 1) =~= s.remove(i));
    }
}

/// Removing an absent key changes nothing.
proof fn lemma_store_remove_absent(s: Seq<(Seq<char>, ProfileV)>, k: Seq<char>)
    requires
        forall|j: int| 0 <= j < s.len() ==> s[j].0 != k,
    ensures
        store_remove(s, k) =~= s,
    decreases s.len(),
{
    if s.len() > 0 {
        lemma_store_remove_absent(s.drop_first(), k);
        assert(store_remove(s, k) =~= seq![s[0]] + s.drop_first());
        assert(seq![s[0]] + s.drop_first() =~= s);
    }
}

/// Lookup after insertion: the inserted key maps to the new record and
/// every other key is untouched.
pub proof fn lemma_store_lookup_insert(
    s: Seq<(Seq<char>, ProfileV)>,
    k: Seq<char>,
    p: ProfileV,
    k2: Seq<char>,
)
    ensures
        store_lookup(store_insert(s, k, p), k2) == if k2 == k {
            Some(p)
        } else {
            store_lookup(s, k2)
        },
    decreases s.len(),
{
    if s.len() == 0 {
        let r = store_insert(s, k, p);
        assert(r[0] == (k, p));
        assert(r.drop_first() =~= Seq::<(Seq<char>, ProfileV)>::empty());
        if k2 == k {
            assert(store_lookup(r, k2) == Some(p));
        } else {
            assert(store_lookup(r.drop_first(), k2) is None);
            assert(store_lookup(r, k2) is None);
        }
    } else if s[0].0 == k {
        let r = store_insert(s, k, p);
        assert(r[0] == (k, p));
        assert(r.drop_first() =~= s.drop_first());
        if k2 == k {
            assert(store_lookup(r, k2) == Some(p));
        } else {
            assert(store_lookup(r, k2) == store_lookup(r.drop_first(), k2));
            assert(store_lookup(s, k2) == store_lookup(s.drop_first(), k2));
        }
    } else {
        lemma_store_lookup_insert(s.drop_first(), k, p, k2);
        let r = store_insert(s, k, p);
        assert(r[0] == s[0]);
        assert(r.drop_first() =~= store_insert(s.drop_first(), k, p));
        if s[0].0 == k2 {
            assert(store_lookup(r, k2) == Some(s[0].1));
            assert(store_lookup(s, k2) == Some(s[0].1));
        } else {
            assert(store_lookup(r, k2) == store_lookup(store_insert(s.drop_first(), k, p), k2));
            assert(store_lookup(s, k2) == store_lookup(s.drop_first(), k2));
        }
    }
}


} // verus!
