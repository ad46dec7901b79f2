use vstd::prelude::*;

use crate::vars::{
    key_seq, lemma_lookup_at, lemma_lookup_insert, lemma_lookup_none, lemma_lookup_push, lookup,
    spec_insert, unique_keys, VarMap,
};

verus! {

/// How a resolved variable relates to the live environment.
#[derive(Clone, Copy, Debug, PartialEq, Eq, Structural)]
pub enum Class {
    /// Absent from the live environment.
    Added,
    /// Present with a different value.
    Changed,
    /// Present with the same value: no directive, but still owned.
    Unchanged,
}

/// A shell instruction emitted by the diff engine, for the presentation
/// layer to render (`export K=V` / `unset K`).
#[derive(Debug)]
pub enum Directive {
    Export(String, String),
    Unset(String),
}

impl PartialEq for Directive {
    /// Directives are equal when kind, key and value agree.
    fn eq(&self, other: &Self) -> (r: bool) {
        match (self, other) {
            (Directive::Export(k1, v1), Directive::Export(k2, v2)) => *k1 == *k2 && *v1 == *v2,
            (Directive::Unset(k1), Directive::Unset(k2)) => *k1 == *k2,
            _ => false,
        }
    }
}

impl vstd::std_specs::cmp::PartialEqSpecImpl for Directive {
    open spec fn obeys_eq_spec() -> bool {
        true
    }

    open spec fn eq_spec(&self, other: &Self) -> bool {
        self@ == other@
    }
}

/// The mathematical shape of a directive.
pub enum DirectiveV {
    Export(Seq<char>, Seq<char>),
    Unset(Seq<char>),
}

impl View for Directive {
    type V = DirectiveV;

    open spec fn view(&self) -> DirectiveV {
        match self {
            Directive::Export(k, v) => DirectiveV::Export(k@, v@),
            Directive::Unset(k) => DirectiveV::Unset(k@),
        }
    }
}

/// Directive sequences as their mathematical shapes.
pub open spec fn directives_view(ds: Seq<Directive>) -> Seq<DirectiveV> {
    ds.map_values(|d: Directive| d@)
}

/// Classification of one key against the live environment.
pub open spec fn spec_classify(
    live: Seq<(Seq<char>, Seq<char>)>,
    k: Seq<char>,
    v: Seq<char>,
) -> Class {
    match lookup(live, k) {
        Option::None => Class::Added,
        Option::Some(lv) => if lv == v {
            Class::Unchanged
        } else {
            Class::Changed
        },
    }
}

/// The export directives for a resolved variable set against a live
/// environment: one `Export(k, v)` per Added or Changed key, in the
/// resolved map's order.
pub open spec fn export_directives(
    resolved: Seq<(Seq<char>, Seq<char>)>,
    live: Seq<(Seq<char>, Seq<char>)>,
) -> Seq<DirectiveV>
    decreases resolved.len(),
{
    if resolved.len() == 0 {
        Seq::empty()
    } else {
        let front = export_directives(resolved.drop_last(), live);
        let p = resolved.last();
        if spec_classify(live, p.0, p.1) is Unchanged {
            front
        } else {
            front.push(DirectiveV::Export(p.0, p.1))
        }
    }
}

/// The unset directives for a previously exported key list, in order.
pub open spec fn unset_directives(keys: Seq<Seq<char>>) -> Seq<DirectiveV> {
    keys.map_values(|k: Seq<char>| DirectiveV::Unset(k))
}

/// Classify `key`/`value` against the live environment snapshot.
pub fn classify(live: &VarMap, key: &String, value: &String) -> (c: Class)
    ensures
        c == spec_classify(live@, key@, value@),
{
    match live.get(key) {
        Option::None => Class::Added,
        Option::Some(lv) => if *lv == *value {
            Class::Unchanged
        } else {
            Class::Changed
        },
    }
}

/// The enter half of a directory change: every Added or Changed key of
/// the resolved set yields an export directive, and the full key list of
/// the resolved set - Unchanged keys included - becomes the directory's
/// new ownership record.
pub fn plan_enter(resolved: &VarMap, live: &VarMap) -> (r: (Vec<Directive>, Vec<String>))
    ensures
        directives_view(r.0@) == export_directives(resolved@, live@),
        r.1.deep_view() == key_seq(resolved@),
{
    let mut out: Vec<Directive> = Vec::new();
    let mut owned: Vec<String> = Vec::new();
    let n = resolved.pairs.len();
    let mut i: usize = 0;
    while i < n
        invariant
            n == resolved@.len(),
            i <= n,
            owned@.len() == i,
            directives_view(out@) =~= export_directives(resolved@.take(i as int), live@),
            owned.deep_view() =~= key_seq(resolved@.take(i as int)),
        decreases n - i,
    {
        let key = resolved.pairs[i].0.clone();
        let value = resolved.pairs[i].1.clone();
        let ghost pre = resolved@.take(i as int);
        let ghost opre = owned.deep_view();
        let ghost dpre = directives_view(out@);
        let c = classify(live, &key, &value);
        owned.push(key.clone());
        if c != Class::Unchanged {
            out.push(Directive::Export(key, value));
        }
        proof {
            assert(resolved@.take(i + 1).drop_last() =~= pre);
            assert(resolved@.take(i + 1).last() == resolved@[i as int]);
            assert(resolved@[i as int] == (key@, value@));
            assert(owned.deep_view() =~= opre.push(key@)) by {
                assert forall|j: int| 0 <= j < owned.deep_view().len() implies owned.deep_view()[j]
                    == opre.push(key@)[j] by {
                    if j < i {
                        assert(owned.deep_view()[j] == owned@[j].deep_view());
                    } else {
                        assert(owned.deep_view()[j] == owned@[j].deep_view());
                        assert(owned@[j]@ == key@);
                    }
                }
            }
            assert(key_seq(resolved@.take(i + 1)) =~= key_seq(pre).push(resolved@[i as int].0))
                by {
                assert forall|j: int|
                    0 <= j < i + 1 implies key_seq(resolved@.take(i + 1))[j] == key_seq(pre).push(
                    resolved@[i as int].0,
                )[j] by {
                    assert(key_seq(resolved@.take(i + 1))[j] == resolved@.take(i + 1)[j].0);
                    if j < i {
                        assert(key_seq(pre)[j] == pre[j].0);
                    }
                }
            }
            assert(owned.deep_view() =~= key_seq(resolved@.take(i + 1)));
            if c is Unchanged {
                assert(directives_view(out@) =~= export_directives(resolved@.take(i + 1), live@));
            } else {
                assert(directives_view(out@) =~= dpre.push(DirectiveV::Export(key@, value@))) by {
                    assert forall|j: int|
                        0 <= j < directives_view(out@).len() implies directives_view(out@)[j]
                        == dpre.push(DirectiveV::Export(key@, value@))[j] by {
                        assert(directives_view(out@)[j] == out@[j]@);
                        if j < dpre.len() {
                            assert(dpre[j] == out@[j]@);
                        }
                    }
                }
                assert(directives_view(out@) =~= export_directives(resolved@.take(i + 1), live@));
            }
        }
        i = i + 1;
    }
    proof {
        assert(resolved@.take(n as int) =~= resolved@);
    }
    (out, owned)
}

/// The exit half of a directory change: one unconditional unset directive
/// per previously exported key, in order.  The live environment is not
/// consulted: ownership alone triggers the unset.
pub fn plan_exit(previous: &Vec<String>) -> (r: Vec<Directive>)
    ensures
        directives_view(r@) == unset_directives(previous.deep_view()),
{
    let mut out: Vec<Directive> = Vec::new();
    let n = previous.len();
    let mut i: usize = 0;
    while i < n
        invariant
            n == previous.len(),
            i <= n,
            out@.len() == i,
            previous.deep_view().len() == n,
            directives_view(out@) =~= unset_directives(previous.deep_view().take(i as int)),
        decreases n - i,
    {
        let ghost dpre = directives_view(out@);
        out.push(Directive::Unset(previous[i].clone()));
        proof {
            assert(previous.deep_view().len() == n);
            assert(previous.deep_view()[i as int] == previous[i as int]@);
            assert forall|j: int|
                0 <= j < directives_view(out@).len() implies directives_view(out@)[j]
                == unset_directives(previous.deep_view().take(i + 1))[j] by {
                assert(directives_view(out@)[j] == out@[j]@);
                assert(unset_directives(previous.deep_view().take(i + 1))[j] == DirectiveV::Unset(
                    previous.deep_view().take(i + 1)[j],
                ));
                if j < i {
                    assert(dpre[j] == out@[j]@);
                    assert(unset_directives(previous.deep_view().take(i as int))[j]
                        == DirectiveV::Unset(previous.deep_view().take(i as int)[j]));
                }
            }
            assert(directives_view(out@) =~= unset_directives(previous.deep_view().take(i + 1)));
        }
        i = i + 1;
    }
    proof {
        assert(previous.deep_view().take(n as int) =~= previous.deep_view());
    }
    out
}

/// The key a directive names.
pub open spec fn directive_key(d: DirectiveV) -> Seq<char> {
    match d {
        DirectiveV::Export(k, _) => k,
        DirectiveV::Unset(k) => k,
    }
}

/// The keys a directive sequence names, in order.
pub open spec fn directive_keys(ds: Seq<DirectiveV>) -> Seq<Seq<char>> {
    ds.map_values(|d: DirectiveV| directive_key(d))
}

/// Every pair of the sequence is dropped or kept whole, so an `Export`
/// sets a key and an `Unset` deletes it.
pub open spec fn remove_key(s: Seq<(Seq<char>, Seq<char>)>, k: Seq<char>) -> Seq<
    (Seq<char>, Seq<char>),
> {
    s.filter(|p: (Seq<char>, Seq<char>)| p.0 != k)
}

/// The environment after a directive sequence is applied, in order.
pub open spec fn apply_directives(
    live: Seq<(Seq<char>, Seq<char>)>,
    ds: Seq<DirectiveV>,
) -> Seq<(Seq<char>, Seq<char>)>
    decreases ds.len(),
{
    if ds.len() == 0 {
        live
    } else {
        let rest = apply_directives(live, ds.drop_last());
        match ds.last() {
            DirectiveV::Export(k, v) => spec_insert(rest, k, v),
            DirectiveV::Unset(k) => remove_key(rest, k),
        }
    }
}

/// Whether every directive of the sequence is an export.
pub open spec fn all_exports(ds: Seq<DirectiveV>) -> bool {
    forall|i: int| 0 <= i < ds.len() ==> ds[i] is Export
}

/// The value of the last export of `k` in the sequence, if any.
pub open spec fn export_last(ds: Seq<DirectiveV>, k: Seq<char>) -> Option<Seq<char>>
    decreases ds.len(),
{
    if ds.len() == 0 {
        None
    } else {
        match ds.last() {
            DirectiveV::Export(k2, v) => if k2 == k {
                Some(v)
            } else {
                export_last(ds.drop_last(), k)
            },
            DirectiveV::Unset(_) => export_last(ds.drop_last(), k),
        }
    }
}

/// Applying a sequence of exports: a key exported takes its last exported
/// value; any other key keeps its old binding.
proof fn lemma_apply_exports_lookup(
    live: Seq<(Seq<char>, Seq<char>)>,
    ds: Seq<DirectiveV>,
    k: Seq<char>,
)
    requires
        all_exports(ds),
    ensures
        lookup(apply_directives(live, ds), k) == match export_last(ds, k) {
            Some(v) => Some(v),
            None => lookup(live, k),
        },
    decreases ds.len(),
{
    if ds.len() > 0 {
        assert forall|i: int| 0 <= i < ds.drop_last().len() implies ds.drop_last()[i]
            is Export by {
            assert(ds.drop_last()[i] == ds[i]);
        }
        lemma_apply_exports_lookup(live, ds.drop_last(), k);
        assert(ds.last() is Export);
        match ds.last() {
            DirectiveV::Export(k2, v) => {
                lemma_lookup_insert(apply_directives(live, ds.drop_last()), k2, v, k);
            },
            DirectiveV::Unset(_) => {},
        }
    }
}

/// The shape of the enter half's output: only exports, and a key is
/// exported exactly when it is resolved and not Unchanged, with its
/// resolved value.
proof fn lemma_export_directives_shape(
    resolved: Seq<(Seq<char>, Seq<char>)>,
    live: Seq<(Seq<char>, Seq<char>)>,
    k: Seq<char>,
)
    requires
        unique_keys(resolved),
    ensures
        all_exports(export_directives(resolved, live)),
        export_last(export_directives(resolved, live), k) == (match lookup(resolved, k) {
            Some(v) => if spec_classify(live, k, v) is Unchanged {
                None::<Seq<char>>
            } else {
                Some(v)
            },
            None => None::<Seq<char>>,
        }),
    decreases resolved.len(),
{
    if resolved.len() == 0 {
        assert(export_directives(resolved, live) =~= Seq::<DirectiveV>::empty());
    } else {
        let front = resolved.drop_last();
        let p = resolved.last();
        assert forall|a: int, b: int| 0 <= a < b < front.len() implies front[a].0 != front[b].0 by {
            assert(front[a] == resolved[a] && front[b] == resolved[b]);
        }
        lemma_export_directives_shape(front, live, k);
        assert(front.push(p) =~= resolved);
        lemma_lookup_push(front, p, k);
        let ds = export_directives(resolved, live);
        if spec_classify(live, p.0, p.1) is Unchanged {
            assert(ds == export_directives(front, live));
            if p.0 == k {
                assert forall|j: int| 0 <= j < front.len() implies front[j].0 != k by {
                    assert(front[j] == resolved[j] && resolved[resolved.len() - 1].0 == k);
                }
                lemma_lookup_none(front, k);
            }
        } else {
            assert(ds == export_directives(front, live).push(DirectiveV::Export(p.0, p.1)));
            assert(ds.drop_last() =~= export_directives(front, live));
            assert(ds.last() == DirectiveV::Export(p.0, p.1));
            assert forall|i: int| 0 <= i < ds.len() implies ds[i] is Export by {
                if i < ds.len() - 1 {
                    assert(ds[i] == export_directives(front, live)[i]);
                }
            }
            if p.0 == k {
                assert forall|j: int| 0 <= j < front.len() implies front[j].0 != k by {
                    assert(front[j] == resolved[j] && resolved[resolved.len() - 1].0 == k);
                }
                lemma_lookup_none(front, k);
            }
        }
    }
}

/// An environment that already carries every resolved value yields no
/// export directive.
proof fn lemma_exports_empty(
    resolved: Seq<(Seq<char>, Seq<char>)>,
    live: Seq<(Seq<char>, Seq<char>)>,
)
    requires
        forall|i: int|
            0 <= i < resolved.len() ==> lookup(live, #[trigger] resolved[i].0) == Some(
                resolved[i].1,
            ),
    ensures
        export_directives(resolved, live) =~= Seq::<DirectiveV>::empty(),
    decreases resolved.len(),
{
    if resolved.len() > 0 {
        let front = resolved.drop_last();
        assert forall|i: int|
            0 <= i < front.len() implies lookup(live, #[trigger] front[i].0) == Some(
            front[i].1,
        ) by {
            assert(front[i] == resolved[i]);
        }
        lemma_exports_empty(front, live);
        let p = resolved.last();
        assert(lookup(live, p.0) == Some(p.1));
        assert(spec_classify(live, p.0, p.1) is Unchanged);
    }
}

/// IDEMPOTENCE: entering a directory computes export directives; once the
/// shell has applied them, entering again with the same resolved set and
/// otherwise unchanged environment computes no directive at all.
pub proof fn lemma_enter_idempotent(
    resolved: Seq<(Seq<char>, Seq<char>)>,
    live: Seq<(Seq<char>, Seq<char>)>,
)
    requires
        unique_keys(resolved),
    ensures
        export_directives(resolved, apply_directives(live, export_directives(resolved, live)))
            =~= Seq::<DirectiveV>::empty(),
{
    let ds = export_directives(resolved, live);
    let live2 = apply_directives(live, ds);
    assert forall|i: int|
        0 <= i < resolved.len() implies lookup(live2, #[trigger] resolved[i].0) == Some(
        resolved[i].1,
    ) by {
        let k = resolved[i].0;
        let v = resolved[i].1;
        assert forall|j: int| 0 <= j < i implies resolved[j].0 != k by {}
        lemma_lookup_at(resolved, k, i);
        lemma_export_directives_shape(resolved, live, k);
        lemma_apply_exports_lookup(live, ds, k);
        if spec_classify(live, k, v) is Unchanged {
            assert(lookup(live, k) == Some(v));
        }
    }
    lemma_exports_empty(resolved, live2);
}

} // verus!
