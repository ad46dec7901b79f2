use vstd::prelude::*;
use vstd::string::StringExecFns;

use crate::diff::{
    directive_key, directive_keys, directives_view, export_directives, plan_enter, plan_exit,
    unset_directives, Directive, DirectiveV,
};
use crate::errors::ProfileNotFoundError;
use crate::store::{
    lemma_store_lookup_insert, store_insert, store_lookup, store_remove, Metadata, Profile,
    ProfileV,
};
use crate::tree::{resolve, spec_resolve, split_dots, Node};
use crate::vars::{key_seq, VarMap};

verus! {

/// Activates a profile: the `set` operation.
pub struct Activate {
    pub profile: String,
}

impl Activate {
    /// Create or overwrite the directory's record with the requested
    /// profile name; resolution is deferred to the next directory-change
    /// check, so the record starts with no exported keys.
    pub fn set(&self, metadata: &mut Metadata, dir_key: String)
        ensures
            final(metadata)@ == store_insert(
                old(metadata)@,
                dir_key@,
                (ProfileV { name: self.profile@, variables: None }),
            ),
            old(metadata).wf() ==> final(metadata).wf(),
    {
        metadata.set(dir_key, Profile { name: self.profile.clone(), variables: None });
    }
}

/// Deactivates the current profile: the `clear` operation.
pub struct Clear;

impl Clear {
    /// Emit an unset directive for every key the record exported, then
    /// delete the record.  No record, or a record that never resolved,
    /// emits nothing; removal of an absent record is a no-op.
    pub fn clear(&self, metadata: &mut Metadata, dir_key: &String) -> (r: Vec<Directive>)
        ensures
            final(metadata)@ == store_remove(old(metadata)@, dir_key@),
            old(metadata).wf() ==> final(metadata).wf(),
            directives_view(r@) == (match store_lookup(old(metadata)@, dir_key@) {
                Some(p) => match p.variables {
                    Some(vs) => unset_directives(vs),
                    None => Seq::<DirectiveV>::empty(),
                },
                None => Seq::<DirectiveV>::empty(),
            }),
    {
        let mut out: Vec<Directive> = Vec::new();
        proof {
            assert(directives_view(out@) =~= Seq::<DirectiveV>::empty());
        }
        match metadata.get(dir_key) {
            Option::Some(p) => {
                match &p.variables {
                    Option::Some(vars) => {
                        out = plan_exit(vars);
                    },
                    Option::None => {},
                }
            },
            Option::None => {},
        }
        metadata.remove(dir_key);
        out
    }
}

/// The variable keys of a record joined with single spaces.
pub open spec fn joined(vs: Seq<Seq<char>>) -> Seq<char>
    decreases vs.len(),
{
    if vs.len() == 0 {
        Seq::empty()
    } else if vs.len() == 1 {
        vs[0]
    } else {
        joined(vs.drop_last()) + seq![' '] + vs.last()
    }
}

/// Join strings with single spaces.
pub fn join_spaced(vs: &Vec<String>) -> (r: String)
    ensures
        r@ == joined(vs.deep_view()),
{
    let mut r = String::new();
    let n = vs.len();
    let mut i: usize = 0;
    proof {
        reveal_strlit(" ");
        assert(vs.deep_view().take(0) =~= Seq::<Seq<char>>::empty());
        assert(r@ =~= joined(vs.deep_view().take(0)));
    }
    while i < n
        invariant
            n == vs@.len(),
            vs.deep_view().len() == n,
            i <= n,
            r@ == joined(vs.deep_view().take(i as int)),
        decreases n - i,
    {
        proof {
            reveal_strlit(" ");
        }
        if i > 0 {
            r.append(" ");
        }
        r.append(vs[i].as_str());
        proof {
            let dv = vs.deep_view();
            assert(dv[i as int] == vs@[i as int]@);
            assert(dv.take(i + 1).drop_last() =~= dv.take(i as int));
            assert(dv.take(i + 1).last() == dv[i as int]);
            assert(" "@ =~= seq![' ']);
            if i == 0 {
                assert(joined(dv.take(1)) == dv[0]);
                assert(r@ =~= dv[0]);
            } else {
                assert(joined(dv.take(i + 1)) == joined(dv.take(i as int)) + seq![' ']
                    + dv[i as int]);
                assert(r@ =~= joined(dv.take(i as int)) + seq![' '] + dv[i as int]);
            }
        }
        i = i + 1;
    }
    proof {
        assert(vs.deep_view().take(n as int) =~= vs.deep_view());
    }
    r
}

/// Shows the current profile: the `show` operation.
pub struct Show;

impl Show {
    /// The profile name and the space-joined exported keys of the
    /// directory's record; nothing when there is no record or the record
    /// has not resolved yet.
    pub fn show(&self, metadata: &Metadata, dir_key: &String) -> (r: Option<(String, String)>)
        ensures
            match r {
                Some(t) => store_lookup(metadata@, dir_key@) matches Some(p) && p.variables matches
                    Some(vs) && t.0@ == p.name && t.1@ == joined(vs),
                None => match store_lookup(metadata@, dir_key@) {
                    Some(p) => p.variables is None,
                    None => true,
                },
            },
    {
        match metadata.get(dir_key) {
            Option::Some(p) => {
                match &p.variables {
                    Option::Some(vars) => {
                        let list = join_spaced(vars);
                        Some((p.name.clone(), list))
                    },
                    Option::None => None,
                }
            },
            Option::None => None,
        }
    }
}

/// Outputs one variable of the current profile: the `get` operation.
pub struct Get {
    pub key: String,
}

impl Get {
    /// Resolve the record's profile against the configuration tree and
    /// print the value bound to `key`, or the text `null` when the key is
    /// not bound.  No record means nothing to print; a selector that does
    /// not resolve is the error, surfaced instead of any output.
    pub fn get(&self, metadata: &Metadata, dir_key: &String, tree: &Node) -> (r: Result<
        Option<String>,
        ProfileNotFoundError,
    >)
        ensures
            match store_lookup(metadata@, dir_key@) {
                None => r matches Ok(o) && o is None,
                Some(p) => match spec_resolve(*tree, p.name, None) {
                    Ok(ps) => r matches Ok(o) && o matches Some(text) && text@ == (
                    match crate::vars::lookup(ps, self.key@) {
                        Some(v) => v,
                        None => "null"@,
                    }),
                    Err(j) => r matches Err(e) && e.segment@ == split_dots(p.name)[j]
                        && e.consumed.deep_view() == split_dots(p.name).take(j),
                },
            },
    {
        let name = match metadata.get(dir_key) {
            Option::Some(p) => p.name.clone(),
            Option::None => {
                return Ok(None);
            },
        };
        match resolve(tree, &name, Option::None) {
            Ok(map) => {
                match map.get(&self.key) {
                    Option::Some(v) => Ok(Some(v.clone())),
                    Option::None => Ok(Some(String::from_str("null"))),
                }
            },
            Err(e) => Err(e),
        }
    }
}

/// The unset half of a directory-change event, as stored state dictates
/// it: with a check in progress and a resolved record for the previous
/// directory, one unset per owned key; otherwise nothing.
pub open spec fn spec_exit_directives(
    m: Seq<(Seq<char>, ProfileV)>,
    prev: Seq<char>,
    check: bool,
) -> Seq<DirectiveV> {
    if check {
        match store_lookup(m, prev) {
            Some(p) => match p.variables {
                Some(vs) => unset_directives(vs),
                None => Seq::empty(),
            },
            None => Seq::empty(),
        }
    } else {
        Seq::empty()
    }
}

/// The directory-change hook: the `precmd` operation, run on every
/// prompt.  `check` signals that the working directory actually changed;
/// `tree` is the current directory's configuration, if it has one; `live`
/// is the shell's environment snapshot.
pub struct Precmd;

impl Precmd {
    /// Unset the previous directory's exports, then resolve and export
    /// the current directory's profile and record its full key list.  A
    /// selector that does not resolve aborts the whole transition: no
    /// directive is emitted and the store is left unmodified.
    pub fn precmd(
        &self,
        metadata: &mut Metadata,
        previous_key: &String,
        current_key: &String,
        check: bool,
        tree: Option<&Node>,
        live: &VarMap,
    ) -> (r: Result<Vec<Directive>, ProfileNotFoundError>)
        ensures
            old(metadata).wf() ==> final(metadata).wf(),
            match r {
                Ok(ds) => match tree {
                    Some(t) => match store_lookup(old(metadata)@, current_key@) {
                        Some(p) => spec_resolve(*t, p.name, None) matches Ok(ps) && {
                            &&& directives_view(ds@) == spec_exit_directives(
                                old(metadata)@,
                                previous_key@,
                                check,
                            ) + export_directives(ps, live@)
                            &&& final(metadata)@ == store_insert(
                                old(metadata)@,
                                current_key@,
                                (ProfileV { name: p.name, variables: Some(key_seq(ps)) }),
                            )
                        },
                        None => directives_view(ds@) == spec_exit_directives(
                            old(metadata)@,
                            previous_key@,
                            check,
                        ) && final(metadata)@ == old(metadata)@,
                    },
                    None => directives_view(ds@) == spec_exit_directives(
                        old(metadata)@,
                        previous_key@,
                        check,
                    ) && final(metadata)@ == old(metadata)@,
                },
                Err(e) => {
                    &&& final(metadata)@ == old(metadata)@
                    &&& tree matches Some(t) && store_lookup(old(metadata)@, current_key@) matches
                        Some(p) && spec_resolve(*t, p.name, None) matches Err(j) && e.segment@
                        == split_dots(p.name)[j] && e.consumed.deep_view() == split_dots(
                        p.name,
                    ).take(j)
                },
            },
    {
        // Resolve first: an unresolvable selector must abort before any
        // directive is computed or the store is touched.
        let mut enter: Option<(String, VarMap)> = None;
        match tree {
            Option::Some(t) => {
                match metadata.get(current_key) {
                    Option::Some(p) => {
                        let name = p.name.clone();
                        match resolve(t, &name, Option::None) {
                            Ok(m) => {
                                enter = Some((name, m));
                            },
                            Err(e) => {
                                return Err(e);
                            },
                        }
                    },
                    Option::None => {},
                }
            },
            Option::None => {},
        }
        let mut out: Vec<Directive> = Vec::new();
        proof {
            assert(directives_view(out@) =~= Seq::<DirectiveV>::empty());
        }
        if check {
            match metadata.get(previous_key) {
                Option::Some(p) => {
                    match &p.variables {
                        Option::Some(vars) => {
                            out = plan_exit(vars);
                        },
                        Option::None => {},
                    }
                },
                Option::None => {},
            }
        }
        let ghost exit_part = directives_view(out@);
        match enter {
            Option::Some((name, resolved)) => {
                let (mut exports, owned) = plan_enter(&resolved, live);
                let ghost export_part = directives_view(exports@);
                let ghost exportsv = exports@;
                let ghost outpre = out@;
                out.append(&mut exports);
                proof {
                    assert(out@ == outpre + exportsv);
                    assert(directives_view(out@) =~= exit_part + export_part) by {
                        assert forall|j: int|
                            0 <= j < directives_view(out@).len() implies directives_view(out@)[j]
                            == (exit_part + export_part)[j] by {
                            assert(directives_view(out@)[j] == out@[j]@);
                            if j < exit_part.len() {
                                assert(out@[j] == outpre[j]);
                                assert(exit_part[j] == outpre[j]@);
                            } else {
                                assert(out@[j] == exportsv[j - outpre.len()]);
                                assert(export_part[j - outpre.len()] == exportsv[j
                                    - outpre.len()]@);
                            }
                        }
                    }
                }
                metadata.set(current_key.clone(), Profile { name, variables: Some(owned) });
            },
            Option::None => {
                proof {
                    assert(exit_part + Seq::<DirectiveV>::empty() =~= exit_part);
                }
            },
        }
        Ok(out)
    }
}

/// REVERSIBILITY: once the enter half has stored the resolved key list in
/// a directory's record, the exit half of a later directory change unsets
/// exactly those keys - the same key sequence, hence the same key set.
pub proof fn lemma_exit_reverses_enter(
    m: Seq<(Seq<char>, ProfileV)>,
    dir: Seq<char>,
    name: Seq<char>,
    resolved: Seq<(Seq<char>, Seq<char>)>,
)
    ensures
        ({
            let m2 = store_insert(m, dir, (ProfileV { name, variables: Some(key_seq(resolved)) }));
            let ds = spec_exit_directives(m2, dir, true);
            &&& directive_keys(ds) =~= key_seq(resolved)
            &&& directive_keys(ds).to_set() =~= key_seq(resolved).to_set()
        }),
{
    let rec = ProfileV { name, variables: Some(key_seq(resolved)) };
    let m2 = store_insert(m, dir, rec);
    lemma_store_lookup_insert(m, dir, rec, dir);
    assert(store_lookup(m2, dir) == Some(rec));
    let ds = spec_exit_directives(m2, dir, true);
    assert(ds == unset_directives(key_seq(resolved)));
    assert forall|j: int| 0 <= j < directive_keys(ds).len() implies directive_keys(ds)[j]
        == key_seq(resolved)[j] by {
        assert(ds[j] == DirectiveV::Unset(key_seq(resolved)[j]));
        assert(directive_keys(ds)[j] == directive_key(ds[j]));
    }
}

} // verus!
