use vstd::prelude::*;

use crate::errors::ProfileNotFoundError;
use crate::vars::{
    insert_all, lemma_insert_all_concat, lemma_insert_unique, lemma_lookup_insert_all, lookup,
    lookup_last, spec_insert, unique_keys, VarMap,
};

verus! {

/// A parsed configuration tree.  Tables nest; string leaves are the
/// exportable variables; every other leaf kind (number, boolean, array,
/// date...) is carried as `Other` and silently skipped by flattening.
pub enum Node {
    Table(Vec<(String, Node)>),
    Str(String),
    Other,
}

/// The case transform optionally applied to every flattened key.
#[derive(Clone, Copy, Debug, PartialEq, Eq, Structural)]
pub enum Case {
    /// lower case
    Lower,
    /// UPPER CASE
    Upper,
    /// camelCase
    Camel,
    /// UpperCamelCase
    UpperCamel,
    /// snake_case
    Snake,
    /// SCREAMING_SNAKE_CASE
    ScreamingSnake,
    /// kebab-case
    Kebab,
    /// Upper-Kebab-Case
    UpperKebab,
    /// COBOL-CASE
    Cobol,
    /// flatcase
    Flat,
    /// UPPERFLATCASE
    UpperFlat,
}

/// A distinct tag per case variant, to index the conversion's name.
pub open spec fn case_id(c: Case) -> int {
    match c {
        Case::Lower => 0,
        Case::Upper => 1,
        Case::Camel => 2,
        Case::UpperCamel => 3,
        Case::Snake => 4,
        Case::ScreamingSnake => 5,
        Case::Kebab => 6,
        Case::UpperKebab => 7,
        Case::Cobol => 8,
        Case::Flat => 9,
        Case::UpperFlat => 10,
    }
}

/// What convert_case's `to_case` returns for a target case and a key: a
/// pure function of its arguments alone.
pub uninterp spec fn cased(case: int, s: Seq<char>) -> Seq<char>;

/// Relies on convert_case's `Casing::to_case`: a deterministic case
/// conversion of `key` into the given target case.  Each `Case` variant
/// names the style its doc comment shows; `ScreamingSnake` and
/// `UpperKebab` are that crate's `Constant` and `Train` styles.
#[verifier::external_body]
fn to_case_exec(key: &String, case: Case) -> (r: String)
    ensures
        r@ == cased(case_id(case), key@),
{
    let c = match case {
        Case::Lower => convert_case::Case::Lower,
        Case::Upper => convert_case::Case::Upper,
        Case::Camel => convert_case::Case::Camel,
        Case::UpperCamel => convert_case::Case::UpperCamel,
        Case::Snake => convert_case::Case::Snake,
        Case::ScreamingSnake => convert_case::Case::Constant,
        Case::Kebab => convert_case::Case::Kebab,
        Case::UpperKebab => convert_case::Case::Train,
        Case::Cobol => convert_case::Case::Cobol,
        Case::Flat => convert_case::Case::Flat,
        Case::UpperFlat => convert_case::Case::UpperFlat,
    };
    convert_case::Casing::to_case(&key, c)
}

/// A key as the resolved map will carry it: unchanged, or case-converted.
pub open spec fn spec_transform(case: Option<Case>, k: Seq<char>) -> Seq<char> {
    match case {
        Option::None => k,
        Option::Some(c) => cased(case_id(c), k),
    }
}

/// Apply the optional case transform to one key.
pub fn transform(case: Option<Case>, key: &String) -> (r: String)
    ensures
        r@ == spec_transform(case, key@),
{
    match case {
        Option::Some(c) => to_case_exec(key, c),
        Option::None => key.clone(),
    }
}

/// Dot-splitting, accumulating the segment under construction.
pub open spec fn split_dots_acc(s: Seq<char>, cur: Seq<char>) -> Seq<Seq<char>>
    decreases s.len(),
{
    if s.len() == 0 {
        seq![cur]
    } else if s[0] == '.' {
        seq![cur] + split_dots_acc(s.drop_first(), Seq::empty())
    } else {
        split_dots_acc(s.drop_first(), cur.push(s[0]))
    }
}

/// The segments of a dot-separated selector.  The empty selector yields
/// one empty segment, as splitting on `'.'` does.
pub open spec fn split_dots(s: Seq<char>) -> Seq<Seq<char>> {
    split_dots_acc(s, Seq::empty())
}

/// A selector always has at least one segment.
pub proof fn lemma_split_nonempty(s: Seq<char>, cur: Seq<char>)
    ensures
        split_dots_acc(s, cur).len() >= 1,
    decreases s.len(),
{
    if s.len() > 0 && s[0] != '.' {
        lemma_split_nonempty(s.drop_first(), cur.push(s[0]));
    }
}

/// Split a selector on dots.
pub fn split_selector(selector: &String) -> (r: Vec<String>)
    ensures
        r.deep_view() == split_dots(selector@),
        r.deep_view().len() >= 1,
{
    let chars = crate::text::str_chars(selector.as_str());
    let n = chars.len();
    let mut out: Vec<String> = Vec::new();
    let mut cur = String::new();
    let mut i: usize = 0;
    proof {
        assert(selector@.skip(0) =~= selector@);
        assert(out.deep_view() =~= Seq::<Seq<char>>::empty());
        assert(out.deep_view() + split_dots_acc(selector@.skip(0), cur@) =~= split_dots(
            selector@,
        ));
    }
    while i < n
        invariant
            n == selector@.len(),
            chars@ == selector@,
            i <= n,
            out.deep_view() + split_dots_acc(selector@.skip(i as int), cur@) =~= split_dots(
                selector@,
            ),
        decreases n - i,
    {
        let ghost opre = out.deep_view();
        let ghost ovpre = out@;
        let ghost curv = cur@;
        let c = chars[i];
        proof {
            assert(selector@.skip(i as int)[0] == selector@[i as int]);
            assert(selector@.skip(i as int).drop_first() =~= selector@.skip(i + 1));
        }
        if c == '.' {
            out.push(cur);
            cur = String::new();
            proof {
                assert(out.deep_view() =~= opre.push(curv)) by {
                    assert forall|j: int|
                        0 <= j < out.deep_view().len() implies out.deep_view()[j] == opre.push(
                        curv,
                    )[j] by {
                        assert(out.deep_view()[j] == out@[j].deep_view());
                        if j < ovpre.len() {
                            assert(out@[j] == ovpre[j]);
                            assert(opre[j] == ovpre[j].deep_view());
                        }
                    }
                }
                assert(split_dots_acc(selector@.skip(i as int), curv) =~= seq![curv]
                    + split_dots_acc(selector@.skip(i + 1), Seq::empty()));
                assert(out.deep_view() + split_dots_acc(selector@.skip(i + 1), cur@) =~= opre + (
                seq![curv] + split_dots_acc(selector@.skip(i + 1), Seq::empty())));
            }
        } else {
            crate::text::push_char(&mut cur, c);
            proof {
                assert(split_dots_acc(selector@.skip(i as int), curv) == split_dots_acc(
                    selector@.skip(i + 1),
                    curv.push(c),
                ));
            }
        }
        i = i + 1;
    }
    let ghost opre = out.deep_view();
    let ghost ovpre = out@;
    let ghost curv = cur@;
    out.push(cur);
    proof {
        assert(selector@.skip(n as int) =~= Seq::<char>::empty());
        assert(split_dots_acc(selector@.skip(n as int), curv) =~= seq![curv]);
        assert(out.deep_view() =~= opre.push(curv)) by {
            assert forall|j: int| 0 <= j < out.deep_view().len() implies out.deep_view()[j]
                == opre.push(curv)[j] by {
                assert(out.deep_view()[j] == out@[j].deep_view());
                if j < ovpre.len() {
                    assert(out@[j] == ovpre[j]);
                    assert(opre[j] == ovpre[j].deep_view());
                }
            }
        }
        assert(out.deep_view() =~= opre + seq![curv]);
        lemma_split_nonempty(selector@, Seq::empty());
    }
    out
}

/// The child of a table named `k`, if any: the first match.
pub open spec fn child_lookup(children: Seq<(String, Node)>, k: Seq<char>) -> Option<Node>
    decreases children.len(),
{
    if children.len() == 0 {
        None
    } else if children[0].0@ == k {
        Some(children[0].1)
    } else {
        child_lookup(children.drop_first(), k)
    }
}

/// Walk the selector segments from `segs[i]` on, starting at a table's
/// children; every segment must name a child that is itself a table.
/// Failure reports the index of the segment that did not resolve.
pub open spec fn spec_walk(
    children: Seq<(String, Node)>,
    segs: Seq<Seq<char>>,
    i: int,
) -> Result<Seq<(String, Node)>, int>
    decreases segs.len() - i,
{
    if i >= segs.len() {
        Ok(children)
    } else {
        match child_lookup(children, segs[i]) {
            Some(child) => match child {
                Node::Table(sub) => spec_walk(sub@, segs, i + 1),
                _ => Err(i),
            },
            None => Err(i),
        }
    }
}

/// The children of the root table; a non-table root has none.
pub open spec fn root_children(tree: Node) -> Seq<(String, Node)> {
    match tree {
        Node::Table(ch) => ch@,
        _ => Seq::empty(),
    }
}

/// The global variables: every top-level string leaf, key transformed.
pub open spec fn global_pairs(children: Seq<(String, Node)>, case: Option<Case>) -> Seq<
    (Seq<char>, Seq<char>),
>
    decreases children.len(),
{
    if children.len() == 0 {
        Seq::empty()
    } else {
        let rest = global_pairs(children.drop_first(), case);
        match children[0].1 {
            Node::Str(v) => seq![(spec_transform(case, children[0].0@), v@)] + rest,
            _ => rest,
        }
    }
}

/// The flattening of one subtree rooted at a key: a string leaf yields
/// its own (transformed) key and value; a table recurses into each child
/// with the child's key; any other leaf is skipped.
pub open spec fn flat_node(key: Seq<char>, node: Node, case: Option<Case>) -> Seq<
    (Seq<char>, Seq<char>),
>
    decreases node, 0int,
{
    match node {
        Node::Str(v) => seq![(spec_transform(case, key), v@)],
        Node::Other => Seq::empty(),
        Node::Table(children) => flat_children(children@, case),
    }
}

/// The flattening of a table's children, in order.
pub open spec fn flat_children(children: Seq<(String, Node)>, case: Option<Case>) -> Seq<
    (Seq<char>, Seq<char>),
>
    decreases children, 1int,
{
    if children.len() == 0 {
        Seq::empty()
    } else {
        flat_node(children[0].0@, children[0].1, case) + flat_children(
            children.drop_first(),
            case,
        )
    }
}

/// The scoped variables: the flattening of the subtree the selector walks
/// to.  Meaningful when the walk succeeds.
pub open spec fn spec_scoped(tree: Node, selector: Seq<char>, case: Option<Case>) -> Seq<
    (Seq<char>, Seq<char>),
> {
    match spec_walk(root_children(tree), split_dots(selector), 0) {
        Ok(sub) => flat_children(sub, case),
        Err(_) => Seq::empty(),
    }
}

/// Flatten one subtree into the map: a string leaf inserts its key and
/// value, a table recurses into each child, any other leaf is skipped.
fn flatten_node_into(key: &String, node: &Node, case: Option<Case>, map: &mut VarMap)
    ensures
        final(map)@ == insert_all(old(map)@, flat_node(key@, *node, case)),
        old(map).wf() ==> final(map).wf(),
    decreases *node, 0int,
{
    match node {
        Node::Str(v) => {
            let ghost m0 = map@;
            let tk = transform(case, key);
            map.insert(tk, v.clone());
            proof {
                let ps = flat_node(key@, *node, case);
                assert(ps =~= seq![(spec_transform(case, key@), v@)]);
                assert(ps.drop_first() =~= Seq::<(Seq<char>, Seq<char>)>::empty());
                assert(insert_all(spec_insert(m0, ps[0].0, ps[0].1), ps.drop_first())
                    == spec_insert(m0, ps[0].0, ps[0].1));
                assert(insert_all(m0, ps) == spec_insert(m0, ps[0].0, ps[0].1));
                if unique_keys(m0) {
                    lemma_insert_unique(m0, ps[0].0, ps[0].1);
                }
            }
        },
        Node::Other => {
            proof {
                assert(flat_node(key@, *node, case) =~= Seq::<(Seq<char>, Seq<char>)>::empty());
            }
        },
        Node::Table(children) => {
            flatten_children_into(children, 0, case, map);
            proof {
                assert(children@.skip(0) =~= children@);
            }
        },
    }
}

/// Flatten the children of a table, from index `i` on, into the map.
fn flatten_children_into(
    children: &Vec<(String, Node)>,
    i: usize,
    case: Option<Case>,
    map: &mut VarMap,
)
    requires
        i <= children@.len(),
    ensures
        final(map)@ == insert_all(old(map)@, flat_children(children@.skip(i as int), case)),
        old(map).wf() ==> final(map).wf(),
    decreases children@, children@.len() - i,
{
    let ghost m0 = map@;
    if i < children.len() {
        flatten_node_into(&children[i].0, &children[i].1, case, map);
        flatten_children_into(children, i + 1, case, map);
        proof {
            let rest = children@.skip(i as int);
            assert(rest[0] == children@[i as int]);
            assert(rest.drop_first() =~= children@.skip(i + 1));
            assert(flat_children(rest, case) == flat_node(children@[i as int].0@, children@[
            i as int].1, case) + flat_children(children@.skip(i + 1), case));
            lemma_insert_all_concat(
                m0,
                flat_node(children@[i as int].0@, children@[i as int].1, case),
                flat_children(children@.skip(i + 1), case),
            );
        }
    } else {
        proof {
            assert(children@.skip(i as int) =~= Seq::<(String, Node)>::empty());
        }
    }
}

/// The first child of a table named `key`, if any.
fn find_child<'a>(children: &'a Vec<(String, Node)>, key: &String) -> (r: Option<&'a Node>)
    ensures
        match r {
            Some(n) => child_lookup(children@, key@) == Some(*n),
            None => child_lookup(children@, key@) is None,
        },
{
    let n = children.len();
    let mut i: usize = 0;
    while i < n
        invariant
            n == children@.len(),
            i <= n,
            forall|j: int| 0 <= j < i ==> children@[j].0@ != key@,
        decreases n - i,
    {
        if children[i].0 == *key {
            proof {
                lemma_child_lookup_at(children@, key@, i as int);
            }
            return Some(&children[i].1);
        }
        i = i + 1;
    }
    proof {
        lemma_child_lookup_none(children@, key@);
    }
    None
}

/// If `children[i]` is the first child named `k`, that child is found.
proof fn lemma_child_lookup_at(children: Seq<(String, Node)>, k: Seq<char>, i: int)
    requires
        0 <= i < children.len(),
        children[i].0@ == k,
        forall|j: int| 0 <= j < i ==> children[j].0@ != k,
    ensures
        child_lookup(children, k) == Some(children[i].1),
    decreases i,
{
    if i > 0 {
        lemma_child_lookup_at(children.drop_first(), k, i - 1);
    }
}

/// If no child is named `k`, none is found.
proof fn lemma_child_lookup_none(children: Seq<(String, Node)>, k: Seq<char>)
    requires
        forall|j: int| 0 <= j < children.len() ==> children[j].0@ != k,
    ensures
        child_lookup(children, k) is None,
    decreases children.len(),
{
    if children.len() > 0 {
        lemma_child_lookup_none(children.drop_first(), k);
    }
}

/// Full resolution: global pairs inserted first, scoped pairs inserted
/// after them (so a scoped value overwrites a global one), or the index
/// of the selector segment that failed.
pub open spec fn spec_resolve(tree: Node, selector: Seq<char>, case: Option<Case>) -> Result<
    Seq<(Seq<char>, Seq<char>)>,
    int,
> {
    match spec_walk(root_children(tree), split_dots(selector), 0) {
        Ok(sub) => Ok(
            insert_all(
                insert_all(Seq::empty(), global_pairs(root_children(tree), case)),
                flat_children(sub, case),
            ),
        ),
        Err(i) => Err(i),
    }
}

/// The global variables of a tree, as resolution inserts them.
pub open spec fn spec_global(tree: Node, case: Option<Case>) -> Seq<(Seq<char>, Seq<char>)> {
    global_pairs(root_children(tree), case)
}

/// Global flattening distributes over concatenation of children.
proof fn lemma_global_concat(a: Seq<(String, Node)>, b: Seq<(String, Node)>, case: Option<Case>)
    ensures
        global_pairs(a + b, case) == global_pairs(a, case) + global_pairs(b, case),
    decreases a.len(),
{
    if a.len() == 0 {
        assert(a + b =~= b);
        assert(global_pairs(a, case) =~= Seq::<(Seq<char>, Seq<char>)>::empty());
        assert(global_pairs(a, case) + global_pairs(b, case) =~= global_pairs(b, case));
    } else {
        assert((a + b)[0] == a[0]);
        assert((a + b).drop_first() =~= a.drop_first() + b);
        lemma_global_concat(a.drop_first(), b, case);
        match a[0].1 {
            Node::Str(v) => {
                assert(global_pairs(a + b, case) =~= seq![(spec_transform(case, a[0].0@), v@)] + (
                global_pairs(a.drop_first(), case) + global_pairs(b, case)));
                assert(seq![(spec_transform(case, a[0].0@), v@)] + (global_pairs(
                    a.drop_first(),
                    case,
                ) + global_pairs(b, case)) =~= (seq![(spec_transform(case, a[0].0@), v@)]
                    + global_pairs(a.drop_first(), case)) + global_pairs(b, case));
            },
            _ => {},
        }
    }
}

/// Build the error for the selector segment at index `i`.
fn walk_error(segs: &Vec<String>, i: usize) -> (e: ProfileNotFoundError)
    requires
        i < segs@.len(),
    ensures
        e.segment@ == segs.deep_view()[i as int],
        e.consumed.deep_view() == segs.deep_view().take(i as int),
{
    let mut consumed: Vec<String> = Vec::new();
    let mut j: usize = 0;
    proof {
        assert(consumed.deep_view() =~= segs.deep_view().take(0));
    }
    while j < i
        invariant
            j <= i,
            i < segs@.len(),
            segs@.len() == segs.deep_view().len(),
            consumed@.len() == j,
            consumed.deep_view() =~= segs.deep_view().take(j as int),
        decreases i - j,
    {
        let ghost cpre = consumed.deep_view();
        let ghost cvpre = consumed@;
        consumed.push(segs[j].clone());
        proof {
            assert(consumed.deep_view() =~= cpre.push(segs@[j as int]@)) by {
                assert forall|w: int|
                    0 <= w < consumed.deep_view().len() implies consumed.deep_view()[w] == cpre.push(
                    segs@[j as int]@,
                )[w] by {
                    assert(consumed.deep_view()[w] == consumed@[w].deep_view());
                    if w < cvpre.len() {
                        assert(consumed@[w] == cvpre[w]);
                        assert(cpre[w] == cvpre[w].deep_view());
                    }
                }
            }
            assert(segs.deep_view()[j as int] == segs@[j as int]@);
            assert(consumed.deep_view() =~= segs.deep_view().take(j + 1));
        }
        j = j + 1;
    }
    ProfileNotFoundError { segment: segs[i].clone(), consumed }
}

/// Resolve a dotted profile selector against a configuration tree: the
/// merged map of global variables and the selected profile's variables,
/// with the scoped value winning a shared key; or the selector segment
/// that did not resolve to a table, with the partial path already walked.
pub fn resolve(tree: &Node, selector: &String, case: Option<Case>) -> (r: Result<
    VarMap,
    ProfileNotFoundError,
>)
    ensures
        match r {
            Ok(m) => {
                &&& spec_resolve(*tree, selector@, case) matches Ok(ps) && m@ == ps
                &&& m.wf()
            },
            Err(e) => {
                &&& spec_resolve(*tree, selector@, case) matches Err(j) && e.segment@ == split_dots(
                    selector@,
                )[j] && e.consumed.deep_view() == split_dots(selector@).take(j)
            },
        },
{
    let segs = split_selector(selector);
    let rootch: &Vec<(String, Node)> = match tree {
        Node::Table(ch) => ch,
        _ => {
            proof {
                assert(root_children(*tree) =~= Seq::<(String, Node)>::empty());
                lemma_child_lookup_none(root_children(*tree), segs.deep_view()[0]);
                assert(spec_walk(root_children(*tree), segs.deep_view(), 0) == Err::<
                    Seq<(String, Node)>,
                    int,
                >(0int));
            }
            let e = walk_error(&segs, 0);
            return Err(e);
        },
    };
    let ghost segsv = segs.deep_view();
    let mut cur: &Vec<(String, Node)> = rootch;
    let mut i: usize = 0;
    while i < segs.len()
        invariant
            i <= segsv.len(),
            segs.deep_view() == segsv,
            segs@.len() == segsv.len(),
            segsv == split_dots(selector@),
            spec_walk(root_children(*tree), segsv, 0) == spec_walk(cur@, segsv, i as int),
        decreases segsv.len() - i,
    {
        proof {
            assert(segsv[i as int] == segs@[i as int]@);
        }
        match find_child(cur, &segs[i]) {
            Some(child) => match child {
                Node::Table(sub) => {
                    cur = sub;
                    i = i + 1;
                },
                _ => {
                    proof {
                        assert(spec_walk(cur@, segsv, i as int) == Err::<Seq<(String, Node)>, int>(i as int));
                    }
                    let e = walk_error(&segs, i);
                    return Err(e);
                },
            },
            None => {
                proof {
                    assert(spec_walk(cur@, segsv, i as int) == Err::<Seq<(String, Node)>, int>(i as int));
                }
                let e = walk_error(&segs, i);
                return Err(e);
            },
        }
    }
    proof {
        assert(spec_walk(cur@, segsv, i as int) == Ok::<Seq<(String, Node)>, int>(cur@));
    }
    let mut map = VarMap::new();
    let n = rootch.len();
    let mut g: usize = 0;
    proof {
        assert(rootch@.take(0) =~= Seq::<(String, Node)>::empty());
        assert(map@ =~= insert_all(Seq::empty(), global_pairs(rootch@.take(0), case)));
    }
    while g < n
        invariant
            n == rootch@.len(),
            g <= n,
            map@ =~= insert_all(Seq::empty(), global_pairs(rootch@.take(g as int), case)),
            map.wf(),
        decreases n - g,
    {
        let ghost mpre = map@;
        match &rootch[g].1 {
            Node::Str(v) => {
                let tk = transform(case, &rootch[g].0);
                map.insert(tk, v.clone());
            },
            _ => {},
        }
        proof {
            let ghost single = seq![rootch@[g as int]];
            assert(rootch@.take(g + 1) =~= rootch@.take(g as int) + single);
            lemma_global_concat(rootch@.take(g as int), single, case);
            lemma_insert_all_concat(
                Seq::empty(),
                global_pairs(rootch@.take(g as int), case),
                global_pairs(single, case),
            );
            assert(single.drop_first() =~= Seq::<(String, Node)>::empty());
            assert(global_pairs(single.drop_first(), case) =~= Seq::<
                (Seq<char>, Seq<char>),
            >::empty());
            match single[0].1 {
                Node::Str(vv) => {
                    let p = (spec_transform(case, single[0].0@), vv@);
                    assert(global_pairs(single, case) =~= seq![p]);
                    assert(seq![p].drop_first() =~= Seq::<(Seq<char>, Seq<char>)>::empty());
                    assert(insert_all(spec_insert(mpre, p.0, p.1), seq![p].drop_first())
                        == spec_insert(mpre, p.0, p.1));
                    assert(insert_all(mpre, seq![p]) == spec_insert(mpre, p.0, p.1));
                },
                _ => {
                    assert(global_pairs(single, case) =~= Seq::<(Seq<char>, Seq<char>)>::empty());
                    assert(insert_all(mpre, global_pairs(single, case)) == mpre);
                },
            }
        }
        g = g + 1;
    }
    proof {
        assert(rootch@.take(n as int) =~= rootch@);
        assert(root_children(*tree) == rootch@);
    }
    flatten_children_into(cur, 0, case, &mut map);
    proof {
        assert(cur@.skip(0) =~= cur@);
    }
    Ok(map)
}

/// PRECEDENCE: when resolution succeeds, a key bound by the scoped
/// (profile-specific) map resolves to its scoped value, a key bound only
/// globally resolves to its global value, and no other key is bound.
pub proof fn lemma_resolve_precedence(
    tree: Node,
    selector: Seq<char>,
    case: Option<Case>,
    k: Seq<char>,
)
    requires
        spec_resolve(tree, selector, case) is Ok,
    ensures
        spec_resolve(tree, selector, case) matches Ok(m) && lookup(m, k) == match lookup_last(
            spec_scoped(tree, selector, case),
            k,
        ) {
            Some(v) => Some(v),
            None => lookup_last(spec_global(tree, case), k),
        },
{
    let g = spec_global(tree, case);
    let s = spec_scoped(tree, selector, case);
    lemma_lookup_insert_all(insert_all(Seq::empty(), g), s, k);
    lemma_lookup_insert_all(Seq::empty(), g, k);
    assert(lookup(Seq::<(Seq<char>, Seq<char>)>::empty(), k) is None);
}

} // verus!
