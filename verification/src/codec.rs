use vstd::prelude::*;
use vstd::string::StringExecFns;

use crate::errors::StoreCorruptError;
use crate::store::{store_unique, Metadata, Profile, ProfileV};
use crate::text::{push_char, str_chars};

verus! {

// The activation store persists as one JSON-shaped document:
//
//     {"<dir>":{"name":"<profile>","variables":["K","V"]},...}
//
// where `variables` is `null` for a record that has not resolved yet.
// Strings escape `"` and `\` with a backslash and carry every other
// character verbatim.  The serializer and the parser below are both
// written against the spec functions here, and parsing a serialized
// store provably returns the store unchanged.
/// One serialized character: `"` and `\` are escaped, the rest verbatim.
pub open spec fn esc_char(c: char) -> Seq<char> {
    if c == '"' || c == '\\' {
        seq!['\\', c]
    } else {
        seq![c]
    }
}

/// A string body with every character escaped.
pub open spec fn esc(s: Seq<char>) -> Seq<char>
    decreases s.len(),
{
    if s.len() == 0 {
        Seq::empty()
    } else {
        esc_char(s[0]) + esc(s.drop_first())
    }
}

/// A quoted, escaped string.
pub open spec fn ser_str(s: Seq<char>) -> Seq<char> {
    seq!['"'] + esc(s) + seq!['"']
}

/// The label before a record's profile name.
pub open spec fn name_label() -> Seq<char> {
    seq!['"', 'n', 'a', 'm', 'e', '"', ':']
}

/// The label before a record's exported keys.
pub open spec fn vars_label() -> Seq<char> {
    seq![',', '"', 'v', 'a', 'r', 'i', 'a', 'b', 'l', 'e', 's', '"', ':']
}

/// The text of an unresolved key list.
pub open spec fn null_text() -> Seq<char> {
    seq!['n', 'u', 'l', 'l']
}

/// Comma-separated quoted strings.
pub open spec fn ser_list(vs: Seq<Seq<char>>) -> Seq<char>
    decreases vs.len(),
{
    if vs.len() == 0 {
        Seq::empty()
    } else if vs.len() == 1 {
        ser_str(vs[0])
    } else {
        ser_str(vs[0]) + seq![','] + ser_list(vs.drop_first())
    }
}

/// A record's exported keys: `null`, or a bracketed list.
pub open spec fn ser_vars(vs: Option<Seq<Seq<char>>>) -> Seq<char> {
    match vs {
        Option::None => null_text(),
        Option::Some(vs) => seq!['['] + ser_list(vs) + seq![']'],
    }
}

/// One activation record.
pub open spec fn ser_profile(p: ProfileV) -> Seq<char> {
    seq!['{'] + name_label() + ser_str(p.name) + vars_label() + ser_vars(p.variables) + seq!['}']
}

/// One store entry: directory key, colon, record.
pub open spec fn ser_entry(k: Seq<char>, p: ProfileV) -> Seq<char> {
    ser_str(k) + seq![':'] + ser_profile(p)
}

/// Comma-separated entries.
pub open spec fn ser_entries(es: Seq<(Seq<char>, ProfileV)>) -> Seq<char>
    decreases es.len(),
{
    if es.len() == 0 {
        Seq::empty()
    } else if es.len() == 1 {
        ser_entry(es[0].0, es[0].1)
    } else {
        ser_entry(es[0].0, es[0].1) + seq![','] + ser_entries(es.drop_first())
    }
}

/// The whole persisted document.
pub open spec fn ser_doc(es: Seq<(Seq<char>, ProfileV)>) -> Seq<char> {
    seq!['{'] + ser_entries(es) + seq!['}']
}

/// Whether the text `m` stands at position `i` of `s`.
pub open spec fn matches_at(s: Seq<char>, i: int, m: Seq<char>) -> bool {
    0 <= i && i + m.len() <= s.len() && s.subrange(i, i + m.len()) == m
}

/// Parse a string body up to its closing quote: the unescaped content
/// and the position after the quote.
pub open spec fn p_str_body(s: Seq<char>, i: int) -> Option<(Seq<char>, int)>
    decreases s.len() - i,
{
    if i < 0 || i >= s.len() {
        None
    } else if s[i] == '"' {
        Some((Seq::empty(), i + 1))
    } else if s[i] == '\\' {
        if i + 1 < s.len() && (s[i + 1] == '"' || s[i + 1] == '\\') {
            match p_str_body(s, i + 2) {
                Some((t, j)) => Some((seq![s[i + 1]] + t, j)),
                None => None,
            }
        } else {
            None
        }
    } else {
        match p_str_body(s, i + 1) {
            Some((t, j)) => Some((seq![s[i]] + t, j)),
            None => None,
        }
    }
}

/// Parse a quoted string at `i`.
pub open spec fn p_str(s: Seq<char>, i: int) -> Option<(Seq<char>, int)> {
    if 0 <= i < s.len() && s[i] == '"' {
        p_str_body(s, i + 1)
    } else {
        None
    }
}

/// A parsed string body ends after its start and within the text.
pub proof fn lemma_p_str_body_bounds(s: Seq<char>, i: int)
    ensures
        p_str_body(s, i) matches Some(t) ==> i + 1 <= t.1 <= s.len(),
    decreases s.len() - i,
{
    if 0 <= i < s.len() {
        if s[i] == '"' {
        } else if s[i] == '\\' {
            if i + 1 < s.len() && (s[i + 1] == '"' || s[i + 1] == '\\') {
                lemma_p_str_body_bounds(s, i + 2);
            }
        } else {
            lemma_p_str_body_bounds(s, i + 1);
        }
    }
}

/// A parsed string ends at least two characters after its start.
pub proof fn lemma_p_str_bounds(s: Seq<char>, i: int)
    ensures
        p_str(s, i) matches Some(t) ==> i + 2 <= t.1 <= s.len(),
{
    lemma_p_str_body_bounds(s, i + 1);
}

/// Parse a nonempty comma-separated string list at `i`.
pub open spec fn p_list(s: Seq<char>, i: int) -> Option<(Seq<Seq<char>>, int)>
    decreases s.len() - i,
    via p_list_decreases
{
    match p_str(s, i) {
        Some((v, j)) => if j < s.len() && s[j] == ',' {
            match p_list(s, j + 1) {
                Some((vs, k)) => Some((seq![v] + vs, k)),
                None => None,
            }
        } else {
            Some((seq![v], j))
        },
        None => None,
    }
}

#[via_fn]
proof fn p_list_decreases(s: Seq<char>, i: int) {
    lemma_p_str_bounds(s, i);
}

/// A parsed list ends after its start and within the text.
pub proof fn lemma_p_list_bounds(s: Seq<char>, i: int)
    ensures
        p_list(s, i) matches Some(t) ==> i + 2 <= t.1 <= s.len(),
    decreases s.len() - i,
{
    lemma_p_str_bounds(s, i);
    match p_str(s, i) {
        Some((v, j)) => {
            if j < s.len() && s[j] == ',' {
                lemma_p_list_bounds(s, j + 1);
            }
        },
        None => {},
    }
}

/// Parse a record's exported keys at `i`: `null`, or a bracketed list.
pub open spec fn p_vars(s: Seq<char>, i: int) -> Option<(Option<Seq<Seq<char>>>, int)> {
    if matches_at(s, i, null_text()) {
        Some((Option::None, i + 4))
    } else if 0 <= i < s.len() && s[i] == '[' {
        if i + 1 < s.len() && s[i + 1] == ']' {
            Some((Option::Some(Seq::empty()), i + 2))
        } else {
            match p_list(s, i + 1) {
                Some((vs, j)) => if j < s.len() && s[j] == ']' {
                    Some((Option::Some(vs), j + 1))
                } else {
                    None
                },
                None => None,
            }
        }
    } else {
        None
    }
}

/// A parsed key list ends after its start and within the text.
pub proof fn lemma_p_vars_bounds(s: Seq<char>, i: int)
    ensures
        p_vars(s, i) matches Some(t) ==> i + 2 <= t.1 <= s.len(),
{
    lemma_p_list_bounds(s, i + 1);
}

/// Parse one activation record at `i`.
pub open spec fn p_profile(s: Seq<char>, i: int) -> Option<(ProfileV, int)> {
    if matches_at(s, i, seq!['{'] + name_label()) {
        match p_str(s, i + 8) {
            Some((name, j)) => if matches_at(s, j, vars_label()) {
                match p_vars(s, j + 13) {
                    Some((vars, k)) => if k < s.len() && s[k] == '}' {
                        Some(((ProfileV { name, variables: vars }), k + 1))
                    } else {
                        None
                    },
                    None => None,
                }
            } else {
                None
            },
            None => None,
        }
    } else {
        None
    }
}

/// A parsed record ends after its start and within the text.
pub proof fn lemma_p_profile_bounds(s: Seq<char>, i: int)
    ensures
        p_profile(s, i) matches Some(t) ==> i + 2 <= t.1 <= s.len(),
{
    lemma_p_str_bounds(s, i + 8);
    match p_str(s, i + 8) {
        Some((name, j)) => {
            lemma_p_vars_bounds(s, j + 13);
        },
        None => {},
    }
}

/// Parse one store entry at `i`: key, colon, record.
pub open spec fn p_entry(s: Seq<char>, i: int) -> Option<((Seq<char>, ProfileV), int)> {
    match p_str(s, i) {
        Some((k, j)) => if j < s.len() && s[j] == ':' {
            match p_profile(s, j + 1) {
                Some((p, m)) => Some(((k, p), m)),
                None => None,
            }
        } else {
            None
        },
        None => None,
    }
}

/// A parsed entry ends after its start and within the text.
pub proof fn lemma_p_entry_bounds(s: Seq<char>, i: int)
    ensures
        p_entry(s, i) matches Some(t) ==> i + 2 <= t.1 <= s.len(),
{
    lemma_p_str_bounds(s, i);
    match p_str(s, i) {
        Some((k, j)) => {
            lemma_p_profile_bounds(s, j + 1);
        },
        None => {},
    }
}

/// Parse a nonempty comma-separated entry list at `i`.
pub open spec fn p_entries(s: Seq<char>, i: int) -> Option<(Seq<(Seq<char>, ProfileV)>, int)>
    decreases s.len() - i,
    via p_entries_decreases
{
    match p_entry(s, i) {
        Some((e, j)) => if j < s.len() && s[j] == ',' {
            match p_entries(s, j + 1) {
                Some((es, k)) => Some((seq![e] + es, k)),
                None => None,
            }
        } else {
            Some((seq![e], j))
        },
        None => None,
    }
}

#[via_fn]
proof fn p_entries_decreases(s: Seq<char>, i: int) {
    lemma_p_entry_bounds(s, i);
}

/// Parse a whole persisted document: the document must be consumed
/// exactly, else it is corrupt.
pub open spec fn p_doc(s: Seq<char>) -> Option<Seq<(Seq<char>, ProfileV)>> {
    if s.len() == 2 && s[0] == '{' && s[1] == '}' {
        Some(Seq::empty())
    } else if s.len() > 2 && s[0] == '{' {
        match p_entries(s, 1) {
            Some((es, j)) => if j == s.len() - 1 && s[j] == '}' {
                Some(es)
            } else {
                None
            },
            None => None,
        }
    } else {
        None
    }
}

/// A match of a concatenation is a match of each part in place.
proof fn lemma_matches_concat(s: Seq<char>, i: int, a: Seq<char>, b: Seq<char>)
    requires
        matches_at(s, i, a + b),
    ensures
        matches_at(s, i, a),
        matches_at(s, i + a.len(), b),
{
    assert forall|j: int| 0 <= j < (a + b).len() implies s[i + j] == (a + b)[j] by {
        assert(s.subrange(i, i + (a + b).len())[j] == s[i + j]);
    }
    assert(s.subrange(i, i + a.len()) =~= a) by {
        assert forall|j: int| 0 <= j < a.len() implies s.subrange(i, i + a.len())[j] == a[j] by {
            assert(s.subrange(i, i + a.len())[j] == s[i + j]);
            assert((a + b)[j] == a[j]);
        }
    }
    assert(s.subrange(i + a.len(), i + a.len() + b.len()) =~= b) by {
        assert forall|j: int|
            0 <= j < b.len() implies s.subrange(i + a.len(), i + a.len() + b.len())[j] == b[j] by {
            assert(s.subrange(i + a.len(), i + a.len() + b.len())[j] == s[i + a.len() + j]);
            assert((a + b)[a.len() + j] == b[j]);
        }
    }
}

/// The character a single-character match stands for.
proof fn lemma_matches_char(s: Seq<char>, i: int, c: char)
    requires
        matches_at(s, i, seq![c]),
    ensures
        0 <= i < s.len() && s[i] == c,
{
    assert(s.subrange(i, i + 1)[0] == s[i]);
}

/// Parsing a string body that was escaped returns the original content
/// and stops right after the closing quote.
proof fn lemma_parse_esc(s: Seq<char>, i: int, c: Seq<char>)
    requires
        matches_at(s, i, esc(c) + seq!['"']),
    ensures
        p_str_body(s, i) == Some((c, i + esc(c).len() + 1)),
    decreases c.len(),
{
    if c.len() == 0 {
        assert(esc(c) =~= Seq::<char>::empty());
        assert(esc(c) + seq!['"'] =~= seq!['"']);
        lemma_matches_char(s, i, '"');
    } else {
        let c0 = c[0];
        let rest = c.drop_first();
        assert(esc(c) == esc_char(c0) + esc(rest));
        assert((esc_char(c0) + esc(rest)) + seq!['"'] =~= esc_char(c0) + (esc(rest)
            + seq!['"']));
        lemma_matches_concat(s, i, esc_char(c0), esc(rest) + seq!['"']);
        if c0 == '"' || c0 == '\\' {
            assert(esc_char(c0) =~= seq!['\\'] + seq![c0]);
            lemma_matches_concat(s, i, seq!['\\'], seq![c0]);
            lemma_matches_char(s, i, '\\');
            lemma_matches_char(s, i + 1, c0);
            lemma_parse_esc(s, i + 2, rest);
            assert(seq![s[i + 1]] + rest =~= c);
        } else {
            assert(esc_char(c0) =~= seq![c0]);
            lemma_matches_char(s, i, c0);
            lemma_parse_esc(s, i + 1, rest);
            assert(seq![s[i]] + rest =~= c);
        }
    }
}

/// Parsing a serialized string returns the original and stops at its end.
proof fn lemma_parse_str(s: Seq<char>, i: int, c: Seq<char>)
    requires
        matches_at(s, i, ser_str(c)),
    ensures
        p_str(s, i) == Some((c, i + ser_str(c).len())),
{
    assert(ser_str(c) =~= seq!['"'] + (esc(c) + seq!['"']));
    lemma_matches_concat(s, i, seq!['"'], esc(c) + seq!['"']);
    lemma_matches_char(s, i, '"');
    lemma_parse_esc(s, i + 1, c);
}

/// Parsing a serialized nonempty list returns the original, provided the
/// character after the list region is not a comma.
proof fn lemma_parse_list(s: Seq<char>, i: int, vs: Seq<Seq<char>>)
    requires
        vs.len() >= 1,
        matches_at(s, i, ser_list(vs)),
        i + ser_list(vs).len() == s.len() || s[i + ser_list(vs).len()] != ',',
    ensures
        p_list(s, i) == Some((vs, i + ser_list(vs).len())),
    decreases vs.len(),
{
    if vs.len() == 1 {
        assert(ser_list(vs) == ser_str(vs[0]));
        lemma_parse_str(s, i, vs[0]);
        assert(seq![vs[0]] =~= vs);
    } else {
        let head = ser_str(vs[0]);
        let tail = ser_list(vs.drop_first());
        assert(ser_list(vs) == head + seq![','] + tail);
        assert((head + seq![','] + tail) =~= head + (seq![','] + tail));
        lemma_matches_concat(s, i, head, seq![','] + tail);
        lemma_matches_concat(s, i + head.len(), seq![','], tail);
        lemma_matches_char(s, i + head.len(), ',');
        lemma_parse_str(s, i, vs[0]);
        lemma_parse_list(s, i + head.len() + 1, vs.drop_first());
        assert(seq![vs[0]] + vs.drop_first() =~= vs);
    }
}

/// Parsing a serialized key list returns the original.
proof fn lemma_parse_vars(s: Seq<char>, i: int, ov: Option<Seq<Seq<char>>>)
    requires
        matches_at(s, i, ser_vars(ov)),
    ensures
        p_vars(s, i) == Some((ov, i + ser_vars(ov).len())),
{
    match ov {
        Option::None => {
        },
        Option::Some(vs) => {
            let inner = ser_list(vs);
            assert(ser_vars(ov) =~= seq!['['] + (inner + seq![']']));
            lemma_matches_concat(s, i, seq!['['], inner + seq![']']);
            lemma_matches_concat(s, i + 1, inner, seq![']']);
            lemma_matches_char(s, i, '[');
            lemma_matches_char(s, i + 1 + inner.len(), ']');
            assert(!matches_at(s, i, null_text())) by {
                if matches_at(s, i, null_text()) {
                    assert(s.subrange(i, i + 4)[0] == s[i]);
                }
            }
            if vs.len() == 0 {
                assert(inner =~= Seq::<char>::empty());
                assert(s[i + 1] == ']');
            } else {
                assert(s[i + 1] != ']') by {
                    assert(ser_str(vs[0]) =~= seq!['"'] + (esc(vs[0]) + seq!['"']));
                    if vs.len() == 1 {
                        assert(inner == ser_str(vs[0]));
                    } else {
                        assert(inner == ser_str(vs[0]) + seq![','] + ser_list(vs.drop_first()));
                    }
                    assert(inner[0] == '"');
                    assert(s.subrange(i + 1, i + 1 + inner.len())[0] == s[i + 1]);
                }
                lemma_parse_list(s, i + 1, vs);
            }
        },
    }
}

/// Parsing a serialized record returns the original.
proof fn lemma_parse_profile(s: Seq<char>, i: int, p: ProfileV)
    requires
        matches_at(s, i, ser_profile(p)),
    ensures
        p_profile(s, i) == Some((p, i + ser_profile(p).len())),
{
    let open = seq!['{'] + name_label();
    let name = ser_str(p.name);
    let vars = ser_vars(p.variables);
    assert(ser_profile(p) =~= open + (name + (vars_label() + (vars + seq!['}']))));
    lemma_matches_concat(s, i, open, name + (vars_label() + (vars + seq!['}'])));
    let i1 = i + open.len();
    lemma_matches_concat(s, i1, name, vars_label() + (vars + seq!['}']));
    let i2 = i1 + name.len();
    lemma_matches_concat(s, i2, vars_label(), vars + seq!['}']);
    let i3 = i2 + vars_label().len();
    lemma_matches_concat(s, i3, vars, seq!['}']);
    let i4 = i3 + vars.len();
    lemma_matches_char(s, i4, '}');
    lemma_parse_str(s, i + 8, p.name);
    lemma_parse_vars(s, i3, p.variables);
    assert((ProfileV { name: p.name, variables: p.variables }) == p);
}

/// Parsing a serialized entry returns the original.
proof fn lemma_parse_entry(s: Seq<char>, i: int, k: Seq<char>, p: ProfileV)
    requires
        matches_at(s, i, ser_entry(k, p)),
    ensures
        p_entry(s, i) == Some(((k, p), i + ser_entry(k, p).len())),
{
    let key = ser_str(k);
    assert(ser_entry(k, p) =~= key + (seq![':'] + ser_profile(p)));
    lemma_matches_concat(s, i, key, seq![':'] + ser_profile(p));
    lemma_matches_concat(s, i + key.len(), seq![':'], ser_profile(p));
    lemma_matches_char(s, i + key.len(), ':');
    lemma_parse_str(s, i, k);
    lemma_parse_profile(s, i + key.len() + 1, p);
}

/// Parsing serialized nonempty entries returns the originals, provided
/// the character after the region is not a comma.
proof fn lemma_parse_entries(s: Seq<char>, i: int, es: Seq<(Seq<char>, ProfileV)>)
    requires
        es.len() >= 1,
        matches_at(s, i, ser_entries(es)),
        i + ser_entries(es).len() == s.len() || s[i + ser_entries(es).len()] != ',',
    ensures
        p_entries(s, i) == Some((es, i + ser_entries(es).len())),
    decreases es.len(),
{
    if es.len() == 1 {
        assert(ser_entries(es) == ser_entry(es[0].0, es[0].1));
        lemma_parse_entry(s, i, es[0].0, es[0].1);
        assert(seq![es[0]] =~= es);
        assert(seq![(es[0].0, es[0].1)] =~= es);
    } else {
        let head = ser_entry(es[0].0, es[0].1);
        let tail = ser_entries(es.drop_first());
        assert(ser_entries(es) == head + seq![','] + tail);
        assert((head + seq![','] + tail) =~= head + (seq![','] + tail));
        lemma_matches_concat(s, i, head, seq![','] + tail);
        lemma_matches_concat(s, i + head.len(), seq![','], tail);
        lemma_matches_char(s, i + head.len(), ',');
        lemma_parse_entry(s, i, es[0].0, es[0].1);
        lemma_parse_entries(s, i + head.len() + 1, es.drop_first());
        assert(seq![(es[0].0, es[0].1)] + es.drop_first() =~= es);
    }
}

/// Escaping one more character extends the escaped text.
proof fn lemma_esc_snoc(s: Seq<char>, c: char)
    ensures
        esc(s.push(c)) == esc(s) + esc_char(c),
    decreases s.len(),
{
    if s.len() == 0 {
        assert(s.push(c)[0] == c);
        assert(s.push(c).drop_first() =~= Seq::<char>::empty());
        assert(esc(s.push(c).drop_first()) =~= Seq::<char>::empty());
        assert(esc(s.push(c)) =~= esc_char(c));
        assert(esc(s) + esc_char(c) =~= esc_char(c));
    } else {
        assert(s.push(c)[0] == s[0]);
        assert(s.push(c).drop_first() =~= s.drop_first().push(c));
        lemma_esc_snoc(s.drop_first(), c);
        assert(esc_char(s[0]) + (esc(s.drop_first()) + esc_char(c)) =~= (esc_char(s[0]) + esc(
            s.drop_first(),
        )) + esc_char(c));
    }
}

/// Serializing one more list element extends the serialized list.
proof fn lemma_ser_list_snoc(vs: Seq<Seq<char>>, v: Seq<char>)
    ensures
        ser_list(vs.push(v)) == if vs.len() == 0 {
            ser_str(v)
        } else {
            ser_list(vs) + seq![','] + ser_str(v)
        },
    decreases vs.len(),
{
    if vs.len() == 0 {
        assert(vs.push(v)[0] == v);
        assert(ser_list(vs.push(v)) == ser_str(v));
    } else {
        assert(vs.push(v)[0] == vs[0]);
        assert(vs.push(v).drop_first() =~= vs.drop_first().push(v));
        lemma_ser_list_snoc(vs.drop_first(), v);
        if vs.len() == 1 {
            assert(vs.drop_first().len() == 0);
            assert(ser_list(vs.push(v)) == ser_str(vs[0]) + seq![','] + ser_str(v));
            assert(ser_list(vs) == ser_str(vs[0]));
        } else {
            assert(ser_list(vs.push(v)) == ser_str(vs[0]) + seq![','] + (ser_list(vs.drop_first())
                + seq![','] + ser_str(v)));
            assert(ser_str(vs[0]) + seq![','] + (ser_list(vs.drop_first()) + seq![','] + ser_str(
                v,
            )) =~= (ser_str(vs[0]) + seq![','] + ser_list(vs.drop_first())) + seq![','] + ser_str(
                v,
            ));
        }
    }
}

/// Serializing one more entry extends the serialized entries.
proof fn lemma_ser_entries_snoc(es: Seq<(Seq<char>, ProfileV)>, e: (Seq<char>, ProfileV))
    ensures
        ser_entries(es.push(e)) == if es.len() == 0 {
            ser_entry(e.0, e.1)
        } else {
            ser_entries(es) + seq![','] + ser_entry(e.0, e.1)
        },
    decreases es.len(),
{
    if es.len() == 0 {
        assert(es.push(e)[0] == e);
        assert(ser_entries(es.push(e)) == ser_entry(e.0, e.1));
    } else {
        assert(es.push(e)[0] == es[0]);
        assert(es.push(e).drop_first() =~= es.drop_first().push(e));
        lemma_ser_entries_snoc(es.drop_first(), e);
        if es.len() == 1 {
            assert(es.drop_first().len() == 0);
            assert(ser_entries(es.push(e)) == ser_entry(es[0].0, es[0].1) + seq![','] + ser_entry(
                e.0,
                e.1,
            ));
            assert(ser_entries(es) == ser_entry(es[0].0, es[0].1));
        } else {
            assert(ser_entries(es.push(e)) == ser_entry(es[0].0, es[0].1) + seq![','] + (
            ser_entries(es.drop_first()) + seq![','] + ser_entry(e.0, e.1)));
            assert(ser_entry(es[0].0, es[0].1) + seq![','] + (ser_entries(es.drop_first())
                + seq![','] + ser_entry(e.0, e.1)) =~= (ser_entry(es[0].0, es[0].1) + seq![',']
                + ser_entries(es.drop_first())) + seq![','] + ser_entry(e.0, e.1));
        }
    }
}

/// Append one serialized string to the output.
fn w_string(out: &mut String, s: &str)
    ensures
        final(out)@ == old(out)@ + ser_str(s@),
{
    let ghost base = out@;
    push_char(out, '"');
    let chars = str_chars(s);
    let n = chars.len();
    let mut i: usize = 0;
    proof {
        assert(esc(s@.take(0)) =~= Seq::<char>::empty());
        assert(out@ =~= base + seq!['"'] + esc(s@.take(0)));
    }
    while i < n
        invariant
            n == s@.len(),
            chars@ == s@,
            i <= n,
            out@ == base + seq!['"'] + esc(s@.take(i as int)),
        decreases n - i,
    {
        let c = chars[i];
        if c == '"' || c == '\\' {
            push_char(out, '\\');
        }
        push_char(out, c);
        proof {
            lemma_esc_snoc(s@.take(i as int), c);
            assert(s@.take(i + 1) =~= s@.take(i as int).push(c));
            if c == '"' || c == '\\' {
                assert(esc_char(c) =~= seq!['\\', c]);
                assert(out@ =~= (base + seq!['"'] + esc(s@.take(i as int))).push('\\').push(c));
                assert((base + seq!['"'] + esc(s@.take(i as int))).push('\\').push(c) =~= base
                    + seq!['"'] + (esc(s@.take(i as int)) + esc_char(c)));
            } else {
                assert(esc_char(c) =~= seq![c]);
                assert(out@ =~= (base + seq!['"'] + esc(s@.take(i as int))).push(c));
                assert((base + seq!['"'] + esc(s@.take(i as int))).push(c) =~= base + seq!['"'] + (
                esc(s@.take(i as int)) + esc_char(c)));
            }
        }
        i = i + 1;
    }
    push_char(out, '"');
    proof {
        assert(s@.take(n as int) =~= s@);
        assert(out@ =~= (base + seq!['"'] + esc(s@)).push('"'));
        assert((base + seq!['"'] + esc(s@)).push('"') =~= base + (seq!['"'] + esc(s@)
            + seq!['"']));
    }
}

/// Append a record's serialized key list to the output.
fn w_vars(out: &mut String, vs: &Option<Vec<String>>)
    ensures
        final(out)@ == old(out)@ + ser_vars(
            match *vs {
                Option::Some(v) => Option::Some(v.deep_view()),
                Option::None => Option::None,
            },
        ),
{
    let ghost base = out@;
    match vs {
        Option::None => {
            out.append("null");
            proof {
                reveal_strlit("null");
                assert("null"@ =~= null_text());
            }
        },
        Option::Some(v) => {
            push_char(out, '[');
            let n = v.len();
            let mut i: usize = 0;
            proof {
                assert(ser_list(v.deep_view().take(0)) =~= Seq::<char>::empty());
                assert(out@ =~= base + seq!['['] + ser_list(v.deep_view().take(0)));
            }
            while i < n
                invariant
                    n == v@.len(),
                    v.deep_view().len() == n,
                    i <= n,
                    out@ == base + seq!['['] + ser_list(v.deep_view().take(i as int)),
                decreases n - i,
            {
                let ghost pre = out@;
                if i > 0 {
                    push_char(out, ',');
                }
                w_string(out, v[i].as_str());
                proof {
                    let dv = v.deep_view();
                    assert(dv[i as int] == v@[i as int]@);
                    assert(dv.take(i + 1) =~= dv.take(i as int).push(dv[i as int]));
                    lemma_ser_list_snoc(dv.take(i as int), dv[i as int]);
                    if i == 0 {
                        assert(dv.take(0).len() == 0);
                        assert(out@ =~= pre + ser_str(dv[0]));
                        assert(pre + ser_str(dv[0]) =~= base + seq!['['] + ser_list(dv.take(1)));
                    } else {
                        assert(out@ =~= pre.push(',') + ser_str(dv[i as int]));
                        assert(pre.push(',') + ser_str(dv[i as int]) =~= base + seq!['['] + (
                        ser_list(dv.take(i as int)) + seq![','] + ser_str(dv[i as int])));
                    }
                }
                i = i + 1;
            }
            push_char(out, ']');
            proof {
                let dv = v.deep_view();
                assert(dv.take(n as int) =~= dv);
                assert(out@ =~= (base + seq!['['] + ser_list(dv)).push(']'));
                assert((base + seq!['['] + ser_list(dv)).push(']') =~= base + (seq!['[']
                    + ser_list(dv) + seq![']']));
            }
        },
    }
}

/// Append one serialized activation record to the output.
fn w_profile(out: &mut String, p: &Profile)
    ensures
        final(out)@ == old(out)@ + ser_profile(p@),
{
    let ghost base = out@;
    push_char(out, '{');
    out.append("\"name\":");
    let ghost after_label = out@;
    proof {
        reveal_strlit("\"name\":");
        assert("\"name\":"@ =~= name_label());
        assert(after_label =~= base + seq!['{'] + name_label());
    }
    w_string(out, p.name.as_str());
    out.append(",\"variables\":");
    let ghost after_vars_label = out@;
    proof {
        reveal_strlit(",\"variables\":");
        assert(",\"variables\":"@ =~= vars_label());
        assert(after_vars_label =~= base + seq!['{'] + name_label() + ser_str(p.name@)
            + vars_label());
    }
    w_vars(out, &p.variables);
    push_char(out, '}');
    proof {
        assert(out@ =~= (after_vars_label + ser_vars(p@.variables)).push('}'));
        assert((after_vars_label + ser_vars(p@.variables)).push('}') =~= base + (seq!['{']
            + name_label() + ser_str(p@.name) + vars_label() + ser_vars(p@.variables)
            + seq!['}']));
    }
}

impl Metadata {
    /// Serialize the whole store as its persisted document.  The caller
    /// writes the text to the store's well-known path, atomically.
    pub fn save(&self) -> (r: String)
        ensures
            r@ == ser_doc(self@),
    {
        let mut out = String::new();
        push_char(&mut out, '{');
        let n = self.profiles.len();
        let mut i: usize = 0;
        proof {
            assert(ser_entries(self@.take(0)) =~= Seq::<char>::empty());
            assert(out@ =~= seq!['{'] + ser_entries(self@.take(0)));
        }
        while i < n
            invariant
                n == self@.len(),
                i <= n,
                out@ == seq!['{'] + ser_entries(self@.take(i as int)),
            decreases n - i,
        {
            let ghost pre = out@;
            if i > 0 {
                push_char(&mut out, ',');
            }
            w_string(&mut out, self.profiles[i].0.as_str());
            push_char(&mut out, ':');
            w_profile(&mut out, &self.profiles[i].1);
            proof {
                let e = self@[i as int];
                assert(e == (self.profiles@[i as int].0@, self.profiles@[i as int].1@));
                assert(self@.take(i + 1) =~= self@.take(i as int).push(e));
                lemma_ser_entries_snoc(self@.take(i as int), e);
                if i == 0 {
                    assert(self@.take(0).len() == 0);
                    assert(out@ =~= pre + ser_str(e.0) + seq![':'] + ser_profile(e.1));
                    assert(pre + ser_str(e.0) + seq![':'] + ser_profile(e.1) =~= seq!['{']
                        + ser_entries(self@.take(1)));
                } else {
                    assert(out@ =~= pre.push(',') + ser_str(e.0) + seq![':'] + ser_profile(e.1));
                    assert(pre.push(',') + ser_str(e.0) + seq![':'] + ser_profile(e.1) =~= seq![
                        '{',
                    ] + (ser_entries(self@.take(i as int)) + seq![','] + ser_entry(e.0, e.1)));
                }
            }
            i = i + 1;
        }
        push_char(&mut out, '}');
        proof {
            assert(self@.take(n as int) =~= self@);
            assert(out@ =~= (seq!['{'] + ser_entries(self@)).push('}'));
            assert((seq!['{'] + ser_entries(self@)).push('}') =~= ser_doc(self@));
        }
        out
    }
}

/// The key lists of records, as views.
pub open spec fn vars_view(vs: Option<Vec<String>>) -> Option<Seq<Seq<char>>> {
    match vs {
        Option::Some(v) => Option::Some(v.deep_view()),
        Option::None => Option::None,
    }
}

/// Parse one quoted string of the document.
fn x_string(doc: &Vec<char>, i: usize) -> (r: Option<(String, usize)>)
    ensures
        match r {
            Some(t) => p_str(doc@, i as int) == Some((t.0@, t.1 as int)) && i < t.1 <= doc@.len(),
            None => p_str(doc@, i as int) is None,
        },
{
    let n = doc.len();
    if i >= n || doc[i] != '"' {
        return None;
    }
    let mut j = i + 1;
    let mut acc = String::new();
    proof {
        assert(match p_str_body(doc@, j as int) {
            Some((t, k)) => p_str_body(doc@, (i + 1) as int) == Some((acc@ + t, k)),
            None => p_str_body(doc@, (i + 1) as int) is None,
        }) by {
            let r0 = p_str_body(doc@, j as int);
            match r0 {
                Some((t, k)) => {
                    assert(acc@ + t =~= t);
                },
                None => {},
            }
        }
    }
    while j < n
        invariant
            n == doc@.len(),
            i < n,
            doc@[i as int] == '"',
            i + 1 <= j <= n,
            match p_str_body(doc@, j as int) {
                Some((t, k)) => p_str_body(doc@, (i + 1) as int) == Some((acc@ + t, k)),
                None => p_str_body(doc@, (i + 1) as int) is None,
            },
        decreases n - j,
    {
        let c = doc[j];
        if c == '"' {
            proof {
                assert(p_str_body(doc@, j as int) == Some((Seq::<char>::empty(), j + 1)));
                assert(acc@ + Seq::<char>::empty() =~= acc@);
                assert(p_str(doc@, i as int) == p_str_body(doc@, (i + 1) as int));
            }
            return Some((acc, j + 1));
        } else if c == '\\' {
            if j + 1 < n && (doc[j + 1] == '"' || doc[j + 1] == '\\') {
                let ghost apre = acc@;
                push_char(&mut acc, doc[j + 1]);
                proof {
                    lemma_p_str_body_bounds(doc@, (j + 2) as int);
                    let r2 = p_str_body(doc@, (j + 2) as int);
                    match r2 {
                        Some((t, k)) => {
                            assert(apre + (seq![doc@[j + 1]] + t) =~= acc@ + t);
                        },
                        None => {},
                    }
                }
                j = j + 2;
            } else {
                return None;
            }
        } else {
            let ghost apre = acc@;
            push_char(&mut acc, c);
            proof {
                lemma_p_str_body_bounds(doc@, (j + 1) as int);
                let r2 = p_str_body(doc@, (j + 1) as int);
                match r2 {
                    Some((t, k)) => {
                        assert(apre + (seq![doc@[j as int]] + t) =~= acc@ + t);
                    },
                    None => {},
                }
            }
            j = j + 1;
        }
    }
    proof {
        assert(p_str_body(doc@, j as int) is None);
        assert(p_str(doc@, i as int) == p_str_body(doc@, (i + 1) as int));
    }
    None
}

/// Whether `null` stands at position `i`.
fn match_null(doc: &Vec<char>, i: usize) -> (r: bool)
    ensures
        r == matches_at(doc@, i as int, null_text()),
{
    if i <= doc.len() && doc.len() - i >= 4 && doc[i] == 'n' && doc[i + 1] == 'u' && doc[i + 2]
        == 'l' && doc[i + 3] == 'l' {
        proof {
            assert(doc@.subrange(i as int, i + 4) =~= null_text()) by {
                assert forall|w: int|
                    0 <= w < 4 implies doc@.subrange(i as int, i + 4)[w] == null_text()[w] by {
                    assert(doc@.subrange(i as int, i + 4)[w] == doc@[i + w]);
                }
            }
        }
        true
    } else {
        proof {
            if matches_at(doc@, i as int, null_text()) {
                assert(null_text() =~= seq!['n', 'u', 'l', 'l']);
                assert(doc@.subrange(i as int, i + 4)[0] == doc@[i as int]);
                assert(doc@.subrange(i as int, i + 4)[1] == doc@[i + 1]);
                assert(doc@.subrange(i as int, i + 4)[2] == doc@[i + 2]);
                assert(doc@.subrange(i as int, i + 4)[3] == doc@[i + 3]);
            }
        }
        false
    }
}

/// Whether a record opener (brace and name label) stands at position `i`.
fn match_name_label(doc: &Vec<char>, i: usize) -> (r: bool)
    ensures
        r == matches_at(doc@, i as int, seq!['{'] + name_label()),
{
    let ghost m = seq!['{'] + name_label();
    if i <= doc.len() && doc.len() - i >= 8 && doc[i] == '{' && doc[i + 1] == '"' && doc[i + 2]
        == 'n' && doc[i + 3] == 'a' && doc[i + 4] == 'm' && doc[i + 5] == 'e' && doc[i + 6] == '"'
        && doc[i + 7] == ':' {
        proof {
            assert(doc@.subrange(i as int, i + 8) =~= m) by {
                assert forall|w: int| 0 <= w < 8 implies doc@.subrange(i as int, i + 8)[w]
                    == m[w] by {
                    assert(doc@.subrange(i as int, i + 8)[w] == doc@[i + w]);
                }
            }
        }
        true
    } else {
        proof {
            if matches_at(doc@, i as int, m) {
                assert(m =~= seq!['{', '"', 'n', 'a', 'm', 'e', '"', ':']);
                assert forall|w: int| 0 <= w < 8 implies doc@[i + w] == m[w] by {
                    assert(doc@.subrange(i as int, i + 8)[w] == doc@[i + w]);
                }
                assert(doc@[i as int] == '{');
                assert(doc@[i + 1] == '"');
                assert(doc@[i + 2] == 'n');
                assert(doc@[i + 3] == 'a');
                assert(doc@[i + 4] == 'm');
                assert(doc@[i + 5] == 'e');
                assert(doc@[i + 6] == '"');
                assert(doc@[i + 7] == ':');
            }
        }
        false
    }
}

/// Whether the variables label stands at position `i`.
fn match_vars_label(doc: &Vec<char>, i: usize) -> (r: bool)
    ensures
        r == matches_at(doc@, i as int, vars_label()),
{
    let ghost m = vars_label();
    if i <= doc.len() && doc.len() - i >= 13 && doc[i] == ',' && doc[i + 1] == '"' && doc[i + 2]
        == 'v' && doc[i + 3] == 'a' && doc[i + 4] == 'r' && doc[i + 5] == 'i' && doc[i + 6] == 'a'
        && doc[i + 7] == 'b' && doc[i + 8] == 'l' && doc[i + 9] == 'e' && doc[i + 10] == 's' && doc[i
        + 11] == '"' && doc[i + 12] == ':' {
        proof {
            assert(doc@.subrange(i as int, i + 13) =~= m) by {
                assert forall|w: int| 0 <= w < 13 implies doc@.subrange(i as int, i + 13)[w]
                    == m[w] by {
                    assert(doc@.subrange(i as int, i + 13)[w] == doc@[i + w]);
                }
            }
        }
        true
    } else {
        proof {
            if matches_at(doc@, i as int, m) {
                assert(m =~= seq![',', '"', 'v', 'a', 'r', 'i', 'a', 'b', 'l', 'e', 's', '"', ':']);
                assert forall|w: int| 0 <= w < 13 implies doc@[i + w] == m[w] by {
                    assert(doc@.subrange(i as int, i + 13)[w] == doc@[i + w]);
                }
                assert(doc@[i as int] == ',');
                assert(doc@[i + 1] == '"');
                assert(doc@[i + 2] == 'v');
                assert(doc@[i + 3] == 'a');
                assert(doc@[i + 4] == 'r');
                assert(doc@[i + 5] == 'i');
                assert(doc@[i + 6] == 'a');
                assert(doc@[i + 7] == 'b');
                assert(doc@[i + 8] == 'l');
                assert(doc@[i + 9] == 'e');
                assert(doc@[i + 10] == 's');
                assert(doc@[i + 11] == '"');
                assert(doc@[i + 12] == ':');
            }
        }
        false
    }
}

/// Parse a record's key list.
fn x_vars(doc: &Vec<char>, i: usize) -> (r: Option<(Option<Vec<String>>, usize)>)
    ensures
        match r {
            Some(t) => p_vars(doc@, i as int) == Some((vars_view(t.0), t.1 as int)) && i < t.1
                <= doc@.len(),
            None => p_vars(doc@, i as int) is None,
        },
{
    let n = doc.len();
    if match_null(doc, i) {
        proof {
            assert(vars_view(Option::None) == Option::None::<Seq<Seq<char>>>);
        }
        return Some((None, i + 4));
    }
    if i < n && doc[i] == '[' {
        if i + 1 < n && doc[i + 1] == ']' {
            let empty: Vec<String> = Vec::new();
            proof {
                assert(empty.deep_view() =~= Seq::<Seq<char>>::empty());
            }
            return Some((Some(empty), i + 2));
        }
        let mut vs: Vec<String> = Vec::new();
        let mut j = i + 1;
        proof {
            let r0 = p_list(doc@, j as int);
            match r0 {
                Some((l, k)) => {
                    assert(vs.deep_view() + l =~= l);
                },
                None => {},
            }
        }
        loop
            invariant
                n == doc@.len(),
                i + 1 <= j <= n,
                !matches_at(doc@, i as int, null_text()),
                i < n && doc@[i as int] == '[',
                !(i + 1 < n && doc@[i + 1] == ']'),
                match p_list(doc@, j as int) {
                    Some((l, k)) => p_list(doc@, (i + 1) as int) == Some((vs.deep_view() + l, k)),
                    None => p_list(doc@, (i + 1) as int) is None,
                },
            decreases n - j,
        {
            match x_string(doc, j) {
                Option::Some((v, j2)) => {
                    let ghost vpre = vs.deep_view();
                    let ghost vvpre = vs@;
                    vs.push(v);
                    proof {
                        assert(vs.deep_view() =~= vpre.push(v@)) by {
                            assert forall|w: int|
                                0 <= w < vs.deep_view().len() implies vs.deep_view()[w]
                                == vpre.push(v@)[w] by {
                                assert(vs.deep_view()[w] == vs@[w].deep_view());
                                if w < vvpre.len() {
                                    assert(vs@[w] == vvpre[w]);
                                    assert(vpre[w] == vvpre[w].deep_view());
                                }
                            }
                        }
                    }
                    if j2 < n && doc[j2] == ',' {
                        proof {
                            let r2 = p_list(doc@, (j2 + 1) as int);
                            match r2 {
                                Some((l, k)) => {
                                    assert(vpre + (seq![v@] + l) =~= vs.deep_view() + l);
                                },
                                None => {},
                            }
                        }
                        j = j2 + 1;
                    } else {
                        proof {
                            assert(vpre + seq![v@] =~= vs.deep_view());
                            assert(p_list(doc@, j as int) == Some((seq![v@], j2 as int)));
                            assert(p_list(doc@, (i + 1) as int) == Some(
                                (vs.deep_view(), j2 as int),
                            ));
                        }
                        if j2 < n && doc[j2] == ']' {
                            proof {
                                assert(p_vars(doc@, i as int) == Some(
                                    (Option::Some(vs.deep_view()), j2 + 1),
                                ));
                            }
                            return Some((Some(vs), j2 + 1));
                        } else {
                            proof {
                                assert(p_vars(doc@, i as int) is None);
                            }
                            return None;
                        }
                    }
                },
                Option::None => {
                    proof {
                        assert(p_list(doc@, j as int) is None);
                        assert(p_vars(doc@, i as int) is None);
                    }
                    return None;
                },
            }
        }
    }
    None
}

/// Parse one activation record.
fn x_profile(doc: &Vec<char>, i: usize) -> (r: Option<(Profile, usize)>)
    ensures
        match r {
            Some(t) => p_profile(doc@, i as int) == Some((t.0@, t.1 as int)) && i < t.1
                <= doc@.len(),
            None => p_profile(doc@, i as int) is None,
        },
{
    if !match_name_label(doc, i) {
        return None;
    }
    let n = doc.len();
    proof {
        assert((seq!['{'] + name_label()).len() == 8);
        assert(i + 8 <= n);
    }
    match x_string(doc, i + 8) {
        Option::None => None,
        Option::Some((name, j)) => {
            if !match_vars_label(doc, j) {
                return None;
            }
            proof {
                assert(vars_label().len() == 13);
                assert(j + 13 <= n);
            }
            match x_vars(doc, j + 13) {
                Option::None => None,
                Option::Some((vars, k)) => {
                    if k < doc.len() && doc[k] == '}' {
                        let p = Profile { name, variables: vars };
                        proof {
                            assert(p@ == (ProfileV { name: p.name@, variables: vars_view(
                                p.variables,
                            ) }));
                        }
                        Some((p, k + 1))
                    } else {
                        None
                    }
                },
            }
        },
    }
}

/// Parse one store entry.
fn x_entry(doc: &Vec<char>, i: usize) -> (r: Option<((String, Profile), usize)>)
    ensures
        match r {
            Some(t) => p_entry(doc@, i as int) == Some(((t.0.0@, t.0.1@), t.1 as int)) && i < t.1
                <= doc@.len(),
            None => p_entry(doc@, i as int) is None,
        },
{
    match x_string(doc, i) {
        Option::None => None,
        Option::Some((k, j)) => {
            if j < doc.len() && doc[j] == ':' {
                match x_profile(doc, j + 1) {
                    Option::Some((p, m)) => Some(((k, p), m)),
                    Option::None => None,
                }
            } else {
                None
            }
        },
    }
}

/// Whether no two entries share a directory key.
fn keys_unique(entries: &Vec<(String, Profile)>) -> (r: bool)
    ensures
        r == store_unique(entries@.map_values(|p: (String, Profile)| (p.0@, p.1@))),
{
    let ghost view = entries@.map_values(|p: (String, Profile)| (p.0@, p.1@));
    let n = entries.len();
    let mut i: usize = 0;
    while i < n
        invariant
            n == entries@.len(),
            view == entries@.map_values(|p: (String, Profile)| (p.0@, p.1@)),
            i <= n,
            forall|a: int, b: int| 0 <= a < i && a < b < n ==> view[a].0 != view[b].0,
        decreases n - i,
    {
        let mut j = i + 1;
        while j < n
            invariant
                n == entries@.len(),
                view == entries@.map_values(|p: (String, Profile)| (p.0@, p.1@)),
                i < j <= n || (i + 1 == j && j > n),
                i < n,
                forall|b: int| i < b < j ==> view[i as int].0 != view[b].0,
            decreases n - j,
        {
            if entries[i].0 == entries[j].0 {
                proof {
                    assert(view[i as int].0 == view[j as int].0);
                }
                return false;
            }
            j = j + 1;
        }
        i = i + 1;
    }
    true
}

impl Metadata {
    /// Parse the persisted document back into a store.  No document means
    /// a first run: the empty store.  A document that does not parse, has
    /// trailing text, or repeats a directory key is corrupt; corruption
    /// is surfaced, never silently reset.
    pub fn load(doc: Option<&str>) -> (r: Result<Metadata, StoreCorruptError>)
        ensures
            match doc {
                None => r matches Ok(m) && m@ =~= Seq::<(Seq<char>, ProfileV)>::empty() && m.wf(),
                Some(d) => match r {
                    Ok(m) => p_doc(d@) == Some(m@) && m.wf(),
                    Err(_) => p_doc(d@) is None || (p_doc(d@) matches Some(es) && !store_unique(
                        es,
                    )),
                },
            },
{
        let d = match doc {
            Option::Some(d) => d,
            Option::None => {
                return Ok(Metadata::new());
            },
        };
        let chars = str_chars(d);
        let n = chars.len();
        if n == 2 && chars[0] == '{' && chars[1] == '}' {
            let m = Metadata::new();
            return Ok(m);
        }
        if n <= 2 || chars[0] != '{' {
            return Err(StoreCorruptError);
        }
        let mut entries: Vec<(String, Profile)> = Vec::new();
        let mut j: usize = 1;
        proof {
            let r0 = p_entries(d@, j as int);
            match r0 {
                Some((es, k)) => {
                    assert(entries@.map_values(|p: (String, Profile)| (p.0@, p.1@)) + es =~= es);
                },
                None => {},
            }
        }
        loop
            invariant
                doc == Option::Some(d),
                n == d@.len(),
                chars@ == d@,
                n > 2,
                d@[0] == '{',
                1 <= j <= n,
                match p_entries(d@, j as int) {
                    Some((es, k)) => p_entries(d@, 1) == Some(
                        (entries@.map_values(|p: (String, Profile)| (p.0@, p.1@)) + es, k),
                    ),
                    None => p_entries(d@, 1) is None,
                },
            decreases n - j,
        {
            match x_entry(&chars, j) {
                Option::None => {
                    return Err(StoreCorruptError);
                },
                Option::Some((e, j2)) => {
                    let ghost epre = entries@.map_values(|p: (String, Profile)| (p.0@, p.1@));
                    let ghost evpre = entries@;
                    let ghost ev = (e.0@, e.1@);
                    entries.push(e);
                    proof {
                        assert(entries@.map_values(|p: (String, Profile)| (p.0@, p.1@))
                            =~= epre.push(ev)) by {
                            let cur = entries@.map_values(|p: (String, Profile)| (p.0@, p.1@));
                            assert forall|w: int| 0 <= w < cur.len() implies cur[w] == epre.push(
                                ev,
                            )[w] by {
                                if w < evpre.len() {
                                    assert(entries@[w] == evpre[w]);
                                }
                            }
                        }
                    }
                    if j2 < n && chars[j2] == ',' {
                        proof {
                            let r2 = p_entries(d@, (j2 + 1) as int);
                            match r2 {
                                Some((es, k)) => {
                                    assert(epre + (seq![ev] + es) =~= epre.push(ev) + es);
                                },
                                None => {},
                            }
                        }
                        j = j2 + 1;
                    } else {
                        proof {
                            assert(epre + seq![ev] =~= epre.push(ev));
                        }
                        if j2 == n - 1 && chars[j2] == '}' {
                            let m = Metadata { profiles: entries };
                            if keys_unique(&m.profiles) {
                                return Ok(m);
                            } else {
                                return Err(StoreCorruptError);
                            }
                        } else {
                            return Err(StoreCorruptError);
                        }
                    }
                },
            }
        }
    }
}

/// ROUND TRIP: parsing the serialized form of any store content returns
/// exactly that content, so `load` after `save` yields an equal store.
pub proof fn lemma_parse_ser_doc(es: Seq<(Seq<char>, ProfileV)>)
    ensures
        p_doc(ser_doc(es)) == Some(es),
{
    let s = ser_doc(es);
    if es.len() == 0 {
        assert(ser_entries(es) =~= Seq::<char>::empty());
        assert(s =~= seq!['{', '}']);
    } else {
        let body = ser_entries(es);
        assert(body.len() >= 2) by {
            if es.len() == 1 {
                assert(body == ser_entry(es[0].0, es[0].1));
            }
            assert(ser_str(es[0].0).len() >= 2);
        }
        assert(s =~= seq!['{'] + (body + seq!['}']));
        assert(matches_at(s, 0, s)) by {
            assert(s.subrange(0, s.len() as int) =~= s);
        }
        lemma_matches_concat(s, 0, seq!['{'], body + seq!['}']);
        lemma_matches_concat(s, 1, body, seq!['}']);
        lemma_matches_char(s, 0, '{');
        lemma_matches_char(s, 1 + body.len() as int, '}');
        lemma_parse_entries(s, 1, es);
        assert(s.len() > 2);
    }
}

} // verus!
