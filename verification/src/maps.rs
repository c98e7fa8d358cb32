//! Maps with string keys, read from and written as JSON objects.
use std::collections::{BTreeMap, HashMap};
use vstd::prelude::*;
use vstd::utf8::encode_utf8;

use crate::deserialize::{Parser, Token};
use crate::error::ParseError;
use crate::grammar::{
    expect_outcome, key_outcome, lemma_lex_bounds, lemma_string_end, lex, member_outcome,
    string_scanned, unexpected, Lexed,
};
use crate::entries::{
    covers, drawn_from, key_bytes, keys_distinct, keys_increasing, lemma_sorted_listing_unique,
    lists_sorted, sort_entries, sorted_entries,
};
use crate::format::{quoted, spaces};
use crate::serialize::{
    closing_prefix, element_prefix, item_prefix, lemma_prefix_extend, lemma_prefix_of_append,
    lemma_prefix_refl, lemma_prefix_trans, prefix_of, Scope, ScopeKind, Serialize, SerializeError,
    Serializer,
};
use crate::values::{lemma_expect_end, Deserialize};
use crate::write::Write;
use vstd::string::StringSliceAdditionalSpecFns;

verus! {

/// Where the rest of an object ends (after its `}`), reading members from `p` with
/// `first` as in [`member_outcome`], or the error.
pub open spec fn members_end<'src, 'buf, V: Deserialize<'src, 'buf>>(
    src: Seq<u8>,
    p: int,
    first: bool,
    cap: nat,
) -> Result<int, ParseError>
    decreases src.len() - p,
    when 0 <= p <= src.len()
{
    match member_outcome(src, p, first, cap) {
        Err(e) => Err(e),
        Ok(None) => match expect_outcome(src, p, Token::CloseCurly) {
            Ok((_, e)) => Ok(e),
            Err(e) => Err(e),
        },
        Ok(Some((_, _, e2))) => match V::read_end(src, e2, cap) {
            Err(e) => Err(e),
            Ok(e) => if p < e <= src.len() {
                members_end::<V>(src, e, false, cap)
            } else {
                Err(unexpected(e, "}", "value"))
            },
        },
    }
}

/// `keys` and `vals` are the members, in order, that the rest of an object gives,
/// reading from `p` with `first` as in [`member_outcome`].
pub open spec fn members_give<'src, 'buf, V: Deserialize<'src, 'buf>>(
    src: Seq<u8>,
    p: int,
    first: bool,
    cap: nat,
    keys: Seq<String>,
    vals: Seq<V>,
) -> bool
    decreases keys.len(),
{
    match member_outcome(src, p, first, cap) {
        Err(_) => false,
        Ok(None) => keys.len() == 0 && vals.len() == 0,
        Ok(Some((key, _, e2))) => keys.len() > 0 && vals.len() > 0 && encode_utf8(keys[0]@) == key
            && V::read_gives(src, e2, cap, vals[0]) && match V::read_end(src, e2, cap) {
            Ok(e) => members_give::<V>(src, e, false, cap, keys.skip(1), vals.skip(1)),
            Err(_) => false,
        },
    }
}

/// The map made by inserting the members in order; a later key replaces an earlier one.
pub open spec fn inserted<V>(keys: Seq<String>, vals: Seq<V>) -> Map<String, V>
    decreases keys.len(),
{
    if keys.len() == 0 || vals.len() == 0 {
        Map::empty()
    } else {
        inserted(keys.drop_last(), vals.drop_last()).insert(keys.last(), vals.last())
    }
}

/// A member read at `p` ends after `p`, within the source.
proof fn lemma_member_bounds(src: Seq<u8>, p: int, first: bool, cap: nat)
    requires
        0 <= p <= src.len(),
    ensures
        member_outcome(src, p, first, cap) matches Ok(Some((_, _, e2))) ==> p < e2 <= src.len(),
{
    lemma_lex_bounds(src, p);
    match lex(src, p) {
        Lexed::Tok { token, start, end } => {
            if token == Token::Comma {
                lemma_lex_bounds(src, end);
                match lex(src, end) {
                    Lexed::Tok { token: t2, start: s2, end: _ } => {
                        lemma_key_bounds(src, s2, cap);
                    },
                    Lexed::Fail { .. } => {},
                }
            } else if token == Token::String {
                lemma_key_bounds(src, start, cap);
            }
        },
        Lexed::Fail { .. } => {},
    }
}

/// A key read at its quote `k` ends after it, within the source.
proof fn lemma_key_bounds(src: Seq<u8>, k: int, cap: nat)
    requires
        0 <= k <= src.len(),
    ensures
        key_outcome(src, k, cap) matches Ok((_, e2)) ==> k < e2 <= src.len(),
{
    lemma_string_end(src, k, cap, true);
    if let Ok((_, e1)) = string_scanned(src, k, cap, true) {
        lemma_expect_end(src, e1, Token::Colon);
    }
}

/// Reading one more member extends what the members read so far give.
proof fn lemma_members_extend<'src, 'buf, V: Deserialize<'src, 'buf>>(
    src: Seq<u8>,
    p0: int,
    p: int,
    first: bool,
    cap: nat,
    keys: Seq<String>,
    vals: Seq<V>,
    key: String,
    x: V,
    e: int,
)
    requires
        forall|ks: Seq<String>, vs: Seq<V>|
            members_give::<V>(src, p, first, cap, ks, vs) ==> #[trigger] members_give::<V>(
                src,
                p0,
                true,
                cap,
                keys + ks,
                vals + vs,
            ),
        member_outcome(src, p, first, cap) matches Ok(Some((kb, _, e2))) && encode_utf8(key@) == kb
            && V::read_gives(src, e2, cap, x) && V::read_end(src, e2, cap) == Ok::<int, ParseError>(
            e,
        ),
    ensures
        forall|ks: Seq<String>, vs: Seq<V>|
            members_give::<V>(src, e, false, cap, ks, vs) ==> #[trigger] members_give::<V>(
                src,
                p0,
                true,
                cap,
                keys.push(key) + ks,
                vals.push(x) + vs,
            ),
{
    assert forall|ks: Seq<String>, vs: Seq<V>|
        members_give::<V>(src, e, false, cap, ks, vs) implies #[trigger] members_give::<V>(
        src,
        p0,
        true,
        cap,
        keys.push(key) + ks,
        vals.push(x) + vs,
    ) by {
        let k2 = seq![key] + ks;
        let v2 = seq![x] + vs;
        assert(k2.skip(1) =~= ks);
        assert(v2.skip(1) =~= vs);
        assert(k2[0] == key);
        assert(v2[0] == x);
        assert(members_give::<V>(src, p, first, cap, k2, v2));
        assert(keys + k2 =~= keys.push(key) + ks);
        assert(vals + v2 =~= vals.push(x) + vs);
    }
}

/// Reads the next member of an object: `None` at its closing `}` (which is left unread),
/// else the member's key and value.
fn read_member<'src, 'buf, V: Deserialize<'src, 'buf>>(parser: &mut Parser<'src, 'buf>) -> (r: Result<
    Option<(String, V)>,
    ParseError,
>)
    ensures
        final(parser).source() == old(parser).source(),
        final(parser).capacity() == old(parser).capacity(),
        match member_outcome(
            old(parser).source(),
            old(parser).position(),
            old(parser).at_first(),
            old(parser).capacity(),
        ) {
            Err(e) => r == Err::<Option<(String, V)>, ParseError>(e),
            Ok(None) => r == Ok::<Option<(String, V)>, ParseError>(None) && final(parser).position()
                == old(parser).position() && final(parser).at_first() == old(parser).at_first(),
            Ok(Some((kb, _, e2))) => V::obeys_read_end() ==> match V::read_end(
                old(parser).source(),
                e2,
                old(parser).capacity(),
            ) {
                Err(e) => r == Err::<Option<(String, V)>, ParseError>(e),
                Ok(e) => r matches Ok(Some((k, x))) && encode_utf8(k@) == kb && V::read_gives(
                    old(parser).source(),
                    e2,
                    old(parser).capacity(),
                    x,
                ) && final(parser).position() == e && !final(parser).at_first() && old(
                    parser,
                ).position() < e <= old(parser).source().len(),
            },
        },
        r matches Ok(Some(_)) ==> old(parser).position() < final(parser).position(),
        r matches Ok(None) ==> final(parser).position() == old(parser).position()
            && final(parser).at_first() == old(parser).at_first() && member_outcome(
            old(parser).source(),
            old(parser).position(),
            old(parser).at_first(),
            old(parser).capacity(),
        ) == Ok::<Option<(Seq<u8>, int, int)>, ParseError>(None),
{
    parser.position_in_source();
    proof {
        lemma_member_bounds(parser.source(), parser.position(), parser.at_first(), parser.capacity());
    }
    let key: String = match parser.member() {
        Err(e) => {
            return Err(e);
        },
        Ok(None) => {
            return Ok(None);
        },
        Ok(Some(k)) => k.to_owned(),
    };
    match V::deserialize(parser) {
        Err(e) => Err(e),
        Ok(x) => Ok(Some((key, x))),
    }
}

impl<'src, 'buf, V: Deserialize<'src, 'buf>> Deserialize<'src, 'buf> for BTreeMap<String, V> {
    open spec fn obeys_read_end() -> bool {
        V::obeys_read_end()
    }

    open spec fn read_end(src: Seq<u8>, pos: int, cap: nat) -> Result<int, ParseError> {
        match expect_outcome(src, pos, Token::OpenCurly) {
            Ok((_, p0)) => members_end::<V>(src, p0, true, cap),
            Err(e) => Err(e),
        }
    }

    /// The members read, in order; when `String`'s ordering obeys its specification,
    /// the map holds them inserted in that order.
    open spec fn read_gives(src: Seq<u8>, pos: int, cap: nat, v: BTreeMap<String, V>) -> bool {
        match expect_outcome(src, pos, Token::OpenCurly) {
            Ok((_, p0)) => exists|keys: Seq<String>, vals: Seq<V>|
                #[trigger] members_give::<V>(src, p0, true, cap, keys, vals) && (
                vstd::laws_cmp::obeys_cmp::<String>() ==> v@ == inserted(keys, vals)),
            Err(_) => false,
        }
    }

    #[verifier::rlimit(100)]
    fn deserialize(parser: &mut Parser<'src, 'buf>) -> (r: Result<BTreeMap<String, V>, ParseError>) {
        parser.position_in_source();
        proof {
            lemma_expect_end(parser.source(), parser.position(), Token::OpenCurly);
        }
        match parser.object_begin() {
            Err(e) => {
                return Err(e);
            },
            Ok(()) => {},
        }
        let ghost src = parser.source();
        let ghost cap = parser.capacity();
        let ghost p0 = parser.position();
        parser.position_in_source();
        let mut map: BTreeMap<String, V> = BTreeMap::new();
        let ghost mut keys: Seq<String> = Seq::empty();
        let ghost mut vals: Seq<V> = Seq::empty();
        assert forall|ks: Seq<String>, vs: Seq<V>|
            members_give::<V>(src, parser.position(), parser.at_first(), cap, ks, vs) implies members_give::<V>(
            src,
            p0,
            true,
            cap,
            keys + ks,
            vals + vs,
        ) by {
            assert(keys + ks =~= ks);
            assert(vals + vs =~= vs);
        }
        loop
            invariant
                parser.source() == src,
                parser.capacity() == cap,
                0 <= parser.position() <= src.len(),
                0 <= p0 <= src.len(),
                old(parser).position() < p0 <= parser.position(),
                V::obeys_read_end() ==> members_end::<V>(src, p0, true, cap) == members_end::<V>(
                    src,
                    parser.position(),
                    parser.at_first(),
                    cap,
                ),
                V::obeys_read_end() ==> (forall|ks: Seq<String>, vs: Seq<V>|
                    members_give::<V>(src, parser.position(), parser.at_first(), cap, ks, vs)
                        ==> #[trigger] members_give::<V>(src, p0, true, cap, keys + ks, vals + vs)),
                vstd::laws_cmp::obeys_cmp::<String>() ==> map@ == inserted(keys, vals),
                keys.len() == vals.len(),
                expect_outcome(src, old(parser).position(), Token::OpenCurly) matches Ok((_, q))
                    && q == p0,
                src == old(parser).source(),
                cap == old(parser).capacity(),
            decreases src.len() - parser.position(),
        {
            let ghost p = parser.position();
            let ghost first = parser.at_first();
            match read_member::<V>(parser) {
                Err(e) => {
                    return Err(e);
                },
                Ok(None) => {
                    proof {
                        lemma_expect_end(src, p, Token::CloseCurly);
                    }
                    let end = parser.object_end();
                    parser.position_in_source();
                    match end {
                        Err(e) => {
                            return Err(e);
                        },
                        Ok(()) => {
                            proof {
                                if V::obeys_read_end() {
                                    assert(members_give::<V>(src, p, first, cap, Seq::empty(), Seq::empty()));
                                    assert(keys + Seq::<String>::empty() =~= keys);
                                    assert(vals + Seq::<V>::empty() =~= vals);
                                    assert(members_give::<V>(src, p0, true, cap, keys, vals));
                                }
                            }
                            return Ok(map);
                        },
                    }
                },
                Ok(Some((key, x))) => {
                    parser.position_in_source();
                    let ghost before_keys = keys;
                    let ghost before_vals = vals;
                    proof {
                        keys = keys.push(key);
                        vals = vals.push(x);
                        if V::obeys_read_end() {
                            lemma_members_extend::<V>(src, p0, p, first, cap, before_keys, before_vals, key, x, parser.position());
                        }
                    }
                    map.insert(key, x);
                    proof {
                        assert(keys.drop_last() =~= before_keys);
                        assert(vals.drop_last() =~= before_vals);
                    }
                },
            }
        }
    }
}

impl<'src, 'buf, V: Deserialize<'src, 'buf>> Deserialize<'src, 'buf> for HashMap<String, V> {
    open spec fn obeys_read_end() -> bool {
        V::obeys_read_end()
    }

    open spec fn read_end(src: Seq<u8>, pos: int, cap: nat) -> Result<int, ParseError> {
        match expect_outcome(src, pos, Token::OpenCurly) {
            Ok((_, p0)) => members_end::<V>(src, p0, true, cap),
            Err(e) => Err(e),
        }
    }

    /// The members read, in order; when `String`'s hashing and equality obey their model,
    /// the map holds them inserted in that order.
    open spec fn read_gives(src: Seq<u8>, pos: int, cap: nat, v: HashMap<String, V>) -> bool {
        match expect_outcome(src, pos, Token::OpenCurly) {
            Ok((_, p0)) => exists|keys: Seq<String>, vals: Seq<V>|
                #[trigger] members_give::<V>(src, p0, true, cap, keys, vals) && (
                vstd::std_specs::hash::obeys_key_model::<String>() ==> v@ == inserted(keys, vals)),
            Err(_) => false,
        }
    }

    #[verifier::rlimit(100)]
    fn deserialize(parser: &mut Parser<'src, 'buf>) -> (r: Result<HashMap<String, V>, ParseError>) {
        broadcast use vstd::std_specs::hash::axiom_random_state_builds_valid_hashers;

        parser.position_in_source();
        proof {
            lemma_expect_end(parser.source(), parser.position(), Token::OpenCurly);
        }
        match parser.object_begin() {
            Err(e) => {
                return Err(e);
            },
            Ok(()) => {},
        }
        let ghost src = parser.source();
        let ghost cap = parser.capacity();
        let ghost p0 = parser.position();
        parser.position_in_source();
        let mut map: HashMap<String, V> = HashMap::new();
        let ghost mut keys: Seq<String> = Seq::empty();
        let ghost mut vals: Seq<V> = Seq::empty();
        assert forall|ks: Seq<String>, vs: Seq<V>|
            members_give::<V>(src, parser.position(), parser.at_first(), cap, ks, vs) implies members_give::<V>(
            src,
            p0,
            true,
            cap,
            keys + ks,
            vals + vs,
        ) by {
            assert(keys + ks =~= ks);
            assert(vals + vs =~= vs);
        }
        loop
            invariant
                parser.source() == src,
                parser.capacity() == cap,
                0 <= parser.position() <= src.len(),
                0 <= p0 <= src.len(),
                old(parser).position() < p0 <= parser.position(),
                V::obeys_read_end() ==> members_end::<V>(src, p0, true, cap) == members_end::<V>(
                    src,
                    parser.position(),
                    parser.at_first(),
                    cap,
                ),
                V::obeys_read_end() ==> (forall|ks: Seq<String>, vs: Seq<V>|
                    members_give::<V>(src, parser.position(), parser.at_first(), cap, ks, vs)
                        ==> #[trigger] members_give::<V>(src, p0, true, cap, keys + ks, vals + vs)),
                vstd::std_specs::hash::obeys_key_model::<String>() ==> map@ == inserted(keys, vals),
                keys.len() == vals.len(),
                expect_outcome(src, old(parser).position(), Token::OpenCurly) matches Ok((_, q))
                    && q == p0,
                src == old(parser).source(),
                cap == old(parser).capacity(),
            decreases src.len() - parser.position(),
        {
            let ghost p = parser.position();
            let ghost first = parser.at_first();
            match read_member::<V>(parser) {
                Err(e) => {
                    return Err(e);
                },
                Ok(None) => {
                    proof {
                        lemma_expect_end(src, p, Token::CloseCurly);
                    }
                    let end = parser.object_end();
                    parser.position_in_source();
                    match end {
                        Err(e) => {
                            return Err(e);
                        },
                        Ok(()) => {
                            proof {
                                if V::obeys_read_end() {
                                    assert(members_give::<V>(src, p, first, cap, Seq::empty(), Seq::empty()));
                                    assert(keys + Seq::<String>::empty() =~= keys);
                                    assert(vals + Seq::<V>::empty() =~= vals);
                                    assert(members_give::<V>(src, p0, true, cap, keys, vals));
                                }
                            }
                            return Ok(map);
                        },
                    }
                },
                Ok(Some((key, x))) => {
                    parser.position_in_source();
                    let ghost before_keys = keys;
                    let ghost before_vals = vals;
                    proof {
                        keys = keys.push(key);
                        vals = vals.push(x);
                        if V::obeys_read_end() {
                            lemma_members_extend::<V>(src, p0, p, first, cap, before_keys, before_vals, key, x, parser.position());
                        }
                    }
                    map.insert(key, x);
                    proof {
                        assert(keys.drop_last() =~= before_keys);
                        assert(vals.drop_last() =~= before_vals);
                    }
                },
            }
        }
    }
}

/// The text of one member, key and value, of an object whose members sit at `depth`;
/// `i` members come before it.
pub open spec fn member_text<V: Serialize>(i: nat, key: Seq<u8>, v: V, pp: nat, depth: nat) -> Seq<u8> {
    let sp: Seq<u8> = if pp > 0 {
        seq![0x20u8]
    } else {
        Seq::empty()
    };
    item_prefix(i, pp, depth) + quoted(key) + seq![0x3Au8] + sp + v.json_text(pp, depth)
}

/// The members of an object, each with its separator, for members that sit at `depth`.
pub open spec fn members_text<V: Serialize>(entries: Seq<(String, V)>, pp: nat, depth: nat) -> Seq<u8>
    decreases entries.len(),
{
    if entries.len() == 0 {
        Seq::empty()
    } else {
        members_text(entries.drop_last(), pp, depth) + member_text(
            (entries.len() - 1) as nat,
            key_bytes(entries.last().0),
            entries.last().1,
            pp,
            depth,
        )
    }
}

/// The JSON text of an object with these members, written at `depth` open scopes.
pub open spec fn object_text<V: Serialize>(entries: Seq<(String, V)>, pp: nat, depth: nat) -> Seq<u8> {
    let close: Seq<u8> = if pp > 0 && entries.len() > 0 {
        seq![0x0Au8] + spaces(depth * pp)
    } else {
        Seq::empty()
    };
    seq![0x7Bu8] + members_text(entries, pp, depth + 1) + close + seq![0x7Du8]
}

/// The entries behind a list of references.
pub open spec fn owned_pairs<V>(s: Seq<(&String, &V)>) -> Seq<(String, V)> {
    s.map_values(|e: (&String, &V)| (*e.0, *e.1))
}

/// `l` lists the entries of `m`, each key once.
pub open spec fn lists_entries<V>(m: Map<String, V>, l: Seq<(&String, &V)>) -> bool {
    &&& forall|i: int| 0 <= i < l.len() ==> #[trigger] m.contains_key(*l[i].0) && m[*l[i].0] == *l[i].1
    &&& forall|k: String| #[trigger] m.contains_key(k) ==> exists|i: int| 0 <= i < l.len() && *l[i].0 == k
    &&& keys_distinct(l)
}

/// Lists the entries of a `BTreeMap` through `BTreeMap::iter`, collected into a `Vec`.
/// The contract states that each entry of the map comes out once; it does not state the
/// order, which callers do not rely on.
#[verifier::external_body]
fn btree_entries<'a, V>(m: &'a BTreeMap<String, V>) -> (r: Vec<(&'a String, &'a V)>)
    ensures
        lists_entries(m@, r@),
{
    m.iter().collect()
}

/// Lists the entries of a `HashMap` through `HashMap::iter`, collected into a `Vec`.
/// The contract states that each entry of the map comes out once, in whatever order the
/// map is walked.
#[verifier::external_body]
fn hash_entries<'a, V>(m: &'a HashMap<String, V>) -> (r: Vec<(&'a String, &'a V)>)
    ensures
        lists_entries(m@, r@),
{
    m.iter().collect()
}

/// The members text of a prefix of `entries` is a prefix of the whole members text.
pub(crate) proof fn lemma_members_text_prefix<V: Serialize>(entries: Seq<(String, V)>, k: nat, pp: nat, depth: nat)
    requires
        k <= entries.len(),
    ensures
        prefix_of(members_text(entries.take(k as int), pp, depth), members_text(entries, pp, depth)),
    decreases entries.len() - k,
{
    if k == entries.len() {
        assert(entries.take(k as int) =~= entries);
        lemma_prefix_refl(members_text(entries, pp, depth));
    } else {
        lemma_members_text_prefix(entries, k + 1, pp, depth);
        let t = entries.take(k as int + 1);
        assert(t.drop_last() =~= entries.take(k as int));
        let m = member_text(k, key_bytes(t.last().0), t.last().1, pp, depth);
        assert(members_text(t, pp, depth) == members_text(entries.take(k as int), pp, depth) + m);
        lemma_prefix_of_append(members_text(entries.take(k as int), pp, depth), m, members_text(entries, pp, depth));
    }
}

/// A sorted selection of a complete listing of `m` is the sorted listing of `m`.
/// Where every value of `m` serializes, every value of a listing drawn from its entries
/// does too.
proof fn lemma_listing_serializes_at<'a, V: Serialize>(
    m: Map<String, V>,
    listed: Seq<(&'a String, &'a V)>,
    sorted: Seq<(&'a String, &'a V)>,
    depth: nat,
)
    requires
        lists_entries(m, listed),
        drawn_from(sorted, listed, listed.len() as int),
    ensures
        map_serializes_at(m, depth) ==> members_serialize_at(owned_pairs(sorted), depth),
{
    if map_serializes_at(m, depth) {
        reveal(drawn_from);
        assert forall|i: int| 0 <= i < owned_pairs(sorted).len() implies #[trigger] owned_pairs(
            sorted,
        )[i].1.serializes_at(depth + 1) by {
            let j = choose|j: int| 0 <= j < listed.len() && sorted[i] == listed[j];
            assert(m.contains_key(*listed[j].0));
        }
    }
}

#[verifier::spinoff_prover]
proof fn lemma_sorted_is_listing<'a, V>(
    m: Map<String, V>,
    listed: Seq<(&'a String, &'a V)>,
    sorted: Seq<(&'a String, &'a V)>,
)
    requires
        lists_entries(m, listed),
        drawn_from(sorted, listed, listed.len() as int),
        covers(sorted, listed, listed.len() as int),
        keys_increasing(sorted),
    ensures
        owned_pairs(sorted) == sorted_entries(m),
{
    let l = owned_pairs(sorted);
    assert(l.len() == sorted.len());
    assert forall|i: int| 0 <= i < l.len() implies #[trigger] l[i] == (*sorted[i].0, *sorted[i].1) by {}
    assert forall|i: int| 0 <= i < l.len() implies #[trigger] m.contains_key(l[i].0) && m[l[i].0] == l[i].1 by {
        reveal(drawn_from);
        assert(l[i] == (*sorted[i].0, *sorted[i].1));
        assert(sorted[i] == sorted[i]);
        let j = choose|j: int| 0 <= j < listed.len() && sorted[i] == #[trigger] listed[j];
        assert(m.contains_key(*listed[j].0));
    }
    assert forall|k: String| #[trigger] m.contains_key(k) implies exists|i: int| 0 <= i < l.len() && l[i].0 == k by {
        reveal(covers);
        let j = choose|j: int| 0 <= j < listed.len() && *listed[j].0 == k;
        assert(listed[j] == listed[j]);
        let i = choose|i: int| 0 <= i < sorted.len() && #[trigger] sorted[i] == listed[j];
        assert(l[i] == (*sorted[i].0, *sorted[i].1));
        assert(l[i].0 == k);
    }
    assert forall|i: int, j: int| 0 <= i < j < l.len() implies crate::entries::bytes_lt(#[trigger] key_bytes(l[i].0), #[trigger] key_bytes(l[j].0)) by {
        reveal(keys_increasing);
        assert(l[i] == (*sorted[i].0, *sorted[i].1));
        assert(l[j] == (*sorted[j].0, *sorted[j].1));
        assert(crate::entries::bytes_lt(key_bytes(*sorted[i].0), key_bytes(*sorted[j].0)));
    }
    assert(lists_sorted(m, l));
    lemma_sorted_listing_unique(m, l, sorted_entries(m));
}

/// Writes an object whose members are `entries`, in order.
#[verifier::rlimit(40)]
/// An object with these members, opened with `depth` containers open, stays within the
/// nesting limit, and every value serializes one level deeper.
pub open spec fn members_serialize_at<V: Serialize>(pairs: Seq<(String, V)>, depth: nat) -> bool {
    &&& depth < 32
    &&& forall|i: int| 0 <= i < pairs.len() ==> #[trigger] pairs[i].1.serializes_at(depth + 1)
}

/// A map, opened with `depth` containers open, stays within the nesting limit, and
/// every value serializes one level deeper.
pub open spec fn map_serializes_at<V: Serialize>(m: Map<String, V>, depth: nat) -> bool {
    &&& depth < 32
    &&& forall|k: String| #[trigger] m.contains_key(k) ==> m[k].serializes_at(depth + 1)
}

#[verifier::spinoff_prover]
#[verifier::rlimit(60)]
fn serialize_members<V: Serialize, W: Write>(entries: &Vec<(&String, &V)>, ser: &mut Serializer<W, 32>) -> (r: Result<
    (),
    SerializeError<W::Error>,
>)
    requires
        old(ser).wf(),
    ensures
        final(ser).wf(),
        V::obeys_json_text() ==> Serializer::<W, 32>::serialize_post(
            *old(ser),
            *final(ser),
            r,
            object_text(owned_pairs(entries@), old(ser).indent(), old(ser).scopes().len()),
        ),
        V::obeys_json_text() && members_serialize_at(owned_pairs(entries@), old(ser).scopes().len()) ==> Serializer::<
            W,
            32,
        >::element_goes_through(
            *old(ser),
            *final(ser),
            r is Ok,
            object_text(owned_pairs(entries@), old(ser).indent(), old(ser).scopes().len()),
        ),
{
    let ghost pairs = owned_pairs(entries@);
    let ghost pp = ser.indent();
    let ghost d = ser.scopes().len();
    let ghost out0 = ser.output();
    let ghost pre = element_prefix(ser.scopes(), pp);
    let ghost full = out0 + (pre + object_text(pairs, pp, d));
    let ghost scopes0 = ser.scopes();
    let ghost rest = object_text(pairs, pp, d).skip(1);
    assert(object_text(pairs, pp, d) =~= seq![0x7Bu8] + rest);
    assert(full =~= (out0 + pre + seq![0x7Bu8]) + rest);
    let ghost open_ = out0 + pre + seq![0x7Bu8];
    let ghost close: Seq<u8> = if pp > 0 && pairs.len() > 0 {
        seq![0x0Au8] + spaces(d * pp)
    } else {
        Seq::empty()
    };
    let ghost sp: Seq<u8> = if pp > 0 {
        seq![0x20u8]
    } else {
        Seq::empty()
    };
    assert(full =~= (open_ + members_text(pairs, pp, d + 1)) + (close + seq![0x7Du8]));
    let ghost ob = V::obeys_json_text();
    let ghost ok = ob && members_serialize_at(pairs, d);
    let r = ser.object_begin();
    if r.is_err() {
        proof {
            lemma_prefix_refl(full);
            lemma_prefix_of_append(out0 + pre + seq![0x7Bu8], rest, full);
            assert(out0 + (pre + seq![0x7Bu8]) =~= out0 + pre + seq![0x7Bu8]);
            if let Err(SerializeError::Write(_)) = r {
                lemma_prefix_trans(ser.output(), out0 + pre + seq![0x7Bu8], full);
            }
        }
        return r;
    }
    let mut i: usize = 0;
    while i < entries.len()
        invariant
            0 <= i <= entries.len(),
            pairs == owned_pairs(entries@),
            ser.wf(),
            ob == V::obeys_json_text(),
            ob ==> ser.indent() == pp,
            ob ==> ser.scopes() == scopes0.push(Scope { kind: ScopeKind::Object, tail: i > 0, key: false }),
            d == scopes0.len(),
            ob ==> ser.output() == out0 + pre + seq![0x7Bu8] + members_text(pairs.take(i as int), pp, d + 1),
            open_ == out0 + pre + seq![0x7Bu8],
            pp == old(ser).indent(),
            d == old(ser).scopes().len(),
            out0 == old(ser).output(),
            scopes0 == old(ser).scopes(),
            pre == element_prefix(old(ser).scopes(), pp),
            sp == (if pp > 0 { seq![0x20u8] } else { Seq::<u8>::empty() }),
            full == out0 + (pre + object_text(pairs, pp, d)),
            full == (open_ + members_text(pairs, pp, d + 1)) + (close + seq![0x7Du8]),
            ok == (ob && members_serialize_at(pairs, d)),
            ok ==> forall|total: nat|
                #[trigger] old(ser).accepts_up_to(total) && full.len() <= total
                    ==> ser.accepts_up_to(total),
        decreases entries.len() - i,
    {
        let ghost before = ser.output();
        let ghost sc = ser.scopes();
        let ghost kb = key_bytes(pairs[i as int].0);
        let ghost mt = member_text(i as nat, kb, pairs[i as int].1, pp, d + 1);
        let ghost ip = item_prefix(i as nat, pp, d + 1);
        proof {
            if ob {
                assert(pairs.take(i + 1).drop_last() =~= pairs.take(i as int));
                assert(pairs.take(i + 1).last() == pairs[i as int]);
                assert(element_prefix(sc, pp) == ip);
                assert(members_text(pairs.take(i + 1), pp, d + 1) == members_text(pairs.take(i as int), pp, d + 1) + mt);
                lemma_members_text_prefix(pairs, (i + 1) as nat, pp, d + 1);
                lemma_prefix_extend(open_, members_text(pairs.take(i + 1), pp, d + 1), members_text(pairs, pp, d + 1));
                lemma_prefix_refl(full);
                lemma_prefix_of_append(open_ + members_text(pairs, pp, d + 1), close + seq![0x7Du8], full);
                lemma_prefix_trans(open_ + members_text(pairs.take(i + 1), pp, d + 1), open_ + members_text(pairs, pp, d + 1), full);
                assert(open_ + members_text(pairs.take(i + 1), pp, d + 1) =~= before + mt);
                assert(before.len() + mt.len() <= full.len());
                assert(mt =~= (ip + quoted(kb) + seq![0x3Au8]) + (sp + pairs[i as int].1.json_text(pp, d + 1)));
                assert(crate::serialize::key_allowed(ser.scopes()));
            }
        }
        let key: &str = entries[i].0.as_str();
        let r = ser.member_key(key);
        proof {
            if ob {
                assert(key.spec_bytes() == kb);
            }
        }
        if r.is_err() {
            proof {
                if ob {
                    assert(mt =~= (ip + quoted(kb) + seq![0x3Au8]) + (sp + pairs[i as int].1.json_text(pp, d + 1)));
                    assert(before + mt =~= (before + (ip + quoted(kb) + seq![0x3Au8])) + (sp + pairs[i as int].1.json_text(pp, d + 1)));
                    lemma_prefix_of_append(before + (ip + quoted(kb) + seq![0x3Au8]), sp + pairs[i as int].1.json_text(pp, d + 1), full);
                    lemma_prefix_trans(ser.output(), before + (ip + quoted(kb) + seq![0x3Au8]), full);
                }
            }
            return r;
        }
        let ghost after_key_out = ser.output();
        proof {
            if ob {
                assert(element_prefix(ser.scopes(), pp) == sp);
                assert(after_key_out =~= before + (ip + quoted(kb) + seq![0x3Au8]));
                assert(before + mt =~= after_key_out + (sp + pairs[i as int].1.json_text(pp, d + 1)));
                assert(pairs[i as int].1 == *entries@[i as int].1);
                if ok {
                    assert(pairs[i as int].1.serializes_at(d + 1));
                }
            }
        }
        let r = entries[i].1.serialize(ser);
        if r.is_err() {
            proof {
                if ob {
                    lemma_prefix_trans(ser.output(), before + mt, full);
                }
            }
            return r;
        }
        i = i + 1;
    }
    assert(pairs.take(i as int) =~= pairs);
    let ghost before = ser.output();
    let r = ser.object_end();
    proof {
        if ob {
            assert(closing_prefix(scopes0.push(Scope { kind: ScopeKind::Object, tail: pairs.len() > 0, key: false }), pp) =~= close);
            assert(full =~= before + (close + seq![0x7Du8]));
            if r.is_err() {
                lemma_prefix_refl(full);
                lemma_prefix_trans(ser.output(), before + (close + seq![0x7Du8]), full);
            } else {
                assert(scopes0.push(Scope { kind: ScopeKind::Object, tail: pairs.len() > 0, key: false }).drop_last() =~= scopes0);
            }
        }
    }
    r
}

impl<V: Serialize> Serialize for BTreeMap<String, V> {
    /// An object whose members are the entries in increasing byte order of the keys.
    open spec fn json_text(&self, pp: nat, depth: nat) -> Seq<u8> {
        object_text(sorted_entries(self@), pp, depth)
    }

    open spec fn obeys_json_text() -> bool {
        V::obeys_json_text()
    }

    open spec fn serializes_at(&self, depth: nat) -> bool {
        map_serializes_at(self@, depth)
    }

    fn serialize<W: Write>(&self, ser: &mut Serializer<W, 32>) -> (r: Result<
        (),
        SerializeError<W::Error>,
    >) {
        let listed = btree_entries(self);
        let sorted = sort_entries(&listed);
        proof {
            lemma_sorted_is_listing(self@, listed@, sorted@);
            lemma_listing_serializes_at(self@, listed@, sorted@, ser.scopes().len());
        }
        serialize_members(&sorted, ser)
    }
}

impl<V: Serialize> Serialize for HashMap<String, V> {
    /// An object whose members are the entries in increasing byte order of the keys.
    open spec fn json_text(&self, pp: nat, depth: nat) -> Seq<u8> {
        object_text(sorted_entries(self@), pp, depth)
    }

    open spec fn obeys_json_text() -> bool {
        V::obeys_json_text()
    }

    open spec fn serializes_at(&self, depth: nat) -> bool {
        map_serializes_at(self@, depth)
    }

    fn serialize<W: Write>(&self, ser: &mut Serializer<W, 32>) -> (r: Result<
        (),
        SerializeError<W::Error>,
    >) {
        let listed = hash_entries(self);
        let sorted = sort_entries(&listed);
        proof {
            lemma_sorted_is_listing(self@, listed@, sorted@);
            lemma_listing_serializes_at(self@, listed@, sorted@, ser.scopes().len());
        }
        serialize_members(&sorted, ser)
    }
}

} // verus!
