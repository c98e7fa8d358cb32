//! What a map written as a JSON object reads back as.
use std::collections::{BTreeMap, HashMap};
use vstd::prelude::*;
use vstd::utf8::*;

use crate::deserialize::Token;
use crate::entries::{bytes_lt, key_bytes, lemma_bytes_lt_irreflexive, lists_sorted, sorted_entries};
use crate::error::ParseError;
use crate::format::{escape_bytes, quoted};
use crate::grammar::{expect_outcome, key_outcome, lex, member_outcome, scan_str, skip_ws, string_scanned, Lexed, StrScan};
use crate::laws::{lemma_escape_len, lemma_scan_escaped};
use crate::roundtrip::{
    ends_value, lemma_placed_byte, placed, read_back_at, reads_back, starts_value,
};
use crate::maps::{inserted, member_text, members_end, members_give, members_text, object_text};
use crate::serialize::{item_prefix, Serialize};
use crate::values::Deserialize;

verus! {

/// A quoted string of valid UTF-8 bytes at `p` scans back to the bytes, ending after its
/// closing quote, given scratch space as long as the source.
proof fn lemma_quoted_scanned(src: Seq<u8>, p: int, s: Seq<u8>, cap: nat, borrow_plain: bool)
    requires
        valid_utf8(s),
        0 <= p,
        p + quoted(s).len() <= src.len(),
        src.subrange(p, p + quoted(s).len()) == quoted(s),
        src.len() <= cap,
    ensures
        string_scanned(src, p, cap, borrow_plain) == Ok::<(Seq<u8>, int), ParseError>(
            (s, p + quoted(s).len()),
        ),
{
    let text = quoted(s);
    let e = escape_bytes(s);
    let n = e.len() as int;
    lemma_escape_len(s);
    assert(text == seq![0x22u8] + e + seq![0x22u8]);
    lemma_placed_byte(src, p, text, p + 1 + n);
    assert(src.subrange(p + 1, p + 1 + n) =~= e) by {
        assert forall|t: int| 0 <= t < n implies src.subrange(p + 1, p + 1 + n)[t] == e[t] by {
            lemma_placed_byte(src, p, text, p + 1 + t);
        }
    }
    lemma_scan_escaped(src, p + 1, s, Seq::empty(), p);
    assert(Seq::<u8>::empty() + s =~= s);
    assert(scan_str(src, p + 1 + n, s, p) == (StrScan::Done { end: p + 2 + n, content: s }));
}

/// `keys` and `vals` are the members of `entries` from the `k`-th on: the keys by their
/// bytes and the values by their deep views.
pub open spec fn members_match<V: DeepView>(
    entries: Seq<(String, V)>,
    k: int,
    keys: Seq<String>,
    vals: Seq<V>,
) -> bool {
    &&& keys.len() == entries.len() - k
    &&& vals.len() == entries.len() - k
    &&& forall|j: int|
        0 <= j < keys.len() ==> encode_utf8(#[trigger] keys[j]@) == key_bytes(entries[k + j].0)
            && vals[j].deep_view() == entries[k + j].1.deep_view()
}

/// Where member `k` of an object whose members' text stands at `p0` lies: the separator
/// at `q`, the quoted key at `kq`, the `:` and the value's text, which a value ends after.
#[verifier::spinoff_prover]
#[verifier::rlimit(60)]
proof fn lemma_member_layout<V: Serialize>(
    entries: Seq<(String, V)>,
    k: nat,
    d: nat,
    src: Seq<u8>,
    p0: int,
)
    requires
        k < entries.len(),
        0 <= p0,
        p0 + members_text(entries, 0, d).len() < src.len(),
        src.subrange(p0, p0 + members_text(entries, 0, d).len()) == members_text(entries, 0, d),
        src[p0 + members_text(entries, 0, d).len()] == 0x7D,
    ensures
        ({
            let q = p0 + members_text(entries.take(k as int), 0, d).len();
            let kb = key_bytes(entries[k as int].0);
            let jt = entries[k as int].1.json_text(0, d);
            let kq = if k > 0 { q + 1 } else { q };
            let colon = kq + quoted(kb).len();
            let a = colon + 1;
            let e = a + jt.len();
            &&& k > 0 ==> src[q] == 0x2C
            &&& src.subrange(kq, colon) == quoted(kb)
            &&& src[colon] == 0x3A
            &&& src.subrange(a, e) == jt
            &&& e == p0 + members_text(entries.take(k as int + 1), 0, d).len()
            &&& e < src.len()
            &&& ends_value(src, e)
        }),
{
    let body = members_text(entries, 0, d);
    let tk = members_text(entries.take(k as int), 0, d);
    let q = p0 + tk.len();
    let t1 = entries.take(k as int + 1);
    assert(t1.drop_last() =~= entries.take(k as int));
    assert(t1.last() == entries[k as int]);
    let key = entries[k as int].0;
    let x = entries[k as int].1;
    let kb = key_bytes(key);
    let jt = x.json_text(0, d);
    let ip = item_prefix(k, 0, d);
    let mt = member_text(k, kb, x, 0, d);
    let tk1 = members_text(t1, 0, d);
    assert(tk1 == tk + mt);
    assert(mt =~= ip + quoted(kb) + seq![0x3Au8] + jt);
    let whole = tk + ip + quoted(kb) + seq![0x3Au8] + jt;
    assert(tk1 =~= whole);
    crate::maps::lemma_members_text_prefix(entries, k + 1, 0, d);
    assert forall|t: int| p0 <= t < p0 + tk1.len() implies src[t] == whole[t - p0] by {
        lemma_placed_byte(src, p0, body, t);
        assert(body[t - p0] == body.take(tk1.len() as int)[t - p0]);
    }
    let kq = q + ip.len();
    let colon = kq + quoted(kb).len();
    let a = colon + 1;
    let e = a + jt.len();
    assert forall|t: int| 0 <= t < quoted(kb).len() implies src.subrange(kq, colon)[t] == quoted(kb)[t] by {
        assert(src[kq + t] == whole[kq + t - p0]);
    }
    assert(src.subrange(kq, colon) =~= quoted(kb));
    assert(src[colon] == whole[colon - p0]);
    assert forall|t: int| 0 <= t < jt.len() implies src.subrange(a, e)[t] == jt[t] by {
        assert(src[a + t] == whole[a + t - p0]);
    }
    assert(src.subrange(a, e) =~= jt);
    if k > 0 {
        assert(src[q] == whole[tk.len() as int]);
    } else {
        assert(ip =~= Seq::<u8>::empty());
    }
    if k + 1 < entries.len() {
        let t2 = entries.take(k as int + 2);
        assert(t2.drop_last() =~= t1);
        crate::maps::lemma_members_text_prefix(entries, k + 2, 0, d);
        let tk2 = members_text(t2, 0, d);
        assert(tk2 == tk1 + member_text(
            (k + 1) as nat,
            key_bytes(t2.last().0),
            t2.last().1,
            0,
            d,
        ));
        assert(src[e] == tk2[tk1.len() as int]) by {
            lemma_placed_byte(src, p0, body, e);
            assert(body[e - p0] == body.take(tk2.len() as int)[e - p0]);
        }
    } else {
        assert(t1 =~= entries);
    }
}

/// Member `k` of an object whose members' text stands at `p0` reads back: its key's bytes,
/// and a value read that ends after the value's text and gives only values with the deep
/// view of the member's value.
#[verifier::spinoff_prover]
#[verifier::rlimit(60)]
proof fn lemma_member_read_back<'s, 'b, V: Serialize + Deserialize<'s, 'b> + DeepView>(
    entries: Seq<(String, V)>,
    k: nat,
    d: nat,
    src: Seq<u8>,
    p0: int,
    cap: nat,
)
    requires
        reads_back::<'s, 'b, V>(entries[k as int].1),
        k < entries.len(),
        0 <= p0,
        p0 + members_text(entries, 0, d).len() < src.len(),
        src.subrange(p0, p0 + members_text(entries, 0, d).len()) == members_text(entries, 0, d),
        src[p0 + members_text(entries, 0, d).len()] == 0x7D,
        src.len() <= cap,
    ensures
        ({
            let q = p0 + members_text(entries.take(k as int), 0, d).len();
            let first = k == 0;
            let kb = key_bytes(entries[k as int].0);
            let a = (if k > 0 { q + 1 } else { q }) + quoted(kb).len() + 1;
            let e = p0 + members_text(entries.take(k as int + 1), 0, d).len();
            &&& q < a < e < src.len()
            &&& member_outcome(src, q, first, cap) == Ok::<Option<(Seq<u8>, int, int)>, ParseError>(
                Some((kb, if k > 0 { q + 1 } else { q }, a)),
            )
            &&& read_back_at::<'s, 'b, V>(entries[k as int].1, (e - a) as nat, src, a, cap)
        }),
{
    reveal(reads_back);
    let q = p0 + members_text(entries.take(k as int), 0, d).len();
    let first = k == 0;
    let key = entries[k as int].0;
    let x = entries[k as int].1;
    let kb = key_bytes(key);
    let jt = x.json_text(0, d);
    lemma_member_layout(entries, k, d, src, p0);
    let kq = if k > 0 { q + 1 } else { q };
    let colon = kq + quoted(kb).len();
    let a = colon + 1;
    let e = a + jt.len();
    assert(starts_value(jt));
    assert(placed(src, a, jt));
    assert(read_back_at::<'s, 'b, V>(x, jt.len(), src, a, cap));
    encode_utf8_valid_utf8(key@);
    lemma_quoted_scanned(src, kq, kb, cap, true);
    assert(skip_ws(src, colon) == colon);
    assert(key_outcome(src, kq, cap) == Ok::<(Seq<u8>, int), ParseError>((kb, a)));
    assert(src[kq] == 0x22) by {
        assert(src.subrange(kq, colon)[0] == src[kq]);
    }
    assert(skip_ws(src, q) == q);
    assert(skip_ws(src, kq) == kq);
}

/// The members of an object whose text stands at `p0` (after the `{`), followed by `}`,
/// read back from the position of member `k` on: the read ends after the `}`, and the
/// members it gives have the keys' bytes and the values' deep views, in order.
#[verifier::spinoff_prover]
#[verifier::rlimit(100)]
proof fn lemma_members_read_back<'s, 'b, V: Serialize + Deserialize<'s, 'b> + DeepView>(
    entries: Seq<(String, V)>,
    k: nat,
    d: nat,
    src: Seq<u8>,
    p0: int,
    cap: nat,
)
    requires
        forall|i: int| 0 <= i < entries.len() ==> reads_back::<'s, 'b, V>(#[trigger] entries[i].1),
        k <= entries.len(),
        0 <= p0,
        p0 + members_text(entries, 0, d).len() < src.len(),
        src.subrange(p0, p0 + members_text(entries, 0, d).len()) == members_text(entries, 0, d),
        src[p0 + members_text(entries, 0, d).len()] == 0x7D,
        src.len() <= cap,
    ensures
        ({
            let q = p0 + members_text(entries.take(k as int), 0, d).len();
            let first = k == 0;
            &&& members_end::<V>(src, q, first, cap) == Ok::<int, ParseError>(
                p0 + members_text(entries, 0, d).len() + 1,
            )
            &&& forall|keys: Seq<String>, vals: Seq<V>|
                #[trigger] members_give::<V>(src, q, first, cap, keys, vals) ==> members_match(
                    entries,
                    k as int,
                    keys,
                    vals,
                )
        }),
    decreases entries.len() - k,
{
    let q = p0 + members_text(entries.take(k as int), 0, d).len();
    let first = k == 0;
    if k == entries.len() {
        assert(entries.take(k as int) =~= entries);
        assert(skip_ws(src, q) == q);
        assert(lex(src, q) == (Lexed::Tok { token: Token::CloseCurly, start: q, end: q + 1 }));
        assert(member_outcome(src, q, first, cap) == Ok::<Option<(Seq<u8>, int, int)>, ParseError>(
            None,
        ));
        assert(expect_outcome(src, q, Token::CloseCurly) == Ok::<(int, int), ParseError>((q, q + 1)));
    } else {
        let kb = key_bytes(entries[k as int].0);
        let kq = if k > 0 { q + 1 } else { q };
        let a = kq + quoted(kb).len() + 1;
        let e = p0 + members_text(entries.take(k as int + 1), 0, d).len();
        let x = entries[k as int].1;
        assert(reads_back::<'s, 'b, V>(x));
        lemma_member_read_back::<'s, 'b, V>(entries, k, d, src, p0, cap);
        assert(V::read_end(src, a, cap) == Ok::<int, ParseError>(e));
        lemma_members_read_back::<'s, 'b, V>(entries, k + 1, d, src, p0, cap);
        assert(members_end::<V>(src, q, first, cap) == members_end::<V>(src, e, false, cap)) by {
            assert(member_outcome(src, q, first, cap) == Ok::<Option<(Seq<u8>, int, int)>, ParseError>(
                Some((kb, kq, a)),
            ));
        }
        assert forall|keys: Seq<String>, vals: Seq<V>|
            #[trigger] members_give::<V>(src, q, first, cap, keys, vals) implies members_match(
            entries,
            k as int,
            keys,
            vals,
        ) by {
            let ks = keys.skip(1);
            let vs = vals.skip(1);
            assert(member_outcome(src, q, first, cap) == Ok::<Option<(Seq<u8>, int, int)>, ParseError>(
                Some((kb, kq, a)),
            ));
            assert(keys.len() > 0 && vals.len() > 0);
            assert(encode_utf8(keys[0]@) == kb);
            assert(V::read_gives(src, a, cap, vals[0]));
            assert(members_give::<V>(src, e, false, cap, ks, vs));
            assert(ks.len() == keys.len() - 1 && vs.len() == vals.len() - 1);
            assert(members_match(entries, (k + 1) as int, ks, vs));
            assert forall|j: int| 0 <= j < keys.len() implies encode_utf8(#[trigger] keys[j]@)
                == key_bytes(entries[k + j].0) && vals[j].deep_view() == entries[k + j].1.deep_view() by {
                if j > 0 {
                    assert(ks[j - 1] == keys[j]);
                    assert(vs[j - 1] == vals[j]);
                    assert(encode_utf8(ks[j - 1]@) == key_bytes(entries[k + 1 + (j - 1)].0));
                }
            }
        }
    }
}

/// The map made by inserting keys whose characters differ pairwise holds each key's own
/// value.
proof fn lemma_inserted_distinct<V>(keys: Seq<String>, vals: Seq<V>)
    requires
        keys.len() == vals.len(),
        forall|i: int, j: int| 0 <= i < j < keys.len() ==> #[trigger] keys[i]@ != #[trigger] keys[j]@,
    ensures
        forall|k: String| #[trigger]
            inserted(keys, vals).contains_key(k) <==> exists|i: int| 0 <= i < keys.len() && keys[i] == k,
        forall|i: int| 0 <= i < keys.len() ==> #[trigger] inserted(keys, vals)[keys[i]] == vals[i],
    decreases keys.len(),
{
    if keys.len() > 0 {
        let kd = keys.drop_last();
        let vd = vals.drop_last();
        let n = keys.len() - 1;
        assert forall|i: int, j: int| 0 <= i < j < kd.len() implies #[trigger] kd[i]@ != #[trigger] kd[j]@ by {
            assert(keys[i]@ != keys[j]@);
        }
        lemma_inserted_distinct(kd, vd);
        let w = inserted(keys, vals);
        assert(w == inserted(kd, vd).insert(keys[n], vals[n]));
        assert forall|k: String| #[trigger]
            w.contains_key(k) <==> exists|i: int| 0 <= i < keys.len() && keys[i] == k by {
            if w.contains_key(k) {
                if k == keys[n] {
                    assert(keys[n] == k);
                } else {
                    assert(inserted(kd, vd).contains_key(k));
                    let i = choose|i: int| 0 <= i < kd.len() && kd[i] == k;
                    assert(keys[i] == k);
                }
            }
            if exists|i: int| 0 <= i < keys.len() && keys[i] == k {
                let i = choose|i: int| 0 <= i < keys.len() && keys[i] == k;
                if i < n {
                    assert(kd[i] == k);
                    assert(inserted(kd, vd).contains_key(k));
                }
            }
        }
        assert forall|i: int| 0 <= i < keys.len() implies #[trigger] w[keys[i]] == vals[i] by {
            if i < n {
                assert(kd[i] == keys[i]);
                assert(keys[i]@ != keys[n]@);
                assert(keys[i] != keys[n]);
                assert(inserted(kd, vd)[kd[i]] == vd[i]);
            }
        }
    }
}

/// The deep view of a map of strings, as vstd defines it for maps: each key's characters
/// mapped to its value's deep view.
pub open spec fn deep_entries<V: DeepView>(m: Map<String, V>) -> Map<Seq<char>, V::V> {
    Map::new(
        |k: Seq<char>| exists|orig_k: String| #[trigger] m.contains_key(orig_k) && k == orig_k.deep_view(),
        |dk: Seq<char>|
            {
                let k = choose|k: String| m.contains_key(k) && #[trigger] k.deep_view() == dk;
                m[k].deep_view()
            },
    )
}

/// Keys read back from the sorted entries of `m`, inserted with their values, make a map
/// with the same deep view as `m`.
proof fn lemma_read_entries_deep_equal<V: DeepView>(
    m: Map<String, V>,
    keys: Seq<String>,
    vals: Seq<V>,
)
    requires
        lists_sorted(m, sorted_entries(m)),
        members_match(sorted_entries(m), 0, keys, vals),
    ensures
        deep_entries(inserted(keys, vals)) == deep_entries(m),
{
    let l = sorted_entries(m);
    assert forall|j: int| 0 <= j < keys.len() implies #[trigger] keys[j]@ == l[j].0@ by {
        assert(encode_utf8(keys[j]@) == key_bytes(l[0 + j].0));
        assert(encode_utf8(keys[j]@) == encode_utf8(l[j].0@));
        encode_utf8_decode_utf8(keys[j]@);
        encode_utf8_decode_utf8(l[j].0@);
    }
    assert forall|i: int, j: int| 0 <= i < j < keys.len() implies #[trigger] keys[i]@ != #[trigger] keys[j]@ by {
        assert(bytes_lt(key_bytes(l[i].0), key_bytes(l[j].0)));
        if keys[i]@ == keys[j]@ {
            assert(keys[i]@ == l[i].0@ && keys[j]@ == l[j].0@);
            lemma_bytes_lt_irreflexive(key_bytes(l[i].0));
        }
    }
    lemma_inserted_distinct(keys, vals);
    let w = inserted(keys, vals);
    // The position in the listing of a key's characters is unique.
    assert forall|i: int, j: int| 0 <= i < l.len() && 0 <= j < l.len() && l[i].0@ == l[j].0@ implies i == j by {
        if i < j {
            assert(bytes_lt(key_bytes(l[i].0), key_bytes(l[j].0)));
            lemma_bytes_lt_irreflexive(key_bytes(l[i].0));
        } else if j < i {
            assert(bytes_lt(key_bytes(l[j].0), key_bytes(l[i].0)));
            lemma_bytes_lt_irreflexive(key_bytes(l[j].0));
        }
    }
    let dw = deep_entries(w);
    let dm = deep_entries(m);
    assert forall|dk: Seq<char>| dw.dom().contains(dk) <==> dm.dom().contains(dk) by {
        if dw.dom().contains(dk) {
            let ok = choose|orig_k: String| #[trigger] w.contains_key(orig_k) && dk == orig_k.deep_view();
            let i = choose|i: int| 0 <= i < keys.len() && keys[i] == ok;
            assert(m.contains_key(l[i].0));
            assert(dk == l[i].0.deep_view());
        }
        if dm.dom().contains(dk) {
            let ok = choose|orig_k: String| #[trigger] m.contains_key(orig_k) && dk == orig_k.deep_view();
            let i = choose|i: int| 0 <= i < l.len() && l[i].0 == ok;
            assert(w.contains_key(keys[i]));
            assert(dk == keys[i].deep_view());
        }
    }
    assert forall|dk: Seq<char>| dw.dom().contains(dk) implies dw[dk] == dm[dk] by {
        let kw = choose|k: String| w.contains_key(k) && #[trigger] k.deep_view() == dk;
        let km = choose|k: String| m.contains_key(k) && #[trigger] k.deep_view() == dk;
        let ok = choose|orig_k: String| #[trigger] w.contains_key(orig_k) && dk == orig_k.deep_view();
        assert(w.contains_key(ok) && ok.deep_view() == dk);
        let i = choose|i: int| 0 <= i < keys.len() && keys[i] == kw;
        assert(m.contains_key(km));
        let j = choose|j: int| 0 <= j < l.len() && l[j].0 == km;
        assert(l[i].0@ == l[j].0@);
        assert(i == j);
        assert(w[keys[i]] == vals[i]);
        assert(m[l[i].0] == l[i].1);
    }
    assert(dw =~= dm);
}

/// A `BTreeMap` whose values each read back wherever they are placed reads back wherever
/// its own text is placed, when `String`'s ordering obeys its specification and the map's
/// entries can be listed in byte order of their keys.
#[verifier::spinoff_prover]
#[verifier::rlimit(80)]
pub proof fn law_btree_map_reads_back<'s, 'b, V: Serialize + Deserialize<'s, 'b> + DeepView>(
    m: BTreeMap<String, V>,
)
    requires
        vstd::laws_cmp::obeys_cmp::<String>(),
        lists_sorted(m@, sorted_entries(m@)),
        forall|k: String| #[trigger] m@.contains_key(k) ==> reads_back::<'s, 'b, V>(m@[k]),
    ensures
        reads_back::<'s, 'b, BTreeMap<String, V>>(m),
{
    reveal(reads_back);
    let l = sorted_entries(m@);
    assert forall|i: int| 0 <= i < l.len() implies reads_back::<'s, 'b, V>(#[trigger] l[i].1) by {
        assert(m@.contains_key(l[i].0));
    }
    assert forall|d: nat| #[trigger] starts_value(m.json_text(0, d)) by {
        assert(m.json_text(0, d)[0] == 0x7B);
    }
    assert forall|d: nat, src: Seq<u8>, p: int, cap: nat|
        placed(src, p, m.json_text(0, d)) && src.len() <= cap implies #[trigger] read_back_at::<'s, 'b, BTreeMap<String, V>>(
        m,
        m.json_text(0, d).len(),
        src,
        p,
        cap,
    ) by {
        let text = m.json_text(0, d);
        let body = members_text(l, 0, d + 1);
        assert(text == object_text(l, 0, d));
        assert(text == seq![0x7Bu8] + body + seq![0x7Du8]);
        let p0 = p + 1;
        lemma_placed_byte(src, p, text, p);
        lemma_placed_byte(src, p, text, p0 + body.len());
        assert(src.subrange(p0, p0 + body.len()) =~= body) by {
            assert forall|t: int| 0 <= t < body.len() implies src.subrange(p0, p0 + body.len())[t] == body[t] by {
                lemma_placed_byte(src, p, text, p0 + t);
            }
        }
        assert(skip_ws(src, p) == p);
        assert(expect_outcome(src, p, Token::OpenCurly) == Ok::<(int, int), ParseError>((p, p0)));
        lemma_members_read_back::<'s, 'b, V>(l, 0, d + 1, src, p0, cap);
        assert(l.take(0) =~= Seq::<(String, V)>::empty());
        assert forall|w: BTreeMap<String, V>|
            #[trigger] BTreeMap::<String, V>::read_gives(src, p, cap, w)
            implies w.deep_view() == m.deep_view() by {
            let (keys, vals) = choose|keys: Seq<String>, vals: Seq<V>|
                #[trigger] members_give::<V>(src, p0, true, cap, keys, vals) && (
                vstd::laws_cmp::obeys_cmp::<String>() ==> w@ == inserted(keys, vals));
            lemma_read_entries_deep_equal(m@, keys, vals);
            reveal(vstd::std_specs::btree::btree_map_deep_view_impl);
            assert(w.deep_view() =~= deep_entries(w@));
            assert(m.deep_view() =~= deep_entries(m@));
        }
    }
}

/// A `HashMap` whose values each read back wherever they are placed reads back wherever
/// its own text is placed, when `String`'s hashing and equality obey their model and the
/// map's entries can be listed in byte order of their keys.
#[verifier::spinoff_prover]
#[verifier::rlimit(80)]
pub proof fn law_hash_map_reads_back<'s, 'b, V: Serialize + Deserialize<'s, 'b> + DeepView>(
    m: HashMap<String, V>,
)
    requires
        vstd::std_specs::hash::obeys_key_model::<String>(),
        lists_sorted(m@, sorted_entries(m@)),
        forall|k: String| #[trigger] m@.contains_key(k) ==> reads_back::<'s, 'b, V>(m@[k]),
    ensures
        reads_back::<'s, 'b, HashMap<String, V>>(m),
{
    reveal(reads_back);
    let l = sorted_entries(m@);
    assert forall|i: int| 0 <= i < l.len() implies reads_back::<'s, 'b, V>(#[trigger] l[i].1) by {
        assert(m@.contains_key(l[i].0));
    }
    assert forall|d: nat| #[trigger] starts_value(m.json_text(0, d)) by {
        assert(m.json_text(0, d)[0] == 0x7B);
    }
    assert forall|d: nat, src: Seq<u8>, p: int, cap: nat|
        placed(src, p, m.json_text(0, d)) && src.len() <= cap implies #[trigger] read_back_at::<'s, 'b, HashMap<String, V>>(
        m,
        m.json_text(0, d).len(),
        src,
        p,
        cap,
    ) by {
        let text = m.json_text(0, d);
        let body = members_text(l, 0, d + 1);
        assert(text == object_text(l, 0, d));
        assert(text == seq![0x7Bu8] + body + seq![0x7Du8]);
        let p0 = p + 1;
        lemma_placed_byte(src, p, text, p);
        lemma_placed_byte(src, p, text, p0 + body.len());
        assert(src.subrange(p0, p0 + body.len()) =~= body) by {
            assert forall|t: int| 0 <= t < body.len() implies src.subrange(p0, p0 + body.len())[t] == body[t] by {
                lemma_placed_byte(src, p, text, p0 + t);
            }
        }
        assert(skip_ws(src, p) == p);
        assert(expect_outcome(src, p, Token::OpenCurly) == Ok::<(int, int), ParseError>((p, p0)));
        lemma_members_read_back::<'s, 'b, V>(l, 0, d + 1, src, p0, cap);
        assert(l.take(0) =~= Seq::<(String, V)>::empty());
        assert forall|w: HashMap<String, V>|
            #[trigger] <HashMap<String, V> as Deserialize<'s, 'b>>::read_gives(src, p, cap, w)
            implies w.deep_view() == m.deep_view() by {
            let (keys, vals) = choose|keys: Seq<String>, vals: Seq<V>|
                #[trigger] members_give::<V>(src, p0, true, cap, keys, vals) && (
                vstd::std_specs::hash::obeys_key_model::<String>() ==> w@ == inserted(keys, vals));
            lemma_read_entries_deep_equal(m@, keys, vals);
            reveal(vstd::std_specs::hash::hash_map_deep_view_impl);
            assert(w.deep_view() =~= deep_entries(w@));
            assert(m.deep_view() =~= deep_entries(m@));
        }
    }
}

} // verus!
