//! The entries of a string-keyed map, listed in the byte order of their keys.
use vstd::prelude::*;
use vstd::utf8::encode_utf8;

verus! {

/// `a` comes before `b` in lexicographic byte order (a proper prefix comes first).
pub open spec fn bytes_lt(a: Seq<u8>, b: Seq<u8>) -> bool
    decreases a.len(),
{
    if a.len() == 0 {
        b.len() > 0
    } else if b.len() == 0 {
        false
    } else if a[0] != b[0] {
        a[0] < b[0]
    } else {
        bytes_lt(a.skip(1), b.skip(1))
    }
}

/// The bytes of a key.
pub open spec fn key_bytes(k: String) -> Seq<u8> {
    encode_utf8(k@)
}

/// No sequence comes before itself.
pub proof fn lemma_bytes_lt_irreflexive(a: Seq<u8>)
    ensures
        !bytes_lt(a, a),
    decreases a.len(),
{
    if a.len() > 0 {
        lemma_bytes_lt_irreflexive(a.skip(1));
    }
}

/// The byte order is transitive.
pub proof fn lemma_bytes_lt_transitive(a: Seq<u8>, b: Seq<u8>, c: Seq<u8>)
    requires
        bytes_lt(a, b),
        bytes_lt(b, c),
    ensures
        bytes_lt(a, c),
    decreases a.len(),
{
    if a.len() > 0 && b.len() > 0 && c.len() > 0 && a[0] == b[0] && b[0] == c[0] {
        lemma_bytes_lt_transitive(a.skip(1), b.skip(1), c.skip(1));
    }
}

/// Two different sequences are ordered one way or the other.
pub proof fn lemma_bytes_lt_total(a: Seq<u8>, b: Seq<u8>)
    requires
        a != b,
    ensures
        bytes_lt(a, b) || bytes_lt(b, a),
    decreases a.len(),
{
    if a.len() > 0 && b.len() > 0 && a[0] == b[0] {
        if a.skip(1) == b.skip(1) {
            assert(a =~= seq![a[0]] + a.skip(1));
            assert(b =~= seq![b[0]] + b.skip(1));
        }
        lemma_bytes_lt_total(a.skip(1), b.skip(1));
    } else if a.len() == 0 && b.len() == 0 {
        assert(a =~= b);
    }
}

/// Compares two byte strings in lexicographic order.
pub fn bytes_less(a: &[u8], b: &[u8]) -> (r: bool)
    ensures
        r == bytes_lt(a@, b@),
{
    let mut i: usize = 0;
    assert(a@.skip(0) =~= a@);
    assert(b@.skip(0) =~= b@);
    while i < a.len() && i < b.len()
        invariant
            i <= a.len(),
            i <= b.len(),
            bytes_lt(a@, b@) == bytes_lt(a@.skip(i as int), b@.skip(i as int)),
        decreases a.len() - i,
    {
        if a[i] != b[i] {
            return a[i] < b[i];
        }
        assert(a@.skip(i as int).skip(1) =~= a@.skip(i + 1));
        assert(b@.skip(i as int).skip(1) =~= b@.skip(i + 1));
        i = i + 1;
    }
    a.len() < b.len()
}

/// `l` lists the entries of `m`, each once, in increasing byte order of the keys.
pub open spec fn lists_sorted<V>(m: Map<String, V>, l: Seq<(String, V)>) -> bool {
    &&& forall|i: int| 0 <= i < l.len() ==> #[trigger] m.contains_key(l[i].0) && m[l[i].0] == l[i].1
    &&& forall|k: String| #[trigger] m.contains_key(k) ==> exists|i: int| 0 <= i < l.len() && l[i].0 == k
    &&& forall|i: int, j: int|
        0 <= i < j < l.len() ==> bytes_lt(#[trigger] key_bytes(l[i].0), #[trigger] key_bytes(l[j].0))
}

/// The entries of `m` in increasing byte order of the keys.
pub open spec fn sorted_entries<V>(m: Map<String, V>) -> Seq<(String, V)> {
    choose|l: Seq<(String, V)>| lists_sorted(m, l)
}

/// A map has at most one sorted listing.
pub proof fn lemma_sorted_listing_unique<V>(m: Map<String, V>, l1: Seq<(String, V)>, l2: Seq<(String, V)>)
    requires
        lists_sorted(m, l1),
        lists_sorted(m, l2),
    ensures
        l1 == l2,
    decreases l1.len(),
{
    if l1.len() == 0 {
        if l2.len() > 0 {
            assert(m.contains_key(l2[0].0));
        }
        assert(l1 =~= l2);
    } else {
        let k0 = l1[0].0;
        assert(m.contains_key(k0));
        let j = choose|j: int| 0 <= j < l2.len() && l2[j].0 == k0;
        let h0 = l2[0].0;
        assert(m.contains_key(h0));
        let i = choose|i: int| 0 <= i < l1.len() && l1[i].0 == h0;
        if j > 0 {
            assert(bytes_lt(key_bytes(l2[0].0), key_bytes(l2[j].0)));
            if i > 0 {
                assert(bytes_lt(key_bytes(l1[0].0), key_bytes(l1[i].0)));
                lemma_bytes_lt_transitive(key_bytes(k0), key_bytes(h0), key_bytes(k0));
            }
            lemma_bytes_lt_irreflexive(key_bytes(k0));
        }
        assert(l2[0].0 == k0);
        assert(l1[0] == l2[0]);
        let m2 = m.remove(k0);
        let t1 = l1.skip(1);
        let t2 = l2.skip(1);
        assert forall|q: int| 0 <= q < t1.len() implies #[trigger] m2.contains_key(t1[q].0) && m2[t1[q].0] == t1[q].1 by {
            assert(t1[q] == l1[q + 1]);
            assert(bytes_lt(key_bytes(l1[0].0), key_bytes(l1[q + 1].0)));
            lemma_bytes_lt_irreflexive(key_bytes(k0));
        }
        assert forall|q: int| 0 <= q < t2.len() implies #[trigger] m2.contains_key(t2[q].0) && m2[t2[q].0] == t2[q].1 by {
            assert(t2[q] == l2[q + 1]);
            assert(bytes_lt(key_bytes(l2[0].0), key_bytes(l2[q + 1].0)));
            lemma_bytes_lt_irreflexive(key_bytes(k0));
        }
        assert forall|k: String| #[trigger] m2.contains_key(k) implies exists|q: int| 0 <= q < t1.len() && t1[q].0 == k by {
            assert(m.contains_key(k));
            let q = choose|q: int| 0 <= q < l1.len() && l1[q].0 == k;
            assert(q > 0);
            assert(t1[q - 1].0 == k);
        }
        assert forall|k: String| #[trigger] m2.contains_key(k) implies exists|q: int| 0 <= q < t2.len() && t2[q].0 == k by {
            assert(m.contains_key(k));
            let q = choose|q: int| 0 <= q < l2.len() && l2[q].0 == k;
            assert(q > 0);
            assert(t2[q - 1].0 == k);
        }
        assert forall|a: int, b: int| 0 <= a < b < t1.len() implies bytes_lt(#[trigger] key_bytes(t1[a].0), #[trigger] key_bytes(t1[b].0)) by {
            assert(t1[a] == l1[a + 1] && t1[b] == l1[b + 1]);
        }
        assert forall|a: int, b: int| 0 <= a < b < t2.len() implies bytes_lt(#[trigger] key_bytes(t2[a].0), #[trigger] key_bytes(t2[b].0)) by {
            assert(t2[a] == l2[a + 1] && t2[b] == l2[b + 1]);
        }
        lemma_sorted_listing_unique(m2, t1, t2);
        assert(l1 =~= seq![l1[0]] + t1);
        assert(l2 =~= seq![l2[0]] + t2);
    }
}

/// Each item of `s` is one of the first `n` entries.
#[verifier::opaque]
pub open spec fn drawn_from<T>(s: Seq<T>, entries: Seq<T>, n: int) -> bool {
    forall|i: int|
        #![trigger s[i]]
        0 <= i < s.len() ==> exists|j: int| 0 <= j < n && s[i] == #[trigger] entries[j]
}

/// Each of the first `n` entries is an item of `s`.
#[verifier::opaque]
pub open spec fn covers<T>(s: Seq<T>, entries: Seq<T>, n: int) -> bool {
    forall|j: int|
        #![trigger entries[j]]
        0 <= j < n ==> exists|i: int| 0 <= i < s.len() && #[trigger] s[i] == entries[j]
}

/// The keys of `s` increase strictly in byte order.
#[verifier::opaque]
pub open spec fn keys_increasing<V>(s: Seq<(&String, &V)>) -> bool {
    forall|i: int, j: int|
        0 <= i < j < s.len() ==> bytes_lt(#[trigger] key_bytes(*s[i].0), #[trigger] key_bytes(*s[j].0))
}

/// The keys of `s` differ pairwise in their bytes.
#[verifier::opaque]
pub open spec fn keys_distinct<V>(s: Seq<(&String, &V)>) -> bool {
    forall|i: int, j: int|
        0 <= i < j < s.len() ==> #[trigger] key_bytes(*s[i].0) != #[trigger] key_bytes(*s[j].0)
}

/// Inserting entry `n` keeps every item one of the entries read so far.
proof fn lemma_insert_drawn<T>(before: Seq<T>, entries: Seq<T>, n: int, pos: int)
    requires
        0 <= n < entries.len(),
        0 <= pos <= before.len(),
        drawn_from(before, entries, n),
    ensures
        drawn_from(before.insert(pos, entries[n]), entries, n + 1),
{
    reveal(drawn_from);
    let after = before.insert(pos, entries[n]);
    assert forall|i: int| #![trigger after[i]] 0 <= i < after.len() implies exists|j: int| 0 <= j < n + 1 && after[i] == #[trigger] entries[j] by {
        if i < pos {
            assert(after[i] == before[i]);
        } else if i == pos {
            assert(after[i] == entries[n]);
        } else {
            assert(after[i] == before[i - 1]);
        }
    }
}

/// Inserting entry `n` keeps every entry read so far among the items.
proof fn lemma_insert_covers<T>(before: Seq<T>, entries: Seq<T>, n: int, pos: int)
    requires
        0 <= n < entries.len(),
        0 <= pos <= before.len(),
        covers(before, entries, n),
    ensures
        covers(before.insert(pos, entries[n]), entries, n + 1),
{
    reveal(covers);
    let after = before.insert(pos, entries[n]);
    assert forall|j: int| #![trigger entries[j]] 0 <= j < n + 1 implies exists|i: int| 0 <= i < after.len() && #[trigger] after[i] == entries[j] by {
        if j == n {
            assert(after[pos] == entries[j]);
        } else {
            let i = choose|i: int| 0 <= i < before.len() && #[trigger] before[i] == entries[j];
            if i < pos {
                assert(after[i] == entries[j]);
            } else {
                assert(after[i + 1] == entries[j]);
            }
        }
    }
}

/// Inserting entry `n` after the keys below it and before the others keeps the keys
/// increasing.
proof fn lemma_insert_increasing<'a, V>(
    before: Seq<(&'a String, &'a V)>,
    entries: Seq<(&'a String, &'a V)>,
    n: int,
    pos: int,
)
    requires
        0 <= n < entries.len(),
        0 <= pos <= before.len(),
        keys_distinct(entries),
        drawn_from(before, entries, n),
        keys_increasing(before),
        forall|q: int| 0 <= q < pos ==> bytes_lt(key_bytes(*before[q].0), key_bytes(*entries[n].0)),
        pos < before.len() ==> !bytes_lt(key_bytes(*before[pos].0), key_bytes(*entries[n].0)),
    ensures
        keys_increasing(before.insert(pos, entries[n])),
{
    reveal(keys_increasing);
    let e = entries[n];
    let after = before.insert(pos, e);
    if pos < before.len() {
        reveal(drawn_from);
        reveal(keys_distinct);
        assert(before[pos] == before[pos]);
        let j = choose|j: int| 0 <= j < n && before[pos] == #[trigger] entries[j];
        assert(key_bytes(*entries[j].0) != key_bytes(*entries[n].0));
        lemma_bytes_lt_total(key_bytes(*before[pos].0), key_bytes(*e.0));
        assert forall|q: int| pos < q < before.len() implies bytes_lt(key_bytes(*e.0), key_bytes(*before[q].0)) by {
            assert(bytes_lt(key_bytes(*before[pos].0), key_bytes(*before[q].0)));
            lemma_bytes_lt_transitive(key_bytes(*e.0), key_bytes(*before[pos].0), key_bytes(*before[q].0));
        }
    }
    assert forall|a: int, b: int| 0 <= a < b < after.len() implies bytes_lt(#[trigger] key_bytes(*after[a].0), #[trigger] key_bytes(*after[b].0)) by {
        if b < pos {
            assert(after[a] == before[a] && after[b] == before[b]);
            assert(bytes_lt(key_bytes(*before[a].0), key_bytes(*before[b].0)));
        } else if b == pos {
            assert(after[a] == before[a]);
        } else if a < pos {
            assert(after[a] == before[a] && after[b] == before[b - 1]);
            assert(bytes_lt(key_bytes(*e.0), key_bytes(*before[b - 1].0)));
            lemma_bytes_lt_transitive(key_bytes(*before[a].0), key_bytes(*e.0), key_bytes(*before[b - 1].0));
        } else if a == pos {
            assert(after[b] == before[b - 1]);
        } else {
            assert(after[a] == before[a - 1] && after[b] == before[b - 1]);
            assert(bytes_lt(key_bytes(*before[a - 1].0), key_bytes(*before[b - 1].0)));
        }
    }
}

/// Orders entries whose keys differ in their bytes by increasing byte order of the keys.
pub fn sort_entries<'a, V>(entries: &Vec<(&'a String, &'a V)>) -> (r: Vec<(&'a String, &'a V)>)
    requires
        keys_distinct(entries@),
    ensures
        drawn_from(r@, entries@, entries.len() as int),
        covers(r@, entries@, entries.len() as int),
        keys_increasing(r@),
{
    let mut sorted: Vec<(&'a String, &'a V)> = Vec::new();
    let mut n: usize = 0;
    proof {
        reveal(drawn_from);
        reveal(covers);
        reveal(keys_increasing);
    }
    while n < entries.len()
        invariant
            n <= entries.len(),
            keys_distinct(entries@),
            drawn_from(sorted@, entries@, n as int),
            covers(sorted@, entries@, n as int),
            keys_increasing(sorted@),
        decreases entries.len() - n,
    {
        let e = entries[n];
        let kb = e.0.as_str().as_bytes();
        let mut pos: usize = 0;
        while pos < sorted.len() && bytes_less(sorted[pos].0.as_str().as_bytes(), kb)
            invariant
                pos <= sorted.len(),
                kb@ == key_bytes(*e.0),
                forall|q: int| 0 <= q < pos ==> bytes_lt(key_bytes(*sorted[q].0), key_bytes(*e.0)),
            decreases sorted.len() - pos,
        {
            pos = pos + 1;
        }
        proof {
            lemma_insert_drawn(sorted@, entries@, n as int, pos as int);
            lemma_insert_covers(sorted@, entries@, n as int, pos as int);
            lemma_insert_increasing(sorted@, entries@, n as int, pos as int);
        }
        sorted.insert(pos, e);
        n = n + 1;
    }
    sorted
}

} // verus!
