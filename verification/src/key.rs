//! Keys are byte strings ordered lexicographically, the order in which every
//! block, table and merged stream keeps its entries.

use vstd::prelude::*;

verus! {

/// One stored pair: the key, then the value.
pub type Entry = (Seq<u8>, Seq<u8>);

/// `a` sorts strictly before `b`: at the first position where they differ `a`
/// holds the smaller byte, or `a` is a proper prefix of `b`.
pub open spec fn key_lt(a: Seq<u8>, b: Seq<u8>) -> bool
    decreases a.len(),
{
    if b.len() == 0 {
        false
    } else if a.len() == 0 {
        true
    } else if a[0] != b[0] {
        a[0] < b[0]
    } else {
        key_lt(a.drop_first(), b.drop_first())
    }
}

/// The keys of `s` are strictly increasing.
pub open spec fn keys_increasing(s: Seq<Entry>) -> bool {
    forall|i: int, j: int| 0 <= i < j < s.len() ==> key_lt(#[trigger] s[i].0, #[trigger] s[j].0)
}

/// `p` splits `s` into the entries whose key is below `key` and those whose key
/// is at or above it.
pub open spec fn is_lower_bound(s: Seq<Entry>, key: Seq<u8>, p: int) -> bool {
    &&& 0 <= p <= s.len()
    &&& forall|i: int| 0 <= i < p ==> key_lt(#[trigger] s[i].0, key)
    &&& forall|i: int| p <= i < s.len() ==> !key_lt(#[trigger] s[i].0, key)
}

/// No key sorts before itself.
pub proof fn lemma_key_lt_irreflexive(a: Seq<u8>)
    ensures
        !key_lt(a, a),
    decreases a.len(),
{
    if a.len() > 0 {
        lemma_key_lt_irreflexive(a.drop_first());
    }
}

/// The order is transitive.
pub proof fn lemma_key_lt_transitive(a: Seq<u8>, b: Seq<u8>, c: Seq<u8>)
    requires
        key_lt(a, b),
        key_lt(b, c),
    ensures
        key_lt(a, c),
    decreases a.len(),
{
    if a.len() > 0 && a[0] == b[0] && b[0] == c[0] {
        lemma_key_lt_transitive(a.drop_first(), b.drop_first(), c.drop_first());
    }
}

/// The order is total: two different keys are ordered one way or the other.
pub proof fn lemma_key_lt_total(a: Seq<u8>, b: Seq<u8>)
    ensures
        key_lt(a, b) || a == b || key_lt(b, a),
    decreases a.len(),
{
    if a.len() == 0 || b.len() == 0 {
        if a.len() == 0 && b.len() == 0 {
            assert(a =~= b);
        }
    } else if a[0] == b[0] {
        lemma_key_lt_total(a.drop_first(), b.drop_first());
        if a.drop_first() == b.drop_first() {
            assert(a =~= seq![a[0]] + a.drop_first());
            assert(b =~= seq![b[0]] + b.drop_first());
        }
    }
}

/// The order is asymmetric.
pub proof fn lemma_key_lt_asymmetric(a: Seq<u8>, b: Seq<u8>)
    requires
        key_lt(a, b),
    ensures
        !key_lt(b, a),
{
    if key_lt(b, a) {
        lemma_key_lt_transitive(a, b, a);
        lemma_key_lt_irreflexive(a);
    }
}

/// What is left of a sequence with increasing keys after its first entries
/// has increasing keys.
pub proof fn lemma_keys_increasing_skip(s: Seq<Entry>, n: int)
    requires
        keys_increasing(s),
        0 <= n <= s.len(),
    ensures
        keys_increasing(s.skip(n)),
{
    let t = s.skip(n);
    assert forall|i: int, j: int| 0 <= i < j < t.len() implies key_lt(
        #[trigger] t[i].0,
        #[trigger] t[j].0,
    ) by {
        assert(t[i] == s[i + n]);
        assert(t[j] == s[j + n]);
    }
}

/// Two sequences with increasing keys, the second starting after the last
/// key of the first, have increasing keys one after the other.
pub proof fn lemma_keys_increasing_concat(a: Seq<Entry>, b: Seq<Entry>)
    requires
        keys_increasing(a),
        keys_increasing(b),
        a.len() > 0 && b.len() > 0 ==> key_lt(a.last().0, b.first().0),
    ensures
        keys_increasing(a + b),
{
    let s = a + b;
    assert forall|i: int, j: int| 0 <= i < j < s.len() implies key_lt(
        #[trigger] s[i].0,
        #[trigger] s[j].0,
    ) by {
        if j < a.len() {
            assert(s[i] == a[i] && s[j] == a[j]);
        } else if i >= a.len() {
            assert(s[i] == b[i - a.len()] && s[j] == b[j - a.len()]);
        } else {
            assert(s[i] == a[i] && s[j] == b[j - a.len()]);
            if i < a.len() - 1 {
                lemma_key_lt_transitive(a[i].0, a.last().0, b.first().0);
            }
            if j > a.len() {
                lemma_key_lt_transitive(s[i].0, b.first().0, b[j - a.len()].0);
            }
        }
    }
}

/// In a sequence with increasing keys, a position whose neighbour below has a
/// key under `key` and which itself has none splits the whole sequence.
pub proof fn lemma_lower_bound_from_neighbours(s: Seq<Entry>, key: Seq<u8>, p: int)
    requires
        keys_increasing(s),
        0 <= p <= s.len(),
        p > 0 ==> key_lt(s[p - 1].0, key),
        p < s.len() ==> !key_lt(s[p].0, key),
    ensures
        is_lower_bound(s, key, p),
{
    assert forall|i: int| 0 <= i < p implies key_lt(#[trigger] s[i].0, key) by {
        if i < p - 1 {
            lemma_key_lt_transitive(s[i].0, s[p - 1].0, key);
        }
    }
    assert forall|i: int| p <= i < s.len() implies !key_lt(#[trigger] s[i].0, key) by {
        if i > p && key_lt(s[i].0, key) {
            lemma_key_lt_transitive(s[p].0, s[i].0, key);
        }
    }
}

/// A sequence has one lower bound for a key at most.
pub proof fn lemma_lower_bound_unique(s: Seq<Entry>, key: Seq<u8>, p: int, q: int)
    requires
        is_lower_bound(s, key, p),
        is_lower_bound(s, key, q),
    ensures
        p == q,
{
    if p < q {
        assert(key_lt(s[p].0, key));
    }
    if q < p {
        assert(key_lt(s[q].0, key));
    }
}

/// Dropping the same number of leading bytes from two keys that agree on them
/// leaves their order unchanged.
proof fn lemma_key_lt_skip(a: Seq<u8>, b: Seq<u8>, n: int)
    requires
        0 <= n <= a.len(),
        n <= b.len(),
        a.subrange(0, n) == b.subrange(0, n),
    ensures
        key_lt(a, b) == key_lt(a.skip(n), b.skip(n)),
    decreases n,
{
    if n > 0 {
        assert(a[0] == a.subrange(0, n)[0]);
        assert(b[0] == b.subrange(0, n)[0]);
        let a1 = a.drop_first();
        let b1 = b.drop_first();
        assert(a1.subrange(0, n - 1) =~= a.subrange(0, n).drop_first());
        assert(b1.subrange(0, n - 1) =~= b.subrange(0, n).drop_first());
        lemma_key_lt_skip(a1, b1, n - 1);
        assert(a1.skip(n - 1) =~= a.skip(n));
        assert(b1.skip(n - 1) =~= b.skip(n));
    } else {
        assert(a.skip(0) =~= a);
        assert(b.skip(0) =~= b);
    }
}

/// Whether `a` sorts strictly before `b`.
pub fn key_less(a: &[u8], b: &[u8]) -> (r: bool)
    ensures
        r == key_lt(a@, b@),
{
    let mut i: usize = 0;
    while i < a.len() && i < b.len()
        invariant
            i <= a@.len(),
            i <= b@.len(),
            a@.subrange(0, i as int) == b@.subrange(0, i as int),
        decreases a@.len() - i,
    {
        if a[i] != b[i] {
            proof {
                lemma_key_lt_skip(a@, b@, i as int);
            }
            return a[i] < b[i];
        }
        proof {
            assert(a@.subrange(0, i + 1) =~= a@.subrange(0, i as int).push(a@[i as int]));
            assert(b@.subrange(0, i + 1) =~= b@.subrange(0, i as int).push(b@[i as int]));
        }
        i += 1;
    }
    proof {
        lemma_key_lt_skip(a@, b@, i as int);
    }
    a.len() < b.len()
}

/// Whether `a` and `b` are the same key.
pub fn key_equal(a: &[u8], b: &[u8]) -> (r: bool)
    ensures
        r == (a@ == b@),
{
    if a.len() != b.len() {
        return false;
    }
    let mut i: usize = 0;
    while i < a.len()
        invariant
            i <= a@.len(),
            a@.len() == b@.len(),
            a@.subrange(0, i as int) == b@.subrange(0, i as int),
        decreases a@.len() - i,
    {
        if a[i] != b[i] {
            return false;
        }
        proof {
            assert(a@.subrange(0, i + 1) =~= a@.subrange(0, i as int).push(a@[i as int]));
            assert(b@.subrange(0, i + 1) =~= b@.subrange(0, i as int).push(b@[i as int]));
        }
        i += 1;
    }
    proof {
        assert(a@ =~= a@.subrange(0, i as int));
        assert(b@ =~= b@.subrange(0, i as int));
    }
    true
}

/// A fresh vector holding the bytes of `s`.
pub fn copy_bytes(s: &[u8]) -> (v: Vec<u8>)
    ensures
        v@ == s@,
{
    let mut v: Vec<u8> = Vec::new();
    v.extend_from_slice(s);
    assert(v@ =~= s@);
    v
}

} // verus!
