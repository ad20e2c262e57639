//! Byte-wise lexicographic order of block-state names, the order in which a
//! schematic's palette compound lists its entries.
use vstd::prelude::*;

verus! {

/// Lexicographic "less than" on byte strings (a proper prefix is smaller).
pub open spec fn lex_lt(a: Seq<u8>, b: Seq<u8>) -> bool
    decreases a.len(),
{
    if a.len() == 0 {
        b.len() > 0
    } else if b.len() == 0 {
        false
    } else if a[0] != b[0] {
        a[0] < b[0]
    } else {
        lex_lt(a.drop_first(), b.drop_first())
    }
}

/// No byte string is below itself.
pub proof fn lemma_lex_irreflexive(a: Seq<u8>)
    ensures
        !lex_lt(a, a),
    decreases a.len(),
{
    if a.len() > 0 {
        lemma_lex_irreflexive(a.drop_first());
    }
}

/// The order is transitive.
pub proof fn lemma_lex_transitive(a: Seq<u8>, b: Seq<u8>, c: Seq<u8>)
    requires
        lex_lt(a, b),
        lex_lt(b, c),
    ensures
        lex_lt(a, c),
    decreases a.len(),
{
    if a.len() > 0 && b.len() > 0 && c.len() > 0 && a[0] == b[0] && b[0] == c[0] {
        lemma_lex_transitive(a.drop_first(), b.drop_first(), c.drop_first());
    }
}

/// Of two different byte strings, one is below the other.
pub proof fn lemma_lex_total(a: Seq<u8>, b: Seq<u8>)
    requires
        a != b,
    ensures
        lex_lt(a, b) || lex_lt(b, a),
    decreases a.len(),
{
    if a.len() == 0 {
        assert(b.len() > 0) by {
            if b.len() == 0 {
                assert(a =~= b);
            }
        }
    } else if b.len() > 0 && a[0] == b[0] {
        if a.drop_first() == b.drop_first() {
            assert(a =~= seq![a[0]] + a.drop_first());
            assert(b =~= seq![b[0]] + b.drop_first());
        }
        lemma_lex_total(a.drop_first(), b.drop_first());
    }
}

/// The order is asymmetric.
pub proof fn lemma_lex_asymmetric(a: Seq<u8>, b: Seq<u8>)
    requires
        lex_lt(a, b),
    ensures
        !lex_lt(b, a),
{
    if lex_lt(b, a) {
        lemma_lex_transitive(a, b, a);
        lemma_lex_irreflexive(a);
    }
}

/// Compares two byte strings lexicographically.
pub fn bytes_lt(a: &[u8], b: &[u8]) -> (r: bool)
    ensures
        r == lex_lt(a@, b@),
{
    let mut i: usize = 0;
    assert(a@.skip(0) =~= a@ && b@.skip(0) =~= b@);
    while i < a.len() && i < b.len()
        invariant
            i <= a@.len(),
            i <= b@.len(),
            lex_lt(a@, b@) == lex_lt(a@.skip(i as int), b@.skip(i as int)),
        decreases a@.len() - i,
    {
        assert(a@.skip(i as int)[0] == a@[i as int]);
        assert(b@.skip(i as int)[0] == b@[i as int]);
        if a[i] != b[i] {
            return a[i] < b[i];
        }
        assert(a@.skip(i as int).drop_first() =~= a@.skip(i + 1int));
        assert(b@.skip(i as int).drop_first() =~= b@.skip(i + 1int));
        i = i + 1;
    }
    i == a.len() && i < b.len()
}

/// The UTF-8 bytes of each name.
pub open spec fn utf8_keys(names: Seq<Seq<char>>) -> Seq<Seq<u8>> {
    names.map_values(|s: Seq<char>| vstd::utf8::encode_utf8(s))
}

/// `order` lists every position of `keys` exactly once, in strictly
/// increasing order of key.
pub open spec fn is_key_order(keys: Seq<Seq<u8>>, order: Seq<usize>) -> bool {
    &&& order.len() == keys.len()
    &&& forall|k: int| 0 <= k < order.len() ==> (#[trigger] order[k] as int) < keys.len()
    &&& forall|k1: int, k2: int|
        #![trigger order[k1], order[k2]]
        0 <= k1 < k2 < order.len() ==> lex_lt(keys[order[k1] as int], keys[order[k2] as int])
    &&& forall|j: usize| j < keys.len() ==> #[trigger] order.contains(j)
}

/// The positions of `keys` sorted by key.
pub open spec fn key_order_of(keys: Seq<Seq<u8>>) -> Seq<usize> {
    choose|order: Seq<usize>| is_key_order(keys, order)
}

/// Law: a sorted listing of distinct keys is unique.
pub proof fn lemma_key_order_unique(keys: Seq<Seq<u8>>, o1: Seq<usize>, o2: Seq<usize>)
    requires
        is_key_order(keys, o1),
        is_key_order(keys, o2),
    ensures
        o1 == o2,
{
    assert forall|k: int| 0 <= k < o1.len() implies o1[k] == o2[k] by {
        lemma_key_order_prefix(keys, o1, o2, k + 1);
    }
    assert(o1 =~= o2);
}

proof fn lemma_key_order_prefix(keys: Seq<Seq<u8>>, o1: Seq<usize>, o2: Seq<usize>, n: int)
    requires
        is_key_order(keys, o1),
        is_key_order(keys, o2),
        0 <= n <= o1.len(),
    ensures
        forall|k: int| 0 <= k < n ==> o1[k] == o2[k],
    decreases n,
{
    if n > 0 {
        lemma_key_order_prefix(keys, o1, o2, n - 1);
        let k = n - 1;
        let a = o1[k];
        let b = o2[k];
        if a != b {
            // `a` sits in `o2` after position k, and `b` in `o1` after k.
            assert(o2.contains(a));
            let p = choose|p: int| 0 <= p < o2.len() && o2[p] == a;
            assert(o1.contains(b));
            let q = choose|q: int| 0 <= q < o1.len() && o1[q] == b;
            if p < k {
                assert(o1[p] == a);
                lemma_lex_irreflexive(keys[a as int]);
            }
            if q < k {
                assert(o2[q] == b);
                lemma_lex_irreflexive(keys[b as int]);
            }
            assert(p > k && q > k);
            assert(lex_lt(keys[b as int], keys[a as int]));
            assert(lex_lt(keys[a as int], keys[b as int]));
            lemma_lex_asymmetric(keys[a as int], keys[b as int]);
        }
    }
}

/// Positions of `names` sorted by the byte-wise order of their UTF-8 forms
/// (the order of Rust's `str`), for a palette in which no name occurs twice.
///
/// This is the order in which a `BTreeMap<String, _>` would walk the
/// palette. The palette is sorted here instead of going through such a map:
/// vstd specifies `BTreeMap` for a key type only under `key_obeys_cmp_spec`
/// for it, which holds for integer keys but is established for no `String`,
/// so the map's order could not be stated.
pub fn key_order(names: &[String]) -> (order: Vec<usize>)
    requires
        forall|i: int, j: int| 0 <= i < j < names@.len() ==> names@[i]@ != names@[j]@,
    ensures
        is_key_order(utf8_keys(names@.map_values(|s: String| s@)), order@),
        order@ == key_order_of(utf8_keys(names@.map_values(|s: String| s@))),
{
    let ghost keys = utf8_keys(names@.map_values(|s: String| s@));
    let n = names.len();
    proof {
        assert forall|i: int, j: int| 0 <= i < n && 0 <= j < n && i != j implies keys[i] != keys[j] by {
            vstd::utf8::encode_utf8_decode_utf8(names@[i]@);
            vstd::utf8::encode_utf8_decode_utf8(names@[j]@);
        }
    }
    let mut order: Vec<usize> = Vec::new();
    let mut i: usize = 0;
    while i < n
        invariant
            n == names@.len(),
            keys == utf8_keys(names@.map_values(|s: String| s@)),
            forall|i: int, j: int| 0 <= i < n && 0 <= j < n && i != j ==> keys[i] != keys[j],
            i <= n,
            order@.len() == i,
            forall|k: int| 0 <= k < order@.len() ==> (#[trigger] order@[k] as int) < i,
            forall|k1: int, k2: int|
                #![trigger order@[k1], order@[k2]]
                0 <= k1 < k2 < order@.len() ==> lex_lt(
                    keys[order@[k1] as int],
                    keys[order@[k2] as int],
                ),
            forall|j: usize| j < i ==> #[trigger] order@.contains(j),
        decreases n - i,
    {
        let key_i = names[i].as_str().as_bytes();
        assert(key_i@ == keys[i as int]);
        let mut p: usize = 0;
        let mut found = false;
        while p < order.len() && !found
            invariant
                n == names@.len(),
                keys == utf8_keys(names@.map_values(|s: String| s@)),
                key_i@ == keys[i as int],
                i < n,
                order@.len() == i,
                forall|k: int| 0 <= k < order@.len() ==> (#[trigger] order@[k] as int) < i,
                p <= order@.len(),
                found ==> p < order@.len() && !lex_lt(keys[order@[p as int] as int], keys[i as int]),
                forall|k: int| 0 <= k < p ==> #[trigger] lex_lt(keys[order@[k] as int], keys[i as int]),
            decreases order@.len() - p + (if found { 0int } else { 1int }),
        {
            let key_p = names[order[p]].as_str().as_bytes();
            if bytes_lt(key_p, key_i) {
                p = p + 1;
            } else {
                found = true;
            }
        }
        let ghost old_order = order@;
        proof {
            // Everything from p on is above key i.
            assert forall|k: int| p <= k < old_order.len() implies #[trigger] lex_lt(
                keys[i as int],
                keys[old_order[k] as int],
            ) by {
                let kp = keys[old_order[p as int] as int];
                assert(old_order[p as int] < i);
                lemma_lex_total(kp, keys[i as int]);
                if k > p {
                    assert(lex_lt(kp, keys[old_order[k] as int]));
                    lemma_lex_transitive(keys[i as int], kp, keys[old_order[k] as int]);
                }
            }
        }
        order.insert(p, i);
        proof {
            let new_order = order@;
            assert(new_order == old_order.insert(p as int, i));
            assert forall|k1: int, k2: int|
                #![trigger new_order[k1], new_order[k2]]
                0 <= k1 < k2 < new_order.len() implies lex_lt(
                keys[new_order[k1] as int],
                keys[new_order[k2] as int],
            ) by {
                if k1 < p && k2 > p {
                    assert(new_order[k1] == old_order[k1]);
                    assert(new_order[k2] == old_order[k2 - 1]);
                    assert(old_order[k1] == old_order[k1]);
                } else if k1 > p {
                    assert(new_order[k1] == old_order[k1 - 1]);
                    assert(new_order[k2] == old_order[k2 - 1]);
                } else if k1 == p {
                    assert(new_order[k2] == old_order[k2 - 1]);
                } else if k2 == p {
                    assert(new_order[k1] == old_order[k1]);
                } else {
                    assert(new_order[k1] == old_order[k1]);
                    assert(new_order[k2] == old_order[k2]);
                }
            }
            assert forall|j: usize| j < i + 1 implies #[trigger] new_order.contains(j) by {
                if j == i {
                    assert(new_order[p as int] == i);
                } else {
                    assert(old_order.contains(j));
                    let q = choose|q: int| 0 <= q < old_order.len() && old_order[q] == j;
                    if q < p {
                        assert(new_order[q] == j);
                    } else {
                        assert(new_order[q + 1] == j);
                    }
                }
            }
            assert forall|k: int| 0 <= k < new_order.len() implies (#[trigger] new_order[k] as int)
                < i + 1 by {
                if k < p {
                    assert(new_order[k] == old_order[k]);
                } else if k > p {
                    assert(new_order[k] == old_order[k - 1]);
                }
            }
        }
        i = i + 1;
    }
    proof {
        assert(is_key_order(keys, order@));
        lemma_key_order_unique(keys, order@, key_order_of(keys));
    }
    order
}

} // verus!
