use std::collections::HashMap;
use std::hash::Hash;
use vstd::prelude::*;
use vstd::std_specs::hash::obeys_key_model;
use vstd::std_specs::iter::IteratorSpec;

verus! {

/// Whether one of the first `n` pairs of `pairs` has the key `k`.
pub open spec fn seen_key<K, V>(pairs: Seq<(&K, &V)>, n: int, k: K) -> bool {
    exists|j: int| 0 <= j < n && *(#[trigger] pairs[j]).0 == k
}

broadcast use vstd::std_specs::hash::group_hash_axioms;

/// What merging `two` into `one` gives for a key held by at most one of them,
/// and which keys the merge holds.
pub open spec fn is_union_of<K, V>(one: Map<K, V>, two: Map<K, V>, merged: Map<K, V>) -> bool {
    &&& merged.dom() == one.dom().union(two.dom())
    &&& forall|k: K| #[trigger] merged.contains_key(k) && !two.contains_key(k) ==> merged[k] == one[k]
    &&& forall|k: K| #[trigger] merged.contains_key(k) && !one.contains_key(k) ==> merged[k] == two[k]
}

/// The union of two maps, combining with `g` the values of a key held by both.
pub open spec fn union_map<K, V>(one: Map<K, V>, two: Map<K, V>, g: spec_fn(V, V) -> V) -> Map<K, V> {
    Map::new(
        |k: K| one.contains_key(k) || two.contains_key(k),
        |k: K|
            if one.contains_key(k) && two.contains_key(k) {
                g(one[k], two[k])
            } else if one.contains_key(k) {
                one[k]
            } else {
                two[k]
            },
    )
}

/// Merging with an empty map gives the other map back, on either side.
pub proof fn lemma_union_map_empty<K, V>(m: Map<K, V>, g: spec_fn(V, V) -> V)
    ensures
        union_map(m, Map::empty(), g) == m,
        union_map(Map::empty(), m, g) == m,
{
    assert(union_map(m, Map::empty(), g) =~= m);
    assert(union_map(Map::empty(), m, g) =~= m);
}

/// Merging with a commutative combination does not depend on the order of the maps.
pub proof fn lemma_union_map_commutative<K, V>(a: Map<K, V>, b: Map<K, V>, g: spec_fn(V, V) -> V)
    requires
        forall|x: V, y: V| #[trigger] g(x, y) == g(y, x),
    ensures
        union_map(a, b, g) == union_map(b, a, g),
{
    assert(union_map(a, b, g) =~= union_map(b, a, g));
}

/// Merging with an associative combination is associative.
pub proof fn lemma_union_map_associative<K, V>(
    a: Map<K, V>,
    b: Map<K, V>,
    c: Map<K, V>,
    g: spec_fn(V, V) -> V,
)
    requires
        forall|x: V, y: V, z: V| #[trigger] g(g(x, y), z) == g(x, g(y, z)),
    ensures
        union_map(union_map(a, b, g), c, g) == union_map(a, union_map(b, c, g), g),
{
    let left = union_map(union_map(a, b, g), c, g);
    let right = union_map(a, union_map(b, c, g), g);
    assert forall|k: K| left.contains_key(k) implies left[k] == right[k] by {
        if a.contains_key(k) && b.contains_key(k) && c.contains_key(k) {
            assert(g(g(a[k], b[k]), c[k]) == g(a[k], g(b[k], c[k])));
        }
    }
    assert(left =~= right);
}

/// Merges two hashmaps, using `f` where a key exists in both hashmaps.
/// A key held by one map only keeps its value; a key held by both gets
/// `f(value in one, value in two)`.
pub fn union_of<K, V, F>(one: &HashMap<K, V>, two: &HashMap<K, V>, f: F) -> (merged: HashMap<K, V>)
    where
        K: Hash + Eq + Copy,
        V: Copy,
        F: Fn(V, V) -> V,
    requires
        obeys_key_model::<K>(),
        forall|k: K|
            one@.contains_key(k) && two@.contains_key(k) ==> #[trigger] f.requires((one@[k], two@[k])),
    ensures
        is_union_of(one@, two@, merged@),
        forall|k: K|
            one@.contains_key(k) && two@.contains_key(k) ==> #[trigger] f.ensures(
                (one@[k], two@[k]),
                merged@[k],
            ),
        forall|g: spec_fn(V, V) -> V|
            (forall|x: V, y: V, r: V| #[trigger] f.ensures((x, y), r) ==> r == g(x, y)) ==> merged@
                == #[trigger] union_map(one@, two@, g),
{
    let mut merged = one.clone();
    let ghost pairs = two.iter().remaining();
    let ghost mut done: int = 0;
    for (k, v) in it: two.iter()
        invariant
            obeys_key_model::<K>(),
            it.seq() == pairs,
            done == it.index(),
            pairs == two.iter().remaining(),
            forall|key: K| #[trigger]
                merged@.contains_key(key) <==> one@.contains_key(key) || seen_key(
                    it.seq(),
                    it.index() as int,
                    key,
                ),
            forall|key: K| #[trigger]
                merged@.contains_key(key) && !seen_key(it.seq(), it.index() as int, key)
                    ==> merged@[key] == one@[key],
            forall|key: K| #[trigger]
                merged@.contains_key(key) && seen_key(it.seq(), it.index() as int, key)
                    && !one@.contains_key(key) ==> merged@[key] == two@[key],
            forall|key: K| #[trigger]
                merged@.contains_key(key) && seen_key(it.seq(), it.index() as int, key)
                    && one@.contains_key(key) ==> f.ensures((one@[key], two@[key]), merged@[key]),
            forall|key: K|
                one@.contains_key(key) && two@.contains_key(key) ==> #[trigger] f.requires(
                    (one@[key], two@[key]),
                ),
    {
        proof {
            assert(two@.contains_key(*pairs[it.index() as int].0));
        }
        let value = match one.get(k) {
            Some(v1) => f(*v1, *v),
            None => *v,
        };
        merged.insert(*k, value);
        proof {
            done = done + 1;
        }
    }
    proof {
        assert(done == pairs.len());
        assert forall|key: K| two@.contains_key(key) implies #[trigger] seen_key(
            pairs,
            done,
            key,
        ) by {
            assert(pairs.contains((&key, &two@[key])));
        }
        assert forall|key: K| #[trigger] seen_key(pairs, done, key) implies two@.contains_key(key) by {
            let j = choose|j: int| 0 <= j < done && *(#[trigger] pairs[j]).0 == key;
            assert(two@.contains_key(*pairs[j].0));
        }
        assert(merged@.dom() =~= one@.dom().union(two@.dom()));
        assert forall|k: K| one@.contains_key(k) && two@.contains_key(k) implies #[trigger] f.ensures(
            (one@[k], two@[k]),
            merged@[k],
        ) by {
            assert(seen_key(pairs, done, k));
            assert(merged@.contains_key(k));
        }
        assert forall|g: spec_fn(V, V) -> V|
            (forall|x: V, y: V, r: V| #[trigger] f.ensures((x, y), r) ==> r == g(x, y)) implies merged@
            == #[trigger] union_map(one@, two@, g) by {
            assert forall|k: K| merged@.contains_key(k) implies merged@[k] == union_map(
                one@,
                two@,
                g,
            )[k] by {
                if one@.contains_key(k) && two@.contains_key(k) {
                    assert(f.ensures((one@[k], two@[k]), merged@[k]));
                }
            }
            assert(merged@ =~= union_map(one@, two@, g));
        }
    }
    merged
}

} // verus!
