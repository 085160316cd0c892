use crate::agent::{count_matching, lemma_count_matching_push};
use itertools::Itertools;
use std::collections::HashMap;
use vstd::prelude::*;

verus! {

broadcast use vstd::std_specs::hash::group_hash_axioms;

/// The values of the pairs with the given key, in the order of the pairs.
pub open spec fn values_with_key(pairs: Seq<(usize, usize)>, key: usize) -> Seq<usize>
    decreases pairs.len(),
{
    if pairs.len() == 0 {
        Seq::empty()
    } else {
        let rest = values_with_key(pairs.drop_last(), key);
        if pairs.last().0 == key {
            rest.push(pairs.last().1)
        } else {
            rest
        }
    }
}

/// Groups the values of the pairs by their keys, through itertools'
/// `Itertools::into_group_map`, which pushes each value, in the order of the pairs, onto
/// the vector of its key: the keys of the result are the keys of the pairs, and each
/// key's vector holds the values paired with it, in order.
#[verifier::external_body]
pub(crate) fn group_pairs(pairs: Vec<(usize, usize)>) -> (groups: HashMap<usize, Vec<usize>>)
    ensures
        forall|k: usize|
            (#[trigger] groups@.contains_key(k)) == (exists|i: int|
                0 <= i < pairs.len() && pairs@[i].0 == k),
        forall|k: usize|
            #[trigger] groups@.contains_key(k) ==> groups@[k]@ == values_with_key(pairs@, k),
{
    pairs.into_iter().into_group_map()
}

/// Each element of `s` paired with its position, keyed by `key`: (key, position).
pub open spec fn keyed_positions<T>(s: Seq<T>, key: spec_fn(T) -> usize) -> Seq<(usize, usize)> {
    Seq::new(s.len(), |k: int| (key(s[k]), k as usize))
}

/// Each key paired with its position: (key, position).
pub open spec fn indexed(keys: Seq<usize>) -> Seq<(usize, usize)> {
    Seq::new(keys.len(), |k: int| (keys[k], k as usize))
}

/// `groups` holds, under each key of `pairs` and no other, the values paired with that
/// key, in the order of the pairs.
pub open spec fn grouped_by(groups: Map<usize, Vec<usize>>, pairs: Seq<(usize, usize)>) -> bool {
    &&& forall|k: usize|
        (#[trigger] groups.contains_key(k)) == (exists|i: int| 0 <= i < pairs.len() && pairs[i].0 == k)
    &&& forall|k: usize| #[trigger] groups.contains_key(k) ==> groups[k]@ == values_with_key(pairs, k)
}

/// Groups the positions of `keys` by the key at each position.
pub fn group_positions(keys: &Vec<usize>) -> (groups: HashMap<usize, Vec<usize>>)
    ensures
        grouped_by(groups@, indexed(keys@)),
{
    let mut pairs: Vec<(usize, usize)> = Vec::new();
    let mut k: usize = 0;
    while k < keys.len()
        invariant
            k <= keys.len(),
            pairs.len() == k,
            forall|j: int| 0 <= j < k ==> #[trigger] pairs@[j] == (keys@[j], j as usize),
        decreases keys.len() - k,
    {
        pairs.push((keys[k], k));
        k = k + 1;
    }
    assert(pairs@ =~= indexed(keys@));
    group_pairs(pairs)
}

/// Keys computed element by element index the elements' positions as `keyed_positions` does.
pub proof fn lemma_indexed_keys<T>(keys: Seq<usize>, s: Seq<T>, key: spec_fn(T) -> usize)
    requires
        keys.len() == s.len(),
        forall|i: int| 0 <= i < s.len() ==> #[trigger] keys[i] == key(s[i]),
    ensures
        indexed(keys) == keyed_positions(s, key),
{
    assert(indexed(keys) =~= keyed_positions(s, key));
}

/// Some element satisfies `p` exactly when the count of those that do is positive.
pub proof fn lemma_count_positive<T>(s: Seq<T>, p: spec_fn(T) -> bool)
    ensures
        count_matching(s, p) > 0 <==> exists|i: int| 0 <= i < s.len() && #[trigger] p(s[i]),
    decreases s.len(),
{
    if s.len() > 0 {
        let rest = s.drop_last();
        lemma_count_positive(rest, p);
        if exists|i: int| 0 <= i < rest.len() && #[trigger] p(rest[i]) {
            let i = choose|i: int| 0 <= i < rest.len() && #[trigger] p(rest[i]);
            assert(s[i] == rest[i]);
        }
        if exists|i: int| 0 <= i < s.len() && #[trigger] p(s[i]) {
            let i = choose|i: int| 0 <= i < s.len() && #[trigger] p(s[i]);
            if i < rest.len() {
                assert(rest[i] == s[i]);
            }
        }
    }
}

/// Grouping the positions of `s` by `key`: key `k` is there exactly when some element has
/// it (`in_group`), and then it holds as many positions as there are such elements.
pub proof fn lemma_grouped_len<T>(
    groups: Map<usize, Vec<usize>>,
    s: Seq<T>,
    key: spec_fn(T) -> usize,
    k: usize,
    in_group: spec_fn(T) -> bool,
)
    requires
        s.len() <= usize::MAX,
        grouped_by(groups, keyed_positions(s, key)),
        forall|x: T| #[trigger] in_group(x) == (key(x) == k),
    ensures
        groups.contains_key(k) <==> count_matching(s, in_group) > 0,
        groups.contains_key(k) ==> groups[k]@.len() == count_matching(s, in_group),
        groups.contains_key(k) ==> forall|i: int|
            0 <= i < groups[k]@.len() ==> #[trigger] groups[k]@[i] < s.len(),
{
    let pairs = keyed_positions(s, key);
    lemma_count_positive(s, in_group);
    if groups.contains_key(k) {
        let i = choose|i: int| 0 <= i < pairs.len() && pairs[i].0 == k;
        assert(in_group(s[i]));
    }
    if count_matching(s, in_group) > 0 {
        let i = choose|i: int| 0 <= i < s.len() && #[trigger] in_group(s[i]);
        assert(pairs[i].0 == k);
    }
    let g = values_with_key(pairs, k);
    lemma_group_count(s, key, k, |x: T| true);
    lemma_group_positions(s, key, k);
    lemma_count_all(g);
    lemma_count_matching_congruent(g, |pos: usize| true, |pos: usize| (|x: T| true)(s[pos as int]));
    lemma_count_matching_congruent(s, |x: T| key(x) == k && (|x: T| true)(x), in_group);
}

/// Grouping the positions of `s` by `key`: counting the positions under key `k` that
/// satisfy `at` counts the elements with key `k` that satisfy `p` (`in_group_p`), where
/// `at` holds of a position when `p` holds of the element there.
pub proof fn lemma_grouped_count<T>(
    groups: Map<usize, Vec<usize>>,
    s: Seq<T>,
    key: spec_fn(T) -> usize,
    k: usize,
    p: spec_fn(T) -> bool,
    in_group_p: spec_fn(T) -> bool,
    at: spec_fn(usize) -> bool,
)
    requires
        s.len() <= usize::MAX,
        grouped_by(groups, keyed_positions(s, key)),
        groups.contains_key(k),
        forall|x: T| #[trigger] in_group_p(x) == (key(x) == k && p(x)),
        forall|pos: usize| pos < s.len() ==> #[trigger] at(pos) == p(s[pos as int]),
    ensures
        count_matching(groups[k]@, at) == count_matching(s, in_group_p),
{
    let g = values_with_key(keyed_positions(s, key), k);
    lemma_group_count(s, key, k, p);
    lemma_group_positions(s, key, k);
    lemma_count_matching_congruent(g, |pos: usize| p(s[pos as int]), at);
    lemma_count_matching_congruent(s, |x: T| key(x) == k && p(x), in_group_p);
}

pub proof fn lemma_count_matching_congruent<T>(s: Seq<T>, p1: spec_fn(T) -> bool, p2: spec_fn(T) -> bool)
    requires
        forall|i: int| 0 <= i < s.len() ==> p1(#[trigger] s[i]) == p2(s[i]),
    ensures
        count_matching(s, p1) == count_matching(s, p2),
    decreases s.len(),
{
    if s.len() > 0 {
        lemma_count_matching_congruent(s.drop_last(), p1, p2);
    }
}

pub proof fn lemma_count_all<T>(s: Seq<T>)
    ensures
        count_matching(s, |x: T| true) == s.len(),
    decreases s.len(),
{
    if s.len() > 0 {
        lemma_count_all(s.drop_last());
    }
}

/// The positions grouped under a key are positions of `s`, in increasing order.
pub proof fn lemma_group_positions<T>(s: Seq<T>, key: spec_fn(T) -> usize, k: usize)
    requires
        s.len() <= usize::MAX,
    ensures
        ({
            let g = values_with_key(keyed_positions(s, key), k);
            &&& forall|i: int| 0 <= i < g.len() ==> #[trigger] g[i] < s.len() && key(s[g[i] as int]) == k
            &&& forall|i: int, j: int| 0 <= i < j < g.len() ==> #[trigger] g[i] < #[trigger] g[j]
        }),
    decreases s.len(),
{
    if s.len() > 0 {
        let rest = s.drop_last();
        assert(keyed_positions(rest, key) =~= keyed_positions(s, key).drop_last());
        lemma_group_positions(rest, key, k);
        let g = values_with_key(keyed_positions(s, key), k);
        let gr = values_with_key(keyed_positions(rest, key), k);
        if key(s.last()) == k {
            assert(g == gr.push((s.len() - 1) as usize));
        } else {
            assert(g == gr);
        }
        assert forall|i: int| 0 <= i < gr.len() implies key(s[gr[i] as int]) == k by {
            assert(s[gr[i] as int] == rest[gr[i] as int]);
        }
    }
}

/// Counting the elements grouped under key `k` that satisfy `p` counts the elements of `s`
/// with key `k` that satisfy `p`.
pub proof fn lemma_group_count<T>(s: Seq<T>, key: spec_fn(T) -> usize, k: usize, p: spec_fn(T) -> bool)
    requires
        s.len() <= usize::MAX,
    ensures
        count_matching(
            values_with_key(keyed_positions(s, key), k),
            |pos: usize| p(s[pos as int]),
        ) == count_matching(s, |x: T| key(x) == k && p(x)),
    decreases s.len(),
{
    let g = values_with_key(keyed_positions(s, key), k);
    if s.len() > 0 {
        let n = s.len() - 1;
        let rest = s.drop_last();
        assert(keyed_positions(rest, key) =~= keyed_positions(s, key).drop_last());
        let gr = values_with_key(keyed_positions(rest, key), k);
        lemma_group_count(rest, key, k, p);
        lemma_group_positions(rest, key, k);
        lemma_count_matching_congruent(
            gr,
            |pos: usize| p(s[pos as int]),
            |pos: usize| p(rest[pos as int]),
        );
        if key(s.last()) == k {
            assert(g == gr.push(n as usize));
            lemma_count_matching_push(gr, n as usize, |pos: usize| p(s[pos as int]));
        } else {
            assert(g == gr);
        }
    }
}

} // verus!
