use rand::distributions::{Distribution, Weighted, WeightedChoice};
use rand::thread_rng;
use std::collections::HashMap;
use vstd::prelude::*;

verus! {

broadcast use vstd::std_specs::hash::group_hash_axioms;

/// The sum of a sequence of weights.
pub open spec fn weight_total(weights: Seq<u32>) -> nat
    decreases weights.len(),
{
    if weights.len() == 0 {
        0
    } else {
        weight_total(weights.drop_last()) + weights.last() as nat
    }
}

/// How many times `x` occurs in `s`.
pub open spec fn occurrences(s: Seq<u32>, x: u32) -> nat
    decreases s.len(),
{
    if s.len() == 0 {
        0
    } else {
        occurrences(s.drop_last(), x) + if s.last() == x {
            1nat
        } else {
            0nat
        }
    }
}

/// The number of links that node `i` makes itself when it joins a network
/// built with at least `min` links per node: it links to every node already
/// there while there are fewer than `min` of them, and to `min` nodes afterwards.
pub open spec fn links_made(i: nat, min: nat) -> nat {
    if i < min {
        i
    } else {
        min
    }
}

/// The number of links in the network once its first `n` nodes have joined.
pub open spec fn links_after(n: nat, min: nat) -> nat
    decreases n,
{
    if n == 0 {
        0
    } else {
        links_after((n - 1) as nat, min) + links_made((n - 1) as nat, min)
    }
}

/// The sum of the lengths of the friend lists, i.e. the total number of link ends.
pub open spec fn total_degree(rows: Seq<Seq<u32>>) -> nat
    decreases rows.len(),
{
    if rows.len() == 0 {
        0
    } else {
        total_degree(rows.drop_last()) + rows.last().len()
    }
}

/// Friend lists `rows` (node `a`'s friends are `rows[a]`) of a network of `rows.len()` nodes
/// grown by preferential attachment with at least `min` links per joining node:
/// - every friend is another node of the network;
/// - links go both ways: `b` occurs in `a`'s list as often as `a` occurs in `b`'s;
/// - each list starts with the links the node made when it joined (to earlier nodes)
///   and goes on with the links later nodes made to it, in the order those nodes joined;
/// - a node that joined while there were fewer than `min` nodes linked to each of them once.
pub open spec fn is_grown_network(rows: Seq<Seq<u32>>, min: nat) -> bool {
    &&& forall|a: int, k: int|
        0 <= a < rows.len() && 0 <= k < rows[a].len() ==> #[trigger] rows[a][k] < rows.len()
            && rows[a][k] != a
    &&& forall|a: int, b: int|
        0 <= a < rows.len() && 0 <= b < rows.len() ==> occurrences(#[trigger] rows[a], b as u32)
            == occurrences(#[trigger] rows[b], a as u32)
    &&& forall|a: int|
        0 <= a < rows.len() ==> #[trigger] rows[a].len() >= links_made(a as nat, min)
    &&& forall|a: int, k: int|
        0 <= a < rows.len() && 0 <= k < rows[a].len() ==> (#[trigger] rows[a][k] < a <==> k
            < links_made(a as nat, min))
    &&& forall|a: int, j: int|
        0 <= j < a < rows.len() && a < min ==> #[trigger] occurrences(
            rows[a].take(a),
            j as u32,
        ) == 1
    &&& forall|a: int, k1: int, k2: int|
        0 <= a < rows.len() && links_made(a as nat, min) <= k1 < k2 < rows[a].len()
            ==> #[trigger] rows[a][k1] <= #[trigger] rows[a][k2]
}

/// Picks an index of `weights` at random, each index with a chance proportional to its weight.
/// Calls rand's `WeightedChoice::new` on the weights (items being the indices) and its
/// `Distribution::sample` with `thread_rng`. rand asserts that the items are not empty and
/// that their total weight is positive and fits in a `u32`; `sample` returns the first item
/// whose running total of weights exceeds a number drawn below the total, so the item
/// returned has a positive weight. Which index comes out is left to chance.
#[verifier::external_body]
fn choose_weighted_index(weights: &Vec<u32>) -> (index: usize)
    requires
        weights.len() > 0,
        0 < weight_total(weights@) <= u32::MAX,
    ensures
        index < weights.len(),
        weights[index as int] > 0,
{
    let mut items: Vec<Weighted<usize>> = weights.iter().enumerate().map(
        |(i, w)| Weighted { weight: *w, item: i },
    ).collect();
    let choice = WeightedChoice::new(&mut items);
    choice.sample(&mut thread_rng())
}

/// The friend lists held by a vector of vectors.
pub open spec fn rows_of(adj: Seq<Vec<u32>>) -> Seq<Seq<u32>> {
    Seq::new(adj.len(), |a: int| adj[a]@)
}

/// The friend lists of nodes `0..n` held by a map from node to friends.
pub open spec fn network_rows(network: Map<u32, Vec<u32>>, n: nat) -> Seq<Seq<u32>> {
    Seq::new(n, |a: int| network[a as u32]@)
}

/// The sequence `0, 1, ..., n - 1`.
pub open spec fn first_ids(n: nat) -> Seq<u32> {
    Seq::new(n, |k: int| k as u32)
}

/// `n` copies of `x`.
pub open spec fn copies(x: u32, n: nat) -> Seq<u32> {
    Seq::new(n, |k: int| x)
}

proof fn lemma_occurrences_push(s: Seq<u32>, y: u32, x: u32)
    ensures
        occurrences(s.push(y), x) == occurrences(s, x) + if y == x {
            1nat
        } else {
            0nat
        },
{
    assert(s.push(y).drop_last() =~= s);
}

proof fn lemma_occurrences_absent(s: Seq<u32>, x: u32)
    requires
        forall|k: int| 0 <= k < s.len() ==> s[k] != x,
    ensures
        occurrences(s, x) == 0,
    decreases s.len(),
{
    if s.len() > 0 {
        lemma_occurrences_absent(s.drop_last(), x);
    }
}

proof fn lemma_occurrences_first_ids(n: nat, x: u32)
    requires
        n <= u32::MAX + 1,
    ensures
        occurrences(first_ids(n), x) == if x < n {
            1nat
        } else {
            0nat
        },
    decreases n,
{
    if n > 0 {
        let m = (n - 1) as nat;
        assert(first_ids(n) =~= first_ids(m).push(m as u32));
        lemma_occurrences_first_ids(m, x);
        lemma_occurrences_push(first_ids(m), m as u32, x);
    }
}

proof fn lemma_occurrences_copies(s: Seq<u32>, x: u32, n: nat, y: u32)
    ensures
        occurrences(s + copies(x, n), y) == occurrences(s, y) + if x == y {
            n
        } else {
            0nat
        },
    decreases n,
{
    if n > 0 {
        let m = (n - 1) as nat;
        assert(s + copies(x, n) =~= (s + copies(x, m)).push(x));
        lemma_occurrences_copies(s, x, m, y);
        lemma_occurrences_push(s + copies(x, m), x, y);
    } else {
        assert(s + copies(x, n) =~= s);
    }
}

proof fn lemma_total_degree_push(rows: Seq<Seq<u32>>, r: Seq<u32>)
    ensures
        total_degree(rows.push(r)) == total_degree(rows) + r.len(),
{
    assert(rows.push(r).drop_last() =~= rows);
}

proof fn lemma_total_degree_update_push(rows: Seq<Seq<u32>>, a: int, x: u32)
    requires
        0 <= a < rows.len(),
    ensures
        total_degree(rows.update(a, rows[a].push(x))) == total_degree(rows) + 1,
    decreases rows.len(),
{
    let updated = rows.update(a, rows[a].push(x));
    if a == rows.len() - 1 {
        assert(updated.drop_last() =~= rows.drop_last());
    } else {
        assert(updated.drop_last() =~= rows.drop_last().update(a, rows[a].push(x)));
        lemma_total_degree_update_push(rows.drop_last(), a, x);
    }
}

proof fn lemma_row_len_at_most_total(rows: Seq<Seq<u32>>, a: int)
    requires
        0 <= a < rows.len(),
    ensures
        rows[a].len() <= total_degree(rows),
    decreases rows.len(),
{
    if a < rows.len() - 1 {
        lemma_row_len_at_most_total(rows.drop_last(), a);
    }
}

proof fn lemma_links_after_monotone(n: nat, m: nat, min: nat)
    requires
        n <= m,
    ensures
        links_after(n, min) <= links_after(m, min),
    decreases m,
{
    if n < m {
        lemma_links_after_monotone(n, (m - 1) as nat, min);
    }
}

/// Adds node `i`, the next node, with a link to every node already in the network.
/// Returns the friends of the new node.
fn link_to_all(adj: &mut Vec<Vec<u32>>, i: u32) -> (friends: Vec<u32>)
    requires
        old(adj).len() == i,
    ensures
        final(adj).len() == i,
        forall|a: int| 0 <= a < i ==> #[trigger] final(adj)@[a]@ == old(adj)@[a]@.push(i),
        friends@ == first_ids(i as nat),
        total_degree(rows_of(final(adj)@)) == total_degree(rows_of(old(adj)@)) + i,
{
    let ghost start = adj@;
    let mut friends: Vec<u32> = Vec::new();
    let mut j: u32 = 0;
    while j < i
        invariant
            j <= i,
            adj.len() == i,
            start.len() == i,
            forall|a: int| 0 <= a < j ==> #[trigger] adj@[a]@ == start[a]@.push(i),
            forall|a: int| j <= a < i ==> #[trigger] adj@[a] == start[a],
            friends@ == first_ids(j as nat),
            total_degree(rows_of(adj@)) == total_degree(rows_of(start)) + j,
        decreases i - j,
    {
        let ghost before = adj@;
        adj[j as usize].push(i);
        proof {
            assert(rows_of(adj@) =~= rows_of(before).update(
                j as int,
                rows_of(before)[j as int].push(i),
            ));
            lemma_total_degree_update_push(rows_of(before), j as int, i);
        }
        friends.push(j);
        proof {
            assert(friends@ =~= first_ids((j + 1) as nat));
        }
        j = j + 1;
    }
    friends
}

/// The number of links of each node: the weights of preferential attachment.
pub open spec fn link_counts(rows: Seq<Seq<u32>>) -> Seq<u32> {
    Seq::new(rows.len(), |a: int| rows[a].len() as u32)
}

proof fn lemma_link_counts_total(rows: Seq<Seq<u32>>)
    requires
        total_degree(rows) <= u32::MAX,
    ensures
        weight_total(link_counts(rows)) == total_degree(rows),
    decreases rows.len(),
{
    if rows.len() > 0 {
        let rest = rows.drop_last();
        assert(link_counts(rows).drop_last() =~= link_counts(rest));
        lemma_link_counts_total(rest);
    }
}

/// The weights with which a joining node draws the nodes it links to: each node's
/// number of links (`adj[a]` holds node `a`'s friends).
pub fn degree_weights(adj: &Vec<Vec<u32>>) -> (weights: Vec<u32>)
    ensures
        weights@ == link_counts(rows_of(adj@)),
{
    let mut weights: Vec<u32> = Vec::new();
    let mut j: usize = 0;
    while j < adj.len()
        invariant
            j <= adj.len(),
            weights@ == link_counts(rows_of(adj@)).take(j as int),
        decreases adj.len() - j,
    {
        weights.push(adj[j].len() as u32);
        proof {
            assert(weights@ =~= link_counts(rows_of(adj@)).take(j + 1));
        }
        j = j + 1;
    }
    proof {
        assert(link_counts(rows_of(adj@)).take(adj.len() as int) =~= link_counts(rows_of(adj@)));
    }
    weights
}

/// Adds node `i`, the next node, with `min` links to nodes drawn at random with the given
/// weights, which are the nodes' numbers of links (preferential attachment): a node is
/// drawn with a chance proportional to the number of links it has, and only nodes with a
/// positive weight can be drawn. A node may be drawn more than once. Returns the friends
/// of the new node.
fn link_preferentially(adj: &mut Vec<Vec<u32>>, i: u32, min: u32, weights: &Vec<u32>) -> (friends: Vec<u32>)
    requires
        old(adj).len() == i,
        0 < total_degree(rows_of(old(adj)@)) <= u32::MAX,
        weights@ == link_counts(rows_of(old(adj)@)),
    ensures
        final(adj).len() == i,
        friends.len() == min,
        forall|k: int|
            0 <= k < min ==> #[trigger] friends@[k] < i && weights@[friends@[k] as int] > 0
                && old(adj)@[friends@[k] as int].len() > 0,
        forall|a: int|
            0 <= a < i ==> #[trigger] final(adj)@[a]@ == old(adj)@[a]@ + copies(
                i,
                occurrences(friends@, a as u32),
            ),
        total_degree(rows_of(final(adj)@)) == total_degree(rows_of(old(adj)@)) + min,
{
    let ghost start = adj@;
    let ghost rows = rows_of(start);
    proof {
        lemma_link_counts_total(rows);
        assert forall|k: int| 0 <= k < i implies #[trigger] weights@[k] == start[k].len() by {
            lemma_row_len_at_most_total(rows, k);
        }
    }
    let mut friends: Vec<u32> = Vec::new();
    let mut c: u32 = 0;
    while c < min
        invariant
            c <= min,
            adj.len() == i,
            start.len() == i,
            rows == rows_of(start),
            weights.len() == i,
            i > 0,
            forall|k: int| 0 <= k < i ==> #[trigger] weights@[k] == start[k].len(),
            0 < weight_total(weights@) <= u32::MAX,
            friends.len() == c,
            forall|k: int|
                0 <= k < c ==> #[trigger] friends@[k] < i && weights@[friends@[k] as int] > 0
                    && start[friends@[k] as int].len() > 0,
            forall|a: int|
                0 <= a < i ==> #[trigger] adj@[a]@ == start[a]@ + copies(
                    i,
                    occurrences(friends@, a as u32),
                ),
            total_degree(rows_of(adj@)) == total_degree(rows) + c,
        decreases min - c,
    {
        let id = choose_weighted_index(&weights);
        let ghost before = adj@;
        let ghost before_friends = friends@;
        adj[id].push(i);
        friends.push(id as u32);
        proof {
            assert(rows_of(adj@) =~= rows_of(before).update(
                id as int,
                rows_of(before)[id as int].push(i),
            ));
            lemma_total_degree_update_push(rows_of(before), id as int, i);
            assert forall|a: int| 0 <= a < i implies #[trigger] adj@[a]@ == start[a]@ + copies(
                i,
                occurrences(friends@, a as u32),
            ) by {
                lemma_occurrences_push(before_friends, id as u32, a as u32);
                let n = occurrences(before_friends, a as u32);
                if a == id as int {
                    assert((start[a]@ + copies(i, n)).push(i) =~= start[a]@ + copies(i, n + 1));
                }
            }
        }
        c = c + 1;
    }
    friends
}

/// Adding a node linked to every earlier node keeps a grown network grown,
/// while there are fewer than `min` nodes.
proof fn lemma_grow_by_all(old_rows: Seq<Seq<u32>>, new_rows: Seq<Seq<u32>>, min: nat)
    requires
        is_grown_network(old_rows, min),
        old_rows.len() < min,
        old_rows.len() < u32::MAX,
        new_rows.len() == old_rows.len() + 1,
        forall|a: int|
            0 <= a < old_rows.len() ==> #[trigger] new_rows[a] == old_rows[a].push(
                old_rows.len() as u32,
            ),
        new_rows[old_rows.len() as int] == first_ids(old_rows.len()),
    ensures
        is_grown_network(new_rows, min),
{
    let i = old_rows.len() as int;
    let iu = i as u32;
    assert forall|a: int, k: int|
        0 <= a < new_rows.len() && 0 <= k < new_rows[a].len() implies #[trigger] new_rows[a][k]
        < new_rows.len() && new_rows[a][k] != a && (new_rows[a][k] < a <==> k < links_made(
        a as nat,
        min,
    )) by {
        if a < i && k < old_rows[a].len() {
            assert(new_rows[a][k] == old_rows[a][k]);
        }
    }
    assert forall|a: int, b: int|
        0 <= a < new_rows.len() && 0 <= b < new_rows.len() implies occurrences(
        #[trigger] new_rows[a],
        b as u32,
    ) == occurrences(#[trigger] new_rows[b], a as u32) by {
        if a < i {
            lemma_occurrences_push(old_rows[a], iu, b as u32);
            lemma_occurrences_absent(old_rows[a], iu);
        } else {
            lemma_occurrences_first_ids(i as nat, b as u32);
        }
        if b < i {
            lemma_occurrences_push(old_rows[b], iu, a as u32);
            lemma_occurrences_absent(old_rows[b], iu);
        } else {
            lemma_occurrences_first_ids(i as nat, a as u32);
        }
    }
    assert forall|a: int| 0 <= a < new_rows.len() implies #[trigger] new_rows[a].len()
        >= links_made(a as nat, min) by {}
    assert forall|a: int, j: int|
        0 <= j < a < new_rows.len() && a < min implies #[trigger] occurrences(
        new_rows[a].take(a),
        j as u32,
    ) == 1 by {
        if a < i {
            assert(new_rows[a].take(a) =~= old_rows[a].take(a));
        } else {
            assert(new_rows[a].take(a) =~= first_ids(i as nat));
            lemma_occurrences_first_ids(i as nat, j as u32);
        }
    }
    assert forall|a: int, k1: int, k2: int|
        0 <= a < new_rows.len() && links_made(a as nat, min) <= k1 < k2 < new_rows[a].len()
            implies #[trigger] new_rows[a][k1] <= #[trigger] new_rows[a][k2] by {
        if a < i {
            assert(new_rows[a][k1] == old_rows[a][k1]);
            if k2 < old_rows[a].len() {
                assert(new_rows[a][k2] == old_rows[a][k2]);
            }
        }
    }
}

/// Adding a node with `min` links to earlier nodes keeps a grown network grown,
/// once there are at least `min` nodes.
proof fn lemma_grow_preferentially(
    old_rows: Seq<Seq<u32>>,
    new_rows: Seq<Seq<u32>>,
    friends: Seq<u32>,
    min: nat,
)
    requires
        is_grown_network(old_rows, min),
        old_rows.len() >= min,
        old_rows.len() < u32::MAX,
        friends.len() == min,
        forall|k: int| 0 <= k < friends.len() ==> #[trigger] friends[k] < old_rows.len(),
        new_rows.len() == old_rows.len() + 1,
        forall|a: int|
            0 <= a < old_rows.len() ==> #[trigger] new_rows[a] == old_rows[a] + copies(
                old_rows.len() as u32,
                occurrences(friends, a as u32),
            ),
        new_rows[old_rows.len() as int] == friends,
    ensures
        is_grown_network(new_rows, min),
{
    let i = old_rows.len() as int;
    let iu = i as u32;
    assert forall|a: int, k: int|
        0 <= a < new_rows.len() && 0 <= k < new_rows[a].len() implies #[trigger] new_rows[a][k]
        < new_rows.len() && new_rows[a][k] != a && (new_rows[a][k] < a <==> k < links_made(
        a as nat,
        min,
    )) by {
        if a < i && k < old_rows[a].len() {
            assert(new_rows[a][k] == old_rows[a][k]);
        }
    }
    assert forall|a: int, b: int|
        0 <= a < new_rows.len() && 0 <= b < new_rows.len() implies occurrences(
        #[trigger] new_rows[a],
        b as u32,
    ) == occurrences(#[trigger] new_rows[b], a as u32) by {
        if a < i {
            lemma_occurrences_copies(old_rows[a], iu, occurrences(friends, a as u32), b as u32);
            lemma_occurrences_absent(old_rows[a], iu);
        }
        if b < i {
            lemma_occurrences_copies(old_rows[b], iu, occurrences(friends, b as u32), a as u32);
            lemma_occurrences_absent(old_rows[b], iu);
        }
        if a == i && b == i {
            lemma_occurrences_absent(friends, iu);
        }
    }
    assert forall|a: int| 0 <= a < new_rows.len() implies #[trigger] new_rows[a].len()
        >= links_made(a as nat, min) by {}
    assert forall|a: int, j: int|
        0 <= j < a < new_rows.len() && a < min implies #[trigger] occurrences(
        new_rows[a].take(a),
        j as u32,
    ) == 1 by {
        assert(new_rows[a].take(a) =~= old_rows[a].take(a));
    }
    assert forall|a: int, k1: int, k2: int|
        0 <= a < new_rows.len() && links_made(a as nat, min) <= k1 < k2 < new_rows[a].len()
            implies #[trigger] new_rows[a][k1] <= #[trigger] new_rows[a][k2] by {
        if a < i {
            if k2 < old_rows[a].len() {
                assert(new_rows[a][k1] == old_rows[a][k1]);
                assert(new_rows[a][k2] == old_rows[a][k2]);
            } else if k1 < old_rows[a].len() {
                assert(new_rows[a][k1] == old_rows[a][k1]);
                assert(new_rows[a][k2] == iu);
            } else {
                assert(new_rows[a][k1] == iu);
                assert(new_rows[a][k2] == iu);
            }
        }
    }
}

/// Whether a network of `total` nodes with at least `min` links per joining node can be
/// grown without a draw from an empty or oversized total of weights.
pub open spec fn network_can_grow(min: nat, total: nat) -> bool {
    &&& min >= 2 || total <= min
    &&& total <= min || 2 * links_after((total - 1) as nat, min) <= u32::MAX
}

/// Whether `generate_social_network(min, total_number)` can run: with `min` below 2 a
/// network of more than `min` nodes would draw from nodes without links, and the links
/// of the network, counted at both ends, must fit in a `u32` for the draws.
pub fn can_grow_network(min: u32, total_number: u32) -> (ok: bool)
    ensures
        ok == network_can_grow(min as nat, total_number as nat),
{
    if total_number <= min {
        return true;
    }
    if min < 2 {
        return false;
    }
    let last = total_number - 1;
    let mut links: u64 = 0;
    let mut i: u32 = 0;
    while i < last
        invariant
            i <= last,
            last == total_number - 1,
            total_number > min,
            min >= 2,
            links == links_after(i as nat, min as nat),
            2 * links <= u32::MAX,
        decreases last - i,
    {
        let made: u64 = if i < min {
            i as u64
        } else {
            min as u64
        };
        links = links + made;
        assert(links == links_after((i + 1) as nat, min as nat));
        if 2 * links > u32::MAX as u64 {
            proof {
                lemma_links_after_monotone((i + 1) as nat, last as nat, min as nat);
                assert(!network_can_grow(min as nat, total_number as nat));
            }
            return false;
        }
        i = i + 1;
    }
    true
}

/// The number of links in `row` to nodes below `a`: the number of links a node with
/// friends `row` had when node `a` joined.
pub open spec fn links_before(row: Seq<u32>, a: nat) -> nat
    decreases row.len(),
{
    if row.len() == 0 {
        0
    } else {
        links_before(row.drop_last(), a) + if row.last() < a {
            1nat
        } else {
            0nat
        }
    }
}

/// The weights with which node `a` drew the nodes it linked to: the number of links each
/// earlier node had when `a` joined.
pub open spec fn link_counts_when_joining(rows: Seq<Seq<u32>>, a: int) -> Seq<nat> {
    Seq::new(a as nat, |j: int| links_before(rows[j], a as nat))
}

/// Each node that joined once there were `min` nodes drew its links with the link counts
/// when it joined as weights, so every node it drew had a positive weight then.
pub open spec fn drawn_by_link_count(rows: Seq<Seq<u32>>, min: nat) -> bool {
    forall|a: int, k: int|
        min <= a < rows.len() && 0 <= k < min ==> link_counts_when_joining(rows, a)[#[trigger] rows[a][k] as int]
            > 0
}

proof fn lemma_links_before_copies(s: Seq<u32>, x: u32, n: nat, a: nat)
    requires
        x >= a,
    ensures
        links_before(s + copies(x, n), a) == links_before(s, a),
    decreases n,
{
    if n > 0 {
        let m = (n - 1) as nat;
        assert(s + copies(x, n) =~= (s + copies(x, m)).push(x));
        assert((s + copies(x, m)).push(x).drop_last() =~= s + copies(x, m));
        lemma_links_before_copies(s, x, m, a);
    } else {
        assert(s + copies(x, n) =~= s);
    }
}

proof fn lemma_links_before_all(s: Seq<u32>, a: nat)
    requires
        forall|k: int| 0 <= k < s.len() ==> s[k] < a,
    ensures
        links_before(s, a) == s.len(),
    decreases s.len(),
{
    if s.len() > 0 {
        lemma_links_before_all(s.drop_last(), a);
    }
}

proof fn lemma_draws_kept(
    old_rows: Seq<Seq<u32>>,
    new_rows: Seq<Seq<u32>>,
    friends: Seq<u32>,
    min: nat,
)
    requires
        is_grown_network(old_rows, min),
        drawn_by_link_count(old_rows, min),
        old_rows.len() >= min,
        old_rows.len() < u32::MAX,
        friends.len() == min,
        forall|k: int|
            0 <= k < friends.len() ==> #[trigger] friends[k] < old_rows.len()
                && old_rows[friends[k] as int].len() > 0,
        new_rows.len() == old_rows.len() + 1,
        forall|a: int|
            0 <= a < old_rows.len() ==> #[trigger] new_rows[a] == old_rows[a] + copies(
                old_rows.len() as u32,
                occurrences(friends, a as u32),
            ),
        new_rows[old_rows.len() as int] == friends,
    ensures
        drawn_by_link_count(new_rows, min),
{
    let i = old_rows.len() as int;
    let iu = i as u32;
    assert forall|a: int, k: int|
        min <= a < new_rows.len() && 0 <= k < min implies link_counts_when_joining(new_rows, a)[
        #[trigger] new_rows[a][k] as int] > 0 by {
        if a < i {
            assert(old_rows[a].len() >= links_made(a as nat, min));
            assert(new_rows[a][k] == old_rows[a][k]);
            let f = old_rows[a][k] as int;
            assert(old_rows[a][k] < a);
            assert(link_counts_when_joining(old_rows, a)[f] > 0);
            lemma_links_before_copies(old_rows[f], iu, occurrences(friends, f as u32), a as nat);
        } else {
            let f = friends[k] as int;
            lemma_links_before_copies(old_rows[f], iu, occurrences(friends, f as u32), a as nat);
            lemma_links_before_all(old_rows[f], a as nat);
        }
    }
}

/// Generates a scale-free network by preferential attachment
/// (<https://en.wikipedia.org/wiki/Barab%C3%A1si%E2%80%93Albert_model>).
/// * min: the minimum number of links
/// * total_number: the number of nodes in the network
/// * Returns: a map from each id in `0..total_number` to the ids of its friends
///
/// Nodes join one by one. While fewer than `min` nodes are in the network a joining
/// node links to all of them; afterwards it makes `min` links, each to a node drawn
/// with a chance proportional to how many links that node had when the joining node
/// arrived. Every link is recorded in the friend lists of both of its ends.
pub fn generate_social_network(min: u32, total_number: u32) -> (network: HashMap<u32, Vec<u32>>)
    requires
        network_can_grow(min as nat, total_number as nat),
    ensures
        forall|k: u32| #[trigger] network@.contains_key(k) <==> k < total_number,
        is_grown_network(network_rows(network@, total_number as nat), min as nat),
        total_degree(network_rows(network@, total_number as nat)) == 2 * links_after(
            total_number as nat,
            min as nat,
        ),
        drawn_by_link_count(network_rows(network@, total_number as nat), min as nat),
{
    let mut adj: Vec<Vec<u32>> = Vec::new();
    let mut i: u32 = 0;
    while i < total_number
        invariant
            i <= total_number,
            adj.len() == i,
            min >= 2 || total_number <= min,
            total_number <= min || 2 * links_after((total_number - 1) as nat, min as nat)
                <= u32::MAX,
            is_grown_network(rows_of(adj@), min as nat),
            drawn_by_link_count(rows_of(adj@), min as nat),
            total_degree(rows_of(adj@)) == 2 * links_after(i as nat, min as nat),
        decreases total_number - i,
    {
        let ghost old_rows = rows_of(adj@);
        if i < min {
            let friends = link_to_all(&mut adj, i);
            let ghost mid_rows = rows_of(adj@);
            adj.push(friends);
            proof {
                assert(rows_of(adj@) =~= mid_rows.push(friends@));
                lemma_total_degree_push(mid_rows, friends@);
                lemma_grow_by_all(old_rows, rows_of(adj@), min as nat);
            }
        } else {
            proof {
                lemma_links_after_monotone(i as nat, (total_number - 1) as nat, min as nat);
                lemma_links_after_monotone(2, i as nat, min as nat);
            }
            let weights = degree_weights(&adj);
            let friends = link_preferentially(&mut adj, i, min, &weights);
            let ghost mid_rows = rows_of(adj@);
            adj.push(friends);
            proof {
                assert(rows_of(adj@) =~= mid_rows.push(friends@));
                lemma_total_degree_push(mid_rows, friends@);
                lemma_grow_preferentially(old_rows, rows_of(adj@), friends@, min as nat);
                lemma_draws_kept(old_rows, rows_of(adj@), friends@, min as nat);
            }
        }
        i = i + 1;
    }
    let ghost rows = rows_of(adj@);
    let mut network: HashMap<u32, Vec<u32>> = HashMap::new();
    while adj.len() > 0
        invariant
            adj.len() <= total_number,
            rows.len() == total_number,
            forall|a: int| 0 <= a < adj.len() ==> #[trigger] adj@[a]@ == rows[a],
            forall|k: u32| #[trigger]
                network@.contains_key(k) <==> adj.len() <= k < total_number,
            forall|k: u32| #[trigger]
                network@.contains_key(k) ==> network@[k]@ == rows[k as int],
        decreases adj.len(),
    {
        let row = adj.pop().unwrap();
        network.insert(adj.len() as u32, row);
    }
    proof {
        assert forall|a: int| 0 <= a < total_number implies #[trigger] network_rows(
            network@,
            total_number as nat,
        )[a] == rows[a] by {
            assert(network@.contains_key(a as u32));
        }
        assert(network_rows(network@, total_number as nat) =~= rows);
    }
    network
}

/// How many entries of `s` are below `m`, counted value by value.
pub open spec fn occurrences_below(s: Seq<u32>, m: nat) -> nat
    decreases m,
{
    if m == 0 {
        0
    } else {
        occurrences_below(s, (m - 1) as nat) + occurrences(s, (m - 1) as u32)
    }
}

proof fn lemma_occurrences_below_push(s: Seq<u32>, y: u32, m: nat)
    requires
        m <= u32::MAX + 1,
    ensures
        occurrences_below(s.push(y), m) == occurrences_below(s, m) + if y < m {
            1nat
        } else {
            0nat
        },
    decreases m,
{
    if m > 0 {
        lemma_occurrences_below_push(s, y, (m - 1) as nat);
        lemma_occurrences_push(s, y, (m - 1) as u32);
    }
}

proof fn lemma_occurrences_below_len(s: Seq<u32>, m: nat)
    requires
        m <= u32::MAX + 1,
    ensures
        occurrences_below(s, m) <= s.len(),
    decreases s.len(),
{
    if s.len() == 0 {
        lemma_occurrences_below_empty(s, m);
    } else {
        assert(s =~= s.drop_last().push(s.last()));
        lemma_occurrences_below_len(s.drop_last(), m);
        lemma_occurrences_below_push(s.drop_last(), s.last(), m);
    }
}

proof fn lemma_occurrences_below_empty(s: Seq<u32>, m: nat)
    requires
        s.len() == 0,
    ensures
        occurrences_below(s, m) == 0,
    decreases m,
{
    if m > 0 {
        lemma_occurrences_below_empty(s, (m - 1) as nat);
    }
}

proof fn lemma_occurrences_below_lower(s: Seq<u32>, m: nat, a: nat)
    requires
        m <= u32::MAX + 1,
        forall|x: u32| x < m && x != a ==> #[trigger] occurrences(s, x) >= 1,
    ensures
        occurrences_below(s, m) + (if a < m {
            1nat
        } else {
            0nat
        }) >= m,
    decreases m,
{
    if m > 0 {
        lemma_occurrences_below_lower(s, (m - 1) as nat, a);
        if m - 1 != a {
            assert(occurrences(s, (m - 1) as u32) >= 1);
        }
    }
}

proof fn lemma_occurrences_prefix(s: Seq<u32>, k: int, x: u32)
    requires
        0 <= k <= s.len(),
    ensures
        occurrences(s.take(k), x) <= occurrences(s, x),
    decreases s.len(),
{
    if k < s.len() {
        assert(s.drop_last().take(k) =~= s.take(k));
        lemma_occurrences_prefix(s.drop_last(), k, x);
    } else {
        assert(s.take(k) =~= s);
    }
}

/// In a network grown with at least `min` links per joining node, a node that joined
/// once there were `min` nodes has at least `min` friends, and every node has at least
/// one friend fewer than the smaller of `min` and the number of nodes: the first nodes
/// are all linked to each other.
pub proof fn lemma_grown_network_min_links(rows: Seq<Seq<u32>>, min: nat, a: int)
    requires
        is_grown_network(rows, min),
        rows.len() <= u32::MAX,
        0 <= a < rows.len(),
    ensures
        a >= min ==> rows[a].len() >= min,
        rows[a].len() + 1 >= if min < rows.len() {
            min
        } else {
            rows.len()
        },
{
    let m: nat = if min < rows.len() {
        min
    } else {
        rows.len()
    };
    if a < min {
        assert forall|x: u32| x < m && x != a implies #[trigger] occurrences(rows[a], x) >= 1 by {
            if x < a {
                assert(occurrences(rows[a].take(a), (x as int) as u32) == 1);
                lemma_occurrences_prefix(rows[a], a, x);
            } else {
                let b = x as int;
                assert(occurrences(rows[b].take(b), a as u32) == 1);
                lemma_occurrences_prefix(rows[b], b, a as u32);
                assert(occurrences(rows[a], b as u32) == occurrences(rows[b], a as u32));
            }
        }
        lemma_occurrences_below_lower(rows[a], m, a as nat);
        lemma_occurrences_below_len(rows[a], m);
    }
}

/// Node `a` reaches the first node (node 0) by following, from each node, its first
/// link, which goes to an earlier node.
pub open spec fn reaches_first(rows: Seq<Seq<u32>>, a: int) -> bool
    decreases a,
{
    if a <= 0 {
        true
    } else if rows[a].len() > 0 && rows[a][0] < a {
        reaches_first(rows, rows[a][0] as int)
    } else {
        false
    }
}

/// A network grown with at least one link per joining node is connected: every node
/// reaches the first node through links to earlier nodes.
pub proof fn lemma_grown_network_connected(rows: Seq<Seq<u32>>, min: nat, a: int)
    requires
        is_grown_network(rows, min),
        min >= 1,
        0 <= a < rows.len(),
    ensures
        reaches_first(rows, a),
    decreases a,
{
    if a > 0 {
        assert(rows[a].len() >= links_made(a as nat, min));
        assert(rows[a][0] < a);
        lemma_grown_network_connected(rows, min, rows[a][0] as int);
    }
}

/// Every link of a grown network is recorded at both of its ends, as often at one end
/// as at the other.
pub proof fn lemma_grown_network_links_are_mutual(rows: Seq<Seq<u32>>, min: nat, a: int, b: int)
    requires
        is_grown_network(rows, min),
        0 <= a < rows.len(),
        0 <= b < rows.len(),
    ensures
        occurrences(rows[a], b as u32) == occurrences(rows[b], a as u32),
{
}

} // verus!
