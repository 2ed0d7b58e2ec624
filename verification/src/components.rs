//! The candidate relation as a graph, and its connected components.
//!
//! A sequence of cliques (sets of record ids that belong together) induces a
//! graph on the record ids: two ids are linked when one clique holds both.
//! The duplicate groups that the clustering pass produces are the connected
//! components of that graph.

use vstd::prelude::*;

verus! {

/// Some clique holds both `a` and `b`.
pub open spec fn linked(cliques: Seq<Set<usize>>, a: usize, b: usize) -> bool {
    exists|i: int|
        0 <= i < cliques.len() && (#[trigger] cliques[i]).contains(a) && cliques[i].contains(b)
}

/// Every id of `path` is linked to the next one. A chain has at least two
/// ids, so that a chain from an id to itself exists exactly when some clique
/// holds that id.
pub open spec fn is_chain(cliques: Seq<Set<usize>>, path: Seq<usize>) -> bool {
    &&& path.len() >= 2
    &&& forall|k: int| 0 <= k < path.len() - 1 ==> linked(cliques, #[trigger] path[k], path[k + 1])
}

/// A chain of links leads from `a` to `b`.
pub open spec fn connected(cliques: Seq<Set<usize>>, a: usize, b: usize) -> bool {
    exists|path: Seq<usize>| #[trigger]
        is_chain(cliques, path) && path.first() == a && path.last() == b
}

/// Every clique of `xs` is a clique of `ys`.
pub open spec fn cliques_within(xs: Seq<Set<usize>>, ys: Seq<Set<usize>>) -> bool {
    forall|i: int| 0 <= i < xs.len() ==> ys.contains(#[trigger] xs[i])
}

/// The pairs of record id and candidate list, with each list as a sequence.
pub open spec fn pairs_view(v: Seq<(usize, Vec<usize>)>) -> Seq<(usize, Seq<usize>)> {
    Seq::new(v.len(), |i: int| (v[i].0, v[i].1@))
}

/// `groups` lists the clusters of `m`, each once and under its own index,
/// and in each the members of that cluster, each once.
pub open spec fn lists_clusters(groups: Seq<Seq<usize>>, m: Map<usize, Set<usize>>) -> bool {
    exists|ids: Seq<usize>|
        {
            &&& ids.len() == groups.len()
            &&& ids.no_duplicates()
            &&& ids.to_set() == m.dom()
            &&& forall|i: int|
                0 <= i < groups.len() ==> (#[trigger] groups[i]).no_duplicates()
                    && groups[i].to_set() == m[ids[i]]
        }
}

/// `groups` is a partition of `ids`: every entry of a group is one of
/// `ids`, and every one of `ids` stands at exactly one place.
pub open spec fn partitions(groups: Seq<Seq<usize>>, ids: Set<usize>) -> bool {
    &&& forall|i: int, j: int|
        0 <= i < groups.len() && 0 <= j < groups[i].len() ==> ids.contains(#[trigger] groups[i][j])
    &&& forall|d: usize|
        ids.contains(d) ==> exists|i: int, j: int|
            0 <= i < groups.len() && 0 <= j < groups[i].len() && #[trigger] groups[i][j] == d
    &&& forall|i: int, j: int, k: int, l: int|
        0 <= i < groups.len() && 0 <= j < groups[i].len() && 0 <= k < groups.len() && 0 <= l
            < groups[k].len() && #[trigger] groups[i][j] == #[trigger] groups[k][l] ==> i == k && j
            == l
}

/// One of the first `n` candidate lists of `pairs` holds `d`.
pub open spec fn listed(pairs: Seq<(usize, Seq<usize>)>, n: int, d: usize) -> bool {
    exists|j: int| 0 <= j < n && j < pairs.len() && (#[trigger] pairs[j]).1.contains(d)
}

/// The ids that pair `i` of `pairs`, a record id with its candidates, ties
/// together: the candidates, and the record itself where an earlier pair
/// lists it.
pub open spec fn clique(pairs: Seq<(usize, Seq<usize>)>, i: int) -> Set<usize> {
    if listed(pairs, i, pairs[i].0) {
        pairs[i].1.to_set().insert(pairs[i].0)
    } else {
        pairs[i].1.to_set()
    }
}

/// The cliques of all pairs, in their order.
pub open spec fn cliques(pairs: Seq<(usize, Seq<usize>)>) -> Seq<Set<usize>> {
    Seq::new(pairs.len(), |i: int| clique(pairs, i))
}

/// Every record of `pairs` is one of its own candidates.
pub open spec fn self_inclusive(pairs: Seq<(usize, Seq<usize>)>) -> bool {
    forall|i: int| 0 <= i < pairs.len() ==> (#[trigger] pairs[i]).1.contains(pairs[i].0)
}

/// Every record of `pairs` is one of its own candidates, or a candidate of
/// no pair at all. The cliques of such pairs are their candidate lists,
/// wherever in the order a pair stands.
pub open spec fn settled(pairs: Seq<(usize, Seq<usize>)>) -> bool {
    forall|i: int|
        0 <= i < pairs.len() ==> (#[trigger] pairs[i]).1.contains(pairs[i].0) || !listed(
            pairs,
            pairs.len() as int,
            pairs[i].0,
        )
}

/// Pairs whose records are all among their own candidates are settled.
pub proof fn lemma_self_inclusive_settled(pairs: Seq<(usize, Seq<usize>)>)
    requires
        self_inclusive(pairs),
    ensures
        settled(pairs),
{
}

/// The clique of a pair of settled pairs is its candidate list.
pub proof fn lemma_settled_clique(pairs: Seq<(usize, Seq<usize>)>, i: int)
    requires
        settled(pairs),
        0 <= i < pairs.len(),
    ensures
        clique(pairs, i) == pairs[i].1.to_set(),
{
    if listed(pairs, i, pairs[i].0) {
        let j = choose|j: int|
            0 <= j < i && j < pairs.len() && (#[trigger] pairs[j]).1.contains(pairs[i].0);
        assert(listed(pairs, pairs.len() as int, pairs[i].0));
        assert(pairs[i].1.contains(pairs[i].0));
    }
    assert(clique(pairs, i) =~= pairs[i].1.to_set());
}

/// A rearrangement of settled pairs is settled.
pub proof fn lemma_settled_rearranged(p: Seq<(usize, Seq<usize>)>, q: Seq<(usize, Seq<usize>)>)
    requires
        settled(p),
        forall|i: int| 0 <= i < p.len() ==> q.contains(#[trigger] p[i]),
        forall|j: int| 0 <= j < q.len() ==> p.contains(#[trigger] q[j]),
    ensures
        settled(q),
{
    assert forall|j: int| 0 <= j < q.len() implies (#[trigger] q[j]).1.contains(q[j].0) || !listed(
        q,
        q.len() as int,
        q[j].0,
    ) by {
        assert(p.contains(q[j]));
        let i = choose|i: int| 0 <= i < p.len() && p[i] == q[j];
        assert(p[i].1.contains(p[i].0) || !listed(p, p.len() as int, p[i].0));
        if listed(q, q.len() as int, q[j].0) {
            let k = choose|k: int|
                0 <= k < q.len() && k < q.len() && (#[trigger] q[k]).1.contains(q[j].0);
            assert(p.contains(q[k]));
            let m = choose|m: int| 0 <= m < p.len() && p[m] == q[k];
            assert(p[m].1.contains(p[i].0));
            assert(listed(p, p.len() as int, p[i].0));
        }
    }
}

/// Two arrangements of the same pairs hold the same pairs.
pub proof fn lemma_rearranged_contains<A>(p: Seq<A>, q: Seq<A>)
    requires
        p.to_multiset() == q.to_multiset(),
    ensures
        forall|i: int| 0 <= i < p.len() ==> q.contains(#[trigger] p[i]),
        forall|j: int| 0 <= j < q.len() ==> p.contains(#[trigger] q[j]),
{
    p.to_multiset_ensures();
    q.to_multiset_ensures();
    assert forall|i: int| 0 <= i < p.len() implies q.contains(#[trigger] p[i]) by {
        assert(p.contains(p[i]));
        assert(p.to_multiset().count(p[i]) > 0);
        assert(q.to_multiset().count(p[i]) > 0);
    }
    assert forall|j: int| 0 <= j < q.len() implies p.contains(#[trigger] q[j]) by {
        assert(q.contains(q[j]));
        assert(q.to_multiset().count(q[j]) > 0);
        assert(p.to_multiset().count(q[j]) > 0);
    }
}

/// The clusters of `m` are finite and share no member.
pub open spec fn is_partition(m: Map<usize, Set<usize>>) -> bool {
    &&& m.dom().finite()
    &&& forall|c: usize| m.contains_key(c) ==> (#[trigger] m[c]).finite()
    &&& forall|c: usize, e: usize, d: usize|
        m.contains_key(c) && m.contains_key(e) && #[trigger] m[c].contains(d) && #[trigger] m[e].contains(
            d,
        ) ==> c == e
}

/// The ids that some cluster of `m` holds.
pub open spec fn union_of(m: Map<usize, Set<usize>>) -> Set<usize> {
    Set::new(|d: usize| exists|c: usize| m.contains_key(c) && #[trigger] m[c].contains(d))
}

/// The sizes of the clusters of `m`, summed.
pub open spec fn total_size(m: Map<usize, Set<usize>>) -> nat
    decreases m.dom().len(),
    when m.dom().finite()
{
    if m.dom().is_empty() {
        0
    } else {
        let c = m.dom().choose();
        m[c].len() + total_size(m.remove(c))
    }
}

/// The summed sizes of disjoint clusters count the ids that they hold.
pub proof fn lemma_total_size(m: Map<usize, Set<usize>>)
    requires
        is_partition(m),
    ensures
        union_of(m).finite(),
        total_size(m) == union_of(m).len(),
    decreases m.dom().len(),
{
    if m.dom().is_empty() {
        assert(union_of(m) =~= Set::<usize>::empty());
    } else {
        let c = m.dom().choose();
        let rest = m.remove(c);
        assert(is_partition(rest)) by {
            assert forall|x: usize, e: usize, d: usize|
                rest.contains_key(x) && rest.contains_key(e) && #[trigger] rest[x].contains(d)
                    && #[trigger] rest[e].contains(d) implies x == e by {
                assert(m[x].contains(d) && m[e].contains(d));
            }
        }
        lemma_total_size(rest);
        assert(union_of(m) =~= m[c].union(union_of(rest))) by {
            assert forall|d: usize| union_of(m).contains(d) <==> m[c].contains(d) || union_of(
                rest,
            ).contains(d) by {
                if union_of(m).contains(d) {
                    let x = choose|x: usize| m.contains_key(x) && #[trigger] m[x].contains(d);
                    if x != c {
                        assert(rest.contains_key(x) && rest[x].contains(d));
                    }
                }
                if union_of(rest).contains(d) {
                    let x = choose|x: usize| rest.contains_key(x) && #[trigger] rest[x].contains(d);
                    assert(m.contains_key(x) && m[x].contains(d));
                }
            }
        }
        assert(m[c].disjoint(union_of(rest))) by {
            assert forall|d: usize| !(m[c].contains(d) && union_of(rest).contains(d)) by {
                if m[c].contains(d) && union_of(rest).contains(d) {
                    let x = choose|x: usize| rest.contains_key(x) && #[trigger] rest[x].contains(d);
                    assert(m[x].contains(d));
                }
            }
        }
        vstd::set_lib::lemma_set_disjoint_lens(m[c], union_of(rest));
    }
}

/// A link is a chain of two ids.
pub proof fn lemma_linked_connected(cliques: Seq<Set<usize>>, a: usize, b: usize)
    requires
        linked(cliques, a, b),
    ensures
        connected(cliques, a, b),
{
    let path = seq![a, b];
    assert(is_chain(cliques, path));
    assert(path.first() == a && path.last() == b);
}

/// Chains can be walked backwards.
pub proof fn lemma_connected_symmetric(cliques: Seq<Set<usize>>, a: usize, b: usize)
    requires
        connected(cliques, a, b),
    ensures
        connected(cliques, b, a),
{
    let path = choose|path: Seq<usize>| #[trigger]
        is_chain(cliques, path) && path.first() == a && path.last() == b;
    let back = path.reverse();
    assert forall|k: int| 0 <= k < back.len() - 1 implies linked(
        cliques,
        #[trigger] back[k],
        back[k + 1],
    ) by {
        let j = path.len() - 2 - k;
        assert(linked(cliques, path[j], path[j + 1]));
        assert(back[k] == path[j + 1]);
        assert(back[k + 1] == path[j]);
    }
    assert(is_chain(cliques, back));
    assert(back.first() == b && back.last() == a);
}

/// Chains that meet can be joined.
pub proof fn lemma_connected_transitive(cliques: Seq<Set<usize>>, a: usize, b: usize, c: usize)
    requires
        connected(cliques, a, b),
        connected(cliques, b, c),
    ensures
        connected(cliques, a, c),
{
    let p = choose|path: Seq<usize>| #[trigger]
        is_chain(cliques, path) && path.first() == a && path.last() == b;
    let q = choose|path: Seq<usize>| #[trigger]
        is_chain(cliques, path) && path.first() == b && path.last() == c;
    let path = p + q.drop_first();
    assert forall|k: int| 0 <= k < path.len() - 1 implies linked(
        cliques,
        #[trigger] path[k],
        path[k + 1],
    ) by {
        if k < p.len() - 1 {
            assert(linked(cliques, p[k], p[k + 1]));
        } else {
            let j = k - (p.len() - 1);
            assert(linked(cliques, q[j], q[j + 1]));
            assert(path[k + 1] == q[j + 1]);
            if j == 0 {
                assert(path[k] == p.last());
            } else {
                assert(path[k] == q[j]);
            }
        }
    }
    assert(is_chain(cliques, path));
    assert(path.first() == a && path.last() == c);
}

/// A chain stays a chain when cliques are added, in any order.
pub proof fn lemma_connected_monotone(
    xs: Seq<Set<usize>>,
    ys: Seq<Set<usize>>,
    a: usize,
    b: usize,
)
    requires
        cliques_within(xs, ys),
        connected(xs, a, b),
    ensures
        connected(ys, a, b),
{
    let path = choose|path: Seq<usize>| #[trigger]
        is_chain(xs, path) && path.first() == a && path.last() == b;
    assert forall|k: int| 0 <= k < path.len() - 1 implies linked(
        ys,
        #[trigger] path[k],
        path[k + 1],
    ) by {
        assert(linked(xs, path[k], path[k + 1]));
        lemma_linked_monotone(xs, ys, path[k], path[k + 1]);
    }
    assert(is_chain(ys, path));
}

/// A link stays a link when cliques are added, in any order.
pub proof fn lemma_linked_monotone(xs: Seq<Set<usize>>, ys: Seq<Set<usize>>, a: usize, b: usize)
    requires
        cliques_within(xs, ys),
        linked(xs, a, b),
    ensures
        linked(ys, a, b),
{
    let i = choose|i: int|
        0 <= i < xs.len() && (#[trigger] xs[i]).contains(a) && xs[i].contains(b);
    assert(ys.contains(xs[i]));
    let j = choose|j: int| 0 <= j < ys.len() && ys[j] == xs[i];
    assert(ys[j].contains(a) && ys[j].contains(b));
}

/// A transitive relation that holds of every link holds of the two ends of
/// every chain.
pub proof fn lemma_chain_closed(
    cliques: Seq<Set<usize>>,
    rel: spec_fn(usize, usize) -> bool,
    path: Seq<usize>,
)
    requires
        is_chain(cliques, path),
        forall|a: usize, b: usize| linked(cliques, a, b) ==> #[trigger] rel(a, b),
        forall|a: usize, b: usize, c: usize| #[trigger] rel(a, b) && #[trigger] rel(b, c) ==> rel(a, c),
    ensures
        rel(path.first(), path.last()),
    decreases path.len(),
{
    if path.len() == 2 {
        assert(linked(cliques, path[0], path[1]));
    } else {
        let rest = path.drop_first();
        assert forall|k: int| 0 <= k < rest.len() - 1 implies linked(
            cliques,
            #[trigger] rest[k],
            rest[k + 1],
        ) by {
            assert(linked(cliques, path[k + 1], path[k + 2]));
        }
        lemma_chain_closed(cliques, rel, rest);
        assert(linked(cliques, path[0], path[1]));
        assert(rel(path[0], rest.first()));
        assert(rest.last() == path.last());
    }
}

} // verus!
