//! The clustering pass as a function on lookups.
//!
//! A lookup maps each record id that belongs to a cluster to the id of that
//! cluster. Folding the candidates of one record into a lookup moves every
//! candidate, and with it every record that shares a cluster with one, into
//! the record's home cluster. Folding a run of pairs, one after the other
//! from the empty lookup, gives the clusters of the run: the connected
//! components of the graph that the pairs span.

use crate::components::{clique, cliques, cliques_within, connected, is_chain, linked, listed};
use crate::components::{
    lemma_chain_closed, lemma_connected_monotone, lemma_connected_symmetric,
    lemma_connected_transitive, lemma_linked_connected, lemma_rearranged_contains,
    lemma_settled_clique, lemma_settled_rearranged, settled,
};
use vstd::prelude::*;

verus! {

/// Both ids belong to a cluster, and to the same one.
pub open spec fn together(l: Map<usize, usize>, a: usize, b: usize) -> bool {
    &&& l.contains_key(a)
    &&& l.contains_key(b)
    &&& l[a] == l[b]
}

/// `r` is the id that the next new cluster gets: one more than the largest
/// id in use, or zero where none is.
pub open spec fn is_next_id(l: Map<usize, usize>, r: usize) -> bool {
    &&& forall|d: usize| l.contains_key(d) ==> (#[trigger] l[d]) < r
    &&& r == 0 || exists|d: usize| l.contains_key(d) && (#[trigger] l[d]) == r - 1
}

/// The id that the next new cluster gets.
pub open spec fn next_id(l: Map<usize, usize>) -> usize {
    choose|r: usize| is_next_id(l, r)
}

/// The cluster that takes the candidates of record `doc_id`: its own cluster
/// where it has one, else a new one.
pub open spec fn home(l: Map<usize, usize>, doc_id: usize) -> usize {
    if l.contains_key(doc_id) {
        l[doc_id]
    } else {
        next_id(l)
    }
}

/// `d` is one of the first `j` ids of `cands`, or shares a cluster with one
/// of them.
pub open spec fn pulled(l: Map<usize, usize>, cands: Seq<usize>, j: int, d: usize) -> bool {
    exists|t: int|
        0 <= t < j && t < cands.len() && (#[trigger] cands[t] == d || together(l, d, cands[t]))
}

/// The lookup after the candidates `cands` of record `doc_id` were folded
/// into `l`: the candidates are members too, every id that the candidates
/// pull along sits in the home cluster of `doc_id`, and every other member
/// sits where it sat.
pub open spec fn fold_step(l: Map<usize, usize>, doc_id: usize, cands: Seq<usize>) -> Map<
    usize,
    usize,
> {
    Map::new(
        |d: usize| l.contains_key(d) || cands.contains(d),
        |d: usize|
            if pulled(l, cands, cands.len() as int, d) {
                home(l, doc_id)
            } else {
                l[d]
            },
    )
}

/// The lookup after the first `k` pairs of record id and candidates were
/// folded in, in their order, starting with no cluster at all.
pub open spec fn folded(pairs: Seq<(usize, Seq<usize>)>, k: int) -> Map<usize, usize>
    decreases k,
{
    if k <= 0 {
        Map::empty()
    } else {
        fold_step(folded(pairs, k - 1), pairs[k - 1].0, pairs[k - 1].1)
    }
}

/// The ids that share the cluster of `d`.
pub open spec fn class_of(l: Map<usize, usize>, d: usize) -> Set<usize> {
    Set::new(|e: usize| together(l, d, e))
}

/// The clusters of a lookup, each as the set of its members.
pub open spec fn classes(l: Map<usize, usize>) -> Set<Set<usize>> {
    Set::new(|g: Set<usize>| exists|d: usize| l.contains_key(d) && g == class_of(l, d))
}

/// The clusters of `l` are the connected components of the graph of `cs`:
/// two ids share a cluster exactly when a chain of links joins them.
pub open spec fn components(l: Map<usize, usize>, cs: Seq<Set<usize>>) -> bool {
    forall|a: usize, b: usize| together(l, a, b) <==> connected(cs, a, b)
}

/// At most one id is the next one.
pub proof fn lemma_next_id_unique(l: Map<usize, usize>, r: usize, s: usize)
    requires
        is_next_id(l, r),
    ensures
        is_next_id(l, s) ==> r == s,
        is_next_id(l, next_id(l)),
        r == next_id(l),
{
}

/// Where the members are finitely many and every id in use is below the
/// largest number, a next id exists.
pub proof fn lemma_next_id_exists(l: Map<usize, usize>)
    requires
        l.dom().finite(),
        forall|d: usize| l.contains_key(d) ==> (#[trigger] l[d]) < usize::MAX,
    ensures
        is_next_id(l, next_id(l)),
    decreases l.dom().len(),
{
    if l.dom().is_empty() {
        assert(is_next_id(l, 0));
    } else {
        let x = l.dom().choose();
        let rest = l.remove(x);
        lemma_next_id_exists(rest);
        let r = next_id(rest);
        let s = if l[x] >= r {
            (l[x] + 1) as usize
        } else {
            r
        };
        assert forall|d: usize| l.contains_key(d) implies (#[trigger] l[d]) < s by {
            if d != x {
                assert(rest.contains_key(d) && rest[d] == l[d]);
            }
        }
        if l[x] < r {
            let d = choose|d: usize| rest.contains_key(d) && (#[trigger] rest[d]) == r - 1;
            assert(l.contains_key(d) && l[d] == r - 1);
        }
        assert(is_next_id(l, s));
    }
}

/// What one more candidate pulls: itself, and the ids that share a cluster
/// with it.
pub proof fn lemma_pulled_next(l: Map<usize, usize>, cands: Seq<usize>, j: int, d: usize)
    requires
        0 <= j < cands.len(),
    ensures
        pulled(l, cands, j + 1, d) <==> pulled(l, cands, j, d) || d == cands[j] || together(
            l,
            d,
            cands[j],
        ),
{
    if pulled(l, cands, j + 1, d) {
        let t = choose|t: int|
            0 <= t < j + 1 && t < cands.len() && (#[trigger] cands[t] == d || together(
                l,
                d,
                cands[t],
            ));
        if t < j {
            assert(pulled(l, cands, j, d));
        }
    }
    if pulled(l, cands, j, d) {
        let t = choose|t: int|
            0 <= t < j && t < cands.len() && (#[trigger] cands[t] == d || together(l, d, cands[t]));
        assert(0 <= t < j + 1);
    }
    if d == cands[j] || together(l, d, cands[j]) {
        assert(cands[j] == d || together(l, d, cands[j]));
    }
}

/// Folding in candidates makes members of them, and of nothing else.
pub proof fn lemma_fold_step_members(l: Map<usize, usize>, doc_id: usize, cands: Seq<usize>)
    ensures
        fold_step(l, doc_id, cands).dom() == l.dom().union(cands.to_set()),
        (forall|d: usize| cands.contains(d) ==> l.contains_key(d)) ==> fold_step(
            l,
            doc_id,
            cands,
        ).dom() == l.dom(),
{
    assert(fold_step(l, doc_id, cands).dom() =~= l.dom().union(cands.to_set()));
    if forall|d: usize| cands.contains(d) ==> l.contains_key(d) {
        assert(fold_step(l, doc_id, cands).dom() =~= l.dom());
    }
}

/// Folding in candidates parts no two ids that shared a cluster.
pub proof fn lemma_fold_step_keeps(
    l: Map<usize, usize>,
    doc_id: usize,
    cands: Seq<usize>,
    a: usize,
    b: usize,
)
    requires
        together(l, a, b),
    ensures
        together(fold_step(l, doc_id, cands), a, b),
{
    let n = cands.len() as int;
    if pulled(l, cands, n, a) {
        let t = choose|t: int|
            0 <= t < n && t < cands.len() && (#[trigger] cands[t] == a || together(l, a, cands[t]));
        assert(cands[t] == b || together(l, b, cands[t]));
    }
    if pulled(l, cands, n, b) {
        let t = choose|t: int|
            0 <= t < n && t < cands.len() && (#[trigger] cands[t] == b || together(l, b, cands[t]));
        assert(cands[t] == a || together(l, a, cands[t]));
    }
}

/// Folding pair `i` into the connected components of the pairs before it
/// gives the connected components of the pairs up to it.
pub proof fn lemma_fold_step_components(l: Map<usize, usize>, pairs: Seq<(usize, Seq<usize>)>, i: int)
    requires
        0 <= i < pairs.len(),
        l.dom().finite(),
        forall|d: usize| l.contains_key(d) ==> (#[trigger] l[d]) < usize::MAX,
        forall|d: usize| l.contains_key(d) <==> listed(pairs, i, d),
        components(l, cliques(pairs).take(i)),
    ensures
        forall|d: usize|
            fold_step(l, pairs[i].0, pairs[i].1).contains_key(d) <==> listed(pairs, i + 1, d),
        components(fold_step(l, pairs[i].0, pairs[i].1), cliques(pairs).take(i + 1)),
{
    let cs = cliques(pairs);
    let xs = cs.take(i);
    let ys = cs.take(i + 1);
    let rec = pairs[i].0;
    let cands = pairs[i].1;
    let n = cands.len() as int;
    let h = home(l, rec);
    let k = clique(pairs, i);
    let next = fold_step(l, rec, cands);
    assert(ys[i] == k);
    assert(cliques_within(xs, ys)) by {
        assert forall|j: int| 0 <= j < xs.len() implies ys.contains(#[trigger] xs[j]) by {
            assert(ys[j] == xs[j]);
        }
    }
    assert forall|d: usize| next.contains_key(d) <==> listed(pairs, i + 1, d) by {
        if listed(pairs, i + 1, d) {
            let j = choose|j: int|
                0 <= j < i + 1 && j < pairs.len() && (#[trigger] pairs[j]).1.contains(d);
            if j < i {
                assert(listed(pairs, i, d));
            }
        }
        if next.contains_key(d) {
            if cands.contains(d) {
                assert(pairs[i].1.contains(d));
            } else {
                assert(listed(pairs, i, d));
                let j = choose|j: int|
                    0 <= j < i && j < pairs.len() && (#[trigger] pairs[j]).1.contains(d);
                assert(0 <= j < i + 1);
            }
        }
    }
    assert forall|d: usize| cands.contains(d) implies pulled(l, cands, n, d) by {
        let t = choose|t: int| 0 <= t < cands.len() && cands[t] == d;
        assert(cands[t] == d);
    }
    lemma_next_id_exists(l);
    // every id of the new clique sits in the home cluster
    assert forall|d: usize| k.contains(d) implies next.contains_key(d) && next[d] == h by {
        if cands.contains(d) {
        } else {
            assert(d == rec && listed(pairs, i, rec));
        }
    }
    let rel = |a: usize, b: usize| together(next, a, b);
    assert forall|a: usize, b: usize| linked(ys, a, b) implies #[trigger] rel(a, b) by {
        let j = choose|j: int|
            0 <= j < ys.len() && (#[trigger] ys[j]).contains(a) && ys[j].contains(b);
        if j < i {
            assert(xs[j] == ys[j]);
            assert(linked(xs, a, b));
            lemma_linked_connected(xs, a, b);
            lemma_fold_step_keeps(l, rec, cands, a, b);
        }
    }
    assert forall|a: usize, b: usize| together(next, a, b) <==> connected(ys, a, b) by {
        if connected(ys, a, b) {
            let path = choose|path: Seq<usize>| #[trigger]
                is_chain(ys, path) && path.first() == a && path.last() == b;
            lemma_chain_closed(ys, rel, path);
        }
        if together(next, a, b) {
            lemma_together_connected(l, pairs, i, a, b);
        }
    }
}

/// Two ids that share a cluster after pair `i` was folded in are joined by a
/// chain through the cliques up to it.
proof fn lemma_together_connected(
    l: Map<usize, usize>,
    pairs: Seq<(usize, Seq<usize>)>,
    i: int,
    a: usize,
    b: usize,
)
    requires
        0 <= i < pairs.len(),
        is_next_id(l, next_id(l)),
        forall|d: usize| l.contains_key(d) <==> listed(pairs, i, d),
        components(l, cliques(pairs).take(i)),
        cliques_within(cliques(pairs).take(i), cliques(pairs).take(i + 1)),
        together(fold_step(l, pairs[i].0, pairs[i].1), a, b),
    ensures
        connected(cliques(pairs).take(i + 1), a, b),
{
    let xs = cliques(pairs).take(i);
    let ys = cliques(pairs).take(i + 1);
    let rec = pairs[i].0;
    let cands = pairs[i].1;
    let n = cands.len() as int;
    let h = home(l, rec);
    let pa = pulled(l, cands, n, a);
    let pb = pulled(l, cands, n, b);
    assert(ys[i] == clique(pairs, i));
    assert forall|d: usize| cands.contains(d) implies pulled(l, cands, n, d) by {
        let t = choose|t: int| 0 <= t < cands.len() && cands[t] == d;
        assert(cands[t] == d);
    }
    if !pa && !pb {
        assert(together(l, a, b));
        lemma_connected_monotone(xs, ys, a, b);
    } else if pa && pb {
        let ya = lemma_pulled_anchor(l, pairs, i, a);
        let yb = lemma_pulled_anchor(l, pairs, i, b);
        assert(ys[i].contains(ya) && ys[i].contains(yb));
        lemma_linked_connected(ys, ya, yb);
        lemma_connected_symmetric(ys, b, yb);
        lemma_connected_transitive(ys, a, ya, yb);
        lemma_connected_transitive(ys, a, yb, b);
    } else {
        let (p, q) = if pa {
            (a, b)
        } else {
            (b, a)
        };
        // `p` was pulled, `q` sat in the home cluster already
        let yp = lemma_pulled_anchor(l, pairs, i, p);
        assert(l.contains_key(q));
        assert(l[q] == h);
        assert(l.contains_key(rec));
        assert(together(l, q, rec));
        lemma_connected_monotone(xs, ys, q, rec);
        assert(ys[i].contains(yp) && ys[i].contains(rec));
        lemma_linked_connected(ys, yp, rec);
        lemma_connected_symmetric(ys, q, rec);
        lemma_connected_transitive(ys, p, yp, rec);
        lemma_connected_transitive(ys, p, rec, q);
        if !pa {
            lemma_connected_symmetric(ys, p, q);
        }
    }
}

/// An id that the candidates of pair `i` pull along is joined to one of the
/// candidates by a chain through the cliques up to that pair.
proof fn lemma_pulled_anchor(
    l: Map<usize, usize>,
    pairs: Seq<(usize, Seq<usize>)>,
    i: int,
    d: usize,
) -> (y: usize)
    requires
        0 <= i < pairs.len(),
        components(l, cliques(pairs).take(i)),
        cliques_within(cliques(pairs).take(i), cliques(pairs).take(i + 1)),
        pulled(l, pairs[i].1, pairs[i].1.len() as int, d),
    ensures
        pairs[i].1.contains(y),
        clique(pairs, i).contains(y),
        connected(cliques(pairs).take(i + 1), d, y),
{
    let xs = cliques(pairs).take(i);
    let ys = cliques(pairs).take(i + 1);
    let cands = pairs[i].1;
    let t = choose|t: int|
        0 <= t < cands.len() && t < cands.len() && (#[trigger] cands[t] == d || together(
            l,
            d,
            cands[t],
        ));
    let y = cands[t];
    assert(cands.contains(y));
    assert(ys[i] == clique(pairs, i));
    if y == d {
        assert(ys[i].contains(d));
        lemma_linked_connected(ys, d, d);
    } else {
        lemma_connected_monotone(xs, ys, d, y);
    }
    y
}

/// The first `k` pairs folded in: the members are the candidates of those
/// pairs, they are finitely many, every cluster id is below `k`, and the
/// clusters are the connected components of the cliques of those pairs.
pub proof fn lemma_folded_components(pairs: Seq<(usize, Seq<usize>)>, k: int)
    requires
        0 <= k <= pairs.len(),
        k <= usize::MAX,
    ensures
        folded(pairs, k).dom().finite(),
        forall|d: usize| folded(pairs, k).contains_key(d) ==> (#[trigger] folded(pairs, k)[d]) < k,
        forall|d: usize| folded(pairs, k).contains_key(d) <==> listed(pairs, k, d),
        components(folded(pairs, k), cliques(pairs).take(k)),
    decreases k,
{
    let now = folded(pairs, k);
    if k == 0 {
        let none = cliques(pairs).take(0);
        assert forall|a: usize, b: usize| !connected(none, a, b) by {
            if connected(none, a, b) {
                let path = choose|path: Seq<usize>| #[trigger]
                    is_chain(none, path) && path.first() == a && path.last() == b;
                assert(linked(none, path[0], path[1]));
            }
        }
        assert(now.dom() =~= Set::<usize>::empty());
    } else {
        let l = folded(pairs, k - 1);
        let rec = pairs[k - 1].0;
        let cands = pairs[k - 1].1;
        lemma_folded_components(pairs, k - 1);
        lemma_fold_step_components(l, pairs, k - 1);
        lemma_fold_step_members(l, rec, cands);
        vstd::seq_lib::seq_to_set_is_finite(cands);
        lemma_next_id_exists(l);
        assert forall|d: usize| now.contains_key(d) implies (#[trigger] now[d]) < k by {
            if !l.contains_key(rec) {
                let r = next_id(l);
                if r != 0 {
                    let e = choose|e: usize| l.contains_key(e) && (#[trigger] l[e]) == r - 1;
                    assert(l[e] < k - 1);
                }
            }
        }
    }
}

/// The clusters do not depend on the order of the pairs: where every record
/// is one of its own candidates, or a candidate of no pair, folding two
/// arrangements of the same pairs relates the same ids and gives the same
/// groups.
pub proof fn lemma_order_independent(p: Seq<(usize, Seq<usize>)>, q: Seq<(usize, Seq<usize>)>)
    requires
        settled(p),
        p.to_multiset() == q.to_multiset(),
        p.len() <= usize::MAX,
    ensures
        forall|a: usize, b: usize|
            together(folded(p, p.len() as int), a, b) <==> together(
                folded(q, q.len() as int),
                a,
                b,
            ),
        classes(folded(p, p.len() as int)) == classes(folded(q, q.len() as int)),
{
    let x = folded(p, p.len() as int);
    let y = folded(q, q.len() as int);
    p.to_multiset_ensures();
    q.to_multiset_ensures();
    lemma_rearranged_connected(p, q);
    lemma_folded_components(p, p.len() as int);
    lemma_folded_components(q, q.len() as int);
    assert(cliques(p).take(p.len() as int) == cliques(p));
    assert(cliques(q).take(q.len() as int) == cliques(q));
    lemma_same_relation_same_classes(x, y);
}

/// The cliques of two arrangements of the same settled pairs join the same
/// ids.
pub proof fn lemma_rearranged_connected(p: Seq<(usize, Seq<usize>)>, q: Seq<(usize, Seq<usize>)>)
    requires
        settled(p),
        p.to_multiset() == q.to_multiset(),
    ensures
        forall|a: usize, b: usize| connected(cliques(p), a, b) <==> connected(cliques(q), a, b),
{
    lemma_rearranged_contains(p, q);
    lemma_settled_rearranged(p, q);
    lemma_cliques_within(p, q);
    lemma_cliques_within(q, p);
    assert forall|a: usize, b: usize| connected(cliques(p), a, b) <==> connected(
        cliques(q),
        a,
        b,
    ) by {
        if connected(cliques(p), a, b) {
            lemma_connected_monotone(cliques(p), cliques(q), a, b);
        }
        if connected(cliques(q), a, b) {
            lemma_connected_monotone(cliques(q), cliques(p), a, b);
        }
    }
}

/// Lookups that relate the same ids have the same clusters, whatever ids
/// the clusters carry.
pub proof fn lemma_same_relation_same_classes(x: Map<usize, usize>, y: Map<usize, usize>)
    requires
        forall|a: usize, b: usize| together(x, a, b) <==> together(y, a, b),
    ensures
        classes(x) == classes(y),
{
    assert forall|d: usize| class_of(x, d) == class_of(y, d) by {
        assert(class_of(x, d) =~= class_of(y, d));
    }
    assert forall|g: Set<usize>| classes(x).contains(g) <==> classes(y).contains(g) by {
        if classes(x).contains(g) {
            let d = choose|d: usize| x.contains_key(d) && g == class_of(x, d);
            assert(together(x, d, d));
            assert(y.contains_key(d) && g == class_of(y, d));
        }
        if classes(y).contains(g) {
            let d = choose|d: usize| y.contains_key(d) && g == class_of(y, d);
            assert(together(y, d, d));
            assert(x.contains_key(d) && g == class_of(x, d));
        }
    }
    assert(classes(x) =~= classes(y));
}

/// Where the pairs are settled and every pair of `p` is a pair of `q`, every
/// clique of `p` is a clique of `q`.
pub proof fn lemma_cliques_within(p: Seq<(usize, Seq<usize>)>, q: Seq<(usize, Seq<usize>)>)
    requires
        settled(p),
        settled(q),
        forall|i: int| 0 <= i < p.len() ==> q.contains(#[trigger] p[i]),
    ensures
        cliques_within(cliques(p), cliques(q)),
{
    assert forall|i: int| 0 <= i < cliques(p).len() implies cliques(q).contains(
        #[trigger] cliques(p)[i],
    ) by {
        assert(q.contains(p[i]));
        let j = choose|j: int| 0 <= j < q.len() && q[j] == p[i];
        lemma_settled_clique(p, i);
        lemma_settled_clique(q, j);
        assert(cliques(q)[j] == cliques(p)[i]);
    }
}

} // verus!
