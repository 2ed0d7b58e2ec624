//! What holds of the duplicate clusters: they partition their members, they
//! are the same groups whatever the order in which the candidates come, they
//! join records along chains of candidates, and merging them neither loses
//! nor adds a member.

use crate::components::{
    cliques, is_partition, lemma_connected_transitive, lemma_linked_connected, lemma_total_size,
    lists_clusters, partitions, settled, total_size, union_of,
};
use crate::dedup::DeduplicationIndex;
use crate::fold::{
    class_of, classes, fold_step, lemma_fold_step_members, lemma_rearranged_connected,
    lemma_same_relation_same_classes,
};
use crate::lsh::{lemma_candidate_self, MinHashLSH};
use crate::threshold::Threshold;
use vstd::prelude::*;

verus! {

impl DeduplicationIndex {
    /// The live clusters are disjoint, together they hold the members, and
    /// their sizes sum up to the number of members.
    pub proof fn lemma_wf_partition(&self)
        requires
            self.wf(),
        ensures
            is_partition(self@),
            union_of(self@) == self.members(),
            self.members().finite(),
            total_size(self@) == self.members().len(),
    {
        assert(is_partition(self@));
        assert(union_of(self@) =~= self.members()) by {
            assert forall|d: usize| self.members().contains(d) implies union_of(self@).contains(
                d,
            ) by {
                let c = self.lookup()[d];
                assert(self@.contains_key(c) && self@[c].contains(d));
            }
        }
        lemma_total_size(self@);
    }

    /// Where the members are the records of a corpus of `n` records, a
    /// listing of the clusters holds each of the ids below `n` at exactly
    /// one place, and nothing else.
    pub proof fn lemma_groups_cover_corpus(&self, listing: Seq<Seq<usize>>, n: usize)
        requires
            self.wf(),
            forall|d: usize| self.members().contains(d) <==> d < n,
            lists_clusters(listing, self@),
        ensures
            partitions(listing, Set::new(|d: usize| d < n)),
    {
        self.lemma_listing_partitions(listing);
        assert(self.members() =~= Set::new(|d: usize| d < n));
    }

    /// Every member is held by the cluster that the lookup names for it.
    pub proof fn lemma_self_membership(&self, d: usize)
        requires
            self.wf(),
            self.members().contains(d),
        ensures
            self.same_cluster(d, d),
            self@.contains_key(self.lookup()[d]),
            self@[self.lookup()[d]].contains(d),
    {
    }

    /// The member sets of the live clusters are the clusters of the lookup.
    pub proof fn lemma_groups_are_classes(&self)
        requires
            self.wf(),
        ensures
            self@.values() == classes(self.lookup()),
    {
        let l = self.lookup();
        assert forall|g: Set<usize>| self@.values().contains(g) implies classes(l).contains(g) by {
            let c = choose|c: usize| self@.contains_key(c) && self@[c] == g;
            let d = g.choose();
            assert(g.len() > 0);
            assert(g.contains(d));
            assert(l.contains_key(d) && l[d] == c);
            assert forall|e: usize| g.contains(e) <==> class_of(l, d).contains(e) by {
                if g.contains(e) {
                    assert(self@[c].contains(e));
                }
                if class_of(l, d).contains(e) {
                    assert(self@[l[e]].contains(e));
                }
            }
            assert(g =~= class_of(l, d));
        }
        assert forall|g: Set<usize>| classes(l).contains(g) implies self@.values().contains(g) by {
            let d = choose|d: usize| l.contains_key(d) && g == class_of(l, d);
            let c = l[d];
            assert(self@.contains_key(c));
            assert forall|e: usize| g.contains(e) <==> self@[c].contains(e) by {
                if g.contains(e) {
                    assert(self@[l[e]].contains(e));
                }
                if self@[c].contains(e) {
                    assert(l.contains_key(e) && l[e] == c);
                }
            }
            assert(self@[c] =~= g);
        }
        assert(self@.values() =~= classes(l));
    }

    /// Folding in candidates that are all members already, which can only
    /// merge clusters, leaves the summed sizes of the clusters as they were.
    pub proof fn lemma_merge_conserves(&self, prior: Self, doc_id: usize, cands: Seq<usize>)
        requires
            prior.wf(),
            self.wf(),
            self.lookup() == fold_step(prior.lookup(), doc_id, cands),
            forall|d: usize| cands.contains(d) ==> prior.members().contains(d),
        ensures
            self.members() == prior.members(),
            total_size(self@) == total_size(prior@),
    {
        lemma_fold_step_members(prior.lookup(), doc_id, cands);
        self.lemma_wf_partition();
        prior.lemma_wf_partition();
    }

    /// Folding in candidates adds to the summed sizes of the clusters the
    /// number of candidates that were no members yet.
    pub proof fn lemma_fold_counts(&self, prior: Self, doc_id: usize, cands: Seq<usize>)
        requires
            prior.wf(),
            self.wf(),
            self.lookup() == fold_step(prior.lookup(), doc_id, cands),
        ensures
            self.members() == prior.members().union(cands.to_set()),
            total_size(self@) == total_size(prior@) + cands.to_set().difference(
                prior.members(),
            ).len(),
    {
        let fresh = cands.to_set().difference(prior.members());
        lemma_fold_step_members(prior.lookup(), doc_id, cands);
        assert(self.members() =~= prior.members().union(fresh));
        self.lemma_wf_partition();
        prior.lemma_wf_partition();
        vstd::seq_lib::seq_to_set_is_finite(cands);
        assert(fresh.finite()) by {
            vstd::set_lib::lemma_len_subset(fresh, cands.to_set());
        }
        assert(prior.members().disjoint(fresh));
        vstd::set_lib::lemma_set_disjoint_lens(prior.members(), fresh);
    }

    /// Clusters that are the connected components of the same graph consist
    /// of the same groups, whatever ids the clusters carry.
    pub proof fn lemma_same_components_same_groups(&self, other: Self, cs: Seq<Set<usize>>)
        requires
            self.wf(),
            other.wf(),
            self.clusters(cs),
            other.clusters(cs),
        ensures
            self@.values() == other@.values(),
    {
        self.lemma_groups_are_classes();
        other.lemma_groups_are_classes();
        lemma_same_relation_same_classes(self.lookup(), other.lookup());
    }
}

/// One merge: a cluster is taken out, and its members are put into another
/// cluster. `mid` is what taking cluster `prev` out of `start` gives, and
/// `end` what putting the members of `prev` into cluster `cluster_id` of
/// `mid` gives. The sizes of the clusters sum up to the same before and
/// after, the members are the same, every member of `prev` sits in
/// `cluster_id`, and every other member sits where it sat.
pub proof fn lemma_remove_update_conserves(
    start: DeduplicationIndex,
    mid: DeduplicationIndex,
    end: DeduplicationIndex,
    prev: usize,
    cluster_id: usize,
)
    requires
        start.wf(),
        mid.wf(),
        end.wf(),
        start@.contains_key(prev),
        prev != cluster_id,
        // the cluster is taken out
        mid@ == start@.remove(prev),
        mid.lookup() == start.lookup().remove_keys(start@[prev]),
        // its members are put into the other cluster
        end@ == (if start@[prev].is_empty() {
            mid@
        } else {
            mid@.insert(cluster_id, mid.group(cluster_id).union(start@[prev]))
        }),
        forall|d: usize| #[trigger]
            end.lookup().contains_key(d) ==> mid.lookup().contains_key(d) || start@[prev].contains(
                d,
            ),
        forall|d: usize| #[trigger]
            start@[prev].contains(d) ==> end.lookup().contains_key(d) && end.lookup()[d]
                == cluster_id,
        forall|d: usize| #[trigger]
            mid.lookup().contains_key(d) ==> end.lookup().contains_key(d) && end.lookup()[d]
                == mid.lookup()[d],
    ensures
        total_size(end@) == total_size(start@),
        end.members() == start.members(),
        !end@.contains_key(prev),
        forall|d: usize|
            start@[prev].contains(d) ==> end.lookup()[d] == cluster_id && end@[cluster_id].contains(
                d,
            ),
        forall|d: usize|
            start.lookup().contains_key(d) && start.lookup()[d] != prev ==> end.lookup()[d]
                == start.lookup()[d],
        forall|c: usize|
            c != prev && c != cluster_id ==> (end@.contains_key(c) <==> start@.contains_key(c)),
        forall|c: usize|
            c != prev && c != cluster_id && start@.contains_key(c) ==> end@[c] == start@[c],
{
    assert(start@[prev].len() > 0);
    assert(!start@[prev].is_empty()) by {
        let d = start@[prev].choose();
        assert(start@[prev].contains(d));
    }
    assert forall|d: usize| start.lookup().contains_key(d) implies end.lookup().contains_key(d) by {
        if start.lookup()[d] == prev {
            assert(start@[prev].contains(d));
        } else {
            assert(!start@[prev].contains(d));
            assert(mid.lookup().contains_key(d));
        }
    }
    assert forall|d: usize| end.lookup().contains_key(d) implies start.lookup().contains_key(d) by {
        if !mid.lookup().contains_key(d) {
            assert(start@[prev].contains(d));
        }
    }
    assert(end.members() =~= start.members());
    assert forall|d: usize|
        start.lookup().contains_key(d) && start.lookup()[d] != prev implies end.lookup()[d]
        == start.lookup()[d] by {
        assert(!start@[prev].contains(d));
        assert(mid.lookup().contains_key(d));
    }
    start.lemma_wf_partition();
    end.lemma_wf_partition();
}

/// The duplicate groups do not depend on the order of the pairs: where every
/// record is one of its own candidates, or a candidate of no pair,
/// clusterings of two arrangements of the same pairs relate the same ids and
/// consist of the same groups.
pub proof fn lemma_groups_order_independent(
    x: DeduplicationIndex,
    y: DeduplicationIndex,
    p: Seq<(usize, Seq<usize>)>,
    q: Seq<(usize, Seq<usize>)>,
)
    requires
        x.wf(),
        y.wf(),
        x.clusters(cliques(p)),
        y.clusters(cliques(q)),
        settled(p),
        p.to_multiset() == q.to_multiset(),
    ensures
        forall|a: usize, b: usize| x.same_cluster(a, b) <==> y.same_cluster(a, b),
        x@.values() == y@.values(),
{
    lemma_rearranged_connected(p, q);
    assert(y.clusters(cliques(p)));
    x.lemma_same_components_same_groups(y, cliques(p));
}

/// Candidates chain: where `b` is a candidate of `a` and `c` one of `b`, the
/// three share a cluster of every clustering of the index, though `a` and
/// `c` may share no band.
pub proof fn lemma_transitive_merge(
    r: DeduplicationIndex,
    lsh: MinHashLSH,
    threshold: Option<Threshold>,
    a: usize,
    b: usize,
    c: usize,
)
    requires
        r.wf(),
        lsh.wf(),
        threshold matches Some(t) ==> t.wf(),
        r.clusters(lsh.candidate_cliques(threshold)),
        a < lsh.signatures().len(),
        b < lsh.signatures().len(),
        lsh.is_candidate(lsh.signatures()[a as int], threshold, b),
        lsh.is_candidate(lsh.signatures()[b as int], threshold, c),
    ensures
        r.same_cluster(a, b),
        r.same_cluster(b, c),
        r.same_cluster(a, c),
{
    let cs = lsh.candidate_cliques(threshold);
    lemma_candidate_self(lsh, threshold, a);
    lemma_candidate_self(lsh, threshold, b);
    assert(cs[a as int].contains(a) && cs[a as int].contains(b));
    assert(cs[b as int].contains(b) && cs[b as int].contains(c));
    lemma_linked_connected(cs, a, b);
    lemma_linked_connected(cs, b, c);
    lemma_connected_transitive(cs, a, b, c);
}

} // verus!
