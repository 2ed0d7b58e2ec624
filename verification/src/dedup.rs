//! The online clustering pass: per-record candidate lists are folded into a
//! partition of the record ids into duplicate groups.

use crate::components::{cliques, listed, lists_clusters, pairs_view, partitions};
use crate::fold::{
    components, fold_step, folded, home, is_next_id, lemma_folded_components,
    lemma_next_id_unique, lemma_pulled_next, next_id, pulled, together,
};
use crate::lsh::{lemma_answer_unique, lemma_candidate_self, MinHashLSH};
use crate::threshold::Threshold;
use std::collections::{HashMap, HashSet};
use vstd::prelude::*;
use vstd::std_specs::iter::IteratorSpec;

verus! {

/// Two mappings, each the reverse of the other, that hold the duplicate
/// clusters found so far.
#[derive(Debug)]
pub struct DeduplicationIndex {
    /// Cluster id to the record ids of its members.
    duplicate_groups: HashMap<usize, HashSet<usize>>,
    /// Record id to the id of the cluster that holds it.
    doc_lookup: HashMap<usize, usize>,
}

impl View for DeduplicationIndex {
    type V = Map<usize, Set<usize>>;

    /// The live clusters: cluster id to member set.
    closed spec fn view(&self) -> Map<usize, Set<usize>> {
        Map::new(
            |c: usize| self.duplicate_groups@.contains_key(c),
            |c: usize| self.duplicate_groups@[c]@,
        )
    }
}

impl DeduplicationIndex {
    /// The reverse lookup: record id to cluster id.
    pub closed spec fn lookup(&self) -> Map<usize, usize> {
        self.doc_lookup@
    }

    /// The record ids that belong to a cluster.
    pub open spec fn members(&self) -> Set<usize> {
        self.lookup().dom()
    }

    /// Both ids belong to a cluster, and to the same one.
    pub open spec fn same_cluster(&self, a: usize, b: usize) -> bool {
        together(self.lookup(), a, b)
    }

    /// The members of cluster `c`; none where no such cluster is live.
    pub open spec fn group(&self, c: usize) -> Set<usize> {
        if self@.contains_key(c) {
            self@[c]
        } else {
            Set::empty()
        }
    }

    /// The clusters are the connected components of the graph of `cs`: two
    /// ids share a cluster exactly when a chain of links joins them.
    pub open spec fn clusters(&self, cs: Seq<Set<usize>>) -> bool {
        components(self.lookup(), cs)
    }

    /// Every live cluster is finite and not empty, and the reverse lookup
    /// maps a record id to a cluster exactly when that cluster holds it.
    pub open spec fn wf(&self) -> bool {
        &&& self@.dom().finite()
        &&& forall|c: usize| #[trigger] self@.contains_key(c) ==> self@[c].finite() && self@[c].len() > 0
        &&& forall|d: usize| #[trigger]
            self.lookup().contains_key(d) ==> self@.contains_key(self.lookup()[d])
                && self@[self.lookup()[d]].contains(d)
        &&& forall|c: usize, d: usize|
            self@.contains_key(c) && #[trigger] self@[c].contains(d) ==> self.lookup().contains_key(
                d,
            ) && self.lookup()[d] == c
    }

    /// Clusters the records of an index: queries the candidates of every
    /// record, narrowed by the threshold where one is given, and folds them
    /// into duplicate clusters. Every record of the index ends up in exactly
    /// one cluster, and two records share a cluster exactly when a chain of
    /// candidates joins them.
    pub fn new(lsh: MinHashLSH, threshold: Option<Threshold>) -> (r: Self)
        requires
            lsh.wf(),
            threshold matches Some(t) ==> t.wf(),
        ensures
            r.wf(),
            r.lookup() == folded(lsh.query_pairs(threshold), lsh.signatures().len() as int),
            forall|d: usize| r.members().contains(d) <==> d < lsh.signatures().len(),
            r.clusters(lsh.candidate_cliques(threshold)),
    {
        let query_results = lsh.query_all(threshold);
        proof {
            let pairs = pairs_view(query_results@);
            let n = pairs.len() as int;
            assert forall|i: int| 0 <= i < n implies #[trigger] pairs[i] == lsh.query_pairs(
                threshold,
            )[i] by {
                assert(query_results@[i].0 == i);
                lemma_answer_unique(lsh, lsh.signatures()[i], threshold, query_results@[i].1@);
            }
            assert(pairs =~= lsh.query_pairs(threshold));
            assert forall|i: int| 0 <= i < n implies (#[trigger] pairs[i]).1.contains(
                pairs[i].0,
            ) by {
                assert(query_results@[i].0 == i);
                lemma_candidate_self(lsh, threshold, i as usize);
            }
            assert forall|i: int| 0 <= i < n implies #[trigger] cliques(pairs)[i]
                == lsh.candidate_cliques(threshold)[i] by {
                assert(query_results@[i].0 == i);
                assert(pairs[i].1.contains(pairs[i].0));
                assert(cliques(pairs)[i] =~= lsh.candidates(lsh.signatures()[i], threshold));
            }
            assert(cliques(pairs) =~= lsh.candidate_cliques(threshold));
            assert forall|d: usize| listed(pairs, n, d) <==> d < lsh.signatures().len() by {
                if listed(pairs, n, d) {
                    let j = choose|j: int|
                        0 <= j < n && j < pairs.len() && (#[trigger] pairs[j]).1.contains(d);
                    assert(query_results@[j].0 == j);
                }
                if d < lsh.signatures().len() {
                    assert(query_results@[d as int].0 == d);
                    assert(pairs[d as int].1.contains(d));
                }
            }
        }
        Self::from_query_results(query_results)
    }

    /// The duplicate groups: one list for each live cluster, with the record
    /// ids of its members.
    pub fn grouped_indices(&self) -> (groups: Vec<Vec<usize>>)
        requires
            self.wf(),
        ensures
            lists_clusters(groups.deep_view(), self@),
            partitions(groups.deep_view(), self.members()),
    {
        let mut groups: Vec<Vec<usize>> = Vec::new();
        let ghost entries = self.duplicate_groups.iter().remaining();
        for entry in it: self.duplicate_groups.iter()
            invariant
                it.seq() == entries,
                entries.no_duplicates(),
                groups@.len() == it.index(),
                forall|i: int|
                    0 <= i < entries.len() ==> self.duplicate_groups@.contains_key(
                        *(#[trigger] entries[i]).0,
                    ) && self.duplicate_groups@[*entries[i].0] == *entries[i].1,
                forall|i: int|
                    0 <= i < it.index() ==> (#[trigger] groups@[i])@.no_duplicates()
                        && groups@[i]@.to_set() == self@[*entries[i].0],
        {
            let group = members_of(entry.1);
            groups.push(group);
        }
        proof {
            let ids = Seq::new(entries.len(), |i: int| *entries[i].0);
            let listing = groups.deep_view();
            assert(listing.len() == groups@.len());
            assert forall|i: int| 0 <= i < listing.len() implies #[trigger] listing[i]
                == groups@[i]@ by {}
            assert(ids.no_duplicates()) by {
                assert forall|i: int, j: int|
                    0 <= i < ids.len() && 0 <= j < ids.len() && i != j implies ids[i] != ids[j] by {
                    assert(entries[i] != entries[j]);
                    if ids[i] == ids[j] {
                        assert(*entries[i].1 == self.duplicate_groups@[ids[i]]);
                        assert(*entries[j].1 == self.duplicate_groups@[ids[j]]);
                    }
                }
            }
            assert(ids.to_set() =~= self@.dom()) by {
                assert forall|c: usize| self@.dom().contains(c) implies ids.to_set().contains(c) by {
                    assert(self.duplicate_groups@.contains_key(c));
                    assert(entries.contains((&c, &self.duplicate_groups@[c])));
                    let i = choose|i: int|
                        0 <= i < entries.len() && entries[i] == (&c, &self.duplicate_groups@[c]);
                    assert(ids[i] == c);
                }
                assert forall|c: usize| ids.to_set().contains(c) implies self@.dom().contains(c) by {
                    let i = choose|i: int| 0 <= i < ids.len() && ids[i] == c;
                    assert(self.duplicate_groups@.contains_key(*entries[i].0));
                }
            }
            assert(lists_clusters(listing, self@)) by {
                assert forall|i: int| 0 <= i < listing.len() implies (#[trigger] listing[i]).no_duplicates()
                    && listing[i].to_set() == self@[ids[i]] by {
                    assert(listing[i] == groups@[i]@);
                }
            }
            self.lemma_listing_partitions(listing);
        }
        groups
    }

    /// Whether the two records belong to clusters, and to the same one.
    pub fn same_group(&self, a: usize, b: usize) -> (r: bool)
        ensures
            r == self.same_cluster(a, b),
    {
        match (self.check_cluster_id(a), self.check_cluster_id(b)) {
            (Some(c), Some(e)) => c == e,
            _ => false,
        }
    }

    /// No clusters yet.
    fn init() -> (r: Self)
        ensures
            r.wf(),
            r@ == Map::<usize, Set<usize>>::empty(),
            r.lookup() == Map::<usize, usize>::empty(),
    {
        let r = DeduplicationIndex { duplicate_groups: HashMap::new(), doc_lookup: HashMap::new() };
        assert(r@ =~= Map::<usize, Set<usize>>::empty());
        assert(r.lookup() =~= Map::<usize, usize>::empty());
        r
    }

    /// Clusters the records from their candidate lists: folds in the pairs
    /// of record id and candidates one after the other, starting with no
    /// cluster at all. The clusters that result are the connected components
    /// of the graph that the pairs span, and their members are the
    /// candidates of the pairs.
    pub fn from_query_results(query_results: Vec<(usize, Vec<usize>)>) -> (r: Self)
        ensures
            r.wf(),
            r.lookup() == folded(pairs_view(query_results@), query_results@.len() as int),
            r.clusters(cliques(pairs_view(query_results@))),
            forall|d: usize|
                r.members().contains(d) <==> listed(
                    pairs_view(query_results@),
                    query_results@.len() as int,
                    d,
                ),
    {
        let mut document_clusters = Self::init();
        let ghost pairs = pairs_view(query_results@);
        let mut i: usize = 0;
        while i < query_results.len()
            invariant
                i <= query_results.len(),
                pairs == pairs_view(query_results@),
                document_clusters.wf(),
                document_clusters.lookup() == folded(pairs, i as int),
            decreases query_results.len() - i,
        {
            proof {
                lemma_folded_components(pairs, i as int);
            }
            document_clusters.absorb(query_results[i].0, &query_results[i].1);
            i += 1;
        }
        proof {
            lemma_folded_components(pairs, i as int);
            assert(cliques(pairs).take(i as int) == cliques(pairs));
        }
        document_clusters
    }

    /// Folds the candidates of one record into the clusters: every candidate,
    /// and every cluster that holds one, ends up in the record's home
    /// cluster; all other clusters stay as they are.
    fn absorb(&mut self, query_doc_id: usize, similar_documents: &Vec<usize>)
        requires
            old(self).wf(),
            forall|d: usize|
                old(self).lookup().contains_key(d) ==> (#[trigger] old(self).lookup()[d])
                    < usize::MAX,
        ensures
            final(self).wf(),
            final(self).lookup() == fold_step(
                old(self).lookup(),
                query_doc_id,
                similar_documents@,
            ),
    {
        let ghost start = *self;
        let ghost l = self.lookup();
        let ghost cands = similar_documents@;
        let ghost had = l.contains_key(query_doc_id);
        let cluster_id = match self.check_cluster_id(query_doc_id) {
            Some(c) => c,
            None => self.new_id(),
        };
        proof {
            if !had && self@.contains_key(cluster_id) {
                let d = self@[cluster_id].choose();
                assert(self@[cluster_id].contains(d));
                assert(l[d] == cluster_id);
            }
        }
        let mut current_cluster: HashSet<usize> = HashSet::new();
        let mut j: usize = 0;
        while j < similar_documents.len()
            invariant
                j <= similar_documents.len(),
                cands == similar_documents@,
                start.wf(),
                l == start.lookup(),
                cluster_id == home(l, query_doc_id),
                had == l.contains_key(query_doc_id),
                !had ==> !start@.contains_key(cluster_id),
                had ==> self@.contains_key(cluster_id),
                self.wf(),
                // the clusters that are left are as they were
                forall|c: usize| #[trigger]
                    self@.contains_key(c) ==> start@.contains_key(c) && self@[c] == start@[c],
                // the members of the clusters that were taken out are pending
                forall|d: usize|
                    l.contains_key(d) && !self.lookup().contains_key(d)
                        ==> current_cluster@.contains(d),
                forall|d: usize|
                    current_cluster@.contains(d) <==> !self.lookup().contains_key(d) && pulled(
                        l,
                        cands,
                        j as int,
                        d,
                    ),
                // what the candidates pulled and is still filed sits at home
                forall|d: usize|
                    self.lookup().contains_key(d) && pulled(l, cands, j as int, d)
                        ==> self.lookup()[d] == cluster_id,
            decreases similar_documents.len() - j,
        {
            let similar_doc_id = similar_documents[j];
            match self.check_cluster_id(similar_doc_id) {
                Some(prev_cluster_id) => {
                    if prev_cluster_id != cluster_id {
                        let reassignment = self.remove(prev_cluster_id);
                        extend(&mut current_cluster, reassignment);
                    }
                },
                None => {
                    if !current_cluster.contains(&similar_doc_id) {
                        current_cluster.insert(similar_doc_id);
                    }
                },
            }
            proof {
                assert(cands[j as int] == similar_doc_id);
                assert forall|d: usize|
                    pulled(l, cands, j + 1, d) <==> pulled(l, cands, j as int, d) || d
                        == similar_doc_id || together(l, d, similar_doc_id) by {
                    lemma_pulled_next(l, cands, j as int, d);
                }
            }
            j += 1;
        }
        let ghost mid = *self;
        self.update(cluster_id, &current_cluster);
        proof {
            let n = cands.len() as int;
            assert forall|d: usize| cands.contains(d) implies pulled(l, cands, n, d) by {
                let t = choose|t: int| 0 <= t < cands.len() && cands[t] == d;
                assert(cands[t] == d);
            }
            assert forall|d: usize| pulled(l, cands, n, d) implies cands.contains(d)
                || l.contains_key(d) by {
                let t = choose|t: int|
                    0 <= t < n && t < cands.len() && (#[trigger] cands[t] == d || together(
                        l,
                        d,
                        cands[t],
                    ));
                assert(cands[t] == d ==> cands.contains(d));
            }
            assert forall|d: usize| mid.lookup().contains_key(d) implies l.contains_key(d) && l[d]
                == mid.lookup()[d] by {
                let c = mid.lookup()[d];
                assert(mid@.contains_key(c));
                assert(start@[c].contains(d));
            }
            assert forall|d: usize| #[trigger] l.contains_key(d) implies self.lookup().contains_key(
                d,
            ) by {
                assert(mid.lookup().contains_key(d) || current_cluster@.contains(d));
            }
            assert forall|d: usize| #[trigger] cands.contains(d) implies self.lookup().contains_key(
                d,
            ) by {
                assert(pulled(l, cands, n, d));
                assert(mid.lookup().contains_key(d) || current_cluster@.contains(d));
            }
            assert forall|d: usize| #[trigger] self.lookup().contains_key(d) implies l.contains_key(
                d,
            ) || cands.contains(d) by {
                assert(mid.lookup().contains_key(d) || current_cluster@.contains(d));
                if current_cluster@.contains(d) {
                    assert(pulled(l, cands, n, d));
                }
            }
            assert forall|d: usize| #[trigger] self.lookup().contains_key(d) implies self.lookup()[d]
                == fold_step(l, query_doc_id, cands)[d] by {
                if !current_cluster@.contains(d) {
                    assert(mid.lookup().contains_key(d));
                }
            }
            assert(self.lookup() =~= fold_step(l, query_doc_id, cands));
        }
    }

    /// Puts every record of `doc_set` into cluster `cluster_id`. None of them
    /// belongs to another cluster. An empty set changes nothing, and makes no
    /// cluster live.
    fn update(&mut self, cluster_id: usize, doc_set: &HashSet<usize>)
        requires
            old(self).wf(),
            forall|d: usize|
                doc_set@.contains(d) ==> !old(self).lookup().contains_key(d)
                    || old(self).lookup()[d] == cluster_id,
        ensures
            final(self).wf(),
            final(self)@ == (if doc_set@.is_empty() {
                old(self)@
            } else {
                old(self)@.insert(cluster_id, old(self).group(cluster_id).union(doc_set@))
            }),
            forall|d: usize| #[trigger]
                final(self).lookup().contains_key(d) ==> old(self).lookup().contains_key(d)
                    || doc_set@.contains(d),
            forall|d: usize| #[trigger]
                doc_set@.contains(d) ==> final(self).lookup().contains_key(d) && final(self).lookup()[d] == cluster_id,
            forall|d: usize| #[trigger]
                old(self).lookup().contains_key(d) ==> final(self).lookup().contains_key(d)
                    && final(self).lookup()[d] == old(self).lookup()[d],
            (forall|d: usize| doc_set@.contains(d) ==> old(self).lookup().contains_key(d))
                ==> final(self)@ == old(self)@ && final(self).lookup() == old(self).lookup(),
    {
        let ghost keys = doc_set.iter().remaining();
        for k in it: doc_set.iter()
            invariant
                it.seq() == keys,
                keys.unref().to_set() == doc_set@,
                keys.no_duplicates(),
                forall|d: usize|
                    doc_set@.contains(d) ==> !old(self).lookup().contains_key(d)
                        || old(self).lookup()[d] == cluster_id,
                self.wf(),
                self@ == (if it.index() == 0 {
                    old(self)@
                } else {
                    old(self)@.insert(
                        cluster_id,
                        old(self).group(cluster_id).union(keys.unref().take(it.index()).to_set()),
                    )
                }),
                forall|d: usize|
                    self.lookup().contains_key(d) <==> old(self).lookup().contains_key(d)
                        || keys.unref().take(it.index()).to_set().contains(d),
                forall|d: usize|
                    keys.unref().take(it.index()).to_set().contains(d) ==> self.lookup()[d]
                        == cluster_id,
                forall|d: usize|
                    old(self).lookup().contains_key(d) ==> self.lookup()[d] == old(self).lookup()[d],
        {
            let ghost done = keys.unref().take(it.index()).to_set();
            let ghost before = *self;
            proof {
                assert(keys.unref()[it.index()] == *k);
                assert(keys.unref().to_set().contains(*k));
                assert(keys.unref().take(it.index() + 1) == keys.unref().take(it.index()).push(*k));
                keys.unref().take(it.index()).lemma_push_to_set_commute(*k);
                assert forall|i: int| 0 <= i < it.index() implies keys.unref().take(
                    it.index(),
                )[i] != *k by {
                    assert(keys[i] != keys[it.index()]);
                }
                assert(!done.contains(*k));
            }
            self.add(cluster_id, *k);
            proof {
                let next = keys.unref().take(it.index() + 1).to_set();
                assert(next =~= done.insert(*k));
                assert(before.group(cluster_id).insert(*k) =~= old(self).group(cluster_id).union(
                    next,
                ));
                assert(self@ =~= old(self)@.insert(
                    cluster_id,
                    old(self).group(cluster_id).union(next),
                ));
            }
        }
        proof {
            assert(keys.unref().take(keys.unref().len() as int) == keys.unref());
            assert(keys.len() == 0 ==> doc_set@ =~= Set::<usize>::empty());
            assert(keys.len() > 0 ==> doc_set@.contains(keys.unref()[0]));
            if forall|d: usize| doc_set@.contains(d) ==> old(self).lookup().contains_key(d) {
                assert(self.lookup() =~= old(self).lookup());
                if !doc_set@.is_empty() {
                    let d = doc_set@.choose();
                    assert(doc_set@.contains(d));
                    assert(old(self)@.contains_key(cluster_id));
                    assert forall|e: usize| doc_set@.contains(e) implies old(self)@[cluster_id].contains(e) by {
                        assert(old(self).lookup()[e] == cluster_id);
                    }
                    assert(old(self)@[cluster_id].union(doc_set@) =~= old(self)@[cluster_id]);
                    assert(self@ =~= old(self)@);
                }
            }
        }
    }

    /// Puts a record into cluster `cluster_id`, which becomes live if it was
    /// not. The record belongs to no cluster yet, or to this one; in this
    /// one it stays, and nothing changes.
    fn add(&mut self, cluster_id: usize, doc_id: usize)
        requires
            old(self).wf(),
            !old(self).members().contains(doc_id) || old(self).lookup()[doc_id] == cluster_id,
        ensures
            final(self).wf(),
            final(self)@ == old(self)@.insert(cluster_id, old(self).group(cluster_id).insert(doc_id)),
            final(self).lookup() == old(self).lookup().insert(doc_id, cluster_id),
            old(self).members().contains(doc_id) ==> final(self)@ == old(self)@
                && final(self).lookup() == old(self).lookup(),
    {
        let mut group = match self.duplicate_groups.remove(&cluster_id) {
            Some(g) => g,
            None => HashSet::new(),
        };
        group.insert(doc_id);
        self.duplicate_groups.insert(cluster_id, group);
        self.doc_lookup.insert(doc_id, cluster_id);
        proof {
            assert(self@ =~= old(self)@.insert(
                cluster_id,
                old(self).group(cluster_id).insert(doc_id),
            ));
            if old(self).members().contains(doc_id) {
                assert(old(self)@[cluster_id].contains(doc_id));
                assert(old(self)@[cluster_id].insert(doc_id) =~= old(self)@[cluster_id]);
                assert(self@ =~= old(self)@);
                assert(self.lookup() =~= old(self).lookup());
            }
        }
    }

    /// The cluster that holds record `doc_id`, if one does.
    fn check_cluster_id(&self, doc_id: usize) -> (r: Option<usize>)
        ensures
            r == (if self.lookup().contains_key(doc_id) { Some(self.lookup()[doc_id]) } else { None::<usize> }),
    {
        match self.doc_lookup.get(&doc_id) {
            Some(c) => Some(*c),
            None => None,
        }
    }

    /// The id for a new cluster: one more than the largest live id, or zero
    /// where no cluster is live.
    fn new_id(&self) -> (r: usize)
        requires
            self.wf(),
            forall|d: usize|
                self.lookup().contains_key(d) ==> (#[trigger] self.lookup()[d]) < usize::MAX,
        ensures
            is_next_id(self.lookup(), r),
            r == next_id(self.lookup()),
    {
        proof {
            assert forall|c: usize| self@.contains_key(c) implies c < usize::MAX by {
                let d = self@[c].choose();
                assert(self@[c].contains(d));
                assert(self.lookup()[d] == c);
            }
        }
        let mut next: usize = 0;
        let ghost keys = self.duplicate_groups.keys().remaining();
        for k in it: self.duplicate_groups.keys()
            invariant
                forall|c: usize| self@.contains_key(c) ==> c < usize::MAX,
                it.seq() == keys,
                keys.unref().to_set() == self.duplicate_groups@.dom(),
                forall|i: int| 0 <= i < it.index() ==> *keys[i] < next,
                next == 0 || self@.contains_key((next - 1) as usize),
        {
            assert(keys.unref()[it.index()] == *k);
            assert(keys.unref().to_set().contains(*k));
            assert(self@.contains_key(*k));
            if *k >= next {
                next = *k + 1;
            }
        }
        assert forall|c: usize| self@.contains_key(c) implies c < next by {
            assert(keys.unref().to_set().contains(c));
            let i = choose|i: int| 0 <= i < keys.unref().len() && keys.unref()[i] == c;
            assert(*keys[i] == c);
        }
        proof {
            if next != 0 {
                let c = (next - 1) as usize;
                let d = self@[c].choose();
                assert(self@[c].contains(d));
                assert(self.lookup().contains_key(d) && self.lookup()[d] == next - 1);
            }
            assert(is_next_id(self.lookup(), next));
            lemma_next_id_unique(self.lookup(), next, next);
        }
        next
    }

    /// Takes cluster `cluster_id` out, with the reverse lookup of each of its
    /// members, and hands the members back.
    fn remove(&mut self, cluster_id: usize) -> (set: HashSet<usize>)
        requires
            old(self).wf(),
            old(self)@.contains_key(cluster_id),
        ensures
            final(self).wf(),
            set@ == old(self)@[cluster_id],
            final(self)@ == old(self)@.remove(cluster_id),
            final(self).lookup() == old(self).lookup().remove_keys(old(self)@[cluster_id]),
    {
        let set = match self.duplicate_groups.remove(&cluster_id) {
            Some(s) => s,
            None => vstd::pervasive::unreached(),
        };
        let ghost keys = set.iter().remaining();
        for k in it: set.iter()
            invariant
                it.seq() == keys,
                keys.unref().to_set() == set@,
                self.duplicate_groups@ == old(self).duplicate_groups@.remove(cluster_id),
                self.doc_lookup@ == old(self).doc_lookup@.remove_keys(
                    keys.unref().take(it.index()).to_set(),
                ),
        {
            assert(keys.unref()[it.index()] == *k);
            self.doc_lookup.remove(k);
            proof {
                let before = keys.unref().take(it.index()).to_set();
                let after = keys.unref().take(it.index() + 1).to_set();
                assert(keys.unref().take(it.index() + 1) == keys.unref().take(it.index()).push(*k));
                keys.unref().take(it.index()).lemma_push_to_set_commute(*k);
                assert(after =~= before.insert(*k));
                assert(self.doc_lookup@ =~= old(self).doc_lookup@.remove_keys(after));
            }
        }
        proof {
            assert(keys.unref().take(keys.unref().len() as int) == keys.unref());
            assert(self@ =~= old(self)@.remove(cluster_id));
            assert forall|d: usize| #[trigger] self.lookup().contains_key(d) implies self@.contains_key(
                self.lookup()[d],
            ) && self@[self.lookup()[d]].contains(d) by {
                assert(old(self).lookup().contains_key(d));
                assert(self.lookup()[d] == old(self).lookup()[d]);
            }
            assert forall|c: usize, d: usize|
                self@.contains_key(c) && #[trigger] self@[c].contains(d) implies self.lookup().contains_key(
                d,
            ) && self.lookup()[d] == c by {
                assert(old(self)@[c].contains(d));
            }
        }
        set
    }

    /// A listing of the clusters is a partition of the members.
    pub proof fn lemma_listing_partitions(&self, listing: Seq<Seq<usize>>)
        requires
            self.wf(),
            lists_clusters(listing, self@),
        ensures
            partitions(listing, self.members()),
    {
        let ids = choose|ids: Seq<usize>|
            {
                &&& ids.len() == listing.len()
                &&& ids.no_duplicates()
                &&& ids.to_set() == self@.dom()
                &&& forall|i: int|
                    0 <= i < listing.len() ==> (#[trigger] listing[i]).no_duplicates()
                        && listing[i].to_set() == self@[ids[i]]
            };
        assert forall|i: int, j: int|
            0 <= i < listing.len() && 0 <= j < listing[i].len() implies self@.contains_key(ids[i])
            && self@[ids[i]].contains(#[trigger] listing[i][j]) by {
            assert(ids.to_set().contains(ids[i]));
            assert(listing[i].to_set().contains(listing[i][j]));
        }
        assert forall|d: usize| self.members().contains(d) implies exists|i: int, j: int|
            0 <= i < listing.len() && 0 <= j < listing[i].len() && #[trigger] listing[i][j]
                == d by {
            let c = self.lookup()[d];
            assert(self@.contains_key(c) && self@[c].contains(d));
            assert(ids.to_set().contains(c));
            let i = choose|i: int| 0 <= i < ids.len() && ids[i] == c;
            assert(listing[i].to_set().contains(d));
            let j = choose|j: int| 0 <= j < listing[i].len() && listing[i][j] == d;
            assert(listing[i][j] == d);
        }
        assert forall|i: int, j: int, k: int, l: int|
            0 <= i < listing.len() && 0 <= j < listing[i].len() && 0 <= k < listing.len() && 0 <= l
                < listing[k].len() && #[trigger] listing[i][j] == #[trigger] listing[k][l] implies i
            == k && j == l by {
            let d = listing[i][j];
            assert(self@[ids[i]].contains(listing[i][j]));
            assert(self@[ids[k]].contains(listing[k][l]));
            assert(self.lookup()[d] == ids[i]);
            assert(self.lookup()[d] == ids[k]);
        }
    }

}

/// The ids of `set` as a list, each once.
fn members_of(set: &HashSet<usize>) -> (v: Vec<usize>)
    ensures
        v@.no_duplicates(),
        v@.to_set() == set@,
{
    let mut v: Vec<usize> = Vec::new();
    let ghost keys = set.iter().remaining();
    for k in it: set.iter()
        invariant
            it.seq() == keys,
            keys.unref().to_set() == set@,
            keys.no_duplicates(),
            v@ == keys.unref().take(it.index()),
    {
        proof {
            assert(keys.unref()[it.index()] == *k);
            assert(keys.unref().take(it.index() + 1) == keys.unref().take(it.index()).push(*k));
        }
        v.push(*k);
    }
    proof {
        assert(keys.unref().take(keys.unref().len() as int) == keys.unref());
        assert forall|i: int, j: int| 0 <= i < v@.len() && 0 <= j < v@.len() && i != j implies v@[i]
            != v@[j] by {
            assert(keys[i] != keys[j]);
        }
    }
    v
}

/// Moves every id of `source` into `target`.
fn extend(target: &mut HashSet<usize>, source: HashSet<usize>)
    ensures
        final(target)@ == old(target)@.union(source@),
{
    let ghost keys = source.iter().remaining();
    for k in it: source.iter()
        invariant
            it.seq() == keys,
            keys.unref().to_set() == source@,
            target@ == old(target)@.union(keys.unref().take(it.index()).to_set()),
    {
        proof {
            assert(keys.unref()[it.index()] == *k);
            assert(keys.unref().take(it.index() + 1) == keys.unref().take(it.index()).push(*k));
            keys.unref().take(it.index()).lemma_push_to_set_commute(*k);
        }
        target.insert(*k);
        proof {
            assert(target@ =~= old(target)@.union(keys.unref().take(it.index() + 1).to_set()));
        }
    }
    proof {
        assert(keys.unref().take(keys.unref().len() as int) == keys.unref());
    }
}

} // verus!
