//! The banding index: signatures are cut into bands, and each band of each
//! record is filed in a bucket under the hash of its values. Records that
//! agree on a band share its bucket. A query looks up the bucket of each of
//! its bands, and takes from it the records that agree with it on that whole
//! band: those are its candidates.

pub use crate::minhash::MinHash;
use crate::minhash::{agreement, lemma_agreement_self, signature, HASH_OFFSET, HASH_PRIME};
use crate::threshold::{lemma_admits_all, lemma_admits_monotone, Threshold};
use rayon::iter::{IndexedParallelIterator, IntoParallelRefIterator, ParallelIterator};
use std::collections::HashMap;
use vstd::prelude::*;
use vstd::utf8::encode_utf8;

verus! {

/// Why a configuration is refused.
#[derive(Clone, Copy, Debug, PartialEq, Eq, Structural)]
pub enum ConfigError {
    /// No hash function was asked for.
    ZeroPermutations,
    /// No band was asked for.
    ZeroBands,
    /// The number of bands does not divide the number of hash functions.
    UnevenBands,
}

/// What a configuration is refused for, if it is: the counts must be
/// positive, and the bands must divide the signature evenly.
pub open spec fn config_error(num_perm: usize, num_bands: usize) -> Option<ConfigError> {
    if num_perm == 0 {
        Some(ConfigError::ZeroPermutations)
    } else if num_bands == 0 {
        Some(ConfigError::ZeroBands)
    } else if num_perm % num_bands != 0 {
        Some(ConfigError::UnevenBands)
    } else {
        None
    }
}

/// Band `b` of a signature, for bands of `width` values.
pub open spec fn band(sig: Seq<u64>, b: int, width: int) -> Seq<u64> {
    sig.subrange(b * width, (b + 1) * width)
}

/// The hash of a run of values, value by value from `HASH_OFFSET`.
pub open spec fn values_hash(s: Seq<u64>) -> u64
    decreases s.len(),
{
    if s.len() == 0 {
        HASH_OFFSET
    } else {
        (values_hash(s.drop_last()) ^ s.last()).wrapping_mul(HASH_PRIME)
    }
}

/// The key under which band `b` of a signature is filed.
pub open spec fn band_key(sig: Seq<u64>, b: int, width: int) -> u64 {
    values_hash(band(sig, b, width))
}

/// The two signatures agree on one of the first `num_bands` bands.
pub open spec fn share_band(x: Seq<u64>, y: Seq<u64>, num_bands: int, width: int) -> bool {
    exists|b: int| 0 <= b < num_bands && #[trigger] band(x, b, width) == band(y, b, width)
}

/// Each id is less than the next one.
pub open spec fn increasing(s: Seq<usize>) -> bool {
    forall|i: int, j: int| 0 <= i < j < s.len() ==> s[i] < s[j]
}

/// `ids` are, in rising order, the records among the first `upto` whose band
/// `b` is filed under `key`.
pub open spec fn is_bucket(
    ids: Seq<usize>,
    sigs: Seq<Seq<u64>>,
    upto: int,
    b: int,
    width: int,
    key: u64,
) -> bool {
    &&& increasing(ids)
    &&& forall|id: usize|
        ids.contains(id) <==> id < upto && id < sigs.len() && band_key(sigs[id as int], b, width)
            == key
}

/// The ids filed under `key` in the buckets `m` of one band; none where no
/// bucket has that key.
pub open spec fn filed(m: Map<u64, Vec<usize>>, key: u64) -> Seq<usize> {
    if m.contains_key(key) {
        m[key]@
    } else {
        Seq::empty()
    }
}

/// The signatures agree at enough positions for the threshold, where there
/// is one.
pub open spec fn meets(threshold: Option<Threshold>, x: Seq<u64>, y: Seq<u64>) -> bool {
    threshold matches Some(t) ==> t.admits(agreement(x, y), x.len())
}

/// A rising sequence is fixed by the ids that it holds.
pub proof fn lemma_increasing_unique(x: Seq<usize>, y: Seq<usize>)
    requires
        increasing(x),
        increasing(y),
        forall|id: usize| x.contains(id) <==> y.contains(id),
    ensures
        x == y,
    decreases x.len(),
{
    if x.len() == 0 {
        if y.len() > 0 {
            assert(y.contains(y[0]));
        }
        assert(x =~= y);
    } else {
        assert(x.contains(x.last()));
        assert(y.contains(x.last()));
        assert(y.len() > 0);
        assert(y.contains(y.last()));
        assert(x.contains(y.last()));
        let i = choose|i: int| 0 <= i < x.len() && x[i] == y.last();
        let j = choose|j: int| 0 <= j < y.len() && y[j] == x.last();
        assert(x.last() == y.last());
        let xs = x.drop_last();
        let ys = y.drop_last();
        assert forall|id: usize| xs.contains(id) <==> ys.contains(id) by {
            if xs.contains(id) {
                let k = choose|k: int| 0 <= k < xs.len() && xs[k] == id;
                assert(x[k] == id);
                assert(x.contains(id));
                let l = choose|l: int| 0 <= l < y.len() && y[l] == id;
                assert(l < y.len() - 1);
                assert(ys[l] == id);
            }
            if ys.contains(id) {
                let k = choose|k: int| 0 <= k < ys.len() && ys[k] == id;
                assert(y[k] == id);
                assert(y.contains(id));
                let l = choose|l: int| 0 <= l < x.len() && x[l] == id;
                assert(l < x.len() - 1);
                assert(xs[l] == id);
            }
        }
        lemma_increasing_unique(xs, ys);
        assert(x =~= xs.push(x.last()));
        assert(y =~= ys.push(y.last()));
    }
}

/// The ids of two rising lists as one rising list.
pub fn merge(x: &Vec<usize>, y: &Vec<usize>) -> (out: Vec<usize>)
    requires
        increasing(x@),
        increasing(y@),
    ensures
        increasing(out@),
        forall|id: usize| out@.contains(id) <==> x@.contains(id) || y@.contains(id),
{
    let mut out: Vec<usize> = Vec::new();
    let mut i: usize = 0;
    let mut j: usize = 0;
    while i < x.len() || j < y.len()
        invariant
            i <= x.len(),
            j <= y.len(),
            increasing(x@),
            increasing(y@),
            increasing(out@),
            forall|k: int| 0 <= k < out@.len() && i < x.len() ==> out@[k] < x@[i as int],
            forall|k: int| 0 <= k < out@.len() && j < y.len() ==> out@[k] < y@[j as int],
            forall|id: usize|
                out@.contains(id) <==> x@.take(i as int).contains(id) || y@.take(j as int).contains(
                    id,
                ),
        decreases x.len() - i + y.len() - j,
    {
        let ghost before = out@;
        let take_x = j >= y.len() || (i < x.len() && x[i] <= y[j]);
        let v = if take_x {
            x[i]
        } else {
            y[j]
        };
        let both = take_x && j < y.len() && y[j] == v;
        out.push(v);
        let ghost i0 = i;
        let ghost j0 = j;
        if take_x {
            i += 1;
        }
        if !take_x || both {
            j += 1;
        }
        proof {
            if i0 < x.len() {
                assert(x@.take(i0 + 1) =~= x@.take(i0 as int).push(x@[i0 as int]));
            }
            if j0 < y.len() {
                assert(y@.take(j0 + 1) =~= y@.take(j0 as int).push(y@[j0 as int]));
            }
            assert forall|id: usize|
                out@.contains(id) <==> x@.take(i as int).contains(id) || y@.take(j as int).contains(
                    id,
                ) by {
                lemma_push_contains(before, v, id);
                if i0 < x.len() {
                    lemma_push_contains(x@.take(i0 as int), x@[i0 as int], id);
                }
                if j0 < y.len() {
                    lemma_push_contains(y@.take(j0 as int), y@[j0 as int], id);
                }
            }
        }
    }
    proof {
        assert(x@.take(i as int) == x@);
        assert(y@.take(j as int) == y@);
    }
    out
}

/// What a sequence holds after one more value was pushed.
pub proof fn lemma_push_contains(s: Seq<usize>, v: usize, id: usize)
    ensures
        s.push(v).contains(id) <==> s.contains(id) || id == v,
{
    if s.contains(id) {
        let k = choose|k: int| 0 <= k < s.len() && s[k] == id;
        assert(s.push(v)[k] == id);
    }
    if id == v {
        assert(s.push(v)[s.len() as int] == v);
    }
    if s.push(v).contains(id) {
        let k = choose|k: int| 0 <= k < s.push(v).len() && s.push(v)[k] == id;
        if k < s.len() {
            assert(s[k] == id);
        }
    }
}

/// Agreement on one of the bands up to `b` is agreement on one of those
/// before `b`, or on band `b`.
pub proof fn lemma_share_band_step(x: Seq<u64>, y: Seq<u64>, b: int, width: int)
    requires
        0 <= b,
    ensures
        share_band(x, y, b + 1, width) <==> share_band(x, y, b, width) || band(x, b, width) == band(
            y,
            b,
            width,
        ),
{
    if share_band(x, y, b + 1, width) {
        let c = choose|c: int| 0 <= c < b + 1 && #[trigger] band(x, c, width) == band(y, c, width);
        if c < b {
            assert(share_band(x, y, b, width));
        }
    }
    if share_band(x, y, b, width) {
        let c = choose|c: int| 0 <= c < b && #[trigger] band(x, c, width) == band(y, c, width);
        assert(0 <= c < b + 1);
    }
}

/// Bands that are whole lie inside the signature.
pub proof fn lemma_band_bounds(num_perm: usize, num_bands: usize, b: int)
    requires
        config_error(num_perm, num_bands) is None,
        0 <= b < num_bands,
    ensures
        0 < num_perm as int / num_bands as int,
        0 <= b * (num_perm as int / num_bands as int),
        (b + 1) * (num_perm as int / num_bands as int) <= num_perm,
{
    let w = num_perm as int / num_bands as int;
    let nb = num_bands as int;
    assert(nb * w == num_perm) by (nonlinear_arith)
        requires
            nb > 0,
            w == num_perm as int / nb,
            num_perm as int % nb == 0,
    ;
    assert(w > 0) by (nonlinear_arith)
        requires
            nb * w == num_perm,
            num_perm > 0,
            nb > 0,
    ;
    assert((b + 1) * w <= nb * w && 0 <= b * w) by (nonlinear_arith)
        requires
            0 <= b < nb,
            w > 0,
    ;
}

/// The key of band `b` of `sig`.
fn band_key_of(sig: &MinHash, b: usize, width: usize) -> (key: u64)
    requires
        (b + 1) * width <= sig@.len(),
    ensures
        key == band_key(sig@, b as int, width as int),
{
    let total = sig.len();
    proof {
        assert(0 <= b * width <= (b + 1) * width && (b + 1) * width == b * width + width)
            by (nonlinear_arith)
            requires
                0 <= b,
                0 <= width,
        ;
    }
    let start = b * width;
    let mut h = HASH_OFFSET;
    let mut k: usize = 0;
    while k < width
        invariant
            k <= width,
            start == b * width,
            start + width <= total,
            total == sig@.len(),
            h == values_hash(sig@.subrange(start as int, start + k)),
        decreases width - k,
    {
        proof {
            assert(sig@.subrange(start as int, start + k + 1).drop_last() == sig@.subrange(
                start as int,
                start + k,
            ));
        }
        h = (h ^ sig.get(start + k)).wrapping_mul(HASH_PRIME);
        k += 1;
    }
    h
}

/// Whether `x` and `y` agree on band `b`.
fn same_band(x: &MinHash, y: &MinHash, b: usize, width: usize) -> (r: bool)
    requires
        (b + 1) * width <= x@.len(),
        (b + 1) * width <= y@.len(),
    ensures
        r == (band(x@, b as int, width as int) == band(y@, b as int, width as int)),
{
    let total = x.len();
    proof {
        assert(0 <= b * width <= (b + 1) * width && (b + 1) * width == b * width + width)
            by (nonlinear_arith)
            requires
                0 <= b,
                0 <= width,
        ;
    }
    let start = b * width;
    let mut k: usize = 0;
    while k < width
        invariant
            k <= width,
            start == b * width,
            (b + 1) * width == start + width,
            start + width <= total,
            total == x@.len(),
            start + width <= y@.len(),
            forall|m: int| start <= m < start + k ==> x@[m] == y@[m],
        decreases width - k,
    {
        if x.get(start + k) != y.get(start + k) {
            proof {
                let p = band(x@, b as int, width as int);
                let q = band(y@, b as int, width as int);
                assert(p[k as int] == x@[start + k]);
                assert(q[k as int] == y@[start + k]);
            }
            return false;
        }
        k += 1;
    }
    proof {
        assert(band(x@, b as int, width as int) =~= band(y@, b as int, width as int));
    }
    true
}

/// The banding index over the signatures of a corpus. A record's id is its
/// place in the corpus.
#[derive(Clone, Debug)]
pub struct MinHashLSH {
    num_perm: usize,
    num_bands: usize,
    /// Record id to signature.
    minhash_index: Vec<MinHash>,
    /// For each band, the key of a bucket to the ids filed in it.
    buckets: Vec<HashMap<u64, Vec<usize>>>,
}

impl MinHashLSH {
    /// The length of each signature.
    pub closed spec fn spec_num_perm(&self) -> usize {
        self.num_perm
    }

    /// The number of bands that each signature is cut into.
    pub closed spec fn spec_num_bands(&self) -> usize {
        self.num_bands
    }

    /// The number of values in each band.
    pub open spec fn width(&self) -> int {
        self.spec_num_perm() as int / self.spec_num_bands() as int
    }

    /// The signatures of the records, by record id.
    pub closed spec fn signatures(&self) -> Seq<Seq<u64>> {
        Seq::new(self.minhash_index@.len(), |i: int| self.minhash_index@[i]@)
    }

    /// The ids in the bucket of band `b` with key `key`, in rising order.
    pub closed spec fn bucket(&self, b: int, key: u64) -> Seq<usize> {
        if 0 <= b < self.buckets@.len() {
            filed(self.buckets@[b]@, key)
        } else {
            Seq::empty()
        }
    }

    /// There is one table of buckets for each band.
    pub closed spec fn banded(&self) -> bool {
        self.buckets@.len() == self.num_bands
    }

    /// The configuration is sound, each signature has its full length, and
    /// each bucket holds exactly the records whose band has the bucket's key.
    pub open spec fn wf(&self) -> bool {
        &&& config_error(self.spec_num_perm(), self.spec_num_bands()) is None
        &&& self.banded()
        &&& forall|i: int|
            0 <= i < self.signatures().len() ==> (#[trigger] self.signatures()[i]).len()
                == self.spec_num_perm()
        &&& forall|b: int, key: u64|
            0 <= b < self.spec_num_bands() ==> is_bucket(
                #[trigger] self.bucket(b, key),
                self.signatures(),
                self.signatures().len() as int,
                b,
                self.width(),
                key,
            )
    }

    /// Record `id` is a candidate for the signature `sig`: it agrees with
    /// `sig` on a whole band, and at enough positions for the threshold.
    pub open spec fn is_candidate(
        &self,
        sig: Seq<u64>,
        threshold: Option<Threshold>,
        id: usize,
    ) -> bool {
        &&& id < self.signatures().len()
        &&& share_band(sig, self.signatures()[id as int], self.spec_num_bands() as int, self.width())
        &&& meets(threshold, sig, self.signatures()[id as int])
    }

    /// The candidates for `sig`, as a set.
    pub open spec fn candidates(&self, sig: Seq<u64>, threshold: Option<Threshold>) -> Set<usize> {
        Set::new(|id: usize| self.is_candidate(sig, threshold, id))
    }

    /// `out` lists the candidates for `sig`, each once, in rising order.
    pub open spec fn answers(
        &self,
        sig: Seq<u64>,
        threshold: Option<Threshold>,
        out: Seq<usize>,
    ) -> bool {
        &&& increasing(out)
        &&& forall|id: usize| out.contains(id) <==> self.is_candidate(sig, threshold, id)
    }

    /// The candidates for `sig`, each once, in rising order.
    pub open spec fn answer(&self, sig: Seq<u64>, threshold: Option<Threshold>) -> Seq<usize> {
        choose|out: Seq<usize>| self.answers(sig, threshold, out)
    }

    /// Each record's id with the candidates for its signature.
    pub open spec fn query_pairs(&self, threshold: Option<Threshold>) -> Seq<(usize, Seq<usize>)> {
        Seq::new(
            self.signatures().len(),
            |i: int| (i as usize, self.answer(self.signatures()[i], threshold)),
        )
    }

    /// For each record, the set of its candidates.
    pub open spec fn candidate_cliques(&self, threshold: Option<Threshold>) -> Seq<Set<usize>> {
        Seq::new(
            self.signatures().len(),
            |i: int| self.candidates(self.signatures()[i], threshold),
        )
    }

    /// Builds the index over the records of a corpus: computes each record's
    /// signature and files it. A configuration that is not sound is refused
    /// before any signature is computed.
    pub fn new(records: Vec<String>, num_perm: usize, num_bands: usize) -> (r: Result<
        MinHashLSH,
        ConfigError,
    >)
        ensures
            match r {
                Ok(index) => {
                    &&& config_error(num_perm, num_bands) is None
                    &&& index.wf()
                    &&& index.spec_num_perm() == num_perm
                    &&& index.spec_num_bands() == num_bands
                    &&& index.signatures() == Seq::new(
                        records@.len(),
                        |i: int| signature(encode_utf8(records@[i]@), num_perm),
                    )
                },
                Err(e) => config_error(num_perm, num_bands) == Some(e),
            },
    {
        if num_perm == 0 {
            return Err(ConfigError::ZeroPermutations);
        }
        if num_bands == 0 {
            return Err(ConfigError::ZeroBands);
        }
        if num_perm % num_bands != 0 {
            return Err(ConfigError::UnevenBands);
        }
        let signatures = signatures_of(&records, num_perm);
        let r = Self::from_signatures(signatures, num_perm, num_bands);
        proof {
            assert(r is Ok ==> r->Ok_0.signatures() =~= Seq::new(
                records@.len(),
                |i: int| signature(encode_utf8(records@[i]@), num_perm),
            ));
        }
        r
    }

    /// The candidates of every record, by record id, computed on rayon's
    /// worker threads with `par_iter`, `enumerate`, `map` and `collect`.
    /// Believed of rayon: the closure runs once on each record, and the
    /// results come back in the order of the records.
    #[verifier::external_body]
    pub(crate) fn query_all(&self, threshold: Option<Threshold>) -> (results: Vec<
        (usize, Vec<usize>),
    >)
        requires
            self.wf(),
        ensures
            results@.len() == self.signatures().len(),
            forall|i: int|
                0 <= i < results@.len() ==> (#[trigger] results@[i]).0 == i && self.answers(
                    self.signatures()[i],
                    threshold,
                    results@[i].1@,
                ),
    {
        self.minhash_index.par_iter().enumerate().map(
            |(id, minhash)| (id, self.query(minhash, threshold)),
        ).collect()
    }

    /// Files the signatures: for each band, every record goes into the
    /// bucket under the key of its band.
    pub fn from_signatures(signatures: Vec<MinHash>, num_perm: usize, num_bands: usize) -> (r:
        Result<MinHashLSH, ConfigError>)
        requires
            forall|i: int| 0 <= i < signatures@.len() ==> (#[trigger] signatures@[i])@.len() == num_perm,
        ensures
            match r {
                Ok(index) => {
                    &&& config_error(num_perm, num_bands) is None
                    &&& index.wf()
                    &&& index.spec_num_perm() == num_perm
                    &&& index.spec_num_bands() == num_bands
                    &&& index.signatures() == Seq::new(
                        signatures@.len(),
                        |i: int| signatures@[i]@,
                    )
                },
                Err(e) => config_error(num_perm, num_bands) == Some(e),
            },
    {
        if num_perm == 0 {
            return Err(ConfigError::ZeroPermutations);
        }
        if num_bands == 0 {
            return Err(ConfigError::ZeroBands);
        }
        if num_perm % num_bands != 0 {
            return Err(ConfigError::UnevenBands);
        }
        let width = num_perm / num_bands;
        let n = signatures.len();
        let ghost sigs = Seq::new(signatures@.len(), |i: int| signatures@[i]@);
        let mut buckets: Vec<HashMap<u64, Vec<usize>>> = Vec::new();
        let mut b: usize = 0;
        while b < num_bands
            invariant
                b <= num_bands,
                config_error(num_perm, num_bands) is None,
                width == num_perm as int / num_bands as int,
                n == signatures@.len(),
                sigs == Seq::new(signatures@.len(), |i: int| signatures@[i]@),
                forall|i: int|
                    0 <= i < signatures@.len() ==> (#[trigger] signatures@[i])@.len() == num_perm,
                buckets@.len() == b,
                forall|c: int, key: u64|
                    0 <= c < b ==> is_bucket(
                        #[trigger] filed(buckets@[c]@, key),
                        sigs,
                        n as int,
                        c,
                        width as int,
                        key,
                    ),
            decreases num_bands - b,
        {
            let mut map: HashMap<u64, Vec<usize>> = HashMap::new();
            let mut id: usize = 0;
            proof {
                lemma_band_bounds(num_perm, num_bands, b as int);
                assert forall|key: u64|
                    is_bucket(#[trigger] filed(map@, key), sigs, 0, b as int, width as int, key) by {
                }
            }
            while id < n
                invariant
                    id <= n,
                    n == signatures@.len(),
                    sigs == Seq::new(signatures@.len(), |i: int| signatures@[i]@),
                    forall|i: int|
                        0 <= i < signatures@.len() ==> (#[trigger] signatures@[i])@.len()
                            == num_perm,
                    (b + 1) * width <= num_perm,
                    forall|key: u64|
                        is_bucket(
                            #[trigger] filed(map@, key),
                            sigs,
                            id as int,
                            b as int,
                            width as int,
                            key,
                        ),
                decreases n - id,
            {
                let key = band_key_of(&signatures[id], b, width);
                let ghost before = map@;
                let mut ids = match map.remove(&key) {
                    Some(v) => v,
                    None => Vec::new(),
                };
                let ghost old_ids = ids@;
                ids.push(id);
                map.insert(key, ids);
                proof {
                    assert(old_ids == filed(before, key));
                    assert(is_bucket(old_ids, sigs, id as int, b as int, width as int, key));
                    assert(sigs[id as int] == signatures@[id as int]@);
                    assert forall|k: u64|
                        is_bucket(
                            #[trigger] filed(map@, k),
                            sigs,
                            id + 1,
                            b as int,
                            width as int,
                            k,
                        ) by {
                        if k == key {
                            let now = filed(map@, k);
                            assert(now == old_ids.push(id));
                            assert forall|i: int, j: int| 0 <= i < j < now.len() implies now[i]
                                < now[j] by {
                                if j == now.len() - 1 {
                                    assert(old_ids.contains(old_ids[i]));
                                }
                            }
                            assert forall|x: usize|
                                now.contains(x) <==> x < id + 1 && x < sigs.len() && band_key(
                                    sigs[x as int],
                                    b as int,
                                    width as int,
                                ) == k by {
                                lemma_push_contains(old_ids, id, x);
                            }
                        } else {
                            assert(filed(map@, k) == filed(before, k));
                            assert(is_bucket(
                                filed(before, k),
                                sigs,
                                id as int,
                                b as int,
                                width as int,
                                k,
                            ));
                        }
                    }
                }
                id += 1;
            }
            buckets.push(map);
            b += 1;
        }
        let index = MinHashLSH { num_perm, num_bands, minhash_index: signatures, buckets };
        proof {
            assert(index.signatures() =~= sigs);
            assert forall|c: int, key: u64| 0 <= c < num_bands implies is_bucket(
                #[trigger] index.bucket(c, key),
                index.signatures(),
                index.signatures().len() as int,
                c,
                index.width(),
                key,
            ) by {
                assert(index.bucket(c, key) == filed(index.buckets@[c]@, key));
            }
        }
        Ok(index)
    }

    /// The records of `ids`, the bucket that band `b` of `minhash` falls
    /// into, that agree with `minhash` on that band and meet the threshold.
    fn matching(
        &self,
        minhash: &MinHash,
        threshold: Option<Threshold>,
        ids: &Vec<usize>,
        b: usize,
    ) -> (hits: Vec<usize>)
        requires
            self.wf(),
            minhash@.len() == self.spec_num_perm(),
            b < self.spec_num_bands(),
            ids@ == self.bucket(b as int, band_key(minhash@, b as int, self.width())),
        ensures
            increasing(hits@),
            forall|id: usize|
                hits@.contains(id) <==> id < self.signatures().len() && band(
                    minhash@,
                    b as int,
                    self.width(),
                ) == band(self.signatures()[id as int], b as int, self.width()) && meets(
                    threshold,
                    minhash@,
                    self.signatures()[id as int],
                ),
    {
        let width = self.num_perm / self.num_bands;
        let ghost key = band_key(minhash@, b as int, self.width());
        let ghost sigs = self.signatures();
        proof {
            lemma_band_bounds(self.num_perm, self.num_bands, b as int);
            assert(is_bucket(
                self.bucket(b as int, key),
                sigs,
                sigs.len() as int,
                b as int,
                self.width(),
                key,
            ));
        }
        proof {
            assert forall|k: int| 0 <= k < ids@.len() implies ids@[k] < sigs.len() by {
                assert(ids@.contains(ids@[k]));
            }
        }
        let mut hits: Vec<usize> = Vec::new();
        let mut i: usize = 0;
        while i < ids.len()
            invariant
                i <= ids.len(),
                self.wf(),
                minhash@.len() == self.spec_num_perm(),
                width == self.width(),
                sigs == self.signatures(),
                (b + 1) * width <= self.spec_num_perm(),
                increasing(ids@),
                forall|k: int| 0 <= k < ids@.len() ==> ids@[k] < sigs.len(),
                increasing(hits@),
                forall|k: int| 0 <= k < hits@.len() && i < ids@.len() ==> hits@[k] < ids@[i as int],
                forall|id: usize|
                    hits@.contains(id) <==> ids@.take(i as int).contains(id) && band(
                        minhash@,
                        b as int,
                        width as int,
                    ) == band(sigs[id as int], b as int, width as int) && meets(
                        threshold,
                        minhash@,
                        sigs[id as int],
                    ),
            decreases ids.len() - i,
        {
            let id = ids[i];
            proof {
                assert(ids@.contains(id));
                assert(sigs[id as int] == self.minhash_index@[id as int]@);
                assert(sigs[id as int].len() == self.spec_num_perm());
                assert(ids@.take(i + 1) =~= ids@.take(i as int).push(id));
            }
            let other = &self.minhash_index[id];
            let ghost before = hits@;
            let keep = same_band(minhash, other, b, width) && match threshold {
                Some(t) => t.accepts(minhash.matches(other), self.num_perm),
                None => true,
            };
            if keep {
                hits.push(id);
            }
            proof {
                assert forall|x: usize|
                    hits@.contains(x) <==> ids@.take(i + 1).contains(x) && band(
                        minhash@,
                        b as int,
                        width as int,
                    ) == band(sigs[x as int], b as int, width as int) && meets(
                        threshold,
                        minhash@,
                        sigs[x as int],
                    ) by {
                    lemma_push_contains(ids@.take(i as int), id, x);
                    lemma_push_contains(before, id, x);
                }
            }
            i += 1;
        }
        proof {
            assert(ids@.take(i as int) == ids@);
            assert forall|id: usize|
                id < sigs.len() && band(minhash@, b as int, width as int) == band(
                    sigs[id as int],
                    b as int,
                    width as int,
                ) implies ids@.contains(id) by {
                assert(band_key(sigs[id as int], b as int, width as int) == key);
            }
        }
        hits
    }

    /// The candidates for a signature: the records that agree with it on a
    /// whole band, narrowed to those that agree with it at enough positions
    /// where a threshold is given. Each comes once, in rising order.
    ///
    /// Every candidate is found in the bucket that one of the bands of the
    /// signature falls into. A bucket is filed by the hash of a band, so it
    /// may also hold a record whose band differs and only shares the hash;
    /// such a record is taken for no candidate on account of that bucket.
    pub fn query(&self, minhash: &MinHash, threshold: Option<Threshold>) -> (out: Vec<usize>)
        requires
            self.wf(),
            minhash@.len() == self.spec_num_perm(),
        ensures
            self.answers(minhash@, threshold, out@),
            (threshold matches Some(t) ==> t.wf()) ==> forall|id: usize|
                id < self.signatures().len() && self.signatures()[id as int] == minhash@
                    ==> out@.contains(id),
    {
        let width = self.num_perm / self.num_bands;
        let ghost sigs = self.signatures();
        proof {
            if threshold matches Some(t) ==> t.wf() {
                assert forall|id: usize|
                    id < sigs.len() && sigs[id as int] == minhash@ implies self.is_candidate(
                    minhash@,
                    threshold,
                    id,
                ) by {
                    lemma_candidate_self(*self, threshold, id);
                }
            }
        }
        let mut out: Vec<usize> = Vec::new();
        let mut b: usize = 0;
        proof {
            assert forall|id: usize| !out@.contains(id) by {}
        }
        while b < self.num_bands
            invariant
                b <= self.spec_num_bands(),
                self.wf(),
                minhash@.len() == self.spec_num_perm(),
                width == self.width(),
                sigs == self.signatures(),
                increasing(out@),
                forall|id: usize|
                    out@.contains(id) <==> id < sigs.len() && share_band(
                        minhash@,
                        sigs[id as int],
                        b as int,
                        width as int,
                    ) && meets(threshold, minhash@, sigs[id as int]),
            decreases self.spec_num_bands() - b,
        {
            proof {
                lemma_band_bounds(self.num_perm, self.num_bands, b as int);
            }
            let key = band_key_of(minhash, b, width);
            let ghost before = out@;
            let ghost hit = Seq::<usize>::empty();
            proof {
                assert(is_bucket(
                    self.bucket(b as int, key),
                    sigs,
                    sigs.len() as int,
                    b as int,
                    self.width(),
                    key,
                ));
            }
            match self.buckets[b].get(&key) {
                Some(ids) => {
                    proof {
                        assert(ids@ == self.bucket(b as int, key));
                    }
                    let hits = self.matching(minhash, threshold, ids, b);
                    out = merge(&out, &hits);
                    proof {
                        hit = hits@;
                    }
                },
                None => {
                    proof {
                        assert(self.bucket(b as int, key) == Seq::<usize>::empty());
                        assert forall|id: usize| id < sigs.len() implies band(
                            minhash@,
                            b as int,
                            width as int,
                        ) != band(sigs[id as int], b as int, width as int) by {
                            if band(minhash@, b as int, width as int) == band(
                                sigs[id as int],
                                b as int,
                                width as int,
                            ) {
                                assert(band_key(sigs[id as int], b as int, width as int) == key);
                                assert(self.bucket(b as int, key).contains(id));
                            }
                        }
                    }
                },
            }
            proof {
                assert forall|id: usize|
                    out@.contains(id) <==> id < sigs.len() && share_band(
                        minhash@,
                        sigs[id as int],
                        b + 1,
                        width as int,
                    ) && meets(threshold, minhash@, sigs[id as int]) by {
                    if id < sigs.len() {
                        lemma_share_band_step(minhash@, sigs[id as int], b as int, width as int);
                    }
                    assert(out@.contains(id) <==> before.contains(id) || hit.contains(id));
                }
            }
            b += 1;
        }
        out
    }

    /// The key under which band `b` of `minhash` is filed.
    pub fn key_of(&self, minhash: &MinHash, b: usize) -> (key: u64)
        requires
            self.wf(),
            minhash@.len() == self.spec_num_perm(),
            b < self.spec_num_bands(),
        ensures
            key == band_key(minhash@, b as int, self.width()),
    {
        proof {
            lemma_band_bounds(self.num_perm, self.num_bands, b as int);
        }
        band_key_of(minhash, b, self.num_perm / self.num_bands)
    }

    /// The ids in the bucket of band `b` with key `key`, in rising order.
    pub fn bucket_of(&self, b: usize, key: u64) -> (ids: Vec<usize>)
        requires
            self.wf(),
            b < self.spec_num_bands(),
        ensures
            ids@ == self.bucket(b as int, key),
    {
        match self.buckets[b].get(&key) {
            Some(ids) => ids.clone(),
            None => Vec::new(),
        }
    }

    /// No bucket lies outside the bands.
    pub proof fn lemma_no_bucket_outside(&self, b: int, key: u64)
        requires
            self.wf(),
            !(0 <= b < self.spec_num_bands()),
        ensures
            self.bucket(b, key) == Seq::<usize>::empty(),
    {
    }

    /// The length of each signature.
    pub fn num_perm(&self) -> (n: usize)
        ensures
            n == self.spec_num_perm(),
    {
        self.num_perm
    }

    /// The number of bands.
    pub fn num_bands(&self) -> (n: usize)
        ensures
            n == self.spec_num_bands(),
    {
        self.num_bands
    }

    /// The number of records.
    pub fn len(&self) -> (n: usize)
        ensures
            n == self.signatures().len(),
    {
        self.minhash_index.len()
    }

    /// The signature of record `id`.
    pub fn signature_of(&self, id: usize) -> (sig: &MinHash)
        requires
            id < self.signatures().len(),
        ensures
            sig@ == self.signatures()[id as int],
    {
        &self.minhash_index[id]
    }
}

/// The signature of every record, computed on rayon's worker threads with
/// `par_iter`, `map` and `collect`. Believed of rayon: the closure runs once
/// on each record, and the results come back in the order of the records.
#[verifier::external_body]
fn signatures_of(records: &Vec<String>, num_perm: usize) -> (sigs: Vec<MinHash>)
    ensures
        sigs@.len() == records@.len(),
        forall|i: int|
            0 <= i < sigs@.len() ==> (#[trigger] sigs@[i])@ == signature(
                encode_utf8(records@[i]@),
                num_perm,
            ),
{
    records.par_iter().map(|text| MinHash::new(text, num_perm)).collect()
}

/// The candidates for a signature have one listing that rises.
pub proof fn lemma_answer_unique(
    index: MinHashLSH,
    sig: Seq<u64>,
    threshold: Option<Threshold>,
    out: Seq<usize>,
)
    requires
        index.answers(sig, threshold, out),
    ensures
        out == index.answer(sig, threshold),
{
    lemma_increasing_unique(out, index.answer(sig, threshold));
}

/// Every record of the index is a candidate for its own signature, under
/// every threshold.
pub proof fn lemma_candidate_self(index: MinHashLSH, threshold: Option<Threshold>, id: usize)
    requires
        index.wf(),
        threshold matches Some(t) ==> t.wf(),
        id < index.signatures().len(),
    ensures
        index.is_candidate(index.signatures()[id as int], threshold, id),
{
    let sig = index.signatures()[id as int];
    assert(band(sig, 0, index.width()) == band(sig, 0, index.width()));
    lemma_agreement_self(sig);
    if let Some(t) = threshold {
        lemma_admits_all(t, sig.len());
    }
}

/// A higher threshold admits no candidate that a lower one refuses, and no
/// threshold admits one that is no candidate without a threshold.
pub proof fn lemma_query_monotone(
    index: MinHashLSH,
    sig: Seq<u64>,
    low: Threshold,
    high: Threshold,
)
    requires
        low.wf(),
        high.wf(),
        low.le(high),
    ensures
        index.candidates(sig, Some(high)).subset_of(index.candidates(sig, Some(low))),
        index.candidates(sig, Some(low)).subset_of(index.candidates(sig, None)),
{
    assert forall|id: usize| index.is_candidate(sig, Some(high), id) implies index.is_candidate(
        sig,
        Some(low),
        id,
    ) by {
        lemma_admits_monotone(
            low,
            high,
            agreement(sig, index.signatures()[id as int]),
            sig.len(),
        );
    }
}

/// Candidates and buckets. A candidate for `sig` lies in the bucket that one
/// of the bands of `sig` falls into, and agrees with `sig` on that band. A
/// record of such a bucket that agrees with `sig` on the band, and meets the
/// threshold, is a candidate. A record of such a bucket whose band differs
/// is a candidate only through another band, and a record that agrees with
/// `sig` on no band is no candidate, whatever buckets hold it.
pub proof fn lemma_candidates_and_buckets(
    index: MinHashLSH,
    sig: Seq<u64>,
    threshold: Option<Threshold>,
    id: usize,
)
    requires
        index.wf(),
        id < index.signatures().len(),
    ensures
        index.is_candidate(sig, threshold, id) ==> exists|b: int|
            0 <= b < index.spec_num_bands() && (#[trigger] index.bucket(
                b,
                band_key(sig, b, index.width()),
            )).contains(id) && band(sig, b, index.width()) == band(
                index.signatures()[id as int],
                b,
                index.width(),
            ),
        forall|b: int|
            0 <= b < index.spec_num_bands() && (#[trigger] index.bucket(
                b,
                band_key(sig, b, index.width()),
            )).contains(id) && band(sig, b, index.width()) == band(
                index.signatures()[id as int],
                b,
                index.width(),
            ) && meets(threshold, sig, index.signatures()[id as int]) ==> index.is_candidate(
                sig,
                threshold,
                id,
            ),
        forall|b: int|
            0 <= b < index.spec_num_bands() && band(sig, b, index.width()) != (#[trigger] band(
                index.signatures()[id as int],
                b,
                index.width(),
            )) && index.is_candidate(sig, threshold, id) ==> exists|c: int|
                0 <= c < index.spec_num_bands() && c != b && band(sig, c, index.width())
                    == #[trigger] band(index.signatures()[id as int], c, index.width()),
        (forall|b: int|
            0 <= b < index.spec_num_bands() ==> band(sig, b, index.width()) != #[trigger] band(
                index.signatures()[id as int],
                b,
                index.width(),
            )) ==> !index.is_candidate(sig, threshold, id),
{
    let w = index.width();
    let other = index.signatures()[id as int];
    if index.is_candidate(sig, threshold, id) {
        let b = choose|b: int|
            0 <= b < index.spec_num_bands() && #[trigger] band(sig, b, w) == band(other, b, w);
        lemma_one_bucket_per_band(index, id, b, band_key(sig, b, w));
        assert(index.bucket(b, band_key(sig, b, w)).contains(id));
        assert forall|c: int|
            0 <= c < index.spec_num_bands() && band(sig, c, w) != (#[trigger] band(
                other,
                c,
                w,
            )) implies exists|e: int|
            0 <= e < index.spec_num_bands() && e != c && band(sig, e, w) == #[trigger] band(
                other,
                e,
                w,
            ) by {
            assert(b != c && band(sig, b, w) == band(other, b, w));
        }
    }
    assert forall|b: int|
        0 <= b < index.spec_num_bands() && (#[trigger] index.bucket(
            b,
            band_key(sig, b, w),
        )).contains(id) && band(sig, b, w) == band(other, b, w) && meets(
            threshold,
            sig,
            other,
        ) implies index.is_candidate(sig, threshold, id) by {
        assert(band(sig, b, w) == band(other, b, w));
    }
}

/// In each band a record is filed in one bucket and no other: the one under
/// the key of its band.
pub proof fn lemma_one_bucket_per_band(index: MinHashLSH, id: usize, b: int, key: u64)
    requires
        index.wf(),
        id < index.signatures().len(),
        0 <= b < index.spec_num_bands(),
    ensures
        index.bucket(b, key).contains(id) <==> key == band_key(
            index.signatures()[id as int],
            b,
            index.width(),
        ),
{
    assert(is_bucket(
        index.bucket(b, key),
        index.signatures(),
        index.signatures().len() as int,
        b,
        index.width(),
        key,
    ));
}

/// Two indexes over the same signatures under the same configuration hold
/// the same buckets.
pub proof fn lemma_buckets_determined(x: MinHashLSH, y: MinHashLSH)
    requires
        x.wf(),
        y.wf(),
        x.signatures() == y.signatures(),
        x.spec_num_perm() == y.spec_num_perm(),
        x.spec_num_bands() == y.spec_num_bands(),
    ensures
        forall|b: int, key: u64| #[trigger] x.bucket(b, key) == y.bucket(b, key),
{
    assert forall|b: int, key: u64| #[trigger] x.bucket(b, key) == y.bucket(b, key) by {
        if 0 <= b < x.spec_num_bands() {
            let p = x.bucket(b, key);
            let q = y.bucket(b, key);
            assert(is_bucket(
                p,
                x.signatures(),
                x.signatures().len() as int,
                b,
                x.width(),
                key,
            ));
            assert(is_bucket(
                q,
                y.signatures(),
                y.signatures().len() as int,
                b,
                y.width(),
                key,
            ));
            lemma_increasing_unique(p, q);
        } else {
            x.lemma_no_bucket_outside(b, key);
            y.lemma_no_bucket_outside(b, key);
        }
    }
}

} // verus!
