//! Shingling and MinHash signatures.
//!
//! A record's text is cut into shingles, the maximal runs of bytes that are
//! not ASCII white space. Each of the `num_perm` hash functions of the family
//! is applied to every shingle, and the signature keeps the least value
//! under each function.

use vstd::prelude::*;
use vstd::string::StringSliceAdditionalSpecFns;

verus! {

/// Start value of the shingle hash.
pub const HASH_OFFSET: u64 = 0xcbf2_9ce4_8422_2325;

/// Multiplier of the shingle hash.
pub const HASH_PRIME: u64 = 0x0000_0100_0000_01b3;

/// Distance between the seeds of two neighbouring hash functions.
pub const SEED_STRIDE: u64 = 0x9e37_79b9_7f4a_7c15;

/// First multiplier of the mixing step.
pub const MIX_FIRST: u64 = 0xbf58_476d_1ce4_e5b9;

/// Second multiplier of the mixing step.
pub const MIX_SECOND: u64 = 0x94d0_49bb_1331_11eb;

/// The value of a signature entry for a text without shingles.
pub const SENTINEL: u64 = 0xffff_ffff_ffff_ffff;

/// ASCII white space: the blank, and tab to carriage return.
pub open spec fn is_space(b: u8) -> bool {
    b == 32 || (9 <= b && b <= 13)
}

/// The bytes from `a` up to `b` are a shingle of `text`: a run of bytes that
/// are not white space, with white space or an end of the text on each side.
pub open spec fn is_shingle(text: Seq<u8>, a: int, b: int) -> bool {
    &&& 0 <= a < b <= text.len()
    &&& forall|k: int| a <= k < b ==> !is_space(#[trigger] text[k])
    &&& (a == 0 || is_space(text[a - 1]))
    &&& (b == text.len() || is_space(text[b]))
}

/// One step of the shingle hash: the byte is mixed in, then the state is
/// multiplied.
pub open spec fn fold_byte(h: u64, b: u8) -> u64 {
    (h ^ (b as u64)).wrapping_mul(HASH_PRIME)
}

/// The hash of a shingle, byte by byte from `HASH_OFFSET`.
pub open spec fn shingle_hash(s: Seq<u8>) -> u64
    decreases s.len(),
{
    if s.len() == 0 {
        HASH_OFFSET
    } else {
        fold_byte(shingle_hash(s.drop_last()), s.last())
    }
}

/// The seed of hash function `i`.
pub open spec fn seed(i: usize) -> u64 {
    (i as u64).wrapping_add(1).wrapping_mul(SEED_STRIDE)
}

/// A bijective scrambling of 64 bits.
pub open spec fn mix(x: u64) -> u64 {
    let a = (x ^ (x >> 30)).wrapping_mul(MIX_FIRST);
    let b = (a ^ (a >> 27)).wrapping_mul(MIX_SECOND);
    b ^ (b >> 31)
}

/// Hash function `i` of the family, applied to a shingle hash.
pub open spec fn permute(i: usize, x: u64) -> u64 {
    mix(x ^ seed(i))
}

/// `v` is the least value that hash function `i` takes on the shingles of
/// `text` that end at or before `end`; the sentinel where there is none.
pub open spec fn is_min_hash_upto(text: Seq<u8>, end: int, i: usize, v: u64) -> bool {
    &&& forall|a: int, b: int| #[trigger]
        is_shingle(text, a, b) && b <= end ==> v <= permute(
            i,
            shingle_hash(text.subrange(a, b)),
        )
    &&& (v == SENTINEL || exists|a: int, b: int| #[trigger]
        is_shingle(text, a, b) && b <= end && v == permute(i, shingle_hash(text.subrange(a, b))))
}

/// `v` is the least value that hash function `i` takes on the shingles of
/// `text`; the sentinel where `text` has no shingle.
pub open spec fn is_min_hash(text: Seq<u8>, i: usize, v: u64) -> bool {
    is_min_hash_upto(text, text.len() as int, i, v)
}

/// The least value of hash function `i` over the shingles of `text`.
pub open spec fn min_hash(text: Seq<u8>, i: usize) -> u64 {
    choose|v: u64| is_min_hash(text, i, v)
}

/// The MinHash signature of `text` under the first `num_perm` hash functions.
pub open spec fn signature(text: Seq<u8>, num_perm: usize) -> Seq<u64> {
    Seq::new(num_perm as nat, |i: int| min_hash(text, i as usize))
}

/// The number of positions at which two signatures agree.
pub open spec fn agreement(x: Seq<u64>, y: Seq<u64>) -> nat
    decreases x.len(),
{
    if x.len() == 0 || y.len() == 0 {
        0
    } else {
        agreement(x.drop_last(), y.drop_last()) + if x.last() == y.last() {
            1nat
        } else {
            0nat
        }
    }
}

/// The least value is unique.
pub proof fn lemma_min_hash_unique(text: Seq<u8>, i: usize, v: u64, w: u64)
    requires
        is_min_hash(text, i, v),
        is_min_hash(text, i, w),
    ensures
        v == w,
        v == min_hash(text, i),
{
}

/// A text of white space alone, or of nothing, has the sentinel at every
/// place of its signature.
pub proof fn lemma_blank_signature(text: Seq<u8>, num_perm: usize)
    requires
        forall|k: int| 0 <= k < text.len() ==> is_space(#[trigger] text[k]),
    ensures
        signature(text, num_perm) == Seq::new(num_perm as nat, |i: int| SENTINEL),
{
    assert forall|a: int, b: int| !is_shingle(text, a, b) by {
        if is_shingle(text, a, b) {
            assert(!is_space(text[a]));
        }
    }
    assert forall|i: int| 0 <= i < num_perm implies #[trigger] signature(text, num_perm)[i]
        == SENTINEL by {
        assert(is_min_hash(text, i as usize, SENTINEL));
        lemma_min_hash_unique(text, i as usize, SENTINEL, SENTINEL);
    }
    assert(signature(text, num_perm) =~= Seq::new(num_perm as nat, |i: int| SENTINEL));
}

/// A signature agrees with itself everywhere.
pub proof fn lemma_agreement_self(x: Seq<u64>)
    ensures
        agreement(x, x) == x.len(),
    decreases x.len(),
{
    if x.len() != 0 {
        lemma_agreement_self(x.drop_last());
    }
}

pub fn byte_is_space(b: u8) -> (r: bool)
    ensures
        r == is_space(b),
{
    b == 32 || (9 <= b && b <= 13)
}

/// Hash function `i` of the family.
pub fn permuted(i: usize, x: u64) -> (r: u64)
    ensures
        r == permute(i, x),
{
    let s = (i as u64).wrapping_add(1).wrapping_mul(SEED_STRIDE);
    let z = x ^ s;
    let a = (z ^ (z >> 30)).wrapping_mul(MIX_FIRST);
    let b = (a ^ (a >> 27)).wrapping_mul(MIX_SECOND);
    b ^ (b >> 31)
}

/// A MinHash signature: one least hash value for each hash function.
#[derive(Clone, Debug)]
pub struct MinHash {
    values: Vec<u64>,
}

impl View for MinHash {
    type V = Seq<u64>;

    closed spec fn view(&self) -> Seq<u64> {
        self.values@
    }
}

impl MinHash {
    /// The signature of `text` under `num_perm` hash functions.
    pub fn new(text: &str, num_perm: usize) -> (r: MinHash)
        ensures
            r@ == signature(text.spec_bytes(), num_perm),
    {
        let bytes = text.as_bytes();
        let n = bytes.len();
        let ghost t = bytes@;
        let mut values: Vec<u64> = Vec::new();
        let mut i: usize = 0;
        while i < num_perm
            invariant
                i <= num_perm,
                values@.len() == i,
                forall|k: int| 0 <= k < i ==> is_min_hash_upto(t, 0, k as usize, #[trigger] values@[k]),
            decreases num_perm - i,
        {
            values.push(SENTINEL);
            i += 1;
        }
        let mut pos: usize = 0;
        while pos < n
            invariant
                n == t.len(),
                t == bytes@,
                pos <= n,
                pos == 0 || pos == n || is_space(t[pos - 1]) || is_space(t[pos as int]),
                values@.len() == num_perm,
                forall|k: int|
                    0 <= k < num_perm ==> is_min_hash_upto(
                        t,
                        pos as int,
                        k as usize,
                        #[trigger] values@[k],
                    ),
            decreases n - pos,
        {
            if byte_is_space(bytes[pos]) {
                proof {
                    lemma_no_shingle_ends_after_space(t, pos as int);
                    assert forall|k: int| 0 <= k < num_perm implies is_min_hash_upto(
                        t,
                        pos + 1,
                        k as usize,
                        #[trigger] values@[k],
                    ) by {
                        assert(is_min_hash_upto(t, pos as int, k as usize, values@[k]));
                    }
                }
                pos += 1;
            } else {
                let start = pos;
                let mut h = HASH_OFFSET;
                while pos < n && !byte_is_space(bytes[pos])
                    invariant
                        n == t.len(),
                        t == bytes@,
                        start <= pos <= n,
                        forall|k: int| start <= k < pos ==> !is_space(#[trigger] t[k]),
                        h == shingle_hash(t.subrange(start as int, pos as int)),
                    decreases n - pos,
                {
                    proof {
                        assert(t.subrange(start as int, pos + 1).drop_last() == t.subrange(
                            start as int,
                            pos as int,
                        ));
                    }
                    h = (h ^ (bytes[pos] as u64)).wrapping_mul(HASH_PRIME);
                    pos += 1;
                }
                proof {
                    lemma_only_shingle_between(t, start as int, pos as int);
                }
                let mut k: usize = 0;
                while k < num_perm
                    invariant
                        k <= num_perm,
                        values@.len() == num_perm,
                        start < pos <= n,
                        n == t.len(),
                        is_shingle(t, start as int, pos as int),
                        h == shingle_hash(t.subrange(start as int, pos as int)),
                        forall|a: int, b: int| #[trigger]
                            is_shingle(t, a, b) && b <= pos ==> b <= start || (a == start && b
                                == pos),
                        forall|m: int|
                            0 <= m < k ==> is_min_hash_upto(
                                t,
                                pos as int,
                                m as usize,
                                #[trigger] values@[m],
                            ),
                        forall|m: int|
                            k <= m < num_perm ==> is_min_hash_upto(
                                t,
                                start as int,
                                m as usize,
                                #[trigger] values@[m],
                            ),
                    decreases num_perm - k,
                {
                    let v = permuted(k, h);
                    let ghost before = values@[k as int];
                    if v < values[k] {
                        values[k] = v;
                    }
                    proof {
                        assert(is_min_hash_upto(t, start as int, k as usize, before));
                        assert(is_shingle(t, start as int, pos as int) && pos <= pos);
                        assert(is_min_hash_upto(t, pos as int, k as usize, values@[k as int]));
                    }
                    k += 1;
                }
            }
        }
        proof {
            assert forall|k: int| 0 <= k < num_perm implies #[trigger] values@[k] == min_hash(
                t,
                k as usize,
            ) by {
                lemma_min_hash_unique(t, k as usize, values@[k], min_hash(t, k as usize));
            }
            assert(values@ =~= signature(t, num_perm));
        }
        MinHash { values }
    }

    /// The signature with the given entries.
    pub fn from_values(values: Vec<u64>) -> (r: MinHash)
        ensures
            r@ == values@,
    {
        MinHash { values }
    }

    /// The number of entries.
    pub fn len(&self) -> (n: usize)
        ensures
            n == self@.len(),
    {
        self.values.len()
    }

    /// Entry `i`.
    pub fn get(&self, i: usize) -> (v: u64)
        requires
            i < self@.len(),
        ensures
            v == self@[i as int],
    {
        self.values[i]
    }

    /// The number of positions at which `self` and `other` agree. Divided by
    /// the length, it estimates the Jaccard similarity of the two shingle
    /// sets.
    pub fn matches(&self, other: &MinHash) -> (m: usize)
        requires
            self@.len() == other@.len(),
        ensures
            m == agreement(self@, other@),
    {
        let n = self.values.len();
        let mut m: usize = 0;
        let mut i: usize = 0;
        while i < n
            invariant
                n == self@.len(),
                n == other@.len(),
                i <= n,
                m <= i,
                m == agreement(self@.take(i as int), other@.take(i as int)),
            decreases n - i,
        {
            proof {
                assert(self@.take(i + 1).drop_last() == self@.take(i as int));
                assert(other@.take(i + 1).drop_last() == other@.take(i as int));
            }
            if self.values[i] == other.values[i] {
                m += 1;
            }
            i += 1;
        }
        proof {
            assert(self@.take(n as int) == self@);
            assert(other@.take(n as int) == other@);
        }
        m
    }
}

/// Where a byte is white space, no shingle ends right after it.
proof fn lemma_no_shingle_ends_after_space(text: Seq<u8>, pos: int)
    requires
        0 <= pos < text.len(),
        is_space(text[pos]),
    ensures
        forall|a: int, b: int| #[trigger] is_shingle(text, a, b) && b <= pos + 1 ==> b <= pos,
{
    assert forall|a: int, b: int| #[trigger] is_shingle(text, a, b) && b <= pos + 1 implies b
        <= pos by {
        if b == pos + 1 {
            assert(!is_space(text[pos]));
        }
    }
}

/// A run of bytes that are not white space, which starts where no shingle is
/// under way and ends at white space or at the end of the text, is a shingle,
/// and the only one that ends in it.
proof fn lemma_only_shingle_between(text: Seq<u8>, start: int, end: int)
    requires
        0 <= start < end <= text.len(),
        forall|k: int| start <= k < end ==> !is_space(#[trigger] text[k]),
        start == 0 || is_space(text[start - 1]),
        end == text.len() || is_space(text[end]),
    ensures
        is_shingle(text, start, end),
        forall|a: int, b: int| #[trigger]
            is_shingle(text, a, b) && b <= end ==> b <= start || (a == start && b == end),
{
    assert forall|a: int, b: int| #[trigger] is_shingle(text, a, b) && b <= end implies b <= start
        || (a == start && b == end) by {
        if b > start {
            if b < end {
                assert(!is_space(text[b]));
            }
            if a > start {
                assert(!is_space(text[a - 1]));
            }
            if a < start {
                assert(!is_space(text[start - 1]));
            }
        }
    }
}

} // verus!
