//! `ValueMesh`: a dense container of values indexed by the ranks of a
//! [`Region`], in the region's canonical enumeration order. The mesh is
//! always complete: it holds exactly one value per rank.
//!
//! Meshes are assembled either densely (a full vector of values in rank
//! order) or from sparse `(rank, value)` pairs, where the last write to a
//! rank wins, an out-of-bounds rank fails immediately, and incomplete
//! coverage fails after all pairs are consumed.

use vstd::prelude::*;

verus! {

use crate::region::Region;
use crate::region::ViewError;

/// Errors from assembling or reshaping a value mesh.
#[derive(Debug, Clone, PartialEq, Eq)]
pub enum MeshError {
    /// The number of values does not match the number of ranks.
    InvalidRankCardinality { expected: usize, actual: usize },
}

/// A canonical cardinality mismatch descriptor.
#[derive(Debug, Clone, Copy, PartialEq, Eq, Structural)]
pub struct InvalidCardinality {
    pub expected: usize,
    pub actual: usize,
}

impl From<InvalidCardinality> for MeshError {
    /// The mismatch as a mesh error, field for field.
    fn from(c: InvalidCardinality) -> (r: MeshError) {
        MeshError::InvalidRankCardinality { expected: c.expected, actual: c.actual }
    }
}

impl vstd::std_specs::convert::FromSpecImpl<InvalidCardinality> for MeshError {
    open spec fn obeys_from_spec() -> bool {
        true
    }

    open spec fn from_spec(c: InvalidCardinality) -> MeshError {
        MeshError::InvalidRankCardinality { expected: c.expected, actual: c.actual }
    }
}

/// The value that ends up at slot `s` after writing `pairs` in order:
/// the payload of the last pair whose rank is `s`, if any.
pub open spec fn last_write<T>(pairs: Seq<(usize, T)>, s: int) -> Option<T>
    decreases pairs.len(),
{
    if pairs.len() == 0 {
        None
    } else if pairs.last().0 == s {
        Some(pairs.last().1)
    } else {
        last_write(pairs.drop_last(), s)
    }
}

/// The position of the first `Err` in `ranks` (the length when none).
pub open spec fn first_err_index<T, E>(ranks: Seq<Result<T, E>>) -> int
    decreases ranks.len(),
{
    if ranks.len() == 0 {
        0
    } else if ranks.first() is Err {
        0
    } else {
        1 + first_err_index(ranks.skip(1))
    }
}

/// A position preceded only by `Ok` values and holding an `Err` is the first
/// error position.
pub proof fn lemma_first_err_index<T, E>(ranks: Seq<Result<T, E>>, j: int)
    requires
        0 <= j < ranks.len(),
        ranks[j] is Err,
        forall|t: int| 0 <= t < j ==> (#[trigger] ranks[t]) is Ok,
    ensures
        first_err_index(ranks) == j,
    decreases j,
{
    if j == 0 {
        assert(ranks.first() is Err);
    } else {
        assert(ranks[0] is Ok);
        assert forall|t: int| 0 <= t < j - 1 implies (#[trigger] ranks.skip(1)[t]) is Ok by {
            assert(ranks.skip(1)[t] == ranks[t + 1]);
        }
        assert(ranks.skip(1)[j - 1] == ranks[j]);
        lemma_first_err_index(ranks.skip(1), j - 1);
    }
}

/// Every pair addresses a rank below `n`.
pub open spec fn pairs_in_bounds<T>(pairs: Seq<(usize, T)>, n: int) -> bool {
    forall|t: int| 0 <= t < pairs.len() ==> (#[trigger] pairs[t]).0 < n
}

/// The position of the first pair whose rank is not below `n` (the length
/// when all are in bounds).
pub open spec fn first_oob_index<T>(pairs: Seq<(usize, T)>, n: int) -> int
    decreases pairs.len(),
{
    if pairs.len() == 0 {
        0
    } else if pairs.first().0 >= n {
        0
    } else {
        1 + first_oob_index(pairs.skip(1), n)
    }
}

/// A position preceded only by in-bounds pairs and holding an out-of-bounds
/// one is the first out-of-bounds position.
pub proof fn lemma_first_oob_index<T>(pairs: Seq<(usize, T)>, n: int, j: int)
    requires
        0 <= j < pairs.len(),
        pairs[j].0 >= n,
        forall|t: int| 0 <= t < j ==> (#[trigger] pairs[t]).0 < n,
    ensures
        first_oob_index(pairs, n) == j,
        pairs[first_oob_index(pairs, n)].0 >= n,
    decreases j,
{
    if j == 0 {
    } else {
        assert(pairs[0].0 < n);
        assert forall|t: int| 0 <= t < j - 1 implies (#[trigger] pairs.skip(1)[t]).0 < n by {
            assert(pairs.skip(1)[t] == pairs[t + 1]);
        }
        assert(pairs.skip(1)[j - 1] == pairs[j]);
        lemma_first_oob_index(pairs.skip(1), n, j - 1);
    }
}

/// The set of ranks addressed by `pairs`.
pub open spec fn seen_ranks<T>(pairs: Seq<(usize, T)>) -> Set<int>
    decreases pairs.len(),
{
    if pairs.len() == 0 {
        Set::empty()
    } else {
        seen_ranks(pairs.drop_last()).insert(pairs.last().0 as int)
    }
}

/// A slot holds a value exactly when some pair addressed it.
pub proof fn lemma_last_write_seen<T>(pairs: Seq<(usize, T)>, s: int)
    ensures
        last_write(pairs, s) is Some <==> seen_ranks(pairs).contains(s),
        seen_ranks(pairs).finite(),
    decreases pairs.len(),
{
    if pairs.len() == 0 {
    } else {
        lemma_last_write_seen(pairs.drop_last(), s);
    }
}

/// Every slot of `0..n` has received a value.
pub open spec fn covers<T>(pairs: Seq<(usize, T)>, n: int) -> bool {
    forall|s: int| 0 <= s < n ==> (#[trigger] last_write(pairs, s)) is Some
}

/// A mesh of values, one per rank of its region.
///
/// # Invariant
/// The mesh is *complete*: `ranks.len()` always equals
/// `region.num_ranks()`. Every rank in the region has exactly one
/// associated value.
#[derive(Debug, PartialEq, Eq, Hash)]
pub struct ValueMesh<T> {
    pub region: Region,
    pub ranks: Vec<T>,
}

impl<T> ValueMesh<T> {
    /// Completeness: one value per rank of a well-formed region.
    pub open spec fn wf(&self) -> bool {
        &&& self.region.wf()
        &&& self.ranks@.len() == self.region.spec_num_ranks()
    }

    /// Creates a mesh for `region` with exactly one value per rank; fails
    /// iff the number of values differs from the region's rank count.
    pub fn new(region: Region, ranks: Vec<T>) -> (r: Result<Self, MeshError>)
        requires
            region.wf(),
        ensures
            match r {
                Ok(m) => {
                    &&& m.wf()
                    &&& ranks@.len() == region.spec_num_ranks()
                    &&& m.region == region
                    &&& m.ranks@ == ranks@
                },
                Err(MeshError::InvalidRankCardinality { expected, actual }) => {
                    &&& ranks@.len() != region.spec_num_ranks()
                    &&& expected == region.spec_num_ranks()
                    &&& actual == ranks@.len()
                },
            },
    {
        let expected = region.num_ranks();
        let actual = ranks.len();
        if actual != expected {
            return Err(MeshError::InvalidRankCardinality { expected, actual });
        }
        Ok(ValueMesh { region, ranks })
    }

    /// Constructs a mesh without checking cardinality; the caller upholds
    /// `ranks.len() == region.num_ranks()`.
    pub fn new_unchecked(region: Region, ranks: Vec<T>) -> (r: Self)
        requires
            region.wf(),
            ranks@.len() == region.spec_num_ranks(),
        ensures
            r.wf(),
            r.region == region,
            r.ranks@ == ranks@,
    {
        ValueMesh { region, ranks }
    }

    /// The region this mesh is indexed by.
    pub fn region(&self) -> (r: &Region)
        ensures
            r == &self.region,
    {
        &self.region
    }

    /// Decompose this mesh into its region and values.
    pub fn into_parts(self) -> (r: (Region, Vec<T>))
        ensures
            r.0 == self.region,
            r.1@ == self.ranks@,
    {
        (self.region, self.ranks)
    }

    /// Borrow the value at `rank`, if it is in range.
    pub fn get_ref(&self, rank: usize) -> (r: Option<&T>)
        ensures
            match r {
                Some(v) => rank < self.ranks@.len() && *v == self.ranks@[rank as int],
                None => rank >= self.ranks@.len(),
            },
    {
        if rank < self.ranks.len() {
            Some(&self.ranks[rank])
        } else {
            None
        }
    }
}

impl<T: Clone> ValueMesh<T> {
    /// The value at `rank`, cloned, if it is in range.
    pub fn get(&self, rank: usize) -> (r: Option<T>)
        ensures
            match r {
                Some(v) => rank < self.ranks@.len() && cloned::<T>(self.ranks@[rank as int], v),
                None => rank >= self.ranks@.len(),
            },
    {
        if rank < self.ranks.len() {
            Some(self.ranks[rank].clone())
        } else {
            None
        }
    }

    /// The values in region order, cloned.
    pub fn values(&self) -> (r: Vec<T>)
        ensures
            r@.len() == self.ranks@.len(),
            forall|i: int| 0 <= i < r@.len() ==> cloned::<T>(self.ranks@[i], #[trigger] r@[i]),
    {
        let n = self.ranks.len();
        let mut out: Vec<T> = Vec::new();
        let mut i: usize = 0;
        while i < n
            invariant
                i <= n,
                n == self.ranks@.len(),
                out@.len() == i,
                forall|t: int| 0 <= t < i ==> cloned::<T>(self.ranks@[t], #[trigger] out@[t]),
            decreases n - i,
        {
            out.push(self.ranks[i].clone());
            i = i + 1;
        }
        out
    }

    /// The sub-mesh over `region`, with each of its values taken from the
    /// rank of this mesh where the sub-region's rank appears. Fails with
    /// `InvalidRange` when `region` is not a subset of this mesh's region.
    pub fn subset(&self, region: Region) -> (r: Result<ValueMesh<T>, ViewError>)
        requires
            self.wf(),
            region.wf(),
        ensures
            match r {
                Ok(m) => {
                    &&& m.wf()
                    &&& m.region == region
                    &&& m.ranks@.len() == region.spec_num_ranks()
                    &&& exists|ix: Seq<usize>|
                        {
                            &&& ix.len() == region.spec_num_ranks()
                            &&& forall|k: int| 0 <= k < ix.len()
                                ==> #[trigger] ix[k] < self.ranks@.len()
                                    && self.region.rank_seq()[ix[k] as int]
                                        == region.rank_seq()[k]
                                    && cloned::<T>(self.ranks@[ix[k] as int], m.ranks@[k])
                        }
                },
                Err(_) => (self.region.ordered() && region.ordered())
                    ==> !crate::region::seq_subset(region.rank_seq(), self.region.rank_seq()),
            },
    {
        let ix = match self.region.remap(&region) {
            Some(ix) => ix,
            None => {
                return Err(ViewError::InvalidRange {
                    base: Box::new(self.region.clone()),
                    selected: Box::new(region),
                });
            }
        };
        let n = ix.len();
        let mut vals: Vec<T> = Vec::new();
        let mut k: usize = 0;
        while k < n
            invariant
                k <= n,
                n == ix@.len(),
                self.wf(),
                ix@.len() == region.spec_num_ranks(),
                forall|t: int| 0 <= t < n
                    ==> #[trigger] ix@[t] < self.spec_num_ranks_of_region()
                        && self.region.rank_seq()[ix@[t] as int] == region.rank_seq()[t],
                vals@.len() == k,
                forall|t: int| 0 <= t < k
                    ==> cloned::<T>(self.ranks@[ix@[t] as int], #[trigger] vals@[t]),
            decreases n - k,
        {
            vals.push(self.ranks[ix[k]].clone());
            k = k + 1;
        }
        let m = ValueMesh { region, ranks: vals };
        proof {
            assert(exists|s: Seq<usize>|
                {
                    &&& s.len() == m.region.spec_num_ranks()
                    &&& forall|k: int| 0 <= k < s.len()
                        ==> #[trigger] s[k] < self.ranks@.len()
                            && self.region.rank_seq()[s[k] as int] == m.region.rank_seq()[k]
                            && cloned::<T>(self.ranks@[s[k] as int], m.ranks@[k])
                }) by {
                assert(ix@.len() == m.region.spec_num_ranks());
                assert(forall|k: int| 0 <= k < ix@.len()
                    ==> #[trigger] ix@[k] < self.ranks@.len()
                        && self.region.rank_seq()[ix@[k] as int] == m.region.rank_seq()[k]
                        && cloned::<T>(self.ranks@[ix@[k] as int], m.ranks@[k]));
            }
        }
        Ok(m)
    }

    /// The rank count of this mesh's region (ghost convenience).
    pub open spec fn spec_num_ranks_of_region(&self) -> int {
        self.region.spec_num_ranks()
    }
}

impl<T, E> ValueMesh<Result<T, E>> {
    /// Turns a mesh of results into a result of a mesh: `Ok` with every
    /// payload in place when all values are `Ok`, and otherwise the first
    /// error in rank order.
    #[verifier::loop_isolation(false)]
    #[verifier::spinoff_prover]
    #[verifier::rlimit(60)]
    pub fn transpose(self) -> (r: Result<ValueMesh<T>, E>)
        requires
            self.wf(),
        ensures
            r is Ok ==> {
                let m = r->Ok_0;
                &&& m.wf()
                &&& m.region == self.region
                &&& m.ranks@.len() == self.ranks@.len()
                &&& forall|i: int| 0 <= i < self.ranks@.len()
                    ==> (#[trigger] self.ranks@[i]) is Ok
                        && m.ranks@[i] == self.ranks@[i]->Ok_0
            },
            r is Err ==> {
                let j = first_err_index(self.ranks@);
                &&& 0 <= j < self.ranks@.len()
                &&& self.ranks@[j] is Err
                &&& r->Err_0 == self.ranks@[j]->Err_0
                &&& forall|t: int| 0 <= t < j ==> (#[trigger] self.ranks@[t]) is Ok
            },
    {
        let ghost orig = self.ranks@;
        let ValueMesh { region, mut ranks } = self;
        let n = ranks.len();
        let mut out: Vec<T> = Vec::new();
        let mut i: usize = 0;
        while i < n
            invariant
                i <= n,
                n == orig.len(),
                ranks@ == orig.skip(i as int),
                out@.len() == i,
                forall|t: int| 0 <= t < i
                    ==> (#[trigger] orig[t]) is Ok && out@[t] == orig[t]->Ok_0,
            decreases n - i,
        {
            let v = ranks.remove(0);
            proof {
                assert(orig.skip(i as int)[0] == orig[i as int]);
            }
            match v {
                Ok(x) => {
                    out.push(x);
                }
                Err(e) => {
                    proof {
                        lemma_first_err_index(orig, i as int);
                    }
                    return Err(e);
                }
            }
            i = i + 1;
            proof {
                assert(ranks@ =~= orig.skip(i as int));
            }
        }
        Ok(ValueMesh { region, ranks: out })
    }
}


impl<T> ValueMesh<T> {
    /// Validates cardinality and constructs a mesh from a complete value
    /// vector in the region's canonical order.
    pub fn build_dense(region: Region, values: Vec<T>) -> (r: Result<Self, MeshError>)
        requires
            region.wf(),
        ensures
            match r {
                Ok(m) => {
                    &&& m.wf()
                    &&& values@.len() == region.spec_num_ranks()
                    &&& m.region == region
                    &&& m.ranks@ == values@
                },
                Err(MeshError::InvalidRankCardinality { expected, actual }) => {
                    &&& values@.len() != region.spec_num_ranks()
                    &&& expected == region.spec_num_ranks()
                    &&& actual == values@.len()
                },
            },
    {
        Self::new(region, values)
    }

    /// Constructs a mesh without validating cardinality; the caller upholds
    /// `values.len() == region.num_ranks()`.
    pub fn build_dense_unchecked(region: Region, values: Vec<T>) -> (r: Self)
        requires
            region.wf(),
            values@.len() == region.spec_num_ranks(),
        ensures
            r.wf(),
            r.region == region,
            r.ranks@ == values@,
    {
        Self::new_unchecked(region, values)
    }

    /// Assembles a mesh from sparse `(rank, value)` pairs. The first pair
    /// whose rank is out of bounds fails with `expected = num_ranks` and
    /// `actual = rank + 1`; duplicates are allowed and the last write wins;
    /// after all pairs, incomplete coverage fails with `actual` the number
    /// of distinct ranks seen.
    #[verifier::loop_isolation(false)]
    pub fn build_indexed(region: Region, pairs: Vec<(usize, T)>) -> (r: Result<Self, MeshError>)
        requires
            region.wf(),
            forall|t: int| 0 <= t < pairs@.len() ==> (#[trigger] pairs@[t]).0 < usize::MAX,
        ensures
            !pairs_in_bounds(pairs@, region.spec_num_ranks()) ==> {
                let j = first_oob_index(pairs@, region.spec_num_ranks());
                r == Result::<Self, MeshError>::Err(MeshError::InvalidRankCardinality {
                    expected: region.spec_num_ranks() as usize,
                    actual: (pairs@[j].0 + 1) as usize,
                })
            },
            (pairs_in_bounds(pairs@, region.spec_num_ranks())
                && !covers(pairs@, region.spec_num_ranks())) ==> {
                r == Result::<Self, MeshError>::Err(MeshError::InvalidRankCardinality {
                    expected: region.spec_num_ranks() as usize,
                    actual: seen_ranks(pairs@).len() as usize,
                })
            },
            (pairs_in_bounds(pairs@, region.spec_num_ranks())
                && covers(pairs@, region.spec_num_ranks())) ==> {
                &&& r is Ok
                &&& r->Ok_0.wf()
                &&& r->Ok_0.region == region
                &&& r->Ok_0.ranks@.len() == region.spec_num_ranks()
                &&& forall|s: int| 0 <= s < region.spec_num_ranks()
                    ==> Some(#[trigger] r->Ok_0.ranks@[s]) == last_write(pairs@, s)
            },
    {
        let ghost ps = pairs@;
        let ghost nn = region.spec_num_ranks();
        let n = region.num_ranks();
        let mut rest = pairs;
        let total = rest.len();

        let mut buf: Vec<Option<T>> = Vec::new();
        let mut b: usize = 0;
        while b < n
            invariant
                b <= n,
                buf@.len() == b,
                forall|s: int| 0 <= s < b ==> (#[trigger] buf@[s]) is None,
            decreases n - b,
        {
            buf.push(None);
            b = b + 1;
        }

        let mut filled: usize = 0;
        let ghost seen = Set::<int>::empty();
        let mut seen_g = Ghost(seen);
        let mut p: usize = 0;
        proof {
            assert(ps.take(0) =~= Seq::<(usize, T)>::empty());
            assert forall|s: int| 0 <= s < nn implies
                #[trigger] buf@[s] == last_write(ps.take(0), s) by {}
        }
        while p < total
            invariant
                p <= total,
                total == ps.len(),
                rest@ == ps.skip(p as int),
                buf@.len() == nn,
                forall|s: int| 0 <= s < nn ==> #[trigger] buf@[s] == last_write(ps.take(p as int), s),
                forall|t: int| 0 <= t < p ==> (#[trigger] ps[t]).0 < nn,
                seen_g@ == seen_ranks(ps.take(p as int)),
                seen_g@.finite(),
                filled == seen_g@.len(),
                filled <= p,
            decreases total - p,
        {
            let pair = rest.remove(0);
            proof {
                assert(ps.skip(p as int)[0] == ps[p as int]);
            }
            let rank = pair.0;
            let value = pair.1;
            if rank >= n {
                proof {
                    lemma_first_oob_index(ps, nn, p as int);
                }
                return Err(MeshError::InvalidRankCardinality { expected: n, actual: rank + 1 });
            }
            let was_empty = buf[rank].is_none();
            if was_empty {
                proof {
                    lemma_last_write_seen(ps.take(p as int), rank as int);
                    assert(!seen_g@.contains(rank as int));
                }
                filled = filled + 1;
            } else {
                proof {
                    lemma_last_write_seen(ps.take(p as int), rank as int);
                    assert(seen_g@.contains(rank as int));
                }
            }
            buf.set(rank, Some(value));
            proof {
                seen_g@ = seen_g@.insert(rank as int);
            }
            p = p + 1;
            proof {
                assert(ps.take(p as int).drop_last() =~= ps.take(p - 1));
                assert(ps.take(p as int).last() == ps[p - 1]);
                assert(seen_g@ == seen_ranks(ps.take(p as int)));
                assert(rest@ =~= ps.skip(p as int));
                assert forall|s: int| 0 <= s < nn implies
                    #[trigger] buf@[s] == last_write(ps.take(p as int), s) by {
                    if s == rank as int {
                        assert(last_write(ps.take(p as int), s) == Some(ps[p - 1].1));
                    } else {
                        assert(last_write(ps.take(p as int), s) == last_write(ps.take(p - 1), s));
                    }
                }
            }
        }
        proof {
            assert(ps.take(p as int) =~= ps);
        }

        // Check coverage, then unwrap the filled buffer.
        let mut s: usize = 0;
        while s < n
            invariant
                s <= n,
                buf@.len() == nn,
                forall|t: int| 0 <= t < nn ==> #[trigger] buf@[t] == last_write(ps, t),
                forall|t: int| 0 <= t < s ==> (#[trigger] buf@[t]) is Some,
            decreases n - s,
        {
            let empty = buf[s].is_none();
            if empty {
                proof {
                    assert(last_write(ps, s as int) is None);
                }
                return Err(MeshError::InvalidRankCardinality { expected: n, actual: filled });
            }
            s = s + 1;
        }

        let ghost fullbuf = buf@;
        let mut out: Vec<T> = Vec::new();
        let mut k: usize = 0;
        while k < n
            invariant
                k <= n,
                fullbuf.len() == nn,
                buf@ == fullbuf.skip(k as int),
                forall|t: int| 0 <= t < nn ==> (#[trigger] fullbuf[t]) is Some,
                forall|t: int| 0 <= t < nn ==> #[trigger] fullbuf[t] == last_write(ps, t),
                out@.len() == k,
                forall|t: int| 0 <= t < k ==> Some(#[trigger] out@[t]) == last_write(ps, t),
            decreases n - k,
        {
            let slot = buf.remove(0);
            proof {
                assert(fullbuf.skip(k as int)[0] == fullbuf[k as int]);
            }
            match slot {
                Some(v) => {
                    out.push(v);
                }
                None => {
                    proof {
                        assert(false);
                    }
                }
            }
            k = k + 1;
            proof {
                assert(buf@ =~= fullbuf.skip(k as int));
            }
        }
        proof {
            assert(covers(ps, nn)) by {
                assert forall|s2: int| 0 <= s2 < nn implies
                    (#[trigger] last_write(ps, s2)) is Some by {
                    assert(fullbuf[s2] is Some);
                    assert(fullbuf[s2] == last_write(ps, s2));
                }
            }
        }
        Ok(ValueMesh { region, ranks: out })
    }
}


/// `dst[i]` is the result of `f` on (a clone of) `src[i]`.
pub open spec fn mapped_at<T: Clone, U, F: Fn(T) -> U>(src: Seq<T>, dst: Seq<U>, f: F, i: int) -> bool {
    exists|x: T| cloned::<T>(src[i], x) && #[trigger] call_ensures(f, (x,), dst[i])
}

/// Each value of `dst` is the result of `f` on (a clone of) the matching
/// value of `src`.
pub open spec fn mapped_values<T: Clone, U, F: Fn(T) -> U>(src: Seq<T>, dst: Seq<U>, f: F) -> bool {
    &&& dst.len() == src.len()
    &&& forall|i: int| 0 <= i < dst.len() ==> #[trigger] mapped_at(src, dst, f, i)
}

/// `dst[i]` is a successful result of `f` on (a clone of) `src[i]`.
pub open spec fn try_mapped_at<T: Clone, U, E2, F: Fn(T) -> Result<U, E2>>(
    src: Seq<T>,
    dst: Seq<U>,
    f: F,
    i: int,
) -> bool {
    exists|x: T| cloned::<T>(src[i], x) && #[trigger] call_ensures(f, (x,), Ok(dst[i]))
}

/// Each value of `dst` is a successful result of `f` on (a clone of) the
/// matching value of `src`.
pub open spec fn try_mapped_values<T: Clone, U, E2, F: Fn(T) -> Result<U, E2>>(
    src: Seq<T>,
    dst: Seq<U>,
    f: F,
) -> bool {
    &&& dst.len() == src.len()
    &&& forall|i: int| 0 <= i < dst.len() ==> #[trigger] try_mapped_at(src, dst, f, i)
}

/// `f` returned the error `e` on (a clone of) `src[j]`.
pub open spec fn map_errs_at<T: Clone, U, E2, F: Fn(T) -> Result<U, E2>>(
    src: Seq<T>,
    f: F,
    e: E2,
    j: int,
) -> bool {
    exists|x: T| cloned::<T>(src[j], x) && #[trigger] call_ensures(f, (x,), Err::<U, E2>(e))
}

/// `f` succeeded on (a clone of) `src[j]`.
pub open spec fn map_oks_at<T: Clone, U, E2, F: Fn(T) -> Result<U, E2>>(src: Seq<T>, f: F, j: int) -> bool {
    exists|x: T, u: U| cloned::<T>(src[j], x) && #[trigger] call_ensures(f, (x,), Ok::<U, E2>(u))
}

/// `e` is the first error `f` produces over `src` in rank order: some
/// position maps to it, and every earlier position maps to a success.
pub open spec fn first_map_err<T: Clone, U, E2, F: Fn(T) -> Result<U, E2>>(src: Seq<T>, f: F, e: E2) -> bool {
    exists|j: int|
        {
            &&& 0 <= j < src.len()
            &&& #[trigger] map_errs_at(src, f, e, j)
            &&& forall|t: int| 0 <= t < j ==> #[trigger] map_oks_at(src, f, t)
        }
}

/// Each value of `dst` is the result of `f` on a borrow of the matching
/// value of `src`.
pub open spec fn ref_mapped_values<T, U, F: Fn(&T) -> U>(src: Seq<T>, dst: Seq<U>, f: F) -> bool {
    &&& dst.len() == src.len()
    &&& forall|i: int| #![trigger dst[i]] 0 <= i < dst.len()
        ==> call_ensures(f, (&src[i],), dst[i])
}

/// Each value of `dst` is a successful result of `f` on a borrow of the
/// matching value of `src`.
pub open spec fn try_ref_mapped_values<T, U, E2, F: Fn(&T) -> Result<U, E2>>(
    src: Seq<T>,
    dst: Seq<U>,
    f: F,
) -> bool {
    &&& dst.len() == src.len()
    &&& forall|i: int| #![trigger dst[i]] 0 <= i < dst.len()
        ==> call_ensures(f, (&src[i],), Ok(dst[i]))
}

/// `f` succeeded on a borrow of `src[j]`.
pub open spec fn ref_map_oks_at<T, U, E2, F: Fn(&T) -> Result<U, E2>>(src: Seq<T>, f: F, j: int) -> bool {
    exists|u: U| #[trigger] call_ensures(f, (&src[j],), Ok::<U, E2>(u))
}

/// `e` is the first error `f` produces over borrows of `src` in rank order.
pub open spec fn first_ref_map_err<T, U, E2, F: Fn(&T) -> Result<U, E2>>(src: Seq<T>, f: F, e: E2) -> bool {
    exists|j: int|
        {
            &&& 0 <= j < src.len()
            &&& #[trigger] call_ensures(f, (&src[j],), Err::<U, E2>(e))
            &&& forall|t: int| 0 <= t < j ==> #[trigger] ref_map_oks_at(src, f, t)
        }
}

impl<T: Clone> ValueMesh<T> {
    /// A new mesh over the same region whose value at each rank is `f`
    /// applied to (a clone of) this mesh's value there.
    #[verifier::loop_isolation(false)]
    pub fn map_into<U, F: Fn(T) -> U>(&self, f: F) -> (r: ValueMesh<U>)
        requires
            self.wf(),
            forall|i: int, x: T| 0 <= i < self.ranks@.len() && cloned::<T>(self.ranks@[i], x)
                ==> f.requires((x,)),
        ensures
            r.wf(),
            r.region.same_shape(&self.region),
            r.ranks@.len() == self.ranks@.len(),
            mapped_values(self.ranks@, r.ranks@, f),
    {
        let n = self.ranks.len();
        let mut out: Vec<U> = Vec::new();
        let ghost mut xs: Seq<T> = Seq::empty();
        let mut i: usize = 0;
        while i < n
            invariant
                i <= n,
                n == self.ranks@.len(),
                out@.len() == i,
                xs.len() == i,
                forall|t: int| 0 <= t < i
                    ==> cloned::<T>(self.ranks@[t], #[trigger] xs[t]) && f.ensures((xs[t],), out@[t]),
            decreases n - i,
        {
            let x = self.ranks[i].clone();
            let ghost gx = x;
            proof {
                assert(cloned::<T>(self.ranks@[i as int], gx));
                assert(f.requires((gx,)));
            }
            let y = f(x);
            out.push(y);
            proof {
                xs = xs.push(gx);
                assert(out@[i as int] == y);
                assert(xs[i as int] == gx);
            }
            i = i + 1;
        }
        let r = ValueMesh { region: self.region.clone(), ranks: out };
        proof {
            assert(r.ranks@.len() == self.ranks@.len());
            assert forall|t: int| 0 <= t < r.ranks@.len() implies
                #[trigger] mapped_at(self.ranks@, r.ranks@, f, t) by {
                assert(cloned::<T>(self.ranks@[t], xs[t]));
                assert(call_ensures(f, (xs[t],), r.ranks@[t]));
            }
            assert(mapped_values(self.ranks@, r.ranks@, f));
        }
        r
    }

    /// Like [`Self::map_into`] for a fallible `f`: `Ok` with every mapped
    /// value in place when every application succeeds, else the first error.
    pub fn try_map_into<U, E2, F: Fn(T) -> Result<U, E2>>(&self, f: F) -> (r: Result<ValueMesh<U>, E2>)
        requires
            self.wf(),
            forall|i: int, x: T| 0 <= i < self.ranks@.len() && cloned::<T>(self.ranks@[i], x)
                ==> f.requires((x,)),
        ensures
            r is Ok ==> {
                let m = r->Ok_0;
                &&& m.wf()
                &&& m.region.same_shape(&self.region)
                &&& m.ranks@.len() == self.ranks@.len()
                &&& try_mapped_values(self.ranks@, m.ranks@, f)
            },
            r is Err ==> first_map_err(self.ranks@, f, r->Err_0),
    {
        let mid: ValueMesh<Result<U, E2>> = self.map_into(f);
        let ghost midranks = mid.ranks@;
        let out = mid.transpose();
        proof {
            match &out {
                Ok(m) => {
                    assert forall|i: int| 0 <= i < m.ranks@.len() implies
                        #[trigger] try_mapped_at(self.ranks@, m.ranks@, f, i) by {
                        assert(mapped_values(self.ranks@, midranks, f));
                        assert(mapped_at(self.ranks@, midranks, f, i));
                        assert(midranks[i] == Ok::<U, E2>(m.ranks@[i]));
                        let x = choose|x: T| cloned::<T>(self.ranks@[i], x)
                            && #[trigger] call_ensures(f, (x,), midranks[i]);
                        assert(cloned::<T>(self.ranks@[i], x));
                        assert(call_ensures(f, (x,), Ok::<U, E2>(m.ranks@[i])));
                    }
                    assert(try_mapped_values(self.ranks@, m.ranks@, f));
                }
                Err(e) => {
                    let j = first_err_index(midranks);
                    assert(mapped_values(self.ranks@, midranks, f));
                    assert(mapped_at(self.ranks@, midranks, f, j));
                    assert(midranks[j] == Err::<U, E2>(*e));
                    let x = choose|x: T| cloned::<T>(self.ranks@[j], x)
                        && #[trigger] call_ensures(f, (x,), midranks[j]);
                    assert(cloned::<T>(self.ranks@[j], x));
                    assert(call_ensures(f, (x,), Err::<U, E2>(*e)));
                    assert(map_errs_at(self.ranks@, f, *e, j));
                    assert forall|t: int| 0 <= t < j implies
                        #[trigger] map_oks_at::<T, U, E2, F>(self.ranks@, f, t) by {
                        assert(midranks[t] is Ok);
                        assert(mapped_at(self.ranks@, midranks, f, t));
                        let xt = choose|x: T| cloned::<T>(self.ranks@[t], x)
                            && #[trigger] call_ensures(f, (x,), midranks[t]);
                        assert(midranks[t] == Ok::<U, E2>(midranks[t]->Ok_0));
                        assert(cloned::<T>(self.ranks@[t], xt));
                        assert(call_ensures(f, (xt,), Ok::<U, E2>(midranks[t]->Ok_0)));
                    }
                    assert(first_map_err(self.ranks@, f, *e));
                }
            }
        }
        out
    }
}

impl<T> ValueMesh<T> {
    /// A new mesh over the same region whose value at each rank is `f`
    /// applied to a borrow of this mesh's value there.
    #[verifier::loop_isolation(false)]
    pub fn map_into_ref<U, F: Fn(&T) -> U>(&self, f: F) -> (r: ValueMesh<U>)
        requires
            self.wf(),
            forall|i: int| 0 <= i < self.ranks@.len() ==> f.requires((&self.ranks@[i],)),
        ensures
            r.wf(),
            r.region.same_shape(&self.region),
            r.ranks@.len() == self.ranks@.len(),
            ref_mapped_values(self.ranks@, r.ranks@, f),
    {
        let n = self.ranks.len();
        let mut out: Vec<U> = Vec::new();
        let mut i: usize = 0;
        while i < n
            invariant
                i <= n,
                n == self.ranks@.len(),
                out@.len() == i,
                forall|t: int| 0 <= t < i ==> #[trigger] f.ensures((&self.ranks@[t],), out@[t]),
            decreases n - i,
        {
            let y = f(&self.ranks[i]);
            out.push(y);
            i = i + 1;
        }
        let r = ValueMesh { region: self.region.clone(), ranks: out };
        proof {
            assert(ref_mapped_values(self.ranks@, r.ranks@, f));
        }
        r
    }

    /// Like [`Self::map_into_ref`] for a fallible `f`, stopping at the first
    /// error.
    #[verifier::loop_isolation(false)]
    pub fn try_map_into_ref<U, E2, F: Fn(&T) -> Result<U, E2>>(&self, f: F) -> (r: Result<ValueMesh<U>, E2>)
        requires
            self.wf(),
            forall|i: int| 0 <= i < self.ranks@.len() ==> f.requires((&self.ranks@[i],)),
        ensures
            r is Ok ==> {
                let m = r->Ok_0;
                &&& m.wf()
                &&& m.region.same_shape(&self.region)
                &&& m.ranks@.len() == self.ranks@.len()
                &&& try_ref_mapped_values(self.ranks@, m.ranks@, f)
            },
            r is Err ==> first_ref_map_err(self.ranks@, f, r->Err_0),
    {
        let n = self.ranks.len();
        let mut out: Vec<U> = Vec::new();
        let mut i: usize = 0;
        while i < n
            invariant
                i <= n,
                n == self.ranks@.len(),
                out@.len() == i,
                forall|t: int| 0 <= t < i ==> #[trigger] f.ensures((&self.ranks@[t],), Ok(out@[t])),
            decreases n - i,
        {
            match f(&self.ranks[i]) {
                Ok(y) => {
                    out.push(y);
                }
                Err(e) => {
                    proof {
                        assert(call_ensures(f, (&self.ranks@[i as int],), Err::<U, E2>(e)));
                        assert forall|t: int| 0 <= t < i implies
                            #[trigger] ref_map_oks_at::<T, U, E2, F>(self.ranks@, f, t) by {
                            assert(call_ensures(f, (&self.ranks@[t],), Ok::<U, E2>(out@[t])));
                        }
                        assert(first_ref_map_err(self.ranks@, f, e));
                    }
                    return Err(e);
                }
            }
            i = i + 1;
        }
        let m = ValueMesh { region: self.region.clone(), ranks: out };
        proof {
            assert(try_ref_mapped_values(self.ranks@, m.ranks@, f));
        }
        Ok(m)
    }
}

/// Dense builder: constructs a mesh from a complete sequence of values in
/// the canonical order for `region`.
pub trait BuildFromRegion<T>: Sized {
    spec fn built_region(&self) -> Region;

    spec fn built_values(&self) -> Seq<T>;

    /// Validates cardinality and constructs a mesh.
    fn build_dense(region: Region, values: Vec<T>) -> (r: Result<Self, MeshError>)
        requires
            region.wf(),
        ensures
            match r {
                Ok(m) => {
                    &&& values@.len() == region.spec_num_ranks()
                    &&& m.built_region() == region
                    &&& m.built_values() == values@
                },
                Err(MeshError::InvalidRankCardinality { expected, actual }) => {
                    &&& values@.len() != region.spec_num_ranks()
                    &&& expected == region.spec_num_ranks()
                    &&& actual == values@.len()
                },
            },
    ;

    /// Caller guarantees correct cardinality and order; no validation.
    fn build_dense_unchecked(region: Region, values: Vec<T>) -> (r: Self)
        requires
            region.wf(),
            values@.len() == region.spec_num_ranks(),
        ensures
            r.built_region() == region,
            r.built_values() == values@,
    ;
}

impl<T> BuildFromRegion<T> for ValueMesh<T> {
    open spec fn built_region(&self) -> Region {
        self.region
    }

    open spec fn built_values(&self) -> Seq<T> {
        self.ranks@
    }

    fn build_dense(region: Region, values: Vec<T>) -> (r: Result<Self, MeshError>) {
        ValueMesh::new(region, values)
    }

    fn build_dense_unchecked(region: Region, values: Vec<T>) -> (r: Self) {
        ValueMesh::new_unchecked(region, values)
    }
}

/// Indexed builder: constructs a mesh from sparse `(rank, value)` pairs,
/// with out-of-bounds ranks rejected, last write winning on duplicates, and
/// full coverage required.
pub trait BuildFromRegionIndexed<T>: Sized {
    spec fn built_region(&self) -> Region;

    spec fn built_values(&self) -> Seq<T>;

    /// Validates coverage and bounds, and assembles the mesh.
    fn build_indexed(region: Region, pairs: Vec<(usize, T)>) -> (r: Result<Self, MeshError>)
        requires
            region.wf(),
            forall|t: int| 0 <= t < pairs@.len() ==> (#[trigger] pairs@[t]).0 < usize::MAX,
        ensures
            !pairs_in_bounds(pairs@, region.spec_num_ranks()) ==> {
                let j = first_oob_index(pairs@, region.spec_num_ranks());
                r == Result::<Self, MeshError>::Err(MeshError::InvalidRankCardinality {
                    expected: region.spec_num_ranks() as usize,
                    actual: (pairs@[j].0 + 1) as usize,
                })
            },
            (pairs_in_bounds(pairs@, region.spec_num_ranks())
                && !covers(pairs@, region.spec_num_ranks())) ==> {
                r == Result::<Self, MeshError>::Err(MeshError::InvalidRankCardinality {
                    expected: region.spec_num_ranks() as usize,
                    actual: seen_ranks(pairs@).len() as usize,
                })
            },
            (pairs_in_bounds(pairs@, region.spec_num_ranks())
                && covers(pairs@, region.spec_num_ranks())) ==> {
                &&& r is Ok
                &&& r->Ok_0.built_region() == region
                &&& r->Ok_0.built_values().len() == region.spec_num_ranks()
                &&& forall|s: int| 0 <= s < region.spec_num_ranks()
                    ==> Some(#[trigger] r->Ok_0.built_values()[s]) == last_write(pairs@, s)
            },
    ;
}

impl<T> BuildFromRegionIndexed<T> for ValueMesh<T> {
    open spec fn built_region(&self) -> Region {
        self.region
    }

    open spec fn built_values(&self) -> Seq<T> {
        self.ranks@
    }

    fn build_indexed(region: Region, pairs: Vec<(usize, T)>) -> (r: Result<Self, MeshError>) {
        ValueMesh::build_indexed(region, pairs)
    }
}

/// Mesh-aware collecting adapter: like `collect`, but the shape is supplied
/// by a [`Region`] and cardinality is validated.
pub trait CollectMeshExt<T>: Sized {
    spec fn to_collect(&self) -> Seq<T>;

    fn collect_mesh(self, region: Region) -> (r: Result<ValueMesh<T>, MeshError>)
        requires
            region.wf(),
        ensures
            match r {
                Ok(m) => {
                    &&& self.to_collect().len() == region.spec_num_ranks()
                    &&& m.wf()
                    &&& m.region == region
                    &&& m.ranks@ == self.to_collect()
                },
                Err(MeshError::InvalidRankCardinality { expected, actual }) => {
                    &&& self.to_collect().len() != region.spec_num_ranks()
                    &&& expected == region.spec_num_ranks()
                    &&& actual == self.to_collect().len()
                },
            },
    ;
}

impl<T> CollectMeshExt<T> for Vec<T> {
    open spec fn to_collect(&self) -> Seq<T> {
        self@
    }

    fn collect_mesh(self, region: Region) -> (r: Result<ValueMesh<T>, MeshError>) {
        ValueMesh::build_dense(region, self)
    }
}

/// Exact-size collecting adapter: performs a length pre-check and then
/// builds without re-validating.
pub trait CollectExactMeshExt<T>: Sized {
    spec fn to_collect_exact(&self) -> Seq<T>;

    fn collect_exact_mesh(self, region: Region) -> (r: Result<ValueMesh<T>, MeshError>)
        requires
            region.wf(),
        ensures
            match r {
                Ok(m) => {
                    &&& self.to_collect_exact().len() == region.spec_num_ranks()
                    &&& m.wf()
                    &&& m.region == region
                    &&& m.ranks@ == self.to_collect_exact()
                },
                Err(MeshError::InvalidRankCardinality { expected, actual }) => {
                    &&& self.to_collect_exact().len() != region.spec_num_ranks()
                    &&& expected == region.spec_num_ranks()
                    &&& actual == self.to_collect_exact().len()
                },
            },
    ;
}

impl<T> CollectExactMeshExt<T> for Vec<T> {
    open spec fn to_collect_exact(&self) -> Seq<T> {
        self@
    }

    fn collect_exact_mesh(self, region: Region) -> (r: Result<ValueMesh<T>, MeshError>) {
        let expected = region.num_ranks();
        let actual = self.len();
        if actual != expected {
            return Err(MeshError::from(InvalidCardinality { expected, actual }));
        }
        Ok(ValueMesh::build_dense_unchecked(region, self))
    }
}

/// Indexed collecting adapter: consumes `(rank, value)` pairs plus a
/// [`Region`] and builds the mesh through the indexed builder.
pub trait CollectIndexedMeshExt<T>: Sized {
    spec fn to_collect_pairs(&self) -> Seq<(usize, T)>;

    fn collect_indexed(self, region: Region) -> (r: Result<ValueMesh<T>, MeshError>)
        requires
            region.wf(),
            forall|t: int| 0 <= t < self.to_collect_pairs().len()
                ==> (#[trigger] self.to_collect_pairs()[t]).0 < usize::MAX,
        ensures
            !pairs_in_bounds(self.to_collect_pairs(), region.spec_num_ranks()) ==> {
                let j = first_oob_index(self.to_collect_pairs(), region.spec_num_ranks());
                r == Result::<ValueMesh<T>, MeshError>::Err(MeshError::InvalidRankCardinality {
                    expected: region.spec_num_ranks() as usize,
                    actual: (self.to_collect_pairs()[j].0 + 1) as usize,
                })
            },
            (pairs_in_bounds(self.to_collect_pairs(), region.spec_num_ranks())
                && !covers(self.to_collect_pairs(), region.spec_num_ranks())) ==> {
                r == Result::<ValueMesh<T>, MeshError>::Err(MeshError::InvalidRankCardinality {
                    expected: region.spec_num_ranks() as usize,
                    actual: seen_ranks(self.to_collect_pairs()).len() as usize,
                })
            },
            (pairs_in_bounds(self.to_collect_pairs(), region.spec_num_ranks())
                && covers(self.to_collect_pairs(), region.spec_num_ranks())) ==> {
                &&& r is Ok
                &&& r->Ok_0.wf()
                &&& r->Ok_0.region == region
                &&& forall|s: int| 0 <= s < region.spec_num_ranks()
                    ==> Some(#[trigger] r->Ok_0.ranks@[s])
                        == last_write(self.to_collect_pairs(), s)
            },
    ;
}

impl<T> CollectIndexedMeshExt<T> for Vec<(usize, T)> {
    open spec fn to_collect_pairs(&self) -> Seq<(usize, T)> {
        self@
    }

    fn collect_indexed(self, region: Region) -> (r: Result<ValueMesh<T>, MeshError>) {
        ValueMesh::build_indexed(region, self)
    }
}


/// A ranked collection: items indexed by the ranks of a region, with
/// subsetting by value.
pub trait Ranked: Sized {
    type Item: Clone;

    spec fn ranked_region(&self) -> Region;

    spec fn ranked_items(&self) -> Seq<Self::Item>;

    /// The region indexing this collection.
    fn region(&self) -> (r: &Region)
        ensures
            *r == self.ranked_region(),
    ;

    /// The item at `rank`, if it is in range.
    fn get(&self, rank: usize) -> (r: Option<Self::Item>)
        ensures
            match r {
                Some(v) => rank < self.ranked_items().len()
                    && cloned::<Self::Item>(self.ranked_items()[rank as int], v),
                None => rank >= self.ranked_items().len(),
            },
    ;

    /// A new collection over `region` holding the given items; the caller
    /// guarantees that the items are the region's, in its order.
    fn sliced(&self, region: Region, ranks: Vec<Self::Item>) -> (r: Self)
        requires
            region.wf(),
            ranks@.len() == region.spec_num_ranks(),
        ensures
            r.ranked_region() == region,
            r.ranked_items() == ranks@,
    ;
}

impl<T: Clone> Ranked for ValueMesh<T> {
    type Item = T;

    open spec fn ranked_region(&self) -> Region {
        self.region
    }

    open spec fn ranked_items(&self) -> Seq<T> {
        self.ranks@
    }

    fn region(&self) -> (r: &Region) {
        &self.region
    }

    fn get(&self, rank: usize) -> (r: Option<T>) {
        ValueMesh::get(self, rank)
    }

    fn sliced(&self, region: Region, ranks: Vec<T>) -> (r: Self) {
        ValueMesh::new_unchecked(region, ranks)
    }
}

/// Access to ranked items by reference, without cloning.
pub trait RankedRef: Ranked {
    /// Borrow the item at `rank`, if it is in range.
    fn get_ref(&self, rank: usize) -> (r: Option<&Self::Item>)
        ensures
            match r {
                Some(v) => rank < self.ranked_items().len()
                    && *v == self.ranked_items()[rank as int],
                None => rank >= self.ranked_items().len(),
            },
    ;
}

impl<T: Clone> RankedRef for ValueMesh<T> {
    fn get_ref(&self, rank: usize) -> (r: Option<&T>) {
        ValueMesh::get_ref(self, rank)
    }
}


/// Map-by-value into a new mesh.
pub trait MapIntoExt<T: Clone>: Sized {
    spec fn map_src_region(&self) -> Region;

    spec fn map_src_items(&self) -> Seq<T>;

    /// A new mesh over the same region with `f` applied to (a clone of)
    /// every item.
    fn map_into<U, F: Fn(T) -> U>(&self, f: F) -> (r: ValueMesh<U>)
        requires
            self.map_src_region().wf(),
            self.map_src_items().len() == self.map_src_region().spec_num_ranks(),
            forall|i: int, x: T| 0 <= i < self.map_src_items().len()
                && cloned::<T>(self.map_src_items()[i], x) ==> f.requires((x,)),
        ensures
            r.wf(),
            r.region.same_shape(&self.map_src_region()),
            r.ranks@.len() == self.map_src_items().len(),
            mapped_values(self.map_src_items(), r.ranks@, f),
    ;

    /// Like `map_into` for a fallible `f`, failing on the first error.
    fn try_map_into<U, E2, F: Fn(T) -> Result<U, E2>>(&self, f: F) -> (r: Result<ValueMesh<U>, E2>)
        requires
            self.map_src_region().wf(),
            self.map_src_items().len() == self.map_src_region().spec_num_ranks(),
            forall|i: int, x: T| 0 <= i < self.map_src_items().len()
                && cloned::<T>(self.map_src_items()[i], x) ==> f.requires((x,)),
        ensures
            r is Ok ==> {
                let m = r->Ok_0;
                &&& m.wf()
                &&& m.region.same_shape(&self.map_src_region())
                &&& m.ranks@.len() == self.map_src_items().len()
                &&& try_mapped_values(self.map_src_items(), m.ranks@, f)
            },
            r is Err ==> first_map_err(self.map_src_items(), f, r->Err_0),
    ;
}

impl<T: Clone> MapIntoExt<T> for ValueMesh<T> {
    open spec fn map_src_region(&self) -> Region {
        self.region
    }

    open spec fn map_src_items(&self) -> Seq<T> {
        self.ranks@
    }

    fn map_into<U, F: Fn(T) -> U>(&self, f: F) -> (r: ValueMesh<U>) {
        ValueMesh::map_into(self, f)
    }

    fn try_map_into<U, E2, F: Fn(T) -> Result<U, E2>>(&self, f: F) -> (r: Result<ValueMesh<U>, E2>) {
        ValueMesh::try_map_into(self, f)
    }
}

/// Map-by-reference into a new mesh, with no clone of the items.
pub trait MapIntoRefExt<T>: Sized {
    spec fn ref_src_region(&self) -> Region;

    spec fn ref_src_items(&self) -> Seq<T>;

    /// A new mesh over the same region with `f` applied to a borrow of
    /// every item.
    fn map_into_ref<U, F: Fn(&T) -> U>(&self, f: F) -> (r: ValueMesh<U>)
        requires
            self.ref_src_region().wf(),
            self.ref_src_items().len() == self.ref_src_region().spec_num_ranks(),
            forall|i: int| 0 <= i < self.ref_src_items().len()
                ==> f.requires((&self.ref_src_items()[i],)),
        ensures
            r.wf(),
            r.region.same_shape(&self.ref_src_region()),
            r.ranks@.len() == self.ref_src_items().len(),
            ref_mapped_values(self.ref_src_items(), r.ranks@, f),
    ;

    /// Like `map_into_ref` for a fallible `f`, stopping at the first error.
    fn try_map_into_ref<U, E2, F: Fn(&T) -> Result<U, E2>>(&self, f: F) -> (r: Result<ValueMesh<U>, E2>)
        requires
            self.ref_src_region().wf(),
            self.ref_src_items().len() == self.ref_src_region().spec_num_ranks(),
            forall|i: int| 0 <= i < self.ref_src_items().len()
                ==> f.requires((&self.ref_src_items()[i],)),
        ensures
            r is Ok ==> {
                let m = r->Ok_0;
                &&& m.wf()
                &&& m.region.same_shape(&self.ref_src_region())
                &&& m.ranks@.len() == self.ref_src_items().len()
                &&& try_ref_mapped_values(self.ref_src_items(), m.ranks@, f)
            },
            r is Err ==> first_ref_map_err(self.ref_src_items(), f, r->Err_0),
    ;
}

impl<T> MapIntoRefExt<T> for ValueMesh<T> {
    open spec fn ref_src_region(&self) -> Region {
        self.region
    }

    open spec fn ref_src_items(&self) -> Seq<T> {
        self.ranks@
    }

    fn map_into_ref<U, F: Fn(&T) -> U>(&self, f: F) -> (r: ValueMesh<U>) {
        ValueMesh::map_into_ref(self, f)
    }

    fn try_map_into_ref<U, E2, F: Fn(&T) -> Result<U, E2>>(&self, f: F) -> (r: Result<ValueMesh<U>, E2>) {
        ValueMesh::try_map_into_ref(self, f)
    }
}

} // verus!
