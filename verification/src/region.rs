//! `Region`: a possibly-sparse hyper-rectangle of ranks inside a larger
//! space, described by dimension labels and a [`Slice`]. Regions enumerate
//! their ranks in row-major coordinate order; the canonical regions produced
//! by subsetting enumerate them in strictly increasing order, which the
//! subset and remap algorithms exploit.

use vstd::prelude::*;

verus! {

use crate::extent::Extent;
use crate::extent::ExtentError;
use crate::slice::seq_int;
use crate::slice::Slice;

/// A selection along one dimension: a begin index, an optional exclusive end
/// (the dimension's size when absent), and a step.
#[derive(Debug, Clone, Copy, PartialEq, Eq)]
pub struct Range(pub usize, pub Option<usize>, pub usize);

impl Range {
    /// The exclusive end of this selection against a dimension of size `n`:
    /// the stated end, clamped to `n`, or `n` itself when absent.
    pub open spec fn spec_end(&self, n: int) -> int {
        match self.1 {
            Some(e) => if e <= n { e as int } else { n },
            None => n,
        }
    }

    /// Resolves this selection against a dimension of size `n`, yielding
    /// `(begin, end, step)`.
    pub fn resolve(&self, n: usize) -> (r: (usize, usize, usize))
        ensures
            r.0 == self.0,
            r.1 == self.spec_end(n as int),
            r.2 == self.2,
    {
        let end = match self.1 {
            Some(e) => if e <= n { e } else { n },
            None => n,
        };
        (self.0, end, self.2)
    }
}

/// Errors that occur while operating on views.
#[derive(Debug)]
pub enum ViewError {
    /// The named dimension does not exist in the relevant extent.
    InvalidDim(String),
    /// A range selection resolved to no points.
    EmptyRange { range: Range, dim: String, size: usize },
    /// An extent could not be built.
    ExtentError(ExtentError),
    /// The selected ranks are not a subset of the base region's.
    InvalidRange { base: Box<Region>, selected: Box<Region> },
}

/// A possibly-sparse rectangular region of ranks within a larger space.
#[derive(Debug, PartialEq, Eq, Hash)]
pub struct Region {
    pub labels: Vec<String>,
    pub slice: Slice,
}

impl Clone for Region {
    /// A clone describes the same labels and ranks.
    fn clone(&self) -> (r: Self)
        ensures
            r.labels@ == self.labels@,
            r.slice.spec_offset() == self.slice.spec_offset(),
            r.slice.spec_sizes() == self.slice.spec_sizes(),
            r.slice.spec_strides() == self.slice.spec_strides(),
    {
        let labels = self.labels.clone();
        proof {
            assert(labels@ =~= self.labels@);
        }
        Region { labels, slice: self.slice.clone() }
    }
}

/// Every element of `a` occurs in `b`.
pub open spec fn seq_subset(a: Seq<int>, b: Seq<int>) -> bool {
    forall|i: int| 0 <= i < a.len() ==> b.contains(#[trigger] a[i])
}

impl Region {
    /// Well-formedness: parallel label/dimension vectors and a slice whose
    /// ranks all fit in `usize`.
    pub open spec fn wf(&self) -> bool {
        &&& self.labels.len() == self.slice.sizes.len()
        &&& self.slice.wf()
    }

    /// The ranks this region enumerates, in row-major coordinate order.
    pub open spec fn rank_seq(&self) -> Seq<int> {
        self.slice.rank_seq()
    }

    /// The number of ranks in the region.
    pub open spec fn spec_num_ranks(&self) -> int {
        self.slice.spec_len()
    }

    /// The region enumerates its ranks in strictly increasing order. This
    /// holds of every region produced by subsetting a dense space, and is
    /// what the linear-merge subset test relies on.
    pub open spec fn ordered(&self) -> bool {
        forall|k1: int, k2: int| 0 <= k1 < k2 < self.rank_seq().len()
            ==> #[trigger] self.rank_seq()[k1] < #[trigger] self.rank_seq()[k2]
    }

    /// The label sequence, viewed as character sequences.
    pub open spec fn labels_view(&self) -> Seq<Seq<char>> {
        self.labels@.map_values(|l: String| l@)
    }

    /// The two regions describe the same shape: same labels, same slice.
    pub open spec fn same_shape(&self, other: &Region) -> bool {
        &&& self.labels@ == other.labels@
        &&& self.slice.spec_offset() == other.slice.spec_offset()
        &&& self.slice.spec_sizes() == other.slice.spec_sizes()
        &&& self.slice.spec_strides() == other.slice.spec_strides()
    }

    /// The 0-dimensional region: no axes and, as the scalar case, exactly
    /// one rank at its offset.
    pub fn empty() -> (r: Region)
        ensures
            r.wf(),
            r.labels@.len() == 0,
            r.slice.spec_sizes().len() == 0,
            r.slice.spec_offset() == 0,
    {
        let sizes: Vec<usize> = Vec::new();
        let strides: Vec<usize> = Vec::new();
        proof {
            assert(seq_int(sizes@).len() == 0);
            assert forall|i: int| 0 <= i <= seq_int(sizes@).len() implies
                crate::coords::prod(#[trigger] seq_int(sizes@).skip(i)) <= usize::MAX by {
                assert(seq_int(sizes@).skip(i) =~= Seq::<int>::empty());
                assert(seq_int(sizes@).skip(i).len() == 0);
            }
        }
        let slice = match Slice::new(0, sizes, strides) {
            Ok(s) => s,
            Err(_) => {
                proof {
                    assert(false);
                }
                unreached()
            }
        };
        Region { labels: Vec::new(), slice }
    }

    /// Builds a region from labels and a slice.
    pub fn new(labels: Vec<String>, slice: Slice) -> (r: Region)
        ensures
            r.labels@ == labels@,
            r.slice == slice,
    {
        Region { labels, slice }
    }

    /// The labels of this region's dimensions.
    pub fn labels(&self) -> (r: &[String])
        ensures
            r@ == self.labels@,
    {
        self.labels.as_slice()
    }

    /// The slice representing this region.
    pub fn slice(&self) -> (r: &Slice)
        ensures
            r == &self.slice,
    {
        &self.slice
    }

    /// Decompose this region into its labels and slice.
    pub fn into_inner(self) -> (r: (Vec<String>, Slice))
        ensures
            r.0@ == self.labels@,
            r.1 == self.slice,
    {
        (self.labels, self.slice)
    }

    /// The extent of the region: its labels with its slice's sizes.
    pub fn extent(&self) -> (r: Extent)
        requires
            self.wf(),
        ensures
            r.wf(),
            r.labels@ == self.labels@,
            r.sizes@ == self.slice.spec_sizes(),
    {
        let sizes = self.slice.sizes.clone();
        proof {
            assert(sizes@ =~= self.slice.sizes@);
        }
        match Extent::new(self.labels.clone(), sizes) {
            Ok(e) => {
                proof {
                    assert(e.sizes_int() == self.slice.sizes_int());
                }
                e
            }
            Err(_) => {
                proof {
                    assert(false);
                }
                unreached()
            }
        }
    }

    /// The total number of ranks in the region.
    pub fn num_ranks(&self) -> (r: usize)
        requires
            self.wf(),
        ensures
            r == self.spec_num_ranks(),
    {
        self.slice.len()
    }

    /// The `index`-th enumerated rank of the region, if `index` is in range.
    pub fn get(&self, index: usize) -> (r: Option<usize>)
        requires
            self.wf(),
        ensures
            match r {
                Some(v) => index < self.spec_num_ranks() && v == self.rank_seq()[index as int],
                None => index >= self.spec_num_ranks(),
            },
    {
        match self.slice.get(index) {
            Ok(v) => Some(v),
            Err(_) => None,
        }
    }

    /// Whether this region is a subset of `other`: whether `other` contains
    /// every rank of this region. Both regions are walked in a single linear
    /// merge; for regions that enumerate their ranks in strictly increasing
    /// order the answer is exactly set containment.
    #[verifier::loop_isolation(false)]
    pub fn is_subset(&self, other: &Region) -> (r: bool)
        requires
            self.wf(),
            other.wf(),
        ensures
            (self.ordered() && other.ordered())
                ==> r == seq_subset(self.rank_seq(), other.rank_seq()),
    {
        let n = self.num_ranks();
        let m = other.num_ranks();
        let mut i: usize = 0;
        let mut j: usize = 0;
        while i < n && j < m
            invariant
                0 <= i <= n,
                0 <= j <= m,
                n == self.spec_num_ranks(),
                m == other.spec_num_ranks(),
                forall|t: int| 0 <= t < i ==> other.rank_seq().contains(#[trigger] self.rank_seq()[t]),
                (self.ordered() && other.ordered() && i < n) ==> forall|t: int|
                    0 <= t < j ==> #[trigger] other.rank_seq()[t] < self.rank_seq()[i as int],
            decreases n - i + m - j,
        {
            let l = self.slice.get(i).unwrap();
            let q = other.slice.get(j).unwrap();
            if l < q {
                proof {
                    if self.ordered() && other.ordered() {
                        assert forall|t: int| 0 <= t < m implies
                            other.rank_seq()[t] != self.rank_seq()[i as int] by {
                            if t >= j {
                                if t > j {
                                    assert(other.rank_seq()[j as int] < other.rank_seq()[t]);
                                }
                            }
                        }
                        assert(!other.rank_seq().contains(self.rank_seq()[i as int]));
                    }
                }
                return false;
            } else if l == q {
                proof {
                    assert(other.rank_seq()[j as int] == self.rank_seq()[i as int]);
                    assert(other.rank_seq().contains(self.rank_seq()[i as int]));
                    if self.ordered() && other.ordered() && i + 1 < n {
                        assert forall|t: int| 0 <= t < j + 1 implies
                            #[trigger] other.rank_seq()[t] < self.rank_seq()[i + 1] by {
                            assert(self.rank_seq()[i as int] < self.rank_seq()[i + 1]);
                            if t < j {
                                assert(other.rank_seq()[t] < self.rank_seq()[i as int]);
                            }
                        }
                    }
                }
                i = i + 1;
                j = j + 1;
            } else {
                j = j + 1;
            }
        }
        if i < n {
            proof {
                if self.ordered() && other.ordered() {
                    assert forall|t: int| 0 <= t < m implies
                        other.rank_seq()[t] != self.rank_seq()[i as int] by {}
                    assert(!other.rank_seq().contains(self.rank_seq()[i as int]));
                }
            }
            false
        } else {
            true
        }
    }

    /// Maps each rank of `target` to the position at which it appears in this
    /// region's enumeration. Returns `None` when `target` is not a subset of
    /// this region. On `Some(ix)`: `ix` has one entry per rank of `target`,
    /// and entry `k` is an index into this region's enumeration whose rank is
    /// exactly `target`'s `k`-th rank.
    #[verifier::loop_isolation(false)]
    pub fn remap(&self, target: &Region) -> (r: Option<Vec<usize>>)
        requires
            self.wf(),
            target.wf(),
        ensures
            match r {
                Some(ix) => {
                    &&& ix@.len() == target.spec_num_ranks()
                    &&& forall|k: int| 0 <= k < ix@.len()
                        ==> #[trigger] ix@[k] < self.spec_num_ranks()
                            && self.rank_seq()[ix@[k] as int] == target.rank_seq()[k]
                    &&& forall|k: int| 0 < k < ix@.len() ==> ix@[k - 1] < #[trigger] ix@[k]
                },
                None => (self.ordered() && target.ordered())
                    ==> !seq_subset(target.rank_seq(), self.rank_seq()),
            },
    {
        if !target.is_subset(self) {
            return None;
        }
        let n = target.num_ranks();
        let m = self.num_ranks();
        let mut out: Vec<usize> = Vec::new();
        let mut pos: usize = 0;
        let mut k: usize = 0;
        proof {
            if self.ordered() && target.ordered()
                && seq_subset(target.rank_seq(), self.rank_seq()) && n > 0 {
                assert(self.rank_seq().contains(target.rank_seq()[0]));
                let u = choose|u: int| 0 <= u < m && self.rank_seq()[u] == target.rank_seq()[0];
                assert(self.rank_seq()[u] == target.rank_seq()[0]);
            }
        }
        while k < n
            invariant
                0 <= k <= n,
                0 <= pos <= m,
                n == target.spec_num_ranks(),
                m == self.spec_num_ranks(),
                out@.len() == k,
                forall|t: int| 0 <= t < k
                    ==> #[trigger] out@[t] < m
                        && self.rank_seq()[out@[t] as int] == target.rank_seq()[t],
                forall|t: int| 0 < t < k ==> out@[t - 1] < #[trigger] out@[t],
                k > 0 ==> out@[k - 1] + 1 == pos,
                (self.ordered() && target.ordered()
                    && seq_subset(target.rank_seq(), self.rank_seq()) && k < n)
                    ==> exists|u: int| pos <= u < m
                        && #[trigger] self.rank_seq()[u] == target.rank_seq()[k as int],
            decreases n - k,
        {
            let needle = target.slice.get(k).unwrap();
            let ix = match self.scan_for(needle, pos) {
                Some(ix) => ix,
                None => {
                    // Unreachable for ordered regions once the subset check
                    // has passed; answered conservatively otherwise.
                    proof {
                        if self.ordered() && target.ordered()
                            && seq_subset(target.rank_seq(), self.rank_seq()) {
                            let u = choose|u: int| pos <= u < m
                                && #[trigger] self.rank_seq()[u] == target.rank_seq()[k as int];
                            assert(false);
                        }
                    }
                    return None;
                }
            };
            pos = ix + 1;
            out.push(ix);
            k = k + 1;
            proof {
                if self.ordered() && target.ordered()
                    && seq_subset(target.rank_seq(), self.rank_seq()) && k < n {
                    assert(target.rank_seq().contains(target.rank_seq()[k as int]));
                    let u = choose|u: int| 0 <= u < m
                        && #[trigger] self.rank_seq()[u] == target.rank_seq()[k as int];
                    assert(target.rank_seq()[k - 1] < target.rank_seq()[k as int]);
                    assert(self.rank_seq()[ix as int] == target.rank_seq()[k - 1]);
                    assert(u > ix) by {
                        if u < ix {
                            assert(self.rank_seq()[u] < self.rank_seq()[ix as int]);
                        }
                    }
                    assert(pos <= u < m && self.rank_seq()[u] == target.rank_seq()[k as int]);
                }
            }
        }
        Some(out)
    }

    /// The first position at or after `start` whose enumerated rank equals
    /// `needle`, if any.
    #[verifier::loop_isolation(false)]
    fn scan_for(&self, needle: usize, start: usize) -> (r: Option<usize>)
        requires
            self.wf(),
            start <= self.spec_num_ranks(),
        ensures
            match r {
                Some(ix) => {
                    &&& start <= ix < self.spec_num_ranks()
                    &&& self.rank_seq()[ix as int] == needle
                    &&& forall|t: int| start <= t < ix ==> self.rank_seq()[t] != needle
                },
                None => forall|t: int|
                    start <= t < self.spec_num_ranks() ==> self.rank_seq()[t] != needle,
            },
    {
        let m = self.num_ranks();
        let mut pos = start;
        while pos < m
            invariant
                start <= pos <= m,
                m == self.spec_num_ranks(),
                forall|t: int| start <= t < pos ==> self.rank_seq()[t] != needle,
            decreases m - pos,
        {
            let v = self.slice.get(pos).unwrap();
            if v == needle {
                return Some(pos);
            }
            pos = pos + 1;
        }
        None
    }

    /// Returns `region` itself when it is a subset of this region, and
    /// `InvalidRange` otherwise.
    pub fn subset(&self, region: Region) -> (r: Result<Region, ViewError>)
        requires
            self.wf(),
            region.wf(),
        ensures
            match r {
                Ok(sub) => {
                    &&& sub == region
                    &&& (self.ordered() && region.ordered())
                        ==> seq_subset(region.rank_seq(), self.rank_seq())
                },
                Err(_) => (self.ordered() && region.ordered())
                    ==> !seq_subset(region.rank_seq(), self.rank_seq()),
            },
    {
        if region.is_subset(self) {
            Ok(region)
        } else {
            Err(ViewError::InvalidRange {
                base: Box::new(self.clone()),
                selected: Box::new(region),
            })
        }
    }
}

} // verus!
