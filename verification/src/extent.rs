//! `Extent`: the labeled shape of a multi-dimensional coordinate space. An
//! extent assigns a size to each named dimension; points in the space are
//! addressed either by a coordinate vector or by their row-major rank.

use vstd::prelude::*;

verus! {

use crate::coords::all_nonneg;
use crate::coords::flatten;
use crate::coords::lemma_flatten_bounds;
use crate::coords::lemma_flatten_unflatten;
use crate::coords::lemma_prod_nonneg;
use crate::coords::lemma_unflatten_valid;
use crate::coords::prod;
use crate::coords::valid_coords;
use crate::point::Point;
use crate::point::PointError;
use crate::slice::seq_int;
use crate::slice::sizes_product;
use crate::slice::suffixes_bounded;
use crate::slice::Slice;

/// Errors that can occur when constructing an `Extent`.
#[derive(Debug, Clone, PartialEq, Eq)]
pub enum ExtentError {
    /// The number of labels does not match the number of sizes.
    DimMismatch { num_labels: usize, num_sizes: usize },
}

/// The logical shape of a multi-dimensional space: an ordered list of
/// `(label, size)` dimensions. A 0-dimensional extent is the scalar case,
/// with exactly one rank.
#[derive(Debug, PartialEq, Eq, Hash)]
pub struct Extent {
    pub labels: Vec<String>,
    pub sizes: Vec<usize>,
}

impl Clone for Extent {
    /// A clone has the same labels and sizes.
    fn clone(&self) -> (r: Self)
        ensures
            r.labels@ == self.labels@,
            r.sizes@ == self.sizes@,
    {
        let labels = self.labels.clone();
        let sizes = self.sizes.clone();
        proof {
            assert(labels@ =~= self.labels@);
            assert(sizes@ =~= self.sizes@);
        }
        Extent { labels, sizes }
    }
}

impl Extent {
    /// Dimension sizes as mathematical integers.
    pub open spec fn sizes_int(&self) -> Seq<int> {
        seq_int(self.sizes@)
    }

    /// The label sequence, viewed as character sequences.
    pub open spec fn labels_view(&self) -> Seq<Seq<char>> {
        self.labels@.map_values(|l: String| l@)
    }

    /// Well-formedness: parallel label/size vectors, and a space small enough
    /// that every rank computation fits in `usize`.
    pub open spec fn wf(&self) -> bool {
        &&& self.labels.len() == self.sizes.len()
        &&& suffixes_bounded(self.sizes_int())
    }

    /// The total number of ranks: the product of all sizes.
    pub open spec fn spec_num_ranks(&self) -> int {
        prod(self.sizes_int())
    }

    /// Creates a new `Extent` from the given labels and sizes; fails iff
    /// their lengths differ.
    pub fn new(labels: Vec<String>, sizes: Vec<usize>) -> (r: Result<Extent, ExtentError>)
        ensures
            match r {
                Ok(e) => {
                    &&& labels.len() == sizes.len()
                    &&& e.labels@ == labels@
                    &&& e.sizes@ == sizes@
                },
                Err(ExtentError::DimMismatch { num_labels, num_sizes }) => {
                    &&& labels.len() != sizes.len()
                    &&& num_labels == labels.len()
                    &&& num_sizes == sizes.len()
                },
            },
    {
        if labels.len() != sizes.len() {
            return Err(ExtentError::DimMismatch {
                num_labels: labels.len(),
                num_sizes: sizes.len(),
            });
        }
        Ok(Extent { labels, sizes })
    }

    /// The 0-dimensional extent: no axes, exactly one rank.
    pub fn unity() -> (r: Extent)
        ensures
            r.wf(),
            r.labels@.len() == 0,
            r.sizes@.len() == 0,
            r.spec_num_ranks() == 1,
    {
        let r = Extent { labels: Vec::new(), sizes: Vec::new() };
        proof {
            assert forall|i: int| 0 <= i <= r.sizes_int().len() implies
                prod(#[trigger] r.sizes_int().skip(i)) <= usize::MAX by {
                assert(r.sizes_int().skip(i) =~= Seq::<int>::empty());
            }
        }
        r
    }

    /// The ordered dimension labels.
    pub fn labels(&self) -> (r: &[String])
        ensures
            r@ == self.labels@,
    {
        self.labels.as_slice()
    }

    /// The dimension sizes, ordered to match the labels.
    pub fn sizes(&self) -> (r: &[usize])
        ensures
            r@ == self.sizes@,
    {
        self.sizes.as_slice()
    }

    /// The position of the first dimension with the given label, if any.
    pub fn position(&self, label: &str) -> (r: Option<usize>)
        ensures
            match r {
                Some(j) => {
                    &&& 0 <= j < self.labels.len()
                    &&& self.labels_view()[j as int] == label@
                    &&& forall|t: int| 0 <= t < j ==> self.labels_view()[t] != label@
                },
                None => forall|t: int| 0 <= t < self.labels.len() ==> self.labels_view()[t] != label@,
            },
    {
        let needle: String = label.to_owned();
        let n = self.labels.len();
        let mut j: usize = 0;
        while j < n
            invariant
                j <= n,
                n == self.labels.len(),
                needle@ == label@,
                forall|t: int| 0 <= t < j ==> self.labels_view()[t] != label@,
            decreases n - j,
        {
            if self.labels[j] == needle {
                assert(self.labels_view()[j as int] == label@);
                return Some(j);
            }
            assert(self.labels_view()[j as int] != label@);
            j = j + 1;
        }
        None
    }

    /// The size of the first dimension with the given label, if any.
    pub fn size(&self, label: &str) -> (r: Option<usize>)
        requires
            self.labels.len() == self.sizes.len(),
        ensures
            match r {
                Some(sz) => exists|j: int|
                    {
                        &&& 0 <= j < self.labels.len()
                        &&& self.labels_view()[j] == label@
                        &&& forall|t: int| 0 <= t < j ==> self.labels_view()[t] != label@
                        &&& sz == self.sizes@[j]
                    },
                None => forall|t: int| 0 <= t < self.labels.len() ==> self.labels_view()[t] != label@,
            },
    {
        match self.position(label) {
            Some(pos) => Some(self.sizes[pos]),
            None => None,
        }
    }

    /// The row-major rank of the given coordinates. Fails with `DimMismatch`
    /// iff the coordinate count is wrong, and otherwise with
    /// `OutOfRangeIndex` iff some coordinate reaches its dimension's size,
    /// reporting the rightmost such axis.
    #[verifier::loop_isolation(false)]
    pub fn rank_of_coords(&self, coords: &[usize]) -> (r: Result<usize, PointError>)
        requires
            self.wf(),
        ensures
            match r {
                Ok(rank) => {
                    &&& valid_coords(seq_int(coords@), self.sizes_int())
                    &&& rank == flatten(seq_int(coords@), self.sizes_int())
                },
                Err(e) => self.rank_of_coords_failure(seq_int(coords@), e),
            },
    {
        let ghost cs = seq_int(coords@);
        let ghost si = self.sizes_int();
        let n = self.sizes.len();
        if coords.len() != n {
            return Err(PointError::DimMismatch { expected: n, actual: coords.len() });
        }
        let mut stride: usize = 1;
        let mut result: usize = 0;
        let mut i: usize = n;
        proof {
            assert(si.skip(n as int) =~= Seq::<int>::empty());
            assert(cs.skip(n as int) =~= Seq::<int>::empty());
        }
        while i > 0
            invariant
                i <= n,
                stride == prod(si.skip(i as int)),
                result == flatten(cs.skip(i as int), si.skip(i as int)),
                valid_coords(cs.skip(i as int), si.skip(i as int)),
            decreases i,
        {
            i = i - 1;
            let c = coords[i];
            let size = self.sizes[i];
            let ghost spre = si.skip(i as int);
            let ghost cpre = cs.skip(i as int);
            proof {
                assert(spre[0] == si[i as int] && spre.skip(1) =~= si.skip(i + 1));
                assert(cpre[0] == cs[i as int] && cpre.skip(1) =~= cs.skip(i + 1));
            }
            if c >= size {
                proof {
                    assert(cs[i as int] == c as int && si[i as int] == size as int);
                    assert forall|t: int| i < t < cs.len() implies
                        #[trigger] cs[t] < si[t] by {
                        assert(cs.skip(i + 1)[t - i - 1] == cs[t]);
                        assert(si.skip(i + 1)[t - i - 1] == si[t]);
                    }
                }
                return Err(PointError::OutOfRangeIndex { size, index: c });
            }
            proof {
                assert(valid_coords(cpre, spre)) by {
                    assert forall|t: int| 0 <= t < cpre.len() implies
                        0 <= #[trigger] cpre[t] < spre[t] by {
                        if t > 0 {
                            assert(cpre[t] == cs.skip(i + 1)[t - 1]);
                            assert(spre[t] == si.skip(i + 1)[t - 1]);
                        }
                    }
                }
                assert(all_nonneg(spre));
                lemma_flatten_bounds(cpre, spre);
                assert(prod(spre) <= usize::MAX);
                lemma_prod_nonneg(spre);
                assert(flatten(cpre, spre) == cs[i as int] * stride + result);
                assert(cs[i as int] * stride >= 0) by (nonlinear_arith)
                    requires cs[i as int] >= 0 && stride >= 0;
                assert(si[i as int] * stride <= usize::MAX && si[i as int] * stride >= 0)
                    by (nonlinear_arith)
                    requires
                        si[i as int] >= 0,
                        stride >= 0,
                        si[i as int] * stride == prod(spre),
                        prod(spre) <= usize::MAX;
            }
            result = result + c * stride;
            stride = size * stride;
        }
        proof {
            assert(si.skip(0) =~= si);
            assert(cs.skip(0) =~= cs);
        }
        Ok(result)
    }

    /// Creates a [`Point`] in this extent at the given coordinates,
    /// interpreted in row-major order; the point stores the linearized rank.
    pub fn point(&self, coords: Vec<usize>) -> (r: Result<Point, PointError>)
        requires
            self.wf(),
        ensures
            match r {
                Ok(p) => {
                    &&& valid_coords(seq_int(coords@), self.sizes_int())
                    &&& p.rank == flatten(seq_int(coords@), self.sizes_int())
                    &&& p.extent.labels@ == self.labels@
                    &&& p.extent.sizes@ == self.sizes@
                },
                Err(e) => self.rank_of_coords_failure(seq_int(coords@), e),
            },
    {
        match self.rank_of_coords(coords.as_slice()) {
            Ok(rank) => Ok(Point { rank, extent: self.clone() }),
            Err(e) => Err(e),
        }
    }

    /// The failure cases of [`Self::rank_of_coords`], shared by the
    /// point-constructing wrappers.
    pub open spec fn rank_of_coords_failure(&self, cs: Seq<int>, e: PointError) -> bool {
        match e {
            PointError::DimMismatch { expected, actual } => {
                &&& cs.len() != self.sizes.len()
                &&& expected == self.sizes.len()
                &&& actual == cs.len()
            },
            PointError::OutOfRangeIndex { size, index } => {
                &&& cs.len() == self.sizes.len()
                &&& exists|j: int|
                    {
                        &&& 0 <= j < cs.len()
                        &&& cs[j] >= self.sizes_int()[j]
                        &&& size == self.sizes_int()[j]
                        &&& index == cs[j]
                        &&& forall|t: int| j < t < cs.len() ==> #[trigger] cs[t] < self.sizes_int()[t]
                    }
            },
            _ => false,
        }
    }

    /// The [`Point`] with the given row-major rank; fails iff the rank is
    /// not below `num_ranks`.
    pub fn point_of_rank(&self, rank: usize) -> (r: Result<Point, PointError>)
        requires
            self.wf(),
        ensures
            match r {
                Ok(p) => {
                    &&& rank < self.spec_num_ranks()
                    &&& p.rank == rank
                    &&& p.extent.labels@ == self.labels@
                    &&& p.extent.sizes@ == self.sizes@
                },
                Err(PointError::OutOfRangeRank { total, rank: rr }) => {
                    &&& rank >= self.spec_num_ranks()
                    &&& total == self.spec_num_ranks()
                    &&& rr == rank
                },
                Err(_) => false,
            },
    {
        let total = self.num_ranks();
        if rank >= total {
            return Err(PointError::OutOfRangeRank { total, rank });
        }
        Ok(Point { rank, extent: self.clone() })
    }

    /// The number of dimensions.
    pub fn len(&self) -> (r: usize)
        ensures
            r == self.sizes@.len(),
    {
        self.sizes.len()
    }

    /// True iff this extent has zero dimensions (the scalar case).
    pub fn is_empty(&self) -> (r: bool)
        ensures
            r == (self.sizes@.len() == 0),
    {
        self.sizes.len() == 0
    }

    /// The total number of ranks: the product of all dimension sizes (1 for
    /// a 0-dimensional extent).
    pub fn num_ranks(&self) -> (r: usize)
        requires
            self.wf(),
        ensures
            r == self.spec_num_ranks(),
    {
        sizes_product(&self.sizes)
    }

    /// Decompose this extent into its labels and sizes.
    pub fn into_inner(self) -> (r: (Vec<String>, Vec<usize>))
        ensures
            r.0@ == self.labels@,
            r.1@ == self.sizes@,
    {
        (self.labels, self.sizes)
    }

    /// The dense row-major [`Slice`] covering the full extent.
    pub fn to_slice(&self) -> (r: Slice)
        requires
            self.wf(),
        ensures
            r.wf(),
            r.spec_offset() == 0,
            r.spec_sizes() == self.sizes@,
            r.strides_int() == crate::slice::rm_strides(self.sizes_int()),
    {
        Slice::new_row_major(self.sizes.clone())
    }

    /// The dimensions as `(label, size)` pairs, in order.
    pub fn iter(&self) -> (r: Vec<(String, usize)>)
        requires
            self.labels.len() == self.sizes.len(),
        ensures
            r@.len() == self.labels@.len(),
            forall|i: int| 0 <= i < r@.len()
                ==> (#[trigger] r@[i]).0@ == self.labels_view()[i] && r@[i].1 == self.sizes@[i],
    {
        let n = self.labels.len();
        let mut out: Vec<(String, usize)> = Vec::new();
        let mut i: usize = 0;
        while i < n
            invariant
                i <= n,
                n == self.labels.len() == self.sizes.len(),
                out@.len() == i,
                forall|t: int| 0 <= t < i
                    ==> (#[trigger] out@[t]).0@ == self.labels_view()[t] && out@[t].1 == self.sizes@[t],
            decreases n - i,
        {
            let label = self.labels[i].clone();
            out.push((label, self.sizes[i]));
            i = i + 1;
        }
        out
    }

    /// Iterate the points of this extent in row-major rank order. The
    /// iterator yields exactly `num_ranks` points: one per rank, in order.
    pub fn points(&self) -> (r: ExtentPointsIterator)
        requires
            self.wf(),
        ensures
            r.wf(),
            r.index == 0,
            r.extent.labels@ == self.labels@,
            r.extent.sizes@ == self.sizes@,
    {
        let r = ExtentPointsIterator { extent: self.clone(), index: 0 };
        proof {
            assert(all_nonneg(r.extent.sizes_int()));
            lemma_prod_nonneg(r.extent.sizes_int());
        }
        r
    }
}

/// An iterator over the points of an extent, in row-major rank order.
pub struct ExtentPointsIterator {
    pub extent: Extent,
    pub index: usize,
}

impl ExtentPointsIterator {
    pub open spec fn wf(&self) -> bool {
        &&& self.extent.wf()
        &&& self.index <= self.extent.spec_num_ranks()
    }

    /// How many points are still to come.
    pub open spec fn spec_remaining(&self) -> int {
        self.extent.spec_num_ranks() - self.index
    }

    /// Yields the point of the next rank, or `None` after all `num_ranks`
    /// points have been yielded. Together with `points`, this pins the count:
    /// the iterator yields one point per rank of the extent.
    pub fn next(&mut self) -> (r: Option<Point>)
        requires
            old(self).wf(),
        ensures
            final(self).wf(),
            final(self).extent == old(self).extent,
            if old(self).index < old(self).extent.spec_num_ranks() {
                &&& final(self).index == old(self).index + 1
                &&& match r {
                    Some(p) => {
                        &&& p.rank == old(self).index
                        &&& p.extent.labels@ == old(self).extent.labels@
                        &&& p.extent.sizes@ == old(self).extent.sizes@
                    },
                    None => false,
                }
            } else {
                &&& final(self).index == old(self).index
                &&& r is None
            },
    {
        let total = self.extent.num_ranks();
        if self.index >= total {
            return None;
        }
        let p = Point { rank: self.index, extent: self.extent.clone() };
        self.index = self.index + 1;
        Some(p)
    }
}

/// Law: feeding a point's coordinates back through its extent produces the
/// same rank. For every point `p` of a well-formed extent, the coordinates
/// are valid for the extent — so `extent.point(p.coords())` succeeds — and
/// their row-major linearization is exactly `p.rank()`.
pub proof fn lemma_point_coords_roundtrip(p: Point)
    requires
        p.wf(),
    ensures
        valid_coords(p.spec_coords(), p.extent.sizes_int()),
        flatten(p.spec_coords(), p.extent.sizes_int()) == p.rank,
{
    assert(all_nonneg(p.extent.sizes_int()));
    lemma_unflatten_valid(p.rank as int, p.extent.sizes_int());
    lemma_flatten_unflatten(p.rank as int, p.extent.sizes_int());
}

} // verus!
