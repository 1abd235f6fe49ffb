//! `Point`: a specific coordinate in an [`Extent`](crate::extent::Extent),
//! stored as its row-major rank. Coordinates are recomputed from the rank on
//! demand, either all at once or lazily through [`CoordIter`].

use vstd::prelude::*;

verus! {

use crate::coords::all_nonneg;
use crate::coords::lemma_prod_nonneg;
use crate::coords::lemma_unflatten_valid;
use crate::coords::prod;
use crate::coords::unflatten;
use crate::coords::valid_coords;
use crate::extent::Extent;
use crate::slice::index_to_coords;
use crate::slice::seq_int;

/// Errors that can occur when constructing or evaluating a `Point`.
#[derive(Debug, Clone, PartialEq, Eq)]
pub enum PointError {
    /// The number of coordinates does not match the extent's dimensions.
    DimMismatch { expected: usize, actual: usize },
    /// The rank is outside the extent's valid range `[0, total)`.
    OutOfRangeRank { total: usize, rank: usize },
    /// A coordinate is outside its dimension's range `[0, size)`.
    OutOfRangeIndex { size: usize, index: usize },
}

/// A specific coordinate within the space of an [`Extent`], stored as the
/// pair of its row-major rank and the extent itself.
#[derive(Debug, PartialEq, Eq, Hash)]
pub struct Point {
    pub rank: usize,
    pub extent: Extent,
}

impl Clone for Point {
    /// A clone has the same rank and extent.
    fn clone(&self) -> (r: Self)
        ensures
            r.rank == self.rank,
            r.extent.labels@ == self.extent.labels@,
            r.extent.sizes@ == self.extent.sizes@,
    {
        Point { rank: self.rank, extent: self.extent.clone() }
    }
}

impl Point {
    /// Validity: the extent is well-formed and the rank lies inside it.
    pub open spec fn wf(&self) -> bool {
        &&& self.extent.wf()
        &&& self.rank < self.extent.spec_num_ranks()
    }

    /// The coordinate vector this point's rank decodes to.
    pub open spec fn spec_coords(&self) -> Seq<int> {
        unflatten(self.rank as int, self.extent.sizes_int())
    }

    /// Iterate this point's coordinates lazily, one axis at a time, without
    /// materializing the full coordinate vector.
    pub fn coords_iter(&self) -> (r: CoordIter)
        requires
            self.wf(),
        ensures
            r.wf(),
            r.axis == 0,
            r.full@ == self.spec_coords(),
            r.sizes@ == self.extent.sizes@,
    {
        let stride = self.extent.num_ranks();
        let r = CoordIter {
            sizes: self.extent.sizes.clone(),
            rank: self.rank,
            stride,
            axis: 0,
            full: Ghost(self.spec_coords()),
        };
        proof {
            assert(r.sizes_int().skip(0) =~= r.sizes_int());
            assert(unflatten(r.rank as int, r.sizes_int()).skip(0)
                =~= unflatten(r.rank as int, r.sizes_int()));
            assert(all_nonneg(r.sizes_int()));
            lemma_unflatten_valid(self.rank as int, self.extent.sizes_int());
        }
        r
    }

    /// The coordinate of this point along axis `i`; `i` must name an axis.
    pub fn coord(&self, i: usize) -> (r: usize)
        requires
            self.wf(),
            i < self.extent.sizes@.len(),
        ensures
            r == self.spec_coords()[i as int],
    {
        let coords = self.coords();
        coords[i]
    }

    /// The full coordinate vector of this point (allocates).
    pub fn coords(&self) -> (r: Vec<usize>)
        requires
            self.wf(),
        ensures
            seq_int(r@) == self.spec_coords(),
            r@.len() == self.extent.sizes@.len(),
    {
        let r = index_to_coords(&self.extent.sizes, self.rank);
        proof {
            assert(all_nonneg(self.extent.sizes_int()));
            lemma_unflatten_valid(self.rank as int, self.extent.sizes_int());
            assert(seq_int(r@).len() == r@.len());
        }
        r
    }

    /// The row-major rank of this point within its extent.
    pub fn rank(&self) -> (r: usize)
        ensures
            r == self.rank,
    {
        self.rank
    }

    /// The extent defining this point's coordinate space.
    pub fn extent(&self) -> (r: &Extent)
        ensures
            r == &self.extent,
    {
        &self.extent
    }

    /// The number of dimensions of this point's extent.
    pub fn len(&self) -> (r: usize)
        ensures
            r == self.extent.sizes@.len(),
    {
        self.extent.sizes.len()
    }

    /// True iff this point lies in a 0-dimensional extent.
    pub fn is_empty(&self) -> (r: bool)
        ensures
            r == (self.extent.sizes@.len() == 0),
    {
        self.extent.sizes.len() == 0
    }
}

/// An iterator over the coordinates of a [`Point`] in row-major axis order.
/// The `i`-th yielded value is the coordinate along axis `i`. The remaining
/// count is exact: it starts at the number of axes, decreases by exactly one
/// per `next`, and reads `(0, Some(0))` at exhaustion.
pub struct CoordIter {
    pub sizes: Vec<usize>,
    pub rank: usize,
    pub stride: usize,
    pub axis: usize,
    pub full: Ghost<Seq<int>>,
}

impl CoordIter {
    pub open spec fn sizes_int(&self) -> Seq<int> {
        seq_int(self.sizes@)
    }

    pub open spec fn wf(&self) -> bool {
        &&& self.axis <= self.sizes@.len()
        &&& crate::slice::suffixes_bounded(self.sizes_int())
        &&& valid_coords(self.full@, self.sizes_int())
        &&& self.stride == prod(self.sizes_int().skip(self.axis as int))
        &&& 0 <= self.rank < self.stride
        &&& unflatten(self.rank as int, self.sizes_int().skip(self.axis as int))
            == self.full@.skip(self.axis as int)
    }

    /// The exact number of coordinates not yet yielded.
    pub open spec fn spec_remaining(&self) -> int {
        self.sizes@.len() - self.axis
    }

    /// Computes and returns the coordinate for the current axis, then
    /// advances; `None` once all axes are exhausted.
    #[verifier::loop_isolation(false)]
    pub fn next(&mut self) -> (r: Option<usize>)
        requires
            old(self).wf(),
        ensures
            final(self).wf(),
            final(self).sizes@ == old(self).sizes@,
            final(self).full@ == old(self).full@,
            if old(self).axis < old(self).sizes@.len() {
                &&& final(self).axis == old(self).axis + 1
                &&& final(self).spec_remaining() == old(self).spec_remaining() - 1
                &&& r == Some(old(self).full@[old(self).axis as int] as usize)
            } else {
                &&& final(self).axis == old(self).axis
                &&& r is None
            },
    {
        if self.axis >= self.sizes.len() {
            return None;
        }
        let ghost si = self.sizes_int();
        let ghost a = self.axis as int;
        let ghost pre = si.skip(a);
        proof {
            assert(pre[0] == si[a] && pre.skip(1) =~= si.skip(a + 1));
            assert(prod(pre) == pre[0] * prod(pre.skip(1)));
            assert(all_nonneg(pre.skip(1)));
            lemma_prod_nonneg(pre.skip(1));
            assert(prod(pre.skip(1)) > 0 && pre[0] > 0) by (nonlinear_arith)
                requires
                    prod(pre) == pre[0] * prod(pre.skip(1)),
                    prod(pre) > 0,
                    pre[0] >= 0,
                    prod(pre.skip(1)) >= 0;
            assert(prod(pre) / pre[0] == prod(pre.skip(1))) by (nonlinear_arith)
                requires
                    prod(pre) == pre[0] * prod(pre.skip(1)),
                    pre[0] > 0,
                    prod(pre.skip(1)) >= 0;
        }
        self.stride = self.stride / self.sizes[self.axis];
        let ghost rem_pre = self.rank as int;
        let q = self.rank / self.stride;
        proof {
            vstd::arithmetic::div_mod::lemma_fundamental_div_mod(rem_pre, self.stride as int);
        }
        self.rank = self.rank % self.stride;
        self.axis = self.axis + 1;
        proof {
            let u = self.full@;
            assert(unflatten(rem_pre, pre)
                == seq![rem_pre / prod(pre.skip(1))] + unflatten(rem_pre % prod(pre.skip(1)), pre.skip(1)));
            assert(prod(pre.skip(1)) == self.stride);
            assert(u.skip(a) == seq![q as int] + unflatten(self.rank as int, si.skip(a + 1)));
            assert(u[a] == q as int) by {
                assert(u.skip(a)[0] == u[a]);
            }
            assert(unflatten(self.rank as int, si.skip(a + 1)) =~= u.skip(a).skip(1));
            assert(u.skip(a).skip(1) =~= u.skip(a + 1));
            assert(0 <= u[a]);
        }
        Some(q)
    }

    /// The exact number of coordinates remaining, as `(n, Some(n))`.
    pub fn size_hint(&self) -> (r: (usize, Option<usize>))
        ensures
            r.0 == if self.axis <= self.sizes@.len() { self.spec_remaining() } else { 0 },
            r.1 == Some(r.0),
    {
        let rem = if self.axis <= self.sizes.len() { self.sizes.len() - self.axis } else { 0 };
        (rem, Some(rem))
    }

    /// The exact number of coordinates remaining.
    pub fn len(&self) -> (r: usize)
        ensures
            r == if self.axis <= self.sizes@.len() { self.spec_remaining() } else { 0 },
    {
        if self.axis <= self.sizes.len() {
            self.sizes.len() - self.axis
        } else {
            0
        }
    }
}

/// Creating a `Point` from a coordinate vector and an `Extent`: the caller
/// is the coordinate vector, the extent gives the shape context.
pub trait InExtent {
    fn in_(self, extent: &Extent) -> (r: Result<Point, PointError>)
        requires
            extent.wf(),
        ensures
            match r {
                Ok(p) => {
                    &&& valid_coords(self.coords_view(), extent.sizes_int())
                    &&& p.rank == crate::coords::flatten(self.coords_view(), extent.sizes_int())
                    &&& p.extent.labels@ == extent.labels@
                    &&& p.extent.sizes@ == extent.sizes@
                },
                Err(e) => extent.rank_of_coords_failure(self.coords_view(), e),
            },
    ;

    /// The coordinate vector the caller stands for.
    spec fn coords_view(&self) -> Seq<int>;
}

impl InExtent for Vec<usize> {
    /// Creates a `Point` with these coordinates in the given extent;
    /// delegates to [`Extent::point`].
    fn in_(self, extent: &Extent) -> (r: Result<Point, PointError>) {
        extent.point(self)
    }

    open spec fn coords_view(&self) -> Seq<int> {
        seq_int(self@)
    }
}

} // verus!
