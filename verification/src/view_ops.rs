//! View construction on regions and extents: narrowing one dimension with
//! [`Range`], grouping along a dimension, and iterating points and values.
//!
//! Range resolution follows the rectangular algebra: against an axis of size
//! `n`, a selection `(begin, end?, step)` resolves to `end = end.unwrap_or(n)`
//! (clamped to `n`); the narrowed axis has size `ceil((end - begin) / step)`,
//! its stride multiplies by `step`, and the slice offset advances by
//! `begin * old_stride`. A step of 0 or an empty interval is `EmptyRange`.

use vstd::prelude::*;

verus! {

use crate::coords::lemma_prod_nonneg;
use crate::coords::valid_coords;
use crate::coords::all_nonneg;
use crate::coords::prod;
use crate::coords::unflatten;
use crate::extent::Extent;
use crate::point::Point;
use crate::region::Range;
use crate::region::Region;
use crate::region::ViewError;
use crate::slice::dot;
use crate::slice::lemma_dot_le_max;
use crate::slice::lemma_max_dot_nonneg;
use crate::slice::lemma_max_dot_split;
use crate::slice::lemma_max_dot_update;
use crate::slice::lemma_prod_pointwise_le;
use crate::slice::max_dot;
use crate::slice::seq_int;
use crate::slice::Slice;

/// The narrowed size of an axis of size-interval `[begin, end)` stepped by
/// `step`: `ceil((end - begin) / step)`.
pub open spec fn stepped_size(begin: int, end: int, step: int) -> int {
    (end - begin - 1) / step + 1
}

/// Every contiguous run of the size vector has a product that fits in
/// `usize`; grouping materializes the sub-lattice of a leading run.
pub open spec fn subranges_bounded(s: Seq<int>) -> bool {
    forall|i: int, j: int| 0 <= i <= j <= s.len()
        ==> prod(#[trigger] s.subrange(i, j)) <= usize::MAX
}

/// A clone of a vector of strings, element for element.
fn clone_string_vec(v: &Vec<String>) -> (r: Vec<String>)
    ensures
        r@.len() == v@.len(),
        forall|i: int| 0 <= i < v@.len() ==> #[trigger] r@[i]@ == v@[i]@,
        forall|i: int| 0 <= i < v@.len() ==> #[trigger] r@[i] == v@[i],
{
    let r = v.clone();
    proof {
        assert forall|i: int| 0 <= i < v@.len() implies #[trigger] r@[i] == v@[i] by {
            assert(cloned::<String>(v@[i], r@[i]));
        }
    }
    r
}


/// For a narrowing of dimension `d` by `(b, e, sp)`: the `k`-th rank of the
/// narrowed region appears in the base region at the position of the
/// transformed coordinates, with `c_d` mapped to `b + c_d * sp`. Returns the
/// transformed coordinate vector and that base position.
proof fn lemma_range_rank_map(base: &Region, sub: &Region, d: int, b: int, e: int, sp: int, k: int)
    -> (r: (Seq<int>, int))
    requires
        base.wf(),
        0 <= d < base.slice.sizes_int().len(),
        sp >= 1,
        0 <= b < e,
        e <= base.slice.sizes_int()[d],
        base.range_result(d, b, e, sp, *sub),
        0 <= k < sub.spec_num_ranks(),
    ensures
        valid_coords(r.0, base.slice.sizes_int()),
        r.0 == unflatten(k, sub.slice.sizes_int()).update(
            d,
            b + unflatten(k, sub.slice.sizes_int())[d] * sp,
        ),
        r.1 == crate::coords::flatten(r.0, base.slice.sizes_int()),
        0 <= r.1 < base.spec_num_ranks(),
        base.rank_seq()[r.1] == sub.rank_seq()[k],
{
    let si = base.slice.sizes_int();
    let st = base.slice.strides_int();
    let nsi = sub.slice.sizes_int();
    let nst = sub.slice.strides_int();
    let ns = stepped_size(b, e, sp);
    let old_stride = st[d];
    let new_stride = old_stride * sp;
    assert(all_nonneg(si) && all_nonneg(st) && all_nonneg(nsi));
    crate::coords::lemma_unflatten_valid(k, nsi);
    let c = unflatten(k, nsi);
    let cd2 = b + c[d] * sp;
    let c2 = c.update(d, cd2);
    vstd::arithmetic::div_mod::lemma_fundamental_div_mod(e - b - 1, sp);
    assert((ns - 1) * sp <= e - b - 1) by (nonlinear_arith)
        requires
            ns == (e - b - 1) / sp + 1,
            e - b - 1 == sp * ((e - b - 1) / sp) + (e - b - 1) % sp,
            0 <= (e - b - 1) % sp < sp,
            sp >= 1;
    assert(0 <= c[d] < ns);
    assert(c[d] * sp <= (ns - 1) * sp) by (nonlinear_arith)
        requires c[d] <= ns - 1 && sp >= 0;
    assert(c[d] * sp >= 0) by (nonlinear_arith)
        requires c[d] >= 0 && sp >= 0;
    assert(0 <= cd2 < si[d]);
    assert(valid_coords(c2, si)) by {
        assert forall|t: int| 0 <= t < c2.len() implies 0 <= #[trigger] c2[t] < si[t] by {
            if t != d {
                assert(c2[t] == c[t] && nsi[t] == si[t]);
            }
        }
    }
    crate::slice::lemma_dot_update_coord(c, st, d, cd2);
    crate::slice::lemma_dot_update_stride(c, st, d, new_stride);
    assert(nst == st.update(d, new_stride));
    assert(sub.slice.rank_at(c)
        == base.slice.spec_offset() + b * st[d]
            + (dot(c, st) - c[d] * st[d] + c[d] * new_stride));
    assert(base.slice.rank_at(c2)
        == base.slice.spec_offset() + dot(c, st) - c[d] * st[d] + cd2 * st[d]);
    assert(b * st[d] + c[d] * new_stride == cd2 * st[d]) by (nonlinear_arith)
        requires
            cd2 == b + c[d] * sp,
            new_stride == old_stride * sp,
            old_stride == st[d];
    assert(sub.slice.rank_at(c) == base.slice.rank_at(c2));
    crate::coords::lemma_flatten_bounds(c2, si);
    let m = crate::coords::flatten(c2, si);
    crate::coords::lemma_unflatten_flatten(c2, si);
    assert(base.rank_seq()[m] == base.slice.rank_at(c2));
    (c2, m)
}

/// `d` is the first dimension of `labels` named `name`.
pub open spec fn is_first_label(labels: Seq<Seq<char>>, d: int, name: Seq<char>) -> bool {
    &&& 0 <= d < labels.len()
    &&& labels[d] == name
    &&& forall|t: int| 0 <= t < d ==> labels[t] != name
}

impl Region {
    /// What a successful `range` builds: the same labels, with dimension `d`
    /// narrowed to the resolved selection.
    pub open spec fn range_result(&self, d: int, begin: int, end: int, step: int, sub: Region) -> bool {
        &&& sub.labels@ == self.labels@
        &&& sub.slice.spec_offset() == self.slice.spec_offset() + self.slice.strides_int()[d] * begin
        &&& sub.slice.sizes_int() == self.slice.sizes_int().update(d, stepped_size(begin, end, step))
        &&& sub.slice.strides_int() == self.slice.strides_int().update(d, self.slice.strides_int()[d] * step)
        &&& sub.wf()
    }

    /// Narrows the dimension named `dim` to the given selection. Fails with
    /// `InvalidDim` iff no dimension has that name, and with `EmptyRange` iff
    /// the step is 0 or the resolved interval is empty; otherwise the result
    /// is this region with that one dimension's offset, size, and stride
    /// transformed by the range-resolution rules.
    #[verifier::loop_isolation(false)]
    pub fn range(&self, dim: &str, rsel: Range) -> (r: Result<Region, ViewError>)
        requires
            self.wf(),
            forall|t: int| 0 <= t < self.slice.strides_int().len()
                ==> #[trigger] self.slice.strides_int()[t] * rsel.2 <= usize::MAX,
        ensures
            match r {
                Ok(sub) => exists|d: int|
                    {
                        &&& #[trigger] is_first_label(self.labels_view(), d, dim@)
                        &&& self.range_result(
                            d,
                            rsel.0 as int,
                            rsel.spec_end(self.slice.sizes_int()[d]),
                            rsel.2 as int,
                            sub,
                        )
                        &&& rsel.2 >= 1
                        &&& rsel.0 < rsel.spec_end(self.slice.sizes_int()[d])
                        &&& forall|k: int| 0 <= k < sub.spec_num_ranks()
                            ==> self.rank_seq().contains(#[trigger] sub.rank_seq()[k])
                        &&& (self.ordered() ==> sub.ordered())
                    },
                Err(ViewError::InvalidDim(name)) => {
                    &&& name@ == dim@
                    &&& forall|t: int| 0 <= t < self.labels.len() ==> self.labels_view()[t] != dim@
                },
                Err(ViewError::EmptyRange { range, dim: dname, size }) => {
                    &&& range == rsel
                    &&& dname@ == dim@
                    &&& exists|d: int|
                        {
                            &&& #[trigger] is_first_label(self.labels_view(), d, dim@)
                            &&& size == self.slice.sizes_int()[d]
                            &&& (rsel.2 == 0
                                || rsel.spec_end(self.slice.sizes_int()[d]) <= rsel.0)
                        }
                },
                Err(_) => false,
            },
    {
        let d = match self.find_dim(dim) {
            Some(d) => d,
            None => {
                return Err(ViewError::InvalidDim(dim.to_owned()));
            }
        };
        let size = self.slice.sizes[d];
        let (begin, end, step) = rsel.resolve(size);
        if step == 0 || end <= begin {
            return Err(ViewError::EmptyRange { range: rsel, dim: dim.to_owned(), size });
        }
        let ghost si = self.slice.sizes_int();
        let ghost st = self.slice.strides_int();
        let old_stride = self.slice.strides[d];

        proof {
            assert(all_nonneg(si) && all_nonneg(st));
            // begin * old_stride fits: it is at most the dimension's own
            // maximal term, which is bounded by the slice's corner rank.
            lemma_max_dot_split(si, st, d as int);
            lemma_max_dot_nonneg(si.take(d as int), st.take(d as int));
            assert(all_nonneg(si.take(d as int)) && all_nonneg(st.take(d as int))) by {
                assert(forall|t: int| 0 <= t < d ==> si.take(d as int)[t] == si[t]);
                assert(forall|t: int| 0 <= t < d ==> st.take(d as int)[t] == st[t]);
            }
            assert(si.skip(d as int)[0] == si[d as int] && st.skip(d as int)[0] == st[d as int]);
            assert(all_nonneg(si.skip(d as int).skip(1)) && all_nonneg(st.skip(d as int).skip(1)));
            lemma_max_dot_nonneg(si.skip(d as int).skip(1), st.skip(d as int).skip(1));
            assert(max_dot(si.skip(d as int), st.skip(d as int))
                >= (if si[d as int] > 0 { (si[d as int] - 1) * st[d as int] } else { 0 }));
            assert(begin * old_stride <= (si[d as int] - 1) * st[d as int]) by (nonlinear_arith)
                requires
                    0 <= begin,
                    begin <= si[d as int] - 1,
                    old_stride == st[d as int],
                    old_stride >= 0;
        }
        let new_offset = self.slice.offset + begin * old_stride;
        let new_size = (end - begin - 1) / step + 1;
        let new_stride = old_stride * step;

        let mut sizes = self.slice.sizes.clone();
        let mut strides = self.slice.strides.clone();
        proof {
            assert(sizes@ =~= self.slice.sizes@);
            assert(strides@ =~= self.slice.strides@);
        }
        sizes.set(d, new_size);
        strides.set(d, new_stride);

        let ghost nsi = seq_int(sizes@);
        let ghost nst = seq_int(strides@);
        let ghost b = begin as int;
        let ghost e = end as int;
        let ghost sp = step as int;
        proof {
            assert(nsi =~= si.update(d as int, new_size as int));
            assert(nst =~= st.update(d as int, new_stride as int));
            // The narrowed size does not exceed the old one.
            vstd::arithmetic::div_mod::lemma_fundamental_div_mod(e - b - 1, sp);
            assert(new_size <= si[d as int]) by (nonlinear_arith)
                requires
                    new_size == (e - b - 1) / sp + 1,
                    e - b - 1 == sp * ((e - b - 1) / sp) + (e - b - 1) % sp,
                    0 <= (e - b - 1) % sp < sp,
                    sp >= 1,
                    b >= 0,
                    e <= si[d as int],
                    b < e;
            // Suffix products only shrink.
            assert forall|i: int| 0 <= i <= nsi.len() implies
                prod(#[trigger] nsi.skip(i)) <= usize::MAX by {
                assert forall|t: int| 0 <= t < nsi.skip(i).len() implies
                    0 <= #[trigger] nsi.skip(i)[t] <= si.skip(i)[t] by {
                    assert(nsi.skip(i)[t] == nsi[t + i] && si.skip(i)[t] == si[t + i]);
                }
                lemma_prod_pointwise_le(nsi.skip(i), si.skip(i));
                assert(prod(si.skip(i)) <= usize::MAX);
            }
            // The corner rank does not grow.
            assert(new_size >= 1) by (nonlinear_arith)
                requires
                    new_size == (e - b - 1) / sp + 1,
                    e - b - 1 == sp * ((e - b - 1) / sp) + (e - b - 1) % sp,
                    0 <= (e - b - 1) % sp < sp,
                    sp >= 1,
                    e - b - 1 >= 0;
            assert((new_size - 1) * sp <= e - b - 1) by (nonlinear_arith)
                requires
                    new_size == (e - b - 1) / sp + 1,
                    e - b - 1 == sp * ((e - b - 1) / sp) + (e - b - 1) % sp,
                    0 <= (e - b - 1) % sp < sp,
                    sp >= 1;
            lemma_max_dot_update(si, st, d as int, new_size as int, new_stride as int);
            assert((new_size - 1) * new_stride + b * old_stride <= (si[d as int] - 1) * st[d as int])
                by (nonlinear_arith)
                requires
                    new_size >= 1,
                    (new_size - 1) * sp <= e - b - 1,
                    new_stride == old_stride * sp,
                    old_stride == st[d as int],
                    old_stride >= 0,
                    sp >= 1,
                    0 <= b < e,
                    e <= si[d as int];
            assert(new_offset + max_dot(nsi, nst) <= self.slice.offset + max_dot(si, st));
        }
        let sub = Region {
            labels: self.labels.clone(),
            slice: Slice { offset: new_offset, sizes, strides },
        };
        proof {
            let dd = d as int;
            assert(is_first_label(self.labels_view(), dd, dim@));
            assert(sub.labels@ =~= self.labels@);
            assert(sub.wf());
            assert(self.range_result(dd, begin as int, end as int, step as int, sub));
            // Every rank of the narrowed region is a rank of this one: the
            // narrowed coordinates transform back by `c_d -> b + c_d * step`.
            assert forall|k: int| 0 <= k < sub.spec_num_ranks() implies
                self.rank_seq().contains(#[trigger] sub.rank_seq()[k]) by {
                let cm = lemma_range_rank_map(self, &sub, dd, b, e, sp, k);
                assert(self.rank_seq().contains(sub.rank_seq()[k])) by {
                    assert(self.rank_seq()[cm.1] == sub.rank_seq()[k]);
                }
            }
            // The transformation is monotone, so the narrowed enumeration of
            // an ordered region stays strictly increasing.
            if self.ordered() {
                assert(all_nonneg(sub.slice.sizes_int()));
                lemma_prod_nonneg(sub.slice.sizes_int());
                assert(sub.rank_seq().len() == sub.spec_num_ranks());
                assert forall|k1: int, k2: int| 0 <= k1 < k2 < sub.rank_seq().len() implies
                    #[trigger] sub.rank_seq()[k1] < #[trigger] sub.rank_seq()[k2] by {
                    let p1 = lemma_range_rank_map(self, &sub, dd, b, e, sp, k1);
                    let p2 = lemma_range_rank_map(self, &sub, dd, b, e, sp, k2);
                    crate::coords::lemma_unflatten_valid(k1, nsi);
                    crate::coords::lemma_unflatten_valid(k2, nsi);
                    crate::coords::lemma_unflatten_lex_monotone(k1, k2, nsi);
                    crate::coords::lemma_lex_update_affine(
                        unflatten(k1, nsi), unflatten(k2, nsi), dd, b, sp);
                    crate::coords::lemma_flatten_lex_monotone(p1.0, p2.0, si);
                    assert(p1.1 < p2.1);
                    assert(self.rank_seq()[p1.1] < self.rank_seq()[p2.1]);
                }
                assert(sub.ordered());
            }
        }
        Ok(sub)
    }

    /// What each group of a `group_by` at dimension `d` looks like: the
    /// dimensions from `d` onward, based at one rank of the leading
    /// dimensions' sub-lattice.
    pub open spec fn group_result(&self, d: int, g: int, sub: Region) -> bool {
        &&& sub.labels@ == self.labels@.skip(d)
        &&& sub.slice.spec_sizes() == self.slice.spec_sizes().skip(d)
        &&& sub.slice.spec_strides() == self.slice.spec_strides().skip(d)
        &&& sub.slice.spec_offset() == self.slice.spec_offset()
            + dot(unflatten(g, self.slice.sizes_int().take(d)), self.slice.strides_int().take(d))
        &&& sub.wf()
    }

    /// Groups this region along the dimension named `dim`: one sub-region per
    /// point of the dimensions strictly before `dim`, each spanning the
    /// dimensions from `dim` to the last. Fails with `InvalidDim` iff no
    /// dimension has that name.
    #[verifier::loop_isolation(false)]
    pub fn group_by(&self, dim: &str) -> (r: Result<Vec<Region>, ViewError>)
        requires
            self.wf(),
            subranges_bounded(self.slice.sizes_int()),
        ensures
            match r {
                Ok(groups) => exists|d: int|
                    {
                        &&& #[trigger] is_first_label(self.labels_view(), d, dim@)
                        &&& groups@.len() == prod(self.slice.sizes_int().take(d))
                        &&& forall|g: int| 0 <= g < groups@.len()
                            ==> self.group_result(d, g, #[trigger] groups@[g])
                    },
                Err(ViewError::InvalidDim(name)) => {
                    &&& name@ == dim@
                    &&& forall|t: int| 0 <= t < self.labels.len() ==> self.labels_view()[t] != dim@
                },
                Err(_) => false,
            },
    {
        let d = match self.find_dim(dim) {
            Some(d) => d,
            None => {
                return Err(ViewError::InvalidDim(dim.to_owned()));
            }
        };
        let ghost si = self.slice.sizes_int();
        let ghost st = self.slice.strides_int();
        let n = self.slice.sizes.len();

        // Split the dimension vectors at `d`.
        let mut psizes: Vec<usize> = Vec::new();
        let mut pstrides: Vec<usize> = Vec::new();
        let mut i: usize = 0;
        while i < d
            invariant
                i <= d <= n,
                n == self.slice.sizes.len() == self.slice.strides.len(),
                psizes@ == self.slice.sizes@.take(i as int),
                pstrides@ == self.slice.strides@.take(i as int),
            decreases d - i,
        {
            psizes.push(self.slice.sizes[i]);
            pstrides.push(self.slice.strides[i]);
            i = i + 1;
            proof {
                assert(psizes@ =~= self.slice.sizes@.take(i as int));
                assert(pstrides@ =~= self.slice.strides@.take(i as int));
            }
        }
        let mut ssizes: Vec<usize> = Vec::new();
        let mut sstrides: Vec<usize> = Vec::new();
        let mut slabels: Vec<String> = Vec::new();
        let mut j: usize = d;
        while j < n
            invariant
                d <= j <= n,
                n == self.slice.sizes.len() == self.slice.strides.len() == self.labels.len(),
                ssizes@ == self.slice.sizes@.subrange(d as int, j as int),
                sstrides@ == self.slice.strides@.subrange(d as int, j as int),
                slabels@.len() == j - d,
                forall|t: int| 0 <= t < j - d
                    ==> #[trigger] slabels@[t] == self.labels@[d + t],
            decreases n - j,
        {
            ssizes.push(self.slice.sizes[j]);
            sstrides.push(self.slice.strides[j]);
            slabels.push(self.labels[j].clone());
            j = j + 1;
            proof {
                assert(ssizes@ =~= self.slice.sizes@.subrange(d as int, j as int));
                assert(sstrides@ =~= self.slice.strides@.subrange(d as int, j as int));
            }
        }
        proof {
            assert(ssizes@ =~= self.slice.sizes@.skip(d as int));
            assert(sstrides@ =~= self.slice.strides@.skip(d as int));
            assert(seq_int(ssizes@) =~= si.skip(d as int));
            assert(seq_int(sstrides@) =~= st.skip(d as int));
            assert(seq_int(psizes@) =~= si.take(d as int));
            assert(seq_int(pstrides@) =~= st.take(d as int));
        }

        // The sub-lattice of the leading dimensions, rooted at this region's
        // own offset.
        let prefix = Slice { offset: self.slice.offset, sizes: psizes, strides: pstrides };
        proof {
            assert(all_nonneg(si) && all_nonneg(st));
            assert forall|t: int| 0 <= t <= prefix.sizes_int().len() implies
                prod(#[trigger] prefix.sizes_int().skip(t)) <= usize::MAX by {
                assert(prefix.sizes_int().skip(t) =~= si.subrange(t, d as int));
                assert(prod(si.subrange(t, d as int)) <= usize::MAX);
            }
            lemma_max_dot_split(si, st, d as int);
            assert(all_nonneg(si.skip(d as int)) && all_nonneg(st.skip(d as int)));
            lemma_max_dot_nonneg(si.skip(d as int), st.skip(d as int));
            assert(prefix.wf());
        }
        let plen = prefix.len();
        let mut groups: Vec<Region> = Vec::new();
        let mut g: usize = 0;
        while g < plen
            invariant
                g <= plen,
                plen == prod(si.take(d as int)),
                0 <= d <= n,
                n == self.slice.sizes.len() == self.slice.strides.len() == self.labels.len(),
                self.wf(),
                prefix.wf(),
                prefix.spec_offset() == self.slice.spec_offset(),
                prefix.sizes_int() == si.take(d as int),
                prefix.strides_int() == st.take(d as int),
                si == self.slice.sizes_int(),
                st == self.slice.strides_int(),
                seq_int(ssizes@) == si.skip(d as int),
                seq_int(sstrides@) == st.skip(d as int),
                ssizes@ == self.slice.sizes@.skip(d as int),
                sstrides@ == self.slice.strides@.skip(d as int),
                slabels@.len() == n - d,
                forall|t: int| 0 <= t < n - d
                    ==> #[trigger] slabels@[t] == self.labels@[d + t],
                groups@.len() == g,
                forall|t: int| 0 <= t < g
                    ==> self.group_result(d as int, t, #[trigger] groups@[t]),
            decreases plen - g,
        {
            let base = prefix.get(g).unwrap();
            let gsizes = ssizes.clone();
            let gstrides = sstrides.clone();
            let glabels = clone_string_vec(&slabels);
            proof {
                assert(gsizes@ =~= ssizes@);
                assert(gstrides@ =~= sstrides@);
            }
            let sub = Region {
                labels: glabels,
                slice: Slice { offset: base, sizes: gsizes, strides: gstrides },
            };
            proof {
                // The group's slice is well-formed: its base rank plus its
                // corner stays below the region's own corner.
                assert forall|t: int| 0 <= t <= sub.slice.sizes_int().len() implies
                    prod(#[trigger] sub.slice.sizes_int().skip(t)) <= usize::MAX by {
                    assert(sub.slice.sizes_int().skip(t) =~= si.skip(d + t));
                    assert(prod(si.skip(d + t)) <= usize::MAX);
                }
                let u = unflatten(g as int, prefix.sizes_int());
                crate::coords::lemma_unflatten_valid(g as int, prefix.sizes_int());
                lemma_dot_le_max(u, prefix.sizes_int(), prefix.strides_int());
                assert(base == self.slice.spec_offset() + dot(u, prefix.strides_int()));
                assert(base + max_dot(sub.slice.sizes_int(), sub.slice.strides_int())
                    <= self.slice.spec_offset() + max_dot(si, st));
                assert(sub.wf());
                assert(sub.labels@ =~= self.labels@.skip(d as int)) by {
                    assert forall|t: int| 0 <= t < n - d implies
                        #[trigger] sub.labels@[t] == self.labels@.skip(d as int)[t] by {
                        assert(sub.labels@[t] == slabels@[t]);
                        assert(slabels@[t] == self.labels@[d + t]);
                    }
                }
                assert(self.group_result(d as int, g as int, sub));
            }
            groups.push(sub);
            g = g + 1;
        }
        Ok(groups)
    }

    /// The values of this region as a view: its enumerated base ranks, in
    /// row-major coordinate order.
    #[verifier::loop_isolation(false)]
    pub fn values(&self) -> (r: Vec<usize>)
        requires
            self.wf(),
        ensures
            r@.len() == self.spec_num_ranks(),
            forall|k: int| 0 <= k < r@.len() ==> #[trigger] r@[k] == self.rank_seq()[k],
    {
        let n = self.num_ranks();
        let mut out: Vec<usize> = Vec::new();
        let mut k: usize = 0;
        while k < n
            invariant
                k <= n,
                n == self.spec_num_ranks(),
                out@.len() == k,
                forall|t: int| 0 <= t < k ==> #[trigger] out@[t] == self.rank_seq()[t],
            decreases n - k,
        {
            let v = self.slice.get(k).unwrap();
            out.push(v);
            k = k + 1;
        }
        out
    }

    /// Iterate `(point, base rank)` pairs over this region: the point is the
    /// position within the region's own extent, the value is the region's
    /// enumerated rank there.
    pub fn iter(&self) -> (r: ViewIterator)
        requires
            self.wf(),
        ensures
            r.wf(),
            r.index == 0,
            r.region.labels@ == self.labels@,
            r.region.slice.spec_offset() == self.slice.spec_offset(),
            r.region.slice.spec_sizes() == self.slice.spec_sizes(),
            r.region.slice.spec_strides() == self.slice.spec_strides(),
    {
        let r = ViewIterator { region: self.clone(), index: 0 };
        proof {
            assert(all_nonneg(r.region.slice.sizes_int()));
            lemma_prod_nonneg(r.region.slice.sizes_int());
        }
        r
    }

    /// The position of the first dimension with the given label, if any.
    pub fn find_dim(&self, dim: &str) -> (r: Option<usize>)
        ensures
            match r {
                Some(d) => is_first_label(self.labels_view(), d as int, dim@),
                None => forall|t: int| 0 <= t < self.labels.len() ==> self.labels_view()[t] != dim@,
            },
    {
        let needle: String = dim.to_owned();
        let n = self.labels.len();
        let mut j: usize = 0;
        while j < n
            invariant
                j <= n,
                n == self.labels.len(),
                needle@ == dim@,
                forall|t: int| 0 <= t < j ==> self.labels_view()[t] != dim@,
            decreases n - j,
        {
            if self.labels[j] == needle {
                assert(self.labels_view()[j as int] == dim@);
                return Some(j);
            }
            assert(self.labels_view()[j as int] != dim@);
            j = j + 1;
        }
        None
    }
}

/// An iterator over the `(point, base rank)` pairs of a region's view.
pub struct ViewIterator {
    pub region: Region,
    pub index: usize,
}

impl ViewIterator {
    pub open spec fn wf(&self) -> bool {
        &&& self.region.wf()
        &&& self.index <= self.region.spec_num_ranks()
    }

    /// Yields the next pair, or `None` after one pair per rank of the region.
    pub fn next(&mut self) -> (r: Option<(Point, usize)>)
        requires
            old(self).wf(),
        ensures
            final(self).wf(),
            final(self).region == old(self).region,
            if old(self).index < old(self).region.spec_num_ranks() {
                &&& final(self).index == old(self).index + 1
                &&& match r {
                    Some(pv) => {
                        &&& pv.0.rank == old(self).index
                        &&& pv.0.extent.labels@ == old(self).region.labels@
                        &&& pv.0.extent.sizes@ == old(self).region.slice.spec_sizes()
                        &&& pv.1 == old(self).region.rank_seq()[old(self).index as int]
                    },
                    None => false,
                }
            } else {
                &&& final(self).index == old(self).index
                &&& r is None
            },
    {
        let n = self.region.num_ranks();
        if self.index >= n {
            return None;
        }
        let value = self.region.slice.get(self.index).unwrap();
        let point = Point { rank: self.index, extent: self.region.extent() };
        self.index = self.index + 1;
        Some((point, value))
    }
}

impl Extent {
    /// This extent as a region: the dense row-major covering of the whole
    /// space. Its enumeration is the identity on ranks, and in particular is
    /// strictly increasing.
    pub fn region(&self) -> (r: Region)
        requires
            self.wf(),
        ensures
            r.wf(),
            r.labels@ == self.labels@,
            r.slice.spec_offset() == 0,
            r.slice.spec_sizes() == self.sizes@,
            r.slice.strides_int() == crate::slice::rm_strides(self.sizes_int()),
            r.spec_num_ranks() == self.spec_num_ranks(),
            forall|k: int| 0 <= k < r.spec_num_ranks() ==> #[trigger] r.rank_seq()[k] == k,
            r.ordered(),
    {
        let r = Region { labels: self.labels.clone(), slice: self.to_slice() };
        proof {
            assert(r.labels@ =~= self.labels@);
            assert(all_nonneg(r.slice.sizes_int()));
            assert forall|k: int| 0 <= k < r.spec_num_ranks() implies
                #[trigger] r.rank_seq()[k] == k by {
                crate::coords::lemma_unflatten_valid(k, r.slice.sizes_int());
                crate::slice::lemma_dot_rm_flatten(
                    unflatten(k, r.slice.sizes_int()), r.slice.sizes_int());
                crate::coords::lemma_flatten_unflatten(k, r.slice.sizes_int());
            }
        }
        r
    }

    /// Returns `region` when it is a subset of this extent's full region.
    pub fn subset(&self, region: Region) -> (r: Result<Region, ViewError>)
        requires
            self.wf(),
            region.wf(),
    {
        self.region().subset(region)
    }

    /// Narrows the dimension named `dim` of this extent's full region; see
    /// [`Region::range`].
    pub fn range(&self, dim: &str, rsel: Range) -> (r: Result<Region, ViewError>)
        requires
            self.wf(),
            forall|t: int| 0 <= t < self.sizes@.len()
                ==> prod(#[trigger] self.sizes_int().skip(t + 1)) * rsel.2 <= usize::MAX,
        ensures
            match r {
                Ok(sub) => sub.wf() && sub.labels@ == self.labels@,
                Err(ViewError::InvalidDim(name)) => {
                    &&& name@ == dim@
                    &&& forall|t: int| 0 <= t < self.labels.len() ==> self.labels_view()[t] != dim@
                },
                Err(ViewError::EmptyRange { range, dim: dname, size }) => {
                    &&& range == rsel
                    &&& dname@ == dim@
                },
                Err(_) => false,
            },
    {
        let base = self.region();
        proof {
            assert(base.labels_view() =~= self.labels_view());
            assert forall|t: int| 0 <= t < base.slice.strides_int().len() implies
                #[trigger] base.slice.strides_int()[t] * rsel.2 <= usize::MAX by {
                assert(base.slice.strides_int()[t] == prod(self.sizes_int().skip(t + 1)));
            }
        }
        let r = base.range(dim, rsel);
        proof {
            if let Ok(sub) = &r {
                let d = choose|d: int| #[trigger] is_first_label(base.labels_view(), d, dim@)
                    && base.range_result(
                        d,
                        rsel.0 as int,
                        rsel.spec_end(base.slice.sizes_int()[d]),
                        rsel.2 as int,
                        *sub,
                    );
                assert(sub.labels@ == self.labels@);
            }
        }
        r
    }

    /// Groups this extent's full region along the dimension named `dim`; see
    /// [`Region::group_by`].
    pub fn group_by(&self, dim: &str) -> (r: Result<Vec<Region>, ViewError>)
        requires
            self.wf(),
            subranges_bounded(self.sizes_int()),
        ensures
            match r {
                Ok(groups) => forall|g: int| 0 <= g < groups@.len() ==> (#[trigger] groups@[g]).wf(),
                Err(ViewError::InvalidDim(name)) => {
                    &&& name@ == dim@
                    &&& forall|t: int| 0 <= t < self.labels.len() ==> self.labels_view()[t] != dim@
                },
                Err(_) => false,
            },
    {
        let base = self.region();
        proof {
            assert(base.labels_view() =~= self.labels_view());
            assert(base.slice.sizes_int() == self.sizes_int());
        }
        let r = base.group_by(dim);
        proof {
            if let Ok(groups) = &r {
                let d = choose|d: int| #[trigger] is_first_label(base.labels_view(), d, dim@)
                    && groups@.len() == prod(base.slice.sizes_int().take(d))
                    && forall|g: int| 0 <= g < groups@.len()
                        ==> base.group_result(d, g, #[trigger] groups@[g]);
                assert forall|g: int| 0 <= g < groups@.len() implies
                    (#[trigger] groups@[g]).wf() by {
                    assert(base.group_result(d, g, groups@[g]));
                }
            }
        }
        r
    }

    /// The item of this extent's view at `rank`: the rank itself when it is
    /// inside the space.
    pub fn get(&self, rank: usize) -> (r: Option<usize>)
        requires
            self.wf(),
        ensures
            match r {
                Some(v) => rank < self.spec_num_ranks() && v == rank,
                None => rank >= self.spec_num_ranks(),
            },
    {
        if rank < self.num_ranks() {
            Some(rank)
        } else {
            None
        }
    }

    /// The values of this extent viewed as a region: the ranks themselves,
    /// `0, 1, ..., num_ranks - 1` in order.
    pub fn values(&self) -> (r: Vec<usize>)
        requires
            self.wf(),
        ensures
            r@.len() == self.spec_num_ranks(),
            forall|k: int| 0 <= k < r@.len() ==> #[trigger] r@[k] == k,
    {
        self.region().values()
    }
}

} // verus!
