//! A compact description of a set of ranks inside a larger row-major space:
//! an offset, per-dimension sizes, and per-dimension strides. The rank at
//! coordinates `c` is `offset + sum_i c_i * strides_i`; ranks are enumerated
//! with the coordinates in row-major order.

use vstd::prelude::*;

verus! {

use crate::coords::all_nonneg;
use crate::coords::flatten;
use crate::coords::lemma_prod_nonneg;
use crate::coords::lemma_prod_pos_factors;
use crate::coords::lemma_unflatten_valid;
use crate::coords::prod;
use crate::coords::unflatten;
use crate::coords::valid_coords;

/// Errors from constructing or indexing a [`Slice`].
#[derive(Debug, Clone, PartialEq, Eq)]
pub enum SliceError {
    /// The number of sizes does not match the number of strides.
    DimMismatch { num_sizes: usize, num_strides: usize },
    /// Some rank described by the slice does not fit in `usize`.
    Overflow,
    /// The requested index lies outside the slice.
    OutOfRange { len: usize, index: usize },
    /// The given base rank is not a member of the slice.
    NotInSlice { value: usize },
}

/// The view of a `Vec<usize>` as a sequence of mathematical integers.
pub open spec fn seq_int(v: Seq<usize>) -> Seq<int> {
    v.map_values(|x: usize| x as int)
}

/// Inner product of a coordinate vector with a stride vector.
pub open spec fn dot(c: Seq<int>, st: Seq<int>) -> int
    decreases c.len(),
{
    if c.len() == 0 {
        0
    } else {
        c[0] * st[0] + dot(c.skip(1), st.skip(1))
    }
}

/// The largest value `dot(c, st)` can take over valid coordinates: every
/// coordinate at its maximum `s_i - 1` (0 where a dimension is empty).
pub open spec fn max_dot(s: Seq<int>, st: Seq<int>) -> int
    decreases s.len(),
{
    if s.len() == 0 {
        0
    } else {
        (if s[0] > 0 { (s[0] - 1) * st[0] } else { 0 }) + max_dot(s.skip(1), st.skip(1))
    }
}

pub proof fn lemma_dot_nonneg(c: Seq<int>, st: Seq<int>)
    requires
        c.len() == st.len(),
        all_nonneg(c),
        all_nonneg(st),
    ensures
        dot(c, st) >= 0,
    decreases c.len(),
{
    if c.len() > 0 {
        assert(all_nonneg(c.skip(1)) && all_nonneg(st.skip(1)));
        lemma_dot_nonneg(c.skip(1), st.skip(1));
        assert(c[0] * st[0] >= 0) by (nonlinear_arith)
            requires c[0] >= 0 && st[0] >= 0;
    }
}

/// Valid coordinates never exceed the all-maximal corner.
pub proof fn lemma_dot_le_max(c: Seq<int>, s: Seq<int>, st: Seq<int>)
    requires
        valid_coords(c, s),
        s.len() == st.len(),
        all_nonneg(st),
    ensures
        dot(c, st) <= max_dot(s, st),
    decreases c.len(),
{
    if c.len() > 0 {
        let (ct, stt, st2) = (c.skip(1), s.skip(1), st.skip(1));
        assert(valid_coords(ct, stt)) by {
            assert forall|i: int| 0 <= i < ct.len() implies 0 <= #[trigger] ct[i] < stt[i] by {
                assert(ct[i] == c[i + 1] && stt[i] == s[i + 1]);
            }
        }
        assert(all_nonneg(st2));
        lemma_dot_le_max(ct, stt, st2);
        assert(0 <= c[0] < s[0]);
        assert(c[0] * st[0] <= (s[0] - 1) * st[0]) by (nonlinear_arith)
            requires 0 <= c[0] <= s[0] - 1 && st[0] >= 0;
    }
}

/// The product of every suffix of the size vector fits in `usize`. This is
/// what the row-major stride accumulators compute while linearizing.
pub open spec fn suffixes_bounded(s: Seq<int>) -> bool {
    forall|i: int| 0 <= i <= s.len() ==> prod(#[trigger] s.skip(i)) <= usize::MAX
}

pub proof fn lemma_max_dot_nonneg(s: Seq<int>, st: Seq<int>)
    requires
        s.len() == st.len(),
        all_nonneg(s),
        all_nonneg(st),
    ensures
        max_dot(s, st) >= 0,
    decreases s.len(),
{
    if s.len() > 0 {
        assert(all_nonneg(s.skip(1)) && all_nonneg(st.skip(1)));
        lemma_max_dot_nonneg(s.skip(1), st.skip(1));
        if s[0] > 0 {
            assert((s[0] - 1) * st[0] >= 0) by (nonlinear_arith)
                requires s[0] >= 1 && st[0] >= 0;
        }
    }
}

/// A possibly-sparse rectangular selection of ranks in a larger space.
#[derive(Debug, PartialEq, Eq, Hash)]
pub struct Slice {
    pub offset: usize,
    pub sizes: Vec<usize>,
    pub strides: Vec<usize>,
}

impl Slice {
    pub open spec fn spec_offset(&self) -> int {
        self.offset as int
    }

    pub open spec fn spec_sizes(&self) -> Seq<usize> {
        self.sizes@
    }

    pub open spec fn spec_strides(&self) -> Seq<usize> {
        self.strides@
    }

    /// Dimension sizes as mathematical integers.
    pub open spec fn sizes_int(&self) -> Seq<int> {
        seq_int(self.sizes@)
    }

    /// Dimension strides as mathematical integers.
    pub open spec fn strides_int(&self) -> Seq<int> {
        seq_int(self.strides@)
    }

    /// Number of ranks the slice enumerates.
    pub open spec fn spec_len(&self) -> int {
        prod(self.sizes_int())
    }

    /// Well-formedness: parallel dimension vectors, and every quantity the
    /// slice can describe fits in `usize`.
    pub open spec fn wf(&self) -> bool {
        &&& self.sizes.len() == self.strides.len()
        &&& suffixes_bounded(self.sizes_int())
        &&& self.offset + max_dot(self.sizes_int(), self.strides_int()) <= usize::MAX
    }

    /// The rank at (valid) coordinates `c`.
    pub open spec fn rank_at(&self, c: Seq<int>) -> int {
        self.offset + dot(c, self.strides_int())
    }

    /// The ranks the slice enumerates, in row-major coordinate order.
    pub open spec fn rank_seq(&self) -> Seq<int> {
        Seq::new(self.spec_len() as nat, |k: int| self.rank_at(unflatten(k, self.sizes_int())))
    }

    /// Every rank of a well-formed slice is in `[0, usize::MAX]`.
    pub proof fn lemma_rank_seq_bounds(&self)
        requires
            self.wf(),
        ensures
            forall|k: int| 0 <= k < self.spec_len() ==> 0 <= #[trigger] self.rank_seq()[k] <= usize::MAX,
    {
        let s = self.sizes_int();
        let st = self.strides_int();
        assert(all_nonneg(s) && all_nonneg(st));
        assert forall|k: int| 0 <= k < self.spec_len() implies
            0 <= #[trigger] self.rank_seq()[k] <= usize::MAX by {
            lemma_unflatten_valid(k, s);
            let c = unflatten(k, s);
            lemma_dot_le_max(c, s, st);
            assert(all_nonneg(c));
            lemma_dot_nonneg(c, st);
        }
    }

    /// Creates a slice, validating that the dimension vectors are parallel
    /// and that every described rank fits in `usize`.
    #[verifier::loop_isolation(false)]
    pub fn new(offset: usize, sizes: Vec<usize>, strides: Vec<usize>) -> (r: Result<Slice, SliceError>)
        ensures
            match r {
                Ok(s) => {
                    &&& s.wf()
                    &&& s.spec_offset() == offset
                    &&& s.spec_sizes() == sizes@
                    &&& s.spec_strides() == strides@
                },
                Err(SliceError::DimMismatch { num_sizes, num_strides }) => {
                    &&& sizes.len() != strides.len()
                    &&& num_sizes == sizes.len()
                    &&& num_strides == strides.len()
                },
                Err(SliceError::Overflow) => {
                    &&& sizes.len() == strides.len()
                    &&& (!suffixes_bounded(seq_int(sizes@))
                        || offset + max_dot(seq_int(sizes@), seq_int(strides@)) > usize::MAX)
                },
                Err(_) => false,
            },
    {
        if sizes.len() != strides.len() {
            return Err(SliceError::DimMismatch {
                num_sizes: sizes.len(),
                num_strides: strides.len(),
            });
        }
        let s = Slice { offset, sizes, strides };
        let n = s.sizes.len();

        // Check prod(sizes) <= usize::MAX, accumulating from the right so the
        // partial product equals prod of the processed suffix.
        let mut p: usize = 1;
        let mut i: usize = n;
        while i > 0
            invariant
                i <= n,
                n == s.sizes.len(),
                p == prod(s.sizes_int().skip(i as int)),
                forall|t: int| i <= t <= n ==> prod(#[trigger] s.sizes_int().skip(t)) <= usize::MAX,
            decreases i,
        {
            i = i - 1;
            let ghost pre = s.sizes_int().skip(i as int);
            assert(pre[0] == s.sizes[i as int] && pre.skip(1) =~= s.sizes_int().skip(i + 1));
            match s.sizes[i].checked_mul(p) {
                Some(np) => {
                    p = np;
                }
                None => {
                    proof {
                        assert(prod(pre) == pre[0] * prod(pre.skip(1)));
                        assert(prod(s.sizes_int().skip(i as int)) > usize::MAX);
                        assert(!suffixes_bounded(s.sizes_int()));
                    }
                    return Err(SliceError::Overflow);
                }
            }
        }

        // Check offset + max_dot(sizes, strides) <= usize::MAX the same way.
        let mut m: usize = s.offset;
        let mut j: usize = n;
        while j > 0
            invariant
                j <= n,
                n == s.sizes.len() == s.strides.len(),
                m == s.offset + max_dot(s.sizes_int().skip(j as int), s.strides_int().skip(j as int)),
                m <= usize::MAX,
            decreases j,
        {
            j = j - 1;
            let ghost szs = s.sizes_int().skip(j as int);
            let ghost sts = s.strides_int().skip(j as int);
            assert(szs[0] == s.sizes[j as int] && szs.skip(1) =~= s.sizes_int().skip(j + 1));
            assert(sts[0] == s.strides[j as int] && sts.skip(1) =~= s.strides_int().skip(j + 1));
            let sz = s.sizes[j];
            if sz > 0 {
                let term = match (sz - 1).checked_mul(s.strides[j]) {
                    Some(t) => t,
                    None => {
                        proof {
                            assert(all_nonneg(s.sizes_int().skip(j + 1)));
                            assert(all_nonneg(s.strides_int().skip(j + 1)));
                            lemma_max_dot_nonneg(s.sizes_int().skip(j + 1), s.strides_int().skip(j + 1));
                            assert(max_dot(szs, sts)
                                == (szs[0] - 1) * sts[0] + max_dot(szs.skip(1), sts.skip(1)));
                            assert(s.offset + max_dot(szs, sts) > usize::MAX);
                            lemma_max_dot_mono(s.sizes_int(), s.strides_int(), j as int);
                        }
                        return Err(SliceError::Overflow);
                    }
                };
                m = match m.checked_add(term) {
                    Some(nm) => nm,
                    None => {
                        proof {
                            assert(max_dot(szs, sts)
                                == (szs[0] - 1) * sts[0] + max_dot(szs.skip(1), sts.skip(1)));
                            assert(s.offset + max_dot(szs, sts) > usize::MAX);
                            lemma_max_dot_mono(s.sizes_int(), s.strides_int(), j as int);
                        }
                        return Err(SliceError::Overflow);
                    }
                };
            }
        }
        assert(s.sizes_int().skip(0) =~= s.sizes_int());
        assert(s.strides_int().skip(0) =~= s.strides_int());
        Ok(s)
    }
}

/// `offset + max_dot` over a suffix is a lower bound for the whole: the terms
/// dropped on the left are nonnegative.
pub proof fn lemma_max_dot_mono(s: Seq<int>, st: Seq<int>, i: int)
    requires
        s.len() == st.len(),
        all_nonneg(s),
        all_nonneg(st),
        0 <= i <= s.len(),
    ensures
        max_dot(s.skip(i), st.skip(i)) <= max_dot(s, st),
    decreases i,
{
    if i == 0 {
        assert(s.skip(0) =~= s);
        assert(st.skip(0) =~= st);
    } else {
        let (t, u) = (s.skip(1), st.skip(1));
        assert(all_nonneg(t) && all_nonneg(u));
        lemma_max_dot_mono(t, u, i - 1);
        assert(t.skip(i - 1) =~= s.skip(i));
        assert(u.skip(i - 1) =~= st.skip(i));
        assert(max_dot(s.skip(i), st.skip(i)) <= max_dot(t, u));
        if s[0] > 0 {
            assert((s[0] - 1) * st[0] >= 0) by (nonlinear_arith)
                requires s[0] >= 1 && st[0] >= 0;
        }
        assert(max_dot(s, st) >= max_dot(t, u));
    }
}

/// The canonical row-major strides for the given sizes: the stride of each
/// dimension is the number of ranks spanned by the dimensions after it.
pub open spec fn rm_strides(s: Seq<int>) -> Seq<int> {
    Seq::new(s.len(), |i: int| prod(s.skip(i + 1)))
}

/// With row-major strides, the inner product is exactly the row-major
/// linearization.
pub proof fn lemma_dot_rm_flatten(c: Seq<int>, s: Seq<int>)
    requires
        c.len() == s.len(),
    ensures
        dot(c, rm_strides(s)) == flatten(c, s),
    decreases s.len(),
{
    if s.len() > 0 {
        lemma_dot_rm_flatten(c.skip(1), s.skip(1));
        let r = rm_strides(s);
        assert(r.skip(1) =~= rm_strides(s.skip(1))) by {
            assert forall|i: int| 0 <= i < s.len() - 1 implies
                r.skip(1)[i] == #[trigger] rm_strides(s.skip(1))[i] by {
                assert(s.skip(1).skip(i + 1) =~= s.skip(i + 2));
            }
        }
        assert(r[0] == prod(s.skip(1)));
        assert(dot(c, r) == c[0] * r[0] + dot(c.skip(1), r.skip(1)));
    }
}

/// The largest product among all suffixes of `s`.
pub open spec fn max_suffix_prod(s: Seq<int>) -> int
    decreases s.len(),
{
    if s.len() == 0 {
        1
    } else if prod(s) >= max_suffix_prod(s.skip(1)) {
        prod(s)
    } else {
        max_suffix_prod(s.skip(1))
    }
}

/// The corner rank of a row-major layout lies below the largest suffix
/// product, so a size vector with bounded suffix products describes a layout
/// whose every rank fits.
pub proof fn lemma_rm_max_dot(s: Seq<int>)
    requires
        all_nonneg(s),
    ensures
        max_dot(s, rm_strides(s)) + 1 <= max_suffix_prod(s),
        prod(s) > 0 ==> max_suffix_prod(s) == prod(s),
    decreases s.len(),
{
    if s.len() == 0 {
    } else {
        let t = s.skip(1);
        assert(all_nonneg(t));
        lemma_rm_max_dot(t);
        let r = rm_strides(s);
        assert(r.skip(1) =~= rm_strides(t)) by {
            assert forall|i: int| 0 <= i < t.len() implies
                r.skip(1)[i] == #[trigger] rm_strides(t)[i] by {
                assert(t.skip(i + 1) =~= s.skip(i + 2));
            }
        }
        let p1 = prod(t);
        lemma_prod_nonneg(t);
        assert(max_dot(s, r) == (if s[0] > 0 { (s[0] - 1) * r[0] } else { 0 }) + max_dot(t, r.skip(1)));
        assert(r[0] == p1);
        if s[0] == 0 {
            assert(prod(s) == 0) by (nonlinear_arith)
                requires s[0] == 0 && prod(s) == s[0] * p1;
            assert(max_suffix_prod(s) == max_suffix_prod(t));
        } else {
            if p1 == 0 {
                assert((s[0] - 1) * p1 == 0) by (nonlinear_arith)
                    requires p1 == 0;
                assert(prod(s) == 0) by (nonlinear_arith)
                    requires p1 == 0 && prod(s) == s[0] * p1;
                assert(max_suffix_prod(t) >= 1) by {
                    lemma_msp_ge_one(t);
                }
                assert(max_suffix_prod(s) == max_suffix_prod(t));
            } else {
                assert(max_suffix_prod(t) == p1);
                assert(max_dot(s, r) + 1 <= (s[0] - 1) * p1 + p1);
                assert((s[0] - 1) * p1 + p1 == s[0] * p1) by (nonlinear_arith);
                assert(prod(s) == s[0] * p1);
                assert(prod(s) >= p1) by (nonlinear_arith)
                    requires s[0] >= 1 && p1 >= 0 && prod(s) == s[0] * p1;
                assert(max_suffix_prod(s) == prod(s));
            }
        }
    }
}

pub proof fn lemma_msp_ge_one(s: Seq<int>)
    ensures
        max_suffix_prod(s) >= 1,
    decreases s.len(),
{
    if s.len() > 0 {
        lemma_msp_ge_one(s.skip(1));
    }
}

/// Under bounded suffix products, the largest suffix product itself fits.
pub proof fn lemma_msp_bounded(s: Seq<int>)
    requires
        suffixes_bounded(s),
    ensures
        max_suffix_prod(s) <= usize::MAX,
    decreases s.len(),
{
    if s.len() == 0 {
        assert(s.skip(0) =~= s);
        assert(prod(s.skip(0)) <= usize::MAX);
    } else {
        assert(suffixes_bounded(s.skip(1))) by {
            assert forall|i: int| 0 <= i <= s.len() - 1 implies
                prod(#[trigger] s.skip(1).skip(i)) <= usize::MAX by {
                assert(s.skip(1).skip(i) =~= s.skip(i + 1));
            }
        }
        lemma_msp_bounded(s.skip(1));
        assert(s.skip(0) =~= s);
        assert(prod(s.skip(0)) <= usize::MAX);
    }
}

/// Splitting the maximal inner product at position `i`.
pub proof fn lemma_max_dot_split(s: Seq<int>, st: Seq<int>, i: int)
    requires
        s.len() == st.len(),
        0 <= i <= s.len(),
    ensures
        max_dot(s, st) == max_dot(s.take(i), st.take(i)) + max_dot(s.skip(i), st.skip(i)),
    decreases i,
{
    if i == 0 {
        assert(s.take(0) =~= Seq::<int>::empty());
        assert(st.take(0) =~= Seq::<int>::empty());
        assert(s.skip(0) =~= s);
        assert(st.skip(0) =~= st);
    } else {
        let (t, u) = (s.skip(1), st.skip(1));
        lemma_max_dot_split(t, u, i - 1);
        assert(t.take(i - 1) =~= s.take(i).skip(1));
        assert(u.take(i - 1) =~= st.take(i).skip(1));
        assert(t.skip(i - 1) =~= s.skip(i));
        assert(u.skip(i - 1) =~= st.skip(i));
        assert(max_dot(s.take(i), st.take(i))
            == (if s.take(i)[0] > 0 { (s.take(i)[0] - 1) * st.take(i)[0] } else { 0 })
                + max_dot(s.take(i).skip(1), st.take(i).skip(1)));
        assert(s.take(i)[0] == s[0] && st.take(i)[0] == st[0]);
    }
}

/// Replacing one dimension changes the maximal inner product by exactly the
/// difference of that dimension's terms.
pub proof fn lemma_max_dot_update(s: Seq<int>, st: Seq<int>, d: int, ns: int, nst: int)
    requires
        s.len() == st.len(),
        0 <= d < s.len(),
    ensures
        max_dot(s.update(d, ns), st.update(d, nst))
            == max_dot(s, st)
                - (if s[d] > 0 { (s[d] - 1) * st[d] } else { 0 })
                + (if ns > 0 { (ns - 1) * nst } else { 0 }),
    decreases d,
{
    let s2 = s.update(d, ns);
    let st2 = st.update(d, nst);
    if d == 0 {
        assert(s2.skip(1) =~= s.skip(1));
        assert(st2.skip(1) =~= st.skip(1));
        assert(s2[0] == ns && st2[0] == nst);
    } else {
        assert(s2.skip(1) =~= s.skip(1).update(d - 1, ns));
        assert(st2.skip(1) =~= st.skip(1).update(d - 1, nst));
        lemma_max_dot_update(s.skip(1), st.skip(1), d - 1, ns, nst);
        assert(s.skip(1)[d - 1] == s[d] && st.skip(1)[d - 1] == st[d]);
        assert(s2[0] == s[0] && st2[0] == st[0]);
    }
}

/// Replacing one coordinate changes the inner product by the difference of
/// that coordinate's term.
pub proof fn lemma_dot_update_coord(c: Seq<int>, st: Seq<int>, d: int, nv: int)
    requires
        c.len() == st.len(),
        0 <= d < c.len(),
    ensures
        dot(c.update(d, nv), st) == dot(c, st) - c[d] * st[d] + nv * st[d],
    decreases d,
{
    let c2 = c.update(d, nv);
    if d == 0 {
        assert(c2.skip(1) =~= c.skip(1));
        assert(c2[0] == nv);
    } else {
        assert(c2.skip(1) =~= c.skip(1).update(d - 1, nv));
        lemma_dot_update_coord(c.skip(1), st.skip(1), d - 1, nv);
        assert(c.skip(1)[d - 1] == c[d] && st.skip(1)[d - 1] == st[d]);
        assert(c2[0] == c[0]);
    }
}

/// Replacing one stride changes the inner product by the difference of that
/// dimension's term.
pub proof fn lemma_dot_update_stride(c: Seq<int>, st: Seq<int>, d: int, nv: int)
    requires
        c.len() == st.len(),
        0 <= d < c.len(),
    ensures
        dot(c, st.update(d, nv)) == dot(c, st) - c[d] * st[d] + c[d] * nv,
    decreases d,
{
    let st2 = st.update(d, nv);
    if d == 0 {
        assert(st2.skip(1) =~= st.skip(1));
        assert(st2[0] == nv);
    } else {
        assert(st2.skip(1) =~= st.skip(1).update(d - 1, nv));
        lemma_dot_update_stride(c.skip(1), st.skip(1), d - 1, nv);
        assert(st.skip(1)[d - 1] == st[d] && c.skip(1)[d - 1] == c[d]);
        assert(st2[0] == st[0]);
    }
}

/// The product is monotone under pointwise enlargement of nonnegative sizes.
pub proof fn lemma_prod_pointwise_le(a: Seq<int>, b: Seq<int>)
    requires
        a.len() == b.len(),
        forall|i: int| 0 <= i < a.len() ==> 0 <= #[trigger] a[i] <= b[i],
    ensures
        0 <= prod(a) <= prod(b),
    decreases a.len(),
{
    if a.len() == 0 {
    } else {
        assert forall|i: int| 0 <= i < a.skip(1).len() implies
            0 <= #[trigger] a.skip(1)[i] <= b.skip(1)[i] by {
            assert(a.skip(1)[i] == a[i + 1] && b.skip(1)[i] == b[i + 1]);
        }
        lemma_prod_pointwise_le(a.skip(1), b.skip(1));
        assert(0 <= a[0] * prod(a.skip(1)) && a[0] * prod(a.skip(1)) <= b[0] * prod(b.skip(1)))
            by (nonlinear_arith)
            requires
                0 <= a[0] <= b[0],
                0 <= prod(a.skip(1)) <= prod(b.skip(1));
    }
}

/// The inner product of two one-element vectors.
pub proof fn lemma_dot_single(x: int, y: int)
    ensures
        dot(seq![x], seq![y]) == x * y,
{
    reveal_with_fuel(dot, 2);
    assert(seq![x].skip(1) =~= Seq::<int>::empty());
    assert(seq![y].skip(1) =~= Seq::<int>::empty());
}

/// Splitting an inner product at position `i`.
pub proof fn lemma_dot_split(c: Seq<int>, st: Seq<int>, i: int)
    requires
        c.len() == st.len(),
        0 <= i <= c.len(),
    ensures
        dot(c, st) == dot(c.take(i), st.take(i)) + dot(c.skip(i), st.skip(i)),
    decreases i,
{
    if i == 0 {
        assert(c.take(0) =~= Seq::<int>::empty());
        assert(st.take(0) =~= Seq::<int>::empty());
        assert(c.skip(0) =~= c);
        assert(st.skip(0) =~= st);
    } else {
        let (ct, stt) = (c.skip(1), st.skip(1));
        lemma_dot_split(ct, stt, i - 1);
        assert(ct.take(i - 1) =~= c.take(i).skip(1));
        assert(stt.take(i - 1) =~= st.take(i).skip(1));
        assert(ct.skip(i - 1) =~= c.skip(i));
        assert(stt.skip(i - 1) =~= st.skip(i));
        assert(dot(c.take(i), st.take(i))
            == c.take(i)[0] * st.take(i)[0] + dot(c.take(i).skip(1), st.take(i).skip(1)));
        assert(c.take(i)[0] == c[0] && st.take(i)[0] == st[0]);
    }
}

impl Clone for Slice {
    /// A clone has the same offset, sizes, and strides.
    fn clone(&self) -> (r: Self)
        ensures
            r.spec_offset() == self.spec_offset(),
            r.spec_sizes() == self.spec_sizes(),
            r.spec_strides() == self.spec_strides(),
    {
        let sizes = self.sizes.clone();
        let strides = self.strides.clone();
        proof {
            assert(sizes@ =~= self.sizes@);
            assert(strides@ =~= self.strides@);
        }
        Slice { offset: self.offset, sizes, strides }
    }
}

impl Slice {
    /// The base-rank offset of the slice.
    pub fn offset(&self) -> (r: usize)
        ensures
            r == self.spec_offset(),
    {
        self.offset
    }

    /// The per-dimension sizes.
    pub fn sizes(&self) -> (r: &[usize])
        ensures
            r@ == self.spec_sizes(),
    {
        self.sizes.as_slice()
    }

    /// The per-dimension strides.
    pub fn strides(&self) -> (r: &[usize])
        ensures
            r@ == self.spec_strides(),
    {
        self.strides.as_slice()
    }

    /// Decompose the slice into offset, sizes, and strides.
    pub fn into_inner(self) -> (r: (usize, Vec<usize>, Vec<usize>))
        ensures
            r.0 == self.spec_offset(),
            r.1@ == self.spec_sizes(),
            r.2@ == self.spec_strides(),
    {
        (self.offset, self.sizes, self.strides)
    }

    /// The canonical dense row-major slice over the given sizes.
    #[verifier::loop_isolation(false)]
    pub fn new_row_major(sizes: Vec<usize>) -> (r: Slice)
        requires
            suffixes_bounded(seq_int(sizes@)),
        ensures
            r.wf(),
            r.spec_offset() == 0,
            r.spec_sizes() == sizes@,
            r.strides_int() == rm_strides(seq_int(sizes@)),
    {
        let ghost si = seq_int(sizes@);
        let n = sizes.len();
        let mut strides: Vec<usize> = Vec::new();
        let mut k: usize = 0;
        while k < n
            invariant
                k <= n,
                n == sizes.len(),
                strides.len() == k,
            decreases n - k,
        {
            strides.push(0);
            k = k + 1;
        }
        let mut p: usize = 1;
        let mut i: usize = n;
        proof {
            assert(si.skip(n as int) =~= Seq::<int>::empty());
        }
        while i > 0
            invariant
                i <= n,
                n == sizes.len() == strides.len(),
                p == prod(si.skip(i as int)),
                si == seq_int(sizes@),
                suffixes_bounded(si),
                forall|t: int| i <= t < n ==> strides@.map_values(|x: usize| x as int)[t]
                    == prod(#[trigger] si.skip(t + 1)),
            decreases i,
        {
            i = i - 1;
            strides.set(i, p);
            let ghost pre = si.skip(i as int);
            proof {
                assert(pre[0] == si[i as int] && pre.skip(1) =~= si.skip(i + 1));
                assert(prod(pre) <= usize::MAX);
                assert(all_nonneg(si.skip(i + 1)));
                lemma_prod_nonneg(si.skip(i + 1));
                assert(si[i as int] * p <= usize::MAX && si[i as int] * p >= 0) by (nonlinear_arith)
                    requires
                        si[i as int] >= 0,
                        p >= 0,
                        si[i as int] * p == prod(pre),
                        prod(pre) <= usize::MAX;
            }
            p = sizes[i] * p;
        }
        let r = Slice { offset: 0, sizes, strides };
        proof {
            assert(r.strides_int() =~= rm_strides(si));
            lemma_rm_max_dot(si);
            lemma_msp_bounded(si);
            assert(r.wf());
        }
        r
    }

    /// The number of ranks the slice enumerates: the product of its sizes.
    #[verifier::loop_isolation(false)]
    pub fn len(&self) -> (r: usize)
        requires
            suffixes_bounded(self.sizes_int()),
        ensures
            r == self.spec_len(),
    {
        let n = self.sizes.len();
        let mut p: usize = 1;
        let mut i: usize = n;
        proof {
            assert(self.sizes_int().skip(n as int) =~= Seq::<int>::empty());
        }
        while i > 0
            invariant
                i <= n,
                n == self.sizes.len(),
                suffixes_bounded(self.sizes_int()),
                p == prod(self.sizes_int().skip(i as int)),
            decreases i,
        {
            i = i - 1;
            let ghost pre = self.sizes_int().skip(i as int);
            proof {
                assert(pre[0] == self.sizes[i as int] && pre.skip(1) =~= self.sizes_int().skip(i + 1));
                assert(prod(pre) <= usize::MAX);
                assert(all_nonneg(self.sizes_int().skip(i + 1)));
                lemma_prod_nonneg(self.sizes_int().skip(i + 1));
                assert(self.sizes_int()[i as int] * p <= usize::MAX
                    && self.sizes_int()[i as int] * p >= 0) by (nonlinear_arith)
                    requires
                        self.sizes_int()[i as int] >= 0,
                        p >= 0,
                        self.sizes_int()[i as int] * p == prod(pre),
                        prod(pre) <= usize::MAX;
            }
            p = self.sizes[i] * p;
        }
        proof {
            assert(self.sizes_int().skip(0) =~= self.sizes_int());
        }
        p
    }

    /// The row-major coordinates, within this slice's own coordinate system,
    /// of the `index`-th enumerated rank.
    #[verifier::loop_isolation(false)]
    pub fn index_coordinates(&self, index: usize) -> (r: Vec<usize>)
        requires
            suffixes_bounded(self.sizes_int()),
            index < self.spec_len(),
        ensures
            seq_int(r@) == unflatten(index as int, self.sizes_int()),
    {
        let ghost si = self.sizes_int();
        proof {
            assert(all_nonneg(si));
            lemma_prod_pos_factors(si);
        }
        let n = self.sizes.len();
        let mut out: Vec<usize> = Vec::new();
        let mut stride: usize = self.len();
        let mut rem: usize = index;
        let mut a: usize = 0;
        proof {
            lemma_unflatten_valid(index as int, si);
            assert(si.skip(0) =~= si);
            assert(unflatten(index as int, si).skip(0) =~= unflatten(index as int, si));
        }
        while a < n
            invariant
                a <= n,
                n == self.sizes.len(),
                suffixes_bounded(si),
                si == self.sizes_int(),
                forall|i: int| 0 <= i < si.len() ==> #[trigger] si[i] > 0,
                stride == prod(si.skip(a as int)),
                0 <= rem < stride,
                out.len() == a,
                seq_int(out@) == unflatten(index as int, si).take(a as int),
                unflatten(rem as int, si.skip(a as int))
                    == unflatten(index as int, si).skip(a as int),
            decreases n - a,
        {
            let ghost pre = si.skip(a as int);
            proof {
                assert(pre[0] == si[a as int] && pre.skip(1) =~= si.skip(a + 1));
                assert(prod(pre) == pre[0] * prod(pre.skip(1)));
                assert(all_nonneg(pre.skip(1)));
                lemma_prod_nonneg(pre.skip(1));
                assert(prod(pre.skip(1)) > 0) by (nonlinear_arith)
                    requires
                        prod(pre) == pre[0] * prod(pre.skip(1)),
                        prod(pre) > 0,
                        pre[0] >= 0,
                        prod(pre.skip(1)) >= 0;
                assert(prod(pre) / pre[0] == prod(pre.skip(1))) by (nonlinear_arith)
                    requires
                        prod(pre) == pre[0] * prod(pre.skip(1)),
                        pre[0] > 0,
                        prod(pre.skip(1)) >= 0;
            }
            stride = stride / self.sizes[a];
            let ghost rem_pre = rem as int;
            let q = rem / stride;
            proof {
                vstd::arithmetic::div_mod::lemma_fundamental_div_mod(rem_pre, stride as int);
            }
            rem = rem % stride;
            out.push(q);
            a = a + 1;
            proof {
                let u = unflatten(index as int, si);
                // Unfold one step of the spec on the residual.
                assert(unflatten(rem_pre, pre)
                    == seq![rem_pre / prod(pre.skip(1))] + unflatten(rem_pre % prod(pre.skip(1)), pre.skip(1)));
                assert(prod(pre.skip(1)) == stride);
                assert(u.skip(a - 1) == seq![q as int] + unflatten(rem as int, si.skip(a as int)));
                assert(u[a - 1] == q as int) by {
                    assert(u.skip(a - 1)[0] == u[a - 1]);
                }
                assert(seq_int(out@) =~= u.take(a as int));
                assert(unflatten(rem as int, si.skip(a as int)) =~= u.skip(a - 1).skip(1));
                assert(u.skip(a - 1).skip(1) =~= u.skip(a as int));
            }
        }
        proof {
            assert(seq_int(out@) =~= unflatten(index as int, si));
        }
        out
    }

    /// The base rank at the given (valid) coordinates of this slice.
    #[verifier::loop_isolation(false)]
    pub fn rank_of_coordinates(&self, coords: &Vec<usize>) -> (r: usize)
        requires
            self.wf(),
            valid_coords(seq_int(coords@), self.sizes_int()),
        ensures
            r == self.rank_at(seq_int(coords@)),
    {
        let ghost c = seq_int(coords@);
        let ghost st = self.strides_int();
        proof {
            assert(all_nonneg(c) && all_nonneg(st) && all_nonneg(self.sizes_int()));
            lemma_dot_le_max(c, self.sizes_int(), st);
            lemma_dot_nonneg(c, st);
        }
        let n = coords.len();
        let mut acc: usize = self.offset;
        let mut i: usize = 0;
        proof {
            assert(c.take(0) =~= Seq::<int>::empty());
            assert(st.take(0) =~= Seq::<int>::empty());
        }
        while i < n
            invariant
                i <= n,
                n == coords.len() == self.strides.len(),
                self.wf(),
                c == seq_int(coords@),
                st == self.strides_int(),
                valid_coords(c, self.sizes_int()),
                dot(c, st) <= max_dot(self.sizes_int(), st),
                dot(c, st) >= 0,
                acc == self.spec_offset() + dot(c.take(i as int), st.take(i as int)),
            decreases n - i,
        {
            proof {
                lemma_dot_split(c, st, i as int);
                lemma_dot_split(c, st, i + 1);
                assert(c.take(i + 1).take(i as int) =~= c.take(i as int));
                assert(st.take(i + 1).take(i as int) =~= st.take(i as int));
                lemma_dot_split(c.take(i + 1), st.take(i + 1), i as int);
                assert(c.take(i + 1).skip(i as int) =~= seq![c[i as int]]);
                assert(st.take(i + 1).skip(i as int) =~= seq![st[i as int]]);
                lemma_dot_single(c[i as int], st[i as int]);
                assert(dot(c.take(i + 1), st.take(i + 1))
                    == dot(c.take(i as int), st.take(i as int)) + c[i as int] * st[i as int]);
                let skip1 = c.skip(i + 1);
                let skip2 = st.skip(i + 1);
                assert(all_nonneg(skip1) && all_nonneg(skip2));
                lemma_dot_nonneg(skip1, skip2);
                assert(c[i as int] * st[i as int] >= 0) by (nonlinear_arith)
                    requires c[i as int] >= 0 && st[i as int] >= 0;
            }
            acc = acc + coords[i] * self.strides[i];
            i = i + 1;
        }
        proof {
            assert(c.take(n as int) =~= c);
            assert(st.take(n as int) =~= st);
        }
        acc
    }

    /// The `index`-th enumerated base rank of this slice; `OutOfRange` iff
    /// `index` is not below the slice's length.
    pub fn get(&self, index: usize) -> (r: Result<usize, SliceError>)
        requires
            self.wf(),
        ensures
            match r {
                Ok(v) => index < self.spec_len() && v == self.rank_seq()[index as int],
                Err(SliceError::OutOfRange { len, index: ix }) => {
                    &&& index >= self.spec_len()
                    &&& len == self.spec_len()
                    &&& ix == index
                },
                Err(_) => false,
            },
    {
        let l = self.len();
        if index >= l {
            return Err(SliceError::OutOfRange { len: l, index });
        }
        let coords = self.index_coordinates(index);
        proof {
            assert(all_nonneg(self.sizes_int()));
            lemma_unflatten_valid(index as int, self.sizes_int());
        }
        Ok(self.rank_of_coordinates(&coords))
    }

    /// Iterate the enumerated base ranks in row-major coordinate order.
    pub fn iter(&self) -> (r: SliceIterator)
        requires
            self.wf(),
        ensures
            r.wf(),
            r.slice.spec_offset() == self.spec_offset(),
            r.slice.spec_sizes() == self.spec_sizes(),
            r.slice.spec_strides() == self.spec_strides(),
            r.index == 0,
    {
        let r = SliceIterator { slice: self.clone(), index: 0 };
        proof {
            assert(all_nonneg(r.slice.sizes_int()));
            lemma_prod_nonneg(r.slice.sizes_int());
        }
        r
    }

    /// The coordinates whose rank is the given base rank, if this slice's
    /// greedy stride decomposition finds them. On `Ok`, the coordinates are
    /// valid and linearize exactly to `value`; `Err(NotInSlice)` means the
    /// decomposition failed (for canonical strides, that the rank is not
    /// enumerated by this slice).
    #[verifier::loop_isolation(false)]
    pub fn coordinates(&self, value: usize) -> (r: Result<Vec<usize>, SliceError>)
        requires
            self.wf(),
        ensures
            match r {
                Ok(c) => {
                    &&& valid_coords(seq_int(c@), self.sizes_int())
                    &&& self.rank_at(seq_int(c@)) == value
                },
                Err(SliceError::NotInSlice { value: v }) => v == value,
                Err(_) => false,
            },
    {
        let ghost st = self.strides_int();
        let n = self.sizes.len();
        if value < self.offset {
            return Err(SliceError::NotInSlice { value });
        }
        let mut rem: usize = value - self.offset;
        let mut out: Vec<usize> = Vec::new();
        let mut i: usize = 0;
        proof {
            assert(seq_int(out@).take(0) =~= Seq::<int>::empty());
            assert(st.take(0) =~= Seq::<int>::empty());
        }
        while i < n
            invariant
                i <= n,
                n == self.sizes.len() == self.strides.len(),
                self.wf(),
                st == self.strides_int(),
                out.len() == i,
                valid_coords(seq_int(out@), seq_int(self.sizes@.take(i as int))),
                self.spec_offset() + dot(seq_int(out@), st.take(i as int)) + rem == value,
            decreases n - i,
        {
            let size = self.sizes[i];
            let stride = self.strides[i];
            if size == 0 {
                return Err(SliceError::NotInSlice { value });
            }
            let q0 = if stride > 0 { rem / stride } else { 0 };
            let q = if q0 > size - 1 { size - 1 } else { q0 };
            proof {
                if stride > 0 {
                    vstd::arithmetic::div_mod::lemma_fundamental_div_mod(rem as int, stride as int);
                    assert(q * stride <= q0 * stride) by (nonlinear_arith)
                        requires q <= q0 && stride >= 0;
                    assert(q0 * stride <= rem) by (nonlinear_arith)
                        requires
                            rem as int == stride as int * q0 + rem as int % stride as int,
                            rem as int % stride as int >= 0;
                } else {
                    assert(q * stride == 0) by (nonlinear_arith)
                        requires stride == 0;
                }
            }
            let used = q * stride;
            rem = rem - used;
            let ghost old_out = seq_int(out@);
            out.push(q);
            i = i + 1;
            proof {
                assert(seq_int(out@) =~= old_out + seq![q as int]);
                lemma_dot_split(seq_int(out@), st.take(i as int), i - 1);
                assert(seq_int(out@).take(i - 1) =~= old_out);
                assert(st.take(i as int).take(i - 1) =~= st.take(i - 1));
                assert(seq_int(out@).skip(i - 1) =~= seq![q as int]);
                assert(st.take(i as int).skip(i - 1) =~= seq![st[i - 1]]);
                lemma_dot_single(q as int, st[i - 1]);
                assert(valid_coords(seq_int(out@), seq_int(self.sizes@.take(i as int)))) by {
                    assert forall|t: int| 0 <= t < i implies
                        0 <= #[trigger] seq_int(out@)[t] < seq_int(self.sizes@.take(i as int))[t] by {
                        if t < i - 1 {
                            assert(seq_int(out@)[t] == old_out[t]);
                            assert(seq_int(self.sizes@.take(i as int))[t]
                                == seq_int(self.sizes@.take(i - 1))[t]);
                        }
                    }
                }
            }
        }
        if rem != 0 {
            return Err(SliceError::NotInSlice { value });
        }
        proof {
            assert(seq_int(self.sizes@.take(n as int)) =~= self.sizes_int());
            assert(st.take(n as int) =~= st);
        }
        Ok(out)
    }
}

/// An iterator over the enumerated base ranks of a [`Slice`].
pub struct SliceIterator {
    pub slice: Slice,
    pub index: usize,
}

impl SliceIterator {
    pub open spec fn wf(&self) -> bool {
        &&& self.slice.wf()
        &&& self.index <= self.slice.spec_len()
    }

    /// The ranks not yet yielded.
    pub open spec fn remaining(&self) -> Seq<int> {
        self.slice.rank_seq().skip(self.index as int)
    }

    /// Yields the next enumerated base rank, or `None` at exhaustion.
    pub fn next(&mut self) -> (r: Option<usize>)
        requires
            old(self).wf(),
        ensures
            final(self).wf(),
            final(self).slice == old(self).slice,
            if old(self).index < old(self).slice.spec_len() {
                &&& r == Some(old(self).slice.rank_seq()[old(self).index as int] as usize)
                &&& final(self).index == old(self).index + 1
            } else {
                &&& r is None
                &&& final(self).index == old(self).index
            },
    {
        let l = self.slice.len();
        if self.index >= l {
            return None;
        }
        let v = self.slice.get(self.index).unwrap();
        self.index = self.index + 1;
        Some(v)
    }
}

/// The number of ranks of a space with the given sizes: the product of all
/// sizes (1 for the scalar, 0-dimensional case).
pub fn sizes_product(sizes: &Vec<usize>) -> (r: usize)
    requires
        suffixes_bounded(seq_int(sizes@)),
    ensures
        r == prod(seq_int(sizes@)),
{
    let s = Slice { offset: 0, sizes: sizes.clone(), strides: Vec::new() };
    proof {
        assert(sizes@ =~= s.sizes@);
    }
    s.len()
}

/// The row-major coordinates of the `index`-th point of a space with the
/// given sizes.
pub fn index_to_coords(sizes: &Vec<usize>, index: usize) -> (r: Vec<usize>)
    requires
        suffixes_bounded(seq_int(sizes@)),
        index < prod(seq_int(sizes@)),
    ensures
        seq_int(r@) == unflatten(index as int, seq_int(sizes@)),
{
    let s = Slice { offset: 0, sizes: sizes.clone(), strides: Vec::new() };
    proof {
        assert(sizes@ =~= s.sizes@);
    }
    s.index_coordinates(index)
}

} // verus!
