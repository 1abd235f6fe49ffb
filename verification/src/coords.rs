//! Row-major linearization: the mathematics of mapping between coordinate
//! vectors and linear ranks in a multi-dimensional space.
//!
//! A space with dimension sizes `s_0, ..., s_{n-1}` holds `prod(s)` ranks.
//! A coordinate vector `c` maps to the rank `flatten(c, s) = sum_i c_i *
//! prod(s_{i+1..})`, and `unflatten` is the inverse. The lemmas here prove
//! that the two are mutually inverse bijections between valid coordinate
//! vectors and the rank interval `[0, prod(s))`.

use vstd::prelude::*;

verus! {

use vstd::arithmetic::div_mod::lemma_fundamental_div_mod;
use vstd::arithmetic::div_mod::lemma_fundamental_div_mod_converse;

/// The number of ranks of a space with the given dimension sizes: the product
/// of all sizes, 1 for the 0-dimensional (scalar) case.
pub open spec fn prod(sizes: Seq<int>) -> int
    decreases sizes.len(),
{
    if sizes.len() == 0 {
        1
    } else {
        sizes[0] * prod(sizes.skip(1))
    }
}

/// All entries are nonnegative (dimension sizes and strides are `usize`).
pub open spec fn all_nonneg(s: Seq<int>) -> bool {
    forall|i: int| 0 <= i < s.len() ==> #[trigger] s[i] >= 0
}

/// `c` is a valid coordinate vector for sizes `s`.
pub open spec fn valid_coords(c: Seq<int>, s: Seq<int>) -> bool {
    c.len() == s.len() && forall|i: int| 0 <= i < c.len() ==> 0 <= #[trigger] c[i] < s[i]
}

/// Row-major linear rank of coordinates `c` in a space with sizes `s`.
pub open spec fn flatten(c: Seq<int>, s: Seq<int>) -> int
    decreases s.len(),
{
    if s.len() == 0 {
        0
    } else {
        c[0] * prod(s.skip(1)) + flatten(c.skip(1), s.skip(1))
    }
}

/// Row-major coordinates of the linear rank `k` in a space with sizes `s`.
pub open spec fn unflatten(k: int, s: Seq<int>) -> Seq<int>
    decreases s.len(),
{
    if s.len() == 0 {
        Seq::empty()
    } else {
        seq![k / prod(s.skip(1))] + unflatten(k % prod(s.skip(1)), s.skip(1))
    }
}

pub proof fn lemma_prod_nonneg(s: Seq<int>)
    requires
        all_nonneg(s),
    ensures
        prod(s) >= 0,
    decreases s.len(),
{
    if s.len() > 0 {
        assert(all_nonneg(s.skip(1)));
        lemma_prod_nonneg(s.skip(1));
        assert(s[0] * prod(s.skip(1)) >= 0) by (nonlinear_arith)
            requires s[0] >= 0 && prod(s.skip(1)) >= 0;
    }
}

/// A positive product means every factor is positive.
pub proof fn lemma_prod_pos_factors(s: Seq<int>)
    requires
        all_nonneg(s),
        prod(s) > 0,
    ensures
        forall|i: int| 0 <= i < s.len() ==> s[i] > 0,
    decreases s.len(),
{
    if s.len() > 0 {
        assert(all_nonneg(s.skip(1)));
        lemma_prod_nonneg(s.skip(1));
        assert(s[0] > 0 && prod(s.skip(1)) > 0) by (nonlinear_arith)
            requires
                s[0] >= 0,
                prod(s.skip(1)) >= 0,
                s[0] * prod(s.skip(1)) > 0;
        lemma_prod_pos_factors(s.skip(1));
        assert forall|i: int| 0 <= i < s.len() implies s[i] > 0 by {
            if i > 0 {
                assert(s[i] == s.skip(1)[i - 1]);
            }
        }
    }
}

/// A valid coordinate vector linearizes into `[0, prod(s))`.
pub proof fn lemma_flatten_bounds(c: Seq<int>, s: Seq<int>)
    requires
        all_nonneg(s),
        valid_coords(c, s),
    ensures
        0 <= flatten(c, s) < prod(s),
    decreases s.len(),
{
    if s.len() == 0 {
        assert(prod(s) == 1);
    } else {
        let st = s.skip(1);
        let ct = c.skip(1);
        assert(all_nonneg(st));
        assert(valid_coords(ct, st)) by {
            assert forall|i: int| 0 <= i < ct.len() implies 0 <= #[trigger] ct[i] < st[i] by {
                assert(ct[i] == c[i + 1]);
                assert(st[i] == s[i + 1]);
            }
        }
        lemma_flatten_bounds(ct, st);
        lemma_prod_nonneg(st);
        assert(0 <= c[0] < s[0]);
        assert(c[0] * prod(st) + flatten(ct, st) >= 0) by (nonlinear_arith)
            requires c[0] >= 0 && prod(st) >= 0 && flatten(ct, st) >= 0;
        assert(c[0] * prod(st) + flatten(ct, st) < s[0] * prod(st)) by (nonlinear_arith)
            requires
                0 <= c[0] < s[0],
                prod(st) >= 0,
                0 <= flatten(ct, st) < prod(st);
    }
}

/// Every rank in `[0, prod(s))` unflattens into a valid coordinate vector.
pub proof fn lemma_unflatten_valid(k: int, s: Seq<int>)
    requires
        all_nonneg(s),
        0 <= k < prod(s),
    ensures
        valid_coords(unflatten(k, s), s),
    decreases s.len(),
{
    if s.len() > 0 {
        let st = s.skip(1);
        let p = prod(st);
        assert(all_nonneg(st));
        lemma_prod_nonneg(st);
        assert(s[0] > 0 && p > 0) by (nonlinear_arith)
            requires s[0] >= 0, p >= 0, s[0] * p > 0, k < s[0] * p, 0 <= k;
        let q = k / p;
        let r = k % p;
        lemma_fundamental_div_mod(k, p);
        assert(0 <= r < p);
        assert(0 <= q < s[0]) by (nonlinear_arith)
            requires
                k == p * q + r,
                0 <= r < p,
                0 <= k,
                k < s[0] * p,
                p > 0;
        assert(0 <= r < prod(st));
        lemma_unflatten_valid(r, st);
        let u = unflatten(k, s);
        assert(u == seq![q] + unflatten(r, st));
        assert(u.len() == s.len());
        assert forall|i: int| 0 <= i < u.len() implies 0 <= #[trigger] u[i] < s[i] by {
            if i == 0 {
                assert(u[0] == q);
            } else {
                assert(u[i] == unflatten(r, st)[i - 1]);
                assert(s[i] == st[i - 1]);
            }
        }
    }
}

/// Unflattening then flattening a rank gives the rank back.
pub proof fn lemma_flatten_unflatten(k: int, s: Seq<int>)
    requires
        all_nonneg(s),
        0 <= k < prod(s),
    ensures
        flatten(unflatten(k, s), s) == k,
    decreases s.len(),
{
    if s.len() == 0 {
        assert(k == 0);
    } else {
        let st = s.skip(1);
        let p = prod(st);
        assert(all_nonneg(st));
        lemma_prod_nonneg(st);
        assert(s[0] > 0 && p > 0) by (nonlinear_arith)
            requires s[0] >= 0, p >= 0, s[0] * p > 0, k < s[0] * p, 0 <= k;
        let q = k / p;
        let r = k % p;
        lemma_fundamental_div_mod(k, p);
        lemma_flatten_unflatten(r, st);
        let u = unflatten(k, s);
        assert(u == seq![q] + unflatten(r, st));
        assert(u[0] == q);
        assert(u.skip(1) == unflatten(r, st)) by {
            assert(u.skip(1) =~= unflatten(r, st));
        }
        assert(flatten(u, s) == q * p + flatten(unflatten(r, st), st));
        assert(q * p == p * q) by (nonlinear_arith);
    }
}

/// Flattening then unflattening a coordinate vector gives it back.
pub proof fn lemma_unflatten_flatten(c: Seq<int>, s: Seq<int>)
    requires
        all_nonneg(s),
        valid_coords(c, s),
    ensures
        unflatten(flatten(c, s), s) == c,
    decreases s.len(),
{
    if s.len() == 0 {
        assert(unflatten(flatten(c, s), s) =~= c);
    } else {
        let st = s.skip(1);
        let ct = c.skip(1);
        let p = prod(st);
        assert(all_nonneg(st));
        assert(valid_coords(ct, st)) by {
            assert forall|i: int| 0 <= i < ct.len() implies 0 <= #[trigger] ct[i] < st[i] by {
                assert(ct[i] == c[i + 1]);
                assert(st[i] == s[i + 1]);
            }
        }
        lemma_prod_nonneg(st);
        lemma_flatten_bounds(ct, st);
        let r = flatten(ct, st);
        let k = flatten(c, s);
        assert(k == c[0] * p + r);
        assert(p > 0) by { assert(0 <= r < p); }
        assert(k == p * c[0] + r) by (nonlinear_arith)
            requires k == c[0] * p + r;
        lemma_fundamental_div_mod_converse(k, p, c[0], r);
        assert(k / p == c[0]);
        assert(k % p == r);
        lemma_unflatten_flatten(ct, st);
        assert(unflatten(k, s) == seq![c[0]] + ct);
        assert(seq![c[0]] + ct =~= c);
    }
}

/// `a` precedes `b` lexicographically (for equal-length vectors).
pub open spec fn lex_less(a: Seq<int>, b: Seq<int>) -> bool
    decreases a.len(),
{
    a.len() > 0 && (a[0] < b[0] || (a[0] == b[0] && lex_less(a.skip(1), b.skip(1))))
}

/// Unflattening is monotone: a smaller rank decodes to lexicographically
/// smaller coordinates.
pub proof fn lemma_unflatten_lex_monotone(k1: int, k2: int, s: Seq<int>)
    requires
        all_nonneg(s),
        0 <= k1 < k2 < prod(s),
    ensures
        lex_less(unflatten(k1, s), unflatten(k2, s)),
    decreases s.len(),
{
    assert(s.len() > 0) by {
        if s.len() == 0 {
            assert(prod(s) == 1);
        }
    }
    let st = s.skip(1);
    let p = prod(st);
    assert(all_nonneg(st));
    lemma_prod_nonneg(st);
    assert(s[0] > 0 && p > 0) by (nonlinear_arith)
        requires s[0] >= 0, p >= 0, s[0] * p > 0, k2 < s[0] * p, 0 <= k2;
    lemma_fundamental_div_mod(k1, p);
    lemma_fundamental_div_mod(k2, p);
    let (q1, r1) = (k1 / p, k1 % p);
    let (q2, r2) = (k2 / p, k2 % p);
    assert(q1 <= q2) by (nonlinear_arith)
        requires
            k1 == p * q1 + r1,
            k2 == p * q2 + r2,
            0 <= r1 < p,
            0 <= r2 < p,
            k1 < k2,
            p > 0;
    let u1 = unflatten(k1, s);
    let u2 = unflatten(k2, s);
    assert(u1 == seq![q1] + unflatten(r1, st));
    assert(u2 == seq![q2] + unflatten(r2, st));
    assert(u1[0] == q1 && u2[0] == q2);
    assert(u1.skip(1) =~= unflatten(r1, st));
    assert(u2.skip(1) =~= unflatten(r2, st));
    if q1 < q2 {
        assert(lex_less(u1, u2));
    } else {
        assert(r1 < r2) by (nonlinear_arith)
            requires
                k1 == p * q1 + r1,
                k2 == p * q2 + r2,
                q1 == q2,
                k1 < k2;
        assert(0 <= q1 < s[0]) by (nonlinear_arith)
            requires
                k1 == p * q1 + r1,
                0 <= r1 < p,
                0 <= k1,
                k1 < s[0] * p,
                p > 0;
        assert(r2 < p);
        lemma_unflatten_lex_monotone(r1, r2, st);
        assert(lex_less(u1, u2));
    }
}

/// Flattening is monotone: lexicographically smaller valid coordinates
/// linearize to a smaller rank.
pub proof fn lemma_flatten_lex_monotone(c1: Seq<int>, c2: Seq<int>, s: Seq<int>)
    requires
        all_nonneg(s),
        valid_coords(c1, s),
        valid_coords(c2, s),
        lex_less(c1, c2),
    ensures
        flatten(c1, s) < flatten(c2, s),
    decreases s.len(),
{
    let st = s.skip(1);
    let p = prod(st);
    assert(all_nonneg(st));
    lemma_prod_nonneg(st);
    let (t1, t2) = (c1.skip(1), c2.skip(1));
    assert(valid_coords(t1, st) && valid_coords(t2, st)) by {
        assert forall|i: int| 0 <= i < t1.len() implies
            0 <= #[trigger] t1[i] < st[i] && 0 <= #[trigger] t2[i] < st[i] by {
            assert(t1[i] == c1[i + 1] && t2[i] == c2[i + 1] && st[i] == s[i + 1]);
        }
    }
    lemma_flatten_bounds(t1, st);
    lemma_flatten_bounds(t2, st);
    if c1[0] < c2[0] {
        assert(c1[0] * p + flatten(t1, st) < c2[0] * p + flatten(t2, st)) by (nonlinear_arith)
            requires
                c1[0] + 1 <= c2[0],
                0 <= flatten(t1, st) < p,
                0 <= flatten(t2, st) < p,
                p >= 0;
    } else {
        lemma_flatten_lex_monotone(t1, t2, st);
    }
}

/// An affine enlargement of one coordinate preserves lexicographic order.
pub proof fn lemma_lex_update_affine(c1: Seq<int>, c2: Seq<int>, d: int, b: int, sp: int)
    requires
        c1.len() == c2.len(),
        0 <= d < c1.len(),
        lex_less(c1, c2),
        sp >= 1,
    ensures
        lex_less(c1.update(d, b + c1[d] * sp), c2.update(d, b + c2[d] * sp)),
    decreases d,
{
    let u1 = c1.update(d, b + c1[d] * sp);
    let u2 = c2.update(d, b + c2[d] * sp);
    if d == 0 {
        assert(u1.skip(1) =~= c1.skip(1));
        assert(u2.skip(1) =~= c2.skip(1));
        if c1[0] < c2[0] {
            assert(b + c1[0] * sp < b + c2[0] * sp) by (nonlinear_arith)
                requires c1[0] < c2[0] && sp >= 1;
        } else {
            assert(u1[0] == u2[0]);
        }
    } else {
        assert(u1[0] == c1[0] && u2[0] == c2[0]);
        if c1[0] == c2[0] {
            assert(u1.skip(1) =~= c1.skip(1).update(d - 1, b + c1[d] * sp));
            assert(u2.skip(1) =~= c2.skip(1).update(d - 1, b + c2[d] * sp));
            assert(c1.skip(1)[d - 1] == c1[d] && c2.skip(1)[d - 1] == c2[d]);
            lemma_lex_update_affine(c1.skip(1), c2.skip(1), d - 1, b, sp);
        }
    }
}

/// The product over a strictly shorter suffix: peeling one dimension off the
/// front divides the rank count by that dimension's size.
pub proof fn lemma_prod_skip_le(s: Seq<int>, i: int)
    requires
        all_nonneg(s),
        0 <= i <= s.len(),
        forall|j: int| 0 <= j < s.len() ==> s[j] >= 1,
    ensures
        prod(s.skip(i)) <= prod(s),
    decreases i,
{
    if i == 0 {
        assert(s.skip(0) =~= s);
    } else {
        let t = s.skip(1);
        assert(all_nonneg(t));
        assert forall|j: int| 0 <= j < t.len() implies #[trigger] t[j] >= 1 by {
            assert(t[j] == s[j + 1]);
        }
        lemma_prod_skip_le(t, i - 1);
        assert(t.skip(i - 1) =~= s.skip(i));
        assert(prod(s.skip(i)) <= prod(t));
        lemma_prod_nonneg(t);
        assert(prod(t) <= s[0] * prod(t)) by (nonlinear_arith)
            requires s[0] >= 1 && prod(t) >= 0;
        assert(prod(s) == s[0] * prod(t));
    }
}

} // verus!
