//! Why Lagrange interpolation at zero gives back the secret.
//!
//! Over GF(2^8) (addition is XOR), for distinct points `x_0 .. x_{n-1}`
//! the weighted sum `D(g) = Σ_i g(x_i) / Π_{j≠i} (x_j - x_i)` vanishes on
//! every polynomial of fewer than `n - 1` coefficients, and on `1/(x - c)`
//! it is `1 / Π_j (x_j - c)`. The Lagrange coefficient of share `i` at zero
//! is `(Π_j x_j) / x_i / Π_{j≠i} (x_j - x_i)`, so the interpolated value of
//! a polynomial `f` of at most `n` coefficients is `Π_j x_j · D(f / x)`,
//! which is its constant term.
use vstd::prelude::*;
use crate::shamir::{
    combinable, gf_inv_spec, gf_mul_spec, interpolate, interpolate_byte, lagrange_basis, poly_eval,
    share_points, shares_from, ShareView, lemma_gf_inverse, lemma_gf_mul_associative,
    lemma_gf_mul_commutative, lemma_gf_mul_distributive, lemma_gf_mul_identity,
};

verus! {

proof fn lemma_xor(a: u8, b: u8, c: u8)
    ensures
        a ^ b == b ^ a,
        (a ^ b) ^ c == a ^ (b ^ c),
        a ^ a == 0,
        a ^ 0 == a,
        0 ^ a == a,
{
    assert(a ^ b == b ^ a) by (bit_vector);
    assert((a ^ b) ^ c == a ^ (b ^ c)) by (bit_vector);
    assert(a ^ a == 0) by (bit_vector);
    assert(a ^ 0 == a) by (bit_vector);
    assert(0 ^ a == a) by (bit_vector);
}

proof fn lemma_xor_swap(a: u8, b: u8, c: u8, d: u8)
    ensures
        (a ^ b) ^ (c ^ d) == (a ^ c) ^ (b ^ d),
{
    assert((a ^ b) ^ (c ^ d) == (a ^ c) ^ (b ^ d)) by (bit_vector);
}

/// Distributivity on the right.
proof fn lemma_mul_distributive_right(a: u8, b: u8, c: u8)
    ensures
        gf_mul_spec(a ^ b, c) == gf_mul_spec(a, c) ^ gf_mul_spec(b, c),
{
    lemma_gf_mul_commutative(a ^ b, c);
    lemma_gf_mul_distributive(c, a, b);
    lemma_gf_mul_commutative(a, c);
    lemma_gf_mul_commutative(b, c);
}

/// `(a b)(c d) == (a c)(b d)`.
proof fn lemma_mul_swap(a: u8, b: u8, c: u8, d: u8)
    ensures
        gf_mul_spec(gf_mul_spec(a, b), gf_mul_spec(c, d)) == gf_mul_spec(
            gf_mul_spec(a, c),
            gf_mul_spec(b, d),
        ),
{
    lemma_gf_mul_associative(a, b, gf_mul_spec(c, d));
    lemma_gf_mul_associative(b, c, d);
    lemma_gf_mul_commutative(b, c);
    lemma_gf_mul_associative(c, b, d);
    lemma_gf_mul_associative(a, c, gf_mul_spec(b, d));
}

/// `a (b c) == b (a c)`.
proof fn lemma_mul_left_swap(a: u8, b: u8, c: u8)
    ensures
        gf_mul_spec(a, gf_mul_spec(b, c)) == gf_mul_spec(b, gf_mul_spec(a, c)),
{
    lemma_gf_mul_associative(a, b, c);
    lemma_gf_mul_commutative(a, b);
    lemma_gf_mul_associative(b, a, c);
}

proof fn lemma_inverse_facts(a: u8)
    requires
        a != 0,
    ensures
        gf_mul_spec(a, gf_inv_spec(a)) == 1,
        gf_mul_spec(gf_inv_spec(a), a) == 1,
        gf_inv_spec(a) != 0,
{
    lemma_gf_inverse(a);
    lemma_gf_mul_commutative(a, gf_inv_spec(a));
    lemma_gf_mul_identity(a);
}

/// An element that multiplies `a` to one is its inverse.
proof fn lemma_inverse_unique(a: u8, x: u8)
    requires
        a != 0,
        gf_mul_spec(a, x) == 1,
    ensures
        x == gf_inv_spec(a),
{
    lemma_inverse_facts(a);
    lemma_gf_mul_identity(x);
    lemma_gf_mul_identity(gf_inv_spec(a));
    lemma_gf_mul_associative(gf_inv_spec(a), a, x);
}

proof fn lemma_no_zero_divisors(a: u8, b: u8)
    requires
        a != 0,
        b != 0,
    ensures
        gf_mul_spec(a, b) != 0,
{
    lemma_inverse_facts(a);
    lemma_gf_mul_associative(gf_inv_spec(a), a, b);
    lemma_gf_mul_identity(b);
    lemma_gf_mul_identity(gf_inv_spec(a));
}

proof fn lemma_inverse_of_product(a: u8, b: u8)
    requires
        a != 0,
        b != 0,
    ensures
        gf_inv_spec(gf_mul_spec(a, b)) == gf_mul_spec(gf_inv_spec(a), gf_inv_spec(b)),
{
    lemma_inverse_facts(a);
    lemma_inverse_facts(b);
    lemma_no_zero_divisors(a, b);
    lemma_mul_swap(a, b, gf_inv_spec(a), gf_inv_spec(b));
    lemma_gf_mul_identity(1);
    lemma_inverse_unique(gf_mul_spec(a, b), gf_mul_spec(gf_inv_spec(a), gf_inv_spec(b)));
}

proof fn lemma_inverse_of_one()
    ensures
        gf_inv_spec(1) == 1,
{
    lemma_gf_mul_identity(1);
    lemma_inverse_unique(1, 1);
}

/// `(d g)(u / d) == g u` for nonzero `d`.
proof fn lemma_cancel(d: u8, g: u8, u: u8)
    requires
        d != 0,
    ensures
        gf_mul_spec(gf_mul_spec(d, g), gf_mul_spec(u, gf_inv_spec(d))) == gf_mul_spec(g, u),
{
    lemma_inverse_facts(d);
    lemma_gf_mul_commutative(u, gf_inv_spec(d));
    lemma_mul_swap(d, g, gf_inv_spec(d), u);
    lemma_gf_mul_identity(gf_mul_spec(g, u));
}

proof fn lemma_xor_nonzero(p: u8, q: u8)
    requires
        p != q,
    ensures
        p ^ q != 0,
{
    assert(p ^ q != 0) by (bit_vector)
        requires
            p != q,
    ;
}

/// The points are pairwise distinct.
pub open spec fn distinct_points(xs: Seq<u8>) -> bool {
    forall|i: int, j: int| 0 <= i < xs.len() && 0 <= j < xs.len() && i != j ==> #[trigger] xs[i] != #[trigger] xs[j]
}

/// `Π_{j<m, j≠i} (x_j - x_i)`.
pub open spec fn diff_prod(xs: Seq<u8>, i: int, m: nat) -> u8
    decreases m,
{
    if m == 0 {
        1
    } else {
        let prev = diff_prod(xs, i, (m - 1) as nat);
        if m - 1 == i {
            prev
        } else {
            gf_mul_spec(prev, xs[m - 1] ^ xs[i])
        }
    }
}

/// `Π_{j<m} (x_j - c)`.
pub open spec fn shifted_prod(xs: Seq<u8>, c: u8, m: nat) -> u8
    decreases m,
{
    if m == 0 {
        1
    } else {
        gf_mul_spec(shifted_prod(xs, c, (m - 1) as nat), xs[m - 1] ^ c)
    }
}

/// The first `k` terms of `Σ_i g(x_i) / Π_{j≠i} (x_j - x_i)`.
pub open spec fn dd_sum(g: spec_fn(u8) -> u8, xs: Seq<u8>, k: nat) -> u8
    decreases k,
{
    if k == 0 {
        0
    } else {
        dd_sum(g, xs, (k - 1) as nat) ^ gf_mul_spec(
            g(xs[k - 1]),
            gf_inv_spec(diff_prod(xs, k - 1, xs.len())),
        )
    }
}

/// The whole weighted sum.
pub open spec fn dd(g: spec_fn(u8) -> u8, xs: Seq<u8>) -> u8 {
    dd_sum(g, xs, xs.len())
}

proof fn lemma_diff_prod_nonzero(xs: Seq<u8>, i: int, m: nat)
    requires
        distinct_points(xs),
        0 <= i < xs.len(),
        m <= xs.len(),
    ensures
        diff_prod(xs, i, m) != 0,
    decreases m,
{
    if m > 0 {
        lemma_diff_prod_nonzero(xs, i, (m - 1) as nat);
        if m - 1 != i {
            let d = xs[m - 1] ^ xs[i];
            assert(xs[m - 1] != xs[i]);
            lemma_xor_nonzero(xs[m - 1], xs[i]);
            lemma_no_zero_divisors(diff_prod(xs, i, (m - 1) as nat), d);
        }
    }
}

proof fn lemma_shifted_prod_nonzero(xs: Seq<u8>, c: u8, m: nat)
    requires
        m <= xs.len(),
        forall|j: int| 0 <= j < xs.len() ==> #[trigger] xs[j] != c,
    ensures
        shifted_prod(xs, c, m) != 0,
    decreases m,
{
    if m > 0 {
        lemma_shifted_prod_nonzero(xs, c, (m - 1) as nat);
        let d = xs[m - 1] ^ c;
        assert(xs[m - 1] != c);
        lemma_xor_nonzero(xs[m - 1], c);
        lemma_no_zero_divisors(shifted_prod(xs, c, (m - 1) as nat), d);
    }
}

/// The products depend only on the points they range over.
proof fn lemma_diff_prod_prefix(xs: Seq<u8>, ys: Seq<u8>, i: int, m: nat)
    requires
        m <= ys.len(),
        ys.len() <= xs.len(),
        0 <= i < ys.len(),
        forall|j: int| 0 <= j < ys.len() ==> #[trigger] ys[j] == xs[j],
    ensures
        diff_prod(xs, i, m) == diff_prod(ys, i, m),
    decreases m,
{
    if m > 0 {
        lemma_diff_prod_prefix(xs, ys, i, (m - 1) as nat);
        assert(ys[m - 1] == xs[m - 1]);
        assert(ys[i] == xs[i]);
    }
}

proof fn lemma_dd_sum_ext(f: spec_fn(u8) -> u8, g: spec_fn(u8) -> u8, xs: Seq<u8>, k: nat)
    requires
        k <= xs.len(),
        forall|i: int| 0 <= i < k ==> f(#[trigger] xs[i]) == g(xs[i]),
    ensures
        dd_sum(f, xs, k) == dd_sum(g, xs, k),
    decreases k,
{
    if k > 0 {
        lemma_dd_sum_ext(f, g, xs, (k - 1) as nat);
        assert(f(xs[k - 1]) == g(xs[k - 1]));
    }
}

/// The weighted sum is additive in the function.
proof fn lemma_dd_sum_add(
    f: spec_fn(u8) -> u8,
    g: spec_fn(u8) -> u8,
    h: spec_fn(u8) -> u8,
    xs: Seq<u8>,
    k: nat,
)
    requires
        k <= xs.len(),
        forall|i: int| 0 <= i < k ==> h(#[trigger] xs[i]) == f(xs[i]) ^ g(xs[i]),
    ensures
        dd_sum(h, xs, k) == dd_sum(f, xs, k) ^ dd_sum(g, xs, k),
    decreases k,
{
    if k == 0 {
        lemma_xor(0, 0, 0);
    } else {
        lemma_dd_sum_add(f, g, h, xs, (k - 1) as nat);
        let x = xs[k - 1];
        let w = gf_inv_spec(diff_prod(xs, k - 1, xs.len()));
        assert(h(x) == f(x) ^ g(x));
        lemma_mul_distributive_right(f(x), g(x), w);
        lemma_xor_swap(
            dd_sum(f, xs, (k - 1) as nat),
            dd_sum(g, xs, (k - 1) as nat),
            gf_mul_spec(f(x), w),
            gf_mul_spec(g(x), w),
        );
    }
}

/// The weighted sum is homogeneous in the function.
proof fn lemma_dd_sum_scale(c: u8, g: spec_fn(u8) -> u8, h: spec_fn(u8) -> u8, xs: Seq<u8>, k: nat)
    requires
        k <= xs.len(),
        forall|i: int| 0 <= i < k ==> h(#[trigger] xs[i]) == gf_mul_spec(c, g(xs[i])),
    ensures
        dd_sum(h, xs, k) == gf_mul_spec(c, dd_sum(g, xs, k)),
    decreases k,
{
    if k == 0 {
        lemma_gf_mul_identity(c);
    } else {
        lemma_dd_sum_scale(c, g, h, xs, (k - 1) as nat);
        let x = xs[k - 1];
        let w = gf_inv_spec(diff_prod(xs, k - 1, xs.len()));
        assert(h(x) == gf_mul_spec(c, g(x)));
        lemma_gf_mul_associative(c, g(x), w);
        lemma_gf_mul_distributive(c, dd_sum(g, xs, (k - 1) as nat), gf_mul_spec(g(x), w));
    }
}

/// A function that vanishes on the points has weighted sum zero.
proof fn lemma_dd_sum_zero(g: spec_fn(u8) -> u8, xs: Seq<u8>, k: nat)
    requires
        k <= xs.len(),
        forall|i: int| 0 <= i < k ==> g(#[trigger] xs[i]) == 0,
    ensures
        dd_sum(g, xs, k) == 0,
    decreases k,
{
    if k > 0 {
        lemma_dd_sum_zero(g, xs, (k - 1) as nat);
        let w = gf_inv_spec(diff_prod(xs, k - 1, xs.len()));
        assert(g(xs[k - 1]) == 0);
        lemma_gf_mul_identity(w);
        lemma_xor(0, 0, 0);
    }
}

/// Removing the last point `a`: the weighted sum of `(x - a) g(x)` over all
/// the points is that of `g` over the others.
proof fn lemma_dd_factor(f: spec_fn(u8) -> u8, g: spec_fn(u8) -> u8, xs: Seq<u8>)
    requires
        xs.len() >= 1,
        distinct_points(xs),
        forall|i: int|
            0 <= i < xs.len() ==> f(#[trigger] xs[i]) == gf_mul_spec(xs[i] ^ xs[xs.len() - 1], g(xs[i])),
    ensures
        dd(f, xs) == dd(g, xs.drop_last()),
{
    let n = xs.len();
    let a = xs[n - 1];
    let ys = xs.drop_last();
    lemma_dd_factor_prefix(f, g, xs, (n - 1) as nat);
    let w = gf_inv_spec(diff_prod(xs, n - 1, n));
    assert(f(a) == gf_mul_spec(a ^ a, g(a)));
    lemma_xor(a, a, 0);
    lemma_gf_mul_identity(g(a));
    lemma_gf_mul_identity(w);
    lemma_xor(dd_sum(f, xs, (n - 1) as nat), 0, 0);
}

proof fn lemma_dd_factor_prefix(f: spec_fn(u8) -> u8, g: spec_fn(u8) -> u8, xs: Seq<u8>, k: nat)
    requires
        xs.len() >= 1,
        k <= xs.len() - 1,
        distinct_points(xs),
        forall|i: int|
            0 <= i < xs.len() ==> f(#[trigger] xs[i]) == gf_mul_spec(xs[i] ^ xs[xs.len() - 1], g(xs[i])),
    ensures
        dd_sum(f, xs, k) == dd_sum(g, xs.drop_last(), k),
    decreases k,
{
    if k > 0 {
        let n = xs.len();
        let ys = xs.drop_last();
        let a = xs[n - 1];
        let i = k - 1;
        lemma_dd_factor_prefix(f, g, xs, (k - 1) as nat);
        let x = xs[i];
        assert(ys[i] == x);
        assert(f(x) == gf_mul_spec(x ^ a, g(x)));
        lemma_diff_prod_prefix(xs, ys, i, (n - 1) as nat);
        let wy = diff_prod(ys, i, (n - 1) as nat);
        let d = x ^ a;
        assert(diff_prod(xs, i, n) == gf_mul_spec(wy, a ^ x));
        lemma_xor(x, a, 0);
        assert(xs[i] != xs[n - 1]);
        lemma_xor_nonzero(x, a);
        lemma_diff_prod_nonzero(xs, i, (n - 1) as nat);
        lemma_inverse_of_product(wy, d);
        lemma_gf_mul_commutative(gf_inv_spec(wy), gf_inv_spec(d));
        lemma_cancel(d, g(x), gf_inv_spec(wy));
    }
}

/// The constant function one.
pub open spec fn one_fn() -> spec_fn(u8) -> u8 {
    |x: u8| 1u8
}

/// The function `x ↦ 1 / (x - c)`.
pub open spec fn recip_fn(c: u8) -> spec_fn(u8) -> u8 {
    |x: u8| gf_inv_spec(x ^ c)
}

/// `Π_{j<m, j≠last} (x_j - x_last)` is `Π_{j<m} (y_j - x_last)` over the
/// points before the last.
proof fn lemma_diff_prod_last(xs: Seq<u8>, m: nat)
    requires
        xs.len() >= 1,
        m <= xs.len() - 1,
    ensures
        diff_prod(xs, xs.len() - 1, m) == shifted_prod(xs.drop_last(), xs[xs.len() - 1], m),
    decreases m,
{
    if m > 0 {
        lemma_diff_prod_last(xs, (m - 1) as nat);
        assert(xs.drop_last()[m - 1] == xs[m - 1]);
    }
}

proof fn lemma_shifted_prod_prefix(xs: Seq<u8>, ys: Seq<u8>, c: u8, m: nat)
    requires
        m <= ys.len(),
        ys.len() <= xs.len(),
        forall|j: int| 0 <= j < ys.len() ==> #[trigger] ys[j] == xs[j],
    ensures
        shifted_prod(xs, c, m) == shifted_prod(ys, c, m),
    decreases m,
{
    if m > 0 {
        lemma_shifted_prod_prefix(xs, ys, c, (m - 1) as nat);
        assert(ys[m - 1] == xs[m - 1]);
    }
}

/// `1/(x - c) == (x - a) · (1/(a - c)) · (1/(x - c)) + 1/(a - c)`.
proof fn lemma_partial_fraction(x: u8, a: u8, c: u8)
    requires
        x != c,
        a != c,
    ensures
        gf_inv_spec(x ^ c) == gf_mul_spec(
            x ^ a,
            gf_mul_spec(gf_inv_spec(a ^ c), gf_inv_spec(x ^ c)),
        ) ^ gf_inv_spec(a ^ c),
{
    let u = gf_inv_spec(a ^ c);
    let v = gf_inv_spec(x ^ c);
    lemma_xor_nonzero(x, c);
    lemma_xor_nonzero(a, c);
    lemma_inverse_facts(x ^ c);
    lemma_inverse_facts(a ^ c);
    assert((x ^ c) ^ (a ^ c) == x ^ a) by (bit_vector);
    lemma_mul_distributive_right(x ^ c, a ^ c, gf_mul_spec(u, v));
    lemma_mul_left_swap(x ^ c, u, v);
    lemma_gf_mul_identity(u);
    lemma_gf_mul_associative(a ^ c, u, v);
    lemma_gf_mul_identity(v);
    assert((u ^ v) ^ u == v) by (bit_vector);
}

/// Over at least two distinct points, the weighted sum of the constant one
/// vanishes.
proof fn lemma_dd_one(xs: Seq<u8>)
    requires
        xs.len() >= 2,
        distinct_points(xs),
    ensures
        dd(one_fn(), xs) == 0,
    decreases xs.len(), 1int,
{
    let n = xs.len();
    let a = xs[n - 1];
    let ys = xs.drop_last();
    let f = |x: u8| gf_mul_spec(x ^ a, gf_inv_spec(x ^ a));
    let delta = |x: u8| if x == a { 1u8 } else { 0u8 };
    assert(distinct_points(ys));
    assert forall|j: int| 0 <= j < ys.len() implies #[trigger] ys[j] != a by {
        assert(xs[j] != xs[n - 1]);
    }
    lemma_dd_factor(f, recip_fn(a), xs);
    lemma_dd_recip(ys, a);
    assert forall|i: int| 0 <= i < n implies #[trigger] one_fn()(xs[i]) == f(xs[i]) ^ delta(xs[i]) by {
        let x = xs[i];
        if i < n - 1 {
            assert(xs[i] != xs[n - 1]);
            lemma_xor_nonzero(x, a);
            lemma_inverse_facts(x ^ a);
            lemma_xor(1, 0, 0);
        } else {
            lemma_xor(a, a, 1);
            lemma_xor(1, 0, 0);
            lemma_gf_mul_identity(gf_inv_spec(0));
        }
    }
    lemma_dd_sum_add(f, delta, one_fn(), xs, n);
    assert forall|i: int| 0 <= i < n - 1 implies #[trigger] delta(xs[i]) == 0 by {
        assert(xs[i] != xs[n - 1]);
    }
    lemma_dd_sum_zero(delta, xs, (n - 1) as nat);
    let w = gf_inv_spec(diff_prod(xs, n - 1, n));
    lemma_gf_mul_identity(w);
    lemma_xor(0, w, 0);
    lemma_diff_prod_last(xs, (n - 1) as nat);
    lemma_xor(w, w, 0);
}

/// Over distinct points other than `c`, the weighted sum of `1/(x - c)` is
/// `1 / Π_j (x_j - c)`.
proof fn lemma_dd_recip(xs: Seq<u8>, c: u8)
    requires
        xs.len() >= 1,
        distinct_points(xs),
        forall|j: int| 0 <= j < xs.len() ==> #[trigger] xs[j] != c,
    ensures
        dd(recip_fn(c), xs) == gf_inv_spec(shifted_prod(xs, c, xs.len())),
    decreases xs.len(), 2int,
{
    let n = xs.len();
    if n == 1 {
        let x0 = xs[0];
        assert(diff_prod(xs, 0, 0) == 1);
        assert(diff_prod(xs, 0, 1) == 1);
        assert(shifted_prod(xs, c, 0) == 1);
        lemma_inverse_of_one();
        lemma_gf_mul_identity(gf_inv_spec(x0 ^ c));
        lemma_gf_mul_identity(x0 ^ c);
        lemma_xor(gf_mul_spec(gf_inv_spec(x0 ^ c), 1), 0, 0);
        assert(dd_sum(recip_fn(c), xs, 0) == 0);
        assert(recip_fn(c)(x0) == gf_inv_spec(x0 ^ c));
        assert(dd(recip_fn(c), xs) == gf_inv_spec(x0 ^ c));
        assert(shifted_prod(xs, c, 1) == x0 ^ c);
    } else {
        let a = xs[n - 1];
        let ys = xs.drop_last();
        let e = gf_inv_spec(a ^ c);
        let h = |x: u8| gf_mul_spec(e, gf_inv_spec(x ^ c));
        let f1 = |x: u8| gf_mul_spec(x ^ a, h(x));
        let f2 = |x: u8| e;
        assert(distinct_points(ys));
        assert(a != c);
        assert forall|i: int| 0 <= i < n implies #[trigger] recip_fn(c)(xs[i]) == f1(xs[i]) ^ f2(xs[i]) by {
            assert(xs[i] != c);
            lemma_partial_fraction(xs[i], a, c);
        }
        lemma_dd_sum_add(f1, f2, recip_fn(c), xs, n);
        assert(dd(recip_fn(c), xs) == dd(f1, xs) ^ dd(f2, xs));
        lemma_dd_factor(f1, h, xs);
        assert(dd(f1, xs) == dd(h, ys));
        assert forall|i: int| 0 <= i < n implies #[trigger] f2(xs[i]) == gf_mul_spec(e, one_fn()(xs[i])) by {
            lemma_gf_mul_identity(e);
        }
        lemma_dd_sum_scale(e, one_fn(), f2, xs, n);
        lemma_dd_one(xs);
        lemma_gf_mul_identity(e);
        assert(dd(f2, xs) == 0);
        assert forall|i: int| 0 <= i < n - 1 implies #[trigger] h(ys[i]) == gf_mul_spec(e, recip_fn(c)(ys[i])) by {}
        lemma_dd_sum_scale(e, recip_fn(c), h, ys, (n - 1) as nat);
        assert forall|j: int| 0 <= j < ys.len() implies #[trigger] ys[j] != c by {
            assert(xs[j] != c);
        }
        lemma_dd_recip(ys, c);
        let sy = shifted_prod(ys, c, (n - 1) as nat);
        assert(dd(h, ys) == gf_mul_spec(e, gf_inv_spec(sy)));
        lemma_shifted_prod_prefix(xs, ys, c, (n - 1) as nat);
        lemma_shifted_prod_nonzero(ys, c, (n - 1) as nat);
        lemma_xor_nonzero(a, c);
        lemma_inverse_of_product(sy, a ^ c);
        lemma_gf_mul_commutative(gf_inv_spec(sy), e);
        assert(shifted_prod(xs, c, n) == gf_mul_spec(sy, a ^ c));
        lemma_xor(gf_mul_spec(e, gf_inv_spec(sy)), 0, 0);
        assert(dd(recip_fn(c), xs) == gf_mul_spec(e, gf_inv_spec(sy)));
    }
}

/// The quotient of a polynomial (constant term first) by `x - a`.
pub open spec fn quotient(cs: Seq<u8>, a: u8) -> Seq<u8>
    decreases cs.len(),
{
    if cs.len() <= 1 {
        Seq::empty()
    } else {
        seq![poly_eval(cs.drop_first(), a)] + quotient(cs.drop_first(), a)
    }
}

/// The polynomial as a function.
pub open spec fn poly_fn(cs: Seq<u8>) -> spec_fn(u8) -> u8 {
    |x: u8| poly_eval(cs, x)
}

/// `p(x) == (x - a) q(x) + p(a)` with `q` one coefficient shorter.
proof fn lemma_synthetic_division(cs: Seq<u8>, a: u8, x: u8)
    requires
        cs.len() >= 1,
    ensures
        quotient(cs, a).len() == cs.len() - 1,
        poly_eval(cs, x) == gf_mul_spec(x ^ a, poly_eval(quotient(cs, a), x)) ^ poly_eval(cs, a),
    decreases cs.len(),
{
    let c0 = cs[0];
    let r = cs.drop_first();
    if cs.len() == 1 {
        assert(poly_eval(r, x) == 0);
        assert(poly_eval(r, a) == 0);
        lemma_gf_mul_identity(x);
        lemma_gf_mul_identity(a);
        lemma_gf_mul_identity(x ^ a);
        assert(poly_eval(Seq::<u8>::empty(), x) == 0);
        lemma_xor(c0, 0, 0);
    } else {
        lemma_synthetic_division(r, a, x);
        let qr = quotient(r, a);
        let ra = poly_eval(r, a);
        let qs = quotient(cs, a);
        assert(qs.drop_first() =~= qr);
        assert(qs[0] == ra);
        let q = poly_eval(qr, x);
        assert(poly_eval(qs, x) == gf_mul_spec(q, x) ^ ra);
        let m = gf_mul_spec(gf_mul_spec(x ^ a, q), x);
        let rx = gf_mul_spec(ra, x);
        let rra = gf_mul_spec(ra, a);
        lemma_mul_distributive_right(gf_mul_spec(x ^ a, q), ra, x);
        lemma_gf_mul_distributive(x ^ a, gf_mul_spec(q, x), ra);
        lemma_gf_mul_associative(x ^ a, q, x);
        lemma_gf_mul_commutative(x ^ a, ra);
        lemma_gf_mul_distributive(ra, x, a);
        assert((m ^ (rx ^ rra)) ^ (rra ^ c0) == (m ^ rx) ^ c0) by (bit_vector);
    }
}

/// Over distinct points, the weighted sum of a polynomial with fewer
/// coefficients than points less one vanishes.
proof fn lemma_dd_poly(cs: Seq<u8>, xs: Seq<u8>)
    requires
        distinct_points(xs),
        cs.len() + 1 <= xs.len(),
    ensures
        dd(poly_fn(cs), xs) == 0,
    decreases xs.len(),
{
    let n = xs.len();
    if cs.len() == 0 {
        assert forall|i: int| 0 <= i < n implies #[trigger] poly_fn(cs)(xs[i]) == 0 by {}
        lemma_dd_sum_zero(poly_fn(cs), xs, n);
    } else {
        let a = xs[n - 1];
        let ys = xs.drop_last();
        let qs = quotient(cs, a);
        let pa = poly_eval(cs, a);
        let f1 = |x: u8| gf_mul_spec(x ^ a, poly_eval(qs, x));
        let f2 = |x: u8| pa;
        assert forall|i: int| 0 <= i < n implies #[trigger] poly_fn(cs)(xs[i]) == f1(xs[i]) ^ f2(xs[i]) by {
            lemma_synthetic_division(cs, a, xs[i]);
        }
        lemma_dd_sum_add(f1, f2, poly_fn(cs), xs, n);
        lemma_dd_factor(f1, poly_fn(qs), xs);
        lemma_synthetic_division(cs, a, a);
        assert(distinct_points(ys));
        lemma_dd_poly(qs, ys);
        assert forall|i: int| 0 <= i < n implies #[trigger] f2(xs[i]) == gf_mul_spec(pa, one_fn()(xs[i])) by {
            lemma_gf_mul_identity(pa);
        }
        lemma_dd_sum_scale(pa, one_fn(), f2, xs, n);
        lemma_dd_one(xs);
        lemma_gf_mul_identity(pa);
        lemma_xor(0, 0, 0);
    }
}

/// `Π_{j<m, j≠i} x_j`.
pub open spec fn except_prod(xs: Seq<u8>, i: int, m: nat) -> u8
    decreases m,
{
    if m == 0 {
        1
    } else {
        let prev = except_prod(xs, i, (m - 1) as nat);
        if m - 1 == i {
            prev
        } else {
            gf_mul_spec(prev, xs[m - 1])
        }
    }
}

/// The Lagrange coefficient is `Π_{j≠i} x_j / Π_{j≠i} (x_j - x_i)`.
proof fn lemma_lagrange_factor(xs: Seq<u8>, i: int, m: nat)
    requires
        distinct_points(xs),
        0 <= i < xs.len(),
        m <= xs.len(),
    ensures
        lagrange_basis(xs, i, m) == gf_mul_spec(except_prod(xs, i, m), gf_inv_spec(diff_prod(xs, i, m))),
    decreases m,
{
    if m == 0 {
        lemma_inverse_of_one();
        lemma_gf_mul_identity(1);
    } else {
        lemma_lagrange_factor(xs, i, (m - 1) as nat);
        let j = m - 1;
        if j != i {
            let e = except_prod(xs, i, (m - 1) as nat);
            let w = diff_prod(xs, i, (m - 1) as nat);
            let d = xs[j] ^ xs[i];
            assert(xs[j] != xs[i]);
            lemma_xor_nonzero(xs[j], xs[i]);
            lemma_diff_prod_nonzero(xs, i, (m - 1) as nat);
            lemma_mul_swap(e, gf_inv_spec(w), xs[j], gf_inv_spec(d));
            lemma_inverse_of_product(w, d);
        }
    }
}

/// The product of all points up to `m` is `x_i` times the product of the
/// others.
proof fn lemma_except_prod(xs: Seq<u8>, i: int, m: nat)
    requires
        0 <= i < xs.len(),
        m <= xs.len(),
    ensures
        i < m ==> gf_mul_spec(except_prod(xs, i, m), xs[i]) == shifted_prod(xs, 0, m),
        m <= i ==> except_prod(xs, i, m) == shifted_prod(xs, 0, m),
    decreases m,
{
    if m > 0 {
        lemma_except_prod(xs, i, (m - 1) as nat);
        let j = m - 1;
        let e = except_prod(xs, i, (m - 1) as nat);
        lemma_xor(xs[j], 0, 0);
        if j != i && i < j {
            lemma_gf_mul_associative(e, xs[i], xs[j]);
            lemma_gf_mul_commutative(xs[i], xs[j]);
            lemma_gf_mul_associative(e, xs[j], xs[i]);
        }
    }
}

/// The function `x ↦ f(x) / x`.
pub open spec fn over_x(cs: Seq<u8>) -> spec_fn(u8) -> u8 {
    |x: u8| gf_mul_spec(poly_eval(cs, x), gf_inv_spec(x))
}

/// The shares lie on the polynomial `cs` at byte `b`, at distinct non-zero
/// points.
pub open spec fn shares_on(shares: Seq<ShareView>, b: int, cs: Seq<u8>) -> bool {
    &&& distinct_points(share_points(shares))
    &&& forall|i: int| 0 <= i < shares.len() ==> (#[trigger] shares[i]).x != 0
    &&& forall|i: int|
        0 <= i < shares.len() ==> (#[trigger] shares[i]).y[b] == poly_eval(cs, shares[i].x)
}

/// The first `k` interpolation terms are `Π_j x_j` times the first `k`
/// terms of the weighted sum of `f(x) / x`.
proof fn lemma_interpolate_prefix(shares: Seq<ShareView>, b: int, cs: Seq<u8>, k: nat)
    requires
        shares_on(shares, b, cs),
        k <= shares.len(),
    ensures
        interpolate_byte(shares, b, k) == gf_mul_spec(
            shifted_prod(share_points(shares), 0, shares.len()),
            dd_sum(over_x(cs), share_points(shares), k),
        ),
    decreases k,
{
    let xs = share_points(shares);
    let n = shares.len();
    let p = shifted_prod(xs, 0, n);
    if k == 0 {
        lemma_gf_mul_identity(p);
    } else {
        lemma_interpolate_prefix(shares, b, cs, (k - 1) as nat);
        let i = k - 1;
        let x = xs[i];
        assert(x == shares[i].x);
        let y = shares[i].y[b];
        assert(y == poly_eval(cs, x));
        assert(x != 0);
        lemma_lagrange_factor(xs, i, n);
        lemma_except_prod(xs, i, n);
        let e = except_prod(xs, i, n);
        let u = gf_inv_spec(x);
        let w = gf_inv_spec(diff_prod(xs, i, n));
        lemma_inverse_facts(x);
        lemma_gf_mul_associative(e, x, u);
        lemma_gf_mul_identity(e);
        assert(e == gf_mul_spec(p, u));
        lemma_gf_mul_associative(p, u, w);
        lemma_mul_left_swap(y, p, gf_mul_spec(u, w));
        lemma_gf_mul_associative(y, u, w);
        assert(over_x(cs)(x) == gf_mul_spec(y, u));
        lemma_gf_mul_distributive(
            p,
            dd_sum(over_x(cs), xs, (k - 1) as nat),
            gf_mul_spec(gf_mul_spec(y, u), w),
        );
    }
}

/// Interpolating at zero the values of a polynomial of at most as many
/// coefficients as there are shares gives back its constant term.
proof fn lemma_interpolate_poly(shares: Seq<ShareView>, b: int, cs: Seq<u8>)
    requires
        shares_on(shares, b, cs),
        1 <= cs.len() <= shares.len(),
    ensures
        interpolate_byte(shares, b, shares.len()) == cs[0],
{
    let xs = share_points(shares);
    let n = shares.len();
    let p = shifted_prod(xs, 0, n);
    let c0 = cs[0];
    let r = cs.drop_first();
    lemma_interpolate_prefix(shares, b, cs, n);
    let h = |x: u8| gf_mul_spec(c0, recip_fn(0)(x));
    assert forall|i: int| 0 <= i < n implies #[trigger] over_x(cs)(xs[i]) == poly_fn(r)(xs[i]) ^ h(xs[i]) by {
        let x = xs[i];
        assert(x == shares[i].x);
        let rx = poly_eval(r, x);
        lemma_inverse_facts(x);
        lemma_mul_distributive_right(gf_mul_spec(rx, x), c0, gf_inv_spec(x));
        lemma_gf_mul_associative(rx, x, gf_inv_spec(x));
        lemma_gf_mul_identity(rx);
        lemma_xor(x, 0, 0);
    }
    lemma_dd_sum_add(poly_fn(r), h, over_x(cs), xs, n);
    lemma_dd_poly(r, xs);
    assert forall|i: int| 0 <= i < n implies #[trigger] h(xs[i]) == gf_mul_spec(c0, recip_fn(0)(xs[i])) by {}
    lemma_dd_sum_scale(c0, recip_fn(0), h, xs, n);
    assert forall|j: int| 0 <= j < xs.len() implies #[trigger] xs[j] != 0 by {
        assert(xs[j] == shares[j].x);
    }
    lemma_dd_recip(xs, 0);
    lemma_shifted_prod_nonzero(xs, 0, n);
    lemma_inverse_facts(p);
    lemma_xor(gf_mul_spec(c0, gf_inv_spec(p)), 0, 0);
    lemma_mul_left_swap(p, c0, gf_inv_spec(p));
    lemma_gf_mul_identity(c0);
}

/// Any `threshold` or more of the shares of a split secret, taken at
/// distinct points, interpolate back to the secret; two or more of them
/// are accepted by `combine`.
pub proof fn lemma_threshold_reconstructs(
    secret: Seq<u8>,
    threshold: u8,
    all: Seq<ShareView>,
    polys: Seq<Seq<u8>>,
    subset: Seq<ShareView>,
)
    requires
        shares_from(secret, threshold, all, polys),
        secret.len() > 0,
        threshold >= 1,
        subset.len() >= threshold,
        forall|i: int| 0 <= i < subset.len() ==> all.contains(#[trigger] subset[i]),
        forall|i: int, j: int|
            0 <= i < subset.len() && 0 <= j < subset.len() && i != j ==> #[trigger] subset[i].x
                != #[trigger] subset[j].x,
        forall|i: int| 0 <= i < subset.len() ==> (#[trigger] subset[i]).x != 0,
    ensures
        interpolate(subset) == secret,
        subset.len() >= 2 ==> combinable(subset),
{
    let n = subset.len();
    let xs = share_points(subset);
    assert forall|i: int, j: int| 0 <= i < n && 0 <= j < n && i != j implies #[trigger] xs[i] != #[trigger] xs[j] by {
        assert(subset[i].x != subset[j].x);
    }
    assert forall|i: int| 0 <= i < n implies (#[trigger] subset[i]).y.len() == secret.len() by {
        assert(all.contains(subset[i]));
        let k = choose|k: int| 0 <= k < all.len() && all[k] == subset[i];
        assert(all[k].y.len() == secret.len());
    }
    assert forall|b: int| 0 <= b < secret.len() implies #[trigger] interpolate_byte(subset, b, n) == secret[b] by {
        let cs = polys[b];
        assert(cs.len() == threshold && cs[0] == secret[b]);
        assert forall|i: int| 0 <= i < n implies (#[trigger] subset[i]).y[b] == poly_eval(cs, subset[i].x) by {
            assert(all.contains(subset[i]));
            let k = choose|k: int| 0 <= k < all.len() && all[k] == subset[i];
            assert(all[k].y[b] == poly_eval(polys[b], all[k].x));
        }
        lemma_interpolate_poly(subset, b, cs);
    }
    assert(interpolate(subset) =~= secret);
}

} // verus!
