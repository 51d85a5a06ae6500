//! Shamir secret sharing over GF(256).
//!
//! Used by place-locked drops: the per-drop content key is split `t`-of-`n`
//! across cell custodians, so the key can only be reconstructed by
//! collecting a threshold of shares.
//!
//! Arithmetic is over GF(2^8) with the AES polynomial
//! `x^8 + x^4 + x^3 + x + 1`.
use vstd::prelude::*;
use crate::bytes::push_all;
use crate::error::CryptoError;
use crate::rng::random_bytes;

verus! {

/// Multiplication by `x` in GF(2^8): shift left, reducing by the AES
/// polynomial when the top bit falls off.
pub open spec fn xtime(a: u8) -> u8 {
    if a & 0x80u8 != 0 {
        (a << 1u8) ^ 0x1Bu8
    } else {
        a << 1u8
    }
}

/// `a · x^i` in GF(2^8).
pub open spec fn xtimes(a: u8, i: nat) -> u8
    decreases i,
{
    if i == 0 {
        a
    } else {
        xtime(xtimes(a, (i - 1) as nat))
    }
}

/// The product of `a` with the low `n` bits of `b`: the XOR of `a · x^i`
/// over the set bits `i < n` of `b`.
pub open spec fn gf_mul_bits(a: u8, b: u8, n: nat) -> u8
    decreases n,
{
    if n == 0 {
        0
    } else {
        let prev = gf_mul_bits(a, b, (n - 1) as nat);
        if (b >> ((n - 1) as u8)) & 1u8 == 1u8 {
            prev ^ xtimes(a, (n - 1) as nat)
        } else {
            prev
        }
    }
}

/// The product `a · b` in GF(2^8).
pub open spec fn gf_mul_spec(a: u8, b: u8) -> u8 {
    gf_mul_bits(a, b, 8)
}

/// `base^exp` in GF(2^8) by square-and-multiply: the lowest bit of `exp`
/// first, the running product multiplied on the right by successive
/// squares of `base`.
pub open spec fn gf_pow_acc(acc: u8, base: u8, exp: u32) -> u8
    decreases exp,
{
    if exp == 0 {
        acc
    } else {
        gf_pow_acc(
            if exp % 2 == 1 {
                gf_mul_spec(acc, base)
            } else {
                acc
            },
            gf_mul_spec(base, base),
            exp / 2,
        )
    }
}

/// `base^exp` in GF(2^8).
pub open spec fn gf_pow_spec(base: u8, exp: u32) -> u8 {
    gf_pow_acc(1, base, exp)
}

/// The multiplicative inverse `a^254` (zero for zero).
pub open spec fn gf_inv_spec(a: u8) -> u8 {
    gf_pow_spec(a, 254)
}

/// Multiply in GF(2^8).
pub fn gf_mul(a: u8, b: u8) -> (r: u8)
    ensures
        r == gf_mul_spec(a, b),
{
    let mut x = a;
    let mut y = b;
    let mut product = 0u8;
    let mut k: u8 = 0;
    assert(b >> 0u8 == b) by (bit_vector);
    while k < 8
        invariant
            k <= 8,
            x == xtimes(a, k as nat),
            y == b >> k,
            product == gf_mul_bits(a, b, k as nat),
        decreases 8 - k,
    {
        assert((y & 1u8 != 0) == (y & 1u8 == 1u8)) by (bit_vector);
        if y & 1 != 0 {
            product = product ^ x;
        }
        let high = x & 0x80;
        x = x << 1u8;
        if high != 0 {
            x = x ^ 0x1B;
        }
        assert(y >> 1u8 == b >> ((k + 1) as u8)) by (bit_vector)
            requires
                y == b >> k,
                k < 8,
        ;
        y = y >> 1u8;
        k = k + 1;
    }
    product
}

/// Raise to a power in GF(2^8) by square-and-multiply.
pub fn gf_pow(base: u8, exp: u32) -> (r: u8)
    ensures
        r == gf_pow_spec(base, exp),
{
    let mut b = base;
    let mut e = exp;
    let mut result = 1u8;
    while e > 0
        invariant
            gf_pow_acc(result, b, e) == gf_pow_spec(base, exp),
        decreases e,
    {
        if e % 2 == 1 {
            result = gf_mul(result, b);
        }
        b = gf_mul(b, b);
        e = e / 2;
    }
    result
}

/// The multiplicative inverse: `a^(2^8 - 2) = a^254` for `a != 0`.
pub fn gf_inv(a: u8) -> (r: u8)
    ensures
        r == gf_inv_spec(a),
{
    gf_pow(a, 254)
}


/// The value at `x` of the polynomial with the given coefficients (constant
/// term first), by Horner's rule.
pub open spec fn poly_eval(coeffs: Seq<u8>, x: u8) -> u8
    decreases coeffs.len(),
{
    if coeffs.len() == 0 {
        0
    } else {
        gf_mul_spec(poly_eval(coeffs.drop_first(), x), x) ^ coeffs[0]
    }
}

/// Evaluate a polynomial (constant term first) at `x`.
pub fn eval_poly(coeffs: &[u8], x: u8) -> (r: u8)
    ensures
        r == poly_eval(coeffs@, x),
{
    let mut acc = 0u8;
    let mut i = coeffs.len();
    assert(coeffs@.subrange(i as int, coeffs@.len() as int) =~= Seq::<u8>::empty());
    while i > 0
        invariant
            i <= coeffs@.len(),
            acc == poly_eval(coeffs@.subrange(i as int, coeffs@.len() as int), x),
        decreases i,
    {
        i = i - 1;
        let ghost tail = coeffs@.subrange(i as int, coeffs@.len() as int);
        assert(tail.drop_first() =~= coeffs@.subrange(i + 1, coeffs@.len() as int));
        acc = gf_mul(acc, x) ^ coeffs[i];
    }
    assert(coeffs@.subrange(0, coeffs@.len() as int) =~= coeffs@);
    acc
}

/// One share of a split secret.
#[derive(Clone, Debug, PartialEq, Eq)]
pub struct Share {
    /// Evaluation point (`1..=n`, never zero).
    pub x: u8,
    /// Share bytes, one per secret byte.
    pub y: Vec<u8>,
}

/// The abstract content of a [`Share`].
pub ghost struct ShareView {
    pub x: u8,
    pub y: Seq<u8>,
}

impl View for Share {
    type V = ShareView;

    open spec fn view(&self) -> ShareView {
        ShareView { x: self.x, y: self.y@ }
    }
}

/// The views of a list of shares.
pub open spec fn share_views(shares: Seq<Share>) -> Seq<ShareView> {
    shares.map_values(|s: Share| s@)
}

/// The shares are the evaluations, at their points, of one polynomial per
/// secret byte, each of `threshold` coefficients with that byte as its
/// constant term.
pub open spec fn shares_from(secret: Seq<u8>, threshold: u8, shares: Seq<ShareView>, polys: Seq<Seq<u8>>) -> bool {
    &&& polys.len() == secret.len()
    &&& forall|b: int| 0 <= b < secret.len() ==> (#[trigger] polys[b]).len() == threshold && polys[b][0] == secret[b]
    &&& forall|k: int| 0 <= k < shares.len() ==> (#[trigger] shares[k]).y.len() == secret.len()
    &&& forall|k: int, b: int|
        0 <= k < shares.len() && 0 <= b < secret.len() ==> (#[trigger] shares[k].y[b]) == poly_eval(
            polys[b],
            shares[k].x,
        )
}

/// Split `secret` into `shares` shares at the points `1..=shares`, any
/// `threshold` of which reconstruct it. The coefficients above the constant
/// term are random.
pub fn split(secret: &[u8], threshold: u8, shares: u8) -> (r: Result<Vec<Share>, CryptoError>)
    ensures
        r is Err <==> (secret@.len() == 0 || threshold < 2 || shares < threshold),
        r matches Err(e) ==> e == CryptoError::InvalidKeyLength,
        r matches Ok(out) ==> {
            &&& out@.len() == shares
            &&& forall|k: int| 0 <= k < shares ==> (#[trigger] out@[k]).x == k + 1
            &&& exists|polys: Seq<Seq<u8>>| #[trigger] shares_from(secret@, threshold, share_views(out@), polys)
        },
{
    if secret.len() == 0 || threshold < 2 || shares < threshold {
        return Err(CryptoError::InvalidKeyLength);
    }
    let mut polys: Vec<Vec<u8>> = Vec::new();
    let mut b: usize = 0;
    while b < secret.len()
        invariant
            b <= secret@.len(),
            threshold >= 2,
            polys@.len() == b,
            forall|j: int| 0 <= j < b ==> (#[trigger] polys@[j])@.len() == threshold && polys@[j]@[0] == secret@[j],
        decreases secret@.len() - b,
    {
        let mut coeffs: Vec<u8> = Vec::new();
        coeffs.push(secret[b]);
        let random = random_bytes((threshold - 1) as usize);
        push_all(&mut coeffs, random.as_slice());
        polys.push(coeffs);
        b = b + 1;
    }
    let ghost pv = polys@.map_values(|p: Vec<u8>| p@);
    let mut out: Vec<Share> = Vec::new();
    let mut k: u8 = 0;
    while k < shares
        invariant
            k <= shares,
            polys@.len() == secret@.len(),
            pv == polys@.map_values(|p: Vec<u8>| p@),
            out@.len() == k,
            forall|m: int| 0 <= m < k ==> (#[trigger] out@[m]).x == m + 1,
            forall|m: int| 0 <= m < k ==> (#[trigger] out@[m]).y@.len() == secret@.len(),
            forall|m: int, c: int|
                0 <= m < k && 0 <= c < secret@.len() ==> (#[trigger] out@[m].y@[c]) == poly_eval(
                    pv[c],
                    out@[m].x,
                ),
        decreases shares - k,
    {
        let x = k + 1;
        let mut y: Vec<u8> = Vec::new();
        let mut c: usize = 0;
        while c < secret.len()
            invariant
                c <= secret@.len(),
                polys@.len() == secret@.len(),
                pv == polys@.map_values(|p: Vec<u8>| p@),
                y@.len() == c,
                forall|d: int| 0 <= d < c ==> (#[trigger] y@[d]) == poly_eval(pv[d], x),
            decreases secret@.len() - c,
        {
            let v = eval_poly(polys[c].as_slice(), x);
            y.push(v);
            c = c + 1;
        }
        out.push(Share { x, y });
        k = k + 1;
    }
    proof {
        let views = share_views(out@);
        assert(shares_from(secret@, threshold, views, pv));
    }
    Ok(out)
}

/// The Lagrange basis coefficient of share `i` at zero over the first `m`
/// points: the product, over `j < m` other than `i`, of
/// `x_j / (x_j - x_i)` (subtraction is XOR).
pub open spec fn lagrange_basis(xs: Seq<u8>, i: int, m: nat) -> u8
    decreases m,
{
    if m == 0 {
        1
    } else {
        let prev = lagrange_basis(xs, i, (m - 1) as nat);
        let j = m - 1;
        if j == i {
            prev
        } else {
            gf_mul_spec(prev, gf_mul_spec(xs[j], gf_inv_spec(xs[j] ^ xs[i])))
        }
    }
}

/// The evaluation points of a list of shares.
pub open spec fn share_points(shares: Seq<ShareView>) -> Seq<u8> {
    shares.map_values(|s: ShareView| s.x)
}

/// Byte `b` of the interpolated secret over the first `m` shares: the sum
/// of each share's byte times its Lagrange basis coefficient.
pub open spec fn interpolate_byte(shares: Seq<ShareView>, b: int, m: nat) -> u8
    decreases m,
{
    if m == 0 {
        0
    } else {
        interpolate_byte(shares, b, (m - 1) as nat) ^ gf_mul_spec(
            shares[m - 1].y[b],
            lagrange_basis(share_points(shares), m - 1, shares.len()),
        )
    }
}

/// The secret interpolated at zero from a list of shares.
pub open spec fn interpolate(shares: Seq<ShareView>) -> Seq<u8> {
    Seq::new(shares[0].y.len(), |b: int| interpolate_byte(shares, b, shares.len()))
}

/// The shares that [`combine`] accepts: at least two, all of the same
/// non-zero length, none at the point zero.
pub open spec fn combinable(shares: Seq<ShareView>) -> bool {
    &&& shares.len() >= 2
    &&& shares[0].y.len() > 0
    &&& forall|i: int|
        0 <= i < shares.len() ==> (#[trigger] shares[i]).y.len() == shares[0].y.len() && shares[i].x != 0
}

/// Reconstruct a secret from shares by Lagrange interpolation at zero.
pub fn combine(shares: &[Share]) -> (r: Result<Vec<u8>, CryptoError>)
    ensures
        r is Ok <==> combinable(share_views(shares@)),
        r matches Ok(secret) ==> secret@ == interpolate(share_views(shares@)),
        r matches Err(e) ==> e == CryptoError::InvalidKeyLength,
{
    let ghost views = share_views(shares@);
    if shares.len() < 2 {
        return Err(CryptoError::InvalidKeyLength);
    }
    let len = shares[0].y.len();
    if len == 0 {
        return Err(CryptoError::InvalidKeyLength);
    }
    let n = shares.len();
    let mut i: usize = 0;
    while i < n
        invariant
            n == shares@.len(),
            views == share_views(shares@),
            len == shares@[0].y@.len(),
            i <= n,
            forall|m: int| 0 <= m < i ==> (#[trigger] shares@[m]).y@.len() == len && shares@[m].x != 0,
        decreases n - i,
    {
        if shares[i].y.len() != len || shares[i].x == 0 {
            proof {
                assert(views[i as int] == shares@[i as int]@);
            }
            return Err(CryptoError::InvalidKeyLength);
        }
        i = i + 1;
    }
    proof {
        assert forall|m: int| 0 <= m < n implies (#[trigger] views[m]).y.len() == views[0].y.len()
            && views[m].x != 0 by {
            assert(views[m] == shares@[m]@);
        }
    }
    let ghost xs = share_points(views);
    let mut secret: Vec<u8> = Vec::new();
    let mut b: usize = 0;
    while b < len
        invariant
            b <= len,
            secret@.len() == b,
            forall|c: int| 0 <= c < b ==> secret@[c] == 0,
        decreases len - b,
    {
        secret.push(0);
        b = b + 1;
    }
    i = 0;
    while i < n
        invariant
            n == shares@.len(),
            n >= 2,
            views == share_views(shares@),
            xs == share_points(views),
            len == views[0].y.len(),
            forall|m: int| 0 <= m < n ==> (#[trigger] views[m]).y.len() == len && views[m].x != 0,
            i <= n,
            secret@.len() == len,
            forall|c: int| 0 <= c < len ==> #[trigger] secret@[c] == interpolate_byte(views, c, i as nat),
        decreases n - i,
    {
        let mut coefficient = 1u8;
        let mut j: usize = 0;
        while j < n
            invariant
                n == shares@.len(),
                views == share_views(shares@),
                xs == share_points(views),
                i < n,
                j <= n,
                coefficient == lagrange_basis(xs, i as int, j as nat),
            decreases n - j,
        {
            if i != j {
                let numerator = shares[j].x;
                let denominator = shares[j].x ^ shares[i].x;
                proof {
                    assert(xs[j as int] == views[j as int].x);
                    assert(views[j as int] == shares@[j as int]@);
                    assert(xs[i as int] == views[i as int].x);
                    assert(views[i as int] == shares@[i as int]@);
                }
                coefficient = gf_mul(coefficient, gf_mul(numerator, gf_inv(denominator)));
            }
            j = j + 1;
        }
        let ghost before = secret@;
        let mut c: usize = 0;
        proof {
            assert(views[i as int] == shares@[i as int]@);
        }
        while c < len
            invariant
                n == shares@.len(),
                views == share_views(shares@),
                xs == share_points(views),
                i < n,
                c <= len,
                len == views[i as int].y.len(),
                views[i as int] == shares@[i as int]@,
                coefficient == lagrange_basis(xs, i as int, n as nat),
                secret@.len() == len,
                before.len() == len,
                forall|d: int| 0 <= d < len ==> #[trigger] before[d] == interpolate_byte(views, d, i as nat),
                forall|d: int| 0 <= d < c ==> #[trigger] secret@[d] == interpolate_byte(views, d, (i + 1) as nat),
                forall|d: int| c <= d < len ==> #[trigger] secret@[d] == before[d],
            decreases len - c,
        {
            let v = secret[c] ^ gf_mul(shares[i].y[c], coefficient);
            secret.set(c, v);
            c = c + 1;
        }
        i = i + 1;
    }
    proof {
        assert(secret@ =~= interpolate(views));
    }
    Ok(secret)
}

} // verus!

verus! {

/// Bit `i` of `b` selects `x`; otherwise zero.
spec fn bit_term(b: u8, i: u8, x: u8) -> u8 {
    if (b >> i) & 1u8 == 1u8 {
        x
    } else {
        0u8
    }
}

/// `a · b` written out as the XOR of its eight partial products.
spec fn gf_mul_flat(a: u8, b: u8) -> u8 {
    let a1 = xtime(a);
    let a2 = xtime(a1);
    let a3 = xtime(a2);
    let a4 = xtime(a3);
    let a5 = xtime(a4);
    let a6 = xtime(a5);
    let a7 = xtime(a6);
    bit_term(b, 0, a) ^ bit_term(b, 1, a1) ^ bit_term(b, 2, a2) ^ bit_term(b, 3, a3) ^ bit_term(
        b,
        4,
        a4,
    ) ^ bit_term(b, 5, a5) ^ bit_term(b, 6, a6) ^ bit_term(b, 7, a7)
}

proof fn lemma_mul_bits_step(a: u8, b: u8, n: nat)
    requires
        1 <= n <= 8,
    ensures
        gf_mul_bits(a, b, n) == gf_mul_bits(a, b, (n - 1) as nat) ^ bit_term(
            b,
            (n - 1) as u8,
            xtimes(a, (n - 1) as nat),
        ),
{
    let p = gf_mul_bits(a, b, (n - 1) as nat);
    assert(p ^ 0u8 == p) by (bit_vector);
}

proof fn lemma_gf_mul_flat(a: u8, b: u8)
    ensures
        gf_mul_spec(a, b) == gf_mul_flat(a, b),
{
    reveal_with_fuel(xtimes, 8);
    assert(0u8 ^ bit_term(b, 0, a) == bit_term(b, 0, a)) by (bit_vector);
    lemma_mul_bits_step(a, b, 1);
    lemma_mul_bits_step(a, b, 2);
    lemma_mul_bits_step(a, b, 3);
    lemma_mul_bits_step(a, b, 4);
    lemma_mul_bits_step(a, b, 5);
    lemma_mul_bits_step(a, b, 6);
    lemma_mul_bits_step(a, b, 7);
    lemma_mul_bits_step(a, b, 8);
}

/// Multiplication in GF(2^8) is commutative.
#[verifier::rlimit(100)]
pub proof fn lemma_gf_mul_commutative(a: u8, b: u8)
    ensures
        gf_mul_spec(a, b) == gf_mul_spec(b, a),
{
    lemma_gf_mul_flat(a, b);
    lemma_gf_mul_flat(b, a);
    assert(gf_mul_flat(a, b) == gf_mul_flat(b, a)) by (bit_vector);
}

/// Multiplication in GF(2^8) distributes over addition (XOR).
pub proof fn lemma_gf_mul_distributive(a: u8, b: u8, c: u8)
    ensures
        gf_mul_spec(a, b ^ c) == gf_mul_spec(a, b) ^ gf_mul_spec(a, c),
{
    lemma_gf_mul_flat(a, b);
    lemma_gf_mul_flat(a, c);
    lemma_gf_mul_flat(a, b ^ c);
    assert(gf_mul_flat(a, b ^ c) == gf_mul_flat(a, b) ^ gf_mul_flat(a, c)) by (bit_vector);
}

/// The exponent chain of `a^254`: the successive squares `a^2 .. a^128`
/// and the running products `a^6 .. a^254`.
proof fn lemma_inverse_chain(a: u8) -> (r: (u8, u8, u8, u8, u8, u8, u8, u8, u8, u8, u8, u8, u8, u8))
    ensures
        r.0 == gf_mul_spec(a, a),
        r.1 == gf_mul_spec(r.0, r.0),
        r.2 == gf_mul_spec(r.1, r.1),
        r.3 == gf_mul_spec(r.2, r.2),
        r.4 == gf_mul_spec(r.3, r.3),
        r.5 == gf_mul_spec(r.4, r.4),
        r.6 == gf_mul_spec(r.5, r.5),
        r.7 == gf_mul_spec(r.0, r.1),
        r.8 == gf_mul_spec(r.7, r.2),
        r.9 == gf_mul_spec(r.8, r.3),
        r.10 == gf_mul_spec(r.9, r.4),
        r.11 == gf_mul_spec(r.10, r.5),
        r.12 == gf_mul_spec(r.11, r.6),
        r.13 == gf_inv_spec(a),
        r.13 == r.12,
{
    let s1 = gf_mul_spec(a, a);
    let s2 = gf_mul_spec(s1, s1);
    let s3 = gf_mul_spec(s2, s2);
    let s4 = gf_mul_spec(s3, s3);
    let s5 = gf_mul_spec(s4, s4);
    let s6 = gf_mul_spec(s5, s5);
    let s7 = gf_mul_spec(s6, s6);
    let s8 = gf_mul_spec(s7, s7);
    let p2 = gf_mul_spec(s1, s2);
    let p3 = gf_mul_spec(p2, s3);
    let p4 = gf_mul_spec(p3, s4);
    let p5 = gf_mul_spec(p4, s5);
    let p6 = gf_mul_spec(p5, s6);
    let p7 = gf_mul_spec(p6, s7);
    lemma_gf_mul_flat(1, s1);
    assert(gf_mul_flat(1, s1) == s1) by (bit_vector);
    assert(gf_pow_acc(p7, s8, 0) == p7);
    assert(gf_pow_acc(p6, s7, 1) == p7);
    assert(gf_pow_acc(p5, s6, 3) == p7);
    assert(gf_pow_acc(p4, s5, 7) == p7);
    assert(gf_pow_acc(p3, s4, 15) == p7);
    assert(gf_pow_acc(p2, s3, 31) == p7);
    assert(gf_pow_acc(s1, s2, 63) == p7);
    assert(gf_pow_acc(1, s1, 127) == p7);
    assert(gf_pow_acc(1, a, 254) == p7);
    (s1, s2, s3, s4, s5, s6, s7, p2, p3, p4, p5, p6, p7, p7)
}

/// Every nonzero element of GF(2^8) times its inverse `a^254` is one.
#[verifier::rlimit(100)]
pub proof fn lemma_gf_inverse(a: u8)
    requires
        a != 0,
    ensures
        gf_mul_spec(a, gf_inv_spec(a)) == 1,
{
    let (s1, s2, s3, s4, s5, s6, s7, p2, p3, p4, p5, p6, p7, inv) = lemma_inverse_chain(a);
    lemma_gf_mul_flat(a, a);
    lemma_gf_mul_flat(s1, s1);
    lemma_gf_mul_flat(s2, s2);
    lemma_gf_mul_flat(s3, s3);
    lemma_gf_mul_flat(s4, s4);
    lemma_gf_mul_flat(s5, s5);
    lemma_gf_mul_flat(s6, s6);
    lemma_gf_mul_flat(s1, s2);
    lemma_gf_mul_flat(p2, s3);
    lemma_gf_mul_flat(p3, s4);
    lemma_gf_mul_flat(p4, s5);
    lemma_gf_mul_flat(p5, s6);
    lemma_gf_mul_flat(p6, s7);
    lemma_gf_mul_flat(a, p7);
    assert(gf_mul_flat(a, p7) == 1) by (bit_vector)
        requires
            a != 0,
            s1 == gf_mul_flat(a, a),
            s2 == gf_mul_flat(s1, s1),
            s3 == gf_mul_flat(s2, s2),
            s4 == gf_mul_flat(s3, s3),
            s5 == gf_mul_flat(s4, s4),
            s6 == gf_mul_flat(s5, s5),
            s7 == gf_mul_flat(s6, s6),
            p2 == gf_mul_flat(s1, s2),
            p3 == gf_mul_flat(p2, s3),
            p4 == gf_mul_flat(p3, s4),
            p5 == gf_mul_flat(p4, s5),
            p6 == gf_mul_flat(p5, s6),
            p7 == gf_mul_flat(p6, s7),
    ;
}

proof fn lemma_xtime_linear(x: u8, y: u8)
    ensures
        xtime(x ^ y) == xtime(x) ^ xtime(y),
{
    assert(xtime(x ^ y) == xtime(x) ^ xtime(y)) by (bit_vector);
}

proof fn lemma_xtimes_linear(x: u8, y: u8, k: nat)
    ensures
        xtimes(x ^ y, k) == xtimes(x, k) ^ xtimes(y, k),
    decreases k,
{
    if k > 0 {
        lemma_xtimes_linear(x, y, (k - 1) as nat);
        lemma_xtime_linear(xtimes(x, (k - 1) as nat), xtimes(y, (k - 1) as nat));
    }
}

#[verifier::rlimit(100)]
proof fn lemma_mul_xtime(a: u8, b: u8)
    ensures
        gf_mul_spec(a, xtime(b)) == xtime(gf_mul_spec(a, b)),
{
    lemma_gf_mul_flat(a, b);
    lemma_gf_mul_flat(a, xtime(b));
    lemma_gf_mul_commutative(a, b);
    lemma_gf_mul_commutative(a, xtime(b));
    lemma_gf_mul_flat(b, a);
    lemma_gf_mul_flat(xtime(b), a);
    assert(gf_mul_flat(xtime(b), a) == xtime(gf_mul_flat(b, a))) by (bit_vector);
}

proof fn lemma_mul_xtimes(a: u8, b: u8, k: nat)
    ensures
        gf_mul_spec(a, xtimes(b, k)) == xtimes(gf_mul_spec(a, b), k),
    decreases k,
{
    if k > 0 {
        lemma_mul_xtimes(a, b, (k - 1) as nat);
        lemma_mul_xtime(a, xtimes(b, (k - 1) as nat));
    }
}

proof fn lemma_mul_bits_assoc(a: u8, b: u8, c: u8, n: nat)
    requires
        n <= 8,
    ensures
        gf_mul_spec(a, gf_mul_bits(b, c, n)) == gf_mul_bits(gf_mul_spec(a, b), c, n),
    decreases n,
{
    if n == 0 {
        lemma_gf_mul_flat(a, 0);
        assert(gf_mul_flat(a, 0) == 0) by (bit_vector);
    } else {
        lemma_mul_bits_assoc(a, b, c, (n - 1) as nat);
        let prev = gf_mul_bits(b, c, (n - 1) as nat);
        if (c >> ((n - 1) as u8)) & 1u8 == 1u8 {
            lemma_gf_mul_distributive(a, prev, xtimes(b, (n - 1) as nat));
            lemma_mul_xtimes(a, b, (n - 1) as nat);
        }
    }
}

/// Multiplication in GF(2^8) is associative.
pub proof fn lemma_gf_mul_associative(a: u8, b: u8, c: u8)
    ensures
        gf_mul_spec(gf_mul_spec(a, b), c) == gf_mul_spec(a, gf_mul_spec(b, c)),
{
    lemma_mul_bits_assoc(a, b, c, 8);
}

/// One is the multiplicative identity of GF(2^8), and zero absorbs.
pub proof fn lemma_gf_mul_identity(a: u8)
    ensures
        gf_mul_spec(a, 1) == a,
        gf_mul_spec(1, a) == a,
        gf_mul_spec(a, 0) == 0,
        gf_mul_spec(0, a) == 0,
{
    lemma_gf_mul_flat(a, 1);
    lemma_gf_mul_flat(1, a);
    lemma_gf_mul_flat(a, 0);
    lemma_gf_mul_flat(0, a);
    assert(gf_mul_flat(a, 1) == a) by (bit_vector);
    assert(gf_mul_flat(1, a) == a) by (bit_vector);
    assert(gf_mul_flat(a, 0) == 0) by (bit_vector);
    assert(gf_mul_flat(0, a) == 0) by (bit_vector);
}

} // verus!
