//! Field laws of GF(2^8) multiplication as the QR code computes it, and the
//! roots of the Reed-Solomon generator polynomial.

use vstd::prelude::*;
use crate::qr::{
    gf_double, gf_mul_acc, gf_product, gf_power, rs_generator, rs_step, rs_divide, rs_remainder,
    all_codewords, data_codewords, data_codeword_count, ec_codeword_count,
    lemma_gf_double_bound,
};

verus! {

proof fn lemma_half_smaller(y: u8)
    requires
        y != 0,
    ensures
        y >> 1u8 < y,
{
    assert(y >> 1u8 < y) by (bit_vector)
        requires
            y != 0,
    ;
}

proof fn lemma_zero_bits(y: u8)
    requires
        y == 0,
    ensures
        y & 1u8 == 0,
        y >> 1u8 == 0,
{
    assert(y & 1u8 == 0 && y >> 1u8 == 0) by (bit_vector)
        requires
            y == 0,
    ;
}

/// The accumulator of the shift-and-add loop is added to the product.
proof fn lemma_acc(z: u16, a: u16, y: u8)
    ensures
        gf_mul_acc(z, a, y) == z ^ gf_mul_acc(0, a, y),
    decreases y,
{
    if y == 0 {
        assert(z ^ 0u16 == z) by (bit_vector);
    } else {
        lemma_half_smaller(y);
        let y1 = y >> 1u8;
        let da = gf_double(a);
        let m = gf_mul_acc(0, da, y1);
        lemma_acc(if y & 1u8 != 0 { z ^ a } else { z }, da, y1);
        lemma_acc(if y & 1u8 != 0 { 0u16 ^ a } else { 0u16 }, da, y1);
        assert((z ^ a) ^ m == z ^ ((0u16 ^ a) ^ m)) by (bit_vector);
        assert(z ^ m == z ^ (0u16 ^ m)) by (bit_vector);
    }
}

/// One step of the shift-and-add product, for every `y`.
proof fn lemma_unfold(a: u16, y: u8)
    ensures
        gf_mul_acc(0, a, y) == (if y & 1u8 != 0 { a } else { 0u16 }) ^ gf_mul_acc(0, gf_double(a), y >> 1u8),
{
    if y == 0 {
        lemma_zero_bits(y);
        assert(0u16 ^ 0u16 == 0u16) by (bit_vector);
    } else {
        lemma_acc(if y & 1u8 != 0 { 0u16 ^ a } else { 0u16 }, gf_double(a), y >> 1u8);
        assert(0u16 ^ a == a) by (bit_vector);
    }
}

proof fn lemma_acc_bound(a: u16, y: u8)
    requires
        a < 0x100,
    ensures
        gf_mul_acc(0, a, y) < 0x100,
    decreases y,
{
    if y != 0 {
        lemma_half_smaller(y);
        lemma_unfold(a, y);
        lemma_gf_double_bound(a);
        lemma_acc_bound(gf_double(a), y >> 1u8);
        let m = gf_mul_acc(0, gf_double(a), y >> 1u8);
        assert((if y & 1u8 != 0 { a } else { 0u16 }) ^ m < 0x100) by (bit_vector)
            requires
                a < 0x100,
                m < 0x100,
        ;
    }
}

proof fn lemma_double_linear(a: u16, b: u16)
    ensures
        gf_double(a ^ b) == gf_double(a) ^ gf_double(b),
        gf_double(0) == 0,
{
    assert({
        let x = ((a ^ b) << 1u16) as u16;
        let xa = (a << 1u16) as u16;
        let xb = (b << 1u16) as u16;
        (if x & 0x100u16 != 0 { x ^ 0x11Du16 } else { x })
            == (if xa & 0x100u16 != 0 { xa ^ 0x11Du16 } else { xa }) ^ (if xb & 0x100u16 != 0 { xb ^ 0x11Du16 } else { xb })
    }) by (bit_vector);
    assert({
        let x = (0u16 << 1u16) as u16;
        (if x & 0x100u16 != 0 { x ^ 0x11Du16 } else { x }) == 0u16
    }) by (bit_vector);
}

proof fn lemma_acc_zero(y: u8)
    ensures
        gf_mul_acc(0, 0, y) == 0,
    decreases y,
{
    if y != 0 {
        lemma_half_smaller(y);
        lemma_unfold(0, y);
        lemma_double_linear(0, 0);
        lemma_acc_zero(y >> 1u8);
        assert(0u16 ^ 0u16 == 0u16) by (bit_vector);
    }
}

/// The product is additive (XOR) in its first factor.
proof fn lemma_acc_linear_left(a: u16, b: u16, y: u8)
    ensures
        gf_mul_acc(0, a ^ b, y) == gf_mul_acc(0, a, y) ^ gf_mul_acc(0, b, y),
    decreases y,
{
    if y == 0 {
        assert(0u16 == 0u16 ^ 0u16) by (bit_vector);
    } else {
        lemma_half_smaller(y);
        let y1 = y >> 1u8;
        lemma_unfold(a ^ b, y);
        lemma_unfold(a, y);
        lemma_unfold(b, y);
        lemma_double_linear(a, b);
        lemma_acc_linear_left(gf_double(a), gf_double(b), y1);
        let ma = gf_mul_acc(0, gf_double(a), y1);
        let mb = gf_mul_acc(0, gf_double(b), y1);
        assert((if y & 1u8 != 0 { a ^ b } else { 0u16 }) ^ (ma ^ mb)
            == ((if y & 1u8 != 0 { a } else { 0u16 }) ^ ma) ^ ((if y & 1u8 != 0 { b } else { 0u16 }) ^ mb))
            by (bit_vector);
    }
}

/// The product is additive (XOR) in its second factor.
proof fn lemma_acc_linear_right(a: u16, y1: u8, y2: u8)
    ensures
        gf_mul_acc(0, a, y1 ^ y2) == gf_mul_acc(0, a, y1) ^ gf_mul_acc(0, a, y2),
    decreases y1 as int + y2 as int,
{
    if y1 == 0 {
        assert(y1 ^ y2 == y2) by (bit_vector)
            requires
                y1 == 0,
        ;
        let m = gf_mul_acc(0, a, y2);
        assert(m == 0u16 ^ m) by (bit_vector);
    } else if y2 == 0 {
        assert(y1 ^ y2 == y1) by (bit_vector)
            requires
                y2 == 0,
        ;
        let m = gf_mul_acc(0, a, y1);
        assert(m == m ^ 0u16) by (bit_vector);
    } else {
        lemma_half_smaller(y1);
        lemma_half_smaller(y2);
        let h1 = y1 >> 1u8;
        let h2 = y2 >> 1u8;
        assert((y1 ^ y2) >> 1u8 == h1 ^ h2) by (bit_vector)
            requires
                h1 == y1 >> 1u8,
                h2 == y2 >> 1u8,
        ;
        lemma_unfold(a, y1 ^ y2);
        lemma_unfold(a, y1);
        lemma_unfold(a, y2);
        lemma_acc_linear_right(gf_double(a), h1, h2);
        let m1 = gf_mul_acc(0, gf_double(a), h1);
        let m2 = gf_mul_acc(0, gf_double(a), h2);
        assert((if (y1 ^ y2) & 1u8 != 0 { a } else { 0u16 }) ^ (m1 ^ m2)
            == ((if y1 & 1u8 != 0 { a } else { 0u16 }) ^ m1) ^ ((if y2 & 1u8 != 0 { a } else { 0u16 }) ^ m2))
            by (bit_vector);
    }
}

/// Doubling the first factor doubles the product.
proof fn lemma_acc_double(a: u16, y: u8)
    ensures
        gf_mul_acc(0, gf_double(a), y) == gf_double(gf_mul_acc(0, a, y)),
    decreases y,
{
    lemma_double_linear(0, 0);
    if y != 0 {
        lemma_half_smaller(y);
        let y1 = y >> 1u8;
        let da = gf_double(a);
        lemma_unfold(da, y);
        lemma_unfold(a, y);
        lemma_acc_double(da, y1);
        let m = gf_mul_acc(0, da, y1);
        let c = if y & 1u8 != 0 { a } else { 0u16 };
        lemma_double_linear(c, m);
    }
}

proof fn lemma_acc_one(y: u8)
    ensures
        gf_mul_acc(0, 1, y) == y as u16,
    decreases y,
{
    if y != 0 {
        lemma_half_smaller(y);
        let y1 = y >> 1u8;
        lemma_unfold(1, y);
        assert({
            let x = (1u16 << 1u16) as u16;
            (if x & 0x100u16 != 0 { x ^ 0x11Du16 } else { x }) == 2u16
        }) by (bit_vector);
        lemma_acc_double(1, y1);
        lemma_acc_one(y1);
        let h = y1 as u16;
        assert({
            let x = (h << 1u16) as u16;
            (if y & 1u8 != 0 { 1u16 } else { 0u16 }) ^ (if x & 0x100u16 != 0 { x ^ 0x11Du16 } else { x }) == y as u16
        }) by (bit_vector)
            requires
                h == (y >> 1u8) as u16,
        ;
    }
}

/// The product commutes.
proof fn lemma_acc_commutes(x: u8, y: u8)
    ensures
        gf_mul_acc(0, x as u16, y) == gf_mul_acc(0, y as u16, x),
    decreases y,
{
    if y == 0 {
        lemma_acc_zero(x);
    } else {
        lemma_half_smaller(y);
        let y1 = y >> 1u8;
        let x16 = x as u16;
        let h = y1 as u16;
        lemma_unfold(x16, y);
        lemma_acc_double(x16, y1);
        lemma_acc_commutes(x, y1);
        lemma_acc_double(h, x);
        let e = if y & 1u8 != 0 { 1u16 } else { 0u16 };
        assert(y as u16 == gf_double(h) ^ e) by (bit_vector)
            requires
                h == (y >> 1u8) as u16,
                e == (if y & 1u8 != 0 { 1u16 } else { 0u16 }),
        ;
        lemma_acc_linear_left(gf_double(h), e, x);
        lemma_acc_one(x);
        lemma_acc_zero(x);
        let t = gf_mul_acc(0, gf_double(h), x);
        assert((if y & 1u8 != 0 { x16 } else { 0u16 }) ^ t == t ^ (if y & 1u8 != 0 { x16 } else { 0u16 })) by (bit_vector);
    }
}

/// `a` doubled, as a byte.
pub open spec fn gf_twice(a: u8) -> u8 {
    gf_double(a as u16) as u8
}

proof fn lemma_product_acc(x: u8, y: u8)
    ensures
        gf_product(x, y) as u16 == gf_mul_acc(0, x as u16, y),
{
    lemma_acc_bound(x as u16, y);
    let m = gf_mul_acc(0, x as u16, y);
    assert(((m & 0xFFu16) as u8) as u16 == m) by (bit_vector)
        requires
            m < 0x100,
    ;
}

proof fn lemma_twice(a: u8)
    ensures
        gf_twice(a) as u16 == gf_double(a as u16),
{
    lemma_gf_double_bound(a as u16);
}

/// Multiplying by zero gives zero, on either side.
pub proof fn lemma_product_zero(x: u8)
    ensures
        gf_product(x, 0) == 0,
        gf_product(0, x) == 0,
{
    lemma_product_acc(x, 0);
    lemma_product_acc(0, x);
    lemma_acc_zero(x);
}

/// Multiplication in GF(2^8) is commutative.
pub proof fn lemma_product_commutes(x: u8, y: u8)
    ensures
        gf_product(x, y) == gf_product(y, x),
{
    lemma_product_acc(x, y);
    lemma_product_acc(y, x);
    lemma_acc_commutes(x, y);
}

/// Multiplication distributes over addition (XOR) in the second factor.
pub proof fn lemma_product_distributes_right(a: u8, y1: u8, y2: u8)
    ensures
        gf_product(a, y1 ^ y2) == gf_product(a, y1) ^ gf_product(a, y2),
{
    lemma_product_acc(a, y1 ^ y2);
    lemma_product_acc(a, y1);
    lemma_product_acc(a, y2);
    lemma_acc_linear_right(a as u16, y1, y2);
    let p = gf_product(a, y1 ^ y2);
    let q = gf_product(a, y1);
    let r = gf_product(a, y2);
    assert(p == q ^ r) by (bit_vector)
        requires
            p as u16 == (q as u16) ^ (r as u16),
    ;
}

/// Multiplication distributes over addition (XOR) in the first factor.
pub proof fn lemma_product_distributes_left(a: u8, b: u8, y: u8)
    ensures
        gf_product(a ^ b, y) == gf_product(a, y) ^ gf_product(b, y),
{
    lemma_product_commutes(a ^ b, y);
    lemma_product_commutes(a, y);
    lemma_product_commutes(b, y);
    lemma_product_distributes_right(y, a, b);
}

proof fn lemma_product_unfold(x: u8, y: u8)
    ensures
        gf_product(x, y) == (if y & 1u8 != 0 { x } else { 0u8 }) ^ gf_product(gf_twice(x), y >> 1u8),
{
    lemma_product_acc(x, y);
    lemma_product_acc(gf_twice(x), y >> 1u8);
    lemma_twice(x);
    lemma_unfold(x as u16, y);
    let p = gf_product(x, y);
    let q = gf_product(gf_twice(x), y >> 1u8);
    assert(p == (if y & 1u8 != 0 { x } else { 0u8 }) ^ q) by (bit_vector)
        requires
            p as u16 == (if y & 1u8 != 0 { x as u16 } else { 0u16 }) ^ (q as u16),
    ;
}

proof fn lemma_product_twice(x: u8, y: u8)
    ensures
        gf_product(gf_twice(x), y) == gf_twice(gf_product(x, y)),
{
    lemma_product_acc(gf_twice(x), y);
    lemma_product_acc(x, y);
    lemma_twice(x);
    lemma_twice(gf_product(x, y));
    lemma_acc_double(x as u16, y);
}

/// Multiplication in GF(2^8) is associative.
pub proof fn lemma_product_associates(a: u8, b: u8, c: u8)
    ensures
        gf_product(gf_product(a, b), c) == gf_product(a, gf_product(b, c)),
    decreases c,
{
    if c == 0 {
        lemma_product_zero(gf_product(a, b));
        lemma_product_zero(b);
        lemma_product_zero(a);
    } else {
        lemma_half_smaller(c);
        let c1 = c >> 1u8;
        let ab = gf_product(a, b);
        let tb = gf_twice(b);
        lemma_product_unfold(ab, c);
        lemma_product_commutes(a, tb);
        lemma_product_twice(b, a);
        lemma_product_commutes(b, a);
        lemma_product_associates(a, tb, c1);
        lemma_product_unfold(b, c);
        let cb = if c & 1u8 != 0 { b } else { 0u8 };
        lemma_product_distributes_right(a, cb, gf_product(tb, c1));
        lemma_product_zero(a);
    }
}

/// The value at `x` of the polynomial with coefficients `p`, highest power
/// first (Horner's rule).
pub open spec fn poly_eval(p: Seq<u8>, x: u8) -> u8
    decreases p.len(),
{
    if p.len() == 0 { 0 } else { gf_product(poly_eval(p.drop_last(), x), x) ^ p.last() }
}

/// The polynomial `p` times `(x + r)`, coefficients highest power first.
pub open spec fn times_linear(p: Seq<u8>, r: u8) -> Seq<u8> {
    Seq::new(p.len() + 1, |j: int|
        (if j < p.len() { p[j] } else { 0u8 }) ^ (if j >= 1 { gf_product(p[j - 1], r) } else { 0u8 }))
}

proof fn lemma_eval_add_constant(p: Seq<u8>, c: u8, x: u8)
    requires
        p.len() > 0,
    ensures
        poly_eval(p.update(p.len() - 1, p.last() ^ c), x) == poly_eval(p, x) ^ c,
{
    let q = p.update(p.len() - 1, p.last() ^ c);
    assert(q.drop_last() =~= p.drop_last());
    let e = gf_product(poly_eval(p.drop_last(), x), x);
    let l = p.last();
    assert(e ^ (l ^ c) == (e ^ l) ^ c) by (bit_vector);
}

/// Evaluating a product with a linear factor: `(p * (x + r))(x) = p(x) * (x + r)`.
pub proof fn lemma_eval_times_linear(p: Seq<u8>, r: u8, x: u8)
    ensures
        poly_eval(times_linear(p, r), x) == gf_product(poly_eval(p, x), x ^ r),
    decreases p.len(),
{
    let h = times_linear(p, r);
    let s = x ^ r;
    if p.len() == 0 {
        assert(h.drop_last() =~= Seq::<u8>::empty());
        lemma_product_zero(x);
        lemma_product_zero(s);
        assert(0u8 ^ (0u8 ^ 0u8) == 0u8) by (bit_vector);
        assert(h[0] == 0u8 ^ 0u8);
        assert(poly_eval(h.drop_last(), x) == 0);
        assert(poly_eval(h, x) == 0);
        assert(poly_eval(p, x) == 0);
    } else {
        let p0 = p.drop_last();
        let c = p.last();
        let n = p0.len();
        let h0 = times_linear(p0, r);
        lemma_eval_times_linear(p0, r, x);
        let t = if n >= 1 { gf_product(p0[n - 1], r) } else { 0u8 };
        assert(c ^ t == (0u8 ^ t) ^ c) by (bit_vector);
        assert(h.drop_last() =~= h0.update(n as int, h0.last() ^ c));
        lemma_eval_add_constant(h0, c, x);
        let e0 = poly_eval(p0, x);
        let pcr = gf_product(c, r);
        let pcx = gf_product(c, x);
        assert(h.last() == 0u8 ^ pcr);
        lemma_product_distributes_left(gf_product(e0, s), c, x);
        lemma_product_distributes_left(gf_product(e0, x), c, s);
        lemma_product_distributes_right(c, x, r);
        lemma_product_associates(e0, s, x);
        lemma_product_associates(e0, x, s);
        lemma_product_commutes(s, x);
        let a = gf_product(gf_product(e0, s), x);
        assert((a ^ pcx) ^ (0u8 ^ pcr) == a ^ (pcx ^ pcr)) by (bit_vector);
        assert(poly_eval(h.drop_last(), x) == gf_product(e0, s) ^ c);
        assert(poly_eval(h, x) == (a ^ pcx) ^ (0u8 ^ pcr));
        assert(poly_eval(p, x) == gf_product(e0, x) ^ c);
        assert(gf_product(gf_product(e0, x), s) == a);
    }
}

/// The Reed-Solomon generator polynomial of degree `d` vanishes at each of
/// `2^0, 2^1, ..., 2^(d-1)`: it is the product of `(x - 2^i)` for `i < d`.
pub proof fn law_generator_roots(d: nat, i: nat)
    requires
        i < d,
    ensures
        poly_eval(rs_generator(d), gf_power(2, i)) == 0,
    decreases d,
{
    let g = rs_generator((d - 1) as nat);
    let root = gf_power(2, (d - 1) as nat);
    let x = gf_power(2, i);
    assert(rs_generator(d) =~= times_linear(g, root));
    lemma_eval_times_linear(g, root, x);
    if i == d - 1 {
        assert(x ^ x == 0u8) by (bit_vector);
        lemma_product_zero(poly_eval(g, x));
    } else {
        law_generator_roots((d - 1) as nat, i);
        lemma_product_zero(x ^ root);
    }
}

/// The generator polynomial is monic: its leading coefficient is 1.
pub proof fn law_generator_monic(d: nat)
    ensures
        rs_generator(d).len() == d + 1,
        rs_generator(d)[0] == 1,
    decreases d,
{
    if d > 0 {
        law_generator_monic((d - 1) as nat);
        let g = rs_generator((d - 1) as nat);
        let g0 = g[0];
        assert(g0 ^ 0u8 == g0) by (bit_vector);
    }
}

proof fn lemma_product_one(y: u8)
    ensures
        gf_product(1, y) == y,
{
    lemma_product_acc(1, y);
    lemma_acc_one(y);
}

/// Coefficient-wise sum (XOR) of two polynomials of the same length.
pub open spec fn poly_add(p: Seq<u8>, q: Seq<u8>) -> Seq<u8> {
    Seq::new(p.len(), |k: int| p[k] ^ q[k])
}

/// Evaluation is additive.
pub proof fn lemma_eval_add(p: Seq<u8>, q: Seq<u8>, x: u8)
    requires
        p.len() == q.len(),
    ensures
        poly_eval(poly_add(p, q), x) == poly_eval(p, x) ^ poly_eval(q, x),
    decreases p.len(),
{
    let s = poly_add(p, q);
    if p.len() == 0 {
        assert(0u8 == 0u8 ^ 0u8) by (bit_vector);
    } else {
        assert(s.drop_last() =~= poly_add(p.drop_last(), q.drop_last()));
        lemma_eval_add(p.drop_last(), q.drop_last(), x);
        let ep = poly_eval(p.drop_last(), x);
        let eq = poly_eval(q.drop_last(), x);
        lemma_product_distributes_left(ep, eq, x);
        let a = gf_product(ep, x);
        let b = gf_product(eq, x);
        let pl = p.last();
        let ql = q.last();
        assert((a ^ b) ^ (pl ^ ql) == (a ^ pl) ^ (b ^ ql)) by (bit_vector);
    }
}

/// `m` times `gen`, placed at position `i` of a sequence of length `n` of
/// zeros.
pub open spec fn placed_multiple(n: nat, gen: Seq<u8>, i: int, m: u8) -> Seq<u8> {
    Seq::new(n, |k: int| if i <= k < i + gen.len() { gf_product(gen[k - i], m) } else { 0u8 })
}

proof fn lemma_eval_zeros(n: nat, x: u8)
    ensures
        poly_eval(Seq::new(n, |k: int| 0u8), x) == 0,
    decreases n,
{
    if n > 0 {
        assert(Seq::new(n, |k: int| 0u8).drop_last() =~= Seq::new((n - 1) as nat, |k: int| 0u8));
        lemma_eval_zeros((n - 1) as nat, x);
        lemma_product_zero(x);
        assert(0u8 ^ 0u8 == 0u8) by (bit_vector);
    }
}

proof fn lemma_eval_placed_end(gen: Seq<u8>, i: nat, m: u8, x: u8)
    ensures
        poly_eval(placed_multiple(i + gen.len(), gen, i as int, m), x) == gf_product(poly_eval(gen, x), m),
    decreases gen.len(),
{
    let w = placed_multiple(i + gen.len(), gen, i as int, m);
    if gen.len() == 0 {
        assert(w =~= Seq::new(i, |k: int| 0u8));
        lemma_eval_zeros(i, x);
        lemma_product_zero(m);
    } else {
        let g0 = gen.drop_last();
        let c = gen.last();
        assert(w.drop_last() =~= placed_multiple(i + g0.len(), g0, i as int, m));
        lemma_eval_placed_end(g0, i, m, x);
        let e0 = poly_eval(g0, x);
        lemma_product_associates(e0, m, x);
        lemma_product_associates(e0, x, m);
        lemma_product_commutes(m, x);
        lemma_product_distributes_left(gf_product(e0, x), c, m);
    }
}

/// A multiple of a polynomial that vanishes at `x`, placed anywhere that it
/// fits, vanishes at `x` too.
proof fn lemma_eval_placed_root(n: nat, gen: Seq<u8>, i: nat, m: u8, x: u8)
    requires
        i + gen.len() <= n,
        poly_eval(gen, x) == 0,
    ensures
        poly_eval(placed_multiple(n, gen, i as int, m), x) == 0,
    decreases n,
{
    if n == i + gen.len() {
        lemma_eval_placed_end(gen, i, m, x);
        lemma_product_zero(m);
    } else {
        let w = placed_multiple(n, gen, i as int, m);
        assert(w.drop_last() =~= placed_multiple((n - 1) as nat, gen, i as int, m));
        lemma_eval_placed_root((n - 1) as nat, gen, i, m, x);
        lemma_product_zero(x);
        assert(0u8 ^ 0u8 == 0u8) by (bit_vector);
    }
}

/// The division steps keep the value at every root of the divisor, and
/// clear the leading coefficients they have passed.
proof fn lemma_divide_keeps_roots(msg: Seq<u8>, gen: Seq<u8>, i: nat, n: nat, x: u8)
    requires
        gen.len() > 0,
        gen[0] == 1,
        n + gen.len() <= msg.len() + 1,
        poly_eval(gen, x) == 0,
    ensures
        rs_divide(msg, gen, i, n).len() == msg.len(),
        poly_eval(rs_divide(msg, gen, i, n), x) == poly_eval(msg, x),
        forall|k: int| 0 <= k < i ==> msg[k] == 0u8 ==> rs_divide(msg, gen, i, n)[k] == 0u8,
        forall|k: int| i <= k < n ==> rs_divide(msg, gen, i, n)[k] == 0u8,
    decreases n - i,
{
    if i < n {
        let next = rs_step(msg, gen, i as int);
        let w = placed_multiple(msg.len(), gen, i as int, msg[i as int]);
        assert forall|k: int| 0 <= k < msg.len() implies #[trigger] next[k] == msg[k] ^ w[k] by {
            if !(i <= k < i + gen.len()) {
                let a = msg[k];
                assert(a == a ^ 0u8) by (bit_vector);
            }
        }
        assert(next =~= poly_add(msg, w));
        lemma_eval_add(msg, w, x);
        lemma_eval_placed_root(msg.len(), gen, i, msg[i as int], x);
        let e = poly_eval(msg, x);
        assert(e ^ 0u8 == e) by (bit_vector);
        lemma_product_one(msg[i as int]);
        let mi = msg[i as int];
        assert(mi ^ mi == 0u8) by (bit_vector);
        assert(next[i as int] == 0u8);
        lemma_divide_keeps_roots(next, gen, i + 1, n, x);
        assert forall|k: int| 0 <= k < i && msg[k] == 0u8 implies rs_divide(msg, gen, i, n)[k] == 0u8 by {
            assert(next[k] == msg[k]);
        }
    }
}

/// Data codewords followed by their error-correction codewords form a
/// Reed-Solomon codeword: the whole sequence, read as a polynomial,
/// vanishes at each of `2^0, ..., 2^(d-1)` (all its syndromes are zero).
pub proof fn law_codeword_syndromes_vanish(data: Seq<u8>, d: nat, i: nat)
    requires
        i < d,
    ensures
        poly_eval(data + rs_remainder(data, d), gf_power(2, i)) == 0,
{
    let x = gf_power(2, i);
    let n = data.len();
    let gen = rs_generator(d);
    let msg = data + Seq::new(d, |k: int| 0u8);
    law_generator_monic(d);
    law_generator_roots(d, i);
    lemma_divide_keeps_roots(msg, gen, 0, n, x);
    let r = rs_divide(msg, gen, 0, n);
    let rem = rs_remainder(data, d);
    assert(rem == r.subrange(n as int, (n + d) as int));
    assert forall|k: int| 0 <= k < n + d implies (data + rem)[k] == #[trigger] msg[k] ^ r[k] by {
        if k < n {
            let a = data[k];
            assert(a ^ 0u8 == a) by (bit_vector);
        } else {
            let b = r[k];
            assert(0u8 ^ b == b) by (bit_vector);
        }
    }
    assert(data + rem =~= poly_add(msg, r));
    lemma_eval_add(msg, r, x);
    let e = poly_eval(msg, x);
    assert(e ^ e == 0u8) by (bit_vector);
}

/// The codewords that a QR code of version `v` carries, data then error
/// correction, form a Reed-Solomon codeword for that version's number of
/// error-correction codewords.
pub proof fn law_qr_codewords_syndromes_vanish(data: Seq<u8>, v: nat, i: nat)
    requires
        i < ec_codeword_count(v),
    ensures
        poly_eval(all_codewords(data, v), gf_power(2, i)) == 0,
{
    law_codeword_syndromes_vanish(data_codewords(data, data_codeword_count(v)), ec_codeword_count(v), i);
}

} // verus!
