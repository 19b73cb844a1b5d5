//! QR code generation: byte mode, error-correction level L, mask pattern 0,
//! versions 1 to 4.

use vstd::prelude::*;
use crate::text::str_bytes;
use crate::gf_algebra::{poly_eval, law_generator_roots, law_generator_monic, law_codeword_syndromes_vanish};

verus! {

/// Modules on one side of a QR code of version `v`.
pub open spec fn version_size(v: nat) -> nat {
    17 + 4 * v
}

/// Bytes of payload that version `v` holds in byte mode at level L.
pub open spec fn byte_capacity(v: nat) -> nat {
    if v == 1 { 17 } else if v == 2 { 32 } else if v == 3 { 53 } else { 78 }
}

/// Data codewords of version `v` at level L.
pub open spec fn data_codeword_count(v: nat) -> nat {
    if v == 1 { 19 } else if v == 2 { 34 } else if v == 3 { 55 } else { 80 }
}

/// Error-correction codewords of version `v` at level L.
pub open spec fn ec_codeword_count(v: nat) -> nat {
    if v == 1 { 7 } else if v == 2 { 10 } else if v == 3 { 15 } else { 20 }
}

/// The smallest supported version that holds `n` payload bytes.
pub open spec fn select_version(n: nat) -> Option<nat> {
    if n <= 17 {
        Some(1)
    } else if n <= 32 {
        Some(2)
    } else if n <= 53 {
        Some(3)
    } else if n <= 78 {
        Some(4)
    } else {
        None
    }
}

/// A longer payload never gets a smaller version, and every payload of at
/// most 78 bytes fits in one.
pub proof fn law_longer_payloads_need_larger_versions(n1: nat, n2: nat)
    requires
        n1 <= n2,
    ensures
        select_version(n2) matches Some(v2) ==> (select_version(n1) matches Some(v1) && v1 <= v2),
        n2 <= 78 <==> select_version(n2) is Some,
{
}

/// The 4-bit groups of the payload bytes, high half first.
pub open spec fn byte_nibbles(data: Seq<u8>) -> Seq<u8>
    decreases data.len(),
{
    if data.len() == 0 {
        Seq::empty()
    } else {
        byte_nibbles(data.drop_last()) + seq![(data.last() / 16) as u8, (data.last() % 16) as u8]
    }
}

/// The bit stream of a byte-mode segment in 4-bit groups: mode `0100`, the
/// 8-bit length, the payload, and a 4-bit terminator.
pub open spec fn segment_nibbles(data: Seq<u8>) -> Seq<u8> {
    seq![4u8, (data.len() / 16) as u8, (data.len() % 16) as u8] + byte_nibbles(data) + seq![0u8]
}

/// The data codewords: the segment bits in bytes, then the pad bytes
/// `0xEC`, `0x11`, ... up to `count`.
pub open spec fn data_codewords(data: Seq<u8>, count: nat) -> Seq<u8> {
    let nib = segment_nibbles(data);
    Seq::new(count, |i: int|
        if i < data.len() + 2 {
            (nib[2 * i] * 16 + nib[2 * i + 1]) as u8
        } else if (i - data.len() - 2) % 2 == 0 {
            0xECu8
        } else {
            0x11u8
        })
}

/// `a` shifted left in GF(2^8) with the QR reduction polynomial `0x11D`.
pub open spec fn gf_double(a: u16) -> u16 {
    let b = (a << 1u16) as u16;
    if b & 0x100u16 != 0 { b ^ 0x11Du16 } else { b }
}

/// Shift-and-add multiplication: for each set bit of `y`, from the lowest,
/// adds the matching doubling of `a` to `z`.
pub open spec fn gf_mul_acc(z: u16, a: u16, y: u8) -> u16
    decreases y,
{
    if y == 0 {
        z
    } else {
        proof {
            assert((y >> 1u8) < y) by (bit_vector)
                requires
                    y != 0,
            ;
        }
        gf_mul_acc(if y & 1u8 != 0 { z ^ a } else { z }, gf_double(a), y >> 1u8)
    }
}

/// Product of `x` and `y` in GF(2^8) modulo `x^8 + x^4 + x^3 + x^2 + 1`.
pub open spec fn gf_product(x: u8, y: u8) -> u8 {
    (gf_mul_acc(0, x as u16, y) & 0xFFu16) as u8
}

/// `v` to the power `p` in GF(2^8).
pub open spec fn gf_power(v: u8, p: nat) -> u8
    decreases p,
{
    if p == 0 { 1 } else { gf_product(gf_power(v, (p - 1) as nat), v) }
}

/// The Reed-Solomon generator polynomial of the given degree (coefficients
/// from the highest power down): the product of `(x - 2^i)` for `i` below
/// the degree.
pub open spec fn rs_generator(degree: nat) -> Seq<u8>
    decreases degree,
{
    if degree == 0 {
        seq![1u8]
    } else {
        let g = rs_generator((degree - 1) as nat);
        let root = gf_power(2, (degree - 1) as nat);
        Seq::new(g.len() + 1, |j: int|
            (if j < g.len() { g[j] } else { 0u8 }) ^ (if j >= 1 { gf_product(g[j - 1], root) } else { 0u8 }))
    }
}

/// One step of polynomial division: subtracts `msg[i]` times the generator
/// aligned at `i`.
pub open spec fn rs_step(msg: Seq<u8>, gen: Seq<u8>, i: int) -> Seq<u8> {
    Seq::new(msg.len(), |k: int|
        if i <= k < i + gen.len() { msg[k] ^ gf_product(gen[k - i], msg[i]) } else { msg[k] })
}

pub open spec fn rs_divide(msg: Seq<u8>, gen: Seq<u8>, i: nat, n: nat) -> Seq<u8>
    decreases n - i,
{
    if i >= n { msg } else { rs_divide(rs_step(msg, gen, i as int), gen, i + 1, n) }
}

/// The error-correction codewords: the remainder of the data polynomial
/// times `x^degree` divided by the generator.
pub open spec fn rs_remainder(data: Seq<u8>, degree: nat) -> Seq<u8> {
    let msg = data + Seq::new(degree, |k: int| 0u8);
    rs_divide(msg, rs_generator(degree), 0, data.len()).subrange(data.len() as int, (data.len() + degree) as int)
}

pub proof fn lemma_gf_double_bound(a: u16)
    requires
        a < 0x100,
    ensures
        gf_double(a) < 0x100,
{
    assert(a < 0x100u16 ==> {
        let b = (a << 1u16) as u16;
        (if b & 0x100u16 != 0 { b ^ 0x11Du16 } else { b }) < 0x100u16
    }) by (bit_vector);
}

/// Multiplies two elements of GF(2^8).
pub fn gf_mul(x: u8, y: u8) -> (r: u8)
    ensures
        r == gf_product(x, y),
{
    let mut z: u16 = 0;
    let mut a: u16 = x as u16;
    let mut y = y;
    let ghost y0 = y;
    while y != 0
        invariant
            a < 0x100,
            gf_mul_acc(z, a, y) == gf_mul_acc(0, x as u16, y0),
        decreases y,
    {
        if y & 1 != 0 {
            z = z ^ a;
        }
        proof {
            lemma_gf_double_bound(a);
            assert((y >> 1u8) < y) by (bit_vector)
                requires
                    y != 0,
            ;
        }
        y = y >> 1;
        let b: u16 = a << 1;
        a = if b & 0x100 != 0 { b ^ 0x11D } else { b };
    }
    (z & 0xFF) as u8
}

/// `value` to the power `power` in GF(2^8).
pub fn gf_pow(value: u8, power: usize) -> (r: u8)
    ensures
        r == gf_power(value, power as nat),
{
    let mut result: u8 = 1;
    let mut i: usize = 0;
    while i < power
        invariant
            i <= power,
            result == gf_power(value, i as nat),
        decreases power - i,
    {
        result = gf_mul(result, value);
        i = i + 1;
    }
    result
}

fn zeros(n: usize) -> (v: Vec<u8>)
    ensures
        v@ == Seq::new(n as nat, |k: int| 0u8),
{
    let mut v: Vec<u8> = Vec::new();
    let mut i: usize = 0;
    while i < n
        invariant
            i <= n,
            v@ == Seq::new(i as nat, |k: int| 0u8),
        decreases n - i,
    {
        v.push(0);
        assert(v@ =~= Seq::new((i + 1) as nat, |k: int| 0u8));
        i = i + 1;
    }
    v
}

/// The Reed-Solomon generator polynomial of degree `degree`.
pub fn reed_solomon_generator(degree: usize) -> (g: Vec<u8>)
    requires
        degree < 256,
    ensures
        g@ == rs_generator(degree as nat),
        g@.len() == degree + 1,
        g@[0] == 1,
        forall|i: nat| i < degree ==> poly_eval(g@, #[trigger] gf_power(2, i)) == 0,
{
    proof {
        law_generator_monic(degree as nat);
        assert forall|i: nat| i < degree implies poly_eval(rs_generator(degree as nat), #[trigger] gf_power(2, i)) == 0 by {
            law_generator_roots(degree as nat, i);
        }
    }
    let mut generator: Vec<u8> = Vec::new();
    generator.push(1);
    assert(generator@ =~= seq![1u8]);
    let mut i: usize = 0;
    while i < degree
        invariant
            i <= degree < 256,
            generator@ == rs_generator(i as nat),
            generator@.len() == i + 1,
        decreases degree - i,
    {
        let root = gf_pow(2, i);
        let len = generator.len();
        let mut next = zeros(len + 1);
        let ghost g = generator@;
        let mut j: usize = 0;
        while j < len
            invariant
                len == g.len(),
                g == generator@,
                j <= len,
                next@.len() == len + 1,
                forall|k: int| 0 <= k < j ==> #[trigger] next@[k] == (g[k] ^ (if k >= 1 { gf_product(g[k - 1], root) } else { 0u8 })),
                next@[j as int] == (if j >= 1 { gf_product(g[j - 1], root) } else { 0u8 }),
                forall|k: int| j < k <= len ==> #[trigger] next@[k] == 0u8,
            decreases len - j,
        {
            let c = generator[j];
            let cur = next[j];
            next.set(j, cur ^ c);
            let m = gf_mul(c, root);
            let after = next[j + 1];
            next.set(j + 1, after ^ m);
            proof {
                let a = after;
                assert(a == 0u8 ==> a ^ m == m) by (bit_vector);
                let cj = cur;
                assert(cj ^ c == c ^ cj) by (bit_vector);
            }
            j = j + 1;
        }
        proof {
            let root_s = gf_power(2, i as nat);
            let expect = Seq::new(g.len() + 1, |k: int|
                (if k < g.len() { g[k] } else { 0u8 }) ^ (if k >= 1 { gf_product(g[k - 1], root_s) } else { 0u8 }));
            assert forall|k: int| 0 <= k < next@.len() implies next@[k] == expect[k] by {
                if k == len {
                    let t = gf_product(g[k - 1], root_s);
                    assert(0u8 ^ t == t) by (bit_vector);
                }
            }
            assert(next@ =~= expect);
        }
        generator = next;
        i = i + 1;
    }
    generator
}


/// The Reed-Solomon error-correction codewords of `data`.
pub fn reed_solomon_remainder(data: &[u8], degree: usize) -> (r: Vec<u8>)
    requires
        degree < 256,
        data@.len() + degree < usize::MAX,
    ensures
        r@ == rs_remainder(data@, degree as nat),
        r@.len() == degree,
        forall|i: nat| i < degree ==> poly_eval(data@ + r@, #[trigger] gf_power(2, i)) == 0,
{
    proof {
        assert forall|i: nat| i < degree implies poly_eval(data@ + rs_remainder(data@, degree as nat), #[trigger] gf_power(2, i)) == 0 by {
            law_codeword_syndromes_vanish(data@, degree as nat, i);
        }
    }
    let generator = reed_solomon_generator(degree);
    let n = data.len();
    let mut message: Vec<u8> = Vec::new();
    let mut k: usize = 0;
    while k < n
        invariant
            k <= n == data@.len(),
            message@ == data@.subrange(0, k as int),
        decreases n - k,
    {
        message.push(data[k]);
        assert(data@.subrange(0, k + 1) =~= data@.subrange(0, k as int).push(data@[k as int]));
        k = k + 1;
    }
    let mut k: usize = 0;
    let ghost z = Seq::new(degree as nat, |t: int| 0u8);
    while k < degree
        invariant
            k <= degree,
            n == data@.len(),
            n + degree < usize::MAX,
            z == Seq::new(degree as nat, |t: int| 0u8),
            message@ == data@ + z.take(k as int),
        decreases degree - k,
    {
        message.push(0);
        assert(z.take(k + 1) =~= z.take(k as int).push(0u8));
        k = k + 1;
    }
    assert(z.take(degree as int) =~= z);
    assert(data@.subrange(0, n as int) =~= data@);
    let ghost gen = generator@;
    let ghost msg0 = message@;
    let mut i: usize = 0;
    while i < n
        invariant
            n == data@.len(),
            n + degree < usize::MAX,
            gen == generator@,
            gen.len() == degree + 1,
            i <= n,
            message@.len() == n + degree,
            rs_divide(msg0, gen, 0, n as nat) == rs_divide(message@, gen, i as nat, n as nat),
        decreases n - i,
    {
        let factor = message[i];
        let ghost before = message@;
        let mut j: usize = 0;
        while j < generator.len()
            invariant
                gen == generator@,
                gen.len() == degree + 1,
                i < n,
                n + degree < usize::MAX,
                message@.len() == n + degree,
                before.len() == n + degree,
                factor == before[i as int],
                j <= gen.len(),
                forall|t: int| 0 <= t < message@.len() ==> #[trigger] message@[t] == (
                    if i <= t < i + j { before[t] ^ gf_product(gen[t - i], factor) } else { before[t] }),
            decreases gen.len() - j,
        {
            let prod = gf_mul(generator[j], factor);
            let cur = message[i + j];
            message.set(i + j, cur ^ prod);
            j = j + 1;
        }
        assert(message@ =~= rs_step(before, gen, i as int));
        i = i + 1;
    }
    let mut r: Vec<u8> = Vec::new();
    let mut t: usize = n;
    while t < n + degree
        invariant
            n + degree < usize::MAX,
            n <= t <= n + degree,
            message@.len() == n + degree,
            r@ == message@.subrange(n as int, t as int),
        decreases n + degree - t,
    {
        r.push(message[t]);
        assert(message@.subrange(n as int, t + 1) =~= message@.subrange(n as int, t as int).push(message@[t as int]));
        t = t + 1;
    }
    assert(rs_divide(message@, gen, n as nat, n as nat) == message@);
    r
}

/// The data codewords of `data` for a version with `count` data codewords.
pub fn build_data_codewords(data: &[u8], count: usize) -> (r: Vec<u8>)
    requires
        data@.len() + 2 <= count,
        data@.len() < 256,
    ensures
        r@ == data_codewords(data@, count as nat),
        r@.len() == count,
{
    let n = data.len();
    let ghost nib = segment_nibbles(data@);
    proof {
        lemma_byte_nibbles(data@);
    }
    let mut r: Vec<u8> = Vec::new();
    r.push(0x40 + (n / 16) as u8);
    let first_low: u8 = if n > 0 { data[0] / 16 } else { 0 };
    r.push(((n % 16) as u8) * 16 + first_low);
    let mut k: usize = 1;
    while k < n
        invariant
            n == data@.len() < 256,
            1 <= k <= if n > 0 { n } else { 1 },
            nib == segment_nibbles(data@),
            forall|t: int| 0 <= t < data@.len() ==> byte_nibbles(data@)[2 * t] == (#[trigger] data@[t]) / 16
                && byte_nibbles(data@)[2 * t + 1] == data@[t] % 16,
            byte_nibbles(data@).len() == 2 * n,
            r@.len() == k + 1,
            forall|t: int| 0 <= t < r@.len() ==> #[trigger] r@[t] == (nib[2 * t] * 16 + nib[2 * t + 1]) as u8,
        decreases n - k,
    {
        r.push((data[k - 1] % 16) * 16 + data[k] / 16);
        k = k + 1;
    }
    if n > 0 {
        r.push((data[n - 1] % 16) * 16);
    }
    let mut pad = true;
    while r.len() < count
        invariant
            n == data@.len() < 256,
            n + 2 <= count,
            n + 2 <= r@.len() <= count,
            nib == segment_nibbles(data@),
            forall|t: int| 0 <= t < data@.len() ==> byte_nibbles(data@)[2 * t] == (#[trigger] data@[t]) / 16
                && byte_nibbles(data@)[2 * t + 1] == data@[t] % 16,
            byte_nibbles(data@).len() == 2 * n,
            pad == ((r@.len() - n - 2) % 2 == 0),
            forall|t: int| 0 <= t < r@.len() ==> #[trigger] r@[t] == data_codewords(data@, count as nat)[t],
        decreases count - r@.len(),
    {
        r.push(if pad { 0xEC } else { 0x11 });
        pad = !pad;
    }
    assert(r@ =~= data_codewords(data@, count as nat));
    r
}

pub proof fn lemma_byte_nibbles(data: Seq<u8>)
    ensures
        byte_nibbles(data).len() == 2 * data.len(),
        forall|t: int| 0 <= t < data.len() ==> byte_nibbles(data)[2 * t] == (#[trigger] data[t]) / 16
            && byte_nibbles(data)[2 * t + 1] == data[t] % 16,
    decreases data.len(),
{
    if data.len() > 0 {
        lemma_byte_nibbles(data.drop_last());
        assert forall|t: int| 0 <= t < data.len() implies byte_nibbles(data)[2 * t] == (#[trigger] data[t]) / 16
            && byte_nibbles(data)[2 * t + 1] == data[t] % 16 by {
            if t < data.len() - 1 {
                assert(data.drop_last()[t] == data[t]);
            }
        }
    }
}


/// One step of the BCH division of format information by `0x537`.
pub open spec fn bch_step(rem: u16, i: u16) -> u16 {
    if (rem >> i) & 1u16 != 0 { rem ^ ((0x537u16 << ((i - 10) as u16)) as u16) } else { rem }
}

/// BCH division steps from bit `i` down to bit 10.
pub open spec fn bch_run(rem: u16, i: u16) -> u16
    decreases i,
{
    if i < 10 { rem } else { bch_run(bch_step(rem, i), (i - 1) as u16) }
}

/// The 15-bit format information for error-correction level L and the
/// given mask: the 5 data bits, their BCH remainder, XOR `0x5412`.
pub open spec fn format_word(mask: u8) -> u16 {
    let data = (8u16 | (mask as u16)) as u16;
    let r0 = (data << 10u16) as u16;
    ((r0 | bch_run(r0, 14)) ^ 0x5412u16) as u16
}

/// Format information bits for level L and `mask`.
pub fn format_bits(mask: u8) -> (r: u16)
    ensures
        r == format_word(mask),
{
    let data: u16 = (0b01u16 << 3) | mask as u16;
    assert(data == (8u16 | (mask as u16))) by (bit_vector)
        requires
            data == (1u16 << 3u16) | (mask as u16),
    ;
    let mut rem: u16 = data << 10;
    let r0 = rem;
    let mut i: u16 = 15;
    while i > 10
        invariant
            10 <= i <= 15,
            bch_run(r0, 14) == bch_run(rem, (i - 1) as u16),
        decreases i,
    {
        i = i - 1;
        if ((rem >> i) & 1) != 0 {
            rem = rem ^ (0x537 << (i - 10));
        }
    }
    (r0 | rem) ^ 0x5412
}

/// A generated QR module matrix.
#[derive(Debug, Clone, PartialEq, Eq)]
pub struct QrMatrix {
    size: usize,
    modules: Vec<bool>,
}

impl View for QrMatrix {
    type V = (nat, Seq<bool>);

    closed spec fn view(&self) -> (nat, Seq<bool>) {
        (self.size as nat, self.modules@)
    }
}

impl QrMatrix {
    /// Every module of the square is present.
    pub open spec fn wf(&self) -> bool {
        self@.1.len() == self@.0 * self@.0
    }

    /// Whether the module at `(x, y)` is dark.
    pub open spec fn dark(&self, x: int, y: int) -> bool {
        self@.1[y * self@.0 + x]
    }

    /// Modules on one side, without quiet zone.
    pub fn size(&self) -> (n: usize)
        ensures
            n == self@.0,
    {
        self.size
    }

    /// Whether the module at `(x, y)` is dark.
    pub fn get(&self, x: usize, y: usize) -> (b: bool)
        requires
            self.wf(),
            x < self@.0,
            y < self@.0,
        ensures
            b == self.dark(x as int, y as int),
    {
        proof {
            assert(y * self@.0 + x < self@.0 * self@.0) by (nonlinear_arith)
                requires
                    x < self@.0,
                    y < self@.0,
            ;
        }
        let n = self.modules.len();
        assert(y * self.size + x < n);
        self.modules[y * self.size + x]
    }
}

/// Error returned when QR generation cannot represent the input.
#[derive(Debug, Clone, Copy, PartialEq, Eq, Structural)]
pub enum QrError {
    /// The payload is larger than version 4 holds.
    DataTooLong,
}


/// The codewords placed in a QR code of version `v`: data codewords, then
/// their error-correction codewords.
pub open spec fn all_codewords(data: Seq<u8>, v: nat) -> Seq<u8> {
    let d = data_codewords(data, data_codeword_count(v));
    d + rs_remainder(d, ec_codeword_count(v))
}

fn version_for(n: usize) -> (r: Option<usize>)
    ensures
        match r {
            Some(v) => select_version(n as nat) == Some(v as nat),
            None => select_version(n as nat) is None,
        },
{
    if n <= 17 {
        Some(1)
    } else if n <= 32 {
        Some(2)
    } else if n <= 53 {
        Some(3)
    } else if n <= 78 {
        Some(4)
    } else {
        None
    }
}

fn data_count(v: usize) -> (r: usize)
    requires
        1 <= v <= 4,
    ensures
        r == data_codeword_count(v as nat),
{
    if v == 1 { 19 } else if v == 2 { 34 } else if v == 3 { 55 } else { 80 }
}

fn ec_count(v: usize) -> (r: usize)
    requires
        1 <= v <= 4,
    ensures
        r == ec_codeword_count(v as nat),
{
    if v == 1 { 7 } else if v == 2 { 10 } else if v == 3 { 15 } else { 20 }
}

/// The data and error-correction codewords of `data` in a QR code of
/// version `v`.
pub fn qr_codewords(data: &[u8], v: usize) -> (r: Vec<u8>)
    requires
        1 <= v <= 4,
        data@.len() <= byte_capacity(v as nat),
    ensures
        r@ == all_codewords(data@, v as nat),
{
    let d = build_data_codewords(data, data_count(v));
    let ec = reed_solomon_remainder(d.as_slice(), ec_count(v));
    let mut all: Vec<u8> = Vec::new();
    let mut i: usize = 0;
    while i < d.len()
        invariant
            i <= d@.len(),
            all@ == d@.subrange(0, i as int),
        decreases d@.len() - i,
    {
        all.push(d[i]);
        assert(d@.subrange(0, i + 1) =~= d@.subrange(0, i as int).push(d@[i as int]));
        i = i + 1;
    }
    let mut j: usize = 0;
    assert(d@.subrange(0, d@.len() as int) =~= d@);
    while j < ec.len()
        invariant
            j <= ec@.len(),
            d@.len() + ec@.len() < 200,
            all@ == d@ + ec@.subrange(0, j as int),
        decreases ec@.len() - j,
    {
        all.push(ec[j]);
        assert(ec@.subrange(0, j + 1) =~= ec@.subrange(0, j as int).push(ec@[j as int]));
        j = j + 1;
    }
    assert(ec@.subrange(0, ec@.len() as int) =~= ec@);
    all
}


/// Position of module `(x, y)` in a row-major grid of side `size`.
pub open spec fn cell(size: nat, x: int, y: int) -> int {
    y * size + x
}

pub proof fn lemma_cell_bounds(size: nat, x: int, y: int)
    requires
        0 <= x < size,
        0 <= y < size,
    ensures
        0 <= cell(size, x, y) < size * size,
{
    assert(0 <= y * size + x < size * size) by (nonlinear_arith)
        requires
            0 <= x < size,
            0 <= y < size,
    ;
}

fn set_function(modules: &mut Vec<Option<bool>>, size: usize, x: usize, y: usize, dark: bool)
    requires
        old(modules)@.len() == size * size,
        x < size,
        y < size,
    ensures
        final(modules)@ == old(modules)@.update(cell(size as nat, x as int, y as int), Some(dark)),
        final(modules)@.len() == size * size,
        0 <= cell(size as nat, x as int, y as int) < size * size,
{
    proof {
        lemma_cell_bounds(size as nat, x as int, y as int);
    }
    let n = modules.len();
    assert(y * size + x < n);
    modules.set(y * size + x, Some(dark));
}

/// Whether the module at offset `(dx, dy)` of a finder pattern (with its
/// light separator at offsets -1 and 7) is dark.
pub open spec fn finder_module(dx: int, dy: int) -> bool {
    0 <= dx <= 6 && 0 <= dy <= 6 && (dx == 0 || dx == 6 || dy == 0 || dy == 6 || (2 <= dx <= 4 && 2 <= dy <= 4))
}

/// Whether the module at offset `(dx, dy)` from the centre of an alignment
/// pattern is dark: the centre and the outer ring of the 5x5 square.
pub open spec fn alignment_module(dx: int, dy: int) -> bool {
    let ax = if dx < 0 { -dx } else { dx };
    let ay = if dy < 0 { -dy } else { dy };
    let d = if ax >= ay { ax } else { ay };
    d == 0 || d == 2
}

/// A finder or an alignment module at an offset from its anchor.
pub open spec fn shape_module(finder: bool, dx: int, dy: int) -> bool {
    if finder { finder_module(dx, dy) } else { alignment_module(dx, dy) }
}

fn shape_value(finder: bool, dx: i64, dy: i64) -> (b: bool)
    requires
        -100 <= dx <= 100,
        -100 <= dy <= 100,
    ensures
        b == shape_module(finder, dx as int, dy as int),
{
    if finder {
        0 <= dx && dx <= 6 && 0 <= dy && dy <= 6 && (dx == 0 || dx == 6 || dy == 0 || dy == 6 || (2 <= dx && dx <= 4
            && 2 <= dy && dy <= 4))
    } else {
        let ax = if dx < 0 { -dx } else { dx };
        let ay = if dy < 0 { -dy } else { dy };
        let d = if ax >= ay { ax } else { ay };
        d == 0 || d == 2
    }
}

/// Sets every module of the box `[xlo, xhi) x [ylo, yhi)` to the shape
/// anchored at `(ox, oy)`.
fn paint_rect(
    modules: &mut Vec<Option<bool>>,
    size: usize,
    xlo: usize,
    xhi: usize,
    ylo: usize,
    yhi: usize,
    ox: usize,
    oy: usize,
    finder: bool,
)
    requires
        old(modules)@.len() == size * size,
        size <= 64,
        xlo <= xhi <= size,
        ylo <= yhi <= size,
        ox <= 64,
        oy <= 64,
    ensures
        final(modules)@.len() == size * size,
        forall|a: int, b: int| 0 <= a < size && 0 <= b < size ==> #[trigger] final(modules)@[cell(size as nat, a, b)]
            == if xlo <= a < xhi && ylo <= b < yhi {
                Some(shape_module(finder, a - ox, b - oy))
            } else {
                old(modules)@[cell(size as nat, a, b)]
            },
{
    let mut y = ylo;
    while y < yhi
        invariant
            modules@.len() == size * size,
            size <= 64,
            xlo <= xhi <= size,
            ylo <= y <= yhi <= size,
            ox <= 64,
            oy <= 64,
            forall|a: int, b: int| 0 <= a < size && 0 <= b < size ==> #[trigger] modules@[cell(size as nat, a, b)]
                == if xlo <= a < xhi && ylo <= b < y {
                    Some(shape_module(finder, a - ox, b - oy))
                } else {
                    old(modules)@[cell(size as nat, a, b)]
                },
        decreases yhi - y,
    {
        let mut x = xlo;
        while x < xhi
            invariant
                modules@.len() == size * size,
                size <= 64,
                xlo <= x <= xhi <= size,
                ylo <= y < yhi <= size,
                ox <= 64,
                oy <= 64,
                forall|a: int, b: int| 0 <= a < size && 0 <= b < size ==> #[trigger] modules@[cell(size as nat, a, b)]
                    == if (xlo <= a < xhi && ylo <= b < y) || (b == y && xlo <= a < x) {
                        Some(shape_module(finder, a - ox, b - oy))
                    } else {
                        old(modules)@[cell(size as nat, a, b)]
                    },
            decreases xhi - x,
        {
            let dark = shape_value(finder, x as i64 - ox as i64, y as i64 - oy as i64);
            let ghost before = modules@;
            set_function(modules, size, x, y, dark);
            proof {
                assert forall|a: int, b: int| 0 <= a < size && 0 <= b < size implies #[trigger] modules@[cell(size as nat, a, b)]
                    == if (xlo <= a < xhi && ylo <= b < y) || (b == y && xlo <= a < x + 1) {
                        Some(shape_module(finder, a - ox, b - oy))
                    } else {
                        old(modules)@[cell(size as nat, a, b)]
                    } by {
                    lemma_cell_bounds(size as nat, a, b);
                    if a != x || b != y {
                        lemma_cell_injective(size as nat, a, b, x as int, y as int);
                        assert(modules@[cell(size as nat, a, b)] == before[cell(size as nat, a, b)]);
                    }
                }
            }
            x = x + 1;
        }
        y = y + 1;
    }
}

/// Draws a finder pattern with its top-left corner at `(left, top)`,
/// together with the light separator around it, clipped to the grid.
fn draw_finder(modules: &mut Vec<Option<bool>>, size: usize, left: usize, top: usize)
    requires
        old(modules)@.len() == size * size,
        size <= 64,
        left + 7 <= size,
        top + 7 <= size,
    ensures
        final(modules)@.len() == size * size,
        forall|a: int, b: int| 0 <= a < size && 0 <= b < size ==> #[trigger] final(modules)@[cell(size as nat, a, b)]
            == if left - 1 <= a <= left + 7 && top - 1 <= b <= top + 7 {
                Some(finder_module(a - left, b - top))
            } else {
                old(modules)@[cell(size as nat, a, b)]
            },
{
    let ylo: usize = if top == 0 { 0 } else { top - 1 };
    let yhi: usize = if top + 8 <= size { top + 8 } else { size };
    let xlo: usize = if left == 0 { 0 } else { left - 1 };
    let xhi: usize = if left + 8 <= size { left + 8 } else { size };
    paint_rect(modules, size, xlo, xhi, ylo, yhi, left, top, true);
}

/// Draws a 5x5 alignment pattern centred at `(cx, cy)`.
fn draw_alignment(modules: &mut Vec<Option<bool>>, size: usize, cx: usize, cy: usize)
    requires
        old(modules)@.len() == size * size,
        size <= 64,
        2 <= cx,
        cx + 2 < size,
        2 <= cy,
        cy + 2 < size,
    ensures
        final(modules)@.len() == size * size,
        forall|a: int, b: int| 0 <= a < size && 0 <= b < size ==> #[trigger] final(modules)@[cell(size as nat, a, b)]
            == if cx - 2 <= a <= cx + 2 && cy - 2 <= b <= cy + 2 {
                Some(alignment_module(a - cx, b - cy))
            } else {
                old(modules)@[cell(size as nat, a, b)]
            },
{
    paint_rect(modules, size, cx - 2, cx + 3, cy - 2, cy + 3, cx, cy, false);
}

/// Column (`x`) and row (`y`) of the `i`-th of the 30 format-information
/// modules.
pub open spec fn format_coord(size: int, i: int) -> (int, int) {
    if i < 6 {
        (8, i)
    } else if i == 6 {
        (8, 7)
    } else if i == 7 {
        (8, 8)
    } else if i == 8 {
        (7, 8)
    } else if i < 15 {
        (14 - i, 8)
    } else if i < 23 {
        (size - 1 - (i - 15), 8)
    } else {
        (8, size - 7 + (i - 23))
    }
}

fn format_coordinate(size: usize, i: usize) -> (r: (usize, usize))
    requires
        21 <= size,
        i < 30,
    ensures
        r.0 == format_coord(size as int, i as int).0,
        r.1 == format_coord(size as int, i as int).1,
        r.0 < size,
        r.1 < size,
{
    if i < 6 {
        (8, i)
    } else if i == 6 {
        (8, 7)
    } else if i == 7 {
        (8, 8)
    } else if i == 8 {
        (7, 8)
    } else if i < 15 {
        (14 - i, 8)
    } else if i < 23 {
        (size - 1 - (i - 15), 8)
    } else {
        (8, size - 7 + (i - 23))
    }
}

/// Whether bit `i` of `w` is set.
pub open spec fn bit_of(w: u16, i: int) -> bool {
    (w >> (i as u16)) & 1u16 != 0
}

/// Which of the 30 format-information modules `(x, y)` is, or -1 for any
/// other module.
pub open spec fn format_slot(size: int, x: int, y: int) -> int {
    if x == 8 && 0 <= y <= 5 {
        y
    } else if x == 8 && y == 7 {
        6
    } else if x == 8 && y == 8 {
        7
    } else if x == 7 && y == 8 {
        8
    } else if y == 8 && 0 <= x <= 5 {
        14 - x
    } else if y == 8 && size - 8 <= x <= size - 1 {
        15 + (size - 1 - x)
    } else if x == 8 && size - 7 <= y <= size - 1 {
        23 + (y - (size - 7))
    } else {
        -1
    }
}

/// `format_slot` and `format_coord` undo each other.
pub proof fn lemma_format_slot(size: int, x: int, y: int, i: int)
    requires
        21 <= size,
        0 <= x < size,
        0 <= y < size,
        0 <= i < 30,
    ensures
        format_slot(size, format_coord(size, i).0, format_coord(size, i).1) == i,
        format_slot(size, x, y) >= 0 ==> format_coord(size, format_slot(size, x, y)) == (x, y),
        format_slot(size, x, y) < 30,
        (format_slot(size, x, y) == i) == (format_coord(size, i) == (x, y)),
{
}

/// Writes bit `i mod 15` of `w` at the `i`-th format module; with `w`
/// zero this reserves the format area.
fn draw_format_bits(modules: &mut Vec<Option<bool>>, size: usize, w: u16)
    requires
        old(modules)@.len() == size * size,
        21 <= size,
    ensures
        final(modules)@.len() == size * size,
        forall|i: int| 0 <= i < 30 ==> #[trigger] format_written(final(modules)@, size as nat, i, w),
        forall|a: int, b: int| 0 <= a < size && 0 <= b < size ==> #[trigger] final(modules)@[cell(size as nat, a, b)]
            == if format_slot(size as int, a, b) >= 0 {
                Some(bit_of(w, format_slot(size as int, a, b) % 15))
            } else {
                old(modules)@[cell(size as nat, a, b)]
            },
{
    let mut i: usize = 0;
    while i < 30
        invariant
            modules@.len() == size * size,
            21 <= size,
            i <= 30,
            forall|k: int| 0 <= k < i ==> #[trigger] format_written(modules@, size as nat, k, w),
            forall|a: int, b: int| 0 <= a < size && 0 <= b < size ==> #[trigger] modules@[cell(size as nat, a, b)]
                == if 0 <= format_slot(size as int, a, b) < i {
                    Some(bit_of(w, format_slot(size as int, a, b) % 15))
                } else {
                    old(modules)@[cell(size as nat, a, b)]
                },
        decreases 30 - i,
    {
        let (x, y) = format_coordinate(size, i);
        let value = ((w >> ((i % 15) as u16)) & 1) != 0;
        let ghost before = modules@;
        set_function(modules, size, x, y, value);
        proof {
            lemma_cell_bounds(size as nat, x as int, y as int);
            assert forall|k: int| 0 <= k < i + 1 implies #[trigger] format_written(modules@, size as nat, k, w) by {
                if k < i {
                    assert(format_written(before, size as nat, k, w));
                    lemma_format_coords_distinct(size as int, k, i as int);
                    let (kx, ky) = format_coord(size as int, k);
                    lemma_cell_injective(size as nat, kx, ky, x as int, y as int);
                    lemma_cell_bounds(size as nat, kx, ky);
                }
            }
            assert forall|a: int, b: int| 0 <= a < size && 0 <= b < size implies #[trigger] modules@[cell(size as nat, a, b)]
                == if 0 <= format_slot(size as int, a, b) < i + 1 {
                    Some(bit_of(w, format_slot(size as int, a, b) % 15))
                } else {
                    old(modules)@[cell(size as nat, a, b)]
                } by {
                lemma_format_slot(size as int, a, b, i as int);
                lemma_cell_bounds(size as nat, a, b);
                if a != x || b != y {
                    lemma_cell_injective(size as nat, a, b, x as int, y as int);
                    assert(modules@[cell(size as nat, a, b)] == before[cell(size as nat, a, b)]);
                }
            }
        }
        i = i + 1;
    }
}

/// The `i`-th format module holds bit `i mod 15` of `w`.
pub open spec fn format_written(m: Seq<Option<bool>>, size: nat, i: int, w: u16) -> bool {
    let (x, y) = format_coord(size as int, i);
    m[cell(size, x, y)] == Some(bit_of(w, i % 15))
}

pub proof fn lemma_format_coords_distinct(size: int, a: int, b: int)
    requires
        21 <= size,
        0 <= a < 30,
        0 <= b < 30,
        a != b,
    ensures
        format_coord(size, a) != format_coord(size, b),
        0 <= format_coord(size, a).0 < size,
        0 <= format_coord(size, a).1 < size,
{
}

pub proof fn lemma_cell_injective(size: nat, x1: int, y1: int, x2: int, y2: int)
    requires
        0 <= x1 < size,
        0 <= y1 < size,
        0 <= x2 < size,
        0 <= y2 < size,
        (x1, y1) != (x2, y2),
    ensures
        cell(size, x1, y1) != cell(size, x2, y2),
{
    if y1 == y2 {
    } else if y1 < y2 {
        assert(y1 * size + x1 < y2 * size + x2) by (nonlinear_arith)
            requires
                y1 < y2,
                0 <= x1 < size,
                0 <= x2,
        ;
    } else {
        assert(y2 * size + x2 < y1 * size + x1) by (nonlinear_arith)
            requires
                y2 < y1,
                0 <= x2 < size,
                0 <= x1,
        ;
    }
}


/// Mask pattern 0: modules with `x + y` even are inverted.
pub open spec fn mask_module(x: int, y: int) -> bool {
    (x + y) % 2 == 0
}

/// The modules of a row-major grid of side `size`, by column and row.
pub open spec fn grid_of(m: Seq<Option<bool>>, size: nat) -> spec_fn(int, int) -> Option<bool> {
    |a: int, b: int| m[cell(size, a, b)]
}

/// The cells of the two-column strip whose right column is `right`, in
/// placement order: row by row, upward or downward, right column first.
pub open spec fn strip(size: int, right: int, upward: bool) -> Seq<(int, int)> {
    Seq::new((2 * size) as nat, |t: int| (right - t % 2, if upward { size - 1 - t / 2 } else { t / 2 }))
}

/// The order in which data bits are placed: two-column strips from column
/// `right` leftwards, skipping the timing column, alternating upward and
/// downward.
pub open spec fn zigzag(size: int, right: int, upward: bool) -> Seq<(int, int)>
    decreases right,
{
    if right <= 0 {
        Seq::empty()
    } else {
        let r = if right == 6 { 5 } else { right };
        if r < 2 {
            strip(size, r, upward)
        } else {
            strip(size, r, upward) + zigzag(size, r - 2, !upward)
        }
    }
}

/// Bit `n` of the data bits, light past their end.
pub open spec fn data_bit(bits: Seq<bool>, n: int) -> bool {
    0 <= n < bits.len() && bits[n]
}

/// Fills the unset modules of `g`, visited along `order`, with the data
/// bits in turn, each inverted where mask 0 inverts; with the number of
/// bits used.
pub open spec fn place(g: spec_fn(int, int) -> Option<bool>, bits: Seq<bool>, order: Seq<(int, int)>) -> (spec_fn(int, int) -> Option<bool>, int)
    decreases order.len(),
{
    if order.len() == 0 {
        (g, 0)
    } else {
        let prev = place(g, bits, order.drop_last());
        let g1 = prev.0;
        let n = prev.1;
        let x = order.last().0;
        let y = order.last().1;
        if g1(x, y) is Some {
            (g1, n)
        } else {
            (|a: int, b: int| if a == x && b == y { Some(data_bit(bits, n) != mask_module(x, y)) } else { g1(a, b) }, n + 1)
        }
    }
}

/// Places the data bits in the modules left unset, along the zigzag.
fn draw_data(modules: &mut Vec<Option<bool>>, size: usize, bits: &Vec<bool>)
    requires
        old(modules)@.len() == size * size,
        21 <= size <= 64,
    ensures
        final(modules)@.len() == size * size,
        forall|a: int, b: int| 0 <= a < size && 0 <= b < size ==> #[trigger] final(modules)@[cell(size as nat, a, b)]
            == (place(grid_of(old(modules)@, size as nat), bits@, zigzag(size as int, size - 1, true)).0)(a, b),
{
    let ghost g0 = grid_of(old(modules)@, size as nat);
    let ghost full = zigzag(size as int, size - 1, true);
    let ghost mut base: Seq<(int, int)> = Seq::empty();
    let mut bit_index: usize = 0;
    let mut steps: usize = 0;
    let mut upward = true;
    let mut right: usize = size - 1;
    proof {
        assert(base + zigzag(size as int, right as int, upward) =~= full);
        assert forall|a: int, b: int| 0 <= a < size && 0 <= b < size implies #[trigger] modules@[cell(size as nat, a, b)]
            == (place(g0, bits@, base).0)(a, b) by {}
    }
    while right > 0
        invariant_except_break
            right < size,
            bit_index <= steps,
            steps <= size * (size - 1 - right),
            base + zigzag(size as int, right as int, upward) == full,
        invariant
            modules@.len() == size * size,
            21 <= size <= 64,
            g0 == grid_of(old(modules)@, size as nat),
            full == zigzag(size as int, size - 1, true),
            bit_index == place(g0, bits@, base).1,
            forall|a: int, b: int| 0 <= a < size && 0 <= b < size ==> #[trigger] modules@[cell(size as nat, a, b)]
                == (place(g0, bits@, base).0)(a, b),
        ensures
            modules@.len() == size * size,
            base == full,
            forall|a: int, b: int| 0 <= a < size && 0 <= b < size ==> #[trigger] modules@[cell(size as nat, a, b)]
                == (place(g0, bits@, base).0)(a, b),
        decreases right,
    {
        let ghost r0 = right;
        if right == 6 {
            right = right - 1;
        }
        let ghost st = strip(size as int, right as int, upward);
        let mut i: usize = 0;
        while i < size
            invariant
                modules@.len() == size * size,
                21 <= size <= 64,
                1 <= right < size,
                right <= r0,
                r0 < size,
                i <= size,
                bit_index <= steps,
                steps <= size * (size - 1 - r0) + 2 * i,
                st == strip(size as int, right as int, upward),
                g0 == grid_of(old(modules)@, size as nat),
                bit_index == place(g0, bits@, base + st.take(2 * i)).1,
                forall|a: int, b: int| 0 <= a < size && 0 <= b < size ==> #[trigger] modules@[cell(size as nat, a, b)]
                    == (place(g0, bits@, base + st.take(2 * i)).0)(a, b),
            decreases size - i,
        {
            let y = if upward { size - 1 - i } else { i };
            let mut dx: usize = 0;
            while dx < 2
                invariant
                    modules@.len() == size * size,
                    21 <= size <= 64,
                    1 <= right < size,
                    right <= r0,
                    r0 < size,
                    i < size,
                    y < size,
                    y as int == (if upward { size - 1 - i } else { i as int }),
                    dx <= 2,
                    bit_index <= steps,
                    steps <= size * (size - 1 - r0) + 2 * i + dx,
                    st == strip(size as int, right as int, upward),
                    g0 == grid_of(old(modules)@, size as nat),
                    bit_index == place(g0, bits@, base + st.take(2 * i + dx)).1,
                    forall|a: int, b: int| 0 <= a < size && 0 <= b < size ==> #[trigger] modules@[cell(size as nat, a, b)]
                        == (place(g0, bits@, base + st.take(2 * i + dx)).0)(a, b),
                decreases 2 - dx,
            {
                proof {
                    assert(size * (size - 1 - r0) + 2 * i + dx < 64 * 64 + 200) by (nonlinear_arith)
                        requires
                            size <= 64,
                            r0 < size,
                            i < size,
                            dx <= 2,
                    ;
                }
                let ghost done = base + st.take(2 * i + dx);
                let ghost next = base + st.take(2 * i + dx + 1);
                let ghost prev = place(g0, bits@, done);
                steps = steps + 1;
                let x = right - dx;
                proof {
                    lemma_cell_bounds(size as nat, x as int, y as int);
                    let t = 2 * i + dx;
                    assert(t % 2 == dx as int);
                    assert(t / 2 == i as int);
                    assert(st[t] == (x as int, y as int));
                    assert(next.drop_last() =~= done);
                    assert(next.last() == (x as int, y as int));
                }
                assert(size * size <= 64 * 64) by (nonlinear_arith)
                    requires
                        size <= 64,
                ;
                let index = y * size + x;
                let ghost before = modules@;
                if modules[index].is_none() {
                    let bit = bit_index < bits.len() && bits[bit_index];
                    bit_index = bit_index + 1;
                    let masked = (x + y) % 2 == 0;
                    set_function(modules, size, x, y, bit != masked);
                    proof {
                        assert forall|a: int, b: int| 0 <= a < size && 0 <= b < size implies #[trigger] modules@[cell(size as nat, a, b)]
                            == (place(g0, bits@, next).0)(a, b) by {
                            lemma_cell_bounds(size as nat, a, b);
                            if a != x || b != y {
                                lemma_cell_injective(size as nat, a, b, x as int, y as int);
                                assert(modules@[cell(size as nat, a, b)] == before[cell(size as nat, a, b)]);
                            }
                        }
                    }
                } else {
                    proof {
                        assert((prev.0)(x as int, y as int) is Some);
                    }
                }
                dx = dx + 1;
            }
            proof {
                assert(st.take(2 * i + 2) =~= st.take(2 * (i + 1)));
            }
            i = i + 1;
        }
        proof {
            assert(st.take(2 * size) =~= st);
        }
        let ghost z0 = zigzag(size as int, r0 as int, upward);
        proof {
            assert(z0 == (if right < 2 { st } else { st + zigzag(size as int, right - 2, !upward) }));
            base = base + st;
        }
        upward = !upward;
        proof {
            assert(size * (size - 1 - r0) + 2 * size <= size * (size - 1 - r0 + 2)) by (nonlinear_arith);
        }
        if right < 2 {
            proof {
                assert(base =~= full);
            }
            break;
        }
        right = right - 2;
        proof {
            assert(base + zigzag(size as int, right as int, upward) =~= full);
            assert(size * (size - 1 - r0 + 2) <= size * (size - 1 - right)) by (nonlinear_arith)
                requires
                    right + 2 <= r0,
                    r0 < size,
            ;
        }
    }
    proof {
        assert(full == base);
    }
}

/// The cells of `order` all lie on the grid of side `size`.
pub open spec fn on_grid(order: Seq<(int, int)>, size: int) -> bool {
    forall|k: int| 0 <= k < order.len() ==> 0 <= (#[trigger] order[k]).0 < size && 0 <= order[k].1 < size
}

pub proof fn lemma_zigzag_on_grid(size: int, right: int, upward: bool)
    requires
        0 <= right < size,
    ensures
        on_grid(zigzag(size, right, upward), size),
    decreases right,
{
    if right > 0 {
        let r = if right == 6 { 5 } else { right };
        let st = strip(size, r, upward);
        assert(on_grid(st, size)) by {
            assert forall|k: int| 0 <= k < st.len() implies 0 <= (#[trigger] st[k]).0 < size && 0 <= st[k].1 < size by {
                assert(0 <= k / 2 < size);
            }
        }
        if r >= 2 {
            lemma_zigzag_on_grid(size, r - 2, !upward);
            let z = zigzag(size, r - 2, !upward);
            assert forall|k: int| 0 <= k < (st + z).len() implies 0 <= (#[trigger] (st + z)[k]).0 < size && 0 <= (st + z)[k].1 < size by {
                if k >= st.len() {
                    assert((st + z)[k] == z[k - st.len()]);
                }
            }
        }
    }
}

/// The module of grid `g` at `(x, y)`.
pub open spec fn at(g: spec_fn(int, int) -> Option<bool>, x: int, y: int) -> Option<bool> {
    g(x, y)
}

/// Placing along cells of the grid only looks at the grid: two grids that
/// agree on it lead to the same placement there.
pub proof fn lemma_place_congruent(
    g: spec_fn(int, int) -> Option<bool>,
    h: spec_fn(int, int) -> Option<bool>,
    bits: Seq<bool>,
    order: Seq<(int, int)>,
    size: int,
)
    requires
        forall|x: int, y: int| 0 <= x < size && 0 <= y < size ==> #[trigger] at(g, x, y) == at(h, x, y),
        on_grid(order, size),
    ensures
        place(g, bits, order).1 == place(h, bits, order).1,
        forall|x: int, y: int| 0 <= x < size && 0 <= y < size ==> #[trigger] at(place(g, bits, order).0, x, y) == at(place(h, bits, order).0, x, y),
    decreases order.len(),
{
    if order.len() > 0 {
        let rest = order.drop_last();
        assert(on_grid(rest, size)) by {
            assert forall|k: int| 0 <= k < rest.len() implies 0 <= (#[trigger] rest[k]).0 < size && 0 <= rest[k].1 < size by {
                assert(rest[k] == order[k]);
            }
        }
        lemma_place_congruent(g, h, bits, rest, size);
        assert(order.last() == order[order.len() - 1]);
        let g1 = place(g, bits, rest).0;
        let h1 = place(h, bits, rest).0;
        let x = order.last().0;
        let y = order.last().1;
        assert(at(g1, x, y) == at(h1, x, y));
        assert forall|a: int, b: int| 0 <= a < size && 0 <= b < size implies #[trigger] at(place(g, bits, order).0, a, b)
            == at(place(h, bits, order).0, a, b) by {
            assert(at(g1, a, b) == at(h1, a, b));
        }
    }
}

/// The bits of a byte, most significant first.
pub open spec fn byte_bits(b: u8) -> Seq<bool> {
    Seq::new(8, |j: int| (b >> ((7 - j) as u8)) & 1u8 != 0)
}

/// The bits of the codewords, in order, each byte most significant bit
/// first.
pub open spec fn codeword_bits(cw: Seq<u8>) -> Seq<bool>
    decreases cw.len(),
{
    if cw.len() == 0 {
        Seq::empty()
    } else {
        codeword_bits(cw.drop_last()) + byte_bits(cw.last())
    }
}

/// The module grid of the QR code for `data` at version `v`: the function
/// patterns, the codeword bits placed along the zigzag with mask 0, and the
/// format information for level L and mask 0.
pub open spec fn qr_grid(data: Seq<u8>, v: nat) -> spec_fn(int, int) -> Option<bool> {
    let size = version_size(v) as int;
    let patterns = |x: int, y: int| function_module(size, v as int, x, y);
    let placed = place(patterns, codeword_bits(all_codewords(data, v)), zigzag(size, size - 1, true)).0;
    |x: int, y: int| {
        let k = format_slot(size, x, y);
        if k >= 0 {
            Some(bit_of(format_word(0), k % 15))
        } else {
            placed(x, y)
        }
    }
}

/// Whether module `(x, y)` of the QR code for `data` at version `v` is dark.
pub open spec fn qr_module(data: Seq<u8>, v: nat, x: int, y: int) -> bool {
    match qr_grid(data, v)(x, y) {
        Some(b) => b,
        None => false,
    }
}

/// The function-pattern module at `(x, y)` of version `v` (side `size`):
/// the three finders with their separators, the reserved format area, the
/// dark module, the timing row and column and, from version 2 on, the
/// alignment pattern; `None` for a module that carries data.
pub open spec fn function_module(size: int, v: int, x: int, y: int) -> Option<bool> {
    if x <= 7 && y <= 7 {
        Some(finder_module(x, y))
    } else if x >= size - 8 && y <= 7 {
        Some(finder_module(x - (size - 7), y))
    } else if x <= 7 && y >= size - 8 {
        Some(finder_module(x, y - (size - 7)))
    } else if format_slot(size, x, y) >= 0 {
        Some(false)
    } else if x == 8 && y == size - 8 {
        Some(true)
    } else if y == 6 {
        Some(x % 2 == 0)
    } else if x == 6 {
        Some(y % 2 == 0)
    } else if v >= 2 && size - 9 <= x <= size - 5 && size - 9 <= y <= size - 5 {
        Some(alignment_module(x - (size - 7), y - (size - 7)))
    } else {
        None
    }
}

/// Draws an alignment pattern centred at `(cx, cy)` unless that module is
/// already set.
fn place_alignment(modules: &mut Vec<Option<bool>>, size: usize, cx: usize, cy: usize)
    requires
        old(modules)@.len() == size * size,
        size <= 64,
        2 <= cx,
        cx + 2 < size,
        2 <= cy,
        cy + 2 < size,
    ensures
        final(modules)@.len() == size * size,
        old(modules)@[cell(size as nat, cx as int, cy as int)] is Some ==> final(modules)@ == old(modules)@,
        old(modules)@[cell(size as nat, cx as int, cy as int)] is None ==> forall|a: int, b: int|
            0 <= a < size && 0 <= b < size ==> #[trigger] final(modules)@[cell(size as nat, a, b)]
            == if cx - 2 <= a <= cx + 2 && cy - 2 <= b <= cy + 2 {
                Some(alignment_module(a - cx, b - cy))
            } else {
                old(modules)@[cell(size as nat, a, b)]
            },
{
    proof {
        lemma_cell_bounds(size as nat, cx as int, cy as int);
    }
    assert(size * size <= 64 * 64) by (nonlinear_arith)
        requires
            size <= 64,
    ;
    if modules[cy * size + cx].is_none() {
        draw_alignment(modules, size, cx, cy);
    }
}

/// Draws the finder, timing and alignment patterns, the dark module and
/// the reserved format area of version `v` on an empty grid.
fn draw_function_patterns(modules: &mut Vec<Option<bool>>, size: usize, v: usize)
    requires
        old(modules)@.len() == size * size,
        1 <= v <= 4,
        size == version_size(v as nat),
        forall|k: int| 0 <= k < size * size ==> old(modules)@[k] is None,
    ensures
        final(modules)@.len() == size * size,
        forall|a: int, b: int| 0 <= a < size && 0 <= b < size ==> #[trigger] final(modules)@[cell(size as nat, a, b)]
            == function_module(size as int, v as int, a, b),
{
    assert(21 <= size <= 33);
    let ghost m0 = modules@;
    draw_finder(modules, size, 0, 0);
    let ghost m1 = modules@;
    draw_finder(modules, size, size - 7, 0);
    let ghost m2 = modules@;
    draw_finder(modules, size, 0, size - 7);
    let ghost m3 = modules@;
    let mut i: usize = 8;
    while i < size - 8
        invariant
            modules@.len() == size * size,
            size == version_size(v as nat),
            1 <= v <= 4,
            21 <= size <= 33,
            8 <= i <= size - 8,
            forall|a: int, b: int| 0 <= a < size && 0 <= b < size ==> #[trigger] modules@[cell(size as nat, a, b)]
                == if b == 6 && 8 <= a < i {
                    Some(a % 2 == 0)
                } else if a == 6 && 8 <= b < i {
                    Some(b % 2 == 0)
                } else {
                    m3[cell(size as nat, a, b)]
                },
        decreases size - 8 - i,
    {
        let ghost before = modules@;
        set_function(modules, size, i, 6, i % 2 == 0);
        let ghost mid = modules@;
        set_function(modules, size, 6, i, i % 2 == 0);
        proof {
            assert forall|a: int, b: int| 0 <= a < size && 0 <= b < size implies #[trigger] modules@[cell(size as nat, a, b)]
                == if b == 6 && 8 <= a < i + 1 {
                    Some(a % 2 == 0)
                } else if a == 6 && 8 <= b < i + 1 {
                    Some(b % 2 == 0)
                } else {
                    m3[cell(size as nat, a, b)]
                } by {
                lemma_cell_bounds(size as nat, a, b);
                if a != 6 || b != i {
                    lemma_cell_injective(size as nat, a, b, 6, i as int);
                    assert(modules@[cell(size as nat, a, b)] == mid[cell(size as nat, a, b)]);
                    if a != i || b != 6 {
                        lemma_cell_injective(size as nat, a, b, i as int, 6);
                        assert(mid[cell(size as nat, a, b)] == before[cell(size as nat, a, b)]);
                    }
                }
            }
        }
        i = i + 1;
    }
    let ghost m4 = modules@;
    let c = size - 7;
    if v >= 2 {
        proof {
            assert(m4[cell(size as nat, 6, 6)] == m3[cell(size as nat, 6, 6)]);
            assert(m3[cell(size as nat, 6, 6)] == m2[cell(size as nat, 6, 6)]);
            assert(m2[cell(size as nat, 6, 6)] == m1[cell(size as nat, 6, 6)]);
        }
        place_alignment(modules, size, 6, 6);
        let ghost m5 = modules@;
        proof {
            assert(m4[cell(size as nat, c as int, 6)] == m3[cell(size as nat, c as int, 6)]);
            assert(m3[cell(size as nat, c as int, 6)] == m2[cell(size as nat, c as int, 6)]);
        }
        place_alignment(modules, size, c, 6);
        let ghost m6 = modules@;
        proof {
            assert(m5[cell(size as nat, 6, c as int)] == m4[cell(size as nat, 6, c as int)]);
            assert(m4[cell(size as nat, 6, c as int)] == m3[cell(size as nat, 6, c as int)]);
        }
        place_alignment(modules, size, 6, c);
        proof {
            assert(modules@[cell(size as nat, c as int, c as int)] == m4[cell(size as nat, c as int, c as int)]);
            assert(m4[cell(size as nat, c as int, c as int)] == m3[cell(size as nat, c as int, c as int)]);
            assert(m3[cell(size as nat, c as int, c as int)] == m2[cell(size as nat, c as int, c as int)]);
            assert(m2[cell(size as nat, c as int, c as int)] == m1[cell(size as nat, c as int, c as int)]);
            assert(m1[cell(size as nat, c as int, c as int)] == m0[cell(size as nat, c as int, c as int)]);
            lemma_cell_bounds(size as nat, c as int, c as int);
        }
        place_alignment(modules, size, c, c);
    }
    let ghost m8 = modules@;
    set_function(modules, size, 8, 4 * v + 9, true);
    let ghost m9 = modules@;
    draw_format_bits(modules, size, 0);
    proof {
        assert(forall|k: u16| #![auto] (0u16 >> k) & 1u16 == 0u16) by (bit_vector);
        assert forall|a: int, b: int| 0 <= a < size && 0 <= b < size implies #[trigger] modules@[cell(size as nat, a, b)]
            == function_module(size as int, v as int, a, b) by {
            lemma_cell_bounds(size as nat, a, b);
            assert(m0[cell(size as nat, a, b)] is None);
            assert(m1[cell(size as nat, a, b)] == if -1 <= a <= 7 && -1 <= b <= 7 {
                Some(finder_module(a, b))
            } else {
                m0[cell(size as nat, a, b)]
            });
            assert(m2[cell(size as nat, a, b)] == m2[cell(size as nat, a, b)]);
            assert(m3[cell(size as nat, a, b)] == m3[cell(size as nat, a, b)]);
            assert(m4[cell(size as nat, a, b)] == m4[cell(size as nat, a, b)]);
            assert(m8[cell(size as nat, a, b)] == m8[cell(size as nat, a, b)]);
            if a != 8 || b != 4 * v + 9 {
                lemma_cell_injective(size as nat, a, b, 8, 4 * v + 9);
                assert(m9[cell(size as nat, a, b)] == m8[cell(size as nat, a, b)]);
            }
            let k = format_slot(size as int, a, b);
            if k >= 0 {
                assert(!bit_of(0u16, k % 15));
            }
        }
    }
}

/// Encodes `data` as a byte-mode, level-L QR matrix of the smallest version
/// (1 to 4) that holds it.
pub fn qr_matrix(data: &str) -> (r: Result<QrMatrix, QrError>)
    ensures
        r is Err <==> select_version(str_bytes_len(data)) is None,
        r matches Err(e) ==> e == QrError::DataTooLong,
        r matches Ok(m) ==> {
            &&& m.wf()
            &&& m@.0 == version_size(select_version(str_bytes_len(data)).unwrap())
            &&& forall|x: int, y: int| 0 <= x < m@.0 && 0 <= y < m@.0 ==> #[trigger] m.dark(x, y)
                == qr_module(str_bytes(data@), select_version(str_bytes_len(data)).unwrap(), x, y)
            &&& forall|i: int| 0 <= i < 30 ==> #[trigger] format_module_ok(m, i)
        },
{
    let bytes = data.as_bytes();
    let v = match version_for(bytes.len()) {
        Some(v) => v,
        None => {
            return Err(QrError::DataTooLong);
        },
    };
    let size = 17 + 4 * v;
    let codewords = qr_codewords(bytes, v);
    let mut bits: Vec<bool> = Vec::new();
    let mut ci: usize = 0;
    while ci < codewords.len()
        invariant
            ci <= codewords@.len(),
            bits@ == codeword_bits(codewords@.take(ci as int)),
        decreases codewords@.len() - ci,
    {
        let byte = codewords[ci];
        let mut b: u8 = 8;
        while b > 0
            invariant
                b <= 8,
                byte == codewords@[ci as int],
                bits@ == codeword_bits(codewords@.take(ci as int)) + byte_bits(byte).take(8 - b),
            decreases b,
        {
            b = b - 1;
            let ghost prefix = bits@;
            bits.push(((byte >> b) & 1) != 0);
            proof {
                assert(byte_bits(byte).take(8 - b) =~= byte_bits(byte).take(8 - b - 1).push(byte_bits(byte)[8 - b - 1]));
                assert(bits@ =~= codeword_bits(codewords@.take(ci as int)) + byte_bits(byte).take(8 - b));
            }
        }
        proof {
            let t1 = codewords@.take(ci + 1);
            assert(t1.drop_last() =~= codewords@.take(ci as int));
            assert(byte_bits(byte).take(8) =~= byte_bits(byte));
        }
        ci = ci + 1;
    }
    proof {
        assert(codewords@.take(codewords@.len() as int) =~= codewords@);
    }
    assert(size * size <= 33 * 33) by (nonlinear_arith)
        requires
            size <= 33,
    ;
    let mut modules: Vec<Option<bool>> = Vec::new();
    let mut k: usize = 0;
    while k < size * size
        invariant
            k <= size * size,
            size <= 33,
            size * size <= 33 * 33,
            modules@.len() == k,
            forall|t: int| 0 <= t < k ==> modules@[t] is None,
        decreases size * size - k,
    {
        modules.push(None);
        k = k + 1;
    }
    draw_function_patterns(&mut modules, size, v);
    let ghost m_fp = modules@;
    draw_data(&mut modules, size, &bits);
    let ghost m_data = modules@;
    let word = format_bits(0);
    draw_format_bits(&mut modules, size, word);
    let ghost m_fmt = modules@;
    let mut out: Vec<bool> = Vec::new();
    let mut k: usize = 0;
    while k < size * size
        invariant
            k <= size * size,
            size <= 33,
            size * size <= 33 * 33,
            modules@.len() == size * size,
            21 <= size,
            forall|i: int| 0 <= i < 30 ==> #[trigger] format_written(modules@, size as nat, i, word),
            out@.len() == k,
            forall|t: int| 0 <= t < k ==> #[trigger] out@[t] == (match modules@[t] { Some(b) => b, None => false }),
        decreases size * size - k,
    {
        let value = match modules[k] {
            Some(b) => b,
            None => false,
        };
        out.push(value);
        k = k + 1;
    }
    let m = QrMatrix { size, modules: out };
    proof {
        let sz = size as int;
        let patterns = |x: int, y: int| function_module(sz, v as int, x, y);
        let zig = zigzag(sz, sz - 1, true);
        lemma_zigzag_on_grid(sz, sz - 1, true);
        assert forall|x: int, y: int| 0 <= x < sz && 0 <= y < sz implies #[trigger] at(grid_of(m_fp, size as nat), x, y)
            == at(patterns, x, y) by {
            assert(m_fp[cell(size as nat, x, y)] == function_module(sz, v as int, x, y));
        }
        lemma_place_congruent(grid_of(m_fp, size as nat), patterns, bits@, zig, sz);
        assert(bits@ == codeword_bits(all_codewords(bytes@, v as nat)));
        assert forall|x: int, y: int| 0 <= x < m@.0 && 0 <= y < m@.0 implies #[trigger] m.dark(x, y)
            == qr_module(str_bytes(data@), v as nat, x, y) by {
            lemma_cell_bounds(size as nat, x, y);
            assert(m_fmt[cell(size as nat, x, y)] == m_fmt[cell(size as nat, x, y)]);
            assert(m_data[cell(size as nat, x, y)] == (place(grid_of(m_fp, size as nat), bits@, zig).0)(x, y));
            assert(at(place(grid_of(m_fp, size as nat), bits@, zig).0, x, y) == at(place(patterns, bits@, zig).0, x, y));
            assert(out@[cell(size as nat, x, y)] == (match m_fmt[cell(size as nat, x, y)] { Some(b) => b, None => false }));
        }
        assert forall|i: int| 0 <= i < 30 implies #[trigger] format_module_ok(m, i) by {
            assert(format_written(modules@, size as nat, i, word));
            let (x, y) = format_coord(size as int, i);
            lemma_format_coords_distinct(size as int, i, if i == 0 { 1 } else { 0 });
            lemma_cell_bounds(size as nat, x, y);
        }
    }
    Ok(m)
}

/// Width of the light margin drawn around a QR code, in modules.
pub const QUIET_ZONE: usize = 4;

/// Whether the module at `(x, y)` of the code drawn with its quiet zone is
/// dark: the margin is light, the rest is the matrix.
pub open spec fn padded_dark(m: QrMatrix, x: int, y: int) -> bool {
    let q = QUIET_ZONE as int;
    q <= x < m@.0 + q && q <= y < m@.0 + q && m.dark(x - q, y - q)
}

/// The modules a QR view draws, row by row: the matrix surrounded by a
/// light quiet zone.
pub fn quiet_zone_rows(m: &QrMatrix) -> (rows: Vec<Vec<bool>>)
    requires
        m.wf(),
    ensures
        rows@.len() == m@.0 + 2 * QUIET_ZONE,
        forall|y: int| 0 <= y < rows@.len() ==> #[trigger] rows@[y]@.len() == m@.0 + 2 * QUIET_ZONE,
        forall|x: int, y: int| 0 <= x < m@.0 + 2 * QUIET_ZONE && 0 <= y < m@.0 + 2 * QUIET_ZONE
            ==> #[trigger] rows@[y]@[x] == padded_dark(*m, x, y),
{
    let size = m.size();
    let n = m.modules.len();
    proof {
        assert(n == size * size);
        if size >= 9 {
            assert(size + 8 <= size * size) by (nonlinear_arith)
                requires
                    size >= 9,
            ;
        }
    }
    let total = size + 2 * QUIET_ZONE;
    let mut rows: Vec<Vec<bool>> = Vec::new();
    let mut y: usize = 0;
    while y < total
        invariant
            m.wf(),
            size == m@.0,
            total == size + 2 * QUIET_ZONE,
            y <= total,
            rows@.len() == y,
            forall|t: int| 0 <= t < y ==> #[trigger] rows@[t]@.len() == total,
            forall|a: int, b: int| 0 <= a < total && 0 <= b < y ==> #[trigger] rows@[b]@[a] == padded_dark(*m, a, b),
        decreases total - y,
    {
        let mut cells: Vec<bool> = Vec::new();
        let mut x: usize = 0;
        while x < total
            invariant
                m.wf(),
                size == m@.0,
                total == size + 2 * QUIET_ZONE,
                y < total,
                x <= total,
                cells@.len() == x,
                forall|a: int| 0 <= a < x ==> #[trigger] cells@[a] == padded_dark(*m, a, y as int),
            decreases total - x,
        {
            let dark = x >= QUIET_ZONE && y >= QUIET_ZONE && x < size + QUIET_ZONE && y < size + QUIET_ZONE
                && m.get(x - QUIET_ZONE, y - QUIET_ZONE);
            cells.push(dark);
            x = x + 1;
        }
        rows.push(cells);
        y = y + 1;
    }
    rows
}

/// Number of UTF-8 bytes of a text.
pub open spec fn str_bytes_len(s: &str) -> nat {
    str_bytes(s@).len()
}

/// The `i`-th format module of `m` holds bit `i mod 15` of the format
/// information for mask 0.
pub open spec fn format_module_ok(m: QrMatrix, i: int) -> bool {
    let (x, y) = format_coord(m@.0 as int, i);
    m.dark(x, y) == bit_of(format_word(0), i % 15)
}

} // verus!
