use vstd::prelude::*;

use vstd::arithmetic::div_mod::{
    lemma_div_is_ordered, lemma_div_is_ordered_by_denominator, lemma_fundamental_div_mod_converse,
};

use crate::texture::pow2_nat;

verus! {

/// Largest channel value the shared-exponent format holds, as f32 bits (65408.0).
pub const RGB9E5_MAX_BITS: u32 = 0x477F_8000;

/// Smallest value the shared exponent is derived from, as f32 bits (2^-16).
pub const RGB9E5_MIN_BITS: u32 = 0x3780_0000;

/// Pack a hdr rgb color in a single u32: a 5-bit shared exponent above three
/// 9-bit mantissas (blue highest).
#[derive(Debug, Clone, Copy, PartialEq, Eq, Structural)]
pub struct PackedRgb9e5 {
    data: u32,
}

/// Pack a normalized unit vector in a single u32: two 15-bit octahedral
/// coordinates, the second one above the first.
#[derive(Debug, Clone, Copy, PartialEq, Eq, Structural)]
pub struct PackedNormalizedXyz10 {
    data: u32,
}

/// Biased exponent field of an f32 given by its bits.
pub open spec fn f32_exponent(b: u32) -> nat {
    ((b / 0x80_0000) % 256) as nat
}

/// Fraction field of an f32 given by its bits.
pub open spec fn f32_fraction(b: u32) -> nat {
    (b % 0x80_0000) as nat
}

/// Integer significand of a finite f32: its value is
/// `f32_significand(b) * 2^(f32_scale(b) - 150)`, up to sign.
pub open spec fn f32_significand(b: u32) -> nat {
    if f32_exponent(b) == 0 {
        f32_fraction(b)
    } else {
        f32_fraction(b) + 0x80_0000
    }
}

pub open spec fn f32_scale(b: u32) -> nat {
    if f32_exponent(b) == 0 {
        1
    } else {
        f32_exponent(b)
    }
}

/// `m / 2^s` rounded to nearest, ties to even.
pub open spec fn rne(m: nat, s: nat) -> nat {
    let p = pow2_nat(s);
    let q = m / p;
    let r = m % p;
    if 2 * r > p || (2 * r == p && q % 2 == 1) {
        q + 1
    } else {
        q
    }
}

/// A channel brought into `[0, RGB9E5_MAX_BITS]`: negative values and NaN
/// become 0, values above the range (infinity too) its largest value. On
/// non-negative floats the order of the bits is the order of the values.
pub open spec fn clamp_channel(b: u32) -> u32 {
    if b > 0x7F80_0000 {
        0
    } else if b > RGB9E5_MAX_BITS {
        RGB9E5_MAX_BITS
    } else {
        b
    }
}

pub open spec fn max_u32(a: u32, b: u32) -> u32 {
    if a >= b {
        a
    } else {
        b
    }
}

/// The value the shared exponent is derived from: the largest clamped
/// channel, at least `RGB9E5_MIN_BITS`.
pub open spec fn shared_source(rgb: [u32; 3]) -> u32 {
    max_u32(
        max_u32(max_u32(clamp_channel(rgb[0]), clamp_channel(rgb[1])), clamp_channel(rgb[2])),
        RGB9E5_MIN_BITS,
    )
}

/// Biased f32 exponent of the unit in which the mantissas count: the largest
/// channel keeps 9 bits, one more step up when rounding it would need 10.
pub open spec fn shared_unit_exponent(rgb: [u32; 3]) -> nat {
    let m = shared_source(rgb);
    let carry: nat = if rne(f32_significand(m), 15) >= 512 {
        1
    } else {
        0
    };
    f32_exponent(m) + 15 + carry
}

/// The 5-bit exponent field: value = mantissa * 2^(field - 24).
pub open spec fn shared_exponent_field(rgb: [u32; 3]) -> nat {
    (shared_unit_exponent(rgb) - 126) as nat
}

/// Mantissa of channel `i`: its value in units of the shared exponent,
/// rounded to nearest even.
pub open spec fn channel_mantissa(rgb: [u32; 3], i: int) -> nat {
    let c = clamp_channel(rgb[i]);
    rne(f32_significand(c), (shared_unit_exponent(rgb) - f32_scale(c)) as nat)
}

/// The packed word of a color given by the bits of its three f32 channels.
pub open spec fn rgb9e5_of(rgb: [u32; 3]) -> nat {
    shared_exponent_field(rgb) * 0x800_0000 + channel_mantissa(rgb, 2) * 0x4_0000
        + channel_mantissa(rgb, 1) * 0x200 + channel_mantissa(rgb, 0)
}

/// Exponent field of a packed word.
pub open spec fn rgb9e5_exponent(w: u32) -> nat {
    (w / 0x800_0000) as nat
}

/// Mantissa of channel `i` of a packed word.
pub open spec fn rgb9e5_mantissa(w: u32, i: int) -> nat {
    ((w as nat / pow2_nat((9 * i) as nat)) % 512) as nat
}

proof fn lemma_pow2_pos(s: nat)
    ensures
        pow2_nat(s) >= 1,
    decreases s,
{
    if s > 0 {
        lemma_pow2_pos((s - 1) as nat);
    }
}

proof fn lemma_pow2_mono(a: nat, b: nat)
    requires
        a <= b,
    ensures
        pow2_nat(a) <= pow2_nat(b),
    decreases b,
{
    lemma_pow2_pos(b);
    if a < b {
        lemma_pow2_mono(a, (b - 1) as nat);
    }
}

proof fn lemma_pow2_values()
    ensures
        pow2_nat(9) == 0x200,
        pow2_nat(15) == 0x8000,
        pow2_nat(16) == 0x1_0000,
        pow2_nat(18) == 0x4_0000,
        pow2_nat(24) == 0x100_0000,
        pow2_nat(25) == 0x200_0000,
        pow2_nat(31) == 0x8000_0000,
{
    reveal_with_fuel(pow2_nat, 32);
}

/// Rounding a smaller number never gives more.
proof fn lemma_rne_monotone(a: nat, b: nat, s: nat)
    requires
        a <= b,
    ensures
        rne(a, s) <= rne(b, s),
{
    let p = pow2_nat(s);
    lemma_pow2_pos(s);
    lemma_div_is_ordered(a as int, b as int, p as int);
    let (qa, ra) = (a / p, a % p);
    let (qb, rb) = (b / p, b % p);
    if qa == qb {
        assert(a == qa * p + ra) by (nonlinear_arith) requires p >= 1, qa == a / p, ra == a % p;
        assert(b == qb * p + rb) by (nonlinear_arith) requires p >= 1, qb == b / p, rb == b % p;
    }
}

/// The rounded quotient is at most one above the truncated one, and it is
/// within half a unit of the exact quotient.
proof fn lemma_rne_close(m: nat, s: nat)
    ensures
        rne(m, s) <= m / pow2_nat(s) + 1,
        rne(m, s) * pow2_nat(s) <= m + pow2_nat(s) / 2,
        m <= rne(m, s) * pow2_nat(s) + pow2_nat(s) / 2,
{
    let p = pow2_nat(s);
    lemma_pow2_pos(s);
    let q = m / p;
    let r = m % p;
    assert(m == q * p + r) by (nonlinear_arith) requires p >= 1, q == m / p, r == m % p;
    assert((q + 1) * p == q * p + p) by (nonlinear_arith);
}

/// Below `2^24`, rounding a shift of 25 or more gives 0.
proof fn lemma_rne_vanishes(m: nat, s: nat)
    requires
        m < 0x100_0000,
        s >= 25,
    ensures
        rne(m, s) == 0,
{
    lemma_pow2_values();
    lemma_pow2_mono(25, s);
    let p = pow2_nat(s);
    assert(m / p == 0) by (nonlinear_arith) requires m < p;
    assert(m % p == m) by (nonlinear_arith) requires m < p;
}

/// `2^s` for `s < 32`.
fn pow2_u32(s: u32) -> (r: u32)
    requires
        s < 32,
    ensures
        r as nat == pow2_nat(s as nat),
{
    let mut r: u32 = 1;
    let mut i: u32 = 0;
    while i < s
        invariant
            i <= s < 32,
            r as nat == pow2_nat(i as nat),
        decreases s - i,
    {
        proof {
            lemma_pow2_mono((i + 1) as nat, 31);
            lemma_pow2_values();
        }
        r = r * 2;
        i += 1;
    }
    r
}

/// `m / 2^s` rounded to nearest, ties to even.
fn round_shift(m: u32, s: u32) -> (r: u32)
    requires
        m < 0x100_0000,
    ensures
        r as nat == rne(m as nat, s as nat),
{
    if s >= 25 {
        proof {
            lemma_rne_vanishes(m as nat, s as nat);
        }
        return 0;
    }
    let p = pow2_u32(s);
    proof {
        lemma_pow2_pos(s as nat);
        lemma_rne_close(m as nat, s as nat);
    }
    let q = m / p;
    let rem = m % p;
    if rem > p - rem || (rem == p - rem && q % 2 == 1) {
        q + 1
    } else {
        q
    }
}

/// Exec form of `clamp_channel`.
fn clamp_channel_exec(b: u32) -> (r: u32)
    ensures
        r == clamp_channel(b),
{
    if b > 0x7F80_0000 {
        0
    } else if b > RGB9E5_MAX_BITS {
        RGB9E5_MAX_BITS
    } else {
        b
    }
}

/// Integer significand and scale of a non-negative finite f32.
fn f32_parts(b: u32) -> (r: (u32, u32))
    requires
        b < 0x8000_0000,
    ensures
        r.0 as nat == f32_significand(b),
        r.1 as nat == f32_scale(b),
        r.0 < 0x100_0000,
        r.1 < 256,
{
    let e = b / 0x80_0000;
    let f = b % 0x80_0000;
    if e == 0 {
        (f, 1)
    } else {
        (f + 0x80_0000, e)
    }
}

/// The mantissa of clamped channel `c` is at most 511, and the shared
/// exponent field at most 31.
proof fn lemma_rgb9e5_ranges(rgb: [u32; 3], i: int)
    requires
        0 <= i < 3,
    ensures
        channel_mantissa(rgb, i) <= 511,
        shared_exponent_field(rgb) <= 31,
        shared_unit_exponent(rgb) >= 126,
        f32_scale(clamp_channel(rgb[i])) <= f32_exponent(shared_source(rgb)),
{
    let m = shared_source(rgb);
    let c = clamp_channel(rgb[i]);
    let e = f32_exponent(m);
    let sig = f32_significand(m);
    lemma_pow2_values();
    assert(c <= m);
    assert(m >= RGB9E5_MIN_BITS && m <= RGB9E5_MAX_BITS);
    assert(e == m / 0x80_0000);
    assert(111 <= e <= 142);
    let unit = shared_unit_exponent(rgb);
    assert(f32_exponent(c) == c / 0x80_0000);
    lemma_div_is_ordered(c as int, m as int, 0x80_0000);
    // the exponent field
    if e == 142 {
        assert(sig <= 0xFF_8000);
        lemma_rne_monotone(sig, 0xFF_8000, 15);
        assert(rne(0xFF_8000, 15) == 511) by {
            assert(0xFF_8000nat / 0x8000 == 511);
            assert(0xFF_8000nat % 0x8000 == 0);
        }
    }
    // the mantissa
    let sc = f32_scale(c);
    let shift = (unit - sc) as nat;
    let sigc = f32_significand(c);
    lemma_rne_close(sigc, shift);
    if sc < e || unit == e + 16 {
        assert(shift >= 16);
        lemma_pow2_mono(16, shift);
        lemma_div_is_ordered_by_denominator(sigc as int, 0x1_0000, pow2_nat(shift) as int);
        assert(sigc / 0x1_0000 <= 255) by (nonlinear_arith) requires sigc < 0x100_0000;
    } else {
        assert(f32_exponent(c) == e);
        assert(f32_fraction(c) <= f32_fraction(m)) by {
            assert(c == e * 0x80_0000 + f32_fraction(c));
            assert(m == e * 0x80_0000 + f32_fraction(m));
        }
        lemma_rne_monotone(sigc, sig, 15);
    }
}

impl PackedRgb9e5 {
    /// Packs a color given by the IEEE-754 bits of its three f32 channels
    /// (red, green, blue). Each channel is clamped to
    /// `[0, RGB9E5_MAX_BITS]`; the shared exponent comes from the largest
    /// one, and every channel is rounded to nearest even in its unit.
    pub fn new(rgb: [u32; 3]) -> (r: Self)
        ensures
            r@ as nat == rgb9e5_of(rgb),
    {
        let c0 = clamp_channel_exec(rgb[0]);
        let c1 = clamp_channel_exec(rgb[1]);
        let c2 = clamp_channel_exec(rgb[2]);
        let mut m = c0;
        if c1 > m {
            m = c1;
        }
        if c2 > m {
            m = c2;
        }
        if m < RGB9E5_MIN_BITS {
            m = RGB9E5_MIN_BITS;
        }
        assert(m == shared_source(rgb));
        let (sig, e) = f32_parts(m);
        let top = round_shift(sig, 15);
        let unit: u32 = if top >= 512 { e + 16 } else { e + 15 };
        assert(unit as nat == shared_unit_exponent(rgb));
        proof {
            lemma_rgb9e5_ranges(rgb, 0);
            lemma_rgb9e5_ranges(rgb, 1);
            lemma_rgb9e5_ranges(rgb, 2);
        }
        let (s0, e0) = f32_parts(c0);
        let (s1, e1) = f32_parts(c1);
        let (s2, e2) = f32_parts(c2);
        let q0 = round_shift(s0, unit - e0);
        let q1 = round_shift(s1, unit - e1);
        let q2 = round_shift(s2, unit - e2);
        let field = unit - 126;
        PackedRgb9e5 { data: field * 0x800_0000 + q2 * 0x4_0000 + q1 * 0x200 + q0 }
    }

    /// The packed word.
    pub fn bits(&self) -> (r: u32)
        ensures
            r == self@,
    {
        self.data
    }
}

impl Default for PackedRgb9e5 {
    /// Magenta, (1, 0, 1).
    fn default() -> (r: Self)
        ensures
            r@ as nat == rgb9e5_of([0x3F80_0000u32, 0u32, 0x3F80_0000u32]),
    {
        Self::new([0x3F80_0000u32, 0u32, 0x3F80_0000u32])
    }
}

/// Largest octahedral coordinate: coordinates in `[0, 1]` are stored in
/// units of `1 / OCT_MAX`.
pub const OCT_MAX: u32 = 0x7fff;

/// The packed word of octahedral coordinates `(u, v)`, each at most `OCT_MAX`.
pub open spec fn oct_word(u: nat, v: nat) -> nat {
    v * 0x8000 + u
}

impl PackedNormalizedXyz10 {
    /// Packs quantized octahedral coordinates of a unit vector, each in
    /// `[0, OCT_MAX]`: the second above the first, 15 bits each.
    pub fn from_octahedral(u: u32, v: u32) -> (r: Self)
        requires
            u <= OCT_MAX,
            v <= OCT_MAX,
        ensures
            r@ as nat == oct_word(u as nat, v as nat),
    {
        PackedNormalizedXyz10 { data: v * 0x8000 + u }
    }

    /// The two quantized octahedral coordinates.
    pub fn octahedral(&self) -> (r: (u32, u32))
        ensures
            r.0 as nat == self@ as nat % 0x8000,
            r.1 as nat == (self@ as nat / 0x8000) % 0x8000,
    {
        (self.data % 0x8000, (self.data / 0x8000) % 0x8000)
    }

    /// The packed word.
    pub fn bits(&self) -> (r: u32)
        ensures
            r == self@,
    {
        self.data
    }
}

/// Packing octahedral coordinates and reading them back gives them unchanged.
pub proof fn lemma_octahedral_round_trip(u: nat, v: nat)
    requires
        u <= OCT_MAX,
        v <= OCT_MAX,
    ensures
        oct_word(u, v) < 0x4000_0000,
        oct_word(u, v) % 0x8000 == u,
        (oct_word(u, v) / 0x8000) % 0x8000 == v,
{
    lemma_fundamental_div_mod_converse(oct_word(u, v) as int, 0x8000, v as int, u as int);
    lemma_fundamental_div_mod_converse(v as int, 0x8000, 0, v as int);
}

impl Default for PackedNormalizedXyz10 {
    /// The up direction (0, 1, 0), at octahedral coordinates (1/2, 1).
    fn default() -> (r: Self)
        ensures
            r@ as nat == oct_word(0x4000, OCT_MAX as nat),
    {
        Self::from_octahedral(0x4000, OCT_MAX)
    }
}

impl View for PackedRgb9e5 {
    type V = u32;

    closed spec fn view(&self) -> u32 {
        self.data
    }
}

impl View for PackedNormalizedXyz10 {
    type V = u32;

    closed spec fn view(&self) -> u32 {
        self.data
    }
}

/// The fields of a packed word read back as they were written.
proof fn lemma_rgb9e5_fields(f: nat, m0: nat, m1: nat, m2: nat)
    requires
        f <= 31,
        m0 <= 511,
        m1 <= 511,
        m2 <= 511,
    ensures
        ({
            let w = f * 0x800_0000 + m2 * 0x4_0000 + m1 * 0x200 + m0;
            &&& w < 0x1_0000_0000
            &&& rgb9e5_exponent(w as u32) == f
            &&& rgb9e5_mantissa(w as u32, 0) == m0
            &&& rgb9e5_mantissa(w as u32, 1) == m1
            &&& rgb9e5_mantissa(w as u32, 2) == m2
        }),
{
    lemma_pow2_values();
    assert(pow2_nat(0) == 1);
    let w = f * 0x800_0000 + m2 * 0x4_0000 + m1 * 0x200 + m0;
    lemma_fundamental_div_mod_converse(
        w as int,
        0x800_0000,
        f as int,
        (m2 * 0x4_0000 + m1 * 0x200 + m0) as int,
    );
    lemma_fundamental_div_mod_converse(w as int, 1, w as int, 0);
    lemma_fundamental_div_mod_converse(w as int, 0x200, (f * 0x4_0000 + m2 * 0x200 + m1) as int, m0 as int);
    lemma_fundamental_div_mod_converse(
        (f * 0x4_0000 + m2 * 0x200 + m1) as int,
        0x200,
        (f * 0x200 + m2) as int,
        m1 as int,
    );
    lemma_fundamental_div_mod_converse(
        w as int,
        0x4_0000,
        (f * 0x200 + m2) as int,
        (m1 * 0x200 + m0) as int,
    );
    lemma_fundamental_div_mod_converse((f * 0x200 + m2) as int, 0x200, f as int, m2 as int);
}

/// Decoding a packed color gives back each clamped channel to within half a
/// unit of the shared exponent: the exponent field is `e`, and channel `i`'s
/// mantissa `q` times `2^s` is within `2^s / 2` of the channel's integer
/// significand, where `s` is the distance between the channel's scale and the
/// unit `2^(e - 24)`.
pub proof fn lemma_rgb9e5_round_trip(rgb: [u32; 3], i: int)
    requires
        0 <= i < 3,
    ensures
        ({
            let w = rgb9e5_of(rgb) as u32;
            let e = rgb9e5_exponent(w);
            let q = rgb9e5_mantissa(w, i);
            let c = clamp_channel(rgb[i]);
            let s = (e + 126 - f32_scale(c)) as nat;
            &&& rgb9e5_of(rgb) < 0x1_0000_0000
            &&& e == shared_exponent_field(rgb)
            &&& e + 126 >= f32_scale(c)
            &&& q * pow2_nat(s) <= f32_significand(c) + pow2_nat(s) / 2
            &&& f32_significand(c) <= q * pow2_nat(s) + pow2_nat(s) / 2
        }),
{
    lemma_rgb9e5_ranges(rgb, 0);
    lemma_rgb9e5_ranges(rgb, 1);
    lemma_rgb9e5_ranges(rgb, 2);
    lemma_rgb9e5_ranges(rgb, i);
    lemma_rgb9e5_fields(
        shared_exponent_field(rgb),
        channel_mantissa(rgb, 0),
        channel_mantissa(rgb, 1),
        channel_mantissa(rgb, 2),
    );
    let c = clamp_channel(rgb[i]);
    lemma_rne_close(f32_significand(c), (shared_unit_exponent(rgb) - f32_scale(c)) as nat);
}

} // verus!
