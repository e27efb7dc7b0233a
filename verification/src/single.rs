//! Single precision numbers as 32 bits, with correctly rounded arithmetic.

use vstd::arithmetic::power2::*;
use vstd::prelude::*;

use crate::number::Number;
use crate::rounding;

verus! {

/// The bits of the `Nan` that operations return.
const NAN_BITS: u32 = 0x7fc0_0000;

/// The bits of positive infinity.
const INFINITY_BITS: u32 = 0x7f80_0000;

/// A binary single precision number, held as its 32 bits.
#[derive(Clone, Copy, Debug)]
pub struct Single {
    pub bits: u32,
}

impl View for Single {
    type V = Number;

    open spec fn view(&self) -> Number {
        Number::of_bits(self.bits)
    }
}

/// A significand and the exponent of its last bit give the bits directly: a
/// significand of 24 bits carries into the exponent field.
proof fn lemma_packed(t: nat, q: nat, bits: u32)
    requires
        q <= 0x100_0000,
        q < 0x80_0000 ==> t == 0,
        bits == t * 0x80_0000 + q,
        bits < 0x7f80_0000,
    ensures
        Number::of_bits(bits) == (Number::Finite { negative: false, units: q * pow2(t) }),
        q * pow2(t) < pow2(277),
{
    reveal(Number::of_bits);
    rounding::lemma_pow2_0();
    let b = bits as nat;
    if q < 0x80_0000 {
        assert(b / 0x80_0000 == 0 && b % 0x80_0000 == q);
        assert(q * pow2(0) == q);
    } else if q < 0x100_0000 {
        assert(b / 0x80_0000 == t + 1 && b % 0x80_0000 == q - 0x80_0000);
        assert(t + 1 < 0xff);
    } else {
        assert(b / 0x80_0000 == t + 2 && b % 0x80_0000 == 0);
        assert(t + 2 < 0xff);
        lemma_pow2_unfold(t + 1);
        assert(0x80_0000 * pow2(t + 1) == q * pow2(t)) by (nonlinear_arith)
            requires
                pow2(t + 1) == 2 * pow2(t),
                q == 0x100_0000,
        ;
    }
    assert(q * pow2(t) < pow2(277)) by {
        rounding::lemma_pow2_24();
        if q == 0x100_0000 {
            assert(t <= 252);
            lemma_pow2_adds(24, t);
            lemma_pow2_strictly_increases(24 + t, 277);
        } else {
            lemma_pow2_adds(24, t);
            lemma_pow2_pos(t);
            assert(q * pow2(t) < pow2(24) * pow2(t)) by (nonlinear_arith)
                requires
                    q < pow2(24),
                    pow2(t) > 0,
            ;
            if t < 253 {
                lemma_pow2_strictly_increases(24 + t, 277);
            }
        }
    }
}

/// From exponent field 255 on the magnitude is out of range.
proof fn lemma_too_large(t: nat, q: nat)
    requires
        q <= 0x100_0000,
        q < 0x80_0000 ==> t == 0,
        t * 0x80_0000 + q >= 0x7f80_0000,
    ensures
        q * pow2(t) >= pow2(277),
{
    rounding::lemma_pow2_24();
    if t >= 254 {
        lemma_pow2_adds(23, t);
        assert(q * pow2(t) >= pow2(23) * pow2(t)) by (nonlinear_arith)
            requires
                q >= pow2(23),
        ;
        if t > 254 {
            lemma_pow2_strictly_increases(277, 23 + t);
        }
    } else {
        assert(t == 253 && q == 0x100_0000);
        lemma_pow2_adds(24, 253);
    }
}

/// A fraction whose frame is known, scaled by a power of two on both sides.
proof fn lemma_scaled_frame(
    n: nat,
    d: nat,
    m: nat,
    inexact: bool,
    big_n: nat,
    big_d: nat,
    up: nat,
)
    requires
        rounding::framed(n, d, m, inexact),
        big_n == n * pow2(up),
        big_d == d * pow2(up),
    ensures
        rounding::framed(big_n, big_d, m, inexact),
{
    lemma_pow2_pos(up);
    rounding::lemma_framed_scale(n, d, m, inexact, pow2(up));
}

proof fn lemma_exact_frame(n: nat, d: nat, m: nat)
    requires
        d > 0,
        n == m * d,
    ensures
        rounding::framed(n, d, m, false),
{
    assert((m + 1) * d == m * d + d) by (nonlinear_arith);
}

proof fn lemma_zero_product(m: nat, c: nat)
    requires
        c > 0,
    ensures
        m * c == 0 <==> m == 0,
{
    assert(m * c == 0 <==> m == 0) by (nonlinear_arith)
        requires
            c > 0,
    ;
}

/// Only the two zeros have no bit set beside the sign.
proof fn lemma_zero_bits(x: Single)
    ensures
        x.bits % 0x8000_0000 == 0 <==> (x@ is Finite && x@.place() == 0),
{
    reveal(Number::of_bits);
    let b = x.bits as nat;
    let exponent = (b / 0x80_0000) % 0x100;
    if exponent != 0 && exponent != 0xff {
        lemma_pow2_pos((exponent - 1) as nat);
        lemma_zero_product(0x80_0000 + b % 0x80_0000, pow2((exponent - 1) as nat));
    }
}

/// `m * 2^k`.
pub(crate) fn doubled(m: u128, k: u32) -> (r: u128)
    requires
        m * pow2(k as nat) <= u128::MAX,
    ensures
        r == m * pow2(k as nat),
{
    let mut r: u128 = m;
    let mut i: u32 = 0;
    proof {
        rounding::lemma_pow2_0();
        assert(m * pow2(0) == m);
    }
    while i < k
        invariant
            i <= k,
            r == m * pow2(i as nat),
            m * pow2(k as nat) <= u128::MAX,
        decreases k - i,
    {
        proof {
            lemma_pow2_unfold(i as nat + 1);
            assert(m * pow2(i as nat + 1) == 2 * (m * pow2(i as nat))) by (nonlinear_arith)
                requires
                    pow2(i as nat + 1) == 2 * pow2(i as nat),
            ;
            if i + 1 < k {
                lemma_pow2_strictly_increases(i as nat + 1, k as nat);
            }
            assert(m * pow2(i as nat + 1) <= m * pow2(k as nat)) by (nonlinear_arith)
                requires
                    pow2(i as nat + 1) <= pow2(k as nat),
            ;
        }
        r = 2 * r;
        i = i + 1;
    }
    r
}

impl Single {
    /// The number that the bits encode.
    pub fn from_bits(bits: u32) -> (r: Single)
        ensures
            r.bits == bits,
            r@ == Number::of_bits(bits),
    {
        Single { bits }
    }

    /// The bits of the number.
    pub fn to_bits(self) -> (bits: u32)
        ensures
            bits == self.bits,
            self@ == Number::of_bits(bits),
    {
        self.bits
    }

    /// The number with the given sign whose magnitude is `magnitude`.
    fn with_sign(negative: bool, magnitude: u32) -> (r: Single)
        requires
            magnitude < 0x8000_0000,
        ensures
            r@ == if negative {
                Number::of_bits(magnitude).negated()
            } else {
                Number::of_bits(magnitude)
            },
    {
        proof {
            reveal(Number::of_bits);
        }
        if negative {
            let bits: u32 = magnitude + 0x8000_0000;
            assert((bits as nat / 0x80_0000) % 0x100 == (magnitude as nat / 0x80_0000) % 0x100);
            assert(bits as nat % 0x80_0000 == magnitude as nat % 0x80_0000);
            Single { bits }
        } else {
            Single { bits: magnitude }
        }
    }

    /// Rounds `n / d` units, given as the whole part `whole` of
    /// `n * 2^200 / (d * 2^weight)` and whether anything was cut off.
    fn rounded(
        negative: bool,
        whole: u128,
        weight: u32,
        cut: bool,
        Ghost(n): Ghost<nat>,
        Ghost(d): Ghost<nat>,
    ) -> (r: Single)
        requires
            d > 0,
            weight <= 700,
            rounding::framed(n * pow2(200), d * pow2(weight as nat), whole as nat, cut),
            cut ==> whole >= 0x200_0000 || weight <= 199,
        ensures
            r@ == Number::rounded(negative, n, d),
    {
        proof {
            reveal(Number::of_bits);
            reveal(Number::rounded);
        }
        let mut m: u128 = whole;
        let mut w: u32 = weight;
        let mut inexact: bool = cut;
        proof {
            rounding::lemma_pow2_0();
            assert(whole * pow2(0) == whole);
        }
        while m >= 0x200_0000 || w < 199
            invariant
                d > 0,
                weight <= w,
                weight <= 700,
                w <= 900,
                m * pow2((w - weight) as nat) <= whole,
                rounding::framed(n * pow2(200), d * pow2(w as nat), m as nat, inexact),
                inexact ==> m >= 0x100_0000 || w <= 199,
            decreases m, 199 - w,
        {
            proof {
                let up = (w - weight) as nat;
                lemma_pow2_unfold(w as nat + 1);
                lemma_pow2_unfold(up + 1);
                lemma_pow2_pos(w as nat);
                assert(d * pow2(w as nat + 1) == 2 * (d * pow2(w as nat))) by (nonlinear_arith)
                    requires
                        pow2(w as nat + 1) == 2 * pow2(w as nat),
                ;
                assert(d * pow2(w as nat) > 0) by (nonlinear_arith)
                    requires
                        d > 0,
                        pow2(w as nat) > 0,
                ;
                rounding::lemma_framed_halve(
                    n * pow2(200),
                    d * pow2(w as nat),
                    m as nat,
                    inexact,
                );
                let half = (m / 2) as nat;
                assert(half * pow2(up + 1) <= m * pow2(up)) by (nonlinear_arith)
                    requires
                        2 * half <= m,
                        pow2(up + 1) == 2 * pow2(up),
                ;
                if w >= 199 {
                    // The whole part cannot be halved as often as that.
                    if up >= 128 {
                        lemma_pow2_adds(64, 64);
                        lemma2_to64();
                        if up > 128 {
                            lemma_pow2_strictly_increases(128, up);
                        }
                        assert(m * pow2(up) >= 1 * pow2(128)) by (nonlinear_arith)
                            requires
                                m >= 1,
                                pow2(up) >= pow2(128),
                        ;
                        assert(pow2(128) == 0x1_0000_0000_0000_0000 * 0x1_0000_0000_0000_0000);
                        assert(false);
                    }
                }
            }
            inexact = inexact || m % 2 == 1;
            m = m / 2;
            w = w + 1;
        }
        while m < 0x100_0000 && w > 199
            invariant
                d > 0,
                199 <= w <= 900,
                m < 0x200_0000,
                rounding::framed(n * pow2(200), d * pow2(w as nat), m as nat, inexact),
                inexact ==> m >= 0x100_0000 || w <= 199,
            decreases w,
        {
            proof {
                lemma_pow2_unfold(w as nat);
                lemma_pow2_pos((w - 1) as nat);
                let below = d * pow2((w - 1) as nat);
                assert(d * pow2(w as nat) == 2 * below) by (nonlinear_arith)
                    requires
                        below == d * pow2((w - 1) as nat),
                        pow2(w as nat) == 2 * pow2((w - 1) as nat),
                ;
                assert(below > 0) by (nonlinear_arith)
                    requires
                        below == d * pow2((w - 1) as nat),
                        d > 0,
                        pow2((w - 1) as nat) > 0,
                ;
                rounding::lemma_framed_double(n * pow2(200), below, m as nat);
            }
            m = 2 * m;
            w = w - 1;
        }
        let t: u64 = (w - 199) as u64;
        let mut q: u64 = (m / 2) as u64;
        if m % 2 == 1 && (inexact || q % 2 == 1) {
            q = q + 1;
        }
        proof {
            rounding::lemma_rounded(n, d, t as nat, m as nat, inexact);
        }
        let packed: u64 = t * 0x80_0000 + q;
        if packed >= INFINITY_BITS as u64 {
            proof {
                lemma_too_large(t as nat, q as nat);
            }
            Single::with_sign(negative, INFINITY_BITS)
        } else {
            proof {
                lemma_packed(t as nat, q as nat, packed as u32);
            }
            Single::with_sign(negative, packed as u32)
        }
    }
}

/// Every value of the type is a single precision number.
pub proof fn lemma_single_valued(x: Single)
    ensures
        x@.is_single(),
{
    reveal(Number::of_bits);
    let b = x.bits as nat;
    let exponent = (b / 0x80_0000) % 0x100;
    let fraction = b % 0x80_0000;
    if exponent == 0 {
        let size = x.bits % 0x8000_0000;
        lemma_packed(0, fraction, size);
        rounding::lemma_pow2_0();
        assert(fraction == fraction * pow2(0));
        assert(rounding::representable(fraction));
    } else if exponent < 0xff {
        let t = (exponent - 1) as nat;
        let q = 0x80_0000 + fraction;
        let size = x.bits % 0x8000_0000;
        assert(size == t * 0x80_0000 + q);
        lemma_packed(t, q, size);
        assert(rounding::representable(q * pow2(t)));
    }
}

impl Single {
    /// Whether the bits encode no number.
    pub fn is_nan(self) -> (r: bool)
        ensures
            r <==> self@ is Nan,
    {
        proof {
            reveal(Number::of_bits);
        }
        (self.bits / 0x80_0000) % 0x100 == 0xff && self.bits % 0x80_0000 != 0
    }

    /// Whether the bits encode an infinity of either sign.
    pub fn is_infinite(self) -> (r: bool)
        ensures
            r <==> self@ is Infinite,
    {
        proof {
            reveal(Number::of_bits);
        }
        (self.bits / 0x80_0000) % 0x100 == 0xff && self.bits % 0x80_0000 == 0
    }

    /// Whether the sign bit is set.
    pub fn is_negative(self) -> (r: bool)
        ensures
            r == (self.bits >= 0x8000_0000),
            self@ !is Nan ==> r == self@.is_negative(),
    {
        proof {
            reveal(Number::of_bits);
        }
        self.bits >= 0x8000_0000
    }

    /// Significand and exponent of the last bit of a finite number.
    pub(crate) fn parts(self) -> (r: (u32, u32))
        requires
            self@ is Finite,
        ensures
            r.0 < 0x100_0000,
            r.1 <= 253,
            r.1 > 0 ==> r.0 >= 0x80_0000,
            r.1 == self.spec_exponent(),
            self@->units == r.0 * pow2(r.1 as nat),
            self@ == (Number::Finite { negative: self@.is_negative(), units: self@->units }),
    {
        proof {
            reveal(Number::of_bits);
        }
        let exponent: u32 = (self.bits / 0x80_0000) % 0x100;
        let fraction: u32 = self.bits % 0x80_0000;
        if exponent == 0 {
            proof {
                rounding::lemma_pow2_0();
                assert(fraction * pow2(0) == fraction);
            }
            (fraction, 0)
        } else {
            (0x80_0000 + fraction, exponent - 1)
        }
    }

    /// The number nearest to a whole number.
    pub fn from_i32(i: i32) -> (r: Single)
        ensures
            r@ == Number::whole(i as int),
    {
        proof {
            reveal(Number::whole);
        }
        let negative: bool = i < 0;
        let size: u128 = if negative {
            (-(i as i64)) as u128
        } else {
            i as u128
        };
        proof {
            let n = size as nat * pow2(149);
            assert(vstd::math::abs(i as int) == size as nat);
            lemma_pow2_adds(149, 200);
            assert(n * pow2(200) == size as nat * pow2(349)) by (nonlinear_arith)
                requires
                    n == size as nat * pow2(149),
                    pow2(349) == pow2(149) * pow2(200),
            ;
            lemma_pow2_pos(349);
            lemma_exact_frame(n * pow2(200), pow2(349), size as nat);
            assert(1 * pow2(349) == pow2(349));
        }
        Single::rounded(
            negative,
            size,
            349,
            false,
            Ghost(size as nat * pow2(149)),
            Ghost(1nat),
        )
    }

    /// The number nearest to `n / d`.
    pub fn ratio(n: u32, d: u32) -> (r: Single)
        requires
            d > 0,
        ensures
            r@ == Number::ratio(n as nat, d as nat),
    {
        proof {
            reveal(Number::ratio);
        }
        let ghost top = n as nat * pow2(149);
        proof {
            lemma2_to64();
            lemma_pow2_adds(149, 200);
            lemma_pow2_adds(64, 285);
            assert(top * pow2(200) == (n as nat * pow2(64)) * pow2(285)) by (nonlinear_arith)
                requires
                    top == n as nat * pow2(149),
                    pow2(349) == pow2(149) * pow2(200),
                    pow2(349) == pow2(64) * pow2(285),
            ;
        }
        Single::quotient(false, n as u128, d as u128, 285, Ghost(top), Ghost(d as nat))
    }

    /// Rounds `top * 2^64 / bottom`, weighted by `2^(weight - 200)`.
    fn quotient(
        negative: bool,
        top: u128,
        bottom: u128,
        weight: u32,
        Ghost(n): Ghost<nat>,
        Ghost(d): Ghost<nat>,
    ) -> (r: Single)
        requires
            top <= u32::MAX,
            0 < bottom <= u32::MAX,
            weight <= 700,
            d > 0,
            exists|up: nat|
                {
                    &&& n * pow2(200) == (top as nat * 0x1_0000_0000_0000_0000) * #[trigger] pow2(up)
                    &&& d * pow2(weight as nat) == bottom as nat * pow2(up)
                },
        ensures
            r@ == Number::rounded(negative, n, d),
    {
        let big: u128 = top * 0x1_0000_0000_0000_0000;
        let q: u128 = big / bottom;
        let cut: bool = big % bottom != 0;
        proof {
            let up = choose|up: nat|
                {
                    &&& n * pow2(200) == (top as nat * 0x1_0000_0000_0000_0000) * #[trigger] pow2(up)
                    &&& d * pow2(weight as nat) == bottom as nat * pow2(up)
                };
            vstd::arithmetic::div_mod::lemma_fundamental_div_mod(big as int, bottom as int);
            assert((q + 1) * bottom == q * bottom + bottom) by (nonlinear_arith);
            assert(bottom * q == q * bottom) by (nonlinear_arith);
            assert(rounding::framed(big as nat, bottom as nat, q as nat, cut));
            lemma_scaled_frame(
                big as nat,
                bottom as nat,
                q as nat,
                cut,
                n * pow2(200),
                d * pow2(weight as nat),
                up,
            );
            if cut && q < 0x200_0000 {
                assert(q * bottom <= 0x200_0000 * 0xffff_ffff) by (nonlinear_arith)
                    requires
                        q < 0x200_0000,
                        bottom <= 0xffff_ffff,
                ;
                assert(false);
            }
        }
        Single::rounded(negative, q, weight, cut, Ghost(n), Ghost(d))
    }

    /// The number with its sign turned.
    pub fn negated(self) -> (r: Single)
        ensures
            r@ == self@.negated(),
    {
        proof {
            reveal(Number::of_bits);
        }
        if self.bits >= 0x8000_0000 {
            let bits: u32 = self.bits - 0x8000_0000;
            assert((bits as nat / 0x80_0000) % 0x100 == (self.bits as nat / 0x80_0000) % 0x100);
            assert(bits as nat % 0x80_0000 == self.bits as nat % 0x80_0000);
            Single { bits }
        } else {
            Single::with_sign(true, self.bits)
        }
    }

    /// The absolute value.
    pub fn magnitude(self) -> (r: Single)
        ensures
            r@ == self@.magnitude(),
    {
        proof {
            reveal(Number::of_bits);
        }
        if self.bits >= 0x8000_0000 {
            self.negated()
        } else {
            self
        }
    }

    /// `self * other`.
    pub fn times(self, other: Single) -> (r: Single)
        ensures
            r@ == self@.times(other@),
    {
        proof {
            reveal(Number::of_bits);
            reveal(Number::times);
        }
        let negative: bool = self.is_negative() != other.is_negative();
        if self.is_nan() || other.is_nan() {
            return Single { bits: NAN_BITS };
        }
        if self.is_infinite() || other.is_infinite() {
            proof {
                lemma_pow2_pos(277);
                lemma_zero_bits(self);
                lemma_zero_bits(other);
            }
            if self.magnitude_bits() == 0 || other.magnitude_bits() == 0 {
                return Single { bits: NAN_BITS };
            }
            return Single::with_sign(negative, INFINITY_BITS);
        }
        let (ma, sa) = self.parts();
        let (mb, sb) = other.parts();
        assert(ma as u64 * mb as u64 <= 0x100_0000 * 0x100_0000) by (nonlinear_arith)
            requires
                ma < 0x100_0000,
                mb < 0x100_0000,
        ;
        let m: u64 = ma as u64 * mb as u64;
        let w: u32 = sa + sb + 51;
        let ghost n = self@->units * other@->units;
        proof {
            lemma_pow2_adds(sa as nat, sb as nat);
            lemma_pow2_adds((sa + sb) as nat, 200);
            lemma_pow2_adds(149, w as nat);
            assert(n == m as nat * pow2((sa + sb) as nat)) by (nonlinear_arith)
                requires
                    n == (ma as nat * pow2(sa as nat)) * (mb as nat * pow2(sb as nat)),
                    m as nat == ma as nat * mb as nat,
                    pow2((sa + sb) as nat) == pow2(sa as nat) * pow2(sb as nat),
            ;
            let wide = pow2((sa + sb) as nat + 200);
            assert(pow2(149) * pow2(w as nat) == wide);
            assert(n * pow2(200) == m as nat * wide) by (nonlinear_arith)
                requires
                    n == m as nat * pow2((sa + sb) as nat),
                    wide == pow2((sa + sb) as nat) * pow2(200),
            ;
            lemma_pow2_pos((sa + sb) as nat + 200);
            lemma_pow2_pos(149);
            lemma_exact_frame(n * pow2(200), wide, m as nat);
        }
        Single::rounded(negative, m as u128, w, false, Ghost(n), Ghost(pow2(149)))
    }

    /// The bits without the sign.
    fn magnitude_bits(self) -> (r: u32)
        ensures
            r == self.bits % 0x8000_0000,
    {
        self.bits % 0x8000_0000
    }

    /// `self / other`.
    pub fn over(self, other: Single) -> (r: Single)
        ensures
            r@ == self@.over(other@),
    {
        proof {
            reveal(Number::of_bits);
            reveal(Number::over);
        }
        let negative: bool = self.is_negative() != other.is_negative();
        if self.is_nan() || other.is_nan() {
            return Single { bits: NAN_BITS };
        }
        if self.is_infinite() {
            if other.is_infinite() {
                return Single { bits: NAN_BITS };
            }
            return Single::with_sign(negative, INFINITY_BITS);
        }
        if other.is_infinite() {
            return Single::with_sign(negative, 0);
        }
        let (ma, sa) = self.parts();
        let (mb, sb) = other.parts();
        proof {
            lemma_pow2_pos(sa as nat);
            lemma_pow2_pos(sb as nat);
            lemma_zero_product(ma as nat, pow2(sa as nat));
            lemma_zero_product(mb as nat, pow2(sb as nat));
        }
        if mb == 0 {
            if ma == 0 {
                return Single { bits: NAN_BITS };
            }
            return Single::with_sign(negative, INFINITY_BITS);
        }
        let w: u32 = sa + 285 - sb;
        let ghost n = self@->units * pow2(149);
        let ghost d = other@->units;
        proof {
            let up = (sa + 285) as nat;
            lemma2_to64();
            lemma_pow2_adds(149, 200);
            lemma_pow2_adds(sa as nat, 349);
            lemma_pow2_adds(64, up);
            lemma_pow2_adds(sb as nat, w as nat);
            assert(n * pow2(200) == (ma as nat * pow2(64)) * pow2(up)) by (nonlinear_arith)
                requires
                    n == (ma as nat * pow2(sa as nat)) * pow2(149),
                    pow2(349) == pow2(149) * pow2(200),
                    pow2(sa as nat + 349) == pow2(sa as nat) * pow2(349),
                    pow2(64 + up) == pow2(64) * pow2(up),
                    pow2(64 + up) == pow2(sa as nat + 349),
            ;
            assert(d * pow2(w as nat) == mb as nat * pow2(up)) by (nonlinear_arith)
                requires
                    d == mb as nat * pow2(sb as nat),
                    pow2(up) == pow2(sb as nat) * pow2(w as nat),
            ;
        }
        Single::quotient(negative, ma as u128, mb as u128, w, Ghost(n), Ghost(d))
    }
}

/// The bits without the sign order magnitudes as their values do.
proof fn lemma_magnitude_order(a: u32, b: u32)
    requires
        a < b <= 0x7f80_0000,
    ensures
        Number::of_bits(a) is Finite,
        0 <= Number::of_bits(a).place() < Number::of_bits(b).place(),
{
    reveal(Number::of_bits);
    let (ea, fa) = (a as nat / 0x80_0000, a as nat % 0x80_0000);
    let (eb, fb) = (b as nat / 0x80_0000, b as nat % 0x80_0000);
    let pa = Number::of_bits(a).place();
    let pb = Number::of_bits(b).place();
    assert(ea <= eb && eb <= 0xff && ea < 0xff);
    rounding::lemma_pow2_24();
    lemma_pow2_adds(23, 254);
    if eb == 0 {
        assert(pa == fa && pb == fb);
    } else {
        let tb = (eb - 1) as nat;
        lemma_pow2_pos(tb);
        assert(pb == (0x80_0000 + fb) * pow2(tb));
        if ea == eb {
            assert(pa == (0x80_0000 + fa) * pow2(tb));
            assert(0 <= pa < pb) by (nonlinear_arith)
                requires
                    pa == (0x80_0000 + fa) * pow2(tb),
                    pb == (0x80_0000 + fb) * pow2(tb),
                    fa < fb,
                    pow2(tb) > 0,
            ;
        } else {
            assert(pb >= 0x80_0000 * pow2(tb)) by (nonlinear_arith)
                requires
                    pb == (0x80_0000 + fb) * pow2(tb),
            ;
            if ea == 0 {
                assert(0x80_0000 * pow2(tb) >= 0x80_0000);
                assert(pa == fa);
            } else {
                let ta = (ea - 1) as nat;
                lemma_pow2_pos(ta);
                lemma_pow2_unfold(ta + 1);
                if ta + 1 < tb {
                    lemma_pow2_strictly_increases(ta + 1, tb);
                }
                assert(0 <= pa < 0x80_0000 * pow2(tb)) by (nonlinear_arith)
                    requires
                        pa == (0x80_0000 + fa) * pow2(ta),
                        fa < 0x80_0000,
                        2 * pow2(ta) <= pow2(tb),
                        pow2(ta) > 0,
                ;
            }
        }
    }
}

impl Single {
    /// The bits as a whole number that orders as the number does.
    fn rank(self) -> (r: i64)
        ensures
            r == self.spec_rank(),
    {
        if self.bits >= 0x8000_0000 {
            -((self.bits - 0x8000_0000) as i64)
        } else {
            self.bits as i64
        }
    }

    spec fn spec_rank(self) -> int {
        if self.bits >= 0x8000_0000 {
            0x8000_0000 - self.bits
        } else {
            self.bits as int
        }
    }

    proof fn lemma_rank(self)
        requires
            self@ !is Nan,
        ensures
            ({
                let size = self.bits % 0x8000_0000;
                &&& size <= 0x7f80_0000
                &&& self.spec_rank() == if self.bits >= 0x8000_0000 { -size } else { size as int }
                &&& self@.place() == if self.bits >= 0x8000_0000 {
                    -Number::of_bits(size).place()
                } else {
                    Number::of_bits(size).place()
                }
            }),
    {
        reveal(Number::of_bits);
        let size = self.bits % 0x8000_0000;
        assert((self.bits as nat / 0x80_0000) % 0x100 == (size as nat / 0x80_0000) % 0x100);
        assert(self.bits as nat % 0x80_0000 == size as nat % 0x80_0000);
    }

    proof fn lemma_rank_order(self, other: Single)
        requires
            self@ !is Nan,
            other@ !is Nan,
        ensures
            self.spec_rank() < other.spec_rank() <==> self@.place() < other@.place(),
    {
        reveal(Number::of_bits);
        self.lemma_rank();
        other.lemma_rank();
        let a = self.bits % 0x8000_0000;
        let b = other.bits % 0x8000_0000;
        assert(Number::of_bits(0).place() == 0);
        if 0 < a {
            lemma_magnitude_order(0, a);
        }
        if 0 < b {
            lemma_magnitude_order(0, b);
        }
        if a < b {
            lemma_magnitude_order(a, b);
        } else if b < a {
            lemma_magnitude_order(b, a);
        }
    }

    /// `self < other`.
    pub fn less(self, other: Single) -> (r: bool)
        ensures
            r == self@.less(other@),
    {
        if self.is_nan() || other.is_nan() {
            false
        } else {
            proof {
                self.lemma_rank_order(other);
            }
            self.rank() < other.rank()
        }
    }

    /// `self <= other`.
    pub fn at_most(self, other: Single) -> (r: bool)
        ensures
            r == self@.at_most(other@),
    {
        if self.is_nan() || other.is_nan() {
            false
        } else {
            proof {
                other.lemma_rank_order(self);
            }
            self.rank() <= other.rank()
        }
    }
}

impl Single {
    /// `self + other`.
    pub fn plus(self, other: Single) -> (r: Single)
        ensures
            r@ == self@.plus(other@),
    {
        proof {
            reveal(Number::of_bits);
            reveal(Number::plus);
        }
        if self.is_nan() || other.is_nan() {
            return Single { bits: NAN_BITS };
        }
        if self.is_infinite() {
            if other.is_infinite() && self.is_negative() != other.is_negative() {
                return Single { bits: NAN_BITS };
            }
            return self;
        }
        if other.is_infinite() {
            return other;
        }
        let (_, sa) = self.parts();
        let (_, sb) = other.parts();
        if sa >= sb {
            self.finite_sum(other)
        } else {
            other.finite_sum(self)
        }
    }

    /// `self - other`.
    pub fn minus(self, other: Single) -> (r: Single)
        ensures
            r@ == self@.minus(other@),
    {
        self.plus(other.negated())
    }

    /// The sum of two finite numbers, the one with the coarser gap first.
    fn finite_sum(self, other: Single) -> (r: Single)
        requires
            self@ is Finite,
            other@ is Finite,
            self.spec_exponent() >= other.spec_exponent(),
        ensures
            r@ == self@.plus(other@),
    {
        proof {
            reveal(Number::of_bits);
            reveal(Number::plus);
        }
        let (ma, sa) = self.parts();
        let (mb, sb) = other.parts();
        let na: bool = self.is_negative();
        let nb: bool = other.is_negative();
        let apart: u32 = sa - sb;
        let ghost a = ma as nat * pow2(sa as nat);
        let ghost b = mb as nat * pow2(sb as nat);
        if apart <= 100 {
            proof {
                rounding::lemma_pow2_24();
                lemma_pow2_adds(24, apart as nat);
                lemma2_to64();
                lemma2_to64_rest();
                lemma_pow2_adds(60, 64);
                lemma_pow2_pos(apart as nat);
                if apart < 100 {
                    lemma_pow2_strictly_increases(24 + apart as nat, 124);
                }
                assert(ma * pow2(apart as nat) <= pow2(124)) by (nonlinear_arith)
                    requires
                        ma <= pow2(24),
                        pow2(24 + apart as nat) == pow2(24) * pow2(apart as nat),
                        pow2(24 + apart as nat) <= pow2(124),
                ;
                lemma_pow2_adds(apart as nat, sb as nat);
                lemma_pow2_pos(sb as nat);
            }
            let wide: u128 = doubled(ma as u128, apart);
            let (negative, m): (bool, u128) = if na == nb {
                (na, wide + mb as u128)
            } else if wide >= mb as u128 {
                (na, wide - mb as u128)
            } else {
                (nb, mb as u128 - wide)
            };
            let ghost n = m as nat * pow2(sb as nat);
            proof {
                let gap = pow2(sb as nat);
                assert(a == wide as nat * gap) by (nonlinear_arith)
                    requires
                        a == ma as nat * pow2(sa as nat),
                        pow2(sa as nat) == pow2(apart as nat) * gap,
                        wide as nat == ma as nat * pow2(apart as nat),
                ;
                assert(na == nb ==> n == a + b) by (nonlinear_arith)
                    requires
                        na == nb ==> m == wide + mb,
                        n == m as nat * gap,
                        a == wide as nat * gap,
                        b == mb as nat * gap,
                ;
                assert(na != nb && wide >= mb ==> n == a - b) by (nonlinear_arith)
                    requires
                        na != nb && wide >= mb ==> m == wide - mb,
                        n == m as nat * gap,
                        a == wide as nat * gap,
                        b == mb as nat * gap,
                ;
                assert(na != nb && wide < mb ==> n == b - a) by (nonlinear_arith)
                    requires
                        na != nb && wide < mb ==> m == mb - wide,
                        n == m as nat * gap,
                        a == wide as nat * gap,
                        b == mb as nat * gap,
                ;
                lemma_zero_product(m as nat, gap);
            }
            if m == 0 {
                assert(self@.place() + other@.place() == 0);
                return Single::with_sign(na && nb, 0);
            }
            proof {
                lemma_pow2_pos(sb as nat + 200);
                lemma_pow2_adds(sb as nat, 200);
                assert(n * pow2(200) == m as nat * pow2(sb as nat + 200)) by (nonlinear_arith)
                    requires
                        n == m as nat * pow2(sb as nat),
                        pow2(sb as nat + 200) == pow2(sb as nat) * pow2(200),
                ;
                lemma_exact_frame(n * pow2(200), pow2(sb as nat + 200), m as nat);
                assert(1 * pow2(sb as nat + 200) == pow2(sb as nat + 200));
                assert(vstd::math::abs(self@.place() + other@.place()) == n);
            }
            Single::rounded(negative, m, sb + 200, false, Ghost(n), Ghost(1nat))
        } else {
            let wide: u128 = ma as u128 * 0x1_0000_0000_0000_0000;
            let cut: bool = mb != 0;
            let m: u128 = if cut && na != nb {
                (wide - 1) as u128
            } else {
                wide
            };
            let ghost n = if na == nb { a + b } else { (a - b) as nat };
            proof {
                let step = pow2((sa - 64) as nat);
                lemma2_to64();
                rounding::lemma_pow2_24();
                lemma_pow2_adds((sa - 64) as nat, 64);
                lemma_pow2_adds(24, sb as nat);
                lemma_pow2_strictly_increases(24 + sb as nat, (sa - 64) as nat);
                lemma_pow2_pos(sb as nat);
                lemma_pow2_pos((sa - 64) as nat);
                lemma_zero_product(mb as nat, pow2(sb as nat));
                assert(b < step) by (nonlinear_arith)
                    requires
                        b == mb as nat * pow2(sb as nat),
                        mb < pow2(24),
                        pow2(24 + sb as nat) == pow2(24) * pow2(sb as nat),
                        pow2(24 + sb as nat) < step,
                ;
                assert(a == wide as nat * step) by (nonlinear_arith)
                    requires
                        a == ma as nat * pow2(sa as nat),
                        pow2(sa as nat) == step * pow2(64),
                        wide as nat == ma as nat * pow2(64),
                ;
                assert((wide as nat + 1) * step == wide as nat * step + step) by (nonlinear_arith);
                assert((wide as nat - 1) * step == wide as nat * step - step) by (nonlinear_arith);
                assert(a >= step) by (nonlinear_arith)
                    requires
                        a == wide as nat * step,
                        wide >= 1,
                ;
                assert(rounding::framed(n, step, m as nat, cut));
                lemma_pow2_adds((sa - 64) as nat, 200);
                lemma_scaled_frame(
                    n,
                    step,
                    m as nat,
                    cut,
                    n * pow2(200),
                    pow2((sa + 136) as nat),
                    200,
                );
                assert(1 * pow2((sa + 136) as nat) == pow2((sa + 136) as nat));
                assert(vstd::math::abs(self@.place() + other@.place()) == n);
            }
            Single::rounded(na, m, sa + 136, cut, Ghost(n), Ghost(1nat))
        }
    }

    /// Exponent of the last bit of a finite number.
    pub(crate) open spec fn spec_exponent(self) -> nat {
        let exponent = (self.bits as nat / 0x80_0000) % 0x100;
        if exponent == 0 {
            0
        } else {
            (exponent - 1) as nat
        }
    }
}

/// The whole part of the square root.
fn whole_root(n: u128) -> (r: u128)
    requires
        n < 0x1_0000_0000_0000_0000_0000_0000_0000,
    ensures
        r == rounding::floor_root(n as nat),
        r <= n,
        r * r <= n < (r + 1) * (r + 1),
    decreases n,
{
    if n == 0 {
        return 0;
    }
    let r: u128 = 2 * whole_root(n / 4);
    proof {
        rounding::lemma_floor_root(n as nat);
        rounding::lemma_floor_root((n / 4) as nat);
        let h = rounding::floor_root((n / 4) as nat);
        if h >= 0x100_0000_0000_0000 {
            assert(h * h >= 0x100_0000_0000_0000 * 0x100_0000_0000_0000) by (nonlinear_arith)
                requires
                    h >= 0x100_0000_0000_0000,
            ;
            assert(false);
        }
        assert((r + 1) * (r + 1) <= 0x200_0000_0000_0000 * 0x200_0000_0000_0000)
            by (nonlinear_arith)
            requires
                r + 1 <= 0x200_0000_0000_0000,
        ;
    }
    let root: u128 = if (r + 1) * (r + 1) <= n {
        r + 1
    } else {
        r
    };
    proof {
        assert(root <= root * root) by (nonlinear_arith)
            requires
                root >= 0,
        ;
    }
    root
}

impl Single {
    /// The square root.
    pub fn root(self) -> (r: Single)
        ensures
            r@ == self@.root(),
    {
        proof {
            reveal(Number::of_bits);
            reveal(Number::root);
        }
        if self.is_nan() {
            return self;
        }
        proof {
            lemma_zero_bits(self);
        }
        if self.magnitude_bits() == 0 {
            return self;
        }
        if self.is_negative() {
            return Single { bits: NAN_BITS };
        }
        if self.is_infinite() {
            return self;
        }
        let (m, s) = self.parts();
        let odd: u32 = (s + 149) % 2;
        let c: u32 = 64 + odd;
        let h: u32 = (s + 149 - c) / 2;
        let big: u128 = if odd == 1 {
            m as u128 * 0x2_0000_0000_0000_0000
        } else {
            m as u128 * 0x1_0000_0000_0000_0000
        };
        let r: u128 = whole_root(big);
        let cut: bool = r * r != big;
        let ghost square = self@->units * pow2(149);
        let ghost whole = rounding::floor_root(square);
        let ghost n: nat = if whole * whole == square { 2 * whole } else { 2 * whole + 1 };
        proof {
            let gap = pow2(h as nat);
            lemma2_to64();
            lemma_pow2_unfold(65);
            lemma_pow2_pos(s as nat);
            lemma_pow2_pos(h as nat);
            lemma_zero_product(m as nat, pow2(s as nat));
            assert(m >= 1);
            assert(big as nat == m as nat * pow2(c as nat));
            lemma_pow2_adds(s as nat, 149);
            lemma_pow2_adds(h as nat, h as nat);
            lemma_pow2_adds(c as nat, (h + h) as nat);
            assert(square == big as nat * (gap * gap)) by (nonlinear_arith)
                requires
                    square == (m as nat * pow2(s as nat)) * pow2(149),
                    pow2(s as nat + 149) == pow2(s as nat) * pow2(149),
                    pow2(s as nat + 149) == pow2(c as nat) * (gap * gap),
                    big as nat == m as nat * pow2(c as nat),
            ;
            rounding::lemma_root_frame(big as nat, r as nat, gap, square, whole, n, cut);
            lemma_pow2_adds(h as nat, 200);
            assert(2 * pow2(h as nat + 200) == (2 * gap) * pow2(200)) by (nonlinear_arith)
                requires
                    pow2(h as nat + 200) == gap * pow2(200),
            ;
            lemma_scaled_frame(
                n,
                2 * gap,
                r as nat,
                cut,
                n * pow2(200),
                2 * pow2(h as nat + 200),
                200,
            );
            if r < 0x200_0000 {
                assert((r + 1) * (r + 1) <= 0x200_0000 * 0x200_0000) by (nonlinear_arith)
                    requires
                        r + 1 <= 0x200_0000,
                ;
                assert(false);
            }
        }
        Single::rounded(false, r, h + 200, cut, Ghost(n), Ghost(2nat))
    }
}

impl Default for Single {
    /// Positive zero.
    fn default() -> (r: Single)
        ensures
            r@ == Number::zero(),
    {
        proof {
            reveal(Number::of_bits);
        }
        Single { bits: 0 }
    }
}

/// `m / 2^k`.
fn halved(m: u32, k: u32) -> (r: u32)
    ensures
        r as nat == m as nat / pow2(k as nat),
{
    let mut r: u32 = m;
    let mut i: u32 = 0;
    proof {
        rounding::lemma_pow2_0();
    }
    while i < k
        invariant
            i <= k,
            r as nat == m as nat / pow2(i as nat),
        decreases k - i,
    {
        proof {
            lemma_pow2_unfold(i as nat + 1);
            lemma_pow2_pos(i as nat);
            vstd::arithmetic::div_mod::lemma_div_denominator(
                m as int,
                pow2(i as nat) as int,
                2,
            );
        }
        r = r / 2;
        i = i + 1;
    }
    r
}

impl Single {
    /// The lesser of the two; the other one where one is not a number.
    pub fn lesser(self, other: Single) -> (r: Single)
        ensures
            r@ == self@.lesser(other@),
    {
        if self.is_nan() || other.less(self) {
            other
        } else {
            self
        }
    }

    /// The greater of the two; the other one where one is not a number.
    pub fn greater(self, other: Single) -> (r: Single)
        ensures
            r@ == self@.greater(other@),
    {
        if self.is_nan() || self.less(other) {
            other
        } else {
            self
        }
    }

    /// The number brought into the range from `low` to `high`.
    pub fn clamped(self, low: Single, high: Single) -> (r: Single)
        requires
            low@.at_most(high@),
        ensures
            r@ == self@.clamped(low@, high@),
    {
        if self.less(low) {
            low
        } else if high.less(self) {
            high
        } else {
            self
        }
    }

    /// The whole part as an `i32`, saturating; zero where it is not a number.
    pub fn to_i32(self) -> (r: i32)
        ensures
            r == self@.truncated(),
    {
        proof {
            reveal(Number::truncated);
        }
        if self.is_nan() {
            return 0;
        }
        let negative: bool = self.is_negative();
        if self.is_infinite() {
            return if negative {
                i32::MIN
            } else {
                i32::MAX
            };
        }
        let (m, s) = self.parts();
        let size: u64 = if s < 149 {
            proof {
                let k = (149 - s) as nat;
                lemma_pow2_pos(s as nat);
                lemma_pow2_pos(k);
                lemma_pow2_adds(k, s as nat);
                vstd::arithmetic::div_mod::lemma_div_multiples_vanish_quotient(
                    pow2(s as nat) as int,
                    m as int,
                    pow2(k) as int,
                );
                assert(pow2(s as nat) * m == m * pow2(s as nat)) by (nonlinear_arith);
                assert(pow2(s as nat) * pow2(k) == pow2(149)) by (nonlinear_arith)
                    requires
                        pow2(149) == pow2(k) * pow2(s as nat),
                ;
            }
            halved(m, 149 - s) as u64
        } else {
            let k: u32 = s - 149;
            proof {
                lemma_pow2_pos(149);
                lemma_pow2_adds(k as nat, 149);
                assert(m as nat * pow2(s as nat) == (m as nat * pow2(k as nat)) * pow2(149))
                    by (nonlinear_arith)
                    requires
                        pow2(s as nat) == pow2(k as nat) * pow2(149),
                ;
                vstd::arithmetic::div_mod::lemma_div_by_multiple(
                    (m as nat * pow2(k as nat)) as int,
                    pow2(149) as int,
                );
                lemma2_to64();
                lemma_pow2_pos(k as nat);
            }
            if k >= 9 {
                proof {
                    if k > 9 {
                        lemma_pow2_strictly_increases(9, k as nat);
                    }
                    assert(m as nat * pow2(k as nat) >= 0x1_0000_0000) by (nonlinear_arith)
                        requires
                            m >= 0x80_0000,
                            pow2(k as nat) >= 512,
                    ;
                }
                0x1_0000_0000
            } else {
                proof {
                    lemma_pow2_strictly_increases(k as nat, 9);
                    assert(m as nat * pow2(k as nat) <= 0x2_0000_0000) by (nonlinear_arith)
                        requires
                            m <= 0x100_0000,
                            pow2(k as nat) <= 512,
                    ;
                }
                doubled(m as u128, k) as u64
            }
        };
        if negative {
            if size > 0x8000_0000 {
                i32::MIN
            } else {
                (-(size as i64)) as i32
            }
        } else {
            if size > 0x7fff_ffff {
                i32::MAX
            } else {
                size as i32
            }
        }
    }
}

} // verus!
