//! Single-precision arithmetic on bit patterns.
//!
//! Scores, thresholds and the model files all hold IEEE 754 single-precision
//! numbers. They are kept here as their 32 bits and computed on with integers,
//! rounding to nearest with ties to even, so that every comparison the detector
//! makes is covered by a proof and comes out the same on every machine.

use vstd::arithmetic::power2;
use vstd::prelude::*;

verus! {

/// A single-precision number, as its bits.
#[derive(Debug, Clone, Copy, PartialEq, Eq, Structural)]
pub struct Single {
    pub bits: u32,
}

/// The bit that holds the sign.
pub const SIGN_BIT: u32 = 0x8000_0000;

/// The magnitude of infinity; larger magnitudes are not numbers.
pub const INFINITE: u32 = 0x7f80_0000;

/// What every invalid operation returns.
pub const NOT_A_NUMBER: u32 = 0x7fc0_0000;

/// The magnitude bits of a pattern.
pub open spec fn magnitude(bits: u32) -> int {
    if bits >= SIGN_BIT {
        bits - SIGN_BIT
    } else {
        bits as int
    }
}

/// The size of a finite magnitude, counted in the smallest positive number,
/// which is two to the power of -149.
pub open spec fn units(m: int) -> int {
    let e = m / 0x0080_0000;
    let f = m % 0x0080_0000;
    if e <= 0 {
        f
    } else {
        (0x0080_0000 + f) * power2::pow2((e - 1) as nat)
    }
}

/// `num / den` to the nearest integer, ties to even.
pub open spec fn half_even(num: int, den: int) -> int {
    let q = num / den;
    let r = num % den;
    if 2 * r > den || (2 * r == den && q % 2 == 1) {
        q + 1
    } else {
        q
    }
}

/// The magnitude bits of `num / den` units rounded to 24 significant bits,
/// before overflow is cut off: each doubling of the spacing is one more step of
/// the exponent field.
pub open spec fn round_magnitude(num: int, den: int) -> int
    decreases num - den,
{
    if den <= 0 || num < 0x0100_0000 * den {
        half_even(num, den)
    } else {
        0x0080_0000 + round_magnitude(num, 2 * den)
    }
}

/// The rounded magnitude, infinite where it overflows.
pub open spec fn rounded(num: int, den: int) -> int {
    if round_magnitude(num, den) < INFINITE {
        round_magnitude(num, den)
    } else {
        INFINITE as int
    }
}

/// The number with this sign and these magnitude bits.
pub open spec fn signed(negative: bool, m: int) -> Single {
    Single { bits: (if negative { SIGN_BIT + m } else { m }) as u32 }
}

/// The number nearest to `value / den` units; zero is positive.
pub open spec fn nearest(value: int, den: int) -> Single {
    if value < 0 {
        signed(true, rounded(-value, den))
    } else {
        signed(false, rounded(value, den))
    }
}

impl Single {
    pub open spec fn negative(self) -> bool {
        self.bits >= SIGN_BIT
    }

    pub open spec fn magnitude(self) -> int {
        magnitude(self.bits)
    }

    pub open spec fn nan(self) -> bool {
        self.magnitude() > INFINITE
    }

    pub open spec fn infinite(self) -> bool {
        self.magnitude() == INFINITE
    }

    pub open spec fn finite(self) -> bool {
        self.magnitude() < INFINITE
    }

    /// The exact value of a finite number, in units of the smallest positive one.
    pub open spec fn value(self) -> int {
        if self.negative() {
            -units(self.magnitude())
        } else {
            units(self.magnitude())
        }
    }

    /// Where the number stands among all that are not NaN; the two zeros tie.
    pub open spec fn rank(self) -> int {
        if self.negative() {
            -self.magnitude()
        } else {
            self.magnitude()
        }
    }

    pub open spec fn is_less(self, other: Single) -> bool {
        !self.nan() && !other.nan() && self.rank() < other.rank()
    }

    pub open spec fn is_at_least(self, other: Single) -> bool {
        !self.nan() && !other.nan() && self.rank() >= other.rank()
    }

    pub open spec fn opposite(self) -> Single {
        signed(!self.negative(), self.magnitude())
    }

    /// The sum, rounded once.
    pub open spec fn sum(self, other: Single) -> Single {
        if self.nan() || other.nan() {
            Single { bits: NOT_A_NUMBER }
        } else if self.infinite() {
            if other.infinite() && self.negative() != other.negative() {
                Single { bits: NOT_A_NUMBER }
            } else {
                self
            }
        } else if other.infinite() {
            other
        } else if self.value() + other.value() == 0 {
            signed(self.negative() && other.negative(), 0)
        } else {
            nearest(self.value() + other.value(), 1)
        }
    }

    pub open spec fn difference(self, other: Single) -> Single {
        self.sum(other.opposite())
    }

    /// The product, rounded once.
    pub open spec fn product(self, other: Single) -> Single {
        let negative = self.negative() != other.negative();
        if self.nan() || other.nan() {
            Single { bits: NOT_A_NUMBER }
        } else if self.infinite() || other.infinite() {
            if self.magnitude() == 0 || other.magnitude() == 0 {
                Single { bits: NOT_A_NUMBER }
            } else {
                signed(negative, INFINITE as int)
            }
        } else {
            signed(
                negative,
                rounded(units(self.magnitude()) * units(other.magnitude()), power2::pow2(149) as int),
            )
        }
    }

    /// The quotient, rounded once.
    pub open spec fn quotient(self, other: Single) -> Single {
        let negative = self.negative() != other.negative();
        if self.nan() || other.nan() || (self.infinite() && other.infinite()) || (
        self.magnitude() == 0 && other.magnitude() == 0) {
            Single { bits: NOT_A_NUMBER }
        } else if self.infinite() || other.magnitude() == 0 {
            signed(negative, INFINITE as int)
        } else if other.infinite() {
            signed(negative, 0)
        } else {
            signed(
                negative,
                rounded(units(self.magnitude()) * power2::pow2(149), units(other.magnitude())),
            )
        }
    }
}

/// A count as a number, rounded.
pub open spec fn count(n: nat) -> Single {
    signed(false, rounded((n * power2::pow2(149)) as int, 1))
}


// ---------------------------------------------------------------------------
// Rounding
// ---------------------------------------------------------------------------

proof fn lemma_pow2_double(e: nat)
    ensures
        power2::pow2(e + 1) == 2 * power2::pow2(e),
        power2::pow2(e) > 0,
{
    power2::lemma_pow2_unfold(e + 1);
    power2::lemma_pow2_pos(e);
}

proof fn lemma_pow2_small()
    ensures
        power2::pow2(0) == 1,
        power2::pow2(1) == 2,
        power2::pow2(23) == 0x0080_0000,
        power2::pow2(24) == 0x0100_0000,
{
    power2::lemma2_to64();
}

/// Scaling both sides changes neither the quotient nor the rounding.
proof fn lemma_half_even_scale(num: int, den: int, c: int)
    requires
        num >= 0,
        den > 0,
        c > 0,
    ensures
        half_even(num * c, den * c) == half_even(num, den),
{
    let q = num / den;
    let r = num % den;
    vstd::arithmetic::div_mod::lemma_fundamental_div_mod(num, den);
    assert(0 <= r * c < den * c) by (nonlinear_arith)
        requires
            0 <= r < den,
            c > 0,
    ;
    assert(num * c == (den * c) * q + r * c) by (nonlinear_arith)
        requires
            num == den * q + r,
    ;
    vstd::arithmetic::div_mod::lemma_fundamental_div_mod_converse(num * c, den * c, q, r * c);
    assert((2 * r > den) == (2 * (r * c) > den * c)) by (nonlinear_arith)
        requires
            c > 0,
    ;
    assert((2 * r == den) == (2 * (r * c) == den * c)) by (nonlinear_arith)
        requires
            c > 0,
    ;
}

proof fn lemma_round_scale(num: int, den: int, c: int)
    requires
        num >= 0,
        den > 0,
        c > 0,
    ensures
        round_magnitude(num * c, den * c) == round_magnitude(num, den),
    decreases num - den,
{
    assert(den * c > 0) by (nonlinear_arith)
        requires
            den > 0,
            c > 0,
    ;
    assert((num < 0x0100_0000 * den) == (num * c < 0x0100_0000 * (den * c))) by (nonlinear_arith)
        requires
            c > 0,
    ;
    if num < 0x0100_0000 * den {
        lemma_half_even_scale(num, den, c);
    } else {
        lemma_round_scale(num, 2 * den, c);
        assert((2 * den) * c == 2 * (den * c)) by (nonlinear_arith);
    }
}

/// Taking `k` steps of the exponent at once.
proof fn lemma_round_unroll(num: int, den: int, k: nat)
    requires
        den > 0,
        k > 0 ==> num >= 0x0080_0000 * (den * power2::pow2(k)),
    ensures
        round_magnitude(num, den) == k * 0x0080_0000 + round_magnitude(
            num,
            den * power2::pow2(k),
        ),
    decreases k,
{
    lemma_pow2_small();
    if k == 0 {
        assert(den * 1 == den);
    } else {
        let j = (k - 1) as nat;
        lemma_pow2_double(j);
        let p = power2::pow2(j) as int;
        assert(den * (2 * p) == (2 * den) * p) by (nonlinear_arith);
        assert((2 * den) * p >= 2 * den) by (nonlinear_arith)
            requires
                p >= 1,
                den > 0,
        ;
        lemma_round_unroll(num, 2 * den, j);
    }
}

/// The leading one of a positive number stands at this place.
pub open spec fn bit_length(v: int, len: int) -> bool {
    len >= 1 && power2::pow2((len - 1) as nat) <= v < power2::pow2(len as nat)
}

fn bit_length_of(v: u128) -> (len: u32)
    requires
        v > 0,
    ensures
        bit_length(v as int, len as int),
        len <= 128,
{
    let mut rest: u128 = v;
    let mut len: u32 = 0;
    proof {
        lemma_pow2_small();
        assert(v == v * power2::pow2(0));
    }
    while rest > 0
        invariant
            v > 0,
            rest > 0 || len > 0,
            len <= 128,
            rest * power2::pow2(len as nat) <= v,
            v < (rest + 1) * power2::pow2(len as nat),
            rest == 0 ==> power2::pow2((len - 1) as nat) <= v,
        decreases rest,
    {
        let ghost before = rest as int;
        let ghost p = power2::pow2(len as nat) as int;
        proof {
            lemma_pow2_double(len as nat);
            if len >= 128 {
                power2::lemma2_to64();
                power2::lemma_pow2_adds(64, 64);
                if len > 128 {
                    power2::lemma_pow2_strictly_increases(128, len as nat);
                }
                assert(power2::pow2(64) * power2::pow2(64) == 0x1_0000_0000_0000_0000_0000_0000_0000_0000);
                assert(rest * p >= p) by (nonlinear_arith)
                    requires
                        rest >= 1,
                        p > 0,
                ;
                assert(false);
            }
        }
        rest = rest / 2;
        len = len + 1;
        proof {
            let r = rest as int;
            assert(r * (2 * p) <= before * p) by (nonlinear_arith)
                requires
                    2 * r <= before,
                    p > 0,
            ;
            assert((before + 1) * p <= (r + 1) * (2 * p)) by (nonlinear_arith)
                requires
                    before <= 2 * r + 1,
                    p > 0,
            ;
            if rest == 0 {
                assert(before * p == p) by (nonlinear_arith)
                    requires
                        before == 1,
                ;
            }
        }
    }
    proof {
        let p = power2::pow2(len as nat) as int;
        assert((rest + 1) * p == p) by (nonlinear_arith)
            requires
                rest == 0,
        ;
    }
    len
}

fn power_of_two(e: u32) -> (p: u128)
    requires
        e < 128,
    ensures
        p == power2::pow2(e as nat),
{
    let mut p: u128 = 1;
    let mut i: u32 = 0;
    proof {
        lemma_pow2_small();
    }
    while i < e
        invariant
            i <= e < 128,
            p == power2::pow2(i as nat),
        decreases e - i,
    {
        proof {
            lemma_pow2_double(i as nat);
            power2::lemma2_to64();
            power2::lemma2_to64_rest();
            power2::lemma_pow2_adds(63, 64);
            if i + 1 < 127 {
                power2::lemma_pow2_strictly_increases((i + 1) as nat, 127);
            }
            assert(power2::pow2(127) == 0x8000_0000_0000_0000_0000_0000_0000_0000);
        }
        p = p * 2;
        i = i + 1;
    }
    p
}

/// The units of `j` times two to the power of `x`, as a fraction.
spec fn scaled_num(j: int, x: int) -> int {
    if x >= 0 {
        j * power2::pow2(x as nat)
    } else {
        j
    }
}

spec fn scaled_den(x: int) -> int {
    if x >= 0 {
        1
    } else {
        power2::pow2((-x) as nat) as int
    }
}

proof fn lemma_half_even_bounds(num: int, den: int)
    requires
        num >= 0,
        den > 0,
    ensures
        half_even(num, den) >= 0,
        num < 0x0100_0000 * den ==> half_even(num, den) <= 0x0100_0000,
        2 * num < den ==> half_even(num, den) == 0,
{
    vstd::arithmetic::div_mod::lemma_fundamental_div_mod(num, den);
    let q = num / den;
    assert(q >= 0) by (nonlinear_arith)
        requires
            num >= 0,
            den > 0,
            q == num / den,
    ;
    if num < 0x0100_0000 * den {
        assert(q < 0x0100_0000) by (nonlinear_arith)
            requires
                num < 0x0100_0000 * den,
                den > 0,
                num == den * q + num % den,
                0 <= num % den,
        ;
    }
    if 2 * num < den {
        vstd::arithmetic::div_mod::lemma_small_mod(num as nat, den as nat);
        assert(q == 0) by (nonlinear_arith)
            requires
                0 <= num < den,
                q == num / den,
        ;
    }
}

/// How many steps of the exponent a number takes, and what is rounded then.
proof fn lemma_encode_steps(j: int, x: int, len: int, k: int)
    requires
        bit_length(j, len),
        k == if len + x - 24 > 0 {
            len + x - 24
        } else {
            0
        },
    ensures
        scaled_den(x) > 0,
        scaled_num(j, x) >= 0,
        scaled_den(x) * power2::pow2(k as nat) > 0,
        round_magnitude(scaled_num(j, x), scaled_den(x)) == k * 0x0080_0000 + half_even(
            scaled_num(j, x),
            scaled_den(x) * power2::pow2(k as nat),
        ),
        x >= k ==> j * power2::pow2((x - k) as nat) < 0x0100_0000,
        x >= k ==> half_even(scaled_num(j, x), scaled_den(x) * power2::pow2(k as nat)) == j
            * power2::pow2((x - k) as nat),
        x < k ==> half_even(scaled_num(j, x), scaled_den(x) * power2::pow2(k as nat)) == half_even(
            j,
            power2::pow2((k - x) as nat) as int,
        ),
        x < k ==> j < 0x0100_0000 * power2::pow2((k - x) as nat),
{
    let n = scaled_num(j, x);
    let d = scaled_den(x);
    let pk = power2::pow2(k as nat) as int;
    lemma_pow2_small();
    power2::lemma_pow2_pos(k as nat);
    power2::lemma_pow2_pos((len - 1) as nat);
    // The bit length leaves 24 bits above the spacing.
    lemma_pow2_shift(len, 24 + k - x);
    if x >= 0 {
        let px = power2::pow2(x as nat) as int;
        power2::lemma_pow2_pos(x as nat);
        assert(n >= 0) by (nonlinear_arith)
            requires
                n == j * px,
                j >= 0,
                px > 0,
        ;
        assert(d * pk == pk);
        power2::lemma_pow2_adds(len as nat, x as nat);
        power2::lemma_pow2_adds((len - 1) as nat, x as nat);
        power2::lemma_pow2_adds(24, k as nat);
        power2::lemma_pow2_adds(23, k as nat);
        lemma_pow2_shift(len + x, 24 + k);
        let pl = power2::pow2(len as nat) as int;
        let pm = power2::pow2((len - 1) as nat) as int;
        assert(n < pl * px) by (nonlinear_arith)
            requires
                n == j * px,
                j < pl,
                px > 0,
        ;
        assert(n >= pm * px) by (nonlinear_arith)
            requires
                n == j * px,
                j >= pm,
                px > 0,
        ;
        assert(n < 0x0100_0000 * (d * pk));
        if k > 0 {
            assert(n >= 0x0080_0000 * (d * pk));
        }
        lemma_round_unroll(n, d, k as nat);
        if x >= k {
            power2::lemma_pow2_adds((x - k) as nat, k as nat);
            let pd = power2::pow2((x - k) as nat) as int;
            let q = j * pd;
            assert(n == q * pk) by (nonlinear_arith)
                requires
                    n == j * px,
                    px == pd * pk,
                    q == j * pd,
            ;
            power2::lemma_pow2_pos((x - k) as nat);
            assert(q >= 0) by (nonlinear_arith)
                requires
                    q == j * pd,
                    j >= 0,
                    pd > 0,
            ;
            assert(q < 0x0100_0000) by (nonlinear_arith)
                requires
                    n == q * pk,
                    n < 0x0100_0000 * pk,
                    pk > 0,
            ;
            lemma_half_even_scale(q, 1, pk);
            assert(1 * pk == pk);
        } else {
            let ps = power2::pow2((k - x) as nat) as int;
            power2::lemma_pow2_adds((k - x) as nat, x as nat);
            power2::lemma_pow2_pos((k - x) as nat);
            lemma_half_even_scale(j, ps, px);
            assert(j < 0x0100_0000 * ps) by (nonlinear_arith)
                requires
                    j * px < 0x0100_0000 * pk,
                    pk == ps * px,
                    px > 0,
            ;
        }
    } else {
        power2::lemma_pow2_pos((-x) as nat);
        power2::lemma_pow2_adds((-x) as nat, k as nat);
        let ps = power2::pow2((k - x) as nat) as int;
        assert(d * pk == ps);
        power2::lemma_pow2_adds(24, (k - x) as nat);
        power2::lemma_pow2_adds(23, (k - x) as nat);
        lemma_pow2_shift(len, 24 + k - x);
        lemma_round_unroll(n, d, k as nat);
        power2::lemma_pow2_pos((k - x) as nat);
    }
}

/// Powers of two are ordered as their exponents.
proof fn lemma_pow2_shift(a: int, b: int)
    ensures
        0 <= a <= b ==> power2::pow2(a as nat) <= power2::pow2(b as nat),
{
    if 0 <= a < b {
        power2::lemma_pow2_strictly_increases(a as nat, b as nat);
    }
}

/// Rounds `j` times two to the power of `x` units.
fn encode(j: u128, x: i32) -> (m: u32)
    requires
        0 < j < 0x0100_0000_0000_0000_0000_0000_0000_0000,
        -1000 < x < 1000,
    ensures
        m == rounded(scaled_num(j as int, x as int), scaled_den(x as int)),
{
    let len: u32 = bit_length_of(j);
    let top: i32 = len as i32 + x - 24;
    let k: i32 = if top > 0 {
        top
    } else {
        0
    };
    let ghost num = scaled_num(j as int, x as int);
    let ghost den = scaled_den(x as int);
    proof {
        power2::lemma2_to64();
        power2::lemma2_to64_rest();
        power2::lemma_pow2_adds(56, 64);
        assert(power2::pow2(120) == 0x0100_0000_0000_0000_0000_0000_0000_0000);
        if len > 120 {
            lemma_pow2_shift(120, len - 1);
        }
        lemma_encode_steps(j as int, x as int, len as int, k as int);
        lemma_half_even_bounds(num, den * power2::pow2(k as nat));
    }
    if k >= 300 {
        return INFINITE;
    }
    if x >= k {
        // Nothing is rounded away: the spacing is at most the last bit of `j`.
        let p: u128 = power_of_two((x - k) as u32);
        let q: u128 = j * p;
        let bits: u128 = q + k as u128 * 0x0080_0000;
        if bits >= INFINITE as u128 {
            INFINITE
        } else {
            bits as u32
        }
    } else {
        let s: u32 = (k - x) as u32;
        proof {
            lemma_half_even_bounds(j as int, power2::pow2(s as nat) as int);
            lemma_pow2_shift(121, s as int);
            lemma_pow2_double(120);
        }
        if s > 126 {
            return 0;
        }
        let p: u128 = power_of_two(s);
        let q: u128 = j / p;
        let r: u128 = j % p;
        let up: bool = 2 * r > p || (2 * r == p && q % 2 == 1);
        let q2: u128 = if up {
            q + 1
        } else {
            q
        };
        let bits: u128 = q2 + k as u128 * 0x0080_0000;
        if bits >= INFINITE as u128 {
            INFINITE
        } else {
            bits as u32
        }
    }
}

/// A mantissa and an exponent that give the units of a finite magnitude.
fn decode(m: u32) -> (parts: (u32, u32))
    requires
        m < INFINITE,
    ensures
        units(m as int) == parts.0 * power2::pow2(parts.1 as nat),
        parts.0 < 0x0100_0000,
        parts.1 <= 253,
        parts.1 > 0 ==> parts.0 >= 0x0080_0000,
        m == parts.0 + parts.1 * 0x0080_0000,
        (m == 0) == (parts.0 == 0),
{
    let e: u32 = m / 0x0080_0000;
    let f: u32 = m % 0x0080_0000;
    proof {
        lemma_pow2_small();
        assert(f * power2::pow2(0) == f) by (nonlinear_arith)
            requires
                power2::pow2(0) == 1,
        ;
    }
    if e == 0 {
        (f, 0)
    } else {
        (0x0080_0000 + f, e - 1)
    }
}

fn pack(negative: bool, m: u32) -> (r: Single)
    requires
        m <= INFINITE,
    ensures
        r == signed(negative, m as int),
{
    if negative {
        Single { bits: SIGN_BIT + m }
    } else {
        Single { bits: m }
    }
}

/// A term far below the last bit of a number is rounded away.
proof fn lemma_absorb(m: int, e: nat, d: int)
    requires
        0x0080_0000 <= m < 0x0100_0000,
        e >= 2,
        -power2::pow2((e - 2) as nat) < d < power2::pow2((e - 2) as nat),
    ensures
        round_magnitude(m * power2::pow2(e) + d, 1) == m + e * 0x0080_0000,
        m * power2::pow2(e) + d > 0,
{
    let pe = power2::pow2(e) as int;
    let ph = power2::pow2((e - 1) as nat) as int;
    let pq = power2::pow2((e - 2) as nat) as int;
    lemma_pow2_double((e - 2) as nat);
    lemma_pow2_double((e - 1) as nat);
    let n = m * pe + d;
    assert(m * pe >= 0x0080_0000 * pe) by (nonlinear_arith)
        requires
            m >= 0x0080_0000,
            pe > 0,
    ;
    if d >= 0 {
        lemma_round_unroll(n, 1, e);
        assert(1 * pe == pe);
        assert(n < 0x0100_0000 * pe) by (nonlinear_arith)
            requires
                n == m * pe + d,
                m + 1 <= 0x0100_0000,
                d < pe,
                pe > 0,
        ;
        assert(n == pe * m + d) by (nonlinear_arith)
            requires
                n == m * pe + d,
        ;
        vstd::arithmetic::div_mod::lemma_fundamental_div_mod_converse(n, pe, m, d);
    } else if m > 0x0080_0000 {
        assert(n >= 0x0080_0000 * pe) by (nonlinear_arith)
            requires
                n == m * pe + d,
                m - 1 >= 0x0080_0000,
                d > -pe,
                pe > 0,
        ;
        lemma_round_unroll(n, 1, e);
        assert(1 * pe == pe);
        assert(n < 0x0100_0000 * pe) by (nonlinear_arith)
            requires
                n == m * pe + d,
                m <= 0x0100_0000,
                d < 0,
                pe > 0,
        ;
        assert(n == pe * (m - 1) + (pe + d)) by (nonlinear_arith)
            requires
                n == m * pe + d,
        ;
        vstd::arithmetic::div_mod::lemma_fundamental_div_mod_converse(n, pe, m - 1, pe + d);
    } else {
        assert(n == 0x0100_0000 * ph + d) by (nonlinear_arith)
            requires
                n == m * pe + d,
                m == 0x0080_0000,
                pe == 2 * ph,
        ;
        lemma_round_unroll(n, 1, (e - 1) as nat);
        assert(1 * ph == ph);
        assert(n == ph * 0x00ff_ffff + (ph + d));
        vstd::arithmetic::div_mod::lemma_fundamental_div_mod_converse(n, ph, 0x00ff_ffff, ph + d);
    }
}

proof fn lemma_sign_of_remainder(b: int, w: int, r: int)
    requires
        0 <= r < b,
    ensures
        b * w + r > 0 <==> w > 0 || (w == 0 && r > 0),
        b * w + r == 0 <==> w == 0 && r == 0,
{
    if w > 0 {
        assert(b * w >= b) by (nonlinear_arith)
            requires
                b > 0,
                w >= 1,
        ;
    } else if w < 0 {
        assert(b * w <= -b) by (nonlinear_arith)
            requires
                b > 0,
                w <= -1,
        ;
    } else {
        assert(b * w == 0) by (nonlinear_arith)
            requires
                w == 0,
        ;
    }
}

/// A quotient and the knowledge whether a remainder is left round as the exact
/// fraction does.
proof fn lemma_round_sticky(j: int, a: int, b: int, y: nat)
    requires
        b > 0,
        a >= 0,
        j == 2 * (a / b) + if a % b == 0 {
            0int
        } else {
            1
        },
        j >= 0x0400_0000,
    ensures
        round_magnitude(j, power2::pow2(y) as int) == round_magnitude(2 * a, b * power2::pow2(y)),
    decreases j - power2::pow2(y),
{
    let q = a / b;
    let r = a % b;
    let d = power2::pow2(y) as int;
    vstd::arithmetic::div_mod::lemma_fundamental_div_mod(a, b);
    lemma_pow2_double(y);
    lemma_pow2_small();
    assert(b * d > 0) by (nonlinear_arith)
        requires
            b > 0,
            d > 0,
    ;
    // Both sides stop at the same step, for the bound is even.
    let h = 0x0080_0000 * d;
    assert((2 * q < 2 * h) == (2 * a < 2 * (b * h))) by (nonlinear_arith)
        requires
            a == b * q + r,
            0 <= r < b,
    ;
    assert(0x0100_0000 * (b * d) == 2 * (b * h)) by (nonlinear_arith)
        requires
            h == 0x0080_0000 * d,
    ;
    if j < 0x0100_0000 * d {
        // The spacing is at least four here, so half of it is even.
        if y <= 1 {
            assert(false);
        }
        lemma_pow2_double((y - 1) as nat);
        lemma_pow2_double((y - 2) as nat);
        let half = power2::pow2((y - 1) as nat) as int;
        let quarter = power2::pow2((y - 2) as nat) as int;
        let t = q / half;
        let u = q % half;
        vstd::arithmetic::div_mod::lemma_fundamental_div_mod(q, half);
        let bit = j - 2 * q;
        assert(j == d * t + (2 * u + bit)) by (nonlinear_arith)
            requires
                j == 2 * q + bit,
                q == half * t + u,
                d == 2 * half,
        ;
        vstd::arithmetic::div_mod::lemma_fundamental_div_mod_converse(j, d, t, 2 * u + bit);
        let rest = 2 * (u * b + r);
        assert(2 * a == (b * d) * t + rest) by (nonlinear_arith)
            requires
                a == b * q + r,
                q == half * t + u,
                d == 2 * half,
                rest == 2 * (u * b + r),
        ;
        assert(0 <= rest < b * d) by (nonlinear_arith)
            requires
                0 <= u < half,
                0 <= r < b,
                d == 2 * half,
                rest == 2 * (u * b + r),
        ;
        vstd::arithmetic::div_mod::lemma_fundamental_div_mod_converse(2 * a, b * d, t, rest);
        let w = u - quarter;
        assert(2 * rest - b * d == 4 * (b * w + r)) by (nonlinear_arith)
            requires
                d == 4 * quarter,
                rest == 2 * (u * b + r),
                w == u - quarter,
        ;
        lemma_sign_of_remainder(b, w, r);
    } else {
        lemma_round_sticky(j, a, b, y + 1);
        assert(b * (2 * d) == 2 * (b * d)) by (nonlinear_arith);
    }
}

impl Single {
    pub fn is_nan(self) -> (r: bool)
        ensures
            r == self.nan(),
    {
        self.magnitude_bits() > INFINITE
    }

    fn is_negative(self) -> (r: bool)
        ensures
            r == self.negative(),
    {
        self.bits >= SIGN_BIT
    }

    fn magnitude_bits(self) -> (m: u32)
        ensures
            m == self.magnitude(),
    {
        if self.bits >= SIGN_BIT {
            self.bits - SIGN_BIT
        } else {
            self.bits
        }
    }

    fn rank_of(self) -> (r: i64)
        ensures
            r == self.rank(),
    {
        let m: u32 = self.magnitude_bits();
        if self.is_negative() {
            -(m as i64)
        } else {
            m as i64
        }
    }

    /// `self < other`.
    pub fn less_than(self, other: Single) -> (r: bool)
        ensures
            r == self.is_less(other),
    {
        !self.is_nan() && !other.is_nan() && self.rank_of() < other.rank_of()
    }

    /// `self >= other`.
    pub fn at_least(self, other: Single) -> (r: bool)
        ensures
            r == self.is_at_least(other),
    {
        !self.is_nan() && !other.is_nan() && self.rank_of() >= other.rank_of()
    }

    /// A count as a number.
    pub fn from_count(n: usize) -> (r: Single)
        ensures
            r == count(n as nat),
    {
        proof {
            lemma_half_even_bounds(0, 1);
            assert(0 * power2::pow2(149) == 0);
            power2::lemma_pow2_pos(149);
        }
        if n == 0 {
            return Single { bits: 0 };
        }
        Single { bits: encode(n as u128, 149) }
    }

    /// `-self`.
    pub fn negated(self) -> (r: Single)
        ensures
            r == self.opposite(),
    {
        if self.bits >= SIGN_BIT {
            Single { bits: self.bits - SIGN_BIT }
        } else {
            Single { bits: self.bits + SIGN_BIT }
        }
    }

    /// `self + other`.
    pub fn plus(self, other: Single) -> (r: Single)
        ensures
            r == self.sum(other),
    {
        if self.is_nan() || other.is_nan() {
            return Single { bits: NOT_A_NUMBER };
        }
        let ma: u32 = self.magnitude_bits();
        let mb: u32 = other.magnitude_bits();
        if ma == INFINITE {
            if mb == INFINITE && self.is_negative() != other.is_negative() {
                return Single { bits: NOT_A_NUMBER };
            }
            return self;
        }
        if mb == INFINITE {
            return other;
        }
        let (a, ea) = decode(ma);
        let (b, eb) = decode(mb);
        if ea >= eb {
            sum_aligned(self, other, a, ea, b, eb)
        } else {
            sum_aligned(other, self, b, eb, a, ea)
        }
    }

    /// `self - other`.
    pub fn minus(self, other: Single) -> (r: Single)
        ensures
            r == self.difference(other),
    {
        self.plus(other.negated())
    }

    /// `self * other`.
    pub fn times(self, other: Single) -> (r: Single)
        ensures
            r == self.product(other),
    {
        if self.is_nan() || other.is_nan() {
            return Single { bits: NOT_A_NUMBER };
        }
        let negative: bool = self.is_negative() != other.is_negative();
        let ma: u32 = self.magnitude_bits();
        let mb: u32 = other.magnitude_bits();
        if ma == INFINITE || mb == INFINITE {
            if ma == 0 || mb == 0 {
                return Single { bits: NOT_A_NUMBER };
            }
            return pack(negative, INFINITE);
        }
        let (a, ea) = decode(ma);
        let (b, eb) = decode(mb);
        let ghost ua = units(ma as int);
        let ghost ub = units(mb as int);
        if a == 0 || b == 0 {
            proof {
                power2::lemma_pow2_pos(149);
                lemma_half_even_bounds(0, power2::pow2(149) as int);
                assert(ua * ub == 0) by (nonlinear_arith)
                    requires
                        ua == 0 || ub == 0,
                ;
            }
            return pack(negative, 0);
        }
        assert(0 < a * b < 0x1_0000_0000_0000) by (nonlinear_arith)
            requires
                0 < a < 0x0100_0000,
                0 < b < 0x0100_0000,
        ;
        let j: u128 = a as u128 * b as u128;
        let x: i32 = ea as i32 + eb as i32 - 149;
        proof {
            let e = (ea + eb) as nat;
            let pe = power2::pow2(e) as int;
            let pa = power2::pow2(ea as nat) as int;
            let pb = power2::pow2(eb as nat) as int;
            power2::lemma_pow2_adds(ea as nat, eb as nat);
            power2::lemma_pow2_pos(e);
            power2::lemma_pow2_pos(149);
            assert(ua * ub == j * pe) by (nonlinear_arith)
                requires
                    ua == a * pa,
                    ub == b * pb,
                    j == a * b,
                    pe == pa * pb,
            ;
            if x >= 0 {
                power2::lemma_pow2_adds(x as nat, 149);
                let px = power2::pow2(x as nat) as int;
                let pu = power2::pow2(149) as int;
                power2::lemma_pow2_pos(x as nat);
                assert((j * px) * pu == j * pe) by (nonlinear_arith)
                    requires
                        pe == px * pu,
                ;
                assert(j * px >= 0) by (nonlinear_arith)
                    requires
                        j >= 0,
                        px >= 0,
                ;
                lemma_round_scale(j * px, 1, pu);
            } else {
                power2::lemma_pow2_adds((-x) as nat, e);
                power2::lemma_pow2_pos((-x) as nat);
                lemma_round_scale(j as int, power2::pow2((-x) as nat) as int, pe);
            }
        }
        let m: u32 = encode(j, x);
        pack(negative, m)
    }

    /// `self / other`.
    pub fn divided_by(self, other: Single) -> (r: Single)
        ensures
            r == self.quotient(other),
    {
        let ma: u32 = self.magnitude_bits();
        let mb: u32 = other.magnitude_bits();
        if self.is_nan() || other.is_nan() || (ma == INFINITE && mb == INFINITE) || (ma == 0 && mb
            == 0) {
            return Single { bits: NOT_A_NUMBER };
        }
        let negative: bool = self.is_negative() != other.is_negative();
        if ma == INFINITE || mb == 0 {
            return pack(negative, INFINITE);
        }
        if mb == INFINITE {
            return pack(negative, 0);
        }
        let (a, ea) = decode(ma);
        let (b, eb) = decode(mb);
        let ghost ua = units(ma as int);
        let ghost ub = units(mb as int);
        proof {
            power2::lemma_pow2_pos(149);
            power2::lemma_pow2_pos(eb as nat);
            assert(ub > 0) by (nonlinear_arith)
                requires
                    ub == b * power2::pow2(eb as nat),
                    b > 0,
                    power2::pow2(eb as nat) > 0,
            ;
        }
        if a == 0 {
            proof {
                lemma_half_even_bounds(0, ub);
                assert(ua == 0);
                assert(ua * power2::pow2(149) == 0) by (nonlinear_arith)
                    requires
                        ua == 0,
                ;
            }
            return pack(negative, 0);
        }
        let wide: u128 = a as u128 * 0x1_0000_0000_0000_0000;
        let q: u128 = wide / b as u128;
        let left: u128 = wide % b as u128;
        proof {
            vstd::arithmetic::div_mod::lemma_fundamental_div_mod(wide as int, b as int);
            assert(0x100_0000_0000 <= q < 0x0100_0000_0000_0000_0000_0000) by (nonlinear_arith)
                requires
                    wide == b * q + left,
                    0 <= left < b,
                    0 < b < 0x0100_0000,
                    0x1_0000_0000_0000_0000 <= wide < 0x0100_0000_0000_0000_0000_0000,
            ;
        }
        let j: u128 = 2 * q + if left == 0 {
            0u128
        } else {
            1u128
        };
        let x: i32 = ea as i32 + 149 - eb as i32 - 65;
        proof {
            lemma_quotient_scale(a as int, ea as nat, b as int, eb as nat, j as int);
        }
        let m: u32 = encode(j, x);
        pack(negative, m)
    }
}

/// The rounded quotient, brought to the exponents of its operands.
proof fn lemma_quotient_scale(a: int, ea: nat, b: int, eb: nat, j: int)
    requires
        0 < a < 0x0100_0000,
        0 < b < 0x0100_0000,
        j == 2 * ((a * 0x1_0000_0000_0000_0000) / b) + if (a * 0x1_0000_0000_0000_0000) % b == 0 {
            0int
        } else {
            1
        },
        j >= 0x0400_0000,
    ensures
        ({
            let x = ea + 149 - eb - 65;
            round_magnitude(scaled_num(j, x), scaled_den(x)) == round_magnitude(
                (a * power2::pow2(ea)) * power2::pow2(149),
                b * power2::pow2(eb),
            )
        }),
{
    let x = ea + 149 - eb - 65;
    let wide = a * 0x1_0000_0000_0000_0000;
    let pa = power2::pow2(ea) as int;
    let pb = power2::pow2(eb) as int;
    let pu = power2::pow2(149) as int;
    power2::lemma2_to64();
    lemma_pow2_double(64);
    power2::lemma_pow2_pos(ea);
    power2::lemma_pow2_pos(eb);
    power2::lemma_pow2_pos(149);
    power2::lemma_pow2_adds(ea, 149);
    let num = (a * pa) * pu;
    let den = b * pb;
    assert(num == a * (pa * pu)) by (nonlinear_arith)
        requires
            num == (a * pa) * pu,
    ;
    assert(num > 0) by (nonlinear_arith)
        requires
            num == (a * pa) * pu,
            a > 0,
            pa > 0,
            pu > 0,
    ;
    assert(den > 0) by (nonlinear_arith)
        requires
            den == b * pb,
            b > 0,
            pb > 0,
    ;
    if x >= 0 {
        let px = power2::pow2(x as nat) as int;
        power2::lemma_pow2_pos(x as nat);
        power2::lemma_pow2_adds(x as nat, 65);
        power2::lemma_pow2_adds((x + 65) as nat, eb);
        assert(x + 65 + eb == ea + 149);
        lemma_round_sticky(j, wide, b, 0);
        assert(b * 1 == b);
        assert(j * px >= 0x0080_0000 * (1 * px)) by (nonlinear_arith)
            requires
                j >= 0x0080_0000,
                px > 0,
        ;
        lemma_round_unroll(j * px, 1, x as nat);
        lemma_round_scale(j, 1, px);
        let full = (2 * wide) * px;
        assert(full >= 0x0080_0000 * (b * px)) by (nonlinear_arith)
            requires
                full == (2 * wide) * px,
                wide >= 0x1_0000_0000_0000_0000,
                0 < b < 0x0100_0000,
                px > 0,
        ;
        lemma_round_unroll(full, b, x as nat);
        lemma_round_scale(2 * wide, b, px);
        lemma_round_scale(full, b, pb);
        assert(full * pb == num) by (nonlinear_arith)
            requires
                full == (2 * wide) * px,
                wide == a * 0x1_0000_0000_0000_0000,
                num == a * (pa * pu),
                pa * pu == (px * (2 * 0x1_0000_0000_0000_0000)) * pb,
        ;
    } else {
        let y = (-x) as nat;
        let py = power2::pow2(y) as int;
        power2::lemma_pow2_pos(y);
        power2::lemma_pow2_adds((ea + 149) as nat, y);
        power2::lemma_pow2_adds(65, eb);
        lemma_round_sticky(j, wide, b, y);
        assert(b * py > 0) by (nonlinear_arith)
            requires
                b > 0,
                py > 0,
        ;
        lemma_round_scale(2 * wide, b * py, pb);
        lemma_round_scale(num, den, py);
        assert((2 * wide) * pb == num * py) by (nonlinear_arith)
            requires
                wide == a * 0x1_0000_0000_0000_0000,
                num == a * (pa * pu),
                (pa * pu) * py == (2 * 0x1_0000_0000_0000_0000) * pb,
        ;
        assert((b * py) * pb == den * py) by (nonlinear_arith)
            requires
                den == b * pb,
        ;
    }
}

/// The sum of two finite numbers, the first with the larger exponent.
fn sum_aligned(big: Single, small: Single, a: u32, ea: u32, b: u32, eb: u32) -> (r: Single)
    requires
        big.finite(),
        small.finite(),
        units(big.magnitude()) == a * power2::pow2(ea as nat),
        units(small.magnitude()) == b * power2::pow2(eb as nat),
        a < 0x0100_0000,
        b < 0x0100_0000,
        eb <= ea <= 253,
        ea > 0 ==> a >= 0x0080_0000,
        big.magnitude() == a + ea * 0x0080_0000,
    ensures
        r == big.sum(small),
        r == small.sum(big),
{
    let ghost pa = power2::pow2(ea as nat) as int;
    let ghost pb = power2::pow2(eb as nat) as int;
    proof {
        power2::lemma_pow2_pos(ea as nat);
        power2::lemma_pow2_pos(eb as nat);
        power2::lemma_pow2_adds((ea - eb) as nat, eb as nat);
    }
    if ea - eb > 80 {
        proof {
            lemma_pow2_small();
            power2::lemma_pow2_adds(24, eb as nat);
            lemma_pow2_shift(24 + eb, ea - 2);
            let d = b * pb;
            assert(0 <= d < 0x0100_0000 * pb) by (nonlinear_arith)
                requires
                    d == b * pb,
                    0 <= b < 0x0100_0000,
                    pb > 0,
            ;
            let signed_d = if big.negative() == small.negative() {
                d
            } else {
                -d
            };
            lemma_absorb(a as int, ea as nat, signed_d);
        }
        return big;
    }
    let p: u128 = power_of_two(ea - eb);
    proof {
        power2::lemma2_to64();
        power2::lemma2_to64_rest();
        power2::lemma_pow2_adds(64, 16);
        power2::lemma_pow2_pos((ea - eb) as nat);
        assert(power2::pow2(80) == 0x1_0000_0000_0000_0000_0000);
        lemma_pow2_shift(ea - eb, 80);
        assert(a * p < 0x0100_0000 * 0x1_0000_0000_0000_0000_0000) by (nonlinear_arith)
            requires
                a < 0x0100_0000,
                0 < p <= 0x1_0000_0000_0000_0000_0000,
        ;
        assert(a * pa == (a * p) * pb) by (nonlinear_arith)
            requires
                pa == p * pb,
        ;
    }
    let left: u128 = a as u128 * p;
    let right: u128 = b as u128;
    let (negative, j): (bool, u128) = if big.is_negative() == small.is_negative() {
        (big.is_negative(), left + right)
    } else if left >= right {
        (big.is_negative(), left - right)
    } else {
        (small.is_negative(), right - left)
    };
    proof {
        let v = big.value() + small.value();
        let sj = if negative {
            -(j as int)
        } else {
            j as int
        };
        assert(v == sj * pb) by (nonlinear_arith)
            requires
                v == (if big.negative() { -(left * pb) } else { left * pb }) + (
                if small.negative() { -(right * pb) } else { right * pb }),
                sj == (if big.negative() { -(left as int) } else { left as int }) + (
                if small.negative() { -(right as int) } else { right as int }),
        ;
        assert((v == 0) == (j == 0)) by (nonlinear_arith)
            requires
                v == sj * pb,
                pb > 0,
                sj == (if negative { -(j as int) } else { j as int }),
        ;
        assert(j > 0 ==> (v < 0) == negative) by (nonlinear_arith)
            requires
                v == sj * pb,
                pb > 0,
                sj == (if negative { -(j as int) } else { j as int }),
        ;
        assert(v < 0 ==> -v == j * pb) by (nonlinear_arith)
            requires
                v == sj * pb,
                pb > 0,
                j >= 0,
                sj == (if negative { -(j as int) } else { j as int }),
        ;
        assert(v > 0 ==> v == j * pb) by (nonlinear_arith)
            requires
                v == sj * pb,
                pb > 0,
                j >= 0,
                sj == (if negative { -(j as int) } else { j as int }),
        ;
    }
    if j == 0 {
        return pack(big.is_negative() && small.is_negative(), 0);
    }
    let m: u32 = encode(j, eb as i32);
    pack(negative, m)
}

// ---------------------------------------------------------------------------
// Laws
// ---------------------------------------------------------------------------

proof fn lemma_units_step(m: int)
    requires
        m >= 0,
    ensures
        0 <= units(m) < units(m + 1),
{
    let e = m / 0x0080_0000;
    let f = m % 0x0080_0000;
    if e >= 1 {
        power2::lemma_pow2_pos((e - 1) as nat);
        lemma_pow2_double((e - 1) as nat);
    }
    lemma_pow2_small();
    if f + 1 < 0x0080_0000 {
        assert((m + 1) / 0x0080_0000 == e && (m + 1) % 0x0080_0000 == f + 1);
        if e >= 1 {
            let p = power2::pow2((e - 1) as nat) as int;
            assert((0x0080_0000 + f) * p < (0x0080_0000 + f + 1) * p && 0 <= (0x0080_0000 + f) * p)
                by (nonlinear_arith)
                requires
                    p > 0,
                    f >= 0,
            ;
        }
    } else {
        assert((m + 1) / 0x0080_0000 == e + 1 && (m + 1) % 0x0080_0000 == 0);
        if e >= 1 {
            let p = power2::pow2((e - 1) as nat) as int;
            assert(power2::pow2(e as nat) == 2 * p);
            assert((0x0080_0000 + f) * p < 0x0080_0000 * (2 * p) && 0 <= (0x0080_0000 + f) * p)
                by (nonlinear_arith)
                requires
                    p > 0,
                    f == 0x007f_ffff,
            ;
        }
    }
}

proof fn lemma_units_grow(m: int, n: int)
    requires
        0 <= m < n,
    ensures
        0 <= units(m) < units(n),
    decreases n - m,
{
    lemma_units_step(m);
    if m + 1 < n {
        lemma_units_grow(m + 1, n);
    }
}

/// Finite numbers are ordered by their exact values.
pub proof fn lemma_order_is_that_of_the_values(a: Single, b: Single)
    requires
        a.finite(),
        b.finite(),
    ensures
        a.is_less(b) <==> a.value() < b.value(),
        a.is_at_least(b) <==> a.value() >= b.value(),
{
    let m = a.magnitude();
    let n = b.magnitude();
    lemma_units_step(m);
    lemma_units_step(n);
    lemma_pow2_small();
    if m < n {
        lemma_units_grow(m, n);
    } else if n < m {
        lemma_units_grow(n, m);
    }
    if m > 0 {
        lemma_units_grow(0, m);
    }
    if n > 0 {
        lemma_units_grow(0, n);
    }
}

/// The order of the summands does not matter.
pub proof fn lemma_sums_commute(a: Single, b: Single)
    requires
        a.finite(),
        b.finite(),
    ensures
        a.sum(b) == b.sum(a),
{
}

/// Of any two numbers that are not NaN, one is less than the other or at least as
/// large, never both; a NaN is neither.
pub proof fn lemma_comparisons(a: Single, b: Single)
    ensures
        !(a.is_less(b) && a.is_at_least(b)),
        a.is_less(b) || a.is_at_least(b) <==> !a.nan() && !b.nan(),
{
}

proof fn lemma_half_even_grows(a: int, b: int, den: int)
    requires
        0 <= a <= b,
        den > 0,
    ensures
        half_even(a, den) <= half_even(b, den),
{
    vstd::arithmetic::div_mod::lemma_fundamental_div_mod(a, den);
    vstd::arithmetic::div_mod::lemma_fundamental_div_mod(b, den);
    vstd::arithmetic::div_mod::lemma_div_is_ordered(a, b, den);
}

proof fn lemma_round_at_least(num: int, den: int)
    requires
        den > 0,
        num >= 0x0080_0000 * den,
    ensures
        round_magnitude(num, den) >= 0x0080_0000,
    decreases num - den,
{
    if num < 0x0100_0000 * den {
        vstd::arithmetic::div_mod::lemma_fundamental_div_mod(num, den);
        let q = num / den;
        assert(q >= 0x0080_0000) by (nonlinear_arith)
            requires
                num >= 0x0080_0000 * den,
                den > 0,
                num == den * q + num % den,
                0 <= num % den < den,
        ;
    } else {
        lemma_round_at_least(num, 2 * den);
    }
}

proof fn lemma_round_grows(a: int, b: int, den: int)
    requires
        0 <= a <= b,
        den > 0,
    ensures
        0 <= round_magnitude(a, den) <= round_magnitude(b, den),
        0 <= rounded(a, den) <= rounded(b, den) <= INFINITE,
    decreases b - den,
{
    lemma_half_even_bounds(a, den);
    lemma_half_even_grows(a, b, den);
    if b >= 0x0100_0000 * den {
        if a >= 0x0100_0000 * den {
            lemma_round_grows(a, b, 2 * den);
        } else {
            lemma_round_at_least(b, 2 * den);
        }
    }
}

/// A number that is not less than zero.
pub open spec fn positive(a: Single) -> bool {
    !a.nan() && !a.negative()
}

/// A sum does not shrink when its summands grow.
pub proof fn lemma_sums_grow(a: Single, b: Single, more: Single, yet_more: Single)
    requires
        positive(a),
        positive(b),
        positive(more),
        positive(yet_more),
        more.is_at_least(a),
        yet_more.is_at_least(b),
    ensures
        positive(a.sum(b)),
        positive(more.sum(yet_more)),
        more.sum(yet_more).is_at_least(a.sum(b)),
{
    lemma_sum_rank(a, b);
    lemma_sum_rank(more, yet_more);
    if more.finite() && yet_more.finite() {
        lemma_units_at_least(a.magnitude(), more.magnitude());
        lemma_units_at_least(b.magnitude(), yet_more.magnitude());
        lemma_round_grows(a.value() + b.value(), more.value() + yet_more.value(), 1);
    }
}

proof fn lemma_units_at_least(m: int, n: int)
    requires
        0 <= m <= n,
    ensures
        0 <= units(m) <= units(n),
{
    lemma_units_step(m);
    if m < n {
        lemma_units_grow(m, n);
    }
}

proof fn lemma_sum_rank(a: Single, b: Single)
    requires
        positive(a),
        positive(b),
    ensures
        positive(a.sum(b)),
        a.finite() && b.finite() ==> a.value() >= 0 && b.value() >= 0 && a.sum(b).rank()
            == rounded(a.value() + b.value(), 1),
        !(a.finite() && b.finite()) ==> a.sum(b).rank() == INFINITE,
        a.sum(b).rank() <= INFINITE,
{
    if a.finite() && b.finite() {
        lemma_units_step(a.magnitude());
        lemma_units_step(b.magnitude());
        lemma_round_grows(a.value() + b.value(), a.value() + b.value(), 1);
        lemma_half_even_bounds(0, 1);
    }
}

/// A product does not shrink when its first factor grows.
pub proof fn lemma_products_grow(a: Single, more: Single, factor: Single)
    requires
        positive(a),
        positive(more),
        positive(factor),
        more.finite(),
        factor.finite(),
        more.is_at_least(a),
    ensures
        positive(a.product(factor)),
        positive(more.product(factor)),
        more.product(factor).is_at_least(a.product(factor)),
{
    lemma_units_at_least(a.magnitude(), more.magnitude());
    lemma_units_step(factor.magnitude());
    power2::lemma_pow2_pos(149);
    let (x, y, f) = (units(a.magnitude()), units(more.magnitude()), units(factor.magnitude()));
    assert(0 <= x * f <= y * f) by (nonlinear_arith)
        requires
            0 <= x <= y,
            0 <= f,
    ;
    lemma_round_grows(x * f, y * f, power2::pow2(149) as int);
}

/// How far two numbers are apart.
pub open spec fn apart(a: int, b: int) -> int {
    if a < b {
        b - a
    } else {
        a - b
    }
}

proof fn lemma_units_double(m: int)
    requires
        m >= 0x0080_0000,
    ensures
        units(m + 0x0080_0000) == 2 * units(m),
{
    let e = m / 0x0080_0000;
    let f = m % 0x0080_0000;
    assert((m + 0x0080_0000) / 0x0080_0000 == e + 1 && (m + 0x0080_0000) % 0x0080_0000 == f);
    lemma_pow2_double((e - 1) as nat);
    let p = power2::pow2((e - 1) as nat) as int;
    assert(power2::pow2(e as nat) == 2 * p);
    assert((0x0080_0000 + f) * (2 * p) == 2 * ((0x0080_0000 + f) * p)) by (nonlinear_arith);
}

proof fn lemma_units_small(m: int)
    requires
        0 <= m <= 0x0100_0000,
    ensures
        units(m) == m,
{
    lemma_pow2_small();
    let e = m / 0x0080_0000;
    let f = m % 0x0080_0000;
    if m == 0x0100_0000 {
        assert(e == 2 && f == 0);
        assert((e - 1) as nat == 1);
        let p = power2::pow2((e - 1) as nat) as int;
        assert((0x0080_0000 + f) * p == m) by (nonlinear_arith)
            requires
                p == 2,
                f == 0,
                m == 0x0100_0000,
        ;
    } else if m >= 0x0080_0000 {
        assert(e == 1 && f == m - 0x0080_0000);
        assert((e - 1) as nat == 0);
        let p = power2::pow2((e - 1) as nat) as int;
        assert((0x0080_0000 + f) * p == m) by (nonlinear_arith)
            requires
                p == 1,
                f == m - 0x0080_0000,
        ;
    } else {
        assert(e == 0 && f == m);
    }
}

proof fn lemma_half_even_is_nearest(num: int, den: int, k: int)
    requires
        num >= 0,
        den > 0,
    ensures
        apart(half_even(num, den) * den, num) <= apart(k * den, num),
        k != half_even(num, den) && apart(half_even(num, den) * den, num) == apart(k * den, num)
            ==> half_even(num, den) % 2 == 0,
{
    vstd::arithmetic::div_mod::lemma_fundamental_div_mod(num, den);
    let q = num / den;
    let m = half_even(num, den);
    assert(den * q == q * den) by (nonlinear_arith);
    assert((q + 1) * den == q * den + den) by (nonlinear_arith);
    assert(2 * apart(m * den, num) <= den);
    if k > m {
        assert(k * den >= m * den + den) by (nonlinear_arith)
            requires
                k >= m + 1,
                den > 0,
        ;
    } else if k < m {
        assert(k * den <= m * den - den) by (nonlinear_arith)
            requires
                k <= m - 1,
                den > 0,
        ;
    }
}

/// Rounding gives a magnitude than which none is nearer, and of two that are equally near
/// the even one.
proof fn lemma_round_is_nearest(num: int, den: int, n: int)
    requires
        num >= 0,
        den > 0,
        n >= 0,
    ensures
        round_magnitude(num, den) >= 0,
        apart(units(round_magnitude(num, den)) * den, num) <= apart(units(n) * den, num),
        n != round_magnitude(num, den) && apart(units(round_magnitude(num, den)) * den, num)
            == apart(units(n) * den, num) ==> round_magnitude(num, den) % 2 == 0,
    decreases num - den,
{
    let m = round_magnitude(num, den);
    if num < 0x0100_0000 * den {
        lemma_half_even_is_nearest(num, den, units(n));
        lemma_half_even_bounds(num, den);
        assert(0 <= m <= 0x0100_0000) by {
            lemma_half_even_is_nearest(num, den, 0);
            vstd::arithmetic::div_mod::lemma_fundamental_div_mod(num, den);
            let q = num / den;
            assert(0 <= q < 0x0100_0000) by (nonlinear_arith)
                requires
                    0 <= num < 0x0100_0000 * den,
                    den > 0,
                    num == den * q + num % den,
                    0 <= num % den < den,
            ;
        }
        lemma_units_small(m);
        if n != m && units(n) == units(m) {
            lemma_units_tell_apart(n, m);
        }
    } else {
        let half = round_magnitude(num, 2 * den);
        lemma_round_at_least(num, 2 * den);
        lemma_units_double(half);
        assert(units(m) * den == units(half) * (2 * den)) by (nonlinear_arith)
            requires
                units(m) == 2 * units(half),
        ;
        let far = if n >= 0x0100_0000 {
            n
        } else {
            0x0100_0000int
        };
        let less = far - 0x0080_0000;
        lemma_round_is_nearest(num, 2 * den, less);
        lemma_units_double(less);
        assert(units(far) * den == units(less) * (2 * den)) by (nonlinear_arith)
            requires
                units(far) == 2 * units(less),
        ;
        if n < 0x0100_0000 {
            lemma_units_small(n);
            lemma_units_small(far);
            assert(n * den < far * den) by (nonlinear_arith)
                requires
                    n < far,
                    den > 0,
            ;
        }
    }
}

proof fn lemma_signed_value(negative: bool, m: int)
    requires
        0 <= m < INFINITE,
    ensures
        signed(negative, m).negative() == negative,
        signed(negative, m).magnitude() == m,
        signed(negative, m).value() == if negative {
            -units(m)
        } else {
            units(m)
        },
{
}

/// A sum is rounded to a number than which none is nearer to the exact one, and of two that
/// are equally near to the one whose last bit is zero.
pub proof fn lemma_sums_are_the_nearest(a: Single, b: Single, c: Single)
    requires
        a.finite(),
        b.finite(),
        c.finite(),
        a.sum(b).finite(),
    ensures
        apart(a.sum(b).value(), a.value() + b.value()) <= apart(c.value(), a.value() + b.value()),
        c.value() != a.sum(b).value() && apart(a.sum(b).value(), a.value() + b.value()) == apart(
            c.value(),
            a.value() + b.value(),
        ) ==> a.sum(b).magnitude() % 2 == 0,
{
    let v = a.value() + b.value();
    lemma_units_step(c.magnitude());
    lemma_units_small(0);
    if v == 0 {
        assert(a.sum(b).value() == 0);
    } else {
        let size = if v < 0 {
            -v
        } else {
            v
        };
        let m = round_magnitude(size, 1);
        lemma_round_is_nearest(size, 1, c.magnitude());
        lemma_round_is_nearest(size, 1, 0);
        lemma_round_grows(size, size, 1);
        assert(m < INFINITE) by {
            if m >= INFINITE {
                assert(rounded(size, 1) == INFINITE);
                assert(a.sum(b) == signed(v < 0, INFINITE as int));
            }
        }
        lemma_signed_value(v < 0, m);
        lemma_units_step(m);
        assert(units(m) * 1 == units(m) && units(c.magnitude()) * 1 == units(c.magnitude()));
    }
}

/// A difference is rounded to a number than which none is nearer to the exact one.
pub proof fn lemma_differences_are_the_nearest(a: Single, b: Single, c: Single)
    requires
        a.finite(),
        b.finite(),
        c.finite(),
        a.difference(b).finite(),
    ensures
        apart(a.difference(b).value(), a.value() - b.value()) <= apart(
            c.value(),
            a.value() - b.value(),
        ),
{
    lemma_signed_value(!b.negative(), b.magnitude());
    assert(b.opposite().value() == -b.value());
    lemma_sums_are_the_nearest(a, b.opposite(), c);
}

/// A product is rounded to a number than which none is nearer to the exact one, and its
/// sign is that of a product. Values are counted in units of two to the power of -149.
pub proof fn lemma_products_are_the_nearest(a: Single, b: Single, c: Single)
    requires
        a.finite(),
        b.finite(),
        c.finite(),
        a.product(b).finite(),
    ensures
        ({
            let exact = units(a.magnitude()) * units(b.magnitude());
            let one = power2::pow2(149) as int;
            &&& apart(units(a.product(b).magnitude()) * one, exact) <= apart(
                units(c.magnitude()) * one,
                exact,
            )
            &&& c.magnitude() != a.product(b).magnitude() && apart(
                units(a.product(b).magnitude()) * one,
                exact,
            ) == apart(units(c.magnitude()) * one, exact) ==> a.product(b).magnitude() % 2 == 0
            &&& a.product(b).negative() == (a.negative() != b.negative())
        }),
{
    let exact = units(a.magnitude()) * units(b.magnitude());
    let one = power2::pow2(149) as int;
    power2::lemma_pow2_pos(149);
    lemma_units_step(a.magnitude());
    lemma_units_step(b.magnitude());
    assert(exact >= 0) by (nonlinear_arith)
        requires
            exact == units(a.magnitude()) * units(b.magnitude()),
            units(a.magnitude()) >= 0,
            units(b.magnitude()) >= 0,
    ;
    lemma_round_is_nearest(exact, one, c.magnitude());
    lemma_rounded_finite(a.negative() != b.negative(), exact, one);
}

proof fn lemma_rounded_finite(negative: bool, num: int, den: int)
    requires
        num >= 0,
        den > 0,
        signed(negative, rounded(num, den)).finite(),
        round_magnitude(num, den) >= 0,
    ensures
        rounded(num, den) == round_magnitude(num, den),
        signed(negative, rounded(num, den)).magnitude() == round_magnitude(num, den),
        signed(negative, rounded(num, den)).negative() == negative,
{
}

/// A quotient is rounded to a number than which none is nearer to the exact one, and its
/// sign is that of a quotient.
pub proof fn lemma_quotients_are_the_nearest(a: Single, b: Single, c: Single)
    requires
        a.finite(),
        b.finite(),
        c.finite(),
        b.magnitude() != 0,
        a.quotient(b).finite(),
    ensures
        ({
            let exact = units(a.magnitude()) * power2::pow2(149);
            let divisor = units(b.magnitude());
            &&& apart(units(a.quotient(b).magnitude()) * divisor, exact) <= apart(
                units(c.magnitude()) * divisor,
                exact,
            )
            &&& c.magnitude() != a.quotient(b).magnitude() && apart(
                units(a.quotient(b).magnitude()) * divisor,
                exact,
            ) == apart(units(c.magnitude()) * divisor, exact) ==> a.quotient(b).magnitude() % 2 == 0
            &&& a.quotient(b).negative() == (a.negative() != b.negative())
        }),
{
    let one = power2::pow2(149) as int;
    let exact = units(a.magnitude()) * one;
    let divisor = units(b.magnitude());
    power2::lemma_pow2_pos(149);
    lemma_units_step(a.magnitude());
    lemma_units_small(0);
    lemma_units_grow(0, b.magnitude());
    assert(exact >= 0) by (nonlinear_arith)
        requires
            exact == units(a.magnitude()) * one,
            units(a.magnitude()) >= 0,
            one > 0,
    ;
    lemma_round_is_nearest(exact, divisor, c.magnitude());
    lemma_rounded_finite(a.negative() != b.negative(), exact, divisor);
}

/// A count is a number than which none is nearer, and not negative.
pub proof fn lemma_counts_are_the_nearest(n: nat, c: Single)
    requires
        c.finite(),
        count(n).finite(),
    ensures
        apart(count(n).value(), n as int * power2::pow2(149)) <= apart(
            units(c.magnitude()),
            n as int * power2::pow2(149),
        ),
        !count(n).negative(),
{
    let one = power2::pow2(149) as int;
    power2::lemma_pow2_pos(149);
    let exact = n as int * one;
    assert(exact >= 0) by (nonlinear_arith)
        requires
            exact == n as int * one,
            n >= 0,
            one > 0,
    ;
    assert((n * power2::pow2(149)) as int == exact);
    lemma_round_is_nearest(exact, 1, c.magnitude());
    lemma_rounded_finite(false, exact, 1);
}

proof fn lemma_units_of_power(e: nat)
    requires
        e >= 1,
    ensures
        units(0x0080_0000 * e as int) == power2::pow2((e + 22) as nat),
{
    let m = 0x0080_0000 * e as int;
    assert(m / 0x0080_0000 == e && m % 0x0080_0000 == 0);
    lemma_pow2_small();
    power2::lemma_pow2_adds(23, (e - 1) as nat);
    assert((23 + (e - 1) as nat) as nat == (e + 22) as nat);
}

proof fn lemma_units_tell_apart(m: int, n: int)
    requires
        m >= 0,
        n >= 0,
        units(m) == units(n),
    ensures
        m == n,
{
    if m < n {
        lemma_units_grow(m, n);
    }
    if n < m {
        lemma_units_grow(n, m);
    }
}

/// A finite number other than zero divided by itself is exactly 1.
pub proof fn lemma_quotient_by_itself(a: Single)
    requires
        a.finite(),
        a.magnitude() != 0,
    ensures
        a.quotient(a) == (Single { bits: 0x3f80_0000 }),
{
    let one = power2::pow2(149) as int;
    let u = units(a.magnitude());
    let m = round_magnitude(u * one, u);
    lemma_units_small(0);
    lemma_units_grow(0, a.magnitude());
    lemma_units_of_power(127);
    power2::lemma_pow2_pos(149);
    assert(0x0080_0000 * 127 == 0x3f80_0000);
    assert(units(0x3f80_0000) == one);
    assert(u * one >= 0 && one * u == u * one) by (nonlinear_arith)
        requires
            u > 0,
            one > 0,
    ;
    lemma_round_is_nearest(u * one, u, 0x3f80_0000);
    assert(units(m) * u == one * u);
    assert(units(m) == one) by (nonlinear_arith)
        requires
            units(m) * u == one * u,
            u > 0,
    ;
    lemma_units_tell_apart(m, 0x3f80_0000);
}

/// Every number of things that memory can hold is a number that is finite, and zero only
/// if there are none.
pub proof fn lemma_counts_are_finite(n: nat)
    requires
        n <= u64::MAX,
    ensures
        count(n).finite(),
        n > 0 ==> count(n).magnitude() != 0,
{
    let one = power2::pow2(149) as int;
    let most = power2::pow2(213) as int;
    power2::lemma_pow2_adds(64, 149);
    power2::lemma2_to64();
    power2::lemma_pow2_pos(149);
    let exact = n as int * one;
    assert((n * power2::pow2(149)) as int == exact);
    assert(0 <= exact <= most) by (nonlinear_arith)
        requires
            exact == n as int * one,
            0 <= n <= 0x1_0000_0000_0000_0000,
            most == 0x1_0000_0000_0000_0000 * one,
            one > 0,
    ;
    lemma_units_of_power(191);
    assert(0x0080_0000 * 191 == 0x5f80_0000);
    lemma_round_is_nearest(most, 1, 0x5f80_0000);
    assert(units(round_magnitude(most, 1)) * 1 == units(round_magnitude(most, 1)));
    assert(units(0x5f80_0000) * 1 == most);
    lemma_units_tell_apart(round_magnitude(most, 1), 0x5f80_0000);
    lemma_round_grows(exact, most, 1);
    if n > 0 {
        lemma_pow2_small();
        power2::lemma_pow2_strictly_increases(23, 149);
        assert(exact >= one) by (nonlinear_arith)
            requires
                exact == n as int * one,
                n >= 1,
                one > 0,
        ;
        lemma_round_at_least(exact, 1);
    }
}

/// What is no number stays none; infinity swallows what is finite; and nothing but what
/// has no answer is no number.
pub proof fn lemma_out_of_the_ordinary(a: Single, b: Single)
    ensures
        a.nan() || b.nan() ==> a.sum(b).nan() && a.product(b).nan() && a.quotient(b).nan(),
        a.infinite() && b.finite() ==> a.sum(b) == a && b.sum(a) == a,
        a.infinite() && b.infinite() ==> (a.sum(b).nan() <==> a.negative() != b.negative()),
        a.infinite() && b.infinite() ==> a.quotient(b).nan(),
        a.infinite() && b.magnitude() == 0 ==> a.product(b).nan(),
        a.magnitude() == 0 && b.magnitude() == 0 ==> a.quotient(b).nan(),
        a.finite() && b.infinite() ==> a.quotient(b).magnitude() == 0,
        a.finite() && a.magnitude() != 0 && b.magnitude() == 0 ==> a.quotient(b).infinite(),
        a.nan() || b.nan() ==> !a.is_less(b) && !a.is_at_least(b),
{
}

} // verus!
