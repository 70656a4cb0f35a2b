//! Exact arithmetic on JSON numbers.  A number is an integer (`i64` or `u64`)
//! or a finite binary64 value, which is held without floating point as a
//! mantissa and a power-of-two exponent.  Numbers are ordered by their exact
//! mathematical values.

use vstd::prelude::*;
use vstd::arithmetic::power2::*;
use vstd::arithmetic::mul::*;
use vstd::bits::lemma_u64_pow2_no_overflow;
use vstd::arithmetic::div_mod::{lemma_fundamental_div_mod, lemma_mod_pos_bound, lemma_fundamental_div_mod_converse_div};
use crate::text::Order;
use crate::laws::{law_float_equality, law_num_order_flip, law_num_order_transitive};

verus! {

/// A finite binary64 value `mantissa * 2^exponent`, always in canonical form
/// (see [`Float::is_canonical`]), so that two floats are equal exactly when
/// their values are equal.  Floats are made by [`Float::from_bits`].
#[derive(PartialEq, Eq, Structural, Clone, Copy, Debug)]
pub struct Float {
    pub(crate) mantissa: i64,
    pub(crate) exponent: i32,
}

/// 2^52, the weight of the hidden bit of a normal binary64 value.
pub const HIDDEN_BIT: u64 = 0x10_0000_0000_0000u64;

/// 2^63, the weight of the sign bit of a binary64 value.
pub const SIGN_BIT: u64 = 0x8000_0000_0000_0000u64;

impl Float {
    /// Every float is canonical.
    #[verifier::type_invariant]
    pub open spec fn canonical_invariant(self) -> bool {
        self.is_canonical()
    }

    /// The mantissa of the value.
    pub closed spec fn m(self) -> i64 {
        self.mantissa
    }

    /// The power-of-two exponent of the value.
    pub closed spec fn e(self) -> i32 {
        self.exponent
    }

    /// The float with mantissa `m` and exponent `e`.
    pub closed spec fn from_parts(m: i64, e: i32) -> Float {
        Float { mantissa: m, exponent: e }
    }

    /// The float made from a mantissa and an exponent has them.
    pub proof fn lemma_from_parts(m: i64, e: i32)
        ensures
            Float::from_parts(m, e).m() == m,
            Float::from_parts(m, e).e() == e,
    {
    }

    /// A float is determined by its mantissa and exponent.
    pub proof fn lemma_parts(f: Float, g: Float)
        ensures
            (f.m() == g.m() && f.e() == g.e()) ==> f == g,
    {
    }

    /// The mantissa: odd, or zero for the value zero.
    pub fn mantissa(&self) -> (r: i64)
        ensures
            r == self.m(),
    {
        self.mantissa
    }

    /// The absolute value.
    pub fn abs(&self) -> (r: Float)
        ensures
            r.m() as int == (if self.m() < 0 { -(self.m() as int) } else { self.m() as int }),
            r.e() == self.e(),
    {
        proof {
            use_type_invariant(self);
        }
        Float { mantissa: if self.mantissa < 0 { -self.mantissa } else { self.mantissa }, exponent: self.exponent }
    }

    /// The power-of-two exponent.
    pub fn exponent(&self) -> (r: i32)
        ensures
            r == self.e(),
    {
        self.exponent
    }

    /// The smallest mantissa of this value: odd, or zero with exponent zero,
    /// and in the range of binary64.
    pub open spec fn is_canonical(self) -> bool {
        &&& (self.m() == 0 && self.e() == 0) || self.m() % 2 != 0
        &&& -(HIDDEN_BIT as int) * 2 < self.m() < (HIDDEN_BIT as int) * 2
        &&& -1074 <= self.e() <= 1023
    }
}

/// `m * 2^(e - base)`: the value `m * 2^e` counted in units of `2^base`.
pub open spec fn scaled(m: int, e: int, base: int) -> int {
    m * pow2((e - base) as nat)
}

/// Compares `m1 * 2^e1` with `m2 * 2^e2` exactly.
pub open spec fn num_order(m1: int, e1: int, m2: int, e2: int) -> Order {
    let base = if e1 <= e2 {
        e1
    } else {
        e2
    };
    let x = scaled(m1, e1, base);
    let y = scaled(m2, e2, base);
    if x < y {
        Order::Less
    } else if x == y {
        Order::Equal
    } else {
        Order::Greater
    }
}

/// Whether a binary64 bit pattern holds a finite value (not an infinity or NaN).
pub open spec fn bits_finite(bits: u64) -> bool {
    (bits / HIDDEN_BIT) % 2048 != 2047
}

/// The mantissa of the value that a finite binary64 bit pattern holds.
pub open spec fn bits_mantissa(bits: u64) -> int {
    let frac = bits % HIDDEN_BIT;
    let biased = (bits / HIDDEN_BIT) % 2048;
    let magnitude = if biased == 0 {
        frac as int
    } else {
        frac + HIDDEN_BIT
    };
    if bits >= SIGN_BIT {
        -magnitude
    } else {
        magnitude
    }
}

/// The exponent of the value that a finite binary64 bit pattern holds.
pub open spec fn bits_exponent(bits: u64) -> int {
    let biased = (bits / HIDDEN_BIT) % 2048;
    if biased == 0 {
        -1074
    } else {
        biased - 1075
    }
}

proof fn lemma_scaled_halve(m: int, e: int, base: int)
    requires
        base <= e,
        m % 2 == 0,
    ensures
        scaled(m, e, base) == scaled(m / 2, e + 1, base),
{
    lemma_pow2_unfold((e + 1 - base) as nat);
    assert(((e + 1 - base) - 1) as nat == (e - base) as nat);
    let p = pow2((e - base) as nat) as int;
    assert(m == (m / 2) * 2);
    lemma_mul_is_associative(m / 2, 2, p);
}

impl Float {
    /// Reads a binary64 bit pattern (as from `f64::to_bits`).  Infinities and
    /// NaN, which JSON cannot hold, give `None`; any other pattern gives its
    /// value in canonical form.
    pub fn from_bits(bits: u64) -> (r: Option<Float>)
        ensures
            r is None <==> !bits_finite(bits),
            r matches Some(f) ==> f.is_canonical() && num_order(
                f.m() as int,
                f.e() as int,
                bits_mantissa(bits),
                bits_exponent(bits),
            ) == Order::Equal,
    {
        let biased = (bits / HIDDEN_BIT) % 2048;
        if biased == 2047 {
            return None;
        }
        let frac = bits % HIDDEN_BIT;
        let magnitude: u64 = if biased == 0 {
            frac
        } else {
            frac + HIDDEN_BIT
        };
        let e0: i32 = if biased == 0 {
            -1074
        } else {
            (biased as i32) - 1075
        };
        Some(canonical_float(bits >= SIGN_BIT, magnitude, e0))
    }
}

/// `2^d` for `d < 64`.
fn pow2_exec(d: u32) -> (r: u128)
    requires
        d < 64,
    ensures
        r == pow2(d as nat),
        r <= u64::MAX,
{
    let mut p: u128 = 1;
    let mut i: u32 = 0;
    proof {
        lemma2_to64();
    }
    while i < d
        invariant
            i <= d < 64,
            p == pow2(i as nat),
        decreases d - i,
    {
        proof {
            lemma_pow2_unfold((i + 1) as nat);
            lemma_u64_pow2_no_overflow((i + 1) as nat);
        }
        p = p * 2;
        i = i + 1;
    }
    proof {
        lemma_u64_pow2_no_overflow(d as nat);
    }
    p
}

proof fn lemma_scaled_zero(e: int, base: int)
    ensures
        scaled(0, e, base) == 0,
{
    lemma_mul_basics(pow2((e - base) as nat) as int);
}

proof fn lemma_scaled_same(m: int, e: int)
    ensures
        scaled(m, e, e) == m,
{
    lemma2_to64();
    assert((e - e) as nat == 0);
    lemma_mul_basics(m);
}

proof fn lemma_scaled_pos(m: int, e: int, base: int)
    requires
        m > 0,
    ensures
        scaled(m, e, base) >= m,
{
    lemma_pow2_pos((e - base) as nat);
    lemma_mul_inequality(1, pow2((e - base) as nat) as int, m);
    lemma_mul_is_commutative(m, pow2((e - base) as nat) as int);
}

/// Compares `a * 2^ea` with `b * 2^eb` for non-negative `a` and `b`.
fn compare_magnitudes(a: u128, ea: i64, b: u128, eb: i64) -> (r: Order)
    requires
        a <= u64::MAX,
        b <= u64::MAX,
        i32::MIN <= ea <= i32::MAX,
        i32::MIN <= eb <= i32::MAX,
    ensures
        r == num_order(a as int, ea as int, b as int, eb as int),
{
    proof {
        lemma_scaled_zero(ea as int, if ea <= eb { ea as int } else { eb as int });
        lemma_scaled_zero(eb as int, if ea <= eb { ea as int } else { eb as int });
        if a > 0 {
            lemma_scaled_pos(a as int, ea as int, if ea <= eb { ea as int } else { eb as int });
        }
        if b > 0 {
            lemma_scaled_pos(b as int, eb as int, if ea <= eb { ea as int } else { eb as int });
        }
        lemma2_to64();
    }
    if a == 0 && b == 0 {
        Order::Equal
    } else if a == 0 {
        Order::Less
    } else if b == 0 {
        Order::Greater
    } else if ea == eb {
        proof {
            lemma_scaled_same(a as int, ea as int);
            lemma_scaled_same(b as int, eb as int);
        }
        if a < b {
            Order::Less
        } else if a == b {
            Order::Equal
        } else {
            Order::Greater
        }
    } else if ea > eb {
        let d = ea - eb;
        proof {
            lemma_scaled_same(b as int, eb as int);
            assert(scaled(a as int, ea as int, eb as int) == a * pow2(d as nat));
        }
        if d >= 64 {
            proof {
                if d > 64 {
                    lemma_pow2_strictly_increases(64, d as nat);
                }
                lemma_mul_inequality(1, a as int, pow2(d as nat) as int);
                lemma_mul_is_commutative(a as int, pow2(d as nat) as int);
            }
            Order::Greater
        } else {
            let p = pow2_exec(d as u32);
            proof {
                lemma_mul_upper_bound(a as int, u64::MAX as int, p as int, u64::MAX as int);
            }
            let x = a * p;
            proof {
                lemma_mul_is_commutative(a as int, p as int);
            }
            if x < b {
                Order::Less
            } else if x == b {
                Order::Equal
            } else {
                Order::Greater
            }
        }
    } else {
        let d = eb - ea;
        proof {
            lemma_scaled_same(a as int, ea as int);
            assert(scaled(b as int, eb as int, ea as int) == b * pow2(d as nat));
        }
        if d >= 64 {
            proof {
                if d > 64 {
                    lemma_pow2_strictly_increases(64, d as nat);
                }
                lemma_mul_inequality(1, b as int, pow2(d as nat) as int);
                lemma_mul_is_commutative(b as int, pow2(d as nat) as int);
            }
            Order::Less
        } else {
            let p = pow2_exec(d as u32);
            proof {
                lemma_mul_upper_bound(b as int, u64::MAX as int, p as int, u64::MAX as int);
            }
            let y = b * p;
            proof {
                lemma_mul_is_commutative(b as int, p as int);
            }
            if a < y {
                Order::Less
            } else if a == y {
                Order::Equal
            } else {
                Order::Greater
            }
        }
    }
}

proof fn lemma_num_order_negate(a: int, ea: int, b: int, eb: int)
    ensures
        num_order(-a, ea, -b, eb) == num_order(a, ea, b, eb).flip(),
{
    let base = if ea <= eb {
        ea
    } else {
        eb
    };
    let p = pow2((ea - base) as nat) as int;
    let q = pow2((eb - base) as nat) as int;
    assert((-a) * p == -(a * p)) by (nonlinear_arith);
    assert((-b) * q == -(b * q)) by (nonlinear_arith);
}

/// Compares `m1 * 2^e1` with `m2 * 2^e2` exactly.
pub fn compare_parts(m1: i128, e1: i64, m2: i128, e2: i64) -> (r: Order)
    requires
        -(u64::MAX as int) <= m1 <= u64::MAX,
        -(u64::MAX as int) <= m2 <= u64::MAX,
        i32::MIN <= e1 <= i32::MAX,
        i32::MIN <= e2 <= i32::MAX,
    ensures
        r == num_order(m1 as int, e1 as int, m2 as int, e2 as int),
{
    let base: i64 = if e1 <= e2 {
        e1
    } else {
        e2
    };
    proof {
        lemma_pow2_pos((e1 - base) as nat);
        lemma_pow2_pos((e2 - base) as nat);
        let p = pow2((e1 - base) as nat) as int;
        let q = pow2((e2 - base) as nat) as int;
        if m1 >= 0 {
            lemma_mul_nonnegative(m1 as int, p);
        } else {
            assert(m1 * p < 0) by (nonlinear_arith)
                requires
                    m1 < 0,
                    p > 0,
            ;
        }
        if m2 >= 0 {
            lemma_mul_nonnegative(m2 as int, q);
        } else {
            assert(m2 * q < 0) by (nonlinear_arith)
                requires
                    m2 < 0,
                    q > 0,
            ;
        }
    }
    if m1 >= 0 && m2 < 0 {
        Order::Greater
    } else if m1 < 0 && m2 >= 0 {
        Order::Less
    } else if m1 >= 0 {
        compare_magnitudes(m1 as u128, e1, m2 as u128, e2)
    } else {
        let r = compare_magnitudes((-m1) as u128, e1, (-m2) as u128, e2);
        proof {
            lemma_num_order_negate(-m1, e1 as int, -m2, e2 as int);
            assert(-(-m1) == m1);
            assert(-(-m2) == m2);
        }
        match r {
            Order::Less => Order::Greater,
            Order::Equal => Order::Equal,
            Order::Greater => Order::Less,
        }
    }
}

/// The number of binary digits of `x` (zero for zero).
pub open spec fn bit_length(x: nat) -> nat
    decreases x,
{
    if x == 0 {
        0
    } else {
        1 + bit_length(x / 2)
    }
}

/// How many low binary digits of `x` a binary64 value cannot keep: those
/// beyond its 53 significant digits.
pub open spec fn round_shift(x: nat) -> nat {
    if bit_length(x) > 53 {
        (bit_length(x) - 53) as nat
    } else {
        0
    }
}

/// `x` rounded to a multiple of `2^p`: the nearest one, or of two equally
/// near ones the even multiple.
pub open spec fn round_half_even(x: nat, p: nat) -> nat {
    let d = pow2(p);
    let q = x / d;
    let r = x % d;
    if 2 * r > d || (2 * r == d && q % 2 == 1) {
        (q + 1) * d
    } else {
        q * d
    }
}

/// The binary64 value nearest to the natural number `x` (ties to even), as
/// converting an integer to `f64` gives it.
pub open spec fn nearest_binary64(x: nat) -> nat {
    round_half_even(x, round_shift(x))
}

/// The binary64 value nearest to the integer `n`, with its sign.
pub open spec fn signed_nearest_binary64(n: int) -> int {
    if n < 0 {
        -nearest_binary64((-n) as nat)
    } else {
        nearest_binary64(n as nat) as int
    }
}

/// The canonical float whose value is `m * 2^e`.
pub open spec fn float_with_value(m: int, e: int) -> Float {
    choose|f: Float|
        f.is_canonical() && num_order(f.m() as int, f.e() as int, m, e) == Order::Equal
}

/// A canonical float with value `m * 2^e` is the float `float_with_value(m, e)`.
pub proof fn lemma_float_with_value(f: Float, m: int, e: int)
    requires
        f.is_canonical(),
        num_order(f.m() as int, f.e() as int, m, e) == Order::Equal,
    ensures
        float_with_value(m, e) == f,
{
    let g = float_with_value(m, e);
    assert(g.is_canonical() && num_order(g.m() as int, g.e() as int, m, e) == Order::Equal);
    law_num_order_flip(g.m() as int, g.e() as int, m, e);
    law_num_order_transitive(
        f.m() as int,
        f.e() as int,
        m,
        e,
        g.m() as int,
        g.e() as int,
    );
    law_num_order_flip(f.m() as int, f.e() as int, g.m() as int, g.e() as int);
    law_num_order_transitive(
        g.m() as int,
        g.e() as int,
        m,
        e,
        f.m() as int,
        f.e() as int,
    );
    law_float_equality(f, g);
}

/// The canonical float with value `±magnitude * 2^exponent`.
fn canonical_float(negative: bool, magnitude: u64, exponent: i32) -> (f: Float)
    requires
        -1074 <= exponent,
        (magnitude < 2 * HIDDEN_BIT && exponent <= 971) || (magnitude <= 2 * HIDDEN_BIT && exponent <= 970),
    ensures
        f.is_canonical(),
        num_order(
            f.m() as int,
            f.e() as int,
            if negative {
                -(magnitude as int)
            } else {
                magnitude as int
            },
            exponent as int,
        ) == Order::Equal,
{
    let ghost signed = if negative {
        -(magnitude as int)
    } else {
        magnitude as int
    };
    if magnitude == 0 {
        proof {
            lemma_scaled_zero(0, if 0 <= exponent { 0 } else { exponent as int });
            lemma_scaled_zero(exponent as int, if 0 <= exponent { 0 } else { exponent as int });
        }
        return Float { mantissa: 0, exponent: 0 };
    }
    let e0 = exponent;
    let ghost m0 = magnitude as int;
    let mut magnitude = magnitude;
    let mut e: i32 = e0;
    proof {
        lemma2_to64();
        lemma2_to64_rest();
        lemma_scaled_same(m0, e0 as int);
    }
    while magnitude % 2 == 0
        invariant
            -1074 <= e0 <= 971,
            (m0 < 2 * HIDDEN_BIT && e0 <= 971) || (m0 <= 2 * HIDDEN_BIT && e0 <= 970),
            e0 <= e,
            0 < magnitude <= m0,
            scaled(magnitude as int, e as int, e0 as int) == m0,
            pow2((e - e0) as nat) <= m0,
            pow2(53) == 2 * HIDDEN_BIT,
            pow2(54) == 4 * HIDDEN_BIT,
        decreases magnitude,
    {
        proof {
            lemma_scaled_halve(magnitude as int, e as int, e0 as int);
            lemma_pow2_unfold((e + 1 - e0) as nat);
            assert(((e + 1 - e0) - 1) as nat == (e - e0) as nat);
            let p = pow2((e - e0) as nat) as int;
            assert(magnitude as int * p == m0);
            assert(2 * p <= magnitude * p) by (nonlinear_arith)
                requires
                    2 <= magnitude,
                    0 <= p,
            ;
            if e + 1 - e0 >= 54 {
                if e + 1 - e0 > 54 {
                    lemma_pow2_strictly_increases(54, (e + 1 - e0) as nat);
                }
                assert(false);
            }
            if e + 1 - e0 == 53 && m0 < 2 * HIDDEN_BIT {
                assert(false);
            }
        }
        magnitude = magnitude / 2;
        e = e + 1;
    }
    proof {
        let p = pow2((e - e0) as nat) as int;
        assert(magnitude as int * p == m0);
        if magnitude as int >= 2 * HIDDEN_BIT {
            if e > e0 {
                lemma_pow2_pos((e - e0) as nat);
                assert(magnitude as int * p >= magnitude as int * 2) by (nonlinear_arith)
                    requires
                        p >= 1,
                        (e - e0) > 0,
                        p == pow2((e - e0) as nat),
                        pow2(1) == 2,
                        magnitude >= 0,
                {
                    lemma_pow2_strictly_increases(0, 1);
                    if (e - e0) > 1 {
                        lemma_pow2_strictly_increases(1, (e - e0) as nat);
                    }
                    vstd::arithmetic::mul::lemma_mul_inequality(2, p, magnitude as int);
                    vstd::arithmetic::mul::lemma_mul_is_commutative(2, magnitude as int);
                    vstd::arithmetic::mul::lemma_mul_is_commutative(p, magnitude as int);
                }
            }
        }
        if e - e0 >= 54 {
            if e - e0 > 54 {
                lemma_pow2_strictly_increases(54, (e - e0) as nat);
            }
        }
        if e - e0 == 53 && m0 < 2 * HIDDEN_BIT {
            assert(false);
        }
    }
    let mantissa: i64 = if negative {
        -(magnitude as i64)
    } else {
        magnitude as i64
    };
    let f = Float { mantissa, exponent: e };
    proof {
        let p = pow2((e - e0) as nat) as int;
        if negative {
            assert((-(magnitude as int)) * p == -m0) by (nonlinear_arith)
                requires
                    magnitude as int * p == m0,
            ;
        }
        assert(scaled(mantissa as int, e as int, e0 as int) == signed);
        lemma_scaled_same(signed, e0 as int);
    }
    f
}

proof fn lemma_bit_length(x: nat)
    ensures
        x < pow2(bit_length(x)),
        x > 0 ==> pow2((bit_length(x) - 1) as nat) <= x,
    decreases x,
{
    lemma2_to64();
    if x > 0 {
        let h = x / 2;
        lemma_bit_length(h);
        lemma_pow2_unfold(bit_length(x));
        assert((bit_length(x) - 1) as nat == bit_length(h));
        if h > 0 {
            lemma_pow2_unfold(bit_length(h));
        }
    }
}

/// The number of binary digits of `x`.
fn count_bits(x: u64) -> (r: u32)
    ensures
        r == bit_length(x as nat),
        r <= 64,
{
    let mut rest = x;
    let mut count: u32 = 0;
    proof {
        lemma_bit_length(x as nat);
        lemma2_to64();
        if x > 0 && bit_length(x as nat) > 64 {
            lemma_pow2_strictly_increases(64, (bit_length(x as nat) - 1) as nat);
        }
    }
    while rest > 0
        invariant
            bit_length(x as nat) == count + bit_length(rest as nat),
            bit_length(x as nat) <= 64,
        decreases rest,
    {
        rest = rest / 2;
        count = count + 1;
    }
    count
}

/// `x` rounded to 53 significant binary digits, as `q * 2^p` with `q <= 2^53`.
fn round_to_binary64(x: u64) -> (r: (u64, u32))
    ensures
        r.0 * pow2(r.1 as nat) == nearest_binary64(x as nat),
        r.0 <= 2 * HIDDEN_BIT,
        r.1 <= 11,
{
    let bl = count_bits(x);
    let p: u32 = if bl > 53 {
        bl - 53
    } else {
        0
    };
    let d128 = pow2_exec(p);
    proof {
        lemma2_to64();
        lemma2_to64_rest();
        lemma_bit_length(x as nat);
        if p < 11 {
            lemma_pow2_strictly_increases(p as nat, 11);
        }
        lemma_pow2_strictly_increases(0, 11);
        lemma_pow2_adds(1, 10);
        assert(pow2(11) == 2048);
    }
    let d = d128 as u64;
    let q = x / d;
    let r = x % d;
    proof {
        lemma_pow2_adds(p as nat, 53);
        lemma_fundamental_div_mod(x as int, d as int);
        lemma_mod_pos_bound(x as int, d as int);
        if bl <= 53 {
            if bl < 53 {
                lemma_pow2_strictly_increases(bl as nat, 53);
            }
        } else {
            assert((p + 53) as nat == bl as nat);
        }
        assert(x < pow2(53) * d);
        assert(q < pow2(53)) by (nonlinear_arith)
            requires
                x == d * q + r,
                r >= 0,
                x < pow2(53) * d,
                d > 0,
                q >= 0,
        ;
    }
    let q2 = if 2 * r > d || (2 * r == d && q % 2 == 1) {
        q + 1
    } else {
        q
    };
    (q2, p)
}

/// The canonical float nearest to the integer `±magnitude`, as converting the
/// integer to `f64` gives it.
pub fn float_of_integer(negative: bool, magnitude: u64) -> (f: Float)
    ensures
        f == float_with_value(
            signed_nearest_binary64(
                if negative {
                    -(magnitude as int)
                } else {
                    magnitude as int
                },
            ),
            0,
        ),
{
    let (q, p) = round_to_binary64(magnitude);
    let f = canonical_float(negative && magnitude != 0, q, p as i32);
    proof {
        let n = nearest_binary64(magnitude as nat) as int;
        let sq = if negative && magnitude != 0 {
            -(q as int)
        } else {
            q as int
        };
        let sn = signed_nearest_binary64(
            if negative {
                -(magnitude as int)
            } else {
                magnitude as int
            },
        );
        lemma_scaled_same(sn, 0);
        if negative && magnitude != 0 {
            assert((-(q as int)) * pow2(p as nat) == -(q * pow2(p as nat))) by (nonlinear_arith);
        }
        if negative && magnitude == 0 {
            assert(round_shift(0) == 0);
            lemma2_to64();
            assert(nearest_binary64(0) == 0);
        }
        assert(scaled(sq, p as int, 0) == sn);
        assert(num_order(sq, p as int, sn, 0) == Order::Equal);
        law_num_order_transitive(f.m() as int, f.e() as int, sq, p as int, sn, 0);
        law_num_order_flip(f.m() as int, f.e() as int, sq, p as int);
        law_num_order_flip(sq, p as int, sn, 0);
        law_num_order_transitive(sn, 0, sq, p as int, f.m() as int, f.e() as int);
        law_num_order_flip(sn, 0, f.m() as int, f.e() as int);
        lemma_float_with_value(f, sn, 0);
    }
    f
}

/// The greatest integer not above `m * 2^e`.
pub open spec fn floor_int(m: int, e: int) -> int {
    if e >= 0 {
        m * pow2(e as nat)
    } else {
        m / (pow2((-e) as nat) as int)
    }
}

/// The least integer not below `m * 2^e`.
pub open spec fn ceil_int(m: int, e: int) -> int {
    -floor_int(-m, e)
}

proof fn lemma_neg_div(m: int, d: int)
    requires
        m >= 0,
        d > 0,
    ensures
        (-m) / d == -(m / d) - (if m % d == 0 {
            0int
        } else {
            1int
        }),
{
    lemma_fundamental_div_mod(m, d);
    lemma_mod_pos_bound(m, d);
    let q = m / d;
    let r = m % d;
    if r == 0 {
        assert(-m == (-q) * d + 0) by (nonlinear_arith)
            requires
                m == d * q + r,
                r == 0,
        ;
        lemma_fundamental_div_mod_converse_div(-m, d, -q, 0);
    } else {
        assert(-m == (-q - 1) * d + (d - r)) by (nonlinear_arith)
            requires
                m == d * q + r,
        ;
        lemma_fundamental_div_mod_converse_div(-m, d, -q - 1, d - r);
    }
}

/// `f` rounded to an integer: up (`up`) or down.  The result, as a float, is
/// exact: the integer nearest a binary64 value in a direction is one.
pub fn round_float(f: Float, up: bool) -> (r: Float)
    requires
        f.is_canonical(),
    ensures
        r == float_with_value(
            if up {
                ceil_int(f.m() as int, f.e() as int)
            } else {
                floor_int(f.m() as int, f.e() as int)
            },
            0,
        ),
{
    let ghost target = if up {
        ceil_int(f.m() as int, f.e() as int)
    } else {
        floor_int(f.m() as int, f.e() as int)
    };
    if f.exponent >= 0 {
        proof {
            lemma_scaled_same(target, 0);
            assert(scaled(f.m() as int, f.e() as int, 0) == f.m() * pow2(
                f.e() as nat,
            ));
            assert((-(f.m() as int)) * pow2(f.e() as nat) == -(f.m() * pow2(
                f.e() as nat,
            ))) by (nonlinear_arith);
            lemma_float_with_value(f, target, 0);
        }
        return f;
    }
    let negative = f.mantissa < 0;
    let magnitude: u64 = if negative {
        (-(f.mantissa as i128)) as u64
    } else {
        f.mantissa as u64
    };
    let d: i32 = -f.exponent;
    let ghost dd = pow2(d as nat) as int;
    proof {
        lemma_pow2_pos(d as nat);
    }
    let (q, exact): (u64, bool) = if d >= 64 {
        proof {
            lemma2_to64();
            lemma_pow2_strictly_increases(53, d as nat);
            lemma2_to64_rest();
            lemma_fundamental_div_mod_converse_div(magnitude as int, dd, 0, magnitude as int);
            vstd::arithmetic::div_mod::lemma_fundamental_div_mod_converse_mod(
                magnitude as int,
                dd,
                0,
                magnitude as int,
            );
        }
        (0, magnitude == 0)
    } else {
        let p = pow2_exec(d as u32) as u64;
        (magnitude / p, magnitude % p == 0)
    };
    assert(q == magnitude as int / dd && exact == (magnitude as int % dd == 0));
    let bump: u64 = if exact {
        0
    } else {
        1
    };
    proof {
        lemma_neg_div(magnitude as int, dd);
        lemma2_to64();
        lemma_pow2_strictly_increases(0, d as nat);
        lemma_fundamental_div_mod(magnitude as int, dd);
        lemma_mod_pos_bound(magnitude as int, dd);
        assert(2 * q <= magnitude) by (nonlinear_arith)
            requires
                magnitude == dd * q + magnitude as int % dd,
                magnitude as int % dd >= 0,
                dd >= 2,
                q >= 0,
        ;
    }
    let k: u64 = if negative == up {
        q
    } else {
        q + bump
    };
    let result_negative = negative && k != 0;
    let r = canonical_float(result_negative, k, 0);
    proof {
        let m = f.m() as int;
        assert(m == if negative {
            -(magnitude as int)
        } else {
            magnitude as int
        });
        assert(target == if result_negative {
            -(k as int)
        } else {
            k as int
        });
        lemma_float_with_value(r, target, 0);
    }
    r
}

} // verus!
