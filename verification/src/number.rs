//! JSON numbers: unsigned and negative integers and finite binary floats,
//! with the equality of serde_json's `Number` and the order of their values
//! as `f64` (integers round to the nearest double, ties to even).
use vstd::prelude::*;
use vstd::arithmetic::power2::*;
use vstd::arithmetic::mul::*;
use crate::text::{chars_of, decimal, decimal_chars};

verus! {

/// A finite binary floating-point number, `(-1)^negative * mantissa * 2^exponent`,
/// together with the text that JSON output shows for it.
pub struct FloatNumber {
    pub negative: bool,
    pub mantissa: u64,
    pub exponent: i32,
    pub text: String,
}

/// A JSON number, held as serde_json holds one: a non-negative integer, a
/// negative integer, or a float.
pub enum JsonNumber {
    PosInt(u64),
    NegInt(i64),
    Float(FloatNumber),
}

/// The mathematical model of a `FloatNumber`.
pub struct FloatModel {
    pub negative: bool,
    pub mantissa: u64,
    pub exponent: i32,
    pub text: Seq<char>,
}

/// The mathematical model of a `JsonNumber`.
pub enum NumberModel {
    PosInt(u64),
    NegInt(i64),
    Float(FloatModel),
}

impl View for JsonNumber {
    type V = NumberModel;

    open spec fn view(&self) -> NumberModel {
        match self {
            JsonNumber::PosInt(u) => NumberModel::PosInt(*u),
            JsonNumber::NegInt(i) => NumberModel::NegInt(*i),
            JsonNumber::Float(f) => NumberModel::Float(
                FloatModel {
                    negative: f.negative,
                    mantissa: f.mantissa,
                    exponent: f.exponent,
                    text: f.text@,
                },
            ),
        }
    }
}

/// A signed binary fraction `(-1)^negative * mantissa * 2^exponent`.
pub struct Dyadic {
    pub negative: bool,
    pub mantissa: nat,
    pub exponent: int,
}

/// The number of binary digits of `x` (0 for 0).
pub open spec fn bit_length(x: nat) -> nat
    decreases x,
{
    if x == 0 {
        0
    } else {
        1 + bit_length(x / 2)
    }
}

/// `x` rounded to 53 significant bits, to nearest with ties to even, as
/// `(mantissa, shift)` with value `mantissa * 2^shift`: what `x as f64` holds.
pub open spec fn round53(x: nat) -> (nat, nat) {
    let b = bit_length(x);
    if b <= 53 {
        (x, 0)
    } else {
        let s = (b - 53) as nat;
        let q = x / pow2(s);
        let r = x % pow2(s);
        let h = pow2((s - 1) as nat);
        let m = if r > h || (r == h && q % 2 == 1) {
            q + 1
        } else {
            q
        };
        (m, s)
    }
}

/// The value that `as_f64` gives for a number, as a binary fraction.
pub open spec fn as_double(n: NumberModel) -> Dyadic {
    match n {
        NumberModel::PosInt(u) => Dyadic {
            negative: false,
            mantissa: round53(u as nat).0,
            exponent: round53(u as nat).1 as int,
        },
        NumberModel::NegInt(i) => {
            let a: nat = if i < 0 {
                (-i) as nat
            } else {
                i as nat
            };
            Dyadic { negative: i < 0, mantissa: round53(a).0, exponent: round53(a).1 as int }
        },
        NumberModel::Float(f) => Dyadic {
            negative: f.negative,
            mantissa: f.mantissa as nat,
            exponent: f.exponent as int,
        },
    }
}

/// Compares `m1 * 2^e1` with `m2 * 2^e2`: -1, 0 or 1.
pub open spec fn mag_order(m1: nat, e1: int, m2: nat, e2: int) -> int {
    let base = if e1 < e2 {
        e1
    } else {
        e2
    };
    let x = m1 * pow2((e1 - base) as nat);
    let y = m2 * pow2((e2 - base) as nat);
    if x < y {
        -1
    } else if x == y {
        0
    } else {
        1
    }
}

/// Compares the values of two binary fractions: -1, 0 or 1.
pub open spec fn dy_order(a: Dyadic, b: Dyadic) -> int {
    let za = a.mantissa == 0;
    let zb = b.mantissa == 0;
    if za && zb {
        0
    } else if za {
        if b.negative {
            1
        } else {
            -1
        }
    } else if zb {
        if a.negative {
            -1
        } else {
            1
        }
    } else if a.negative != b.negative {
        if a.negative {
            -1
        } else {
            1
        }
    } else if a.negative {
        mag_order(b.mantissa, b.exponent, a.mantissa, a.exponent)
    } else {
        mag_order(a.mantissa, a.exponent, b.mantissa, b.exponent)
    }
}

/// Compares two numbers as `f64` values (what `as_f64` gives): -1, 0 or 1.
pub open spec fn num_order(a: NumberModel, b: NumberModel) -> int {
    dy_order(as_double(a), as_double(b))
}

/// Equality of serde_json numbers: the same kind, and the same value.
pub open spec fn num_eq(a: NumberModel, b: NumberModel) -> bool {
    match (a, b) {
        (NumberModel::PosInt(x), NumberModel::PosInt(y)) => x == y,
        (NumberModel::NegInt(x), NumberModel::NegInt(y)) => x == y,
        (NumberModel::Float(f), NumberModel::Float(g)) => num_order(a, b) == 0,
        _ => false,
    }
}

/// The JSON text of a number.
pub open spec fn num_text(n: NumberModel) -> Seq<char> {
    match n {
        NumberModel::PosInt(u) => decimal(u as nat),
        NumberModel::NegInt(i) => if i < 0 {
            seq!['-'] + decimal((-i) as nat)
        } else {
            decimal(i as nat)
        },
        NumberModel::Float(f) => f.text,
    }
}

// ---------------------------------------------------------------------------
// Bit length
// ---------------------------------------------------------------------------

proof fn lemma_bit_length_bounds(x: nat)
    ensures
        x == 0 ==> bit_length(x) == 0,
        x > 0 ==> bit_length(x) >= 1 && pow2((bit_length(x) - 1) as nat) <= x < pow2(
            bit_length(x),
        ),
    decreases x,
{
    if x > 0 {
        let h = x / 2;
        lemma_bit_length_bounds(h);
        let b = bit_length(x);
        assert(b == 1 + bit_length(h));
        lemma_pow2_unfold(b);
        if h == 0 {
            assert(x == 1);
            lemma2_to64();
        } else {
            lemma_pow2_unfold((b - 1) as nat);
        }
    }
}

proof fn lemma_bit_length_unique(x: nat, b: nat)
    requires
        b >= 1,
        pow2((b - 1) as nat) <= x < pow2(b),
    ensures
        bit_length(x) == b,
{
    lemma_bit_length_bounds(x);
    lemma_pow2_pos((b - 1) as nat);
    let c = bit_length(x);
    if c < b {
        if c > 0 {
            if c <= (b - 1) as nat {
                if c < (b - 1) as nat {
                    lemma_pow2_strictly_increases(c, (b - 1) as nat);
                }
            }
        }
    } else if c > b {
        if b < (c - 1) as nat {
            lemma_pow2_strictly_increases(b, (c - 1) as nat);
        }
    }
}

/// The value of an integer number.
pub open spec fn int_value(n: NumberModel) -> int {
    match n {
        NumberModel::PosInt(u) => u as int,
        NumberModel::NegInt(i) => i as int,
        NumberModel::Float(_) => 0,
    }
}

/// An integer that a double holds exactly: at most 2^53 in magnitude.
pub open spec fn is_exact_int(n: NumberModel) -> bool {
    match n {
        NumberModel::PosInt(u) => u < pow2(53),
        NumberModel::NegInt(i) => -(pow2(53) as int) < i < pow2(53),
        NumberModel::Float(_) => false,
    }
}

proof fn lemma_round53_small(x: nat)
    requires
        x < pow2(53),
    ensures
        round53(x) == (x, 0nat),
{
    lemma_bit_length_bounds(x);
    if x > 0 {
        let b = bit_length(x);
        if b > 53 {
            if 53 < (b - 1) as nat {
                lemma_pow2_strictly_increases(53, (b - 1) as nat);
            }
        }
    }
}

/// Integers that doubles hold exactly compare as integers: `num_order` is
/// the sign of their difference.
pub proof fn lemma_num_order_ints(a: NumberModel, b: NumberModel)
    requires
        is_exact_int(a),
        is_exact_int(b),
    ensures
        num_order(a, b) == if int_value(a) < int_value(b) {
            -1int
        } else if int_value(a) == int_value(b) {
            0int
        } else {
            1int
        },
{
    let va = int_value(a);
    let vb = int_value(b);
    let ma: nat = if va < 0 { (-va) as nat } else { va as nat };
    let mb: nat = if vb < 0 { (-vb) as nat } else { vb as nat };
    lemma_round53_small(ma);
    lemma_round53_small(mb);
    let da = as_double(a);
    let db = as_double(b);
    assert(da.mantissa == ma && da.exponent == 0 && da.negative == (va < 0));
    assert(db.mantissa == mb && db.exponent == 0 && db.negative == (vb < 0));
    lemma2_to64();
    assert(pow2(0) == 1);
    assert(ma * pow2(0) == ma);
    assert(mb * pow2(0) == mb);
}

/// The number of binary digits of `x`.
fn bit_length_u64(x: u64) -> (b: u32)
    ensures
        b as nat == bit_length(x as nat),
        b <= 64,
{
    let mut b: u32 = 0;
    proof {
        lemma2_to64();
    }
    while b < 64 && (x >> b) != 0
        invariant
            b <= 64,
            b == 0 || pow2((b - 1) as nat) <= x,
        decreases 64 - b,
    {
        proof {
            vstd::bits::lemma_u64_shr_is_div(x, b as u64);
            lemma_pow2_pos(b as nat);
            if x < pow2(b as nat) {
                assert(x as nat / pow2(b as nat) == 0) by (nonlinear_arith)
                    requires
                        x < pow2(b as nat),
                ;
            }
        }
        b = b + 1;
    }
    proof {
        lemma2_to64();
        if b < 64 {
            vstd::bits::lemma_u64_shr_is_div(x, b as u64);
            lemma_pow2_pos(b as nat);
            if x >= pow2(b as nat) {
                assert(x as nat / pow2(b as nat) >= 1) by (nonlinear_arith)
                    requires
                        x >= pow2(b as nat),
                        pow2(b as nat) > 0,
                ;
            }
        }
        if b == 0 {
            lemma_bit_length_bounds(x as nat);
        } else {
            lemma_bit_length_unique(x as nat, b as nat);
        }
    }
    b
}

// ---------------------------------------------------------------------------
// Rounding integers to doubles
// ---------------------------------------------------------------------------

fn pow2_u64(s: u32) -> (p: u64)
    requires
        s < 64,
    ensures
        p as nat == pow2(s as nat),
{
    let mut p: u64 = 1;
    let mut k: u32 = 0;
    proof {
        lemma2_to64();
    }
    while k < s
        invariant
            k <= s < 64,
            p as nat == pow2(k as nat),
        decreases s - k,
    {
        proof {
            lemma_pow2_unfold((k + 1) as nat);
            lemma_pow2_strictly_increases((k + 1) as nat, 64);
            lemma2_to64();
        }
        p = p * 2;
        k = k + 1;
    }
    p
}

fn pow2_u128(s: u32) -> (p: u128)
    requires
        s <= 64,
    ensures
        p as nat == pow2(s as nat),
{
    let mut p: u128 = 1;
    let mut k: u32 = 0;
    proof {
        lemma2_to64();
    }
    while k < s
        invariant
            k <= s <= 64,
            p as nat == pow2(k as nat),
        decreases s - k,
    {
        proof {
            lemma_pow2_unfold((k + 1) as nat);
            if k + 1 < 64 {
                lemma_pow2_strictly_increases((k + 1) as nat, 64);
            }
            lemma2_to64();
        }
        p = p * 2;
        k = k + 1;
    }
    p
}

/// `x as f64`, as `(mantissa, shift)`.
fn round_u64(x: u64) -> (r: (u64, u32))
    ensures
        (r.0 as nat, r.1 as nat) == round53(x as nat),
        r.1 <= 11,
{
    let b = bit_length_u64(x);
    if b <= 53 {
        return (x, 0);
    }
    let s = b - 53;
    let p = pow2_u64(s);
    proof {
        lemma_pow2_pos(s as nat);
    }
    let q = x / p;
    let r = x % p;
    let h = p / 2;
    proof {
        lemma_pow2_unfold(s as nat);
        assert(q <= x) by (nonlinear_arith)
            requires
                q == x / p,
                p >= 1,
        ;
        assert(q < 0xffff_ffff_ffff_ffff) by {
            assert(q <= x / 2) by (nonlinear_arith)
                requires
                    q == x / p,
                    p >= 2,
            ;
        }
    }
    let m = if r > h || (r == h && q % 2 == 1) {
        q + 1
    } else {
        q
    };
    (m, s)
}

// ---------------------------------------------------------------------------
// Comparing binary fractions
// ---------------------------------------------------------------------------

proof fn lemma_mag_less(m1: nat, e1: int, m2: nat, e2: int)
    requires
        m1 > 0,
        m2 > 0,
        bit_length(m1) + e1 < bit_length(m2) + e2,
    ensures
        mag_order(m1, e1, m2, e2) == -1,
{
    let b1 = bit_length(m1);
    let b2 = bit_length(m2);
    lemma_bit_length_bounds(m1);
    lemma_bit_length_bounds(m2);
    let base = if e1 < e2 {
        e1
    } else {
        e2
    };
    let k1 = (e1 - base) as nat;
    let k2 = (e2 - base) as nat;
    let x = m1 * pow2(k1);
    let y = m2 * pow2(k2);
    lemma_pow2_pos(k1);
    lemma_pow2_pos(k2);
    lemma_mul_strict_inequality(m1 as int, pow2(b1) as int, pow2(k1) as int);
    lemma_pow2_adds(b1, k1);
    lemma_mul_inequality(pow2((b2 - 1) as nat) as int, m2 as int, pow2(k2) as int);
    lemma_pow2_adds((b2 - 1) as nat, k2);
    let lo = b1 + k1;
    let hi = (b2 - 1) as nat + k2;
    assert(lo <= hi);
    if lo < hi {
        lemma_pow2_strictly_increases(lo, hi);
    }
    assert(x < pow2(lo));
    assert(pow2(hi) <= y);
}

proof fn lemma_mag_swap(m1: nat, e1: int, m2: nat, e2: int)
    ensures
        mag_order(m1, e1, m2, e2) == -mag_order(m2, e2, m1, e1),
{
}

/// Compares `m1 * 2^e1` with `m2 * 2^e2`.
fn mag_order_exec(m1: u64, e1: i64, m2: u64, e2: i64) -> (r: i8)
    requires
        -0x1_0000_0000 <= e1 <= 0x1_0000_0000,
        -0x1_0000_0000 <= e2 <= 0x1_0000_0000,
    ensures
        r as int == mag_order(m1 as nat, e1 as int, m2 as nat, e2 as int),
{
    proof {
        let base = if e1 < e2 {
            e1 as int
        } else {
            e2 as int
        };
        lemma_pow2_pos((e1 - base) as nat);
        lemma_pow2_pos((e2 - base) as nat);
        if m2 > 0 {
            lemma_mul_strict_inequality(0, m2 as int, pow2((e2 - base) as nat) as int);
        }
        if m1 > 0 {
            lemma_mul_strict_inequality(0, m1 as int, pow2((e1 - base) as nat) as int);
        }
    }
    if m1 == 0 && m2 == 0 {
        return 0;
    }
    if m1 == 0 {
        return -1;
    }
    if m2 == 0 {
        return 1;
    }
    let b1 = bit_length_u64(m1);
    let b2 = bit_length_u64(m2);
    let t1: i64 = b1 as i64 + e1;
    let t2: i64 = b2 as i64 + e2;
    if t1 < t2 {
        proof {
            lemma_mag_less(m1 as nat, e1 as int, m2 as nat, e2 as int);
        }
        return -1;
    }
    if t2 < t1 {
        proof {
            lemma_mag_less(m2 as nat, e2 as int, m1 as nat, e1 as int);
            lemma_mag_swap(m1 as nat, e1 as int, m2 as nat, e2 as int);
        }
        return 1;
    }
    proof {
        lemma_bit_length_bounds(m1 as nat);
        lemma_bit_length_bounds(m2 as nat);
        lemma2_to64();
    }
    if e1 >= e2 {
        let d: u32 = (e1 - e2) as u32;
        let f = pow2_u128(d);
        proof {
            lemma_pow2_pos(d as nat);
            lemma_mul_strict_inequality(m1 as int, pow2(b1 as nat) as int, pow2(d as nat) as int);
            lemma_pow2_adds(b1 as nat, d as nat);
            if b2 < 64 {
                lemma_pow2_strictly_increases(b2 as nat, 64);
            }
            assert(e1 - e2 == (e1 - e2) as int - 0);
        }
        let x: u128 = (m1 as u128) * f;
        let y: u128 = m2 as u128;
        assert(pow2(0) == 1);
        assert(y == m2 as nat * pow2(0)) by {
            lemma_mul_basics(m2 as int);
        }
        if x < y {
            -1
        } else if x == y {
            0
        } else {
            1
        }
    } else {
        let d: u32 = (e2 - e1) as u32;
        let f = pow2_u128(d);
        proof {
            lemma_pow2_pos(d as nat);
            lemma_mul_strict_inequality(m2 as int, pow2(b2 as nat) as int, pow2(d as nat) as int);
            lemma_pow2_adds(b2 as nat, d as nat);
            if b1 < 64 {
                lemma_pow2_strictly_increases(b1 as nat, 64);
            }
        }
        let x: u128 = m1 as u128;
        let y: u128 = (m2 as u128) * f;
        assert(pow2(0) == 1);
        assert(x == m1 as nat * pow2(0)) by {
            lemma_mul_basics(m1 as int);
        }
        if x < y {
            -1
        } else if x == y {
            0
        } else {
            1
        }
    }
}

/// A binary fraction with machine-sized parts.
struct DyadicParts {
    negative: bool,
    mantissa: u64,
    exponent: i64,
}

impl DyadicParts {
    spec fn model(self) -> Dyadic {
        Dyadic {
            negative: self.negative,
            mantissa: self.mantissa as nat,
            exponent: self.exponent as int,
        }
    }
}

/// The value that `as_f64` gives for `n`.
fn to_double(n: &JsonNumber) -> (d: DyadicParts)
    ensures
        d.model() == as_double(n@),
        -0x1_0000_0000 <= d.exponent <= 0x1_0000_0000,
{
    match n {
        JsonNumber::PosInt(u) => {
            let (m, s) = round_u64(*u);
            DyadicParts { negative: false, mantissa: m, exponent: s as i64 }
        },
        JsonNumber::NegInt(i) => {
            let a: u64 = if *i < 0 {
                ((-(*i + 1)) as u64) + 1
            } else {
                *i as u64
            };
            let (m, s) = round_u64(a);
            DyadicParts { negative: *i < 0, mantissa: m, exponent: s as i64 }
        },
        JsonNumber::Float(f) => DyadicParts {
            negative: f.negative,
            mantissa: f.mantissa,
            exponent: f.exponent as i64,
        },
    }
}

fn dy_order_exec(a: &DyadicParts, b: &DyadicParts) -> (r: i8)
    requires
        -0x1_0000_0000 <= a.exponent <= 0x1_0000_0000,
        -0x1_0000_0000 <= b.exponent <= 0x1_0000_0000,
    ensures
        r as int == dy_order(a.model(), b.model()),
{
    let za = a.mantissa == 0;
    let zb = b.mantissa == 0;
    if za && zb {
        0
    } else if za {
        if b.negative {
            1
        } else {
            -1
        }
    } else if zb {
        if a.negative {
            -1
        } else {
            1
        }
    } else if a.negative != b.negative {
        if a.negative {
            -1
        } else {
            1
        }
    } else if a.negative {
        mag_order_exec(b.mantissa, b.exponent, a.mantissa, a.exponent)
    } else {
        mag_order_exec(a.mantissa, a.exponent, b.mantissa, b.exponent)
    }
}

/// Compares two numbers by their values as `f64`: -1, 0 or 1.
pub fn compare_numbers(a: &JsonNumber, b: &JsonNumber) -> (r: i8)
    ensures
        r as int == num_order(a@, b@),
{
    let x = to_double(a);
    let y = to_double(b);
    dy_order_exec(&x, &y)
}

/// Whether two numbers are equal as serde_json numbers.
pub fn numbers_equal(a: &JsonNumber, b: &JsonNumber) -> (r: bool)
    ensures
        r == num_eq(a@, b@),
{
    match (a, b) {
        (JsonNumber::PosInt(x), JsonNumber::PosInt(y)) => *x == *y,
        (JsonNumber::NegInt(x), JsonNumber::NegInt(y)) => *x == *y,
        (JsonNumber::Float(_), JsonNumber::Float(_)) => compare_numbers(a, b) == 0,
        _ => false,
    }
}

/// The JSON text of a number.
pub fn number_text(n: &JsonNumber) -> (out: Vec<char>)
    ensures
        out@ == num_text(n@),
{
    match n {
        JsonNumber::PosInt(u) => decimal_chars(*u),
        JsonNumber::NegInt(i) => {
            if *i < 0 {
                let a: u64 = ((-(*i + 1)) as u64) + 1;
                let digits = decimal_chars(a);
                let mut out: Vec<char> = Vec::new();
                out.push('-');
                let mut k: usize = 0;
                while k < digits.len()
                    invariant
                        k <= digits.len(),
                        out@ == seq!['-'] + digits@.take(k as int),
                    decreases digits.len() - k,
                {
                    out.push(digits[k]);
                    k = k + 1;
                    assert(digits@.take(k as int) == digits@.take(k - 1 as int).push(
                        digits@[k - 1],
                    ));
                }
                assert(digits@.take(digits.len() as int) == digits@);
                out
            } else {
                decimal_chars(*i as u64)
            }
        },
        JsonNumber::Float(f) => chars_of(f.text.as_str()),
    }
}

} // verus!
