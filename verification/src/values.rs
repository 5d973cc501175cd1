//! Plain value model for event and object attributes.
//!
//! Attribute values form a tagged union of float, integer, string, boolean,
//! timestamp and null. Floats are carried as their IEEE 754 bit patterns and
//! ordered by the IEEE total order, so that the whole model stays within
//! integer arithmetic; timestamps are milliseconds since the Unix epoch.
use vstd::arithmetic::power2::{
    lemma2_to64, lemma2_to64_rest, lemma_pow2_adds, lemma_pow2_pos, lemma_pow2_strictly_increases,
    lemma_pow2_unfold, pow2,
};
use vstd::prelude::*;

verus! {

/// The sign bit of an IEEE 754 double.
pub const FLOAT_SIGN_BIT: u64 = 0x8000_0000_0000_0000;

/// A value attached to an event or object attribute.
///
/// `Float` holds the IEEE 754 bit pattern of a double; `Timestamp` holds
/// milliseconds since the Unix epoch.
#[derive(Debug)]
pub enum AttributeValue {
    Float(u64),
    Integer(i64),
    String(String),
    Boolean(bool),
    Timestamp(i64),
    Null,
}

/// A value computed by a label function and stored in a binding.
///
/// The same union as [`AttributeValue`] without the timestamp variant,
/// mirroring what label expressions can produce.
#[derive(Debug)]
pub enum LabelValue {
    String(String),
    Int(i64),
    Float(u64),
    Bool(bool),
    Null,
}

/// Key that orders IEEE 754 doubles by the total order when the keys are
/// compared as unsigned integers: negative values have their bits inverted,
/// non-negative values have the sign bit set.
pub open spec fn float_order_key_spec(bits: u64) -> u64 {
    if bits >= FLOAT_SIGN_BIT {
        !bits
    } else {
        bits | FLOAT_SIGN_BIT
    }
}

/// Computes [`float_order_key_spec`]: the unsigned key under which doubles
/// compare by the IEEE total order.
pub fn float_order_key(bits: u64) -> (r: u64)
    ensures
        r == float_order_key_spec(bits),
{
    if bits >= FLOAT_SIGN_BIT {
        !bits
    } else {
        bits | FLOAT_SIGN_BIT
    }
}

/// `a <= b` on doubles given by their bit patterns, by the IEEE total order.
pub open spec fn float_le_spec(a: u64, b: u64) -> bool {
    float_order_key_spec(a) <= float_order_key_spec(b)
}

/// Compares two doubles, given as bit patterns, by the IEEE total order.
pub fn float_le(a: u64, b: u64) -> (r: bool)
    ensures
        r == float_le_spec(a, b),
{
    float_order_key(a) <= float_order_key(b)
}

/// Position of the highest set bit of `m` (0-based); meaningful for `m > 0`.
pub open spec fn highest_bit_spec(m: u64) -> nat
    decreases m,
{
    if m <= 1 {
        0
    } else {
        1 + highest_bit_spec(m / 2)
    }
}

proof fn lemma_pow2_of_highest_bit(m: u64)
    requires
        m > 0,
    ensures
        pow2(highest_bit_spec(m)) <= m < 2 * pow2(highest_bit_spec(m)),
    decreases m,
{
    if m <= 1 {
        lemma2_to64();
    } else {
        lemma_pow2_of_highest_bit(m / 2);
        lemma_pow2_unfold((1 + highest_bit_spec(m / 2)) as nat);
    }
}

proof fn lemma_highest_bit_bound(m: u64)
    requires
        m > 0,
    ensures
        highest_bit_spec(m) <= 63,
{
    lemma_pow2_of_highest_bit(m);
    let h = highest_bit_spec(m);
    if h > 63 {
        lemma2_to64();
        if h > 64 {
            lemma_pow2_strictly_increases(64, h);
        }
    }
}

/// Computes the position of the highest set bit of `m`; requires `m > 0`.
fn highest_bit(m: u64) -> (r: u64)
    requires
        m > 0,
    ensures
        r == highest_bit_spec(m),
        r <= 63,
{
    let mut v: u64 = m;
    let mut p: u64 = 0;
    proof {
        lemma_highest_bit_bound(m);
    }
    while v > 1
        invariant
            v >= 1,
            highest_bit_spec(m) == p + highest_bit_spec(v),
            p + highest_bit_spec(v) <= 63,
        decreases v,
    {
        assert(highest_bit_spec(v) == 1 + highest_bit_spec(v / 2));
        v = v / 2;
        p = p + 1;
    }
    p
}

/// Computes `2^e` for `e <= 63`.
fn pow2_exec(e: u64) -> (r: u64)
    requires
        e <= 63,
    ensures
        r == pow2(e as nat),
        r >= 1,
{
    let mut i: u64 = 0;
    let mut r: u64 = 1;
    proof {
        lemma2_to64();
    }
    while i < e
        invariant
            i <= e <= 63,
            r == pow2(i as nat),
            r >= 1,
        decreases e - i,
    {
        proof {
            lemma_pow2_unfold((i + 1) as nat);
            if i + 1 < 63 {
                lemma_pow2_strictly_increases((i + 1) as nat, 63);
            }
            lemma2_to64_rest();
        }
        r = r * 2;
        i = i + 1;
    }
    r
}

/// The IEEE 754 double bit pattern denoting the magnitude `m` scaled by sign
/// `neg`, rounded to nearest with ties to even: the meaning of an
/// integer-to-double cast.
pub open spec fn u64_to_float_bits_spec(m: u64, neg: bool) -> u64 {
    let sign: u64 = if neg {
        FLOAT_SIGN_BIT
    } else {
        0
    };
    if m == 0 {
        sign
    } else {
        let p = highest_bit_spec(m);
        if p <= 52 {
            let mantissa = (m as nat * pow2((52 - p) as nat)) % 0x10_0000_0000_0000;
            sign | (((p + 1023) as u64) << 52u64) | (mantissa as u64)
        } else {
            let shift = (p - 52) as nat;
            let keep = m as nat / pow2(shift);
            let rem = m as nat % pow2(shift);
            let half = pow2((shift - 1) as nat);
            let rounded = if rem > half || (rem == half && keep % 2 == 1) {
                keep + 1
            } else {
                keep
            };
            let (mant, biased) = if rounded == 0x20_0000_0000_0000 {
                (0x10_0000_0000_0000 as nat, (p + 1024) as nat)
            } else {
                (rounded, (p + 1023) as nat)
            };
            sign | ((biased as u64) << 52u64) | ((mant % 0x10_0000_0000_0000) as u64)
        }
    }
}

/// The double bit pattern nearest to the integer `i` (ties to even): what an
/// `i64` turns into when promoted to a double.
pub open spec fn int_to_float_bits_spec(i: i64) -> u64 {
    if i >= 0 {
        u64_to_float_bits_spec(i as u64, false)
    } else if i == i64::MIN {
        u64_to_float_bits_spec(FLOAT_SIGN_BIT, true)
    } else {
        u64_to_float_bits_spec((-i) as u64, true)
    }
}

/// Promotes an integer to the bit pattern of the nearest double
/// (round to nearest, ties to even), as an integer-to-double cast does.
pub fn int_to_float_bits(i: i64) -> (r: u64)
    ensures
        r == int_to_float_bits_spec(i),
{
    let (m, neg): (u64, bool) = if i >= 0 {
        (i as u64, false)
    } else if i == i64::MIN {
        (FLOAT_SIGN_BIT, true)
    } else {
        ((-i) as u64, true)
    };
    let sign: u64 = if neg {
        FLOAT_SIGN_BIT
    } else {
        0
    };
    if m == 0 {
        return sign;
    }
    let p = highest_bit(m);
    if p <= 52 {
        let factor: u64 = pow2_exec(52 - p);
        proof {
            lemma_mantissa_in_range(m, p as nat);
        }
        let mantissa: u64 = (m * factor) % 0x10_0000_0000_0000;
        let biased: u64 = p + 1023;
        sign | (biased << 52u64) | mantissa
    } else {
        let shift: u64 = p - 52;
        let divisor: u64 = pow2_exec(shift);
        let keep: u64 = m / divisor;
        let rem: u64 = m % divisor;
        let half: u64 = pow2_exec(shift - 1);
        proof {
            lemma_keep_in_range(m, p as nat);
        }
        let rounded: u64 = if rem > half || (rem == half && keep % 2 == 1) {
            keep + 1
        } else {
            keep
        };
        let (mant, biased): (u64, u64) = if rounded == 0x20_0000_0000_0000 {
            (0x10_0000_0000_0000, p + 1024)
        } else {
            (rounded, p + 1023)
        };
        sign | (biased << 52u64) | (mant % 0x10_0000_0000_0000)
    }
}

proof fn lemma_mantissa_in_range(m: u64, p: nat)
    requires
        m > 0,
        p == highest_bit_spec(m),
        p <= 52,
    ensures
        m as nat * pow2((52 - p) as nat) < 0x20_0000_0000_0000,
{
    lemma_pow2_of_highest_bit(m);
    lemma_pow2_adds(p, (52 - p) as nat);
    lemma_pow2_pos((52 - p) as nat);
    lemma2_to64_rest();
    assert(m as nat * pow2((52 - p) as nat) < 2 * pow2(52)) by (nonlinear_arith)
        requires
            (m as nat) < 2 * pow2(p),
            pow2((52 - p) as nat) >= 1,
            pow2(p) * pow2((52 - p) as nat) == pow2(52),
    ;
}

proof fn lemma_keep_in_range(m: u64, p: nat)
    requires
        m > 0,
        p == highest_bit_spec(m),
        52 < p <= 63,
    ensures
        0x10_0000_0000_0000 <= m as nat / pow2((p - 52) as nat) < 0x20_0000_0000_0000,
        m as nat % pow2((p - 52) as nat) < pow2((p - 52) as nat),
{
    lemma_pow2_of_highest_bit(m);
    let shift = (p - 52) as nat;
    lemma_pow2_adds(52, shift);
    lemma2_to64_rest();
    lemma_pow2_pos(shift);
    assert(m as nat / pow2(shift) >= 0x10_0000_0000_0000) by (nonlinear_arith)
        requires
            m as nat >= pow2(p),
            pow2(p) == 0x10_0000_0000_0000 * pow2(shift),
            pow2(shift) >= 1,
    ;
    assert(m as nat / pow2(shift) < 0x20_0000_0000_0000) by (nonlinear_arith)
        requires
            (m as nat) < 2 * pow2(p),
            pow2(p) == 0x10_0000_0000_0000 * pow2(shift),
            pow2(shift) >= 1,
    ;
    assert(m as nat % pow2(shift) < pow2(shift)) by (nonlinear_arith)
        requires
            pow2(shift) >= 1,
    ;
}

/// Ghost model of an [`AttributeValue`].
pub enum AttrVal {
    Float(u64),
    Integer(i64),
    String(Seq<char>),
    Boolean(bool),
    Timestamp(i64),
    Null,
}

impl DeepView for AttributeValue {
    type V = AttrVal;

    open spec fn deep_view(&self) -> AttrVal {
        match self {
            AttributeValue::Float(f) => AttrVal::Float(*f),
            AttributeValue::Integer(i) => AttrVal::Integer(*i),
            AttributeValue::String(s) => AttrVal::String(s@),
            AttributeValue::Boolean(b) => AttrVal::Boolean(*b),
            AttributeValue::Timestamp(t) => AttrVal::Timestamp(*t),
            AttributeValue::Null => AttrVal::Null,
        }
    }
}

impl Clone for AttributeValue {
    /// Clones the value; the copy has the same model.
    fn clone(&self) -> (r: Self)
        ensures
            r.deep_view() == self.deep_view(),
    {
        match self {
            AttributeValue::Float(f) => AttributeValue::Float(*f),
            AttributeValue::Integer(i) => AttributeValue::Integer(*i),
            AttributeValue::String(s) => AttributeValue::String(s.clone()),
            AttributeValue::Boolean(b) => AttributeValue::Boolean(*b),
            AttributeValue::Timestamp(t) => AttributeValue::Timestamp(*t),
            AttributeValue::Null => AttributeValue::Null,
        }
    }
}

} // verus!
