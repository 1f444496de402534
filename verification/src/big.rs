//! Arbitrary-precision non-negative integers.
//!
//! A value is modeled as a little-endian sequence of base-2^32 limbs with no
//! most-significant zero limb, so that every mathematical value has exactly
//! one representation.  The arithmetic that would be costly to re-prove
//! (multiplication, subtraction, comparison, integer square root, reading a
//! big-endian byte string) is delegated to `num_bigint` through trusted
//! wrappers whose contracts speak of the limb sequence's mathematical value.

use vstd::prelude::*;

verus! {

use vstd::arithmetic::mul::lemma_mul_inequality;
use vstd::arithmetic::div_mod::lemma_fundamental_div_mod;

/// Mathematical value of a little-endian base-2^32 limb sequence.
pub open spec fn limbs_val(s: Seq<u32>) -> nat
    decreases s.len(),
{
    if s.len() == 0 {
        0
    } else {
        (s[0] + 0x1_0000_0000 * limbs_val(s.skip(1))) as nat
    }
}

/// The sequence carries no most-significant zero limb.
pub open spec fn normalized(s: Seq<u32>) -> bool {
    s.len() == 0 || s[s.len() - 1] != 0
}

/// `b` raised to `e` over the naturals.
pub open spec fn npow(b: nat, e: nat) -> nat
    decreases e,
{
    if e == 0 {
        1
    } else {
        b * npow(b, (e - 1) as nat)
    }
}

/// Absolute difference of two naturals.
pub open spec fn abs_diff(a: nat, b: nat) -> nat {
    if a >= b {
        (a - b) as nat
    } else {
        (b - a) as nat
    }
}

/// Mathematical value of a big-endian byte string.
pub open spec fn bytes_be_val(s: Seq<u8>) -> nat
    decreases s.len(),
{
    if s.len() == 0 {
        0
    } else {
        (256 * bytes_be_val(s.drop_last()) + s.last()) as nat
    }
}

/// The absolute difference is symmetric, and zero exactly on equal
/// arguments.
pub proof fn lemma_abs_diff_symmetric(a: nat, b: nat)
    ensures
        abs_diff(a, b) == abs_diff(b, a),
        abs_diff(a, a) == 0,
        abs_diff(a, b) == 0 <==> a == b,
{
}

/// A power with base at least 1 is at least 1.
pub proof fn lemma_npow_pos(b: nat, e: nat)
    requires
        b >= 1,
    ensures
        npow(b, e) >= 1,
    decreases e,
{
    if e > 0 {
        lemma_npow_pos(b, (e - 1) as nat);
        assert(b * npow(b, (e - 1) as nat) >= 1) by (nonlinear_arith)
            requires
                b >= 1,
                npow(b, (e - 1) as nat) >= 1,
        ;
    }
}

/// Powers of a base at least 1 never decrease as the exponent grows.
pub proof fn lemma_npow_increases(b: nat, e1: nat, e2: nat)
    requires
        b >= 1,
        e1 <= e2,
    ensures
        npow(b, e1) <= npow(b, e2),
    decreases e2,
{
    if e1 < e2 {
        lemma_npow_increases(b, e1, (e2 - 1) as nat);
        lemma_npow_pos(b, (e2 - 1) as nat);
        assert(npow(b, e2) == b * npow(b, (e2 - 1) as nat));
        lemma_mul_inequality(1, b as int, npow(b, (e2 - 1) as nat) as int);
    }
}

/// A normalized, non-empty limb sequence is worth at least the place value
/// of its top limb.
pub proof fn lemma_limbs_val_lower_bound(s: Seq<u32>)
    requires
        normalized(s),
        s.len() >= 1,
    ensures
        limbs_val(s) >= npow(0x1_0000_0000, (s.len() - 1) as nat),
    decreases s.len(),
{
    if s.len() == 1 {
        assert(s.skip(1).len() == 0);
    } else {
        let t = s.skip(1);
        assert(t[t.len() - 1] == s[s.len() - 1]);
        lemma_limbs_val_lower_bound(t);
        assert(npow(0x1_0000_0000, (s.len() - 1) as nat) == 0x1_0000_0000 * npow(
            0x1_0000_0000,
            (s.len() - 2) as nat,
        ));
        assert(0x1_0000_0000 * limbs_val(t) >= 0x1_0000_0000 * npow(
            0x1_0000_0000,
            (t.len() - 1) as nat,
        )) by (nonlinear_arith)
            requires
                limbs_val(t) >= npow(0x1_0000_0000, (t.len() - 1) as nat),
        ;
    }
}

/// Relies on `num_bigint::BigUint`: `from_slice` reads base-2^32 digits least
/// significant first, `Mul` multiplies exactly, and `to_u32_digits` writes the
/// digits back least significant first with no most-significant zero.
#[verifier::external_body]
fn limbs_mul(a: &Vec<u32>, b: &Vec<u32>) -> (r: Vec<u32>)
    ensures
        limbs_val(r@) == limbs_val(a@) * limbs_val(b@),
        normalized(r@),
{
    let x = num_bigint::BigUint::from_slice(a);
    let y = num_bigint::BigUint::from_slice(b);
    (x * y).to_u32_digits()
}

/// Relies on `num_bigint::BigUint`: `Sub` computes the exact difference; it
/// panics on underflow, so the smaller operand is required to come second.
#[verifier::external_body]
fn limbs_sub(a: &Vec<u32>, b: &Vec<u32>) -> (r: Vec<u32>)
    requires
        limbs_val(b@) <= limbs_val(a@),
    ensures
        limbs_val(r@) == limbs_val(a@) - limbs_val(b@),
        normalized(r@),
{
    let x = num_bigint::BigUint::from_slice(a);
    let y = num_bigint::BigUint::from_slice(b);
    (x - y).to_u32_digits()
}

/// Relies on `num_bigint::BigUint`: `Ord` orders values numerically.
#[verifier::external_body]
fn limbs_lt(a: &Vec<u32>, b: &Vec<u32>) -> (r: bool)
    ensures
        r == (limbs_val(a@) < limbs_val(b@)),
{
    num_bigint::BigUint::from_slice(a) < num_bigint::BigUint::from_slice(b)
}

/// Relies on `num_bigint::BigUint`: `PartialEq` equates exactly the equal
/// values, since `from_slice` normalizes both representations.
#[verifier::external_body]
fn limbs_eq(a: &Vec<u32>, b: &Vec<u32>) -> (r: bool)
    ensures
        r == (limbs_val(a@) == limbs_val(b@)),
{
    num_bigint::BigUint::from_slice(a) == num_bigint::BigUint::from_slice(b)
}

/// Relies on `num_bigint::BigUint::sqrt`: the truncated principal square
/// root, the largest `r` with `r * r` no greater than the operand.
#[verifier::external_body]
fn limbs_sqrt(a: &Vec<u32>) -> (r: Vec<u32>)
    ensures
        limbs_val(r@) * limbs_val(r@) <= limbs_val(a@),
        limbs_val(a@) < (limbs_val(r@) + 1) * (limbs_val(r@) + 1),
        normalized(r@),
{
    num_bigint::BigUint::from_slice(a).sqrt().to_u32_digits()
}

/// Relies on `num_bigint::BigUint::from_bytes_be`: the bytes are read as one
/// big-endian base-256 number.
#[verifier::external_body]
fn limbs_from_bytes_be(bytes: &Vec<u8>) -> (r: Vec<u32>)
    ensures
        limbs_val(r@) == bytes_be_val(bytes@),
        normalized(r@),
{
    num_bigint::BigUint::from_bytes_be(bytes).to_u32_digits()
}

/// An arbitrary-precision non-negative integer.
pub struct Big {
    pub limbs: Vec<u32>,
}

impl Big {
    /// The mathematical value.
    pub open spec fn val(self) -> nat {
        limbs_val(self.limbs@)
    }

    /// The representation is the canonical one for its value.
    pub open spec fn wf(self) -> bool {
        normalized(self.limbs@)
    }

    pub fn from_u64(x: u64) -> (r: Big)
        ensures
            r.wf(),
            r.val() == x,
    {
        let lo: u32 = (x % 0x1_0000_0000) as u32;
        let hi: u32 = (x / 0x1_0000_0000) as u32;
        proof {
            lemma_fundamental_div_mod(x as int, 0x1_0000_0000);
        }
        let mut limbs: Vec<u32> = Vec::new();
        if hi != 0 {
            limbs.push(lo);
            limbs.push(hi);
            proof {
                reveal_with_fuel(limbs_val, 3);
                assert(limbs@.skip(1) =~= seq![hi]);
                assert(seq![hi].skip(1) =~= Seq::<u32>::empty());
            }
        } else if lo != 0 {
            limbs.push(lo);
            proof {
                reveal_with_fuel(limbs_val, 2);
                assert(limbs@.skip(1) =~= Seq::<u32>::empty());
            }
        }
        Big { limbs }
    }

    pub fn to_u64(&self) -> (r: Option<u64>)
        requires
            self.wf(),
        ensures
            match r {
                Some(v) => v == self.val(),
                None => self.val() > u64::MAX,
            },
    {
        if self.limbs.len() == 0 {
            Some(0)
        } else if self.limbs.len() == 1 {
            proof {
                reveal_with_fuel(limbs_val, 2);
                assert(self.limbs@.skip(1).len() == 0);
            }
            Some(self.limbs[0] as u64)
        } else if self.limbs.len() == 2 {
            proof {
                reveal_with_fuel(limbs_val, 3);
                assert(self.limbs@.skip(1).len() == 1);
                assert(self.limbs@.skip(1)[0] == self.limbs@[1]);
                assert(self.limbs@.skip(1).skip(1).len() == 0);
            }
            Some(self.limbs[0] as u64 + self.limbs[1] as u64 * 0x1_0000_0000u64)
        } else {
            proof {
                lemma_limbs_val_lower_bound(self.limbs@);
                lemma_npow_increases(0x1_0000_0000, 2, (self.limbs@.len() - 1) as nat);
                assert(npow(0x1_0000_0000, 0) == 1);
                assert(npow(0x1_0000_0000, 1) == 0x1_0000_0000 * npow(0x1_0000_0000, 0));
                assert(npow(0x1_0000_0000, 2) == 0x1_0000_0000 * npow(0x1_0000_0000, 1));
            }
            None
        }
    }

    /// The number a big-endian byte string denotes.
    pub fn from_bytes_be(bytes: &Vec<u8>) -> (r: Big)
        ensures
            r.wf(),
            r.val() == bytes_be_val(bytes@),
    {
        Big { limbs: limbs_from_bytes_be(bytes) }
    }

    pub fn mul(&self, other: &Big) -> (r: Big)
        ensures
            r.wf(),
            r.val() == self.val() * other.val(),
    {
        Big { limbs: limbs_mul(&self.limbs, &other.limbs) }
    }

    pub fn equals(&self, other: &Big) -> (r: bool)
        ensures
            r == (self.val() == other.val()),
    {
        limbs_eq(&self.limbs, &other.limbs)
    }

    pub fn lt(&self, other: &Big) -> (r: bool)
        ensures
            r == (self.val() < other.val()),
    {
        limbs_lt(&self.limbs, &other.limbs)
    }

    /// The absolute difference of the two values.
    pub fn distance(&self, other: &Big) -> (r: Big)
        ensures
            r.wf(),
            r.val() == abs_diff(self.val(), other.val()),
    {
        if limbs_lt(&self.limbs, &other.limbs) {
            Big { limbs: limbs_sub(&other.limbs, &self.limbs) }
        } else {
            Big { limbs: limbs_sub(&self.limbs, &other.limbs) }
        }
    }

    /// The truncated principal square root.
    pub fn sqrt(&self) -> (r: Big)
        ensures
            r.wf(),
            r.val() * r.val() <= self.val(),
            self.val() < (r.val() + 1) * (r.val() + 1),
    {
        Big { limbs: limbs_sqrt(&self.limbs) }
    }

    /// `base` raised to `exp`.
    pub fn pow(base: u64, exp: u64) -> (r: Big)
        ensures
            r.wf(),
            r.val() == npow(base as nat, exp as nat),
    {
        let base_big = Big::from_u64(base);
        let mut acc = Big::from_u64(1);
        let mut j: u64 = 0;
        while j < exp
            invariant
                acc.wf(),
                base_big.wf(),
                base_big.val() == base,
                j <= exp,
                acc.val() == npow(base as nat, j as nat),
            decreases exp - j,
        {
            proof {
                lemma_npow_unfold_right(base as nat, j as nat);
            }
            acc = acc.mul(&base_big);
            j = j + 1;
        }
        acc
    }

    /// The candidate-prime bound: the integer square root of the value,
    /// rejected explicitly when it does not fit a machine word.
    pub fn sqrt_to_u64(&self) -> (r: Option<u64>)
        requires
            self.wf(),
        ensures
            match r {
                Some(b) => (b as nat) * (b as nat) <= self.val() && self.val() < ((b as nat) + 1)
                    * ((b as nat) + 1),
                None => self.val() > (u64::MAX as nat) * (u64::MAX as nat),
            },
    {
        let root = self.sqrt();
        match root.to_u64() {
            Some(b) => Some(b),
            None => {
                proof {
                    lemma_mul_inequality(
                        u64::MAX as int + 1,
                        root.val() as int,
                        root.val() as int,
                    );
                    lemma_mul_inequality(u64::MAX as int, u64::MAX as int + 1, u64::MAX as int);
                }
                None
            },
        }
    }
}

/// Appending one more factor on the right of a power.
pub proof fn lemma_npow_unfold_right(b: nat, e: nat)
    ensures
        npow(b, e + 1) == npow(b, e) * b,
{
    assert(npow(b, e + 1) == b * npow(b, e));
    assert(b * npow(b, e) == npow(b, e) * b) by (nonlinear_arith);
}

} // verus!
