//! Field elements held as two 128-bit halves.

use vstd::prelude::*;
use num_bigint::BigUint;

verus! {

/// 2^128, the weight of the upper half.
pub open spec fn half_base() -> nat {
    u128::MAX as nat + 1
}

/// 2^256, one past the largest value a `FieldElement` can hold.
pub open spec fn capacity() -> nat {
    half_base() * half_base()
}

/// Upper half of the prime modulus of the field.
pub const MODULUS_HI: u128 = 64323764613183177041862057485226039389;

/// Lower half of the prime modulus of the field.
pub const MODULUS_LO: u128 = 201385395114098847380338600778089168199;

/// The prime modulus `P` of the field.
pub open spec fn modulus() -> nat {
    MODULUS_HI as nat * half_base() + MODULUS_LO as nat
}

/// A non-negative integer below 2^256; field elements proper are those below
/// `modulus()`.
#[derive(Clone, Copy, Debug, PartialEq, Eq, Structural)]
pub struct FieldElement {
    pub hi: u128,
    pub lo: u128,
}

impl FieldElement {
    /// The integer this element stands for.
    pub open spec fn value(self) -> nat {
        self.hi as nat * half_base() + self.lo as nat
    }

    pub fn from_halves(hi: u128, lo: u128) -> (r: FieldElement)
        ensures
            r.hi == hi,
            r.lo == lo,
            r.value() == hi as nat * half_base() + lo as nat,
    {
        FieldElement { hi, lo }
    }

    pub fn from_u32(x: u32) -> (r: FieldElement)
        ensures
            r == (FieldElement { hi: 0, lo: x as u128 }),
            r.value() == x as nat,
    {
        FieldElement { hi: 0, lo: x as u128 }
    }

    pub fn from_u64(x: u64) -> (r: FieldElement)
        ensures
            r == (FieldElement { hi: 0, lo: x as u128 }),
            r.value() == x as nat,
    {
        FieldElement { hi: 0, lo: x as u128 }
    }

    pub fn zero() -> (r: FieldElement)
        ensures
            r.hi == 0 && r.lo == 0,
            r.value() == 0,
    {
        FieldElement { hi: 0, lo: 0 }
    }

    /// The prime modulus itself (which is not a field element).
    pub fn modulus() -> (r: FieldElement)
        ensures
            r.value() == modulus(),
    {
        FieldElement { hi: MODULUS_HI, lo: MODULUS_LO }
    }

    pub fn lt(&self, other: &FieldElement) -> (r: bool)
        ensures
            r == (self.value() < other.value()),
    {
        proof {
            lemma_order(*self, *other);
        }
        self.hi < other.hi || (self.hi == other.hi && self.lo < other.lo)
    }

    pub fn le(&self, other: &FieldElement) -> (r: bool)
        ensures
            r == (self.value() <= other.value()),
    {
        !other.lt(self)
    }

    /// Whether this value is a field element, that is below the modulus.
    pub fn in_field(&self) -> (r: bool)
        ensures
            r == (self.value() < modulus()),
    {
        self.lt(&FieldElement::modulus())
    }

    /// The predecessor of a positive value.
    pub fn minus_one(&self) -> (r: FieldElement)
        requires
            self.value() > 0,
        ensures
            r.value() == self.value() - 1,
    {
        if self.lo > 0 {
            FieldElement { hi: self.hi, lo: self.lo - 1 }
        } else {
            proof {
                if self.hi == 0 {
                    assert(self.hi as nat * half_base() == 0);
                }
                let h = (self.hi - 1) as nat;
                assert(self.hi as nat * half_base() == h * half_base() + half_base())
                    by (nonlinear_arith)
                    requires h == self.hi - 1;
            }
            FieldElement { hi: (self.hi - 1) as u128, lo: u128::MAX }
        }
    }

    /// The sum of two values whose sum still fits.
    pub fn plus(&self, other: &FieldElement) -> (r: FieldElement)
        requires
            self.value() + other.value() < capacity(),
        ensures
            r.value() == self.value() + other.value(),
    {
        if self.lo <= u128::MAX - other.lo {
            proof {
                let h = self.hi as nat + other.hi as nat;
                assert(self.value() + other.value() == h * half_base() + self.lo + other.lo)
                    by (nonlinear_arith)
                    requires h == self.hi as nat + other.hi as nat;
                lemma_half_bound(h, self.lo as nat + other.lo as nat);
            }
            FieldElement { hi: self.hi + other.hi, lo: self.lo + other.lo }
        } else {
            let lo: u128 = self.lo - (u128::MAX - other.lo) - 1;
            proof {
                let h = self.hi as nat + other.hi as nat;
                assert(self.value() + other.value() == h * half_base() + self.lo + other.lo)
                    by (nonlinear_arith)
                    requires h == self.hi as nat + other.hi as nat;
                assert(h * half_base() + self.lo + other.lo == (h + 1) * half_base() + lo)
                    by (nonlinear_arith)
                    requires lo == self.lo + other.lo - half_base();
                lemma_half_bound(h + 1, lo as nat);
            }
            FieldElement { hi: self.hi + other.hi + 1, lo }
        }
    }
}

/// Reduction to the lowest 32 bits.
pub trait ToU32 {
    /// The value `to_u32` returns.
    spec fn low_u32(&self) -> u32;

    fn to_u32(&self) -> (r: u32)
        ensures
            r == self.low_u32(),
    ;
}

impl ToU32 for FieldElement {
    open spec fn low_u32(&self) -> u32 {
        (self.value() % 0x1_0000_0000) as u32
    }

    fn to_u32(&self) -> (r: u32) {
        proof {
            let m: int = 0x1_0000_0000;
            let a: int = self.hi as int * 0x1_0000_0000_0000_0000_0000_0000;
            assert(self.value() == m * a + self.lo) by (nonlinear_arith)
                requires
                    m == 0x1_0000_0000,
                    a == self.hi as int * 0x1_0000_0000_0000_0000_0000_0000,
                    self.value() == self.hi as nat * half_base() + self.lo as nat,
                    half_base() == 0x1_0000_0000_0000_0000_0000_0000_0000_0000;
            vstd::arithmetic::div_mod::lemma_mod_multiples_vanish(a, self.lo as int, m);
        }
        (self.lo % 0x1_0000_0000) as u32
    }
}

impl Default for FieldElement {
    fn default() -> (r: FieldElement)
        ensures
            r.hi == 0 && r.lo == 0,
    {
        FieldElement { hi: 0, lo: 0 }
    }
}

/// Comparing two elements half by half agrees with comparing their values.
pub proof fn lemma_order(a: FieldElement, b: FieldElement)
    ensures
        (a.value() < b.value()) == (a.hi < b.hi || (a.hi == b.hi && a.lo < b.lo)),
        (a.value() == b.value()) == (a == b),
{
    if a.hi < b.hi {
        assert(a.hi as nat * half_base() + half_base() <= b.hi as nat * half_base())
            by (nonlinear_arith)
            requires a.hi < b.hi;
    } else if b.hi < a.hi {
        assert(b.hi as nat * half_base() + half_base() <= a.hi as nat * half_base())
            by (nonlinear_arith)
            requires b.hi < a.hi;
    }
}

/// A sum of halves whose value fits keeps its upper half in range.
proof fn lemma_half_bound(hi: nat, lo: nat)
    requires
        hi * half_base() + lo < capacity(),
    ensures
        hi < half_base(),
{
    if hi >= half_base() {
        assert(hi * half_base() >= half_base() * half_base()) by (nonlinear_arith)
            requires hi >= half_base();
    }
}

/// The lower-case hexadecimal digit for `d < 16`.
pub open spec fn hex_char(d: nat) -> char {
    seq!['0', '1', '2', '3', '4', '5', '6', '7', '8', '9', 'a', 'b', 'c', 'd', 'e', 'f'][d as int]
}

/// The lower-case hexadecimal digits of `n`, most significant first, with no
/// leading zero (but `"0"` for zero).
pub open spec fn hex_digits(n: nat) -> Seq<char>
    decreases n,
{
    if n < 16 {
        seq![hex_char(n)]
    } else {
        hex_digits(n / 16).push(hex_char(n % 16))
    }
}

/// The hexadecimal digits of `n`, zero-padded on the left to at least eight.
pub open spec fn hex8(n: nat) -> Seq<char> {
    let d = hex_digits(n);
    if d.len() < 8 {
        Seq::new((8 - d.len()) as nat, |_i: int| '0') + d
    } else {
        d
    }
}

/// Relies on num-bigint's `LowerHex` for `BigUint`, through `{:08x}`: the
/// lower-case hexadecimal digits of the value, zero-padded to width eight,
/// with no prefix; and on `BigUint::from_bytes_le` reading bytes least
/// significant first.
#[verifier::external_body]
pub(crate) fn hex_padded(x: &FieldElement) -> (r: String)
    ensures
        r@ == hex8(x.value()),
{
    let mut bytes = x.lo.to_le_bytes().to_vec();
    bytes.extend_from_slice(&x.hi.to_le_bytes());
    format!("{:08x}", BigUint::from_bytes_le(&bytes))
}

} // verus!
