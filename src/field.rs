//! Elements of the BN254 scalar field.
//!
//! An element is held as its canonical 32-byte little-endian encoding, and
//! its meaning in contracts is the integer that the bytes encode, always
//! below the field's order. The arithmetic itself is done by `halo2curves`.
use halo2curves::bn256::Fr;
use halo2curves::ff::Field;
use vstd::prelude::*;

verus! {

/// The order of the BN254 scalar field.
pub open spec fn modulus() -> nat {
    21888242871839275222246405745257275088548364400416034343698204186575808495617nat
}

/// The integer encoded by a little-endian byte string.
pub open spec fn le_value(s: Seq<u8>) -> nat
    decreases s.len(),
{
    if s.len() == 0 {
        0
    } else {
        s[0] as nat + 256 * le_value(s.drop_first())
    }
}

/// `y` is an inverse of `x` in the field.
pub open spec fn inverts(x: nat, y: nat) -> bool {
    (x * y) % modulus() == 1
}

/// The multiplicative inverse of `x` in the field, and zero for zero.
pub open spec fn inverse_of(x: nat) -> nat {
    if x % modulus() == 0 {
        0
    } else {
        choose|y: nat| y < modulus() && #[trigger] inverts(x, y)
    }
}

/// `a + b` in the field, for values below the order.
#[verifier::opaque]
pub open spec fn f_add(a: nat, b: nat) -> nat {
    (a + b) % modulus()
}

/// `a - b` in the field, for values below the order.
#[verifier::opaque]
pub open spec fn f_sub(a: nat, b: nat) -> nat {
    ((a + modulus()) - b) as nat % modulus()
}

/// `a * b` in the field.
#[verifier::opaque]
pub open spec fn f_mul(a: nat, b: nat) -> nat {
    (a * b) % modulus()
}

/// A field element.
#[derive(Clone, Copy, Debug, PartialEq, Eq)]
pub struct Fe {
    bytes: [u8; 32],
}

impl Fe {
    /// The bytes are the canonical encoding of an element.
    #[verifier::type_invariant]
    spec fn canonical(&self) -> bool {
        le_value(self.bytes@) < modulus()
    }

}

impl View for Fe {
    type V = nat;

    closed spec fn view(&self) -> nat {
        le_value(self.bytes@)
    }
}

/// Relies on `Fr::from(u64)` of halo2curves: embeds the integer unchanged,
/// as it is below the field's order.
#[verifier::external_body]
fn fr_from_u64(x: u64) -> (r: Fe)
    ensures
        r@ == x as nat,
{
    Fe { bytes: Fr::from(x).to_bytes() }
}

/// Relies on `Add` for halo2curves' `Fr`: addition modulo the field's order.
#[verifier::external_body]
fn fr_add(a: &Fe, b: &Fe) -> (r: Fe)
    ensures
        r@ == (a@ + b@) % modulus(),
{
    let x = Fr::from_bytes(&a.bytes).unwrap();
    let y = Fr::from_bytes(&b.bytes).unwrap();
    Fe { bytes: (x + y).to_bytes() }
}

/// Relies on `Sub` for halo2curves' `Fr`: subtraction modulo the field's order.
#[verifier::external_body]
fn fr_sub(a: &Fe, b: &Fe) -> (r: Fe)
    ensures
        r@ == ((a@ + modulus()) - b@) as nat % modulus(),
{
    let x = Fr::from_bytes(&a.bytes).unwrap();
    let y = Fr::from_bytes(&b.bytes).unwrap();
    Fe { bytes: (x - y).to_bytes() }
}

/// Relies on `Mul` for halo2curves' `Fr`: multiplication modulo the field's order.
#[verifier::external_body]
fn fr_mul(a: &Fe, b: &Fe) -> (r: Fe)
    ensures
        r@ == (a@ * b@) % modulus(),
{
    let x = Fr::from_bytes(&a.bytes).unwrap();
    let y = Fr::from_bytes(&b.bytes).unwrap();
    Fe { bytes: (x * y).to_bytes() }
}

/// Relies on `Field::invert` of halo2curves' `Fr`: no inverse for zero, and
/// otherwise the unique `y` below the order with `x * y = 1`.
#[verifier::external_body]
fn fr_invert(a: &Fe) -> (r: Option<Fe>)
    ensures
        a@ == 0 ==> r.is_none(),
        a@ != 0 ==> r.is_some() && r.unwrap()@ == inverse_of(a@) && inverts(a@, r.unwrap()@),
{
    let x = Fr::from_bytes(&a.bytes).unwrap();
    match Option::<Fr>::from(x.invert()) {
        Some(y) => Some(Fe { bytes: y.to_bytes() }),
        None => None,
    }
}

/// Relies on `Field::is_zero` of halo2curves' `Fr`.
#[verifier::external_body]
fn fr_is_zero(a: &Fe) -> (r: bool)
    ensures
        r == (a@ == 0),
{
    bool::from(Fr::from_bytes(&a.bytes).unwrap().is_zero())
}

/// Below the order, `a - b` vanishes exactly when `a == b`.
pub proof fn lemma_sub_zero(a: nat, b: nat)
    requires
        a < modulus(),
        b < modulus(),
    ensures
        (f_sub(a, b) == 0) == (a == b),
{
    reveal(f_sub);
    if a >= b {
        vstd::arithmetic::div_mod::lemma_mod_add_multiples_vanish((a - b) as int, modulus() as int);
        vstd::arithmetic::div_mod::lemma_small_mod((a - b) as nat, modulus());
        assert(((a + modulus()) - b) as nat == modulus() + (a - b));
    } else {
        vstd::arithmetic::div_mod::lemma_small_mod(((a + modulus()) - b) as nat, modulus());
    }
}

impl Fe {
    /// Whether two elements are equal.
    pub fn equals(&self, o: &Fe) -> (r: bool)
        ensures
            r == (self@ == o@),
    {
        proof {
            use_type_invariant(self);
            use_type_invariant(o);
            lemma_sub_zero(self@, o@);
        }
        let d = fr_sub(self, o);
        fr_is_zero(&d)
    }

    /// The element `x`.
    pub fn from_u64(x: u64) -> (r: Fe)
        ensures
            r@ == x as nat,
    {
        fr_from_u64(x)
    }

    pub fn zero() -> (r: Fe)
        ensures
            r@ == 0,
    {
        fr_from_u64(0)
    }

    pub fn one() -> (r: Fe)
        ensures
            r@ == 1,
    {
        fr_from_u64(1)
    }

    /// The canonical little-endian encoding.
    pub fn to_bytes(&self) -> (r: [u8; 32])
        ensures
            le_value(r@) == self@,
    {
        self.bytes
    }

    pub fn add(&self, o: &Fe) -> (r: Fe)
        ensures
            r@ == f_add(self@, o@),
    {
        reveal(f_add);
        fr_add(self, o)
    }

    pub fn sub(&self, o: &Fe) -> (r: Fe)
        ensures
            r@ == f_sub(self@, o@),
    {
        reveal(f_sub);
        fr_sub(self, o)
    }

    pub fn mul(&self, o: &Fe) -> (r: Fe)
        ensures
            r@ == f_mul(self@, o@),
    {
        reveal(f_mul);
        fr_mul(self, o)
    }

    pub fn is_zero(&self) -> (r: bool)
        ensures
            r == (self@ == 0),
    {
        fr_is_zero(self)
    }

    /// The inverse of a nonzero element, and zero for zero.
    pub fn invert_or_zero(&self) -> (r: Fe)
        ensures
            r@ == inverse_of(self@),
            self@ != 0 ==> inverts(self@, r@),
    {
        match fr_invert(self) {
            Some(y) => y,
            None => {
                proof {
                    assert(self@ % modulus() == 0);
                }
                Fe::zero()
            },
        }
    }
}

} // verus!
