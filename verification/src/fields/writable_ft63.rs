use vstd::prelude::*;
use vstd::arithmetic::div_mod::*;
use vstd::arithmetic::mul::*;

use crate::fields::byte_math::{
    le_bytes_to_u64, le_to_nat, lemma_le_of_nat_to_le, lemma_le_to_nat_bound, lemma_nat_to_le_of_le, lemma_pow256_values,
    nat_to_le, pow256, u64_to_le_bytes,
};
use crate::fields::data_field::{num_chunks, padded_chunk, ByteOrder, DataField};
use crate::fields::FieldErr;

verus! {

/// The prime modulus of the field.
pub const MODULUS: u64 = 5102708120182849537;

/// 2^64 reduced modulo the prime: the Montgomery factor R.
pub const MONT_R: u64 = 3138619713161003005;

/// The inverse of R modulo the prime.
pub const MONT_R_INV: u64 = 1411502759280377856;

/// Number of limbs of the internal representation.
pub const U64_WIDTH: usize = 1;

/// Number of bytes in the internal representation.
pub const U8_WIDTH: usize = 8;

/// Number of bits of the modulus.
pub const NUM_BITS: u32 = 63;

/// Number of bits that any value below the modulus can hold.
pub const CAPACITY: u32 = 62;

/// Number of data bytes one element carries.
pub const BYTE_CAPACITY: u32 = 7;

/// The modulus as a mathematical number.
pub open spec fn p() -> nat {
    MODULUS as nat
}

/// R^-1 modulo p as a mathematical number.
pub open spec fn rinv() -> nat {
    MONT_R_INV as nat
}

/// R modulo p as a mathematical number.
pub open spec fn rmod() -> nat {
    MONT_R as nat
}

/// The field value (in `0..p`) that the Montgomery representation `repr` stands for.
#[verifier::opaque]
pub open spec fn mont_value(repr: nat) -> nat {
    (repr * rinv()) % p()
}

/// An element of the 63-bit prime field, stored in Montgomery form: the limb `m`
/// stands for the field value `m * R^-1 mod p`.  Its low 7 bytes carry data.
#[derive(Clone, Copy, Debug, PartialEq, Eq, Structural, Hash)]
pub struct WriteableFt63(u64);

pub proof fn lemma_mont_constants()
    ensures
        (rmod() * rinv()) % p() == 1,
        MODULUS < 0x8000000000000000,
        MONT_R < MODULUS,
        MONT_R_INV < MODULUS,
{
    assert(rmod() * rinv() == 868199842341715967 * p() + 1) by (nonlinear_arith);
    lemma_fundamental_div_mod_converse_mod(
        (rmod() * rinv()) as int,
        p() as int,
        868199842341715967,
        1,
    );
}


/// Values are reduced.
pub proof fn lemma_mont_value_bound(r: nat)
    ensures
        mont_value(r) < p(),
{
    reveal(mont_value);
    lemma_mod_bound((r * rinv()) as int, p() as int);
}

/// Multiplying Montgomery representations and dividing by R multiplies values.
pub proof fn lemma_mont_mul_value(a: nat, b: nat)
    ensures
        mont_value(((a * b) % p() * rinv()) % p()) == (mont_value(a) * mont_value(b)) % p(),
{
    reveal(mont_value);
    let m = p() as int;
    let ri = rinv() as int;
    let ab = (a * b) as int;
    lemma_mul_mod_noop_left(ab, ri, m);
    let t = ((ab % m) * ri) % m;
    assert(t == (ab * ri) % m);
    lemma_mul_mod_noop_left(ab * ri, ri, m);
    assert((t * ri) % m == (ab * ri * ri) % m);
    lemma_mul_mod_noop((a * ri) as int, (b * ri) as int, m);
    assert(ab * ri * ri == (a * ri) * (b * ri)) by (nonlinear_arith)
        requires
            ab == a * b,
    ;
}

/// Adding Montgomery representations adds values.
pub proof fn lemma_mont_add_value(a: nat, b: nat)
    ensures
        mont_value((a + b) % p()) == (mont_value(a) + mont_value(b)) % p(),
{
    reveal(mont_value);
    let m = p() as int;
    let ri = rinv() as int;
    lemma_mul_mod_noop_left((a + b) as int, ri, m);
    assert((a + b) * ri == a * ri + b * ri) by (nonlinear_arith);
    lemma_add_mod_noop((a * ri) as int, (b * ri) as int, m);
}

/// Multiplying a value by R gives a Montgomery representation of that value.
pub proof fn lemma_to_mont_value(v: nat)
    ensures
        mont_value((v * rmod()) % p()) == v % p(),
{
    reveal(mont_value);
    let m = p() as int;
    lemma_mont_constants();
    lemma_mul_mod_noop_left((v * rmod()) as int, rinv() as int, m);
    assert(v * rmod() * rinv() == v * (rmod() * rinv())) by (nonlinear_arith);
    lemma_mul_mod_noop_right(v as int, (rmod() * rinv()) as int, m);
}

/// A reduced Montgomery representation is determined by the value it stands for.
pub proof fn lemma_mont_value_injective(a: nat, b: nat)
    requires
        a < p(),
        b < p(),
        mont_value(a) == mont_value(b),
    ensures
        a == b,
{
    lemma_from_mont_value(a);
    lemma_from_mont_value(b);
}

/// A reduced representation is R times its value.
pub proof fn lemma_from_mont_value(a: nat)
    requires
        a < p(),
    ensures
        (mont_value(a) * rmod()) % p() == a,
{
    reveal(mont_value);
    let m = p() as int;
    lemma_mont_constants();
    lemma_mul_mod_noop_left((a * rinv()) as int, rmod() as int, m);
    assert(a * rinv() * rmod() == a * (rmod() * rinv())) by (nonlinear_arith);
    lemma_mul_mod_noop_right(a as int, (rmod() * rinv()) as int, m);
    lemma_small_mod(a, p());
}

/// Subtracting reduced Montgomery representations subtracts values.
pub proof fn lemma_mont_sub_value(a: nat, b: nat)
    ensures
        mont_value(((a % p()) + p() - (b % p())) as nat % p())
            == ((mont_value(a) + p()) - mont_value(b)) as nat % p(),
{
    reveal(mont_value);
    let m = p() as int;
    let ri = rinv() as int;
    let ai = a as int;
    let bi = b as int;
    let aa = ai % m;
    let bb = bi % m;
    lemma_mod_bound(ai, m);
    lemma_mod_bound(bi, m);
    let d = aa + m - bb;
    lemma_mod_bound(d, m);
    lemma_mul_mod_noop_left(d, ri, m);
    assert(d * ri == m * ri + (aa * ri - bb * ri)) by (nonlinear_arith)
        requires
            d == aa + m - bb,
    ;
    lemma_mod_multiples_vanish(ri, aa * ri - bb * ri, m);
    lemma_sub_mod_noop(aa * ri, bb * ri, m);
    let va = (aa * ri) % m;
    let vb = (bb * ri) % m;
    lemma_mul_mod_noop_left(ai, ri, m);
    lemma_mul_mod_noop_left(bi, ri, m);
    assert(va == mont_value(a));
    assert(vb == mont_value(b));
    lemma_mod_multiples_vanish(1, va - vb, m);
    assert(va + m - vb == m * 1 + (va - vb));
}

/// The field value of `b^e`.
pub open spec fn field_pow(b: nat, e: nat) -> nat
    decreases e,
{
    if e == 0 {
        1
    } else {
        (b * field_pow(b, (e - 1) as nat)) % p()
    }
}

proof fn lemma_field_pow_square(b: nat, k: nat)
    requires
        b < p(),
    ensures
        field_pow((b * b) % p(), k) == field_pow(b, 2 * k),
    decreases k,
{
    let m = p() as int;
    if k > 0 {
        lemma_field_pow_square(b, (k - 1) as nat);
        let f = field_pow(b, (2 * k - 2) as nat) as int;
        let bi = b as int;
        assert(field_pow(b, (2 * k - 1) as nat) == (bi * f) % m);
        assert(field_pow(b, 2 * k) == (bi * ((bi * f) % m)) % m);
        lemma_mul_mod_noop_right(bi, bi * f, m);
        lemma_mul_mod_noop_left(bi * bi, f, m);
        assert(bi * (bi * f) == (bi * bi) * f) by (nonlinear_arith);
    }
}

proof fn lemma_field_pow_bound(b: nat, e: nat)
    ensures
        field_pow(b, e) < p(),
{
    if e > 0 {
        lemma_mod_bound((b * field_pow(b, (e - 1) as nat)) as int, p() as int);
    }
}

proof fn lemma_pow_step(rv: nat, bv: nat, e: nat)
    requires
        bv < p(),
        e > 0,
    ensures
        e % 2 == 1 ==> ((rv * bv) % p() * field_pow((bv * bv) % p(), e / 2)) % p() == (rv
            * field_pow(bv, e)) % p(),
        e % 2 == 0 ==> (rv * field_pow((bv * bv) % p(), e / 2)) % p() == (rv * field_pow(bv, e))
            % p(),
{
    let k = e / 2;
    lemma_field_pow_square(bv, k);
    if e % 2 == 1 {
        let m = p() as int;
        let f = field_pow((bv * bv) % p(), k) as int;
        assert(e == 2 * k + 1);
        assert(field_pow(bv, e) == (bv * field_pow(bv, 2 * k)) % p());
        lemma_mul_mod_noop_right(rv as int, (bv * f) as int, m);
        lemma_mul_mod_noop_left((rv * bv) as int, f, m);
        assert(rv * (bv * f) == (rv * bv) * f) by (nonlinear_arith);
    } else {
        assert(e == 2 * k);
    }
}

impl WriteableFt63 {
    /// The Montgomery representation held by this element.
    pub closed spec fn repr(self) -> nat {
        self.0 as nat
    }

    /// The field value this element stands for, in `0..p`.
    pub open spec fn value(self) -> nat {
        mont_value(self.repr())
    }

    /// Whether the representation is reduced below the modulus.
    pub open spec fn canonical(self) -> bool {
        self.repr() < p()
    }

    /// Two reduced elements with the same value are the same element.
    pub proof fn lemma_eq_from_value(a: Self, b: Self)
        requires
            a.canonical(),
            b.canonical(),
            a.value() == b.value(),
        ensures
            a == b,
    {
        lemma_mont_value_injective(a.repr(), b.repr());
    }

    /// The reduced element with value `v` (for `v` below the modulus).
    pub closed spec fn spec_from_canonical(v: nat) -> Self {
        WriteableFt63(((v * rmod()) % p()) as u64)
    }

    /// The reduced element with value `v` is reduced and has value `v`.
    pub proof fn lemma_spec_from_canonical(v: nat)
        requires
            v < p(),
        ensures
            Self::spec_from_canonical(v).value() == v,
            Self::spec_from_canonical(v).canonical(),
    {
        lemma_mont_constants();
        lemma_to_mont_value(v);
        lemma_mod_bound((v * rmod()) as int, p() as int);
        lemma_small_mod(v, p());
    }

    /// A reduced element is the reduced element of its value.
    pub proof fn lemma_canonical_is_from_value(x: Self)
        requires
            x.canonical(),
        ensures
            x == Self::spec_from_canonical(x.value()),
    {
        lemma_mont_value_bound(x.repr());
        Self::lemma_spec_from_canonical(x.value());
        Self::lemma_eq_from_value(x, Self::spec_from_canonical(x.value()));
    }

    /// The additive identity.
    pub closed spec fn spec_zero() -> Self {
        WriteableFt63(0)
    }

    /// Elements with the same representation are the same element.
    pub proof fn lemma_eq_from_repr(a: Self, b: Self)
        requires
            a.repr() == b.repr(),
        ensures
            a == b,
    {
    }

    /// The additive identity is reduced and has value zero.
    pub proof fn lemma_spec_zero()
        ensures
            Self::spec_zero().value() == 0,
            Self::spec_zero().canonical(),
            Self::spec_zero().repr() == 0,
    {
        reveal(mont_value);
        assert(0nat * rinv() == 0);
        lemma_small_mod(0, p());
    }

    /// The additive identity.
    pub fn zero() -> (r: Self)
        ensures
            r == Self::spec_zero(),
            r.value() == 0,
            r.canonical(),
    {
        proof {
            Self::lemma_spec_zero();
        }
        WriteableFt63(0)
    }

    /// The multiplicative identity.
    pub fn one() -> (r: Self)
        ensures
            r.value() == 1,
            r.canonical(),
    {
        proof {
            lemma_from_mont_value(1);
            lemma_to_mont_value(1);
            lemma_mont_constants();
            lemma_small_mod(rmod(), p());
            lemma_small_mod(1, p());
        }
        WriteableFt63(MONT_R)
    }

    /// Builds an element from its raw Montgomery limbs, refusing limbs that are not
    /// reduced below the modulus.
    pub fn from_u64_array(input: [u64; U64_WIDTH]) -> (r: Result<Self, FieldErr>)
        ensures
            (r is Ok) <==> input[0] < MODULUS,
            r matches Ok(x) ==> x.repr() == input[0] as nat,
            r matches Err(e) ==> e == FieldErr::InvalidFieldElement,
    {
        let ret = WriteableFt63(input[0]);
        if ret.is_valid() {
            Ok(ret)
        } else {
            Err(FieldErr::InvalidFieldElement)
        }
    }

    /// The raw Montgomery limbs of this element.
    pub fn to_u64_array(&self) -> (r: [u64; U64_WIDTH])
        ensures
            r[0] as nat == self.repr(),
    {
        [self.0]
    }

    /// Whether the limb is reduced below the modulus.
    pub fn is_valid(&self) -> (r: bool)
        ensures
            r == self.canonical(),
    {
        self.0 < MODULUS
    }

    /// The element whose value is `v mod p`.
    pub fn from_u64(v: u64) -> (r: Self)
        ensures
            r.value() == v as nat % p(),
            r.canonical(),
    {
        proof {
            lemma_mont_constants();
            lemma_to_mont_value(v as nat);
            lemma_mul_mod_noop_left(v as int, rmod() as int, p() as int);
        }
        let reduced = (v % MODULUS) as u128;
        let m = (reduced * (MONT_R as u128)) % (MODULUS as u128);
        proof {
            assert(reduced * (MONT_R as u128) < 0x100000000000000000000000000000000) by (nonlinear_arith)
                requires reduced < MODULUS, MONT_R < MODULUS, MODULUS < 0x8000000000000000u64;
        }
        WriteableFt63(m as u64)
    }

    /// The element whose value is `v mod p`.
    pub fn from_u128(v: u128) -> (r: Self)
        ensures
            r.value() == v as nat % p(),
            r.canonical(),
    {
        proof {
            lemma_mont_constants();
            lemma_to_mont_value(v as nat);
            lemma_mul_mod_noop_left(v as int, rmod() as int, p() as int);
        }
        let reduced = v % (MODULUS as u128);
        proof {
            assert(reduced * (MONT_R as u128) < 0x100000000000000000000000000000000) by (nonlinear_arith)
                requires reduced < MODULUS, MONT_R < MODULUS, MODULUS < 0x8000000000000000u64;
        }
        let m = (reduced * (MONT_R as u128)) % (MODULUS as u128);
        WriteableFt63(m as u64)
    }

    /// Field addition.
    pub fn add(&self, other: &Self) -> (r: Self)
        ensures
            r.value() == (self.value() + other.value()) % p(),
            r.canonical(),
    {
        proof {
            lemma_mont_add_value(self.repr(), other.repr());
        }
        let s = ((self.0 as u128) + (other.0 as u128)) % (MODULUS as u128);
        WriteableFt63(s as u64)
    }

    /// Field subtraction.
    pub fn sub(&self, other: &Self) -> (r: Self)
        ensures
            r.value() == ((self.value() + p()) - other.value()) as nat % p(),
            r.canonical(),
    {
        proof {
            lemma_mont_sub_value(self.repr(), other.repr());
        }
        let a = (self.0 % MODULUS) as u128;
        let b = (other.0 % MODULUS) as u128;
        let s = (a + (MODULUS as u128) - b) % (MODULUS as u128);
        WriteableFt63(s as u64)
    }

    /// Additive inverse.
    pub fn neg(&self) -> (r: Self)
        ensures
            r.value() == (p() - self.value()) as nat % p(),
            r.canonical(),
    {
        let z = Self::zero();
        let r = z.sub(self);
        r
    }

    /// Field multiplication.
    pub fn mul(&self, other: &Self) -> (r: Self)
        ensures
            r.value() == (self.value() * other.value()) % p(),
            r.canonical(),
    {
        proof {
            lemma_mont_mul_value(self.repr(), other.repr());
            lemma_mont_constants();
        }
        let x = self.0 as u128;
        let y = other.0 as u128;
        proof {
            assert(x * y < 0x100000000000000000000000000000000) by (nonlinear_arith)
                requires
                    x < 0x10000000000000000u128,
                    y < 0x10000000000000000u128,
            ;
        }
        let prod = (x * y) % (MODULUS as u128);
        proof {
            assert(prod * (MONT_R_INV as u128) < 0x100000000000000000000000000000000) by (nonlinear_arith)
                requires prod < MODULUS, MONT_R_INV < MODULUS, MODULUS < 0x8000000000000000u64;
        }
        let m = (prod * (MONT_R_INV as u128)) % (MODULUS as u128);
        WriteableFt63(m as u64)
    }

    /// Field squaring.
    pub fn square(&self) -> (r: Self)
        ensures
            r.value() == (self.value() * self.value()) % p(),
            r.canonical(),
    {
        self.mul(self)
    }

    /// Exponentiation by square-and-multiply.
    #[verifier::spinoff_prover]
    #[verifier::rlimit(40)]
    pub fn pow(&self, exp: u64) -> (r: Self)
        ensures
            r.value() == field_pow(self.value(), exp as nat),
            r.canonical(),
    {
        let mut result = Self::one();
        let mut base = *self;
        let mut e = exp;
        let ghost b0 = self.value();
        proof {
            lemma_mont_value_bound(self.repr());
            lemma_field_pow_bound(b0, exp as nat);
            lemma_small_mod(field_pow(b0, exp as nat), p());
        }
        while e > 0
            invariant
                (result.value() * field_pow(base.value(), e as nat)) % p() == field_pow(
                    b0,
                    exp as nat,
                ),
                base.value() < p(),
                result.value() < p(),
                result.canonical(),
            decreases e,
        {
            let ghost bv = base.value();
            let ghost rv = result.value();
            proof {
                lemma_pow_step(rv, bv, e as nat);
            }
            if e % 2 == 1 {
                result = result.mul(&base);
            }
            base = base.square();
            e = e / 2;
            proof {
                lemma_mont_value_bound(base.repr());
                lemma_mont_value_bound(result.repr());
            }
        }
        proof {
            assert(field_pow(base.value(), 0) == 1);
            assert(result.value() * 1 == result.value());
            lemma_small_mod(result.value(), p());
        }
        result
    }

    /// The value of this element as a machine word in `0..p`.
    pub fn to_canonical_u64(&self) -> (r: u64)
        ensures
            r as nat == self.value(),
    {
        proof {
            reveal(mont_value);
            lemma_mont_constants();
        }
        let x = (self.0 % MODULUS) as u128;
        proof {
            lemma_mul_mod_noop_left(self.repr() as int, rinv() as int, p() as int);
            assert(x * (MONT_R_INV as u128) < 0x100000000000000000000000000000000) by (nonlinear_arith)
                requires x < MODULUS, MONT_R_INV < MODULUS, MODULUS < 0x8000000000000000u64;
        }
        ((x * (MONT_R_INV as u128)) % (MODULUS as u128)) as u64
    }

    /// The element with value `v`, for `v` already below the modulus.
    pub(crate) fn from_canonical_u64(v: u64) -> (r: Self)
        requires
            v < MODULUS,
        ensures
            r.value() == v as nat,
            r.canonical(),
            r == Self::spec_from_canonical(v as nat),
    {
        let r = Self::from_u64(v);
        proof {
            lemma_small_mod(v as nat, p());
            Self::lemma_canonical_is_from_value(r);
        }
        r
    }

    /// The 8 little-endian bytes of this element's value (its canonical encoding).
    pub fn to_repr(&self) -> (r: Vec<u8>)
        ensures
            r@ == nat_to_le(self.value(), 8),
    {
        let v = self.to_canonical_u64();
        u64_to_le_bytes(v, 8)
    }

    /// Reads an element from its canonical encoding; `None` when the encoded number
    /// is not below the modulus.
    pub fn from_repr(bytes: &[u8]) -> (r: Option<Self>)
        requires
            bytes@.len() == 8,
        ensures
            (r is Some) <==> le_to_nat(bytes@) < p(),
            r matches Some(x) ==> x.value() == le_to_nat(bytes@) && x.canonical(),
    {
        let v = le_bytes_to_u64(bytes);
        if v < MODULUS {
            Some(Self::from_canonical_u64(v))
        } else {
            None
        }
    }

    /// An element made from data bytes is reduced.
    pub proof fn lemma_data_element_canonical(b: Seq<u8>)
        requires
            b.len() == 7,
        ensures
            <Self as DataField>::spec_from_data_bytes(b).canonical(),
            <Self as DataField>::spec_from_data_bytes(b).repr() == le_to_nat(b),
    {
        lemma_le_to_nat_bound(b);
        lemma_pow256_values();
    }

    /// The additive identity carries seven zero bytes.
    pub proof fn lemma_zero_data_bytes()
        ensures
            Self::spec_zero().spec_data_bytes() == Seq::new(7, |i: int| 0u8),
    {
        assert forall|i: int| 0 <= i < 7 implies #[trigger] nat_to_le(0, 7)[i] == 0u8 by {
            crate::fields::byte_math::lemma_pow256_pos(i as nat);
            vstd::arithmetic::div_mod::lemma_basic_div(0, pow256(i as nat) as int);
        }
        assert(Self::spec_zero().repr() == 0);
        assert(Self::spec_zero().spec_data_bytes() =~= Seq::new(7, |i: int| 0u8));
    }

    /// Writing data bytes into an element and reading them back gives the same bytes.
    pub proof fn lemma_data_bytes_roundtrip(b: Seq<u8>)
        requires
            b.len() == 7,
        ensures
            nat_to_le(le_to_nat(b), 7) == b,
    {
        lemma_nat_to_le_of_le(b);
    }
}

impl DataField for WriteableFt63 {
    open spec fn spec_data_byte_capacity() -> nat {
        7
    }

    open spec fn spec_data_bytes(self) -> Seq<u8> {
        nat_to_le(self.repr(), 7)
    }

    closed spec fn spec_from_data_bytes(b: Seq<u8>) -> Self {
        WriteableFt63(le_to_nat(b) as u64)
    }

    fn data_byte_capacity() -> (r: usize) {
        BYTE_CAPACITY as usize
    }

    fn written_bytes_width() -> (r: usize) {
        U8_WIDTH
    }

    /// Data bytes are the low bytes of the limb, least significant first.
    open spec fn spec_endianness() -> ByteOrder {
        ByteOrder::LittleEndian
    }

    fn endianness() -> (r: ByteOrder) {
        ByteOrder::LittleEndian
    }

    fn test_type_sizes_are_correct() -> (r: bool) {
        (CAPACITY / 8) as usize == 7 && BYTE_CAPACITY == CAPACITY / 8 && (BYTE_CAPACITY as usize)
            < U8_WIDTH
    }

    /// The element whose Montgomery limb is the little-endian number in `buf`;
    /// seven data bytes always give a reduced limb.
    fn from_data_bytes(buf: &[u8]) -> (r: Self)
        ensures
            r.repr() == le_to_nat(buf@),
            r.canonical(),
    {
        proof {
            lemma_le_to_nat_bound(buf@);
            lemma_pow256_values();
        }
        WriteableFt63(le_bytes_to_u64(buf))
    }

    /// The seven low little-endian bytes of the Montgomery limb.
    fn to_data_bytes(&self) -> (r: Vec<u8>) {
        u64_to_le_bytes(self.0, 7)
    }

    proof fn lemma_data_bytes_len(x: Self) {
    }

    proof fn lemma_capacity_positive() {
    }

    open spec fn spec_written_bytes_width() -> nat {
        8
    }

    proof fn lemma_width_positive() {
    }

    proof fn lemma_data_bytes_roundtrip(b: Seq<u8>) {
        lemma_le_to_nat_bound(b);
        lemma_pow256_values();
        lemma_nat_to_le_of_le(b);
    }
}


/// The canonical 8-byte encodings of the elements of `fs`, one after another.
pub open spec fn spec_raw_bytes(fs: Seq<WriteableFt63>) -> Seq<u8>
    decreases fs.len(),
{
    if fs.len() == 0 {
        Seq::empty()
    } else {
        spec_raw_bytes(fs.drop_last()) + nat_to_le(fs.last().value(), 8)
    }
}

/// Whether every group of 8 bytes of `raw` (the last one zero-padded) encodes a number
/// below the modulus.
pub open spec fn raw_bytes_valid(raw: Seq<u8>) -> bool {
    forall|i: nat| i < num_chunks(raw.len(), 8) ==> #[trigger] le_to_nat(padded_chunk(raw, i, 8)) < p()
}

/// The elements whose canonical encodings are the groups of 8 bytes of `raw`, the last
/// group zero-padded.
pub open spec fn spec_from_raw_bytes(raw: Seq<u8>) -> Seq<WriteableFt63> {
    Seq::new(
        num_chunks(raw.len(), 8),
        |i: int| WriteableFt63::spec_from_canonical(le_to_nat(padded_chunk(raw, i as nat, 8))),
    )
}

/// Writes each element as its canonical 8 bytes, one after another.
pub fn field_vec_to_raw_bytes(field_vec: &[WriteableFt63]) -> (r: Vec<u8>)
    ensures
        r@ == spec_raw_bytes(field_vec@),
{
    let mut out: Vec<u8> = Vec::new();
    let mut i: usize = 0;
    proof {
        assert(field_vec@.subrange(0, 0) =~= Seq::<WriteableFt63>::empty());
    }
    while i < field_vec.len()
        invariant
            i <= field_vec@.len(),
            out@ == spec_raw_bytes(field_vec@.subrange(0, i as int)),
        decreases field_vec.len() - i,
    {
        let mut bytes = field_vec[i].to_repr();
        out.append(&mut bytes);
        proof {
            let pre = field_vec@.subrange(0, i + 1);
            assert(pre.drop_last() =~= field_vec@.subrange(0, i as int));
        }
        i = i + 1;
    }
    proof {
        assert(field_vec@.subrange(0, field_vec@.len() as int) =~= field_vec@);
    }
    out
}

/// Reads elements back from their canonical 8-byte encodings; a last group shorter
/// than 8 bytes is zero-padded.  Every group must encode a number below the modulus.
pub fn raw_bytes_to_field_vec(raw_bytes: &[u8]) -> (r: Vec<WriteableFt63>)
    requires
        raw_bytes_valid(raw_bytes@),
    ensures
        r@ == spec_from_raw_bytes(raw_bytes@),
        forall|i: int| 0 <= i < r@.len() ==> (#[trigger] r@[i]).canonical(),
{
    let n = raw_bytes.len();
    let mut out: Vec<WriteableFt63> = Vec::new();
    let mut start: usize = 0;
    while start < n
        invariant
            n == raw_bytes@.len(),
            raw_bytes_valid(raw_bytes@),
            start <= n,
            start < n ==> start as nat == out.len() * 8,
            out.len() == num_chunks(start as nat, 8),
            forall|i: int|
                0 <= i < out.len() ==> #[trigger] out@[i] == WriteableFt63::spec_from_canonical(
                    le_to_nat(padded_chunk(raw_bytes@, i as nat, 8)),
                ) && out@[i].canonical(),
        decreases n - start,
    {
        let ghost k: nat = out.len() as nat;
        let mut chunk: Vec<u8> = Vec::new();
        let mut t: usize = 0;
        while t < 8
            invariant
                t <= 8,
                start as nat == k * 8,
                start < n,
                n == raw_bytes@.len(),
                chunk@ =~= padded_chunk(raw_bytes@, k, 8).subrange(0, t as int),
            decreases 8 - t,
        {
            if t < n - start {
                chunk.push(raw_bytes[start + t]);
            } else {
                chunk.push(0u8);
            }
            t = t + 1;
            proof {
                assert(chunk@ =~= padded_chunk(raw_bytes@, k, 8).subrange(0, t as int));
            }
        }
        proof {
            assert(chunk@ =~= padded_chunk(raw_bytes@, k, 8));
            assert(k < num_chunks(n as nat, 8)) by {
                crate::fields::data_field::lemma_num_chunks_cover(n as nat, 8);
                if k >= num_chunks(n as nat, 8) {
                    assert(k * 8 >= num_chunks(n as nat, 8) * 8) by (nonlinear_arith)
                        requires k >= num_chunks(n as nat, 8);
                }
            }
            assert(le_to_nat(padded_chunk(raw_bytes@, k, 8)) < p());
        }
        let elem = match WriteableFt63::from_repr(chunk.as_slice()) {
            Some(x) => x,
            None => {
                proof {
                    assert(false);
                }
                WriteableFt63::zero()
            },
        };
        proof {
            WriteableFt63::lemma_canonical_is_from_value(elem);
        }
        out.push(elem);
        let take = if n - start < 8 {
            n - start
        } else {
            8
        };
        proof {
            crate::fields::data_field::lemma_num_chunks_step(k, 8, take as nat);
            assert((k + 1) * 8 == k * 8 + 8) by (nonlinear_arith);
        }
        start = start + take;
    }
    proof {
        if n == 0 {
            assert(num_chunks(0, 8) == 0);
        }
        assert(out@ =~= spec_from_raw_bytes(raw_bytes@));
    }
    out
}

proof fn lemma_raw_bytes_index(fs: Seq<WriteableFt63>, i: nat, t: nat)
    requires
        i < fs.len(),
        t < 8,
    ensures
        spec_raw_bytes(fs).len() == 8 * fs.len(),
        spec_raw_bytes(fs)[(8 * i + t) as int] == nat_to_le(fs[i as int].value(), 8)[t as int],
    decreases fs.len(),
{
    let n = fs.len();
    let init = fs.drop_last();
    if i + 1 < n {
        lemma_raw_bytes_index(init, i, t);
        assert(init[i as int] == fs[i as int]);
    } else {
        if n > 1 {
            lemma_raw_bytes_index(init, 0, 0);
        }
        assert(spec_raw_bytes(init).len() == 8 * init.len());
    }
}

proof fn lemma_raw_chunk(fs: Seq<WriteableFt63>, i: nat)
    requires
        i < fs.len(),
    ensures
        le_to_nat(padded_chunk(spec_raw_bytes(fs), i, 8)) == fs[i as int].value(),
{
    let raw = spec_raw_bytes(fs);
    let n = fs.len();
    let v = fs[i as int].value();
    lemma_raw_bytes_index(fs, i, 0);
    assert forall|t: int| 0 <= t < 8 implies padded_chunk(raw, i, 8)[t] == nat_to_le(v, 8)[t] by {
        lemma_raw_bytes_index(fs, i, t as nat);
        assert(i * 8 + t < 8 * n) by (nonlinear_arith)
            requires
                i < n,
                0 <= t < 8,
        ;
        assert(i * 8 + t == 8 * i + t) by (nonlinear_arith);
    }
    assert(padded_chunk(raw, i, 8) =~= nat_to_le(v, 8));
    lemma_le_of_nat_to_le(v, 8);
    lemma_pow256_values();
    lemma_mont_value_bound(fs[i as int].repr());
    lemma_small_mod(v, pow256(8));
}

/// Writing reduced elements as raw bytes and reading them back gives the same
/// elements: the bytes are always accepted.
pub proof fn lemma_raw_bytes_roundtrip(fs: Seq<WriteableFt63>)
    requires
        forall|i: int| 0 <= i < fs.len() ==> (#[trigger] fs[i]).canonical(),
    ensures
        raw_bytes_valid(spec_raw_bytes(fs)),
        spec_from_raw_bytes(spec_raw_bytes(fs)) == fs,
{
    let raw = spec_raw_bytes(fs);
    let n = fs.len();
    if n > 0 {
        lemma_raw_bytes_index(fs, 0, 0);
    } else {
        assert(raw.len() == 0);
    }
    assert(raw.len() == 8 * n);
    assert(num_chunks(raw.len(), 8) == n) by {
        assert((8 * n) % 8 == 0 && (8 * n) / 8 == n) by (nonlinear_arith);
    }
    assert forall|i: nat| i < num_chunks(raw.len(), 8) implies #[trigger] le_to_nat(padded_chunk(raw, i, 8)) < p() by {
        lemma_raw_chunk(fs, i);
        lemma_mont_value_bound(fs[i as int].repr());
    }
    assert forall|i: int| 0 <= i < n implies #[trigger] spec_from_raw_bytes(raw)[i] == fs[i] by {
        lemma_raw_chunk(fs, i as nat);
        WriteableFt63::lemma_canonical_is_from_value(fs[i]);
    }
    assert(spec_from_raw_bytes(raw) =~= fs);
}

} // verus!
