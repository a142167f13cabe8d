//! Elements of the BLS12-381 scalar field, held by their canonical value.

use vstd::prelude::*;
use vstd::arithmetic::power2::*;
use ark_bls12_381::Fr;
use ark_ff::{BigInt, PrimeField};
use ark_serialize::{CanonicalDeserialize, CanonicalSerialize, SerializationError};
use ark_std::UniformRand;
use rand::rngs::ThreadRng;

verus! {

/// The order of the BLS12-381 scalar field.
pub open spec fn fr_modulus() -> nat {
    0x73eda753299d7d483339d80809a1d80553bda402fffe5bfeffffffff00000001nat
}

/// Number of bytes of a field element in its uncompressed encoding.
pub open spec fn field_bytes() -> nat {
    32
}

/// Value of four little-endian 64-bit limbs.
pub open spec fn limbs_value(l: Seq<u64>) -> nat {
    l[0] as nat + pow2(64) * (l[1] as nat + pow2(64) * (l[2] as nat + pow2(64) * (l[3] as nat)))
}

/// Value of a little-endian byte string.
pub open spec fn le_value(b: Seq<u8>) -> nat
    decreases b.len(),
{
    if b.len() == 0 {
        0
    } else {
        b[0] as nat + 256 * le_value(b.drop_first())
    }
}

/// The `n` low bytes of `v`, least significant first.
pub open spec fn le_bytes(v: nat, n: nat) -> Seq<u8>
    decreases n,
{
    if n == 0 {
        Seq::empty()
    } else {
        seq![(v % 256) as u8] + le_bytes(v / 256, (n - 1) as nat)
    }
}

/// An element of the BLS12-381 scalar field, stored as the four
/// little-endian limbs of its canonical representative in `0..p`.
#[derive(Clone, Copy)]
pub struct FieldElement {
    limbs: [u64; 4],
}

impl View for FieldElement {
    type V = nat;

    closed spec fn view(&self) -> nat {
        limbs_value(self.limbs@) % fr_modulus()
    }
}

/// The value of a field element is its canonical representative: it lies
/// below the modulus.
pub proof fn lemma_value_below_modulus(f: FieldElement)
    ensures
        f@ < fr_modulus(),
{
    vstd::arithmetic::div_mod::lemma_mod_bound(limbs_value(f.limbs@) as int, fr_modulus() as int);
}

impl FieldElement {
    #[verifier::type_invariant]
    spec fn canonical(self) -> bool {
        limbs_value(self.limbs@) < fr_modulus()
    }

    /// `F::from(x)` for a 64-bit integer.
    pub fn from_u64(x: u64) -> (r: FieldElement)
        ensures
            r@ == x as nat,
    {
        fr_from_u64(x)
    }

    /// The field element whose canonical representative has these limbs, if
    /// they encode a value below the modulus.
    pub fn from_limbs(limbs: [u64; 4]) -> (r: Option<FieldElement>)
        ensures
            r is Some <==> limbs_value(limbs@) < fr_modulus(),
            r matches Some(f) ==> f@ == limbs_value(limbs@),
    {
        fr_from_bigint(limbs)
    }

    /// The limbs of the canonical representative.
    pub fn to_limbs(&self) -> (r: [u64; 4])
        ensures
            limbs_value(r@) == self@,
    {
        proof {
            use_type_invariant(self);
            vstd::arithmetic::div_mod::lemma_small_mod(limbs_value(self.limbs@), fr_modulus());
        }
        self.limbs
    }

    /// Field elements compared as integers in `0..p`.
    pub fn le(&self, other: &FieldElement) -> (r: bool)
        ensures
            r == (self@ <= other@),
    {
        fr_le(self, other)
    }
}

/// Why reading a field element from bytes failed.
#[derive(Clone, Copy, Debug, PartialEq, Eq)]
pub enum FieldDecodeError {
    /// Fewer bytes than one encoded element takes.
    NotEnoughBytes,
    /// The bytes encode an integer that is not below the modulus.
    NotCanonical,
}

impl FieldElement {
    /// Appends the uncompressed encoding: the 32 little-endian bytes of the
    /// canonical value.
    pub fn serialize_uncompressed(&self, out: &mut Vec<u8>)
        ensures
            final(out)@ == old(out)@ + le_bytes(self@, field_bytes()),
    {
        fr_serialize_uncompressed(self, out)
    }

    /// Reads an element from the first 32 bytes (little endian), as
    /// `deserialize_uncompressed_unchecked` does on a byte slice.
    pub fn deserialize_uncompressed_unchecked(bytes: &[u8]) -> (r: Result<FieldElement, FieldDecodeError>)
        ensures
            bytes@.len() < field_bytes() ==> r == Err::<FieldElement, FieldDecodeError>(FieldDecodeError::NotEnoughBytes),
            bytes@.len() >= field_bytes() && le_value(bytes@.take(32)) >= fr_modulus()
                ==> r == Err::<FieldElement, FieldDecodeError>(FieldDecodeError::NotCanonical),
            bytes@.len() >= field_bytes() && le_value(bytes@.take(32)) < fr_modulus()
                ==> r is Ok && r->Ok_0@ == le_value(bytes@.take(32)),
    {
        match fr_deserialize_uncompressed_unchecked(bytes) {
            Ok(f) => Ok(f),
            Err(_) => {
                if bytes.len() < 32 {
                    Err(FieldDecodeError::NotEnoughBytes)
                } else {
                    Err(FieldDecodeError::NotCanonical)
                }
            },
        }
    }

    /// Size in bytes of the uncompressed encoding.
    pub fn uncompressed_size() -> (r: usize)
        ensures
            r == field_bytes(),
    {
        fr_uncompressed_size()
    }
}

/// Reads a `usize` from the first 8 bytes (little endian), as
/// `usize::deserialize_uncompressed_unchecked` does on a byte slice.
pub fn usize_deserialize_uncompressed_unchecked(bytes: &[u8]) -> (r: Option<usize>)
    ensures
        r is Some <==> bytes@.len() >= 8,
        r matches Some(v) ==> v as nat == le_value(bytes@.take(8)) % (usize::MAX as nat + 1),
{
    match usize_deserialize(bytes) {
        Ok(v) => Some(v),
        Err(_) => None,
    }
}

/// Size in bytes of an encoded `usize`.
pub fn usize_uncompressed_size() -> (r: usize)
    ensures
        r == 8,
{
    usize_size()
}

/// The error type of `ark-serialize`.
#[verifier::external_type_specification]
#[verifier::external_body]
pub struct ExSerializationError(SerializationError);

/// `Fr::serialize_uncompressed` into a `Vec<u8>`: `Fp` writes the limbs of its
/// canonical integer as little-endian bytes, `buffer_byte_size(255) = 32` of
/// them; writing into a `Vec` does not fail.
#[verifier::external_body]
fn fr_serialize_uncompressed(a: &FieldElement, out: &mut Vec<u8>)
    ensures
        final(out)@ == old(out)@ + le_bytes(a@, 32),
{
    Fr::from_bigint(BigInt::new(a.limbs)).unwrap().serialize_uncompressed(out).unwrap()
}

/// `Fr::deserialize_uncompressed_unchecked` on a byte slice: reads 32 bytes
/// (an I/O error when fewer are there) as little-endian limbs and fails with
/// `InvalidData` when the integer is not below the modulus.
#[verifier::external_body]
fn fr_deserialize_uncompressed_unchecked(bytes: &[u8]) -> (r: Result<FieldElement, SerializationError>)
    ensures
        r is Ok <==> (bytes@.len() >= 32 && le_value(bytes@.take(32)) < fr_modulus()),
        r matches Ok(f) ==> f@ == le_value(bytes@.take(32)),
{
    Fr::deserialize_uncompressed_unchecked(bytes).map(|f| FieldElement { limbs: f.into_bigint().0 })
}

/// `Fr::one().uncompressed_size()`: `buffer_byte_size(255) = 32`.
#[verifier::external_body]
fn fr_uncompressed_size() -> (r: usize)
    ensures
        r == 32,
{
    Fr::from(1u64).uncompressed_size()
}

/// `usize::deserialize_uncompressed_unchecked` on a byte slice: reads 8 bytes
/// (an I/O error when fewer are there) as a little-endian `u64`, cast to `usize`.
#[verifier::external_body]
fn usize_deserialize(bytes: &[u8]) -> (r: Result<usize, SerializationError>)
    ensures
        r is Ok <==> bytes@.len() >= 8,
        r matches Ok(v) ==> v as nat == le_value(bytes@.take(8)) % (usize::MAX as nat + 1),
{
    usize::deserialize_uncompressed_unchecked(bytes)
}

/// `usize::uncompressed_size()`: `size_of::<u64>() = 8`.
#[verifier::external_body]
fn usize_size() -> (r: usize)
    ensures
        r == 8,
{
    0usize.uncompressed_size()
}

/// The thread-local random generator of `rand`.
#[verifier::external_type_specification]
#[verifier::external_body]
pub struct ExThreadRng(ThreadRng);

/// `Fr::rand` (`UniformRand`): draws limbs from the generator until they
/// encode a value below the modulus. Nothing is stated of the element drawn,
/// which rests on chance, nor of the generator's state after the draw.
#[verifier::external_body]
pub(crate) fn fr_rand(rng: &mut ThreadRng) -> (r: FieldElement) {
    FieldElement { limbs: Fr::rand(rng).into_bigint().0 }
}

/// `Fr::from(u64)`: for a field with four limbs the value is kept as is.
#[verifier::external_body]
fn fr_from_u64(x: u64) -> (r: FieldElement)
    ensures
        r@ == x as nat,
{
    FieldElement { limbs: Fr::from(x).into_bigint().0 }
}

/// `Fr::from_bigint`: `Some` exactly when the limbs encode a value below the
/// modulus, and then that value.
#[verifier::external_body]
fn fr_from_bigint(limbs: [u64; 4]) -> (r: Option<FieldElement>)
    ensures
        r is Some <==> limbs_value(limbs@) < fr_modulus(),
        r matches Some(f) ==> f@ == limbs_value(limbs@),
{
    Fr::from_bigint(BigInt::new(limbs)).map(|f| FieldElement { limbs: f.into_bigint().0 })
}

/// `<=` on `Fr`, whose `Ord` compares the canonical integers in `0..p`.
#[verifier::external_body]
fn fr_le(a: &FieldElement, b: &FieldElement) -> (r: bool)
    ensures
        r == (a@ <= b@),
{
    Fr::from_bigint(BigInt::new(a.limbs)).unwrap() <= Fr::from_bigint(BigInt::new(b.limbs)).unwrap()
}

} // verus!

verus! {

/// The encoding of `n` bytes has `n` bytes.
pub proof fn lemma_le_bytes_len(v: nat, n: nat)
    ensures
        le_bytes(v, n).len() == n,
    decreases n,
{
    if n > 0 {
        lemma_le_bytes_len(v / 256, (n - 1) as nat);
    }
}

/// Reading back `n` encoded bytes gives the value, when it fits.
pub proof fn lemma_le_round_trip(v: nat, n: nat)
    requires
        v < pow2(8 * n),
    ensures
        le_value(le_bytes(v, n)) == v,
    decreases n,
{
    if n == 0 {
        lemma_pow2_pos(0);
        assert(pow2(0) == 1) by { lemma2_to64(); }
    } else {
        let m = (n - 1) as nat;
        assert(pow2(8 * n) == pow2(8 * m) * 256) by {
            lemma_pow2_adds(8 * m, 8);
            lemma2_to64();
        }
        let p = pow2(8 * m);
        assert(v / 256 < p) by (nonlinear_arith)
            requires v < p * 256;
        lemma_le_round_trip(v / 256, m);
        let b = le_bytes(v, n);
        assert(b.drop_first() =~= le_bytes(v / 256, m));
        assert(v == v % 256 + 256 * (v / 256)) by (nonlinear_arith);
    }
}

/// A canonical value fits in the 32 bytes of its encoding.
pub proof fn lemma_modulus_fits()
    ensures
        fr_modulus() < pow2(256),
{
    lemma2_to64();
    lemma_pow2_adds(64, 64);
    lemma_pow2_adds(128, 128);
    assert(pow2(64) == 0x1_0000_0000_0000_0000nat);
    assert(pow2(128) == 0x1_0000_0000_0000_0000_0000_0000_0000_0000nat);
    let p128 = pow2(128);
    assert(p128 * p128 == 0x1_0000_0000_0000_0000_0000_0000_0000_0000_0000_0000_0000_0000_0000_0000_0000_0000nat)
        by (nonlinear_arith)
        requires p128 == 0x1_0000_0000_0000_0000_0000_0000_0000_0000nat;
}

} // verus!
