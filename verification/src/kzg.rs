//! KZG commitments over BLS12-381 with a dedicated structured reference string.
//! Curve arithmetic, pairings and hashing are ark-ec's, ark-bls12-381's and sha2's;
//! each point carries its canonical compressed encoding, over which the contracts
//! speak.
use crate::error::{require, Error, Result};
use crate::field::{modulus, Fe};
use crate::polynomial::{
    cong, denominator, distinct, divide_exact, divide_linear, evaluate, fes, interpolate, lagrange,
    lin_plus, peval, psum, vanish, vanishing,
};
use ark_bls12_381::{Bls12_381, Fr, G1Affine, G1Projective, G2Affine, G2Projective};
use ark_ec::scalar_mul::fixed_base::FixedBase;
use ark_ec::{pairing::Pairing, AffineRepr, CurveGroup, Group, VariableBaseMSM};
use ark_ff::{BigInt, One, PrimeField};
use ark_serialize::{CanonicalDeserialize, CanonicalSerialize};
use sha2::{Digest, Sha256};
use vstd::prelude::*;

verus! {

/// The SHA-256 digest of `data`.
pub uninterp spec fn sha256(data: Seq<u8>) -> Seq<u8>;

/// `Sha256::digest` from sha2: the 32-byte SHA-256 digest of `data`.
#[verifier::external_body]
pub(crate) fn sha256_digest(data: &[u8]) -> (r: [u8; 32])
    ensures
        r@ == sha256(data@),
{
    Sha256::digest(data).into()
}

/// The compressed encoding of the G1 multi-scalar product `sum_i scalars[i] bases[i]`.
pub uninterp spec fn msm1(bases: Seq<Seq<u8>>, scalars: Seq<int>) -> Seq<u8>;

/// The compressed encoding of the G2 multi-scalar product `sum_i scalars[i] bases[i]`.
pub uninterp spec fn msm2(bases: Seq<Seq<u8>>, scalars: Seq<int>) -> Seq<u8>;

/// Whether `e(a, b) = e(c, d)` for the BLS12-381 pairing, on compressed encodings.
pub uninterp spec fn pairing_equal(a: Seq<u8>, b: Seq<u8>, c: Seq<u8>, d: Seq<u8>) -> bool;

/// The compressed encoding of the G1 difference `a - b`.
pub uninterp spec fn g1_difference(a: Seq<u8>, b: Seq<u8>) -> Seq<u8>;

/// The compressed encoding of the G1 sum `a + b`.
pub uninterp spec fn g1_sum(a: Seq<u8>, b: Seq<u8>) -> Seq<u8>;

/// Whether a G1 point lies on the curve and in the prime-order subgroup.
pub uninterp spec fn g1_in_subgroup(a: Seq<u8>) -> bool;

/// Whether a G2 point lies on the curve and in the prime-order subgroup.
pub uninterp spec fn g2_in_subgroup(a: Seq<u8>) -> bool;

/// The canonical compressed encoding of the G1 point that `raw` decodes to.
pub uninterp spec fn g1_decoded(raw: Seq<u8>) -> Seq<u8>;

/// The canonical compressed encoding of the G2 point that `raw` decodes to.
pub uninterp spec fn g2_decoded(raw: Seq<u8>) -> Seq<u8>;

/// Whether `raw` is a valid compressed G1 point.
pub uninterp spec fn g1_decodes(raw: Seq<u8>) -> bool;

/// Whether `raw` is a valid compressed G2 point.
pub uninterp spec fn g2_decodes(raw: Seq<u8>) -> bool;

/// The compressed encoding of the G1 identity: the compression and infinity flags.
pub open spec fn g1_identity_encoding() -> Seq<u8> {
    seq![0xc0u8].add(Seq::new(47, |i: int| 0u8))
}

/// The compressed encoding of the G2 identity.
pub open spec fn g2_identity_encoding() -> Seq<u8> {
    seq![0xc0u8].add(Seq::new(95, |i: int| 0u8))
}

/// A point of G1 and its canonical compressed encoding.
#[derive(Clone, Copy, Debug, PartialEq, Eq)]
pub struct G1 {
    bytes: [u8; 48],
}

/// A point of G2 and its canonical compressed encoding.
#[derive(Clone, Copy, Debug, PartialEq, Eq)]
pub struct G2 {
    bytes: [u8; 96],
}

impl G1 {
    /// The compressed encoding.
    pub closed spec fn encoding(self) -> Seq<u8> {
        self.bytes@
    }

    /// Every point held is the canonical encoding of a point of the curve: it decodes,
    /// and decoding it gives it back.
    #[verifier::type_invariant]
    pub open spec fn inv(self) -> bool {
        g1_decodes(self.encoding()) && g1_decoded(self.encoding()) == self.encoding()
    }

    /// An encoding has 48 bytes.
    pub proof fn lemma_encoding_len(p: G1)
        ensures
            p.encoding().len() == 48,
    {
    }

    /// The 48-byte compressed encoding.
    pub fn to_bytes(&self) -> (r: Vec<u8>)
        ensures
            r@ == self.encoding(),
    {
        let mut r: Vec<u8> = Vec::new();
        let mut i: usize = 0;
        while i < 48
            invariant
                i <= 48,
                r@ == self.bytes@.take(i as int),
            decreases 48 - i,
        {
            r.push(self.bytes[i]);
            i = i + 1;
            assert(r@ == self.bytes@.take(i as int));
        }
        assert(self.bytes@.take(48) == self.bytes@);
        r
    }

    /// Whether two points are equal (their canonical encodings agree).
    pub fn same(&self, other: &G1) -> (r: bool)
        ensures
            r == (self.encoding() == other.encoding()),
    {
        let mut i: usize = 0;
        while i < 48
            invariant
                i <= 48,
                forall|t: int| 0 <= t < i ==> self.bytes@[t] == other.bytes@[t],
            decreases 48 - i,
        {
            if self.bytes[i] != other.bytes[i] {
                return false;
            }
            i = i + 1;
        }
        assert(self.bytes@ == other.bytes@);
        true
    }

    /// Whether this is the identity.
    pub fn is_identity(&self) -> (r: bool)
        ensures
            r == (self.encoding() == g1_identity_encoding()),
    {
        if self.bytes[0] != 0xc0 {
            return false;
        }
        let mut i: usize = 1;
        while i < 48
            invariant
                1 <= i <= 48,
                self.bytes@[0] == 0xc0,
                forall|t: int| 1 <= t < i ==> self.bytes@[t] == 0,
            decreases 48 - i,
        {
            if self.bytes[i] != 0 {
                assert(self.bytes@[i as int] != g1_identity_encoding()[i as int]);
                return false;
            }
            i = i + 1;
        }
        assert(self.bytes@ == g1_identity_encoding());
        true
    }
}

impl G2 {
    /// The compressed encoding.
    pub closed spec fn encoding(self) -> Seq<u8> {
        self.bytes@
    }

    /// Every point held is the canonical encoding of a point of the curve: it decodes,
    /// and decoding it gives it back.
    #[verifier::type_invariant]
    pub open spec fn inv(self) -> bool {
        g2_decodes(self.encoding()) && g2_decoded(self.encoding()) == self.encoding()
    }

    /// The 96-byte compressed encoding.
    pub fn to_bytes(&self) -> (r: Vec<u8>)
        ensures
            r@ == self.encoding(),
    {
        let mut r: Vec<u8> = Vec::new();
        let mut i: usize = 0;
        while i < 96
            invariant
                i <= 96,
                r@ == self.bytes@.take(i as int),
            decreases 96 - i,
        {
            r.push(self.bytes[i]);
            i = i + 1;
            assert(r@ == self.bytes@.take(i as int));
        }
        assert(self.bytes@.take(96) == self.bytes@);
        r
    }

    /// Whether two points are equal (their canonical encodings agree).
    pub fn same(&self, other: &G2) -> (r: bool)
        ensures
            r == (self.encoding() == other.encoding()),
    {
        let mut i: usize = 0;
        while i < 96
            invariant
                i <= 96,
                forall|t: int| 0 <= t < i ==> self.bytes@[t] == other.bytes@[t],
            decreases 96 - i,
        {
            if self.bytes[i] != other.bytes[i] {
                return false;
            }
            i = i + 1;
        }
        assert(self.bytes@ == other.bytes@);
        true
    }

    /// Whether this is the identity.
    pub fn is_identity(&self) -> (r: bool)
        ensures
            r == (self.encoding() == g2_identity_encoding()),
    {
        if self.bytes[0] != 0xc0 {
            return false;
        }
        let mut i: usize = 1;
        while i < 96
            invariant
                1 <= i <= 96,
                self.bytes@[0] == 0xc0,
                forall|t: int| 1 <= t < i ==> self.bytes@[t] == 0,
            decreases 96 - i,
        {
            if self.bytes[i] != 0 {
                assert(self.bytes@[i as int] != g2_identity_encoding()[i as int]);
                return false;
            }
            i = i + 1;
        }
        assert(self.bytes@ == g2_identity_encoding());
        true
    }
}

/// The encodings of a list of G1 points.
pub open spec fn g1_encodings(ps: Seq<G1>) -> Seq<Seq<u8>> {
    ps.map_values(|p: G1| p.encoding())
}

/// The encodings of a list of G2 points.
pub open spec fn g2_encodings(ps: Seq<G2>) -> Seq<Seq<u8>> {
    ps.map_values(|p: G2| p.encoding())
}

/// `G1Projective::msm_unchecked` from ark-ec, made affine and encoded.
#[verifier::external_body]
fn g1_msm(bases: &[G1], scalars: &[Fe]) -> (r: G1)
    requires
        bases.len() == scalars.len(),
    ensures
        r.encoding() == msm1(g1_encodings(bases@), fes(scalars@)),
{
    let ps: Vec<G1Affine> = bases.iter().map(|b| G1Affine::deserialize_compressed_unchecked(&b.bytes[..]).unwrap()).collect();
    let ks: Vec<Fr> = scalars.iter().map(|c| Fr::new(BigInt::new(c.limbs()))).collect();
    let point = G1Projective::msm_unchecked(&ps, &ks).into_affine();
    let mut bytes = [0u8; 48];
    point.serialize_compressed(&mut bytes[..]).unwrap();
    G1 { bytes }
}

/// `G2Projective::msm_unchecked` from ark-ec, made affine and encoded.
#[verifier::external_body]
fn g2_msm(bases: &[G2], scalars: &[Fe]) -> (r: G2)
    requires
        bases.len() == scalars.len(),
    ensures
        r.encoding() == msm2(g2_encodings(bases@), fes(scalars@)),
{
    let ps: Vec<G2Affine> = bases.iter().map(|b| G2Affine::deserialize_compressed_unchecked(&b.bytes[..]).unwrap()).collect();
    let ks: Vec<Fr> = scalars.iter().map(|c| Fr::new(BigInt::new(c.limbs()))).collect();
    let point = G2Projective::msm_unchecked(&ps, &ks).into_affine();
    let mut bytes = [0u8; 96];
    point.serialize_compressed(&mut bytes[..]).unwrap();
    G2 { bytes }
}

/// `Bls12_381::multi_pairing([a, -c], [b, d])` from ark-ec compared with one: whether
/// `e(a, b) = e(c, d)`.
#[verifier::external_body]
pub fn pairing_product(a: G1, b: G2, c: G1, d: G2) -> (r: bool)
    ensures
        r == pairing_equal(a.encoding(), b.encoding(), c.encoding(), d.encoding()),
{
    let pa = G1Affine::deserialize_compressed_unchecked(&a.bytes[..]).unwrap();
    let pb = G2Affine::deserialize_compressed_unchecked(&b.bytes[..]).unwrap();
    let pc = G1Affine::deserialize_compressed_unchecked(&c.bytes[..]).unwrap();
    let pd = G2Affine::deserialize_compressed_unchecked(&d.bytes[..]).unwrap();
    let minus_c = (-pc.into_group()).into_affine();
    Bls12_381::multi_pairing([pa, minus_c], [pb, pd]).0.is_one()
}

/// G1 subtraction from ark-ec, made affine and encoded.
#[verifier::external_body]
fn g1_sub(a: G1, b: G1) -> (r: G1)
    ensures
        r.encoding() == g1_difference(a.encoding(), b.encoding()),
{
    let pa = G1Affine::deserialize_compressed_unchecked(&a.bytes[..]).unwrap();
    let pb = G1Affine::deserialize_compressed_unchecked(&b.bytes[..]).unwrap();
    let point = (pa.into_group() - pb).into_affine();
    let mut bytes = [0u8; 48];
    point.serialize_compressed(&mut bytes[..]).unwrap();
    G1 { bytes }
}

/// G1 addition from ark-ec, made affine and encoded.
#[verifier::external_body]
fn g1_add(a: G1, b: G1) -> (r: G1)
    ensures
        r.encoding() == g1_sum(a.encoding(), b.encoding()),
{
    let pa = G1Affine::deserialize_compressed_unchecked(&a.bytes[..]).unwrap();
    let pb = G1Affine::deserialize_compressed_unchecked(&b.bytes[..]).unwrap();
    let point = (pa.into_group() + pb).into_affine();
    let mut bytes = [0u8; 48];
    point.serialize_compressed(&mut bytes[..]).unwrap();
    G1 { bytes }
}

/// The compressed encoding of the G1 multiple `k a`.
pub uninterp spec fn g1_scaled(a: Seq<u8>, k: int) -> Seq<u8>;

/// G1 scalar multiplication from ark-ec, made affine and encoded.
#[verifier::external_body]
fn g1_mul(a: G1, k: Fe) -> (r: G1)
    ensures
        r.encoding() == g1_scaled(a.encoding(), k@),
{
    let pa = G1Affine::deserialize_compressed_unchecked(&a.bytes[..]).unwrap();
    let point = (pa * Fr::new(BigInt::new(k.limbs()))).into_affine();
    let mut bytes = [0u8; 48];
    point.serialize_compressed(&mut bytes[..]).unwrap();
    G1 { bytes }
}

/// The compressed encoding of the G2 difference `a - b`.
pub uninterp spec fn g2_difference(a: Seq<u8>, b: Seq<u8>) -> Seq<u8>;

/// G2 subtraction from ark-ec, made affine and encoded.
#[verifier::external_body]
fn g2_sub(a: G2, b: G2) -> (r: G2)
    ensures
        r.encoding() == g2_difference(a.encoding(), b.encoding()),
{
    let pa = G2Affine::deserialize_compressed_unchecked(&a.bytes[..]).unwrap();
    let pb = G2Affine::deserialize_compressed_unchecked(&b.bytes[..]).unwrap();
    let point = (pa.into_group() - pb).into_affine();
    let mut bytes = [0u8; 96];
    point.serialize_compressed(&mut bytes[..]).unwrap();
    G2 { bytes }
}

/// The compressed encoding of the G2 multiple `k a`.
pub uninterp spec fn g2_scaled(a: Seq<u8>, k: int) -> Seq<u8>;

/// G2 scalar multiplication from ark-ec, made affine and encoded.
#[verifier::external_body]
fn g2_mul(a: G2, k: Fe) -> (r: G2)
    ensures
        r.encoding() == g2_scaled(a.encoding(), k@),
{
    let pa = G2Affine::deserialize_compressed_unchecked(&a.bytes[..]).unwrap();
    let point = (pa * Fr::new(BigInt::new(k.limbs()))).into_affine();
    let mut bytes = [0u8; 96];
    point.serialize_compressed(&mut bytes[..]).unwrap();
    G2 { bytes }
}

/// Whether `e(a, b) e(c, d) e(-f, g) = 1` for the BLS12-381 pairing, on encodings.
pub uninterp spec fn pairing_triple_one(
    a: Seq<u8>,
    b: Seq<u8>,
    c: Seq<u8>,
    d: Seq<u8>,
    f: Seq<u8>,
    g: Seq<u8>,
) -> bool;

/// `Bls12_381::multi_pairing([a, c, -f], [b, d, g])` from ark-ec compared with one.
#[verifier::external_body]
pub(crate) fn pairing_triple(a: G1, b: G2, c: G1, d: G2, f: G1, g: G2) -> (r: bool)
    ensures
        r == pairing_triple_one(a.encoding(), b.encoding(), c.encoding(), d.encoding(), f.encoding(), g.encoding()),
{
    let pa = G1Affine::deserialize_compressed_unchecked(&a.bytes[..]).unwrap();
    let pb = G2Affine::deserialize_compressed_unchecked(&b.bytes[..]).unwrap();
    let pc = G1Affine::deserialize_compressed_unchecked(&c.bytes[..]).unwrap();
    let pd = G2Affine::deserialize_compressed_unchecked(&d.bytes[..]).unwrap();
    let pf = G1Affine::deserialize_compressed_unchecked(&f.bytes[..]).unwrap();
    let pg = G2Affine::deserialize_compressed_unchecked(&g.bytes[..]).unwrap();
    let minus_f = (-pf.into_group()).into_affine();
    Bls12_381::multi_pairing([pa, pc, minus_f], [pb, pd, pg]).0.is_one()
}

/// The compressed encoding of `k G1` computed by a fixed-base window table.
pub uninterp spec fn g1_fixed_base_of(k: int) -> Seq<u8>;

/// `FixedBase::get_mul_window_size` from ark-ec: 3 below 32 scalars, else
/// `log2(n) * 69 / 100`, which is at least 3 there too.
#[verifier::external_body]
pub(crate) fn fixed_base_window(count: usize) -> (w: usize)
    ensures
        w >= 3,
{
    FixedBase::get_mul_window_size(count)
}

/// `FixedBase::msm` from ark-ec on the G1 generator with a `window`-bit table,
/// batch-normalized and encoded.
#[verifier::external_body]
pub(crate) fn g1_generator_multiples(scalars: &[Fe], window: usize) -> (r: Vec<G1>)
    requires
        1 <= window <= 16,
    ensures
        r.len() == scalars.len(),
        forall|i: int| 0 <= i < r.len() ==> #[trigger] r@[i].encoding() == g1_fixed_base_of(scalars@[i]@),
{
    let ks: Vec<Fr> = scalars.iter().map(|c| Fr::new(BigInt::new(c.limbs()))).collect();
    let bits = Fr::MODULUS_BIT_SIZE as usize;
    let table = FixedBase::get_window_table(bits, window, G1Projective::generator());
    let ps = G1Projective::normalize_batch(&FixedBase::msm::<G1Projective>(bits, window, &table, &ks));
    ps.iter().map(|p| {
        let mut bytes = [0u8; 48];
        p.serialize_compressed(&mut bytes[..]).unwrap();
        G1 { bytes }
    }).collect()
}

/// `G1Affine::zero()` from ark-ec, encoded: the compression and infinity flags.
#[verifier::external_body]
fn g1_zero() -> (r: G1)
    ensures
        r.encoding() == g1_identity_encoding(),
{
    let point = G1Affine::zero();
    let mut bytes = [0u8; 48];
    point.serialize_compressed(&mut bytes[..]).unwrap();
    G1 { bytes }
}

/// `is_on_curve() && is_in_correct_subgroup_assuming_on_curve()` from ark-ec.
#[verifier::external_body]
pub(crate) fn g1_subgroup_check(a: &G1) -> (r: bool)
    ensures
        r == g1_in_subgroup(a.encoding()),
{
    let pa = G1Affine::deserialize_compressed_unchecked(&a.bytes[..]).unwrap();
    pa.is_on_curve() && pa.is_in_correct_subgroup_assuming_on_curve()
}

/// `is_on_curve() && is_in_correct_subgroup_assuming_on_curve()` from ark-ec.
#[verifier::external_body]
pub(crate) fn g2_subgroup_check(a: &G2) -> (r: bool)
    ensures
        r == g2_in_subgroup(a.encoding()),
{
    let pa = G2Affine::deserialize_compressed_unchecked(&a.bytes[..]).unwrap();
    pa.is_on_curve() && pa.is_in_correct_subgroup_assuming_on_curve()
}

/// `G1Affine::generator()` from ark-ec, encoded.
pub uninterp spec fn g1_generator_of(scalar: int) -> Seq<u8>;

/// `G1Projective::generator() * k` from ark-ec, made affine and encoded.
#[verifier::external_body]
pub(crate) fn g1_generator_times(k: Fe) -> (r: G1)
    ensures
        r.encoding() == g1_generator_of(k@),
{
    let point = (G1Projective::generator() * Fr::new(BigInt::new(k.limbs()))).into_affine();
    let mut bytes = [0u8; 48];
    point.serialize_compressed(&mut bytes[..]).unwrap();
    G1 { bytes }
}

/// `G2Projective::generator() * k` from ark-ec, encoded.
pub uninterp spec fn g2_generator_of(scalar: int) -> Seq<u8>;

/// `G2Projective::generator() * k` from ark-ec, made affine and encoded.
#[verifier::external_body]
pub(crate) fn g2_generator_times(k: Fe) -> (r: G2)
    ensures
        r.encoding() == g2_generator_of(k@),
{
    let point = (G2Projective::generator() * Fr::new(BigInt::new(k.limbs()))).into_affine();
    let mut bytes = [0u8; 96];
    point.serialize_compressed(&mut bytes[..]).unwrap();
    G2 { bytes }
}

/// `G1Affine::deserialize_compressed` from ark-serialize, with the whole input consumed.
#[verifier::external_body]
fn g1_decode(raw: &[u8]) -> (r: Option<G1>)
    ensures
        r is Some <==> (raw.len() == 48 && g1_decodes(raw@)),
        r matches Some(p) ==> p.encoding() == g1_decoded(raw@),
{
    let mut reader = raw;
    match G1Affine::deserialize_compressed(&mut reader) {
        Ok(point) if reader.is_empty() => {
            let mut bytes = [0u8; 48];
            point.serialize_compressed(&mut bytes[..]).unwrap();
            Some(G1 { bytes })
        },
        _ => None,
    }
}

/// `G2Affine::deserialize_compressed` from ark-serialize, with the whole input consumed.
#[verifier::external_body]
fn g2_decode(raw: &[u8]) -> (r: Option<G2>)
    ensures
        r is Some <==> (raw.len() == 96 && g2_decodes(raw@)),
        r matches Some(p) ==> p.encoding() == g2_decoded(raw@),
{
    let mut reader = raw;
    match G2Affine::deserialize_compressed(&mut reader) {
        Ok(point) if reader.is_empty() => {
            let mut bytes = [0u8; 96];
            point.serialize_compressed(&mut bytes[..]).unwrap();
            Some(G2 { bytes })
        },
        _ => None,
    }
}

/// The little-endian value of bytes.
pub open spec fn le_value(b: Seq<u8>) -> int
    decreases b.len(),
{
    if b.len() == 0 {
        0
    } else {
        b[0] + 256 * le_value(b.drop_first())
    }
}

/// `256^n`.
pub open spec fn pow256(n: nat) -> int
    decreases n,
{
    if n == 0 {
        1
    } else {
        256 * pow256((n - 1) as nat)
    }
}

/// The `n` little-endian bytes of `x`.
pub open spec fn le_bytes(x: int, n: nat) -> Seq<u8>
    decreases n,
{
    if n == 0 {
        Seq::empty()
    } else {
        seq![(x % 256) as u8] + le_bytes(x / 256, (n - 1) as nat)
    }
}

/// Reading back `n` little-endian bytes gives the value, below `256^n`.
pub proof fn lemma_le_round_trip(x: int, n: nat)
    requires
        0 <= x < pow256(n),
    ensures
        le_bytes(x, n).len() == n,
        le_value(le_bytes(x, n)) == x,
    decreases n,
{
    if n > 0 {
        assert(x / 256 < pow256((n - 1) as nat)) by (nonlinear_arith)
            requires
                x < 256 * pow256((n - 1) as nat),
                0 <= x,
        ;
        assert(0 <= x / 256) by (nonlinear_arith)
            requires
                0 <= x,
        ;
        lemma_le_round_trip(x / 256, (n - 1) as nat);
        let b = le_bytes(x, n);
        assert(b.drop_first() == le_bytes(x / 256, (n - 1) as nat));
        assert(b[0] == (x % 256) as u8);
        assert(x == x % 256 + 256 * (x / 256)) by (nonlinear_arith);
    }
}

/// The prime is below `256^32`.
pub proof fn lemma_modulus_fits()
    ensures
        modulus() < pow256(32),
{
    reveal_with_fuel(pow256, 33);
    assert(pow256(32) == 0x10000000000000000000000000000000000000000000000000000000000000000int);
}

/// `Fr::serialize_compressed` from ark-serialize: the 32 little-endian bytes of the value.
#[verifier::external_body]
pub(crate) fn fr_to_bytes(x: Fe) -> (r: [u8; 32])
    ensures
        r@ == le_bytes(x@, 32),
{
    let mut bytes = [0u8; 32];
    Fr::new(BigInt::new(x.limbs())).serialize_compressed(&mut bytes[..]).unwrap();
    bytes
}

/// `Fr::deserialize_compressed` from ark-serialize with the whole input consumed: 32
/// little-endian bytes of a value below the prime.
#[verifier::external_body]
pub(crate) fn fr_from_bytes(raw: &[u8]) -> (r: Option<Fe>)
    ensures
        r is Some <==> (raw.len() == 32 && le_value(raw@) < modulus()),
        r matches Some(x) ==> x@ == le_value(raw@),
{
    let mut reader = raw;
    match Fr::deserialize_compressed(&mut reader) {
        Ok(x) if reader.is_empty() => Fe::from_limbs(x.into_bigint().0),
        _ => None,
    }
}

/// The 32 little-endian bytes of a scalar.
pub fn scalar_bytes(x: Fe) -> (r: Vec<u8>)
    ensures
        r@ == le_bytes(x@, 32),
{
    let b = fr_to_bytes(x);
    let mut out: Vec<u8> = Vec::new();
    let mut i: usize = 0;
    while i < 32
        invariant
            i <= 32,
            out@ == b@.take(i as int),
        decreases 32 - i,
    {
        out.push(b[i]);
        i = i + 1;
        assert(out@ == b@.take(i as int));
    }
    assert(b@.take(32) == b@);
    out
}

/// The scalar encoded by exactly 32 little-endian bytes of a value below the prime.
pub fn decode_scalar(raw: &[u8]) -> (res: Result<Fe>)
    ensures
        res is Ok <==> raw.len() == 32 && le_value(raw@) < modulus(),
        res matches Ok(x) ==> x@ == le_value(raw@),
        raw.len() > 32 && le_value(raw@.take(32)) < modulus() ==> (res matches Err(e) && e.0@
            == "trailing bytes"@),
{
    if raw.len() < 32 {
        return Err(Error("invalid field element encoding".to_owned()));
    }
    let head = &raw[0..32];
    assert(head@ == raw@.take(32));
    match fr_from_bytes(head) {
        Some(x) => {
            require(raw.len() == 32, "trailing bytes")?;
            assert(raw@.take(32) == raw@);
            Ok(x)
        },
        None => {
            if raw.len() == 32 {
                assert(raw@.take(32) == raw@);
            }
            Err(Error("invalid field element encoding".to_owned()))
        },
    }
}

impl G1 {
    /// The point that a 48-byte compressed encoding denotes, checked.
    pub fn from_bytes(raw: &[u8]) -> (r: Result<G1>)
        ensures
            r is Ok <==> raw.len() == 48 && g1_decodes(raw@),
            r matches Ok(p) ==> p.encoding() == g1_decoded(raw@),
            r matches Err(e) ==> e.0@ == "invalid G1 encoding"@,
    {
        match g1_decode(raw) {
            Some(p) => Ok(p),
            None => Err(Error("invalid G1 encoding".to_owned())),
        }
    }

    /// The identity.
    pub fn identity() -> (r: G1)
        ensures
            r.encoding() == g1_identity_encoding(),
    {
        g1_zero()
    }

    /// The group sum.
    pub fn add(&self, other: &G1) -> (r: G1)
        ensures
            r.encoding() == g1_sum(self.encoding(), other.encoding()),
    {
        g1_add(*self, *other)
    }

    /// The scalar multiple `k self`.
    pub fn scale(&self, k: Fe) -> (r: G1)
        ensures
            r.encoding() == g1_scaled(self.encoding(), k@),
    {
        g1_mul(*self, k)
    }

    /// The group difference.
    pub fn sub(&self, other: &G1) -> (r: G1)
        ensures
            r.encoding() == g1_difference(self.encoding(), other.encoding()),
    {
        g1_sub(*self, *other)
    }
}

impl G2 {
    /// The group difference.
    pub fn sub(&self, other: &G2) -> (r: G2)
        ensures
            r.encoding() == g2_difference(self.encoding(), other.encoding()),
    {
        g2_sub(*self, *other)
    }

    /// The scalar multiple `k self`.
    pub fn scale(&self, k: Fe) -> (r: G2)
        ensures
            r.encoding() == g2_scaled(self.encoding(), k@),
    {
        g2_mul(*self, k)
    }

    /// The point that a 96-byte compressed encoding denotes, checked.
    pub fn from_bytes(raw: &[u8]) -> (r: Result<G2>)
        ensures
            r is Ok <==> raw.len() == 96 && g2_decodes(raw@),
            r matches Ok(p) ==> p.encoding() == g2_decoded(raw@),
            r matches Err(e) ==> e.0@ == "invalid G2 encoding"@,
    {
        match g2_decode(raw) {
            Some(p) => Ok(p),
            None => Err(Error("invalid G2 encoding".to_owned())),
        }
    }
}

/// A dedicated structured reference string: `r` powers in G1, `r + 1` in G2, and the
/// SHA-256 digest of their encodings as its identity.
pub struct PublicSrs {
    g1: Vec<G1>,
    g2: Vec<G2>,
    id: [u8; 32],
}

impl Clone for PublicSrs {
    fn clone(&self) -> (r: Self)
        ensures
            r.g1_view() == self.g1_view(),
            r.g2_view() == self.g2_view(),
            r.id_view() == self.id_view(),
    {
        proof {
            use_type_invariant(self);
        }
        let mut g1: Vec<G1> = Vec::new();
        let mut i: usize = 0;
        while i < self.g1.len()
            invariant
                i <= self.g1.len(),
                g1@ == self.g1@.take(i as int),
            decreases self.g1.len() - i,
        {
            g1.push(self.g1[i]);
            i = i + 1;
            assert(g1@ == self.g1@.take(i as int));
        }
        let mut g2: Vec<G2> = Vec::new();
        let mut i: usize = 0;
        while i < self.g2.len()
            invariant
                i <= self.g2.len(),
                g2@ == self.g2@.take(i as int),
            decreases self.g2.len() - i,
        {
            g2.push(self.g2[i]);
            i = i + 1;
            assert(g2@ == self.g2@.take(i as int));
        }
        assert(g1@ == self.g1@.take(self.g1.len() as int));
        assert(g2@ == self.g2@.take(self.g2.len() as int));
        assert(self.g1@.take(self.g1.len() as int) == self.g1@);
        assert(self.g2@.take(self.g2.len() as int) == self.g2@);
        PublicSrs { g1, g2, id: self.id }
    }
}

/// The concatenation of encodings.
pub open spec fn concat_encodings(es: Seq<Seq<u8>>) -> Seq<u8>
    decreases es.len(),
{
    if es.len() == 0 {
        Seq::empty()
    } else {
        concat_encodings(es.drop_last()) + es.last()
    }
}

/// The checks of `PublicSrs::from_points` on G1 points.
pub open spec fn srs_g1_ok(ps: Seq<Seq<u8>>) -> bool {
    forall|i: int| 0 <= i < ps.len() ==> g1_in_subgroup(#[trigger] ps[i]) && ps[i] != g1_identity_encoding()
}

/// The checks of `PublicSrs::from_points` on G2 points.
pub open spec fn srs_g2_ok(ps: Seq<Seq<u8>>) -> bool {
    forall|i: int| 0 <= i < ps.len() ==> g2_in_subgroup(#[trigger] ps[i]) && ps[i] != g2_identity_encoding()
}

/// Append the encodings of G1 points to `out`.
pub(crate) fn append_g1(out: &mut Vec<u8>, ps: &[G1])
    ensures
        final(out)@ == old(out)@ + concat_encodings(g1_encodings(ps@)),
{
    let ghost start = out@;
    let mut i: usize = 0;
    while i < ps.len()
        invariant
            i <= ps.len(),
            out@ == start + concat_encodings(g1_encodings(ps@).take(i as int)),
        decreases ps.len() - i,
    {
        let bytes = ps[i].to_bytes();
        let ghost before = out@;
        let mut k: usize = 0;
        while k < bytes.len()
            invariant
                k <= bytes.len(),
                out@ == before + bytes@.take(k as int),
            decreases bytes.len() - k,
        {
            out.push(bytes[k]);
            k = k + 1;
            assert(out@ == before + bytes@.take(k as int));
        }
        assert(bytes@.take(bytes.len() as int) == bytes@);
        assert(g1_encodings(ps@).take(i + 1).drop_last() == g1_encodings(ps@).take(i as int));
        i = i + 1;
    }
    assert(g1_encodings(ps@).take(ps.len() as int) == g1_encodings(ps@));
}

/// Append the encodings of G2 points to `out`.
pub(crate) fn append_g2(out: &mut Vec<u8>, ps: &[G2])
    ensures
        final(out)@ == old(out)@ + concat_encodings(g2_encodings(ps@)),
{
    let ghost start = out@;
    let mut i: usize = 0;
    while i < ps.len()
        invariant
            i <= ps.len(),
            out@ == start + concat_encodings(g2_encodings(ps@).take(i as int)),
        decreases ps.len() - i,
    {
        let bytes = ps[i].to_bytes();
        let ghost before = out@;
        let mut k: usize = 0;
        while k < bytes.len()
            invariant
                k <= bytes.len(),
                out@ == before + bytes@.take(k as int),
            decreases bytes.len() - k,
        {
            out.push(bytes[k]);
            k = k + 1;
            assert(out@ == before + bytes@.take(k as int));
        }
        assert(bytes@.take(bytes.len() as int) == bytes@);
        assert(g2_encodings(ps@).take(i + 1).drop_last() == g2_encodings(ps@).take(i as int));
        i = i + 1;
    }
    assert(g2_encodings(ps@).take(ps.len() as int) == g2_encodings(ps@));
}

impl PublicSrs {
    /// The G1 powers.
    pub closed spec fn g1_view(self) -> Seq<Seq<u8>> {
        g1_encodings(self.g1@)
    }

    /// The G2 powers.
    pub closed spec fn g2_view(self) -> Seq<Seq<u8>> {
        g2_encodings(self.g2@)
    }

    /// The identity digest.
    pub closed spec fn id_view(self) -> Seq<u8> {
        self.id@
    }

    /// `r` G1 powers and `r + 1` G2 powers with `2 <= r <= 16384`.
    #[verifier::type_invariant]
    pub closed spec fn wf(self) -> bool {
        &&& 2 <= self.g1.len() <= 16384
        &&& self.g2.len() == self.g1.len() + 1
    }

    /// Check lengths, subgroup membership, non-identity and generators, and derive the identity.
    pub fn from_points(r: usize, g1: Vec<G1>, g2: Vec<G2>) -> (res: Result<Self>)
        ensures
            res is Ok <==> {
                &&& 2 <= r <= 16384 && g1.len() == r && g2.len() == r + 1
                &&& srs_g1_ok(g1_encodings(g1@))
                &&& srs_g2_ok(g2_encodings(g2@))
                &&& g1_encodings(g1@)[0] == g1_generator_of(1)
                &&& g2_encodings(g2@)[0] == g2_generator_of(1)
            },
            !(2 <= r <= 16384 && g1.len() == r && g2.len() == r + 1) ==> (res matches Err(e) && e.0@
                == "SRS lengths"@),
            res matches Ok(srs) ==> {
                &&& srs.g1_view().len() == r && srs.g2_view().len() == r + 1
                &&& srs.g1_view() == g1_encodings(g1@)
                &&& srs.g2_view() == g2_encodings(g2@)
                &&& srs.id_view() == sha256(
                    concat_encodings(g1_encodings(g1@)) + concat_encodings(g2_encodings(g2@)),
                )
            },
    {
        require(2 <= r && r <= 16384 && g1.len() == r && g2.len() == r + 1, "SRS lengths")?;
        let ghost e1 = g1_encodings(g1@);
        let ghost e2 = g2_encodings(g2@);
        let mut i: usize = 0;
        while i < g1.len()
            invariant
                e1 == g1_encodings(g1@),
                2 <= r <= 16384 && g1.len() == r && g2.len() == r + 1,
                i <= g1.len(),
                forall|t: int| 0 <= t < i ==> g1_in_subgroup(#[trigger] e1[t]) && e1[t] != g1_identity_encoding(),
            decreases g1.len() - i,
        {
            if !(g1_subgroup_check(&g1[i]) && !g1[i].is_identity()) {
                assert(e1[i as int] == g1@[i as int].encoding());
                return Err(Error("invalid G1 SRS".to_owned()));
            }
            assert(e1[i as int] == g1@[i as int].encoding());
            i = i + 1;
        }
        let mut i: usize = 0;
        while i < g2.len()
            invariant
                e2 == g2_encodings(g2@),
                2 <= r <= 16384 && g1.len() == r && g2.len() == r + 1,
                srs_g1_ok(e1),
                e1 == g1_encodings(g1@),
                i <= g2.len(),
                forall|t: int| 0 <= t < i ==> g2_in_subgroup(#[trigger] e2[t]) && e2[t] != g2_identity_encoding(),
            decreases g2.len() - i,
        {
            if !(g2_subgroup_check(&g2[i]) && !g2[i].is_identity()) {
                assert(e2[i as int] == g2@[i as int].encoding());
                return Err(Error("invalid G2 SRS".to_owned()));
            }
            assert(e2[i as int] == g2@[i as int].encoding());
            i = i + 1;
        }
        let gen1 = g1_generator_times(Fe::one());
        let gen2 = g2_generator_times(Fe::one());
        require(g1[0].same(&gen1) && g2[0].same(&gen2), "SRS generators")?;
        let mut buffer: Vec<u8> = Vec::new();
        append_g1(&mut buffer, g1.as_slice());
        append_g2(&mut buffer, g2.as_slice());
        let id = sha256_digest(buffer.as_slice());
        Ok(PublicSrs { g1, g2, id })
    }

    /// Number of G1 powers.
    pub fn r(&self) -> (r: usize)
        ensures
            r == self.g1_view().len(),
            2 <= r <= 16384,
            self.g2_view().len() == r + 1,
    {
        proof {
            use_type_invariant(self);
        }
        self.g1.len()
    }

    /// The identity digest.
    pub fn id(&self) -> (r: [u8; 32])
        ensures
            r@ == self.id_view(),
    {
        self.id
    }

    /// The G1 powers.
    pub fn g1(&self) -> (r: &[G1])
        ensures
            g1_encodings(r@) == self.g1_view(),
    {
        self.g1.as_slice()
    }

    /// The G2 powers.
    pub fn g2(&self) -> (r: &[G2])
        ensures
            g2_encodings(r@) == self.g2_view(),
    {
        self.g2.as_slice()
    }

    /// Commit to at most `r` coefficients.
    pub fn commit(&self, p: &[Fe]) -> (res: Result<G1>)
        ensures
            res is Ok <==> p.len() <= self.g1_view().len(),
            res matches Err(e) ==> e.0@ == "polynomial exceeds dedicated SRS"@,
            res matches Ok(c) ==> c.encoding() == msm1(self.g1_view().take(p.len() as int), fes(p@)),
    {
        require(p.len() <= self.g1.len(), "polynomial exceeds dedicated SRS")?;
        let bases = &self.g1.as_slice()[0..p.len()];
        assert(bases@ == self.g1@.take(p.len() as int));
        assert(g1_encodings(bases@) == self.g1_view().take(p.len() as int));
        Ok(g1_msm(bases, p))
    }

    /// Commit in G2 to at most `r + 1` coefficients.
    pub fn commit_g2(&self, p: &[Fe]) -> (res: Result<G2>)
        ensures
            res is Ok <==> p.len() <= self.g2_view().len(),
            res matches Err(e) ==> e.0@ == "G2 polynomial exceeds SRS"@,
            res matches Ok(c) ==> c.encoding() == msm2(self.g2_view().take(p.len() as int), fes(p@)),
    {
        require(p.len() <= self.g2.len(), "G2 polynomial exceeds SRS")?;
        let bases = &self.g2.as_slice()[0..p.len()];
        assert(bases@ == self.g2@.take(p.len() as int));
        assert(g2_encodings(bases@) == self.g2_view().take(p.len() as int));
        Ok(g2_msm(bases, p))
    }
    /// Open `p` at the points `xs`: the values and a proof that commits to
    /// `(p - I) / Z` for the interpolant `I` of the values and the vanishing `Z` of `xs`.
    pub fn open(&self, p: &[Fe], xs: &[Fe]) -> (res: Result<Opening>)
        ensures
            !(p.len() <= self.g1_view().len() && xs.len() > 0 && xs.len() <= self.g1_view().len()) ==> (res matches Err(
                e,
            ) && e.0@ == "opening dimensions"@),
            p.len() <= self.g1_view().len() && xs.len() > 0 && xs.len() <= self.g1_view().len() && !distinct(
                fes(xs@),
            ) ==> (res matches Err(e) && e.0@ == "duplicate coordinates"@),
            res matches Err(e) ==> e.0@ == "opening dimensions"@ || e.0@ == "duplicate coordinates"@
                || e.0@ == "interpolation denominator"@ || e.0@ == "nonzero remainder"@,
            p.len() <= self.g1_view().len() && xs.len() == 1 ==> res is Ok,
            p.len() <= self.g1_view().len() && xs.len() == self.g1_view().len() && distinct(fes(xs@)) ==> res is Ok,
            res matches Ok(o) ==> opening_of(o, fes(p@), fes(xs@), self.g1_view()),
    {
        proof {
            use_type_invariant(self);
        }
        require(p.len() <= self.g1.len() && xs.len() > 0 && xs.len() <= self.g1.len(), "opening dimensions")?;
        assert(xs.len() == 1 ==> distinct(fes(xs@)));
        let z = vanishing(xs)?;
        let mut values: Vec<Fe> = Vec::new();
        let mut t: usize = 0;
        while t < xs.len()
            invariant
                t <= xs.len(),
                values.len() == t,
                forall|u: int| 0 <= u < t ==> #[trigger] values@[u]@ == peval(fes(p@), xs@[u]@),
            decreases xs.len() - t,
        {
            values.push(evaluate(p, xs[t]));
            t = t + 1;
        }
        if xs.len() == self.g1.len() {
            let o = Opening { values, proof: G1::identity() };
            assert(opening_of(o, fes(p@), fes(xs@), self.g1_view()));
            return Ok(o);
        }
        if xs.len() == 1 {
            let (q, c) = divide_linear(p, xs[0]);
            let proof = self.commit(q.as_slice())?;
            let o = Opening { values, proof };
            proof {
                let values = o.values;
                let proof = o.proof;
                Fe::lemma_range(values@[0]);
                let iv = fes(values@);
                crate::polynomial::lemma_lagrange_single(fes(xs@), iv);
                assert(iv == seq![iv[0]]);
                lemma_single_interpolant(fes(xs@), fes(values@), iv);
                assert forall|y: int| (#[trigger] psum(fes(p@), y) - psum(iv, y)) % modulus() == (psum(fes(q@), y)
                    * crate::polynomial::prod(fes(xs@), y)) % modulus() by {
                    lemma_single_point_quotient(fes(p@), fes(q@), xs@[0]@, c@, y, values@[0]@, iv, fes(xs@), fes(values@));
                }
                assert(quotient_witness(fes(p@), fes(xs@), fes(values@), self.g1_view(), proof.encoding(), fes(q@)));
            }
            assert(opening_of(o, fes(p@), fes(xs@), self.g1_view()));
            return Ok(o);
        }
        let i = interpolate(xs, values.as_slice())?;
        proof {
            assert forall|k: int| 0 <= k < fes(i@).len() implies 0 <= #[trigger] fes(i@)[k] < modulus() by {
                Fe::lemma_range(i@[k]);
            }
            assert forall|t: int| 0 <= t < fes(xs@).len() implies #[trigger] peval(fes(i@), fes(xs@)[t])
                == fes(values@)[t] by {
                assert(peval(fes(i@), xs@[t]@) == values@[t]@);
            }
            assert(interpolates(fes(i@), fes(xs@), fes(values@)));
        }
        let n = if p.len() > i.len() {
            p.len()
        } else {
            i.len()
        };
        let mut numerator: Vec<Fe> = Vec::new();
        let mut k: usize = 0;
        while k < n
            invariant
                n >= p.len(),
                n >= i.len(),
                k <= n,
                numerator.len() == k,
                forall|u: int| 0 <= u < k ==> #[trigger] numerator@[u]@ == (coef_of(fes(p@), u) + modulus() - coef_of(
                    fes(i@),
                    u,
                )) % modulus(),
            decreases n - k,
        {
            let a = if k < p.len() {
                p[k]
            } else {
                Fe::zero()
            };
            let b = if k < i.len() {
                i[k]
            } else {
                Fe::zero()
            };
            numerator.push(a.sub(b));
            k = k + 1;
        }
        proof {
            let m = modulus();
            crate::polynomial::lemma_vanish_monic(fes(xs@));
            crate::polynomial::lemma_modulus_positive();
            Fe::lemma_range(z@[z.len() - 1]);
            assert(fes(z@)[z.len() - 1] % m == 1int % m);
            vstd::arithmetic::div_mod::lemma_small_mod(z@[z.len() - 1]@ as nat, m as nat);
            vstd::arithmetic::div_mod::lemma_small_mod(1, m as nat);
            assert(fes(z@)[z.len() - 1] == z@[z.len() - 1]@);
            assert(z@[z.len() - 1]@ == 1);
        }
        let q = divide_exact(numerator.as_slice(), z.as_slice())?;
        let proof = self.commit(q.as_slice())?;
        let o = Opening { values, proof };
        proof {
            let values = o.values;
            let proof = o.proof;
            assert forall|y: int| (#[trigger] psum(fes(p@), y) - psum(fes(i@), y)) % modulus() == (psum(fes(q@), y)
                * crate::polynomial::prod(fes(xs@), y)) % modulus() by {
                lemma_numerator_value(fes(p@), fes(i@), fes(numerator@), y);
                assert(peval(fes(numerator@), y) == (psum(fes(q@), y) * psum(fes(z@), y)) % modulus());
                crate::polynomial::lemma_psum_cong(fes(z@), vanish(fes(xs@)), y, y);
                crate::polynomial::lemma_psum_vanish(fes(xs@), y);
                assert(psum(fes(z@), y) % modulus() == crate::polynomial::prod(fes(xs@), y) % modulus());
                lemma_product_congruence(psum(fes(q@), y), psum(fes(z@), y), crate::polynomial::prod(fes(xs@), y));
            }
            assert(quotient_witness(fes(p@), fes(xs@), fes(values@), self.g1_view(), proof.encoding(), fes(q@)));
        }
        assert(opening_of(o, fes(p@), fes(xs@), self.g1_view()));
        Ok(o)
    }
}

/// The coefficients reduced modulo the prime.
pub open spec fn reduced(s: Seq<int>) -> Seq<int> {
    s.map_values(|v: int| v % modulus())
}

/// The check of an opening of `c` at `xs` to `values` with `proof`, given the interpolant
/// `I`: the commitment to `I` is `c` and the proof the identity when every power is opened,
/// else `e(c - [I], [1]_2) = e(proof, [Z]_2)` for the vanishing polynomial `Z` of `xs`.
pub open spec fn opening_check(
    g1s: Seq<Seq<u8>>,
    g2s: Seq<Seq<u8>>,
    c: Seq<u8>,
    xs: Seq<int>,
    values: Seq<int>,
    proof: Seq<u8>,
) -> bool {
    let ci = msm1(g1s.take(xs.len() as int), lagrange(xs, values));
    if xs.len() == g1s.len() {
        proof == g1_identity_encoding() && ci == c
    } else {
        pairing_equal(
            g1_difference(c, ci),
            g2s[0],
            proof,
            msm2(g2s.take(xs.len() + 1int), reduced(crate::polynomial::vanish(xs))),
        )
    }
}

/// What `verify` accepts.
pub open spec fn accepts(
    g1s: Seq<Seq<u8>>,
    g2s: Seq<Seq<u8>>,
    c: Seq<u8>,
    xs: Seq<int>,
    values: Seq<int>,
    proof: Seq<u8>,
) -> bool {
    &&& 0 < xs.len() <= g1s.len()
    &&& xs.len() == values.len()
    &&& g1_in_subgroup(c) && g1_in_subgroup(proof)
    &&& distinct(xs)
    &&& forall|t: int| 0 <= t < xs.len() ==> #[trigger] denominator(xs, t) != 0
    &&& opening_check(g1s, g2s, c, xs, values, proof)
}

impl PublicSrs {
    /// Verify an opening of the commitment `c` at `xs`.
    pub fn verify(&self, c: G1, xs: &[Fe], opening: &Opening) -> (res: Result<()>)
        ensures
            res is Ok <==> accepts(
                self.g1_view(),
                self.g2_view(),
                c.encoding(),
                fes(xs@),
                fes(opening.values@),
                opening.proof.encoding(),
            ),
            !(0 < xs.len() <= self.g1_view().len() && xs.len() == opening.values.len()) ==> (res matches Err(e)
                && e.0@ == "verify lengths"@),
            0 < xs.len() <= self.g1_view().len() && xs.len() == opening.values.len() && !(g1_in_subgroup(
                c.encoding(),
            ) && g1_in_subgroup(opening.proof.encoding())) ==> (res matches Err(e) && e.0@
                == "invalid commitment/proof point"@),
            0 < xs.len() <= self.g1_view().len() && xs.len() == opening.values.len() && g1_in_subgroup(
                c.encoding(),
            ) && g1_in_subgroup(opening.proof.encoding()) && !distinct(fes(xs@)) ==> (res matches Err(e)
                && e.0@ == "duplicate coordinates"@),
            res matches Err(e) ==> e.0@ == "verify lengths"@ || e.0@ == "invalid commitment/proof point"@
                || e.0@ == "duplicate coordinates"@ || e.0@ == "interpolation denominator"@ || e.0@
                == "full-group commitment mismatch"@ || e.0@ == "invalid KZG opening"@,
    {
        proof {
            use_type_invariant(self);
        }
        require(
            xs.len() > 0 && xs.len() <= self.g1.len() && xs.len() == opening.values.len(),
            "verify lengths",
        )?;
        require(
            g1_subgroup_check(&c) && g1_subgroup_check(&opening.proof),
            "invalid commitment/proof point",
        )?;
        let z = vanishing(xs)?;
        let ghost xv = fes(xs@);
        let ghost yv = fes(opening.values@);
        proof {
            let m = modulus();
            crate::polynomial::lemma_modulus_positive();
            assert forall|k: int| 0 <= k < fes(z@).len() implies #[trigger] fes(z@)[k] == reduced(vanish(xv))[k] by {
                Fe::lemma_range(z@[k]);
                vstd::arithmetic::div_mod::lemma_small_mod(z@[k]@ as nat, m as nat);
                assert(fes(z@)[k] % m == vanish(xv)[k] % m);
            }
            assert(fes(z@) == reduced(vanish(xv)));
            crate::polynomial::lemma_vanish_monic(xv);
        }
        let i = if xs.len() == 1 {
            let v = vec![opening.values[0]];
            proof {
                Fe::lemma_range(opening.values@[0]);
                crate::polynomial::lemma_lagrange_single(xv, yv);
                assert(fes(v@) == yv);
            }
            v
        } else {
            interpolate(xs, opening.values.as_slice())?
        };
        assert(fes(i@) == lagrange(xv, yv));
        assert(forall|t: int| 0 <= t < xs.len() ==> #[trigger] denominator(xv, t) != 0);
        let ci = self.commit(i.as_slice())?;
        if xs.len() == self.g1.len() {
            require(opening.proof.is_identity() && ci.same(&c), "full-group commitment mismatch")
        } else {
            let lhs = c.sub(&ci);
            let zg = self.commit_g2(z.as_slice())?;
            require(pairing_product(lhs, self.g2[0], opening.proof, zg), "invalid KZG opening")
        }
    }
}

/// Coefficient `k`, zero outside the sequence.
pub open spec fn coef_of(s: Seq<int>, k: int) -> int {
    crate::polynomial::coef(s, k)
}

/// `i` has `xs.len()` reduced coefficients and takes the value `ys[t]` at `xs[t]`.
pub open spec fn interpolates(i: Seq<int>, xs: Seq<int>, ys: Seq<int>) -> bool {
    &&& i.len() == xs.len()
    &&& forall|k: int| 0 <= k < i.len() ==> 0 <= #[trigger] i[k] < modulus()
    &&& forall|t: int| 0 <= t < xs.len() ==> #[trigger] peval(i, xs[t]) == ys[t]
}

/// What an opening proof commits to: `q`, committed with the first powers `bases`, with
/// `p - I = q Z` at every point, for the Lagrange interpolant `I` of the values at `xs`
/// and the vanishing polynomial `Z` of `xs`.
pub open spec fn quotient_witness(
    p: Seq<int>,
    xs: Seq<int>,
    values: Seq<int>,
    bases: Seq<Seq<u8>>,
    proof: Seq<u8>,
    q: Seq<int>,
) -> bool {
    &&& q.len() <= bases.len()
    &&& msm1(bases.take(q.len() as int), q) == proof
    &&& forall|y: int|
        (#[trigger] psum(p, y) - psum(lagrange(xs, values), y)) % modulus() == (psum(q, y)
            * crate::polynomial::prod(xs, y)) % modulus()
}

/// `o` opens `p` at `xs` against the powers `bases`: its values are those of `p`, and its
/// proof is the identity when every power is opened, else a commitment to a quotient.
pub open spec fn opening_of(o: Opening, p: Seq<int>, xs: Seq<int>, bases: Seq<Seq<u8>>) -> bool {
    &&& o.values.len() == xs.len()
    &&& forall|t: int| 0 <= t < xs.len() ==> #[trigger] fes(o.values@)[t] == peval(p, xs[t])
    &&& xs.len() == bases.len() ==> o.proof.encoding() == g1_identity_encoding()
    &&& xs.len() < bases.len() ==> exists|q: Seq<int>|
        #[trigger] quotient_witness(p, xs, fes(o.values@), bases, o.proof.encoding(), q)
}

/// A single reduced value is its own interpolant.
proof fn lemma_single_interpolant(xs: Seq<int>, ys: Seq<int>, i: Seq<int>)
    requires
        xs.len() == 1,
        ys.len() == 1,
        0 <= ys[0] < modulus(),
        i == seq![ys[0]],
    ensures
        interpolates(i, xs, ys),
{
    assert(i.drop_first().len() == 0);
    assert(psum(i.drop_first(), xs[0]) == 0);
    assert(psum(i, xs[0]) == i[0] + xs[0] * psum(i.drop_first(), xs[0]));
    assert(xs[0] * 0 == 0);
    crate::polynomial::lemma_modulus_positive();
    vstd::arithmetic::div_mod::lemma_small_mod(ys[0] as nat, modulus() as nat);
    assert(peval(i, xs[0]) == ys[0]);
}

/// Dividing by `X - x` leaves `(p - p(x)) = q (X - x)` at every point.
proof fn lemma_single_point_quotient(
    pv: Seq<int>,
    qv: Seq<int>,
    x: int,
    c: int,
    y: int,
    v: int,
    iv: Seq<int>,
    xs: Seq<int>,
    ys: Seq<int>,
)
    requires
        xs.len() == 1,
        xs[0] == x,
        c == peval(pv, x),
        v == c,
        ys.len() == 1,
        ys[0] == v,
        interpolates(iv, xs, ys),
        forall|w: int| #[trigger] peval(pv, w) == ((w - x) * psum(qv, w) + c) % modulus(),
    ensures
        (psum(pv, y) - psum(iv, y)) % modulus() == (psum(qv, y) * crate::polynomial::prod(xs, y)) % modulus(),
{
    let m = modulus();
    crate::polynomial::lemma_modulus_positive();
    assert(iv.len() == 1);
    assert(iv.drop_first().len() == 0);
    assert(psum(iv.drop_first(), y) == 0);
    assert(psum(iv.drop_first(), x) == 0);
    assert(psum(iv, y) == iv[0] + y * psum(iv.drop_first(), y));
    assert(psum(iv, x) == iv[0] + x * psum(iv.drop_first(), x));
    assert(y * 0 == 0 && x * 0 == 0);
    assert(psum(iv, y) == iv[0]);
    assert(psum(iv, x) == iv[0]);
    assert(peval(iv, xs[0]) == v);
    vstd::arithmetic::div_mod::lemma_small_mod(iv[0] as nat, m as nat);
    assert(crate::polynomial::prod(xs, y) == crate::polynomial::prod(xs.drop_last(), y) * (y - x));
    assert(xs.drop_last().len() == 0);
    assert(crate::polynomial::prod(xs.drop_last(), y) == 1);
    assert(peval(pv, y) == ((y - x) * psum(qv, y) + c) % m);
    vstd::arithmetic::div_mod::lemma_sub_mod_noop(psum(pv, y), iv[0], m);
    vstd::arithmetic::div_mod::lemma_sub_mod_noop((y - x) * psum(qv, y) + c, iv[0], m);
    vstd::arithmetic::div_mod::lemma_mod_twice((y - x) * psum(qv, y) + c, m);
    assert((y - x) * psum(qv, y) + c - iv[0] == psum(qv, y) * (1 * (y - x))) by (nonlinear_arith)
        requires
            c == iv[0],
    ;
}

/// The value of a coefficientwise difference.
proof fn lemma_numerator_value(pv: Seq<int>, iv: Seq<int>, nv: Seq<int>, y: int)
    requires
        nv.len() >= pv.len(),
        nv.len() >= iv.len(),
        forall|u: int| 0 <= u < nv.len() ==> #[trigger] nv[u] == (coef_of(pv, u) + modulus() - coef_of(iv, u)) % modulus(),
    ensures
        psum(nv, y) % modulus() == (psum(pv, y) - psum(iv, y)) % modulus(),
{
    let m = modulus();
    let pe = Seq::new(nv.len(), |u: int| coef_of(pv, u));
    let ie = Seq::new(nv.len(), |u: int| coef_of(iv, u));
    lemma_psum_extend(pv, nv.len() as int, y);
    lemma_psum_extend(iv, nv.len() as int, y);
    let d = Seq::new(nv.len(), |u: int| 1 * pe[u] + (-1) * ie[u]);
    crate::polynomial::lemma_psum_lincomb(pe, ie, 1, -1, y);
    assert(cong(nv, d)) by {
        assert forall|u: int| 0 <= u < nv.len() implies #[trigger] (nv[u] % m) == d[u] % m by {
            vstd::arithmetic::div_mod::lemma_mod_twice(coef_of(pv, u) + m - coef_of(iv, u), m);
            vstd::arithmetic::div_mod::lemma_mod_add_multiples_vanish(coef_of(pv, u) - coef_of(iv, u), m);
            assert(coef_of(pv, u) + m - coef_of(iv, u) == m + (coef_of(pv, u) - coef_of(iv, u)));
        }
    }
    crate::polynomial::lemma_psum_cong(nv, d, y, y);
}

/// Padding with zero coefficients keeps the value.
proof fn lemma_psum_extend(s: Seq<int>, n: int, y: int)
    requires
        n >= s.len(),
    ensures
        psum(Seq::new(n as nat, |u: int| coef_of(s, u)), y) == psum(s, y),
    decreases n - s.len(),
{
    let e = Seq::new(n as nat, |u: int| coef_of(s, u));
    if n == s.len() {
        assert(e == s);
    } else {
        lemma_psum_extend(s, n - 1, y);
        let e1 = Seq::new((n - 1) as nat, |u: int| coef_of(s, u));
        assert(e == e1.push(0));
        crate::polynomial::lemma_psum_push_zero(e1, y);
    }
}

/// Congruent factors give congruent products.
proof fn lemma_product_congruence(a: int, b: int, c: int)
    requires
        b % modulus() == c % modulus(),
    ensures
        (a * b) % modulus() == (a * c) % modulus(),
{
    vstd::arithmetic::div_mod::lemma_mul_mod_noop_general(a, b, modulus());
    vstd::arithmetic::div_mod::lemma_mul_mod_noop_general(a, c, modulus());
}

/// Opened values and the proof, the identity for a full group.
#[derive(Clone, Debug)]
pub struct Opening {
    /// The values at the opened points.
    pub values: Vec<Fe>,
    /// The KZG proof.
    pub proof: G1,
}

/// The concatenated 32-byte little-endian encodings of field values.
pub open spec fn field_bytes(vs: Seq<int>) -> Seq<u8>
    decreases vs.len(),
{
    if vs.len() == 0 {
        Seq::empty()
    } else {
        field_bytes(vs.drop_last()) + le_bytes(vs.last(), 32)
    }
}

/// The serialized response: the values, then the proof unless every power was opened.
pub open spec fn response_bytes(values: Seq<int>, proof: Seq<u8>, r: int) -> Seq<u8> {
    if values.len() < r {
        field_bytes(values) + proof
    } else {
        field_bytes(values)
    }
}

/// The byte length of a response of `t` values among `r`.
pub open spec fn response_size(t: int, r: int) -> int {
    t * 32 + if t < r { 48int } else { 0int }
}

/// The `k`-th 32-byte chunk.
pub open spec fn chunk(raw: Seq<u8>, k: int) -> Seq<u8> {
    raw.subrange(32 * k, 32 * k + 32)
}

/// Whether a response of the right size parses: every value chunk is below the prime and
/// the proof, where present, is a valid point.
pub open spec fn response_parses(raw: Seq<u8>, t: int) -> bool {
    forall|k: int| 0 <= k < t ==> le_value(#[trigger] chunk(raw, k)) < modulus()
}

/// Field encodings of reduced values split back into their chunks.
proof fn lemma_field_bytes(vs: Seq<int>)
    requires
        forall|k: int| 0 <= k < vs.len() ==> 0 <= #[trigger] vs[k] < modulus(),
    ensures
        field_bytes(vs).len() == 32 * vs.len(),
        forall|k: int| 0 <= k < vs.len() ==> #[trigger] chunk(field_bytes(vs), k) == le_bytes(vs[k], 32),
        forall|k: int| 0 <= k < vs.len() ==> le_value(#[trigger] chunk(field_bytes(vs), k)) == vs[k],
    decreases vs.len(),
{
    lemma_modulus_fits();
    if vs.len() > 0 {
        let n = vs.len() as int;
        let init = vs.drop_last();
        lemma_field_bytes(init);
        lemma_le_round_trip(vs.last(), 32);
        let head = field_bytes(init);
        let tail = le_bytes(vs.last(), 32);
        let f = field_bytes(vs);
        assert(f == head + tail);
        assert(head.len() == 32 * (n - 1));
        assert forall|k: int| 0 <= k < n implies #[trigger] chunk(field_bytes(vs), k) == le_bytes(vs[k], 32) by {
            if k < n - 1 {
                assert(32 * k + 32 <= 32 * (n - 1));
                assert(f.subrange(32 * k, 32 * k + 32) =~= head.subrange(32 * k, 32 * k + 32));
                assert(chunk(head, k) == le_bytes(init[k], 32));
            } else {
                assert(f.subrange(32 * k, 32 * k + 32) =~= tail);
            }
        }
        assert forall|k: int| 0 <= k < n implies le_value(#[trigger] chunk(field_bytes(vs), k)) == vs[k] by {
            lemma_le_round_trip(vs[k], 32);
            assert(chunk(field_bytes(vs), k) == le_bytes(vs[k], 32));
        }
    }
}

impl Opening {
    /// The response bytes for a group of `r` positions: 32 bytes per value, then the
    /// 48-byte proof unless every position was opened, when it must be the identity.
    pub fn to_bytes(&self, r: usize) -> (res: Result<Vec<u8>>)
        ensures
            res is Ok <==> 0 < self.values.len() <= r && (self.values.len() == r ==> self.proof.encoding()
                == g1_identity_encoding()),
            !(0 < self.values.len() <= r) ==> (res matches Err(e) && e.0@ == "response length"@),
            0 < self.values.len() == r && self.proof.encoding() != g1_identity_encoding() ==> (res matches Err(e)
                && e.0@ == "full-group proof must be identity"@),
            res matches Ok(out) ==> out@ == response_bytes(fes(self.values@), self.proof.encoding(), r as int),
    {
        require(self.values.len() > 0 && self.values.len() <= r, "response length")?;
        let mut out: Vec<u8> = Vec::new();
        let mut k: usize = 0;
        while k < self.values.len()
            invariant
                k <= self.values.len(),
                out@ == field_bytes(fes(self.values@).take(k as int)),
            decreases self.values.len() - k,
        {
            let b = fr_to_bytes(self.values[k]);
            let ghost before = out@;
            let mut j: usize = 0;
            while j < 32
                invariant
                    j <= 32,
                    out@ == before + b@.take(j as int),
                decreases 32 - j,
            {
                out.push(b[j]);
                j = j + 1;
                assert(out@ == before + b@.take(j as int));
            }
            assert(b@.take(32) == b@);
            assert(fes(self.values@).take(k + 1).drop_last() == fes(self.values@).take(k as int));
            k = k + 1;
        }
        assert(fes(self.values@).take(self.values.len() as int) == fes(self.values@));
        if self.values.len() < r {
            let b = self.proof.to_bytes();
            let ghost before = out@;
            let mut j: usize = 0;
            while j < b.len()
                invariant
                    j <= b.len(),
                    out@ == before + b@.take(j as int),
                decreases b.len() - j,
            {
                out.push(b[j]);
                j = j + 1;
                assert(out@ == before + b@.take(j as int));
            }
            assert(b@.take(b.len() as int) == b@);
        } else {
            require(self.proof.is_identity(), "full-group proof must be identity")?;
        }
        Ok(out)
    }

    /// Parse a response of `t` values for a group of `r` positions.
    pub fn from_bytes(raw: &[u8], t: usize, r: usize) -> (res: Result<Opening>)
        ensures
            res is Ok <==> {
                &&& 0 < t <= r <= 16384
                &&& raw.len() == response_size(t as int, r as int)
                &&& response_parses(raw@, t as int)
                &&& t < r ==> g1_decodes(raw@.subrange(32 * t, 32 * t + 48))
            },
            !(0 < t <= r <= 16384) ==> (res matches Err(e) && e.0@ == "response dimensions"@),
            0 < t <= r <= 16384 && raw.len() != response_size(t as int, r as int) ==> (res matches Err(e)
                && e.0@ == "response byte length"@),
            res matches Ok(o) ==> {
                &&& o.values.len() == t
                &&& forall|k: int| 0 <= k < t ==> #[trigger] fes(o.values@)[k] == le_value(chunk(raw@, k))
                &&& o.proof.encoding() == if t < r {
                    g1_decoded(raw@.subrange(32 * t, 32 * t + 48))
                } else {
                    g1_identity_encoding()
                }
            },
    {
        require(t > 0 && t <= r && r <= 16384, "response dimensions")?;
        let size = t * 32 + if t < r {
            48
        } else {
            0
        };
        require(raw.len() == size, "response byte length")?;
        let mut values: Vec<Fe> = Vec::new();
        let mut k: usize = 0;
        while k < t
            invariant
                0 < t <= r <= 16384,
                raw.len() == size,
                size == response_size(t as int, r as int),
                k <= t,
                values.len() == k,
                forall|u: int| 0 <= u < k ==> le_value(#[trigger] chunk(raw@, u)) < modulus(),
                forall|u: int| 0 <= u < k ==> #[trigger] fes(values@)[u] == le_value(chunk(raw@, u)),
            decreases t - k,
        {
            let part = &raw[k * 32..k * 32 + 32];
            assert(part@ == chunk(raw@, k as int));
            match fr_from_bytes(part) {
                Some(v) => {
                    let ghost before = values@;
                    values.push(v);
                    assert(fes(values@)[k as int] == le_value(chunk(raw@, k as int)));
                    assert forall|u: int| 0 <= u < k implies #[trigger] fes(values@)[u] == le_value(chunk(raw@, u)) by {
                        assert(values@[u] == before[u]);
                        assert(fes(before)[u] == le_value(chunk(raw@, u)));
                    }
                },
                None => {
                    return Err(Error("invalid field element encoding".to_owned()));
                },
            }
            k = k + 1;
        }
        let proof = if t < r {
            let part = &raw[t * 32..t * 32 + 48];
            assert(part@ == raw@.subrange(32 * t, 32 * t + 48));
            G1::from_bytes(part)?
        } else {
            G1::identity()
        };
        Ok(Opening { values, proof })
    }
}

/// A response serialized by `to_bytes` parses back to the same opening.
pub proof fn lemma_response_round_trip(values: Seq<int>, proof: Seq<u8>, r: int)
    requires
        0 < values.len() <= r <= 16384,
        forall|k: int| 0 <= k < values.len() ==> 0 <= #[trigger] values[k] < modulus(),
        values.len() < r ==> proof.len() == 48 && g1_decodes(proof) && g1_decoded(proof) == proof,
    ensures
        ({
            let raw = response_bytes(values, proof, r);
            let t = values.len() as int;
            &&& raw.len() == response_size(t, r)
            &&& response_parses(raw, t)
            &&& forall|k: int| 0 <= k < t ==> le_value(#[trigger] chunk(raw, k)) == values[k]
            &&& t < r ==> raw.subrange(32 * t, 32 * t + 48) == proof
        }),
{
    let raw = response_bytes(values, proof, r);
    let t = values.len() as int;
    lemma_field_bytes(values);
    let f = field_bytes(values);
    assert forall|k: int| 0 <= k < t implies #[trigger] chunk(raw, k) == chunk(f, k) by {
        assert(raw.subrange(32 * k, 32 * k + 32) == f.subrange(32 * k, 32 * k + 32));
    }
    assert forall|k: int| 0 <= k < t implies le_value(#[trigger] chunk(raw, k)) == values[k] by {
        assert(chunk(raw, k) == chunk(f, k));
    }
    if t < r {
        assert(raw.subrange(32 * t, 32 * t + 48) == proof);
    }
}

/// Whether each of the `n` consecutive 48-byte chunks of `raw` is a valid G1 point.
pub open spec fn g1_chunks_decode(raw: Seq<u8>, n: int) -> bool {
    forall|k: int| 0 <= k < n ==> #[trigger] g1_decodes(raw.subrange(48 * k, 48 * k + 48))
}

/// The canonical encodings of the `n` consecutive 48-byte chunks of `raw`.
pub open spec fn g1_chunks(raw: Seq<u8>, n: int) -> Seq<Seq<u8>> {
    Seq::new(n as nat, |k: int| g1_decoded(raw.subrange(48 * k, 48 * k + 48)))
}

/// Whether each of the `n` consecutive 96-byte chunks of `raw` is a valid G2 point.
pub open spec fn g2_chunks_decode(raw: Seq<u8>, n: int) -> bool {
    forall|k: int| 0 <= k < n ==> #[trigger] g2_decodes(raw.subrange(96 * k, 96 * k + 96))
}

/// The canonical encodings of the `n` consecutive 96-byte chunks of `raw`.
pub open spec fn g2_chunks(raw: Seq<u8>, n: int) -> Seq<Seq<u8>> {
    Seq::new(n as nat, |k: int| g2_decoded(raw.subrange(96 * k, 96 * k + 96)))
}

/// Decode `n` consecutive G1 points.
pub(crate) fn decode_g1_points(raw: &[u8], n: usize) -> (res: Result<Vec<G1>>)
    requires
        raw.len() == 48 * n,
    ensures
        res is Ok <==> g1_chunks_decode(raw@, n as int),
        res matches Err(e) ==> e.0@ == "invalid G1 encoding"@,
        res matches Ok(v) ==> g1_encodings(v@) == g1_chunks(raw@, n as int),
{
    let mut out: Vec<G1> = Vec::new();
    let mut k: usize = 0;
    while k < n
        invariant
            raw.len() == 48 * n,
            k <= n,
            out.len() == k,
            forall|u: int| 0 <= u < k ==> #[trigger] g1_decodes(raw@.subrange(48 * u, 48 * u + 48)),
            forall|u: int| 0 <= u < k ==> #[trigger] g1_encodings(out@)[u] == g1_chunks(raw@, n as int)[u],
        decreases n - k,
    {
        let part = &raw[48 * k..48 * k + 48];
        assert(part@ == raw@.subrange(48 * k, 48 * k + 48));
        let p = G1::from_bytes(part)?;
        let ghost before = out@;
        out.push(p);
        assert forall|u: int| 0 <= u < k + 1 implies #[trigger] g1_encodings(out@)[u] == g1_chunks(raw@, n as int)[u] by {
            if u < k {
                assert(out@[u] == before[u]);
                assert(g1_encodings(before)[u] == g1_chunks(raw@, n as int)[u]);
            }
        }
        k = k + 1;
    }
    assert(g1_encodings(out@) == g1_chunks(raw@, n as int));
    Ok(out)
}

/// Decode `n` consecutive G2 points.
fn decode_g2_points(raw: &[u8], n: usize) -> (res: Result<Vec<G2>>)
    requires
        raw.len() == 96 * n,
    ensures
        res is Ok <==> g2_chunks_decode(raw@, n as int),
        res matches Err(e) ==> e.0@ == "invalid G2 encoding"@,
        res matches Ok(v) ==> g2_encodings(v@) == g2_chunks(raw@, n as int),
{
    let mut out: Vec<G2> = Vec::new();
    let mut k: usize = 0;
    while k < n
        invariant
            raw.len() == 96 * n,
            k <= n,
            out.len() == k,
            forall|u: int| 0 <= u < k ==> #[trigger] g2_decodes(raw@.subrange(96 * u, 96 * u + 96)),
            forall|u: int| 0 <= u < k ==> #[trigger] g2_encodings(out@)[u] == g2_chunks(raw@, n as int)[u],
        decreases n - k,
    {
        let part = &raw[96 * k..96 * k + 96];
        assert(part@ == raw@.subrange(96 * k, 96 * k + 96));
        let p = G2::from_bytes(part)?;
        let ghost before = out@;
        out.push(p);
        assert forall|u: int| 0 <= u < k + 1 implies #[trigger] g2_encodings(out@)[u] == g2_chunks(raw@, n as int)[u] by {
            if u < k {
                assert(out@[u] == before[u]);
                assert(g2_encodings(before)[u] == g2_chunks(raw@, n as int)[u]);
            }
        }
        k = k + 1;
    }
    assert(g2_encodings(out@) == g2_chunks(raw@, n as int));
    Ok(out)
}

/// Decode a dedicated SRS from `r` compressed G1 points and `r + 1` compressed G2 points.
pub fn decode_srs(r: usize, g1: &[u8], g2: &[u8]) -> (res: Result<PublicSrs>)
    ensures
        res is Ok <==> {
            &&& 2 <= r <= 16384
            &&& g1.len() == 48 * r && g2.len() == 96 * (r + 1)
            &&& g1_chunks_decode(g1@, r as int) && g2_chunks_decode(g2@, r + 1)
            &&& srs_g1_ok(g1_chunks(g1@, r as int)) && srs_g2_ok(g2_chunks(g2@, r + 1))
            &&& g1_chunks(g1@, r as int)[0] == g1_generator_of(1)
            &&& g2_chunks(g2@, r + 1)[0] == g2_generator_of(1)
        },
        !(2 <= r <= 16384) ==> (res matches Err(e) && e.0@ == "SRS bound"@),
        2 <= r <= 16384 && !(g1.len() == 48 * r && g2.len() == 96 * (r + 1)) ==> (res matches Err(e)
            && e.0@ == "SRS byte length"@),
        res matches Ok(srs) ==> {
            &&& srs.g1_view().len() == r && srs.g2_view().len() == r + 1
            &&& srs.g1_view() == g1_chunks(g1@, r as int)
            &&& srs.g2_view() == g2_chunks(g2@, r + 1)
            &&& srs.id_view() == sha256(concat_encodings(srs.g1_view()) + concat_encodings(srs.g2_view()))
        },
{
    require(2 <= r && r <= 16384, "SRS bound")?;
    require(g1.len() == r * 48 && g2.len() == (r + 1) * 96, "SRS byte length")?;
    let p1 = decode_g1_points(g1, r)?;
    let p2 = decode_g2_points(g2, r + 1)?;
    PublicSrs::from_points(r, p1, p2)
}

/// `G1Projective::msm_unchecked` of equal-length bases and scalars.
pub fn msm_g1(bases: &[G1], scalars: &[Fe]) -> (res: Result<G1>)
    ensures
        res is Ok <==> bases.len() == scalars.len(),
        res matches Err(e) ==> e.0@ == "MSM length mismatch"@,
        res matches Ok(c) ==> c.encoding() == msm1(g1_encodings(bases@), fes(scalars@)),
{
    require(bases.len() == scalars.len(), "MSM length mismatch")?;
    Ok(g1_msm(bases, scalars))
}

} // verus!
