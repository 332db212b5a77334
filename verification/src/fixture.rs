//! Deterministic research fixtures: domain-separated ChaCha20 streams, a dedicated SRS
//! from a reproducible (hence untrusted) tau, and random messages. Tau is dropped once
//! the powers are committed.
use crate::domain::{Params, ParamsView};
use crate::error::{require, Error, Result};
use crate::field::{modulus, Fe};
use crate::kzg::{
    g1_generator_multiples, g1_generator_of, g1_generator_times, g2_generator_of, g2_generator_times, le_bytes, sha256,
    sha256_digest, PublicSrs, G1, G2,
};
use crate::protocol::{decimal, push_bytes, push_decimal};
use crate::variants::LongSrs;
use ark_bls12_381::Fr;
use ark_ff::{PrimeField, UniformRand};
use rand::SeedableRng;
use rand_chacha::ChaCha20Rng;
use vstd::arithmetic::power::pow;
use vstd::prelude::*;
use vstd::string::StringSliceAdditionalSpecFns;

verus! {

/// The ChaCha20 generator of rand_chacha.
#[verifier::external_type_specification]
#[verifier::external_body]
pub struct ExChaCha20Rng(ChaCha20Rng);

/// `lrdas-artifact-v1`.
pub open spec fn rng_label() -> Seq<u8> {
    seq![108u8, 114, 100, 97, 115, 45, 97, 114, 116, 105, 102, 97, 99, 116, 45, 118, 49]
}

/// The seed of the stream for `seed` and `label`.
pub open spec fn stream_seed(seed: u64, label: Seq<u8>) -> Seq<u8> {
    sha256(rng_label() + le_bytes(seed as int, 8) + label)
}

/// The eight little-endian bytes of `x`.
fn u64_le_bytes(x: u64) -> (r: Vec<u8>)
    ensures
        r@ == le_bytes(x as int, 8),
{
    let mut out: Vec<u8> = Vec::new();
    let mut y: u64 = x;
    let mut i: usize = 0;
    while i < 8
        invariant
            i <= 8,
            out@ + le_bytes(y as int, (8 - i) as nat) == le_bytes(x as int, 8),
        decreases 8 - i,
    {
        let ghost rest = le_bytes(y as int, (8 - i) as nat);
        assert(rest == seq![(y as int % 256) as u8] + le_bytes(y as int / 256, (8 - i - 1) as nat));
        out.push((y % 256) as u8);
        y = y / 256;
        i = i + 1;
        assert(out@ + le_bytes(y as int, (8 - i) as nat) == le_bytes(x as int, 8)) by {
            assert(out@ + le_bytes(y as int, (8 - i) as nat) =~= (out@.drop_last() + rest));
        }
    }
    assert(le_bytes(y as int, 0) == Seq::<u8>::empty());
    assert(out@ + Seq::<u8>::empty() == out@);
    out
}

/// The seed of the stream for `seed` and the label bytes.
pub fn seed_bytes(seed: u64, label: &[u8]) -> (r: [u8; 32])
    ensures
        r@ == stream_seed(seed, label@),
{
    let mut input: Vec<u8> = Vec::new();
    let tag: [u8; 17] = [108u8, 114, 100, 97, 115, 45, 97, 114, 116, 105, 102, 97, 99, 116, 45, 118, 49];
    assert(tag@ == rng_label());
    push_bytes(&mut input, &tag);
    let le = u64_le_bytes(seed);
    push_bytes(&mut input, le.as_slice());
    push_bytes(&mut input, label);
    sha256_digest(input.as_slice())
}

/// The generator that `ChaCha20Rng::from_seed` gives for `seed`.
pub uninterp spec fn seeded_chacha(seed: Seq<u8>) -> ChaCha20Rng;

/// `ChaCha20Rng::from_seed` from rand_chacha: the stream keyed by `seed`, the same for
/// the same seed.
#[verifier::external_body]
fn chacha_from_seed(seed: [u8; 32]) -> (r: ChaCha20Rng)
    ensures
        r == seeded_chacha(seed@),
{
    ChaCha20Rng::from_seed(seed)
}

/// `Fr::rand` from ark-ff: the next uniformly distributed scalar of the stream.
#[verifier::external_body]
pub(crate) fn draw_scalar(rng: &mut ChaCha20Rng) -> Fe {
    Fe::from_limbs(Fr::rand(rng).into_bigint().0).unwrap()
}

/// The ChaCha20 stream keyed by the seed of `seed` and the label bytes.
pub(crate) fn stream(seed: u64, label: &[u8]) -> (r: ChaCha20Rng)
    ensures
        r == seeded_chacha(stream_seed(seed, label@)),
{
    chacha_from_seed(seed_bytes(seed, label))
}

/// Domain-separated deterministic generator with a reproducible ChaCha20 algorithm.
pub fn rng(seed: u64, label: &str) -> (r: ChaCha20Rng)
    ensures
        r == seeded_chacha(stream_seed(seed, label.spec_bytes())),
{
    stream(seed, label.as_bytes())
}

/// Draw scalars until one is neither zero nor one.
fn sample_tau(rng: &mut ChaCha20Rng) -> (res: Result<Fe>)
    ensures
        res matches Ok(t) ==> t@ != 0 && t@ != 1,
        res matches Err(e) ==> e.0@ == "setup sampling exhausted"@,
{
    let mut tau = draw_scalar(rng);
    let mut attempts: u64 = 0;
    while (tau.is_zero() || tau.is_one()) && attempts < u64::MAX
        invariant
            attempts <= u64::MAX,
        decreases u64::MAX - attempts,
    {
        tau = draw_scalar(rng);
        attempts = attempts + 1;
    }
    require(!(tau.is_zero() || tau.is_one()), "setup sampling exhausted")?;
    Ok(tau)
}

/// The dedicated SRS of `tau`: `r` powers in G1 and `r + 1` in G2.
pub open spec fn srs_powers(tau: int, r: nat) -> (Seq<Seq<u8>>, Seq<Seq<u8>>) {
    (
        Seq::new(r, |i: int| g1_generator_of(pow(tau, i as nat) % modulus())),
        Seq::new(r + 1, |i: int| g2_generator_of(pow(tau, i as nat) % modulus())),
    )
}

/// A dedicated SRS fixture for `r` coefficients, from the stream labelled with `r`.
pub fn setup(r: usize, seed: u64) -> (res: Result<PublicSrs>)
    ensures
        !(2 <= r <= 16384) ==> (res matches Err(e) && e.0@ == "unsupported setup degree"@),
        res matches Ok(srs) ==> exists|tau: int|
            {
                &&& 2 <= tau < modulus()
                &&& #[trigger] srs_powers(tau, r as nat) == (srs.g1_view(), srs.g2_view())
            },
{
    require(2 <= r && r <= 16384, "unsupported setup degree")?;
    let mut label: Vec<u8> = Vec::new();
    let head: [u8; 13] = [115u8, 101, 116, 117, 112, 45, 100, 101, 103, 114, 101, 101, 45];
    push_bytes(&mut label, &head);
    push_decimal(&mut label, r);
    let mut rng = stream(seed, label.as_slice());
    let tau = sample_tau(&mut rng)?;
    proof {
        Fe::lemma_range(tau);
    }
    let ghost t = tau@;
    let mut power = Fe::one();
    proof {
        vstd::arithmetic::power::lemma_pow0(t);
        crate::polynomial::lemma_modulus_positive();
        vstd::arithmetic::div_mod::lemma_small_mod(1, modulus() as nat);
    }
    let mut g1: Vec<G1> = Vec::new();
    let mut g2: Vec<G2> = Vec::new();
    let mut i: usize = 0;
    while i <= r
        invariant
            2 <= r <= 16384,
            0 <= t < modulus(),
            t == tau@,
            i <= r + 1,
            power@ == pow(t, i as nat) % modulus(),
            g1.len() == if i < r { i as int } else { r as int },
            g2.len() == i,
            forall|u: int| 0 <= u < g1.len() ==> #[trigger] g1@[u].encoding() == g1_generator_of(
                pow(t, u as nat) % modulus(),
            ),
            forall|u: int| 0 <= u < g2.len() ==> #[trigger] g2@[u].encoding() == g2_generator_of(
                pow(t, u as nat) % modulus(),
            ),
        decreases r + 1 - i,
    {
        if i < r {
            g1.push(g1_generator_times(power));
        }
        g2.push(g2_generator_times(power));
        let next = power.mul(tau);
        proof {
            crate::domain::lemma_pow_step_mod(t, i as nat);
        }
        power = next;
        i = i + 1;
    }
    let ghost views = srs_powers(t, r as nat);
    let srs = PublicSrs::from_points(r, g1, g2)?;
    proof {
        assert(srs.g1_view() == views.0);
        assert(srs.g2_view() == views.1);
    }
    Ok(srs)
}

/// A uniformly random message of `k` coefficients, residual coordinates included.
pub fn message(p: Params, seed: u64) -> (msg: Vec<Fe>)
    ensures
        msg.len() == p@.k(),
{
    let mut rng = rng(seed, "message");
    let k = p.k();
    let mut out: Vec<Fe> = Vec::new();
    let mut i: usize = 0;
    while i < k
        invariant
            i <= k,
            out.len() == i,
        decreases k - i,
    {
        out.push(draw_scalar(&mut rng));
        i = i + 1;
    }
    out
}


/// A long SRS fixture with degree enforcement for `p`, from the stream labelled with its
/// degree and dimensions.
pub fn long_setup(p: Params, seed: u64) -> (res: Result<LongSrs>)
    ensures
        !(p@.m <= p@.degree() < 1048576) ==> (res matches Err(e) && e.0@ == "long fixture degree"@),
        res matches Ok(s) ==> exists|tau: int|
            {
                &&& 2 <= tau < modulus()
                &&& #[trigger] long_powers(tau, p@) == (
                    s.g1_view(),
                    s.g2_view(),
                    s.shift_r_view(),
                    s.shift_b_view(),
                )
            },
{
    let ghost v = p@;
    proof {
        use_type_invariant(&p);
        crate::domain::lemma_valid_bounds(v);
    }
    let degree = p.degree();
    require(degree >= p.m() && degree < 1_048_576, "long fixture degree")?;
    let mut label: Vec<u8> = Vec::new();
    let head: [u8; 16] = [108u8, 111, 110, 103, 45, 115, 114, 115, 45, 100, 101, 103, 114, 101, 101, 45];
    push_bytes(&mut label, &head);
    push_decimal(&mut label, degree);
    let mid: [u8; 3] = [45u8, 114, 45];
    push_bytes(&mut label, &mid);
    push_decimal(&mut label, p.r());
    let tail: [u8; 3] = [45u8, 98, 45];
    push_bytes(&mut label, &tail);
    push_decimal(&mut label, p.b());
    let mut rng = stream(seed, label.as_slice());
    let tau = sample_tau(&mut rng)?;
    proof {
        Fe::lemma_range(tau);
        vstd::arithmetic::power::lemma_pow0(tau@);
        crate::polynomial::lemma_modulus_positive();
        vstd::arithmetic::div_mod::lemma_small_mod(1, modulus() as nat);
    }
    let ghost t = tau@;
    let mut powers: Vec<Fe> = Vec::new();
    let mut power = Fe::one();
    let mut i: usize = 0;
    while i <= degree
        invariant
            degree < 1048576,
            0 <= t < modulus(),
            t == tau@,
            i <= degree + 1,
            power@ == pow(t, i as nat) % modulus(),
            powers.len() == i,
            forall|u: int| 0 <= u < i ==> #[trigger] powers@[u]@ == pow(t, u as nat) % modulus(),
        decreases degree + 1 - i,
    {
        powers.push(power);
        let next = power.mul(tau);
        proof {
            crate::domain::lemma_pow_step_mod(t, i as nat);
        }
        power = next;
        i = i + 1;
    }
    let suggested = crate::kzg::fixed_base_window(powers.len());
    let window: usize = if suggested < 12 {
        suggested
    } else {
        12
    };
    let g1 = g1_generator_multiples(powers.as_slice(), window);
    let mut g2: Vec<G2> = Vec::new();
    let mut i: usize = 0;
    while i <= p.m()
        invariant
            v == p@,
            v.m <= degree,
            powers.len() == degree + 1,
            forall|u: int| 0 <= u < powers.len() ==> #[trigger] powers@[u]@ == pow(t, u as nat) % modulus(),
            i <= v.m + 1,
            g2.len() == i,
            forall|u: int| 0 <= u < i ==> #[trigger] g2@[u].encoding() == g2_generator_of(
                pow(t, u as nat) % modulus(),
            ),
        decreases v.m + 1 - i,
    {
        g2.push(g2_generator_times(powers[i]));
        i = i + 1;
    }
    let er = (degree - p.r() + 1) as u64;
    let shift_r = g2_generator_times(tau.pow(er));
    let shift_b = if p.b() > 0 {
        let eb = (degree - p.b() + 1) as u64;
        Some(g2_generator_times(tau.pow(eb)))
    } else {
        None
    };
    let ghost views = long_powers(t, v);
    let srs = LongSrs::from_points(p, g1, g2, shift_r, shift_b)?;
    proof {
        assert(srs.g1_view() == views.0);
        assert(srs.g2_view() == views.1);
    }
    Ok(srs)
}

/// The long SRS of `tau` for `v`: `D + 1` powers in G1, `m + 1` in G2 and the G2
/// elements `tau^(D - r + 1)` and, with a residual, `tau^(D - b + 1)`.
pub open spec fn long_powers(tau: int, v: ParamsView) -> (Seq<Seq<u8>>, Seq<Seq<u8>>, Seq<u8>, Option<Seq<u8>>) {
    let d = v.degree();
    (
        Seq::new((d + 1) as nat, |i: int| crate::kzg::g1_fixed_base_of(pow(tau, i as nat) % modulus())),
        Seq::new(v.m + 1, |i: int| g2_generator_of(pow(tau, i as nat) % modulus())),
        g2_generator_of(pow(tau, (d - v.r + 1) as nat) % modulus()),
        if v.b > 0 {
            Some(g2_generator_of(pow(tau, (d - v.b + 1) as nat) % modulus()))
        } else {
            None
        },
    )
}

} // verus!
