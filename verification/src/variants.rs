//! Variants that bind local commitments to the global code: a long SRS with degree
//! enforcement (Profile B headers), supplied auxiliary proofs, and receivers that verify,
//! certify and serve one group with the dedicated local SRS.
use crate::domain::{outer_value, point_value, Domain, Params, ParamsView, Scheme};
use crate::error::{require, Error, Result};
use crate::field::{modulus, Fe};
use crate::kzg::{
    append_g1, append_g2, concat_encodings, decode_g1_points, g1_chunks, g1_chunks_decode, g1_encodings,
    g1_generator_times, g1_identity_encoding, g1_in_subgroup, g1_subgroup_check, g2_encodings,
    g2_generator_times, g2_identity_encoding, g2_in_subgroup, g2_subgroup_check, msm1, sha256, sha256_digest,
    srs_g1_ok, srs_g2_ok, PublicSrs, G1, G2, g1_scaled, g1_sum, pairing_equal, pairing_product, pairing_triple,
    pairing_triple_one, Opening,
};
use crate::fixture::draw_scalar;
use crate::protocol::VerifiedHeader;
use rand_chacha::ChaCha20Rng;
use crate::polynomial::fes;
use crate::protocol::{json_bytes, params_json, push_bytes, scheme_bytes};
use vstd::prelude::*;

verus! {

/// `long-srs-with-degree-enforcement-v1`.
pub open spec fn long_label() -> Seq<u8> {
    seq![
        108u8, 111, 110, 103, 45, 115, 114, 115, 45, 119, 105, 116, 104, 45, 100, 101, 103, 114, 101,
        101, 45, 101, 110, 102, 111, 114, 99, 101, 109, 101, 110, 116, 45, 118, 49,
    ]
}

/// The encoding of an optional G2 point.
pub open spec fn opt_g2(o: Option<G2>) -> Option<Seq<u8>> {
    match o {
        Some(x) => Some(x.encoding()),
        None => None,
    }
}

/// The bytes of an optional encoding: the encoding, or nothing.
pub open spec fn opt_bytes(o: Option<Seq<u8>>) -> Seq<u8> {
    match o {
        Some(x) => x,
        None => Seq::empty(),
    }
}

/// What `LongSrs::from_points` accepts.
pub open spec fn long_srs_ok(
    v: ParamsView,
    g1s: Seq<Seq<u8>>,
    g2s: Seq<Seq<u8>>,
    shr: Seq<u8>,
    shb: Option<Seq<u8>>,
) -> bool {
    &&& v.m < g1s.len() <= 1048576 && g2s.len() == v.m + 1
    &&& (shb is Some) == (v.b > 0)
    &&& forall|i: int| 0 <= i < g1s.len() ==> #[trigger] g1_in_subgroup(g1s[i])
    &&& srs_g2_ok(g2s)
    &&& g2_in_subgroup(shr) && shr != g2_identity_encoding()
    &&& shb matches Some(x) ==> g2_in_subgroup(x) && x != g2_identity_encoding()
    &&& forall|i: int| 0 <= i < g1s.len() ==> #[trigger] g1s[i] != g1_identity_encoding()
    &&& g1s[0] == crate::kzg::g1_generator_of(1) && g2s[0] == crate::kzg::g2_generator_of(1)
}

/// A prefix of points.
fn g1_prefix(v: &[G1], n: usize) -> (r: Vec<G1>)
    requires
        n <= v.len(),
    ensures
        r@ == v@.take(n as int),
{
    let mut out: Vec<G1> = Vec::new();
    let mut i: usize = 0;
    while i < n
        invariant
            i <= n <= v.len(),
            out@ == v@.take(i as int),
        decreases n - i,
    {
        out.push(v[i]);
        i = i + 1;
        assert(out@ == v@.take(i as int));
    }
    out
}

/// A prefix of points.
fn g2_prefix(v: &[G2], n: usize) -> (r: Vec<G2>)
    requires
        n <= v.len(),
    ensures
        r@ == v@.take(n as int),
{
    let mut out: Vec<G2> = Vec::new();
    let mut i: usize = 0;
    while i < n
        invariant
            i <= n <= v.len(),
            out@ == v@.take(i as int),
        decreases n - i,
    {
        out.push(v[i]);
        i = i + 1;
        assert(out@ == v@.take(i as int));
    }
    out
}

/// A long SRS: `D + 1` powers in G1, `m + 1` in G2, the G2 elements of the degree
/// checks, and the dedicated local SRS of its first powers.
pub struct LongSrs {
    params: Params,
    g1: Vec<G1>,
    g2: Vec<G2>,
    shift_r: G2,
    shift_b: Option<G2>,
    local: PublicSrs,
    id: [u8; 32],
}

impl LongSrs {
    /// The sizes and the local prefix hold.
    #[verifier::type_invariant]
    closed spec fn shaped(self) -> bool {
        &&& self.params@.m < self.g1.len() <= 1048576
        &&& self.g2.len() == self.params@.m + 1
        &&& (self.shift_b is Some) == (self.params@.b > 0)
        &&& self.local.g1_view() == g1_encodings(self.g1@).take(self.params@.r as int)
        &&& self.local.g2_view() == g2_encodings(self.g2@).take(self.params@.r + 1int)
    }

    /// The dimensions.
    pub closed spec fn params_view(self) -> ParamsView {
        self.params@
    }

    /// The G1 powers.
    pub closed spec fn g1_view(self) -> Seq<Seq<u8>> {
        g1_encodings(self.g1@)
    }

    /// The G2 powers.
    pub closed spec fn g2_view(self) -> Seq<Seq<u8>> {
        g2_encodings(self.g2@)
    }

    /// The G2 element of the source degree check.
    pub closed spec fn shift_r_view(self) -> Seq<u8> {
        self.shift_r.encoding()
    }

    /// The G2 element of the residual degree check, with a residual.
    pub closed spec fn shift_b_view(self) -> Option<Seq<u8>> {
        opt_g2(self.shift_b)
    }

    /// The dedicated local SRS.
    pub closed spec fn local_view(self) -> PublicSrs {
        self.local
    }

    /// The identity digest.
    pub closed spec fn id_view(self) -> Seq<u8> {
        self.id@
    }

    /// Check dimensions, subgroup membership, non-identity and generators, build the local
    /// SRS and derive the identity.
    pub fn from_points(p: Params, g1: Vec<G1>, g2: Vec<G2>, shift_r: G2, shift_b: Option<G2>) -> (res: Result<
        Self,
    >)
        ensures
            res is Ok <==> long_srs_ok(p@, g1_encodings(g1@), g2_encodings(g2@), shift_r.encoding(), opt_g2(shift_b)),
            !(p@.m < g1.len() <= 1048576 && g2.len() == p@.m + 1) ==> (res matches Err(e) && e.0@
                == "long SRS dimensions"@),
            res matches Err(e) ==> e.0@ == "long SRS dimensions"@ || e.0@ == "residual degree-check element"@
                || e.0@ == "invalid long SRS point"@ || e.0@ == "long SRS generators"@,
            res matches Ok(s) ==> {
                &&& s.params_view() == p@
                &&& s.g1_view() == g1_encodings(g1@)
                &&& s.g2_view() == g2_encodings(g2@)
                &&& s.shift_r_view() == shift_r.encoding()
                &&& s.shift_b_view() == opt_g2(shift_b)
                &&& s.local_view().g1_view() == g1_encodings(g1@).take(p@.r as int)
                &&& s.local_view().g2_view() == g2_encodings(g2@).take(p@.r + 1int)
                &&& s.id_view() == sha256(
                    long_label() + concat_encodings(g1_encodings(g1@)) + concat_encodings(g2_encodings(g2@))
                        + shift_r.encoding() + opt_bytes(opt_g2(shift_b)),
                )
            },
    {
        let ghost v = p@;
        let ghost e1 = g1_encodings(g1@);
        let ghost e2 = g2_encodings(g2@);
        proof {
            use_type_invariant(&p);
            crate::domain::lemma_valid_bounds(v);
        }
        require(g1.len() > p.m() && g1.len() <= 1_048_576 && g2.len() == p.m() + 1, "long SRS dimensions")?;
        require(shift_b.is_some() == (p.b() > 0), "residual degree-check element")?;
        let mut ok = true;
        let mut i: usize = 0;
        while i < g1.len()
            invariant
                e1 == g1_encodings(g1@),
                i <= g1.len(),
                ok == forall|t: int| 0 <= t < i ==> #[trigger] g1_in_subgroup(e1[t]),
            decreases g1.len() - i,
        {
            assert(e1[i as int] == g1@[i as int].encoding());
            if !g1_subgroup_check(&g1[i]) {
                ok = false;
            }
            i = i + 1;
        }
        let mut i: usize = 0;
        while i < g2.len()
            invariant
                e2 == g2_encodings(g2@),
                i <= g2.len(),
                ok == ((forall|t: int| 0 <= t < g1.len() ==> #[trigger] g1_in_subgroup(e1[t])) && forall|t: int|
                    0 <= t < i ==> g2_in_subgroup(#[trigger] e2[t]) && e2[t] != g2_identity_encoding()),
                e1 == g1_encodings(g1@),
            decreases g2.len() - i,
        {
            assert(e2[i as int] == g2@[i as int].encoding());
            if !(g2_subgroup_check(&g2[i]) && !g2[i].is_identity()) {
                ok = false;
            }
            i = i + 1;
        }
        if !(g2_subgroup_check(&shift_r) && !shift_r.is_identity()) {
            ok = false;
        }
        match shift_b {
            Some(x) => {
                if !(g2_subgroup_check(&x) && !x.is_identity()) {
                    ok = false;
                }
            },
            None => {},
        }
        require(ok, "invalid long SRS point")?;
        let mut nonzero = true;
        let mut i: usize = 0;
        while i < g1.len()
            invariant
                e1 == g1_encodings(g1@),
                i <= g1.len(),
                nonzero == forall|t: int| 0 <= t < i ==> #[trigger] e1[t] != g1_identity_encoding(),
            decreases g1.len() - i,
        {
            assert(e1[i as int] == g1@[i as int].encoding());
            if g1[i].is_identity() {
                nonzero = false;
            }
            i = i + 1;
        }
        let gen1 = g1_generator_times(Fe::one());
        let gen2 = g2_generator_times(Fe::one());
        assert(e1[0] == g1@[0].encoding());
        assert(e2[0] == g2@[0].encoding());
        require(nonzero && g1[0].same(&gen1) && g2[0].same(&gen2), "long SRS generators")?;
        let r = p.r();
        let lg1 = g1_prefix(g1.as_slice(), r);
        let lg2 = g2_prefix(g2.as_slice(), r + 1);
        proof {
            assert(g1_encodings(lg1@) == e1.take(r as int));
            assert(g2_encodings(lg2@) == e2.take(r + 1));
            assert forall|t: int| 0 <= t < r implies g1_in_subgroup(#[trigger] g1_encodings(lg1@)[t])
                && g1_encodings(lg1@)[t] != g1_identity_encoding() by {
                assert(g1_encodings(lg1@)[t] == e1[t]);
            }
            assert forall|t: int| 0 <= t < r + 1 implies g2_in_subgroup(#[trigger] g2_encodings(lg2@)[t])
                && g2_encodings(lg2@)[t] != g2_identity_encoding() by {
                assert(g2_encodings(lg2@)[t] == e2[t]);
            }
        }
        let local = match PublicSrs::from_points(r, lg1, lg2) {
            Ok(s) => s,
            Err(e) => {
                return Err(e);
            },
        };
        let mut input: Vec<u8> = Vec::new();
        let label: [u8; 35] = [
            108u8, 111, 110, 103, 45, 115, 114, 115, 45, 119, 105, 116, 104, 45, 100, 101, 103, 114, 101,
            101, 45, 101, 110, 102, 111, 114, 99, 101, 109, 101, 110, 116, 45, 118, 49,
        ];
        assert(label@ == long_label());
        push_bytes(&mut input, &label);
        append_g1(&mut input, g1.as_slice());
        append_g2(&mut input, g2.as_slice());
        let sr = shift_r.to_bytes();
        push_bytes(&mut input, sr.as_slice());
        match shift_b {
            Some(x) => {
                let sb = x.to_bytes();
                push_bytes(&mut input, sb.as_slice());
            },
            None => {},
        }
        let id = sha256_digest(input.as_slice());
        Ok(LongSrs { params: p, g1, g2, shift_r, shift_b, local, id })
    }
}


/// The context of Profile B and supplied headers: the long SRS identity, the dimensions
/// and the scheme.
pub open spec fn long_context_of(srs_id: Seq<u8>, v: ParamsView, s: Scheme) -> Seq<u8> {
    sha256(srs_id + json_bytes(v) + scheme_bytes(s))
}

impl LongSrs {
    /// The global degree bound `D`.
    pub fn degree(&self) -> (d: usize)
        ensures
            d == self.g1_view().len() - 1,
            d >= self.params_view().m,
            d < 1048576,
    {
        proof {
            use_type_invariant(self);
        }
        self.g1.len() - 1
    }

    /// The dedicated local SRS of the first powers.
    pub fn local(&self) -> (s: &PublicSrs)
        ensures
            *s == self.local_view(),
            s.g1_view() == self.g1_view().take(self.params_view().r as int),
            s.g2_view() == self.g2_view().take(self.params_view().r + 1int),
            self.params_view().r < self.g1_view().len(),
    {
        proof {
            use_type_invariant(self);
            use_type_invariant(&self.params);
        }
        &self.local
    }

    /// The G1 powers.
    pub fn g1(&self) -> (r: &[G1])
        ensures
            g1_encodings(r@) == self.g1_view(),
            r.len() > self.params_view().m,
    {
        proof {
            use_type_invariant(self);
        }
        self.g1.as_slice()
    }

    /// The G2 powers.
    pub fn g2(&self) -> (r: &[G2])
        ensures
            g2_encodings(r@) == self.g2_view(),
            r.len() == self.params_view().m + 1,
    {
        proof {
            use_type_invariant(self);
        }
        self.g2.as_slice()
    }

    /// Commit to at most `D + 1` coefficients.
    pub fn commit(&self, coeffs: &[Fe]) -> (res: Result<G1>)
        ensures
            res is Ok <==> coeffs.len() <= self.g1_view().len(),
            res matches Err(e) ==> e.0@ == "long commitment degree"@,
            res matches Ok(c) ==> c.encoding() == msm1(self.g1_view().take(coeffs.len() as int), fes(coeffs@)),
    {
        require(coeffs.len() <= self.g1.len(), "long commitment degree")?;
        let bases = &self.g1.as_slice()[0..coeffs.len()];
        assert(bases@ == self.g1@.take(coeffs.len() as int));
        assert(g1_encodings(bases@) == self.g1_view().take(coeffs.len() as int));
        crate::kzg::msm_g1(bases, coeffs)
    }

    /// Commit to coefficients shifted to the top of the powers: `X^(D + 1 - bound) c(X)`.
    pub fn shifted(&self, coeffs: &[Fe], bound: usize) -> (res: Result<G1>)
        ensures
            res is Ok <==> 0 < bound <= self.g1_view().len() && coeffs.len() <= bound,
            res matches Err(e) ==> e.0@ == "shifted commitment degree"@,
            res matches Ok(c) ==> c.encoding() == msm1(
                self.g1_view().subrange(
                    self.g1_view().len() - bound,
                    self.g1_view().len() - bound + coeffs.len(),
                ),
                fes(coeffs@),
            ),
    {
        require(bound > 0 && bound <= self.g1.len() && coeffs.len() <= bound, "shifted commitment degree")?;
        let start = self.g1.len() - bound;
        let bases = &self.g1.as_slice()[start..start + coeffs.len()];
        assert(bases@ == self.g1@.subrange(start as int, start + coeffs.len()));
        assert(g1_encodings(bases@) == self.g1_view().subrange(start as int, start + coeffs.len()));
        crate::kzg::msm_g1(bases, coeffs)
    }

    /// The context of headers under this SRS for `domain` and `scheme`.
    pub fn context(&self, domain: &Domain, scheme: Scheme) -> (res: Result<[u8; 32]>)
        ensures
            res is Ok <==> self.params_view() == domain.parameters()@,
            res matches Err(e) ==> e.0@ == "long SRS parameters"@,
            res matches Ok(c) ==> c@ == long_context_of(self.id_view(), self.params_view(), scheme),
    {
        require(self.params.same(domain.params()), "long SRS parameters")?;
        let mut input: Vec<u8> = Vec::new();
        push_bytes(&mut input, &self.id);
        let json = params_json(self.params);
        push_bytes(&mut input, json.as_slice());
        match scheme {
            Scheme::Lrdas => {
                let name: [u8; 5] = [108u8, 114, 100, 97, 115];
                assert(name@ == scheme_bytes(scheme));
                push_bytes(&mut input, &name);
            },
            Scheme::Product => {
                let name: [u8; 7] = [112u8, 114, 111, 100, 117, 99, 116];
                assert(name@ == scheme_bytes(scheme));
                push_bytes(&mut input, &name);
            },
        }
        Ok(sha256_digest(input.as_slice()))
    }
}


/// The encodings of an optional pair of points.
pub open spec fn opt_pair(o: Option<(G1, G1)>) -> Option<(Seq<u8>, Seq<u8>)> {
    match o {
        Some(x) => Some((x.0.encoding(), x.1.encoding())),
        None => None,
    }
}

/// The powers `1, rho, ..., rho^(n-1)` of the batching challenge, reduced.
pub open spec fn challenge_powers(rho: int, n: nat) -> Seq<int> {
    Seq::new(n, |s: int| vstd::arithmetic::power::pow(rho, s as nat) % modulus())
}

/// The batched degree checks of a Profile B header for the challenge `rho`: the source
/// points against their shifts with `X^(D - r + 1)`, and the residual against its shift
/// with `X^(D - b + 1)`.
pub open spec fn degree_checks(
    v: ParamsView,
    source: Seq<Seq<u8>>,
    shifted: Seq<Seq<u8>>,
    residual: Option<(Seq<u8>, Seq<u8>)>,
    shr: Seq<u8>,
    shb: Option<Seq<u8>>,
    g2_0: Seq<u8>,
    rho: int,
) -> bool {
    let w = challenge_powers(rho, v.a);
    let left = msm1(source, w);
    let right = msm1(shifted, w);
    let top = vstd::arithmetic::power::pow(rho, v.a) % modulus();
    match residual {
        Some(pair) => shb matches Some(sb) && pairing_triple_one(
            left,
            shr,
            g1_scaled(pair.0, top),
            sb,
            g1_sum(right, g1_scaled(pair.1, top)),
            g2_0,
        ),
        None => pairing_equal(left, shr, right, g2_0),
    }
}

/// Both the `u`-th source commitment and its shift lie in the subgroup.
pub open spec fn both_in_subgroup(source: Seq<Seq<u8>>, shifted: Seq<Seq<u8>>, u: int) -> bool {
    g1_in_subgroup(source[u]) && g1_in_subgroup(shifted[u])
}

/// A Profile B header: source commitments, their shifts, and a residual pair.
pub struct ProfileBHeader {
    context: [u8; 32],
    scheme: Scheme,
    source: Vec<G1>,
    shifted: Vec<G1>,
    residual: Option<(G1, G1)>,
}

impl Clone for ProfileBHeader {
    fn clone(&self) -> (r: Self)
        ensures
            r.context_view() == self.context_view(),
            r.scheme_view() == self.scheme_view(),
            r.source_view() == self.source_view(),
            r.shifted_view() == self.shifted_view(),
            r.residual_view() == self.residual_view(),
    {
        ProfileBHeader {
            context: self.context,
            scheme: self.scheme,
            source: g1_prefix(self.source.as_slice(), self.source.len()),
            shifted: g1_prefix(self.shifted.as_slice(), self.shifted.len()),
            residual: self.residual,
        }
    }
}

impl ProfileBHeader {
    /// The context digest.
    pub closed spec fn context_view(self) -> Seq<u8> {
        self.context@
    }

    /// The scheme.
    pub closed spec fn scheme_view(self) -> Scheme {
        self.scheme
    }

    /// Source commitments.
    pub closed spec fn source_view(self) -> Seq<Seq<u8>> {
        g1_encodings(self.source@)
    }

    /// Shifted source commitments.
    pub closed spec fn shifted_view(self) -> Seq<Seq<u8>> {
        g1_encodings(self.shifted@)
    }

    /// The residual commitment and its shift.
    pub closed spec fn residual_view(self) -> Option<(Seq<u8>, Seq<u8>)> {
        opt_pair(self.residual)
    }

    /// Whether the header passes against the long SRS for the challenge `rho`: context,
    /// shape, subgroup membership of every point and the batched degree checks.
    pub open spec fn accepts_with(self, v: ParamsView, srs: LongSrs, rho: int) -> bool {
        &&& srs.params_view() == v
        &&& self.context_view() == long_context_of(srs.id_view(), v, self.scheme_view())
        &&& self.source_view().len() == v.a && self.shifted_view().len() == v.a
        &&& (self.residual_view() is Some) == (v.b > 0)
        &&& forall|t: int| 0 <= t < v.a ==> #[trigger] both_in_subgroup(self.source_view(), self.shifted_view(), t)
        &&& self.residual_view() matches Some(pair) ==> g1_in_subgroup(pair.0) && g1_in_subgroup(pair.1)
        &&& degree_checks(
            v,
            self.source_view(),
            self.shifted_view(),
            self.residual_view(),
            srs.shift_r_view(),
            srs.shift_b_view(),
            srs.g2_view()[0],
            rho,
        )
    }

    /// Commit to a message's sources and residual with the long SRS, with shifts.
    pub fn commit(domain: &Domain, srs: &LongSrs, scheme: Scheme, message: &[Fe]) -> (res: Result<Self>)
        ensures
            !(scheme != Scheme::Product || domain.parameters()@.b == 0) ==> (res matches Err(e) && e.0@
                == "product residual unsupported"@),
            res is Ok <==> {
                let v = domain.parameters()@;
                &&& scheme != Scheme::Product || v.b == 0
                &&& message.len() == v.k()
                &&& v.b == 0 || outer_value(v, v.a as int) != 0
                &&& srs.params_view() == v
            },
            res matches Ok(h) ==> {
                let v = domain.parameters()@;
                let mv = fes(message@);
                let g = srs.g1_view();
                let src = crate::protocol::message_sources(v, mv);
                let res = crate::protocol::message_residual(v, domain.weight_table(), mv);
                &&& h.source_view() == Seq::new(v.a, |s: int| msm1(g.take(v.r as int), src[s]))
                &&& h.shifted_view() == Seq::new(
                    v.a,
                    |s: int| msm1(g.subrange(g.len() - v.r, g.len() as int), src[s]),
                )
                &&& h.residual_view() == if v.b > 0 {
                    Some(
                        (
                            msm1(g.take(v.b as int), res),
                            msm1(g.subrange(g.len() - v.b, g.len() as int), res),
                        ),
                    )
                } else {
                    None
                }
                &&& h.context_view() == long_context_of(srs.id_view(), v, scheme)
                &&& h.scheme_view() == scheme
            },
    {
        let p = domain.params();
        let ghost v = p@;
        let ghost mv = fes(message@);
        let ghost g = srs.g1_view();
        require(scheme != Scheme::Product || p.b() == 0, "product residual unsupported")?;
        let polys = crate::protocol::MessagePolys::new(domain, message)?;
        let rows = polys.source_coefficients();
        proof {
            use_type_invariant(srs);
            use_type_invariant(&srs.params);
        }
        let mut source: Vec<G1> = Vec::new();
        let mut shifted: Vec<G1> = Vec::new();
        let mut s: usize = 0;
        while s < rows.len()
            invariant
                v == p@,
                v.valid(),
                g == srs.g1_view(),
                p == domain.parameters(),
                scheme != Scheme::Product || v.b == 0,
                rows.len() == v.a,
                mv == fes(message@),
                message.len() == v.k(),
                srs.params_view() == v ==> v.r < srs.g1_view().len(),
                forall|t: int| 0 <= t < rows.len() ==> #[trigger] fes(rows@[t]@) == polys.source_view()[t],
                polys.source_view() == crate::protocol::message_sources(v, mv),
                s <= rows.len(),
                source.len() == s,
                shifted.len() == s,
                forall|t: int| 0 <= t < s ==> #[trigger] g1_encodings(source@)[t] == msm1(
                    g.take(v.r as int),
                    crate::protocol::message_sources(v, mv)[t],
                ),
                forall|t: int| 0 <= t < s ==> #[trigger] g1_encodings(shifted@)[t] == msm1(
                    g.subrange(g.len() - v.r, g.len() as int),
                    crate::protocol::message_sources(v, mv)[t],
                ),
            decreases rows.len() - s,
        {
            assert(crate::protocol::message_sources(v, mv)[s as int] == crate::protocol::message_source(
                mv,
                v.r as int,
                s as int,
            ));
            assert(s * v.r + v.r <= v.a * v.r) by (nonlinear_arith)
                requires
                    0 <= s < v.a,
            ;
            assert(fes(rows@[s as int]@) == crate::protocol::message_source(mv, v.r as int, s as int));
            assert(rows@[s as int]@.len() == fes(rows@[s as int]@).len());
            assert(rows[s as int].len() == v.r);
            let c = srs.commit(rows[s].as_slice())?;
            let sh = srs.shifted(rows[s].as_slice(), p.r())?;
            let ghost b1 = source@;
            let ghost b2 = shifted@;
            source.push(c);
            shifted.push(sh);
            assert forall|t: int| 0 <= t < s + 1 implies #[trigger] g1_encodings(source@)[t] == msm1(
                g.take(v.r as int),
                crate::protocol::message_sources(v, mv)[t],
            ) by {
                if t < s {
                    assert(source@[t] == b1[t]);
                    assert(g1_encodings(b1)[t] == msm1(g.take(v.r as int), crate::protocol::message_sources(v, mv)[t]));
                }
            }
            assert forall|t: int| 0 <= t < s + 1 implies #[trigger] g1_encodings(shifted@)[t] == msm1(
                g.subrange(g.len() - v.r, g.len() as int),
                crate::protocol::message_sources(v, mv)[t],
            ) by {
                if t < s {
                    assert(shifted@[t] == b2[t]);
                    assert(g1_encodings(b2)[t] == msm1(
                        g.subrange(g.len() - v.r, g.len() as int),
                        crate::protocol::message_sources(v, mv)[t],
                    ));
                }
            }
            s = s + 1;
        }
        let residual = if p.b() > 0 {
            let e = polys.residual_coefficients();
            let c = srs.commit(e)?;
            let sh = srs.shifted(e, p.b())?;
            Some((c, sh))
        } else {
            None
        };
        let context = srs.context(domain, scheme)?;
        Ok(ProfileBHeader { context, scheme, source, shifted, residual })
    }

    /// The serialized points: sources, residual, shifted sources, shifted residual.
    pub fn payload(&self) -> (res: Result<Vec<u8>>)
        ensures
            res matches Ok(b) && b@ == concat_encodings(self.source_view()) + match self.residual_view() {
                Some(pair) => pair.0,
                None => Seq::empty(),
            } + concat_encodings(self.shifted_view()) + match self.residual_view() {
                Some(pair) => pair.1,
                None => Seq::empty(),
            },
    {
        let mut out: Vec<u8> = Vec::new();
        append_g1(&mut out, self.source.as_slice());
        match self.residual {
            Some(pair) => {
                let b = pair.0.to_bytes();
                push_bytes(&mut out, b.as_slice());
            },
            None => {},
        }
        append_g1(&mut out, self.shifted.as_slice());
        match self.residual {
            Some(pair) => {
                let b = pair.1.to_bytes();
                push_bytes(&mut out, b.as_slice());
            },
            None => {},
        }
        Ok(out)
    }

    /// The context digest.
    pub fn context(&self) -> (r: [u8; 32])
        ensures
            r@ == self.context_view(),
    {
        self.context
    }

    /// Parse a Profile B header received under `context`.
    pub fn from_payload(domain: &Domain, srs: &LongSrs, scheme: Scheme, context: [u8; 32], raw: &[u8]) -> (res:
        Result<Self>)
        ensures
            res is Ok <==> {
                let v = domain.parameters()@;
                let n = 2 * (v.a + if v.b > 0 { 1int } else { 0int });
                &&& srs.params_view() == v
                &&& context@ == long_context_of(srs.id_view(), v, scheme)
                &&& raw.len() == 48 * n
                &&& g1_chunks_decode(raw@, n)
            },
            res matches Ok(h) ==> {
                let v = domain.parameters()@;
                let k = if v.b > 0 { 1int } else { 0int };
                let pts = g1_chunks(raw@, 2 * (v.a + k));
                &&& h.source_view() == pts.take(v.a as int)
                &&& h.shifted_view() == pts.subrange(v.a + k, 2 * v.a + k)
                &&& h.residual_view() == if v.b > 0 {
                    Some((pts[v.a as int], pts[2 * v.a + 1int]))
                } else {
                    None
                }
                &&& h.context_view() == context@
                &&& h.scheme_view() == scheme
            },
    {
        let expected = srs.context(domain, scheme)?;
        require(crate::protocol::same_digest(&context, &expected), "Profile B context")?;
        let p = domain.params();
        let ghost v = p@;
        proof {
            crate::domain::lemma_valid_bounds(v);
        }
        let b: usize = if p.b() > 0 {
            1
        } else {
            0
        };
        let n = 2 * (p.a() + b);
        require(raw.len() == 48 * n, "commitment payload length")?;
        let points = decode_g1_points(raw, n)?;
        assert(g1_encodings(points@).len() == points.len());
        let residual = if b == 1 {
            Some((points[p.a()], points[2 * p.a() + 1]))
        } else {
            None
        };
        let source = g1_prefix(points.as_slice(), p.a());
        let shifted = g1_slice(points.as_slice(), p.a() + b, 2 * p.a() + b);
        proof {
            assert(g1_encodings(source@) == g1_encodings(points@).take(v.a as int));
            assert(g1_encodings(shifted@) == g1_encodings(points@).subrange(v.a + b, 2 * v.a + b));
        }
        Ok(ProfileBHeader { context, scheme, source, shifted, residual })
    }

    /// Check the context, shape, points and the batched degree checks for the challenge
    /// `rho`.
    pub fn verify_with(&self, domain: &Domain, srs: &LongSrs, rho: Fe) -> (res: Result<VerifiedBHeader>)
        ensures
            res is Ok <==> {
                let v = domain.parameters()@;
                &&& srs.params_view() == v
                &&& self.context_view() == long_context_of(srs.id_view(), v, self.scheme_view())
                &&& self.source_view().len() == v.a && self.shifted_view().len() == v.a
                &&& (self.residual_view() is Some) == (v.b > 0)
                &&& forall|t: int| 0 <= t < v.a ==> #[trigger] both_in_subgroup(self.source_view(), self.shifted_view(), t)
                &&& self.residual_view() matches Some(pair) ==> g1_in_subgroup(pair.0) && g1_in_subgroup(pair.1)
                &&& degree_checks(
                    v,
                    self.source_view(),
                    self.shifted_view(),
                    self.residual_view(),
                    srs.shift_r_view(),
                    srs.shift_b_view(),
                    srs.g2_view()[0],
                    rho@,
                )
            },
            res matches Ok(vh) ==> vh.source_view() == self.source_view() && vh.residual_view()
                == self.residual_view() && vh.params_view() == domain.parameters()@ && vh.scheme_view()
                == self.scheme_view() && vh.local_id_view() == srs.local_view().id_view(),
    {
        let expected = srs.context(domain, self.scheme)?;
        require(crate::protocol::same_digest(&self.context, &expected), "Profile B context")?;
        let p = domain.params();
        let ghost v = p@;
        require(
            self.source.len() == p.a() && self.shifted.len() == p.a() && self.residual.is_some() == (p.b() > 0),
            "Profile B shape",
        )?;
        let mut ok = true;
        let mut t: usize = 0;
        while t < self.source.len()
            invariant
                self.source.len() == v.a,
                self.shifted.len() == v.a,
                t <= v.a,
                ok ==> forall|u: int| 0 <= u < t ==> #[trigger] both_in_subgroup(self.source_view(), self.shifted_view(), u),
                !ok ==> exists|u: int| 0 <= u < t && !#[trigger] both_in_subgroup(self.source_view(), self.shifted_view(), u),
            decreases v.a - t,
        {
            assert(self.source_view()[t as int] == self.source@[t as int].encoding());
            assert(self.shifted_view()[t as int] == self.shifted@[t as int].encoding());
            let a_ok = g1_subgroup_check(&self.source[t]);
            let b_ok = g1_subgroup_check(&self.shifted[t]);
            assert(both_in_subgroup(self.source_view(), self.shifted_view(), t as int) == (a_ok && b_ok));
            if !(a_ok && b_ok) {
                ok = false;
            }
            t = t + 1;
        }
        match self.residual {
            Some(pair) => {
                if !(g1_subgroup_check(&pair.0) && g1_subgroup_check(&pair.1)) {
                    ok = false;
                }
            },
            None => {},
        }
        require(ok, "Profile B point")?;
        let mut weights: Vec<Fe> = Vec::new();
        let mut power = Fe::one();
        proof {
            vstd::arithmetic::power::lemma_pow0(rho@);
            crate::polynomial::lemma_modulus_positive();
            vstd::arithmetic::div_mod::lemma_small_mod(1, modulus() as nat);
        }
        let mut s: usize = 0;
        while s < p.a()
            invariant
                v == p@,
                s <= v.a,
                weights.len() == s,
                power@ == vstd::arithmetic::power::pow(rho@, s as nat) % modulus(),
                forall|u: int| 0 <= u < s ==> #[trigger] fes(weights@)[u] == challenge_powers(rho@, v.a)[u],
            decreases v.a - s,
        {
            let ghost before = fes(weights@);
            weights.push(power);
            assert(fes(weights@) == before.push(power@));
            let next = power.mul(rho);
            proof {
                Fe::lemma_range(rho);
                vstd::arithmetic::div_mod::lemma_small_mod(rho@ as nat, modulus() as nat);
                crate::domain::lemma_pow_step_mod(rho@, s as nat);
            }
            power = next;
            s = s + 1;
        }
        assert(fes(weights@) == challenge_powers(rho@, v.a));
        let left = crate::kzg::msm_g1(self.source.as_slice(), weights.as_slice())?;
        let right = crate::kzg::msm_g1(self.shifted.as_slice(), weights.as_slice())?;
        let g2 = srs.g2();
        let check = match self.residual {
            Some(pair) => match srs.shift_b_point() {
                Some(sb) => {
                    let e = pair.0.scale(power);
                    let total = right.add(&pair.1.scale(power));
                    pairing_triple(left, srs.shift_r_point(), e, sb, total, g2[0])
                },
                None => false,
            },
            None => pairing_product(left, srs.shift_r_point(), right, g2[0]),
        };
        require(check, "Profile B degree check")?;
        let header = self.clone();
        assert(g1_encodings(header.source@).len() == header.source@.len());
        assert(g1_encodings(self.source@).len() == self.source@.len());
        assert(header.residual is Some <==> self.residual is Some);
        Ok(VerifiedBHeader { header, params: p, local_id: srs.local().id() })
    }

    /// Check the header with a challenge drawn from `rng`.
    pub fn verify(&self, domain: &Domain, srs: &LongSrs, rng: &mut ChaCha20Rng) -> (res: Result<VerifiedBHeader>)
        ensures
            exists|rho: int|
                0 <= rho < modulus() && (res is Ok <==> #[trigger] self.accepts_with(
                    domain.parameters()@,
                    *srs,
                    rho,
                )),
            res matches Ok(vh) ==> vh.source_view() == self.source_view() && vh.residual_view()
                == self.residual_view() && vh.params_view() == domain.parameters()@ && vh.scheme_view()
                == self.scheme_view() && vh.local_id_view() == srs.local_view().id_view(),
            self.context_view() != long_context_of(srs.id_view(), domain.parameters()@, self.scheme_view())
                ==> res is Err,
    {
        let rho = draw_scalar(rng);
        let res = self.verify_with(domain, srs, rho);
        proof {
            Fe::lemma_range(rho);
            assert((res is Ok) == self.accepts_with(domain.parameters()@, *srs, rho@));
        }
        res
    }
}

/// Consecutive points.
fn g1_slice(v: &[G1], from: usize, to: usize) -> (r: Vec<G1>)
    requires
        from <= to <= v.len(),
    ensures
        r@ == v@.subrange(from as int, to as int),
{
    let mut out: Vec<G1> = Vec::new();
    let mut i: usize = from;
    while i < to
        invariant
            from <= i <= to <= v.len(),
            out@ == v@.subrange(from as int, i as int),
        decreases to - i,
    {
        out.push(v[i]);
        i = i + 1;
        assert(out@ == v@.subrange(from as int, i as int));
    }
    out
}

impl LongSrs {
    /// The G2 element of the source degree check.
    pub fn shift_r_point(&self) -> (r: G2)
        ensures
            r.encoding() == self.shift_r_view(),
    {
        self.shift_r
    }

    /// The G2 element of the residual degree check.
    pub fn shift_b_point(&self) -> (r: Option<G2>)
        ensures
            opt_g2(r) == self.shift_b_view(),
    {
        self.shift_b
    }
}

/// A Profile B header whose degree checks passed.
pub struct VerifiedBHeader {
    header: ProfileBHeader,
    params: Params,
    local_id: [u8; 32],
}

impl VerifiedBHeader {
    /// The header's shape matches its dimensions.
    #[verifier::type_invariant]
    closed spec fn shaped(self) -> bool {
        &&& self.header.source.len() == self.params@.a
        &&& (self.header.residual is Some) == (self.params@.b > 0)
    }

    /// Source commitments.
    pub closed spec fn source_view(self) -> Seq<Seq<u8>> {
        self.header.source_view()
    }

    /// The residual pair.
    pub closed spec fn residual_view(self) -> Option<(Seq<u8>, Seq<u8>)> {
        self.header.residual_view()
    }

    /// Dimensions.
    pub closed spec fn params_view(self) -> ParamsView {
        self.params@
    }

    /// The scheme.
    pub closed spec fn scheme_view(self) -> Scheme {
        self.header.scheme
    }

    /// The identity of the local SRS.
    pub closed spec fn local_id_view(self) -> Seq<u8> {
        self.local_id@
    }

    /// The verified commitment of group `j`.
    pub fn group(&self, domain: &Domain, j: usize) -> (res: Result<VerifiedGroup>)
        ensures
            res is Ok <==> self.params_view() == domain.parameters()@ && j < self.params_view().ell,
            res matches Err(e) ==> e.0@ == "Profile B group"@,
            res matches Ok(g) ==> {
                let v = self.params_view();
                let base = if j < v.a {
                    self.source_view()[j as int]
                } else {
                    msm1(self.source_view(), domain.weight_table()[j as int])
                };
                &&& g.commitment_view() == match self.residual_view() {
                    Some(pair) => g1_sum(base, g1_scaled(pair.0, outer_value(v, j as int))),
                    None => base,
                }
                &&& g.group() == j
                &&& g.params_view() == v
                &&& g.scheme_view() == self.scheme_view()
                &&& g.local_id_view() == self.local_id_view()
            },
    {
        proof {
            use_type_invariant(self);
        }
        let p = domain.params();
        require(self.params.same(p) && j < self.params.ell(), "Profile B group")?;
        let c = if j < p.a() {
            self.header.source[j]
        } else {
            let weights = domain.weights(j)?;
            crate::kzg::msm_g1(self.header.source.as_slice(), weights)?
        };
        let c = match self.header.residual {
            Some(pair) => {
                let rw = domain.residual_weight(j)?;
                c.add(&pair.0.scale(rw))
            },
            None => c,
        };
        Ok(VerifiedGroup { commitment: c, params: self.params, j, scheme: self.header.scheme, local_id: self.local_id })
    }
}

/// A verified group commitment, bound to its dimensions, scheme and local SRS.
#[derive(Clone)]
pub struct VerifiedGroup {
    commitment: G1,
    params: Params,
    j: usize,
    scheme: Scheme,
    local_id: [u8; 32],
}

impl VerifiedGroup {
    /// The commitment.
    pub closed spec fn commitment_view(self) -> Seq<u8> {
        self.commitment.encoding()
    }

    /// The group index.
    pub closed spec fn group(self) -> nat {
        self.j as nat
    }

    /// Dimensions.
    pub closed spec fn params_view(self) -> ParamsView {
        self.params@
    }

    /// The scheme.
    pub closed spec fn scheme_view(self) -> Scheme {
        self.scheme
    }

    /// The identity of the local SRS.
    pub closed spec fn local_id_view(self) -> Seq<u8> {
        self.local_id@
    }

    /// The commitment of group `j` derived from a dedicated-SRS header.
    pub fn dedicated(domain: &Domain, srs: &PublicSrs, h: &VerifiedHeader, j: usize) -> (res: Result<Self>)
        ensures
            res is Ok <==> srs.g1_view().len() == domain.parameters()@.r && j < domain.parameters()@.ell
                && h.params_view() == domain.parameters()@,
            srs.g1_view().len() != domain.parameters()@.r ==> (res matches Err(e) && e.0@
                == "dedicated local SRS"@),
            res matches Ok(g) ==> {
                &&& g.commitment_view() == crate::protocol::derived(
                    h.points(),
                    domain.parameters()@,
                    domain.weight_table(),
                    j as int,
                )
                &&& g.group() == j
                &&& g.params_view() == domain.parameters()@
                &&& g.scheme_view() == h.scheme_view()
                &&& g.local_id_view() == srs.id_view()
            },
    {
        let p = domain.params();
        require(srs.r() == p.r(), "dedicated local SRS")?;
        let commitment = h.derive(domain, j)?;
        Ok(VerifiedGroup { commitment, params: p, j, scheme: h.scheme(), local_id: srs.id() })
    }

    /// The commitment.
    pub fn commitment(&self) -> (c: G1)
        ensures
            c.encoding() == self.commitment_view(),
    {
        self.commitment
    }

    /// Verify a single-position opening of this group.
    pub fn verify(&self, domain: &Domain, srs: &PublicSrs, index: usize, opening: &Opening) -> (res: Result<()>)
        ensures
            !(self.params_view() == domain.parameters()@ && self.local_id_view() == srs.id_view()) ==> (res matches Err(
                e,
            ) && e.0@ == "group context"@),
            res is Ok <==> self.params_view() == domain.parameters()@ && self.local_id_view() == srs.id_view()
                && self.group() < domain.parameters()@.ell && index < domain.parameters()@.m && (self.scheme_view()
                != Scheme::Product || domain.parameters()@.b == 0) && crate::kzg::accepts(
                srs.g1_view(),
                srs.g2_view(),
                self.commitment_view(),
                seq![point_value(domain.parameters()@, self.scheme_view(), self.group() as int, index as int)],
                fes(opening.values@),
                opening.proof.encoding(),
            ),
    {
        let id = srs.id();
        require(self.params.same(domain.params()) && crate::protocol::same_digest(&self.local_id, &id), "group context")?;
        let x = domain.point(self.scheme, self.j, index)?;
        let xs = vec![x];
        assert(fes(xs@) == seq![x@]);
        srs.verify(self.commitment, xs.as_slice(), opening)
    }

    /// Certify the group from `r` values: their interpolant must commit to this group's
    /// commitment under the local SRS.
    pub fn certify(&self, domain: &Domain, srs: &PublicSrs, indices: &[usize], values: &[Fe]) -> (res: Result<
        ServingGroup,
    >)
        ensures
            !(self.params_view() == domain.parameters()@ && self.local_id_view() == srs.id_view()) ==> (res matches Err(
                e,
            ) && e.0@ == "group context"@),
            res is Ok <==> self.params_view() == domain.parameters()@ && self.local_id_view() == srs.id_view()
                && group_certifies(
                domain.parameters()@,
                srs.g1_view(),
                self.scheme_view(),
                self.group() as int,
                self.commitment_view(),
                indices@,
                fes(values@),
            ),
            res matches Ok(s) ==> {
                let v = domain.parameters()@;
                let xs = crate::protocol::group_points(v, self.scheme_view(), self.group() as int, indices@);
                &&& s.coeffs_view() == crate::polynomial::lagrange(xs, fes(values@))
                &&& msm1(srs.g1_view().take(v.r as int), s.coeffs_view()) == self.commitment_view()
                &&& s.group_view() == self
            },
    {
        let id = srs.id();
        require(self.params.same(domain.params()) && crate::protocol::same_digest(&self.local_id, &id), "group context")?;
        let r = self.params.r();
        require(indices.len() == r && values.len() == indices.len(), "group certification size")?;
        let xs = crate::protocol::points_at(domain, self.scheme, self.j, indices)?;
        let coeffs = crate::polynomial::interpolate(xs.as_slice(), values)?;
        let c = srs.commit(coeffs.as_slice())?;
        require(c.same(&self.commitment), "reconstructed commitment mismatch")?;
        Ok(ServingGroup { group: self.clone_group(), coeffs })
    }

    /// A copy.
    fn clone_group(&self) -> (r: Self)
        ensures
            r == *self,
    {
        VerifiedGroup {
            commitment: self.commitment,
            params: self.params,
            j: self.j,
            scheme: self.scheme,
            local_id: self.local_id,
        }
    }
}

/// Whether `r` values at the positions `idx` of group `j` certify `commitment`: the
/// positions lie in the group, their points are distinct, and the interpolant of the
/// values commits to `commitment` under the powers `g1s`.
pub open spec fn group_certifies(
    v: ParamsView,
    g1s: Seq<Seq<u8>>,
    scheme: Scheme,
    j: int,
    commitment: Seq<u8>,
    idx: Seq<usize>,
    vals: Seq<int>,
) -> bool {
    let xs = crate::protocol::group_points(v, scheme, j, idx);
    &&& idx.len() == v.r && vals.len() == v.r
    &&& 0 <= j < v.ell
    &&& forall|t: int| 0 <= t < idx.len() ==> (#[trigger] idx[t]) < v.m
    &&& scheme != Scheme::Product || v.b == 0
    &&& crate::polynomial::distinct(xs)
    &&& forall|t: int| 0 <= t < xs.len() ==> #[trigger] crate::polynomial::denominator(xs, t) != 0
    &&& v.r <= g1s.len()
    &&& msm1(g1s.take(v.r as int), crate::polynomial::lagrange(xs, vals)) == commitment
}

/// A certified group that can reconstruct and serve its symbols.
pub struct ServingGroup {
    group: VerifiedGroup,
    coeffs: Vec<Fe>,
}

impl ServingGroup {
    /// The coefficients fill the local degree bound and the group's points exist.
    #[verifier::type_invariant]
    closed spec fn shaped(self) -> bool {
        let v = self.group.params@;
        &&& self.coeffs.len() == v.r
        &&& self.group.j < v.ell
        &&& self.group.scheme != Scheme::Product || v.b == 0
    }

    /// The local coefficients.
    pub closed spec fn coeffs_view(self) -> Seq<int> {
        fes(self.coeffs@)
    }

    /// The verified group.
    pub closed spec fn group_view(self) -> VerifiedGroup {
        self.group
    }

    /// Every symbol of the group.
    pub fn recover(&self, domain: &Domain) -> (res: Result<Vec<Fe>>)
        ensures
            !(self.group_view().params_view() == domain.parameters()@) ==> (res matches Err(e) && e.0@
                == "receiver domain"@),
            res is Ok <==> self.group_view().params_view() == domain.parameters()@,
            res matches Ok(vals) ==> {
                let v = domain.parameters()@;
                &&& vals.len() == v.m
                &&& forall|i: int|
                    0 <= i < v.m ==> #[trigger] vals@[i]@ == crate::polynomial::peval(
                        self.coeffs_view(),
                        point_value(v, self.group_view().scheme_view(), self.group_view().group() as int, i),
                    )
            },
    {
        proof {
            use_type_invariant(self);
        }
        require(domain.params().same(self.group.params), "receiver domain")?;
        domain.evaluate(self.group.scheme, self.group.j, self.coeffs.as_slice())
    }

    /// Whether the group can be opened at `index`: the context matches, the position lies
    /// in the group and the coefficients fit the local SRS.
    pub open spec fn serves(self, v: ParamsView, srs: PublicSrs, index: int) -> bool {
        let g = self.group_view();
        &&& g.params_view() == v && srs.id_view() == g.local_id_view()
        &&& g.group() < v.ell && 0 <= index < v.m
        &&& g.scheme_view() != Scheme::Product || v.b == 0
        &&& self.coeffs_view().len() <= srs.g1_view().len()
    }

    /// Open the group at `index` for a requester.
    pub fn serve(&self, domain: &Domain, srs: &PublicSrs, index: usize) -> (res: Result<Opening>)
        ensures
            !(self.group_view().params_view() == domain.parameters()@ && srs.id_view()
                == self.group_view().local_id_view()) ==> (res matches Err(e) && e.0@ == "receiver context"@),
            res is Ok <==> self.serves(domain.parameters()@, *srs, index as int),
            res matches Ok(o) ==> crate::kzg::opening_of(
                o,
                self.coeffs_view(),
                seq![
                    point_value(
                        domain.parameters()@,
                        self.group_view().scheme_view(),
                        self.group_view().group() as int,
                        index as int,
                    ),
                ],
                srs.g1_view(),
            ),
    {
        let id = srs.id();
        require(
            domain.params().same(self.group.params) && crate::protocol::same_digest(&id, &self.group.local_id),
            "receiver context",
        )?;
        let x = domain.point(self.group.scheme, self.group.j, index)?;
        let xs = vec![x];
        assert(fes(xs@) == seq![x@]);
        srs.open(self.coeffs.as_slice(), xs.as_slice())
    }
}


/// The auxiliary triple of a supplied group: its local commitment, the quotient of the
/// global polynomial by `X^m - gamma_j`, and the shifted local commitment.
#[derive(Clone, Copy, Debug)]
pub struct SuppliedAux {
    /// Commitment to the local polynomial.
    pub local: G1,
    /// Commitment to the quotient.
    pub quotient: G1,
    /// Commitment to the local polynomial shifted by `X^(D - r + 1)`.
    pub shifted: G1,
}

impl SuppliedAux {
    /// The three encodings.
    pub fn payload(&self) -> (res: Result<Vec<u8>>)
        ensures
            res matches Ok(b) && b@ == self.local.encoding() + self.quotient.encoding() + self.shifted.encoding(),
    {
        let mut out: Vec<u8> = Vec::new();
        let a = self.local.to_bytes();
        push_bytes(&mut out, a.as_slice());
        let b = self.quotient.to_bytes();
        push_bytes(&mut out, b.as_slice());
        let c = self.shifted.to_bytes();
        push_bytes(&mut out, c.as_slice());
        Ok(out)
    }

    /// Parse three compressed points.
    pub fn from_payload(raw: &[u8]) -> (res: Result<Self>)
        ensures
            res is Ok <==> raw.len() == 144 && g1_chunks_decode(raw@, 3),
            raw.len() != 144 ==> (res matches Err(e) && e.0@ == "commitment payload length"@),
            res matches Ok(a) ==> seq![a.local.encoding(), a.quotient.encoding(), a.shifted.encoding()] == g1_chunks(
                raw@,
                3,
            ),
    {
        require(raw.len() == 144, "commitment payload length")?;
        let p = decode_g1_points(raw, 3)?;
        assert(g1_encodings(p@).len() == p.len());
        let a = SuppliedAux { local: p[0], quotient: p[1], shifted: p[2] };
        assert(seq![a.local.encoding(), a.quotient.encoding(), a.shifted.encoding()] == g1_encodings(p@));
        Ok(a)
    }
}

/// A supplied header: one commitment to the global polynomial.
#[derive(Clone, Copy)]
pub struct SuppliedHeader {
    global: G1,
    context: [u8; 32],
}

impl SuppliedHeader {
    /// The global commitment.
    pub closed spec fn global_view(self) -> Seq<u8> {
        self.global.encoding()
    }

    /// Whether the auxiliary triple of group `j` verifies against this header: the context
    /// binds the long SRS and the dimensions, the four points lie in the subgroup, the local
    /// commitment is linked to the global one by the quotient, and the shifted commitment
    /// shows the local polynomial below degree `r`.
    pub open spec fn group_verifies(self, v: ParamsView, srs: LongSrs, j: int, aux: SuppliedAux) -> bool {
        self.triple_verifies(v, srs, j, aux.local.encoding(), aux.quotient.encoding(), aux.shifted.encoding())
    }

    /// `group_verifies` over the encodings of the local, quotient and shifted commitments.
    pub open spec fn triple_verifies(
        self,
        v: ParamsView,
        srs: LongSrs,
        j: int,
        local: Seq<u8>,
        quotient: Seq<u8>,
        shifted: Seq<u8>,
    ) -> bool {
        &&& 0 <= j < v.ell
        &&& srs.params_view() == v
        &&& self.context_view() == long_context_of(srs.id_view(), v, Scheme::Lrdas)
        &&& g1_in_subgroup(self.global_view()) && g1_in_subgroup(local)
        &&& g1_in_subgroup(quotient) && g1_in_subgroup(shifted)
        &&& pairing_equal(
            crate::kzg::g1_difference(self.global_view(), local),
            srs.g2_view()[0],
            quotient,
            crate::kzg::g2_difference(
                srs.g2_view()[v.m as int],
                crate::kzg::g2_scaled(srs.g2_view()[0], crate::domain::gamma_seq(v)[j]),
            ),
        )
        &&& pairing_equal(local, srs.shift_r_view(), shifted, srs.g2_view()[0])
    }

    /// Whether a fresh reply of 224 bytes verifies for position `index` of group `j`: its
    /// triple decodes and verifies, its single-value response parses, and the opening of
    /// the decoded local commitment is accepted under the local SRS.
    pub open spec fn reply_verifies(self, v: ParamsView, srs: LongSrs, j: int, index: int, raw: Seq<u8>) -> bool {
        let head = raw.take(144);
        let tail = raw.subrange(144, 224);
        let pts = crate::kzg::g1_chunks(head, 3);
        &&& raw.len() == 224
        &&& crate::kzg::g1_chunks_decode(head, 3)
        &&& self.triple_verifies(v, srs, j, pts[0], pts[1], pts[2])
        &&& 1 <= v.r <= 16384
        &&& tail.len() == crate::kzg::response_size(1, v.r as int)
        &&& crate::kzg::response_parses(tail, 1)
        &&& 1 < v.r ==> crate::kzg::g1_decodes(tail.subrange(32, 80))
        &&& index < v.m
        &&& crate::kzg::accepts(
            srs.local_view().g1_view(),
            srs.local_view().g2_view(),
            pts[0],
            seq![point_value(v, Scheme::Lrdas, j, index)],
            seq![crate::kzg::le_value(crate::kzg::chunk(tail, 0))],
            if 1 < v.r {
                crate::kzg::g1_decoded(tail.subrange(32, 80))
            } else {
                g1_identity_encoding()
            },
        )
    }

    /// The context digest.
    pub closed spec fn context_view(self) -> Seq<u8> {
        self.context@
    }

    /// Commit to a global polynomial of degree at most `D`.
    pub fn commit(domain: &Domain, srs: &LongSrs, f: &[Fe]) -> (res: Result<Self>)
        ensures
            res is Ok <==> srs.g1_view().len() - 1 == domain.parameters()@.degree() && f.len()
                <= srs.g1_view().len() && srs.params_view() == domain.parameters()@,
            !(srs.g1_view().len() - 1 == domain.parameters()@.degree() && f.len() <= srs.g1_view().len()) ==> (res matches Err(
                e,
            ) && e.0@ == "supplied degree D"@),
            res matches Ok(h) ==> {
                &&& h.global_view() == msm1(srs.g1_view().take(f.len() as int), fes(f@))
                &&& h.context_view() == long_context_of(srs.id_view(), srs.params_view(), Scheme::Lrdas)
            },
    {
        let d = srs.degree();
        require(d == domain.params().degree() && f.len() <= d + 1, "supplied degree D")?;
        let global = srs.commit(f)?;
        let context = srs.context(domain, Scheme::Lrdas)?;
        Ok(SuppliedHeader { global, context })
    }

    /// The encoded global commitment.
    pub fn payload(&self) -> (res: Result<Vec<u8>>)
        ensures
            res matches Ok(b) && b@ == self.global_view(),
    {
        Ok(self.global.to_bytes())
    }

    /// The context digest.
    pub fn context(&self) -> (r: [u8; 32])
        ensures
            r@ == self.context_view(),
    {
        self.context
    }

    /// Parse a supplied header received under `context`.
    pub fn from_payload(domain: &Domain, srs: &LongSrs, context: [u8; 32], raw: &[u8]) -> (res: Result<Self>)
        ensures
            res is Ok <==> {
                &&& srs.params_view() == domain.parameters()@
                &&& context@ == long_context_of(srs.id_view(), domain.parameters()@, Scheme::Lrdas)
                &&& srs.g1_view().len() - 1 == domain.parameters()@.degree()
                &&& raw.len() == 48 && crate::kzg::g1_decodes(raw@)
            },
            res matches Ok(h) ==> h.global_view() == crate::kzg::g1_decoded(raw@) && h.context_view() == context@,
    {
        let expected = srs.context(domain, Scheme::Lrdas)?;
        require(
            crate::protocol::same_digest(&context, &expected) && srs.degree() == domain.params().degree(),
            "supplied context",
        )?;
        let global = G1::from_bytes(raw)?;
        Ok(SuppliedHeader { global, context })
    }

    /// Whether `e(C - C_j, [1]_2) = e(Q_j, [X^m - gamma_j]_2)` for the auxiliary triple of
    /// group `j`.
    pub fn link_equation_holds(&self, domain: &Domain, srs: &LongSrs, j: usize, aux: &SuppliedAux) -> (res: Result<
        bool,
    >)
        ensures
            j >= domain.parameters()@.ell ==> (res matches Err(e) && e.0@ == "supplied group context"@),
            res is Ok <==> {
                &&& j < domain.parameters()@.ell
                &&& srs.params_view() == domain.parameters()@
                &&& self.context_view() == long_context_of(srs.id_view(), domain.parameters()@, Scheme::Lrdas)
                &&& g1_in_subgroup(self.global_view()) && g1_in_subgroup(aux.local.encoding())
                &&& g1_in_subgroup(aux.quotient.encoding()) && g1_in_subgroup(aux.shifted.encoding())
            },
            res matches Ok(b) ==> b == pairing_equal(
                crate::kzg::g1_difference(self.global_view(), aux.local.encoding()),
                srs.g2_view()[0],
                aux.quotient.encoding(),
                crate::kzg::g2_difference(
                    srs.g2_view()[domain.parameters()@.m as int],
                    crate::kzg::g2_scaled(
                        srs.g2_view()[0],
                        crate::domain::gamma_seq(domain.parameters()@)[j as int],
                    ),
                ),
            ),
    {
        let p = domain.params();
        if j >= p.ell() {
            return Err(Error("supplied group context".to_owned()));
        }
        let expected = srs.context(domain, Scheme::Lrdas)?;
        require(crate::protocol::same_digest(&self.context, &expected), "supplied group context")?;
        let ok = g1_subgroup_check(&self.global) && g1_subgroup_check(&aux.local) && g1_subgroup_check(
            &aux.quotient,
        ) && g1_subgroup_check(&aux.shifted);
        require(ok, "supplied point")?;
        let g2 = srs.g2();
        let gammas = domain.gammas();
        let h = g2[p.m()].sub(&g2[0].scale(gammas[j]));
        Ok(pairing_product(self.global.sub(&aux.local), g2[0], aux.quotient, h))
    }

    /// Verify the auxiliary triple of group `j`: the link to the global commitment and the
    /// degree of the local commitment.
    pub fn verify_group(&self, domain: &Domain, srs: &LongSrs, j: usize, aux: &SuppliedAux) -> (res: Result<
        VerifiedGroup,
    >)
        ensures
            res matches Ok(g) ==> {
                &&& g.commitment_view() == aux.local.encoding()
                &&& g.group() == j
                &&& g.params_view() == domain.parameters()@
                &&& g.scheme_view() == Scheme::Lrdas
                &&& g.local_id_view() == srs.local_view().id_view()
            },
            res is Ok <==> self.group_verifies(domain.parameters()@, *srs, j as int, *aux),
    {
        let linked = self.link_equation_holds(domain, srs, j, aux)?;
        require(linked, "supplied quotient link")?;
        let g2 = srs.g2();
        require(pairing_product(aux.local, srs.shift_r_point(), aux.shifted, g2[0]), "supplied degree check")?;
        Ok(VerifiedGroup {
            commitment: aux.local,
            params: domain.params(),
            j,
            scheme: Scheme::Lrdas,
            local_id: srs.local().id(),
        })
    }

    /// Verify the triple of group `j` and certify the group from `r` values.
    pub fn certify_group(
        &self,
        domain: &Domain,
        srs: &LongSrs,
        j: usize,
        auxiliary: &SuppliedAux,
        indices: &[usize],
        values: &[Fe],
    ) -> (res: Result<SuppliedReceiver>)
        ensures
            res is Ok <==> self.group_verifies(domain.parameters()@, *srs, j as int, *auxiliary) && group_certifies(
                domain.parameters()@,
                srs.local_view().g1_view(),
                Scheme::Lrdas,
                j as int,
                auxiliary.local.encoding(),
                indices@,
                fes(values@),
            ),
            res matches Ok(r) ==> {
                let v = domain.parameters()@;
                let xs = crate::protocol::group_points(v, Scheme::Lrdas, j as int, indices@);
                &&& r.auxiliary_view() == *auxiliary
                &&& r.serving_view().group_view().commitment_view() == auxiliary.local.encoding()
                &&& r.serving_view().coeffs_view() == crate::polynomial::lagrange(xs, fes(values@))
                &&& r.serving_view().group_view().group() == j
                &&& r.serving_view().group_view().params_view() == v
                &&& r.serving_view().group_view().scheme_view() == Scheme::Lrdas
                &&& r.serving_view().group_view().local_id_view() == srs.local_view().id_view()
            },
    {
        let group = self.verify_group(domain, srs, j, auxiliary)?;
        let serving = group.certify(domain, srs.local(), indices, values)?;
        Ok(SuppliedReceiver { serving, auxiliary: *auxiliary })
    }

    /// Verify a fresh reply: an auxiliary triple followed by a single-value response.
    pub fn verify_reply(&self, domain: &Domain, srs: &LongSrs, j: usize, index: usize, raw: &[u8]) -> (res:
        Result<Opening>)
        ensures
            raw.len() != 224 ==> (res matches Err(e) && e.0@ == "fresh supplied reply requires auxiliary triple"@),
            res is Ok <==> self.reply_verifies(domain.parameters()@, *srs, j as int, index as int, raw@),
            res matches Ok(o) ==> {
                &&& o.values.len() == 1
                &&& fes(o.values@)[0] == crate::kzg::le_value(crate::kzg::chunk(raw@.subrange(144, 224), 0))
            },
    {
        require(raw.len() == 144 + 80, "fresh supplied reply requires auxiliary triple")?;
        let head = &raw[0..144];
        assert(head@ == raw@.take(144));
        let aux = SuppliedAux::from_payload(head)?;
        let group = self.verify_group(domain, srs, j, &aux)?;
        let tail = &raw[144..224];
        assert(tail@ == raw@.subrange(144, 224));
        let opening = Opening::from_bytes(tail, 1, domain.params().r())?;
        let ghost v = domain.parameters()@;
        assert(fes(opening.values@) =~= seq![crate::kzg::le_value(crate::kzg::chunk(tail@, 0))]);
        assert(head@ == raw@.take(144));
        let local = srs.local();
        let checked = group.verify(domain, local, index, &opening);
        proof {
            assert(*local == srs.local_view());
            assert(group.params_view() == v);
            assert(group.local_id_view() == srs.local_view().id_view());
            assert(group.group() == j);
            assert(group.scheme_view() == Scheme::Lrdas);
            assert(group.commitment_view() == aux.local.encoding());
            assert((checked is Ok) == self.reply_verifies(v, *srs, j as int, index as int, raw@));
        }
        checked?;
        Ok(opening)
    }
}

/// `a` holds the commitments of the local polynomial, of some quotient and of the shifted
/// local polynomial under the long powers `g`.
pub open spec fn is_aux_of(a: SuppliedAux, v: ParamsView, g: Seq<Seq<u8>>, local: Seq<int>) -> bool {
    &&& a.local.encoding() == msm1(g.take(local.len() as int), local)
    &&& a.shifted.encoding() == msm1(g.subrange(g.len() - v.r, g.len() - v.r + local.len()), local)
    &&& exists|q: Seq<int>| #[trigger] msm1(g.take(q.len() as int), q) == a.quotient.encoding()
}

/// Generate the auxiliary triple of group `j` from the global polynomial `f` and the
/// group's local polynomial: the quotient of `f - local` by `X^m - gamma_j` must be exact.
pub fn supplied_aux(domain: &Domain, srs: &LongSrs, f: &[Fe], local: &[Fe], j: usize) -> (res: Result<SuppliedAux>)
    ensures
        !(j < domain.parameters()@.ell && f.len() <= domain.parameters()@.degree() + 1 && local.len()
            <= domain.parameters()@.r && srs.g1_view().len() - 1 == domain.parameters()@.degree()) ==> (res matches Err(
            e,
        ) && e.0@ == "supplied generation dimensions"@),
        res matches Ok(a) ==> is_aux_of(a, domain.parameters()@, srs.g1_view(), fes(local@)),
{
    let p = domain.params();
    let ghost v = p@;
    proof {
        crate::domain::lemma_valid_bounds(v);
    }
    require(
        j < p.ell() && f.len() <= p.degree() + 1 && local.len() <= p.r() && srs.degree() == p.degree(),
        "supplied generation dimensions",
    )?;
    let n = if f.len() > local.len() {
        f.len()
    } else {
        local.len()
    };
    let mut rem: Vec<Fe> = Vec::new();
    let mut k: usize = 0;
    while k < n
        invariant
            k <= n,
            rem.len() == k,
        decreases n - k,
    {
        let a = if k < f.len() {
            f[k]
        } else {
            Fe::zero()
        };
        let b = if k < local.len() {
            local[k]
        } else {
            Fe::zero()
        };
        rem.push(a.sub(b));
        k = k + 1;
    }
    let m = p.m();
    let gammas = domain.gammas();
    let gamma = gammas[j];
    let qlen = if n > m {
        n - m
    } else {
        0
    };
    let mut q: Vec<Fe> = Vec::new();
    let mut k: usize = 0;
    while k < qlen
        invariant
            k <= qlen,
            q.len() == k,
        decreases qlen - k,
    {
        q.push(Fe::zero());
        k = k + 1;
    }
    let mut i = n;
    while i > m
        invariant
            m <= i <= n || (i == n && n <= m),
            rem.len() == n,
            q.len() == qlen,
            qlen == if n > m { n - m } else { 0 },
        decreases i,
    {
        i = i - 1;
        let c = rem[i];
        q.set(i - m, c);
        rem.set(i, Fe::zero());
        let updated = rem[i - m].add(gamma.mul(c));
        rem.set(i - m, updated);
    }
    let mut exact = true;
    let mut k: usize = 0;
    while k < rem.len()
        invariant
            k <= rem.len(),
        decreases rem.len() - k,
    {
        if !rem[k].is_zero() {
            exact = false;
        }
        k = k + 1;
    }
    require(exact, "supplied nonexact quotient")?;
    let lsrs = srs.local();
    let lc = lsrs.commit(local)?;
    let qc = srs.commit(q.as_slice())?;
    let sc = srs.shifted(local, p.r())?;
    assert(msm1(srs.g1_view().take(fes(q@).len() as int), fes(q@)) == qc.encoding());
    assert(lsrs.g1_view().take(local.len() as int) =~= srs.g1_view().take(local.len() as int));
    let a = SuppliedAux { local: lc, quotient: qc, shifted: sc };
    assert(is_aux_of(a, v, srs.g1_view(), fes(local@)));
    Ok(a)
}

/// A supplied receiver: a certified group and the auxiliary triple it replies with.
pub struct SuppliedReceiver {
    serving: ServingGroup,
    auxiliary: SuppliedAux,
}

impl SuppliedReceiver {
    /// The certified group.
    pub closed spec fn serving_view(self) -> ServingGroup {
        self.serving
    }

    /// The auxiliary triple.
    pub closed spec fn auxiliary_view(self) -> SuppliedAux {
        self.auxiliary
    }

    /// A fresh reply for position `index`: the triple, then the single-value response.
    pub fn serve_reply(&self, domain: &Domain, srs: &PublicSrs, index: usize) -> (res: Result<Vec<u8>>)
        ensures
            res is Ok <==> self.serving_view().serves(domain.parameters()@, *srs, index as int),
            res matches Ok(b) ==> b@.take(144) == self.auxiliary_view().local.encoding()
                + self.auxiliary_view().quotient.encoding() + self.auxiliary_view().shifted.encoding(),
    {
        let opening = self.serving.serve(domain, srs, index)?;
        let mut raw = self.auxiliary.payload()?;
        let tail = opening.to_bytes(srs.r())?;
        let ghost head = raw@;
        push_bytes(&mut raw, tail.as_slice());
        proof {
            G1::lemma_encoding_len(self.auxiliary.local);
            G1::lemma_encoding_len(self.auxiliary.quotient);
            G1::lemma_encoding_len(self.auxiliary.shifted);
            assert(head.len() == 144);
            assert(raw@.take(144) == head);
        }
        Ok(raw)
    }
}

} // verus!
