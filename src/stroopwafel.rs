//! Tokens: minting, attenuation, discharge binding and verification.

use crate::caveat::{self, Caveat, CaveatModel};
use crate::crypto::{self, SIGNATURE_SIZE};
use crate::error::StroopwafelError;
use crate::text;
use crate::verifiers::Verifier;
use vstd::prelude::*;

verus! {

/// A token as a mathematical value.
pub struct TokenModel {
    pub location: Option<Seq<char>>,
    pub identifier: Seq<u8>,
    pub caveats: Seq<CaveatModel>,
    pub signature: Seq<u8>,
}

/// The kinds of verification failure, in the terms of `StroopwafelError`.
pub enum Failure {
    /// `InvalidSignature`
    Signature,
    /// `CaveatViolation`
    Violation,
    /// `InvalidFormat`
    Format,
}

/// The view of an optional string slice.
pub open spec fn str_opt(o: Option<&str>) -> Option<Seq<char>> {
    match o {
        Some(s) => Some(s@),
        None => None,
    }
}

/// A first-party caveat on `predicate`.
pub open spec fn first_party_model(predicate: Seq<u8>) -> CaveatModel {
    CaveatModel { caveat_id: predicate, verification_key_id: None, location: None }
}

/// A third-party caveat.
pub open spec fn third_party_model(caveat_id: Seq<u8>, verification_key_id: Seq<u8>, location: Seq<char>) -> CaveatModel {
    CaveatModel { caveat_id, verification_key_id: Some(verification_key_id), location: Some(location) }
}

/// One link of the signature chain: first-party caveats bind their identifier,
/// third-party caveats their verification key id (one without a key id binds
/// nothing).
pub open spec fn binding_step(signature: Seq<u8>, c: CaveatModel) -> Seq<u8> {
    if c.is_first_party() {
        crypto::hmac_sha3_of(signature, c.caveat_id)
    } else {
        match c.verification_key_id {
            Some(k) => crypto::hmac_sha3_of(signature, k),
            None => signature,
        }
    }
}

/// The signature chain folded over `caveats` from `start`.
pub open spec fn chain(start: Seq<u8>, caveats: Seq<CaveatModel>) -> Seq<u8>
    decreases caveats.len(),
{
    if caveats.len() == 0 {
        start
    } else {
        binding_step(chain(start, caveats.drop_last()), caveats.last())
    }
}

/// The signature a token with these contents has when minted under `key`.
pub open spec fn chain_signature(key: Seq<u8>, identifier: Seq<u8>, caveats: Seq<CaveatModel>) -> Seq<u8> {
    chain(crypto::hmac_sha3_of(key, identifier), caveats)
}

/// A freshly minted token.
pub open spec fn minted(root_key: Seq<u8>, identifier: Seq<u8>, location: Option<Seq<char>>) -> TokenModel {
    TokenModel {
        location,
        identifier,
        caveats: Seq::empty(),
        signature: crypto::hmac_sha3_of(root_key, identifier),
    }
}

/// `t` with caveat `c` appended and its signature advanced.
pub open spec fn with_caveat(t: TokenModel, c: CaveatModel) -> TokenModel {
    TokenModel {
        location: t.location,
        identifier: t.identifier,
        caveats: t.caveats.push(c),
        signature: binding_step(t.signature, c),
    }
}

/// `discharge` bound to the signature of `primary`.
pub open spec fn bound(primary: TokenModel, discharge: TokenModel) -> TokenModel {
    TokenModel {
        location: discharge.location,
        identifier: discharge.identifier,
        caveats: discharge.caveats,
        signature: crypto::hmac_sha3_of(discharge.signature, primary.signature),
    }
}

/// The views of a sequence of caveats.
pub open spec fn caveats_view(cs: Seq<Caveat>) -> Seq<CaveatModel> {
    cs.map_values(|c: Caveat| c@)
}

/// The views of a sequence of tokens.
pub open spec fn tokens_view(ts: Seq<Stroopwafel>) -> Seq<TokenModel> {
    ts.map_values(|t: Stroopwafel| t@)
}

/// The first index at or after `from` of a discharge with identifier `id`.
pub open spec fn find_discharge(ds: Seq<TokenModel>, id: Seq<u8>, from: int) -> Option<int>
    decreases ds.len() - from,
{
    if from < 0 || from >= ds.len() {
        None
    } else if ds[from].identifier == id {
        Some(from)
    } else {
        find_discharge(ds, id, from + 1)
    }
}

/// How checking bound discharge `d` fails, if it does: its chain under `vk`,
/// bound to `primary_signature`, must be its signature, and `verifier` must
/// accept each of its first-party caveats.
pub open spec fn discharge_failure<V: Verifier>(
    primary_signature: Seq<u8>,
    vk: Seq<u8>,
    d: TokenModel,
    verifier: V,
) -> Option<Failure> {
    if crypto::hmac_sha3_of(chain_signature(vk, d.identifier, d.caveats), primary_signature) != d.signature {
        Some(Failure::Signature)
    } else if exists|j: int|
        0 <= j < d.caveats.len() && (#[trigger] d.caveats[j]).is_first_party() && !verifier.accepts(
            d.caveats[j].caveat_id,
        ) {
        Some(Failure::Violation)
    } else {
        None
    }
}

/// How checking caveat `c` of token `t` fails, if it does.
pub open spec fn caveat_failure<V: Verifier>(
    t: TokenModel,
    c: CaveatModel,
    verifier: V,
    ds: Seq<TokenModel>,
) -> Option<Failure> {
    if c.is_first_party() {
        if verifier.accepts(c.caveat_id) {
            None
        } else {
            Some(Failure::Violation)
        }
    } else {
        match find_discharge(ds, c.caveat_id, 0) {
            None => Some(Failure::Violation),
            Some(i) => match c.verification_key_id {
                None => Some(Failure::Format),
                Some(vk) => discharge_failure(t.signature, vk, ds[i], verifier),
            },
        }
    }
}

/// The first failure among the caveats of `t` from index `from` on.
pub open spec fn caveats_failure<V: Verifier>(
    t: TokenModel,
    verifier: V,
    ds: Seq<TokenModel>,
    from: int,
) -> Option<Failure>
    decreases t.caveats.len() - from,
{
    if from < 0 || from >= t.caveats.len() {
        None
    } else {
        match caveat_failure(t, t.caveats[from], verifier, ds) {
            Some(f) => Some(f),
            None => caveats_failure(t, verifier, ds, from + 1),
        }
    }
}

/// How verifying `t` under `root_key` fails, if it does: first the
/// signature chain, then each caveat in order.
pub open spec fn verification_failure<V: Verifier>(
    t: TokenModel,
    root_key: Seq<u8>,
    verifier: V,
    ds: Seq<TokenModel>,
) -> Option<Failure> {
    if chain_signature(root_key, t.identifier, t.caveats) != t.signature {
        Some(Failure::Signature)
    } else {
        caveats_failure(t, verifier, ds, 0)
    }
}

/// `r` is the result that failure `f` (or its absence) calls for.
pub open spec fn reports(r: Result<(), StroopwafelError>, f: Option<Failure>) -> bool {
    match f {
        None => r is Ok,
        Some(Failure::Signature) => r matches Err(StroopwafelError::InvalidSignature),
        Some(Failure::Violation) => r matches Err(StroopwafelError::CaveatViolation(_)),
        Some(Failure::Format) => r matches Err(StroopwafelError::InvalidFormat(_)),
    }
}

/// A bearer token with embedded, attenuating caveats, signed by a chain of
/// HMAC-SHA3-256 tags.
#[derive(Debug, Clone, PartialEq, Eq)]
pub struct Stroopwafel {
    /// Optional location hint for the target service.
    pub location: Option<String>,
    /// Public identifier of this token.
    pub identifier: Vec<u8>,
    /// The caveats, in the order they were bound.
    pub caveats: Vec<Caveat>,
    /// The head of the signature chain.
    pub signature: [u8; SIGNATURE_SIZE],
}

impl View for Stroopwafel {
    type V = TokenModel;

    open spec fn view(&self) -> TokenModel {
        TokenModel {
            location: caveat::text_opt(self.location),
            identifier: self.identifier@,
            caveats: caveats_view(self.caveats@),
            signature: self.signature@,
        }
    }
}

/// Byte-wise equality of two slices.
fn bytes_equal(a: &[u8], b: &[u8]) -> (r: bool)
    ensures
        r == (a@ == b@),
{
    if a.len() != b.len() {
        return false;
    }
    let mut i: usize = 0;
    while i < a.len()
        invariant
            a@.len() == b@.len(),
            i <= a@.len(),
            forall|j: int| 0 <= j < i ==> a@[j] == b@[j],
        decreases a@.len() - i,
    {
        if a[i] != b[i] {
            return false;
        }
        i += 1;
    }
    assert(a@ =~= b@);
    true
}

/// Equality of two tags that takes the same time whatever the bytes.
fn tags_equal(a: &[u8; SIGNATURE_SIZE], b: &[u8; SIGNATURE_SIZE]) -> (r: bool)
    ensures
        r == (a@ == b@),
{
    let mut diff: u8 = 0;
    let mut i: usize = 0;
    while i < SIGNATURE_SIZE
        invariant
            i <= SIGNATURE_SIZE,
            a@.len() == SIGNATURE_SIZE,
            b@.len() == SIGNATURE_SIZE,
            (diff == 0) <==> (forall|j: int| 0 <= j < i ==> a@[j] == b@[j]),
        decreases SIGNATURE_SIZE - i,
    {
        let x: u8 = a[i];
        let y: u8 = b[i];
        let d: u8 = x ^ y;
        let next: u8 = diff | d;
        assert((d == 0) <==> (x == y)) by (bit_vector)
            requires
                d == x ^ y,
        ;
        assert((next == 0) <==> (diff == 0 && d == 0)) by (bit_vector)
            requires
                next == diff | d,
        ;
        diff = next;
        i += 1;
    }
    if diff == 0 {
        assert(a@ =~= b@);
    }
    diff == 0
}

/// Rebuilds the signature chain of `caveats` under `key` and `identifier`.
fn rebuild_chain(key: &[u8], identifier: &[u8], caveats: &Vec<Caveat>) -> (s: [u8; SIGNATURE_SIZE])
    ensures
        s@ == chain_signature(key@, identifier@, caveats_view(caveats@)),
{
    let ghost cs = caveats_view(caveats@);
    let mut s = crypto::hmac_sha3(key, identifier);
    let mut i: usize = 0;
    assert(cs.take(0) =~= Seq::<CaveatModel>::empty());
    while i < caveats.len()
        invariant
            i <= caveats@.len(),
            cs == caveats_view(caveats@),
            s@ == chain(crypto::hmac_sha3_of(key@, identifier@), cs.take(i as int)),
        decreases caveats@.len() - i,
    {
        let c = &caveats[i];
        assert(cs.take(i + 1).drop_last() =~= cs.take(i as int));
        assert(cs.take(i + 1).last() == c@);
        if c.is_first_party() {
            s = crypto::bind_caveat(s.as_slice(), c.caveat_id.as_slice());
        } else {
            match &c.verification_key_id {
                Some(vk) => {
                    s = crypto::bind_caveat(s.as_slice(), vk.as_slice());
                },
                None => {},
            }
        }
        i += 1;
    }
    assert(cs.take(i as int) =~= cs);
    s
}

/// The index of the first token in `ts` whose identifier is `id`.
fn find_discharge_index(ts: &[Stroopwafel], id: &[u8]) -> (r: Option<usize>)
    ensures
        match r {
            Some(i) => i < ts@.len() && find_discharge(tokens_view(ts@), id@, 0) == Some(i as int),
            None => find_discharge(tokens_view(ts@), id@, 0) is None,
        },
{
    let ghost ds = tokens_view(ts@);
    let mut i: usize = 0;
    while i < ts.len()
        invariant
            i <= ts@.len(),
            ds == tokens_view(ts@),
            find_discharge(ds, id@, 0) == find_discharge(ds, id@, i as int),
        decreases ts@.len() - i,
    {
        assert(ds[i as int] == ts@[i as int]@);
        if bytes_equal(ts[i].identifier.as_slice(), id) {
            return Some(i);
        }
        i += 1;
    }
    None
}

/// Asks `verifier` about a first-party predicate; any refusal becomes a
/// `CaveatViolation`.
fn check_first_party<V: Verifier>(verifier: &V, predicate: &[u8]) -> (r: Result<(), StroopwafelError>)
    ensures
        r is Ok <==> verifier.accepts(predicate@),
        r is Err ==> r matches Err(StroopwafelError::CaveatViolation(_)),
{
    match verifier.verify_caveat(predicate) {
        Ok(()) => Ok(()),
        Err(StroopwafelError::CaveatViolation(m)) => Err(StroopwafelError::CaveatViolation(m)),
        Err(StroopwafelError::InvalidFormat(m)) => Err(StroopwafelError::CaveatViolation(m)),
        Err(_) => Err(StroopwafelError::CaveatViolation(text::message_with("Caveat rejected: ", predicate))),
    }
}

impl Stroopwafel {
    /// Mints a new token: no caveats, and the MAC of `identifier` under
    /// `root_key` as its signature.
    pub fn new(root_key: &[u8], identifier: &[u8], location: Option<&str>) -> (r: Stroopwafel)
        ensures
            r@ == minted(root_key@, identifier@, str_opt(location)),
    {
        let signature = crypto::hmac_sha3(root_key, identifier);
        let location = match location {
            Some(l) => Some(l.to_owned()),
            None => None,
        };
        let r = Stroopwafel {
            location,
            identifier: vstd::slice::slice_to_vec(identifier),
            caveats: Vec::new(),
            signature,
        };
        assert(r@.caveats =~= Seq::<CaveatModel>::empty());
        r
    }

    /// Appends a first-party caveat, binding `predicate` into the signature.
    pub fn add_first_party_caveat(&mut self, predicate: &[u8])
        ensures
            final(self)@ == with_caveat(old(self)@, first_party_model(predicate@)),
    {
        self.signature = crypto::bind_caveat(self.signature.as_slice(), predicate);
        self.caveats.push(Caveat::first_party(predicate));
        assert(final(self)@.caveats =~= old(self)@.caveats.push(first_party_model(predicate@)));
    }

    /// Appends a third-party caveat, binding `verification_key_id` into the
    /// signature.
    pub fn add_third_party_caveat(&mut self, caveat_id: &[u8], verification_key_id: &[u8], location: &str)
        ensures
            final(self)@ == with_caveat(
                old(self)@,
                third_party_model(caveat_id@, verification_key_id@, location@),
            ),
    {
        self.signature = crypto::bind_caveat(self.signature.as_slice(), verification_key_id);
        self.caveats.push(Caveat::third_party(caveat_id, verification_key_id, location));
        assert(final(self)@.caveats =~= old(self)@.caveats.push(
            third_party_model(caveat_id@, verification_key_id@, location@),
        ));
    }

    /// The number of caveats.
    pub fn caveat_count(&self) -> (r: usize)
        ensures
            r == self@.caveats.len(),
    {
        self.caveats.len()
    }

    /// Whether the token carries no caveat.
    pub fn is_unrestricted(&self) -> (r: bool)
        ensures
            r == (self@.caveats.len() == 0),
    {
        self.caveats.len() == 0
    }

    /// Creates a discharge token for a third-party caveat: a token minted
    /// under the shared verification key, identified by the caveat id.
    pub fn create_discharge(verification_key: &[u8], caveat_id: &[u8], location: Option<&str>) -> (r: Stroopwafel)
        ensures
            r@ == minted(verification_key@, caveat_id@, str_opt(location)),
    {
        Self::new(verification_key, caveat_id, location)
    }

    /// A copy of this token with the same view.
    fn duplicate(&self) -> (r: Stroopwafel)
        ensures
            r@ == self@,
    {
        let mut caveats: Vec<Caveat> = Vec::new();
        let mut i: usize = 0;
        while i < self.caveats.len()
            invariant
                i <= self.caveats@.len(),
                caveats@.len() == i,
                forall|j: int| 0 <= j < i ==> (#[trigger] caveats@[j])@ == self.caveats@[j]@,
            decreases self.caveats@.len() - i,
        {
            caveats.push(self.caveats[i].duplicate());
            i += 1;
        }
        assert(caveats_view(caveats@) =~= caveats_view(self.caveats@));
        Stroopwafel {
            location: caveat::copy_text_opt(&self.location),
            identifier: vstd::slice::slice_to_vec(self.identifier.as_slice()),
            caveats,
            signature: self.signature,
        }
    }

    /// Binds a discharge to this token: a copy of the discharge whose
    /// signature is the MAC of this token's signature under the discharge's.
    pub fn bind_discharge(&self, discharge: &Stroopwafel) -> (r: Stroopwafel)
        ensures
            r@ == bound(self@, discharge@),
    {
        let mut r = discharge.duplicate();
        r.signature = crypto::hmac_sha3(discharge.signature.as_slice(), self.signature.as_slice());
        r
    }

    /// This token followed by each discharge bound to it.
    pub fn prepare_for_request(&self, discharges: Vec<Stroopwafel>) -> (r: Vec<Stroopwafel>)
        ensures
            r@.len() == discharges@.len() + 1,
            r@[0]@ == self@,
            forall|i: int| 0 <= i < discharges@.len() ==> (#[trigger] r@[i + 1])@ == bound(self@, discharges@[i]@),
    {
        let mut r: Vec<Stroopwafel> = Vec::new();
        r.push(self.duplicate());
        let mut i: usize = 0;
        while i < discharges.len()
            invariant
                i <= discharges@.len(),
                r@.len() == i + 1,
                r@[0]@ == self@,
                forall|j: int| 0 <= j < i ==> (#[trigger] r@[j + 1])@ == bound(self@, discharges@[j]@),
            decreases discharges@.len() - i,
        {
            r.push(self.bind_discharge(&discharges[i]));
            i += 1;
        }
        r
    }

    /// Verifies this token under `root_key`: the signature chain must match,
    /// `verifier` must accept every first-party caveat, and every
    /// third-party caveat needs a matching bound discharge.
    pub fn verify<V: Verifier>(&self, root_key: &[u8], verifier: &V, discharges: &[Stroopwafel]) -> (r: Result<
        (),
        StroopwafelError,
    >)
        ensures
            reports(r, verification_failure(self@, root_key@, *verifier, tokens_view(discharges@))),
    {
        let ghost ds = tokens_view(discharges@);
        let computed = rebuild_chain(root_key, self.identifier.as_slice(), &self.caveats);
        if !tags_equal(&computed, &self.signature) {
            return Err(StroopwafelError::InvalidSignature);
        }
        let mut i: usize = 0;
        while i < self.caveats.len()
            invariant
                i <= self.caveats@.len(),
                ds == tokens_view(discharges@),
                chain_signature(root_key@, self@.identifier, self@.caveats) == self@.signature,
                caveats_failure(self@, *verifier, ds, 0) == caveats_failure(self@, *verifier, ds, i as int),
            decreases self.caveats@.len() - i,
        {
            let c = &self.caveats[i];
            let step = if c.is_first_party() {
                check_first_party(verifier, c.caveat_id.as_slice())
            } else {
                self.verify_third_party_caveat(c, discharges, verifier)
            };
            assert(self@.caveats[i as int] == c@);
            if step.is_err() {
                return step;
            }
            i += 1;
        }
        Ok(())
    }

    /// Checks a third-party caveat against the first bound discharge that
    /// carries its identifier.
    fn verify_third_party_caveat<V: Verifier>(&self, caveat: &Caveat, discharges: &[Stroopwafel], verifier: &V) -> (r:
        Result<(), StroopwafelError>)
        requires
            !caveat@.is_first_party(),
        ensures
            reports(r, caveat_failure(self@, caveat@, *verifier, tokens_view(discharges@))),
    {
        let ghost ds = tokens_view(discharges@);
        let i = match find_discharge_index(discharges, caveat.caveat_id.as_slice()) {
            None => {
                return Err(
                    StroopwafelError::CaveatViolation(
                        text::message_with("Missing discharge macaroon for caveat: ", caveat.caveat_id.as_slice()),
                    ),
                );
            },
            Some(i) => i,
        };
        assert(ds[i as int] == discharges@[i as int]@);
        match &caveat.verification_key_id {
            None => Err(StroopwafelError::InvalidFormat("Third-party caveat missing verification key".to_owned())),
            Some(vk) => discharges[i].verify_discharge(vk.as_slice(), &self.signature, verifier),
        }
    }

    /// Checks this token as a discharge bound to `primary_signature`.
    fn verify_discharge<V: Verifier>(
        &self,
        verification_key: &[u8],
        primary_signature: &[u8; SIGNATURE_SIZE],
        verifier: &V,
    ) -> (r: Result<(), StroopwafelError>)
        ensures
            reports(r, discharge_failure(primary_signature@, verification_key@, self@, *verifier)),
    {
        let computed = rebuild_chain(verification_key, self.identifier.as_slice(), &self.caveats);
        let expected = crypto::hmac_sha3(computed.as_slice(), primary_signature.as_slice());
        if !tags_equal(&expected, &self.signature) {
            return Err(StroopwafelError::InvalidSignature);
        }
        let mut i: usize = 0;
        while i < self.caveats.len()
            invariant
                i <= self.caveats@.len(),
                crypto::hmac_sha3_of(chain_signature(verification_key@, self@.identifier, self@.caveats), primary_signature@)
                    == self@.signature,
                forall|j: int|
                    0 <= j < i ==> (#[trigger] self@.caveats[j]).is_first_party() ==> verifier.accepts(
                        self@.caveats[j].caveat_id,
                    ),
            decreases self.caveats@.len() - i,
        {
            let c = &self.caveats[i];
            assert(self@.caveats[i as int] == c@);
            if c.is_first_party() {
                let step = check_first_party(verifier, c.caveat_id.as_slice());
                if step.is_err() {
                    assert(self@.caveats[i as int].is_first_party() && !verifier.accepts(
                        self@.caveats[i as int].caveat_id,
                    ));
                    return step;
                }
            }
            i += 1;
        }
        Ok(())
    }
}

} // verus!
