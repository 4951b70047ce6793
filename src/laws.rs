//! Properties that hold across the operations of the library, proved.

use crate::caveat::CaveatModel;
use crate::crypto;
use crate::serialization;
use crate::stroopwafel::{self, Failure, TokenModel};
use crate::verifiers::AcceptAllVerifier;
use vstd::prelude::*;

verus! {

/// `t` after appending a first-party caveat for each predicate of `ps`, in
/// order.
pub open spec fn with_first_party_caveats(t: TokenModel, ps: Seq<Seq<u8>>) -> TokenModel
    decreases ps.len(),
{
    if ps.len() == 0 {
        t
    } else {
        stroopwafel::with_caveat(with_first_party_caveats(t, ps.drop_last()), stroopwafel::first_party_model(ps.last()))
    }
}

/// The left fold of the MAC over `ps`, starting from `start`.
pub open spec fn fold_bind(start: Seq<u8>, ps: Seq<Seq<u8>>) -> Seq<u8>
    decreases ps.len(),
{
    if ps.len() == 0 {
        start
    } else {
        crypto::hmac_sha3_of(fold_bind(start, ps.drop_last()), ps.last())
    }
}

/// The signature of a freshly minted token depends only on the root key and
/// the identifier: it is their MAC, whatever the location.
pub proof fn law_mint_deterministic(
    root_key: Seq<u8>,
    identifier: Seq<u8>,
    location1: Option<Seq<char>>,
    location2: Option<Seq<char>>,
)
    ensures
        stroopwafel::minted(root_key, identifier, location1).signature == stroopwafel::minted(
            root_key,
            identifier,
            location2,
        ).signature,
        stroopwafel::minted(root_key, identifier, location1).signature == crypto::hmac_sha3_of(root_key, identifier),
{
}

/// Appending first-party caveats `ps` in order to a token minted under
/// `root_key` leaves exactly those caveats, and a signature that is the fold
/// of the MAC over `ps` from the MAC of the identifier.
pub proof fn law_chain_extension(
    root_key: Seq<u8>,
    identifier: Seq<u8>,
    location: Option<Seq<char>>,
    ps: Seq<Seq<u8>>,
)
    ensures
        with_first_party_caveats(stroopwafel::minted(root_key, identifier, location), ps).signature == fold_bind(
            crypto::hmac_sha3_of(root_key, identifier),
            ps,
        ),
        with_first_party_caveats(stroopwafel::minted(root_key, identifier, location), ps).caveats == ps.map_values(
            |p: Seq<u8>| stroopwafel::first_party_model(p),
        ),
    decreases ps.len(),
{
    if ps.len() > 0 {
        law_chain_extension(root_key, identifier, location, ps.drop_last());
        assert(ps.map_values(|p: Seq<u8>| stroopwafel::first_party_model(p)) =~= ps.drop_last().map_values(
            |p: Seq<u8>| stroopwafel::first_party_model(p),
        ).push(stroopwafel::first_party_model(ps.last())));
    } else {
        assert(ps.map_values(|p: Seq<u8>| stroopwafel::first_party_model(p)) =~= Seq::<CaveatModel>::empty());
    }
}

/// Appending any caveat keeps a token signed under the key it was signed
/// under: its signature stays the chain of its caveats.
pub proof fn law_append_keeps_signed(t: TokenModel, key: Seq<u8>, c: CaveatModel)
    requires
        t.signature == stroopwafel::chain_signature(key, t.identifier, t.caveats),
    ensures
        stroopwafel::with_caveat(t, c).signature == stroopwafel::chain_signature(
            key,
            t.identifier,
            stroopwafel::with_caveat(t, c).caveats,
        ),
{
    assert(t.caveats.push(c).drop_last() =~= t.caveats);
}

proof fn lemma_first_party_caveats_signed(root_key: Seq<u8>, identifier: Seq<u8>, location: Option<Seq<char>>, ps: Seq<Seq<u8>>)
    ensures
        ({
            let t = with_first_party_caveats(stroopwafel::minted(root_key, identifier, location), ps);
            &&& t.identifier == identifier
            &&& t.signature == stroopwafel::chain_signature(root_key, identifier, t.caveats)
            &&& t.caveats.len() == ps.len()
            &&& forall|i: int| 0 <= i < ps.len() ==> #[trigger] t.caveats[i] == stroopwafel::first_party_model(ps[i])
        }),
    decreases ps.len(),
{
    if ps.len() > 0 {
        let prev = with_first_party_caveats(stroopwafel::minted(root_key, identifier, location), ps.drop_last());
        lemma_first_party_caveats_signed(root_key, identifier, location, ps.drop_last());
        law_append_keeps_signed(prev, root_key, stroopwafel::first_party_model(ps.last()));
    }
}

/// A token minted under `root_key` and restricted only by first-party
/// caveats verifies under `root_key` with a verifier that accepts everything
/// and no discharges.
pub proof fn law_verify_minted(root_key: Seq<u8>, identifier: Seq<u8>, location: Option<Seq<char>>, ps: Seq<Seq<u8>>)
    ensures
        stroopwafel::verification_failure(
            with_first_party_caveats(stroopwafel::minted(root_key, identifier, location), ps),
            root_key,
            AcceptAllVerifier,
            Seq::empty(),
        ) is None,
{
    let t = with_first_party_caveats(stroopwafel::minted(root_key, identifier, location), ps);
    lemma_first_party_caveats_signed(root_key, identifier, location, ps);
    lemma_accepting_caveats(t, Seq::empty(), 0);
}

proof fn lemma_accepting_caveats(t: TokenModel, ds: Seq<TokenModel>, from: int)
    requires
        0 <= from,
        forall|i: int| 0 <= i < t.caveats.len() ==> (#[trigger] t.caveats[i]).is_first_party(),
    ensures
        stroopwafel::caveats_failure(t, AcceptAllVerifier, ds, from) is None,
    decreases t.caveats.len() - from,
{
    if from < t.caveats.len() {
        assert(t.caveats[from].is_first_party());
        lemma_accepting_caveats(t, ds, from + 1);
    }
}

/// `t` with bit `bit` of byte `i` of its signature flipped.
pub open spec fn flip_signature_bit(t: TokenModel, i: int, bit: u8) -> TokenModel {
    TokenModel {
        location: t.location,
        identifier: t.identifier,
        caveats: t.caveats,
        signature: t.signature.update(i, t.signature[i] ^ (1u8 << bit)),
    }
}

/// Flipping any single bit of the signature of a token whose signature chain
/// holds under `root_key` makes verification under `root_key` fail with
/// `InvalidSignature`, whatever the verifier and the discharges.
pub proof fn law_tampered_signature_fails<V: crate::verifiers::Verifier>(
    t: TokenModel,
    root_key: Seq<u8>,
    verifier: V,
    ds: Seq<TokenModel>,
    i: int,
    bit: u8,
)
    requires
        t.signature == stroopwafel::chain_signature(root_key, t.identifier, t.caveats),
        0 <= i < t.signature.len(),
        bit < 8,
    ensures
        stroopwafel::verification_failure(flip_signature_bit(t, i, bit), root_key, verifier, ds) == Some(
            Failure::Signature,
        ),
{
    let x = t.signature[i];
    let y = x ^ (1u8 << bit);
    assert(y != x) by (bit_vector)
        requires
            y == x ^ (1u8 << bit),
            bit < 8,
    ;
    assert(flip_signature_bit(t, i, bit).signature[i] != t.signature[i]);
}

/// Verifying under a key whose rebuilt chain differs from the signature
/// fails with `InvalidSignature` before any caveat is looked at, whatever the
/// verifier and the discharges. (That a wrong key gives a different chain is
/// the collision resistance of the MAC, which is not stated here.)
pub proof fn law_wrong_key_fails<V: crate::verifiers::Verifier>(
    t: TokenModel,
    key: Seq<u8>,
    verifier: V,
    ds: Seq<TokenModel>,
)
    requires
        stroopwafel::chain_signature(key, t.identifier, t.caveats) != t.signature,
    ensures
        stroopwafel::verification_failure(t, key, verifier, ds) == Some(Failure::Signature),
{
}

/// Binding a discharge depends only on the two signatures: the same
/// signatures give the same bound signature, and the bound copy keeps the
/// discharge's location, identifier and caveats.
pub proof fn law_binding_deterministic(p1: TokenModel, p2: TokenModel, d1: TokenModel, d2: TokenModel)
    requires
        p1.signature == p2.signature,
        d1.signature == d2.signature,
    ensures
        stroopwafel::bound(p1, d1).signature == stroopwafel::bound(p2, d2).signature,
        stroopwafel::bound(p1, d1).signature == crypto::hmac_sha3_of(d1.signature, p1.signature),
        stroopwafel::bound(p1, d1).identifier == d1.identifier,
        stroopwafel::bound(p1, d1).caveats == d1.caveats,
        stroopwafel::bound(p1, d1).location == d1.location,
{
}

/// Hexadecimal framing round-trips: the text made of any bytes is valid
/// hexadecimal and decodes to those bytes.
pub proof fn law_hex_round_trip(b: Seq<u8>)
    ensures
        serialization::is_hex_text(serialization::hex_of(b)),
        serialization::hex_bytes(serialization::hex_of(b)) == b,
{
    let s = serialization::hex_of(b);
    assert forall|i: int| 0 <= i < s.len() implies (#[trigger] serialization::hex_value(s[i])) is Some by {
        let v = if i % 2 == 0 { b[i / 2] as int / 16 } else { b[i / 2] as int % 16 };
        assert(0 <= v < 16);
    }
    assert forall|j: int| 0 <= j < b.len() implies #[trigger] serialization::hex_bytes(s)[j] == b[j] by {
        let hi = b[j] as int / 16;
        let lo = b[j] as int % 16;
        assert(s[2 * j] == serialization::hex_digit(hi));
        assert(s[2 * j + 1] == serialization::hex_digit(lo));
        assert(serialization::hex_value(serialization::hex_digit(hi)) == Some(hi));
        assert(serialization::hex_value(serialization::hex_digit(lo)) == Some(lo));
    }
    assert(serialization::hex_bytes(s) =~= b);
}

/// Distinct encodable tokens have distinct MessagePack encodings, so
/// decoding the encoding of a token gives that token back.
pub proof fn law_msgpack_injective(t1: TokenModel, t2: TokenModel)
    requires
        serialization::encodable(t1),
        serialization::encodable(t2),
        serialization::encode_token(t1) == serialization::encode_token(t2),
    ensures
        t1 == t2,
{
    let d = serialization::encode_token(t1);
    assert(d.subrange(0, d.len() as int) =~= d);
    assert(serialization::prefix_at(d, 0, serialization::encode_token(t2)));
    let h = serialization::array_header(4);
    serialization::lemma_prefix_split(d, 0, h + serialization::enc_opt_str(t1.location) + serialization::enc_bin(t1.identifier) + serialization::array_header(t1.caveats.len())
        + serialization::enc_caveats(t1.caveats), serialization::enc_bin(t1.signature));
    serialization::lemma_prefix_split(d, 0, h + serialization::enc_opt_str(t1.location) + serialization::enc_bin(t1.identifier) + serialization::array_header(t1.caveats.len()),
        serialization::enc_caveats(t1.caveats));
    serialization::lemma_prefix_split(d, 0, h + serialization::enc_opt_str(t1.location) + serialization::enc_bin(t1.identifier), serialization::array_header(t1.caveats.len()));
    serialization::lemma_prefix_split(d, 0, h + serialization::enc_opt_str(t1.location), serialization::enc_bin(t1.identifier));
    serialization::lemma_prefix_split(d, 0, h, serialization::enc_opt_str(t1.location));
    serialization::lemma_prefix_split(d, 0, h + serialization::enc_opt_str(t2.location) + serialization::enc_bin(t2.identifier) + serialization::array_header(t2.caveats.len())
        + serialization::enc_caveats(t2.caveats), serialization::enc_bin(t2.signature));
    serialization::lemma_prefix_split(d, 0, h + serialization::enc_opt_str(t2.location) + serialization::enc_bin(t2.identifier) + serialization::array_header(t2.caveats.len()),
        serialization::enc_caveats(t2.caveats));
    serialization::lemma_prefix_split(d, 0, h + serialization::enc_opt_str(t2.location) + serialization::enc_bin(t2.identifier), serialization::array_header(t2.caveats.len()));
    serialization::lemma_prefix_split(d, 0, h + serialization::enc_opt_str(t2.location), serialization::enc_bin(t2.identifier));
    serialization::lemma_prefix_split(d, 0, h, serialization::enc_opt_str(t2.location));
    let p1 = h.len() as int;
    serialization::lemma_opt_str_unique(d, p1, t1.location, t2.location);
    let p2 = p1 + serialization::enc_opt_str(t1.location).len();
    serialization::lemma_sized_unique(serialization::bin_form(), d, p2, t1.identifier, t2.identifier);
    let p3 = p2 + serialization::enc_bin(t1.identifier).len();
    serialization::lemma_header_complete(serialization::array_form(), d, p3, t1.caveats.len());
    serialization::lemma_header_complete(serialization::array_form(), d, p3, t2.caveats.len());
    let p4 = p3 + serialization::array_header(t1.caveats.len()).len();
    serialization::lemma_caveats_unique(d, p4, t1.caveats, t2.caveats);
    let p5 = p4 + serialization::enc_caveats(t1.caveats).len();
    serialization::lemma_sized_unique(serialization::bin_form(), d, p5, t1.signature, t2.signature);
}

} // verus!
