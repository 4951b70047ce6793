//! Caveats: one restriction each, first-party or third-party.

use vstd::prelude::*;

verus! {

/// A caveat as a mathematical value: its identifier, its optional
/// verification key identifier and its optional location hint.
pub struct CaveatModel {
    pub caveat_id: Seq<u8>,
    pub verification_key_id: Option<Seq<u8>>,
    pub location: Option<Seq<char>>,
}

impl CaveatModel {
    /// First-party caveats carry neither a verification key id nor a location.
    pub open spec fn is_first_party(self) -> bool {
        self.verification_key_id is None && self.location is None
    }
}

/// The view of an optional byte vector.
pub open spec fn bytes_opt(o: Option<Vec<u8>>) -> Option<Seq<u8>> {
    match o {
        Some(v) => Some(v@),
        None => None,
    }
}

/// The view of an optional string.
pub open spec fn text_opt(o: Option<String>) -> Option<Seq<char>> {
    match o {
        Some(s) => Some(s@),
        None => None,
    }
}

/// A caveat represents a restriction on the authority a token grants.
/// First-party caveats are checked by the receiving service; third-party
/// caveats need a discharge token from an external party.
#[derive(Debug, Clone, PartialEq, Eq)]
pub struct Caveat {
    /// The caveat identifier: the predicate text, or what the third party
    /// recognises.
    pub caveat_id: Vec<u8>,
    /// The verification key identifier of a third-party caveat.
    pub verification_key_id: Option<Vec<u8>>,
    /// Where a discharge for a third-party caveat can be obtained.
    pub location: Option<String>,
}

impl View for Caveat {
    type V = CaveatModel;

    open spec fn view(&self) -> CaveatModel {
        CaveatModel {
            caveat_id: self.caveat_id@,
            verification_key_id: bytes_opt(self.verification_key_id),
            location: text_opt(self.location),
        }
    }
}

/// A copy of optional bytes with the same view.
pub(crate) fn copy_bytes_opt(o: &Option<Vec<u8>>) -> (r: Option<Vec<u8>>)
    ensures
        bytes_opt(r) == bytes_opt(*o),
{
    match o {
        Some(v) => Some(vstd::slice::slice_to_vec(v.as_slice())),
        None => None,
    }
}

/// A copy of an optional string with the same view.
pub(crate) fn copy_text_opt(o: &Option<String>) -> (r: Option<String>)
    ensures
        text_opt(r) == text_opt(*o),
{
    match o {
        Some(s) => Some(s.as_str().to_owned()),
        None => None,
    }
}

impl Caveat {
    /// Creates a first-party caveat whose identifier is the predicate text.
    pub fn first_party(caveat_id: &[u8]) -> (r: Caveat)
        ensures
            r@ == (CaveatModel { caveat_id: caveat_id@, verification_key_id: None, location: None }),
    {
        Caveat { caveat_id: vstd::slice::slice_to_vec(caveat_id), verification_key_id: None, location: None }
    }

    /// Creates a third-party caveat.
    pub fn third_party(caveat_id: &[u8], verification_key_id: &[u8], location: &str) -> (r: Caveat)
        ensures
            r@ == (CaveatModel {
                caveat_id: caveat_id@,
                verification_key_id: Some(verification_key_id@),
                location: Some(location@),
            }),
    {
        Caveat {
            caveat_id: vstd::slice::slice_to_vec(caveat_id),
            verification_key_id: Some(vstd::slice::slice_to_vec(verification_key_id)),
            location: Some(location.to_owned()),
        }
    }

    /// Returns true if this is a first-party caveat.
    pub fn is_first_party(&self) -> (r: bool)
        ensures
            r == self@.is_first_party(),
    {
        self.verification_key_id.is_none() && self.location.is_none()
    }

    /// Returns true if this is a third-party caveat.
    pub fn is_third_party(&self) -> (r: bool)
        ensures
            r == !self@.is_first_party(),
    {
        !self.is_first_party()
    }

    /// A copy of this caveat with the same view.
    pub(crate) fn duplicate(&self) -> (r: Caveat)
        ensures
            r@ == self@,
    {
        Caveat {
            caveat_id: vstd::slice::slice_to_vec(self.caveat_id.as_slice()),
            verification_key_id: copy_bytes_opt(&self.verification_key_id),
            location: copy_text_opt(&self.location),
        }
    }
}

} // verus!
