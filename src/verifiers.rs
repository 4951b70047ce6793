//! Verifiers decide whether first-party caveats are satisfied.

use crate::error::StroopwafelError;
use crate::text;
use vstd::prelude::*;

verus! {

/// A verifier decides whether first-party caveat predicates are satisfied.
///
/// Implement this trait in verified code to provide custom caveat
/// verification logic; logic written elsewhere plugs in through
/// `FnVerifier`.
pub trait Verifier {
    /// Whether this verifier accepts the caveat predicate `predicate`.
    spec fn accepts(&self, predicate: Seq<u8>) -> bool;

    /// Verifies a single caveat predicate: `Ok` exactly when it is accepted.
    fn verify_caveat(&self, predicate: &[u8]) -> (r: Result<(), StroopwafelError>)
        ensures
            r is Ok <==> self.accepts(predicate@),
    ;
}

/// A verifier that accepts every caveat; useful when only the signature
/// matters.
pub struct AcceptAllVerifier;

impl Verifier for AcceptAllVerifier {
    open spec fn accepts(&self, predicate: Seq<u8>) -> bool {
        true
    }

    fn verify_caveat(&self, predicate: &[u8]) -> (r: Result<(), StroopwafelError>) {
        Ok(())
    }
}

/// A verifier that rejects every caveat with a `CaveatViolation`.
pub struct RejectAllVerifier;

impl Verifier for RejectAllVerifier {
    open spec fn accepts(&self, predicate: Seq<u8>) -> bool {
        false
    }

    fn verify_caveat(&self, predicate: &[u8]) -> (r: Result<(), StroopwafelError>)
        ensures
            r matches Err(StroopwafelError::CaveatViolation(m)) && m@ == text::utf8_lossy_of(predicate@),
    {
        Err(StroopwafelError::CaveatViolation(text::lossy_text(predicate)))
    }
}

/// A verifier backed by a function of the predicate bytes.
///
/// The function must be callable on every predicate and must answer the
/// same predicate the same way each time.
pub struct FnVerifier<F> where F: Fn(&[u8]) -> Result<(), StroopwafelError> {
    func: F,
}

/// `func` can be called on every predicate and its success depends on the
/// predicate's bytes alone.
pub open spec fn deterministic_caveat_fn<F: Fn(&[u8]) -> Result<(), StroopwafelError>>(func: F) -> bool {
    &&& forall|p: &[u8]| call_requires(func, (p,))
    &&& forall|p: &[u8], q: &[u8], r1: Result<(), StroopwafelError>, r2: Result<(), StroopwafelError>|
        p@ == q@ && #[trigger] call_ensures(func, (p,), r1) && #[trigger] call_ensures(func, (q,), r2)
            ==> (r1 is Ok <==> r2 is Ok)
}

impl<F> FnVerifier<F> where F: Fn(&[u8]) -> Result<(), StroopwafelError> {
    #[verifier::type_invariant]
    spec fn well_behaved(self) -> bool {
        deterministic_caveat_fn(self.func)
    }

    /// Creates a function-based verifier.
    pub fn new(func: F) -> (r: Self)
        requires
            deterministic_caveat_fn(func),
        ensures
            r.func() == func,
    {
        FnVerifier { func }
    }

    /// The wrapped function.
    pub closed spec fn func(self) -> F {
        self.func
    }
}

impl<F> Verifier for FnVerifier<F> where F: Fn(&[u8]) -> Result<(), StroopwafelError> {
    /// Accepted when the function answers `Ok` for these bytes.
    open spec fn accepts(&self, predicate: Seq<u8>) -> bool {
        exists|p: &[u8], r: Result<(), StroopwafelError>|
            p@ == predicate && #[trigger] call_ensures(self.func(), (p,), r) && r is Ok
    }

    fn verify_caveat(&self, predicate: &[u8]) -> (r: Result<(), StroopwafelError>) {
        proof {
            use_type_invariant(self);
        }
        let r = (self.func)(predicate);
        assert(self.func() == self.func);
        r
    }
}

/// Two verifiers tried in order: a caveat passes if either accepts it.
pub struct AnyOf<A, B> {
    first: A,
    second: B,
}

impl<A: Verifier, B: Verifier> Verifier for AnyOf<A, B> {
    open spec fn accepts(&self, predicate: Seq<u8>) -> bool {
        self.first().accepts(predicate) || self.second().accepts(predicate)
    }

    fn verify_caveat(&self, predicate: &[u8]) -> (r: Result<(), StroopwafelError>) {
        let r = self.first.verify_caveat(predicate);
        if r.is_ok() {
            return r;
        }
        self.second.verify_caveat(predicate)
    }
}

impl<A, B> AnyOf<A, B> {
    /// The verifier tried first.
    pub closed spec fn first(self) -> A {
        self.first
    }

    /// The verifier tried second.
    pub closed spec fn second(self) -> B {
        self.second
    }
}

/// An ordered collection of verifiers: a caveat passes if any of them
/// accepts it. A collection with no verifier accepts every caveat.
///
/// `L` is the chain of verifiers added so far; it starts as a
/// `RejectAllVerifier`, the neutral element of "any of".
pub struct CompositeVerifier<L: Verifier = RejectAllVerifier> {
    verifiers: L,
    is_empty: bool,
}

impl<L: Verifier> CompositeVerifier<L> {
    /// With no members added, the chain accepts nothing.
    #[verifier::type_invariant]
    spec fn empty_chain_rejects(self) -> bool {
        self.is_empty ==> forall|p: Seq<u8>| !#[trigger] self.verifiers.accepts(p)
    }
}

impl<L: Verifier> CompositeVerifier<L> {
    /// The chain of verifiers added so far.
    pub closed spec fn members(self) -> L {
        self.verifiers
    }

    /// Whether no verifier has been added.
    pub closed spec fn has_no_members(self) -> bool {
        self.is_empty
    }
}

impl CompositeVerifier<RejectAllVerifier> {
    /// Creates a composite verifier with no members.
    pub fn new() -> (r: Self)
        ensures
            r.has_no_members(),
    {
        CompositeVerifier { verifiers: RejectAllVerifier, is_empty: true }
    }
}

impl core::default::Default for CompositeVerifier<RejectAllVerifier> {
    fn default() -> (r: Self)
        ensures
            r.has_no_members(),
    {
        Self::new()
    }
}

impl<L: Verifier> CompositeVerifier<L> {
    /// Adds a verifier, tried after those added before it.
    pub fn add_verifier<V: Verifier>(self, verifier: V) -> (r: CompositeVerifier<AnyOf<L, V>>)
        ensures
            !r.has_no_members(),
            r.members().first() == self.members(),
            r.members().second() == verifier,
            forall|p: Seq<u8>| #[trigger] r.accepts(p) <==> (self.accepts(p) && !self.has_no_members()) || verifier.accepts(p),
    {
        proof {
            use_type_invariant(&self);
        }
        CompositeVerifier { verifiers: AnyOf { first: self.verifiers, second: verifier }, is_empty: false }
    }
}

impl<L: Verifier> Verifier for CompositeVerifier<L> {
    /// With no members every caveat passes; otherwise one member must accept.
    open spec fn accepts(&self, predicate: Seq<u8>) -> bool {
        self.has_no_members() || self.members().accepts(predicate)
    }

    fn verify_caveat(&self, predicate: &[u8]) -> (r: Result<(), StroopwafelError>)
        ensures
            r is Err ==> (r matches Err(StroopwafelError::CaveatViolation(m)) && m@ == text::utf8_lossy_of(predicate@)),
    {
        if self.is_empty {
            return Ok(());
        }
        match self.verifiers.verify_caveat(predicate) {
            Ok(()) => Ok(()),
            Err(_) => Err(StroopwafelError::CaveatViolation(text::lossy_text(predicate))),
        }
    }
}

} // verus!
