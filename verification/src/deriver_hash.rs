//! The key under which a derived implementation is stored: the strategy
//! together with the fingerprint of the type under that strategy.
//!
//! To avoid duplicating derived implementations for the same type, the
//! implementations are addressed by a hash of the content of their type.
//! Which content counts depends on the ability, so the hash is always taken
//! under a strategy, and the strategy is part of the key.

use crate::content_hash::{fingerprint, fingerprint_of};
use crate::shape::{derivable, DeriveError};
use crate::strategy::Strategy;
use crate::type_graph::{TypeGraph, TypeId};
use vstd::prelude::*;

verus! {

/// A key that addresses a derived implementation.
pub trait DeriverHash: std::hash::Hash {
    /// The strategy under which the key was taken.
    spec fn strategy_of(&self) -> Strategy;

    /// The fingerprint of the type under that strategy.
    spec fn digest_of(&self) -> u64;

    /// The strategy under which the key was taken.
    fn strategy(&self) -> (strategy: Strategy)
        ensures
            strategy == self.strategy_of(),
    ;

    /// The fingerprint of the type under that strategy.
    fn digest(&self) -> (digest: u64)
        ensures
            digest == self.digest_of(),
    ;
}

/// The key of a type under a strategy.
#[derive(Hash, Clone, Copy, Debug, PartialEq, Eq)]
pub struct DeriverKey {
    pub strategy: Strategy,
    pub hash: u64,
}

impl DeriverHash for DeriverKey {
    open spec fn strategy_of(&self) -> Strategy {
        self.strategy
    }

    open spec fn digest_of(&self) -> u64 {
        self.hash
    }

    fn strategy(&self) -> (strategy: Strategy) {
        self.strategy
    }

    fn digest(&self) -> (digest: u64) {
        self.hash
    }
}

impl DeriverKey {
    /// The key of a type under a strategy. Fails exactly where no ability
    /// can be derived for the type.
    pub fn of(graph: &TypeGraph, strategy: Strategy, node: TypeId) -> (r: Result<
        DeriverKey,
        DeriveError,
    >)
        ensures
            r is Ok <==> derivable(graph@, node),
            r matches Ok(key) ==> key.strategy == strategy && key.hash == fingerprint_of(
                graph@,
                strategy,
                node,
            ),
            r matches Err(e) ==> e == DeriveError::Incompatible,
    {
        match fingerprint(graph, strategy, node) {
            Ok(hash) => Ok(DeriverKey { strategy, hash }),
            Err(e) => Err(e),
        }
    }
}

/// The keys of implementations of encoding.
pub struct EncodingHash;

impl EncodingHash {
    /// The key under which the encoder of a type is stored. Fails exactly
    /// where no ability can be derived for the type.
    pub fn from_var(graph: &TypeGraph, var: TypeId) -> (r: Result<impl DeriverHash, DeriveError>)
        ensures
            r is Ok <==> derivable(graph@, var),
            r matches Ok(key) ==> key.strategy_of() == Strategy::Encoding && key.digest_of()
                == fingerprint_of(graph@, Strategy::Encoding, var),
            r matches Err(e) ==> e == DeriveError::Incompatible,
    {
        DeriverKey::of(graph, Strategy::Encoding, var)
    }
}

} // verus!
