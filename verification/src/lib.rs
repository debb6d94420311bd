//! A module-composition and deterministic resource-metering core.
//!
//! Independently authored components each own a disjoint set of named
//! operations. The library composes them into one dispatch surface
//! ([`dispatch::Dispatcher`]), prices every operation before it runs
//! ([`weight::CostModel`]), folds the components' optional two-phase
//! validation capability into a single pipeline with a safe fallback,
//! and ships one worked example component: a keyed attribute store with
//! size-proportional deposits ([`attributes::AttributeStore`]).

use vstd::prelude::*;

pub mod attributes;
pub mod dispatch;
pub mod ledger;
pub mod validate;
pub mod weight;

verus! {

/// Every failure the core can surface.
///
/// `AssemblyConflict` can only arise while composing a dispatcher; the
/// remaining variants are per-call results.
#[derive(Clone, Copy, Debug, PartialEq, Eq, Structural)]
pub enum DispatchError {
    /// The addressed collection does not exist.
    UnknownCollection,
    /// The caller is not the owner of the addressed collection.
    NoPermission,
    /// The addressed collection or item has its attributes locked.
    Frozen,
    /// The ledger could not reserve the required deposit.
    InsufficientBalance,
    /// A component's validation capability rejected the call.
    InvalidCall,
    /// The call's owning component has no validation capability.
    NoValidator,
    /// Two components claim the same operation identity.
    AssemblyConflict,
}

} // verus!
