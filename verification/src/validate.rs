//! The two-phase validation pipeline composed across components.
//!
//! A component may declare a validation capability: a cheap pre-dispatch
//! check run right before execution, and a fuller source-aware check used
//! by an external inclusion layer before admitting a call into a pending
//! pool. The pipeline routes a call to its owning component's capability
//! exactly when that component declared one. The fallback is asymmetric
//! on purpose: a component without the capability never blocks
//! pre-dispatch (the check defaults to success), but is never implicitly
//! approved for admission (full validation defaults to the distinguished
//! `NoValidator` failure).

use vstd::prelude::*;

use crate::DispatchError;
use crate::dispatch::{Call, Dispatcher, resolves, route_of};
use crate::weight::{clamp, sat_add};

verus! {

/// The provenance of a call: how it arrived at the admission layer.
#[derive(Clone, Copy, Debug, PartialEq, Eq, Structural)]
pub enum CallSource {
    /// Submitted from outside (e.g. received over the network).
    External,
    /// Produced locally by the hosting process.
    Local,
    /// Already part of a state-transition batch being applied.
    InBlock,
}

/// What a successful full validation reports to the inclusion layer.
#[derive(Clone, Copy, Debug, PartialEq, Eq, Structural)]
pub struct ValidityInfo {
    pub priority: u64,
    pub longevity: u64,
    pub propagate: bool,
}

/// A component's validation capability: the configuration of its two
/// checks. Both checks are pure in the call and the source, so an
/// admission layer may invoke them speculatively and discard the
/// outcome.
#[derive(Clone, Copy, Debug, PartialEq, Eq, Structural)]
pub struct Validator {
    /// Largest total declared size the cheap pre-dispatch check admits.
    pub max_call_size: u64,
    /// Whether externally submitted calls may be admitted at all.
    pub allow_external: bool,
    /// Priority reported for admitted calls.
    pub priority: u64,
    /// Longevity reported for admitted calls.
    pub longevity: u64,
}

/// The exact (unclamped) sum of the first `n` declared parameters.
pub open spec fn params_sum(params: Seq<u64>, n: int) -> int
    decreases n,
{
    if n <= 0 {
        0
    } else {
        params_sum(params, n - 1) + params[n - 1]
    }
}

/// The total declared size of a call: the saturating sum of its
/// parameters.
pub open spec fn call_size(c: Call) -> int {
    clamp(params_sum(c.params@, c.params@.len() as int))
}

proof fn lemma_params_sum_nonneg(params: Seq<u64>, n: int)
    requires
        n <= params.len(),
    ensures
        params_sum(params, n) >= 0,
    decreases n,
{
    if n > 0 {
        lemma_params_sum_nonneg(params, n - 1);
    }
}

/// Compute the total declared size of a call.
pub fn call_size_of(c: &Call) -> (r: u64)
    ensures
        r == call_size(*c),
{
    let mut acc: u64 = 0;
    let mut i: usize = 0;
    while i < c.params.len()
        invariant
            i <= c.params@.len(),
            acc == clamp(params_sum(c.params@, i as int)),
        decreases c.params@.len() - i,
    {
        proof {
            lemma_params_sum_nonneg(c.params@, i as int);
            crate::weight::lemma_clamp_add(params_sum(c.params@, i as int), c.params@[
                i as int] as int);
        }
        acc = sat_add(acc, c.params[i]);
        i = i + 1;
    }
    acc
}

impl Validator {
    /// The cheap pre-dispatch check admits the call.
    pub open spec fn spec_pre_ok(self, c: Call) -> bool {
        call_size(c) <= self.max_call_size
    }

    /// The full check admits the call from the given source.
    pub open spec fn spec_admits(self, source: CallSource, c: Call) -> bool {
        self.spec_pre_ok(c) && (self.allow_external || !(source is External))
    }

    /// The component's own pre-dispatch check: a cheap, stateless bound
    /// on the call's declared size, independent of the call's source.
    pub fn pre_dispatch(&self, c: &Call) -> (r: Result<(), DispatchError>)
        ensures
            match r {
                Ok(u) => self.spec_pre_ok(*c),
                Err(e) => !self.spec_pre_ok(*c) && e == DispatchError::InvalidCall,
            },
    {
        if call_size_of(c) <= self.max_call_size {
            Ok(())
        } else {
            Err(DispatchError::InvalidCall)
        }
    }

    /// The component's own full validation: the pre-dispatch bound plus
    /// the source policy, reporting this validator's validity info.
    pub fn validate(&self, source: CallSource, c: &Call) -> (r: Result<
        ValidityInfo,
        DispatchError,
    >)
        ensures
            match r {
                Ok(v) => self.spec_admits(source, *c) && v == (ValidityInfo {
                    priority: self.priority,
                    longevity: self.longevity,
                    propagate: true,
                }),
                Err(e) => !self.spec_admits(source, *c) && e == DispatchError::InvalidCall,
            },
    {
        let source_ok = self.allow_external || !matches!(source, CallSource::External);
        if call_size_of(c) <= self.max_call_size && source_ok {
            Ok(ValidityInfo { priority: self.priority, longevity: self.longevity, propagate: true })
        } else {
            Err(DispatchError::InvalidCall)
        }
    }
}

impl Dispatcher {
    /// The validation capability of the component owning `name`, if it
    /// declared one.
    pub open spec fn validation_of(self, name: u64) -> Option<Validator> {
        let (i, j) = route_of(self.components@, name);
        self.components@[i].validation
    }

    /// What pre-dispatch returns for a call: the owning component's own
    /// check where it declared the capability, success otherwise.
    pub open spec fn pre_dispatch_outcome(self, c: Call) -> Result<(), DispatchError> {
        match self.validation_of(c.op) {
            None => Ok(()),
            Some(v) => if v.spec_pre_ok(c) {
                Ok(())
            } else {
                Err(DispatchError::InvalidCall)
            },
        }
    }

    /// What full validation returns for a call: the owning component's
    /// own check where it declared the capability, the distinguished
    /// `NoValidator` failure otherwise.
    pub open spec fn validate_outcome(self, source: CallSource, c: Call) -> Result<
        ValidityInfo,
        DispatchError,
    > {
        match self.validation_of(c.op) {
            None => Err(DispatchError::NoValidator),
            Some(v) => if v.spec_admits(source, c) {
                Ok(ValidityInfo { priority: v.priority, longevity: v.longevity, propagate: true })
            } else {
                Err(DispatchError::InvalidCall)
            },
        }
    }

    /// Run the composed pre-dispatch stage on a call the dispatcher
    /// owns. A component that declared no validation capability never
    /// blocks pre-dispatch.
    pub fn pre_dispatch(&self, call: &Call) -> (r: Result<(), DispatchError>)
        requires
            self.wf(),
            self.owns(call.op),
        ensures
            r == self.pre_dispatch_outcome(*call),
    {
        let (i, j) = self.route(call);
        proof {
            assert(route_of(self.components@, call.op).0 == i as int);
            assert(self.validation_of(call.op) == self.components@[i as int].validation);
        }
        let r: Result<(), DispatchError> = match &self.components[i].validation {
            None => Ok(()),
            Some(v) => v.pre_dispatch(call),
        };
        proof {
            match r {
                Ok(u) => {
                    assert(r == Ok::<(), DispatchError>(()));
                    assert(self.pre_dispatch_outcome(*call) == Ok::<(), DispatchError>(()));
                },
                Err(e) => {
                    assert(r == Err::<(), DispatchError>(e));
                    assert(self.pre_dispatch_outcome(*call) == Err::<(), DispatchError>(e));
                },
            }
        }
        r
    }

    /// Run the composed full-validation stage on a call the dispatcher
    /// owns. A component that declared no validation capability is never
    /// implicitly approved: the stage answers `NoValidator`.
    pub fn validate(&self, source: CallSource, call: &Call) -> (r: Result<
        ValidityInfo,
        DispatchError,
    >)
        requires
            self.wf(),
            self.owns(call.op),
        ensures
            r == self.validate_outcome(source, *call),
    {
        let (i, j) = self.route(call);
        proof {
            assert(route_of(self.components@, call.op).0 == i as int);
            assert(self.validation_of(call.op) == self.components@[i as int].validation);
        }
        match &self.components[i].validation {
            None => Err(DispatchError::NoValidator),
            Some(v) => v.validate(source, call),
        }
    }
}

/// Validation fallback law: a call routed to a component without the
/// validation capability always passes pre-dispatch and always receives
/// the distinguished `NoValidator` failure from full validation.
pub proof fn lemma_validation_fallback(d: Dispatcher, source: CallSource, c: Call)
    requires
        d.validation_of(c.op) is None,
    ensures
        d.pre_dispatch_outcome(c) == Ok::<(), DispatchError>(()),
        d.validate_outcome(source, c) == Err::<ValidityInfo, DispatchError>(
            DispatchError::NoValidator,
        ),
{
}

} // verus!
