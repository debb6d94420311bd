use weighted_dispatch::DispatchError;
use weighted_dispatch::dispatch::{Call, Component, Dispatcher, OperationDesc};
use weighted_dispatch::validate::{CallSource, Validator};
use weighted_dispatch::weight::{CostModel, CostTerm, DbCostModel, sat_add, sat_mul, sat_sub};

fn flat_model(base: u64, reads: u64, writes: u64) -> CostModel {
    CostModel { base, base_reads: reads, base_writes: writes, terms: Vec::new() }
}

fn db() -> DbCostModel {
    DbCostModel { read_cost: 25_000_000, write_cost: 100_000_000 }
}

#[test]
fn saturating_ops_clamp() {
    assert_eq!(sat_add(1, 2), 3);
    assert_eq!(sat_add(u64::MAX, 1), u64::MAX);
    assert_eq!(sat_sub(5, 7), 0);
    assert_eq!(sat_sub(7, 5), 2);
    assert_eq!(sat_mul(3, 4), 12);
    assert_eq!(sat_mul(u64::MAX, 2), u64::MAX);
    assert_eq!(sat_mul(u64::MAX, 0), 0);
}

#[test]
fn flat_estimate_is_base_plus_db_costs() {
    let m = flat_model(27_428_000, 1, 1);
    let w = m.estimate(&db(), &Vec::new());
    assert_eq!(w, 27_428_000 + 25_000_000 + 100_000_000);
}

#[test]
fn multi_parameter_estimate_matches_linear_formula() {
    // an operation whose cost grows in three independent dimensions,
    // each with its own coefficient and backend access counts
    let m = CostModel {
        base: 0,
        base_reads: 5,
        base_writes: 2,
        terms: vec![
            CostTerm { coeff: 17_579_000, reads: 2, writes: 2 },
            CostTerm { coeff: 20_074_000, reads: 2, writes: 2 },
            CostTerm { coeff: 18_244_000, reads: 1, writes: 1 },
        ],
    };
    let w = m.estimate(&db(), &vec![2, 3, 1]);
    assert_eq!(w, 1_813_624_000);
}

#[test]
fn estimate_is_monotone_in_each_parameter() {
    let m = CostModel {
        base: 10,
        base_reads: 1,
        base_writes: 0,
        terms: vec![
            CostTerm { coeff: 7, reads: 0, writes: 1 },
            CostTerm { coeff: 3, reads: 2, writes: 0 },
        ],
    };
    let d = db();
    let small = m.estimate(&d, &vec![1, 2]);
    let bigger_first = m.estimate(&d, &vec![2, 2]);
    let bigger_both = m.estimate(&d, &vec![2, 5]);
    assert!(small <= bigger_first);
    assert!(bigger_first <= bigger_both);
}

#[test]
fn estimate_saturates_instead_of_overflowing() {
    let m = CostModel {
        base: u64::MAX,
        base_reads: 0,
        base_writes: 0,
        terms: vec![CostTerm { coeff: u64::MAX, reads: 0, writes: 0 }],
    };
    let w = m.estimate(&db(), &vec![5]);
    assert_eq!(w, u64::MAX);
}

fn two_components() -> Vec<Component> {
    let first = Component {
        name: 1,
        ops: vec![
            OperationDesc { name: 10, cost: flat_model(100, 1, 1) },
            OperationDesc { name: 11, cost: flat_model(200, 2, 0) },
        ],
        validation: None,
    };
    let second = Component {
        name: 2,
        ops: vec![OperationDesc { name: 20, cost: flat_model(300, 0, 1) }],
        validation: Some(Validator {
            max_call_size: 100,
            allow_external: false,
            priority: 7,
            longevity: 32,
        }),
    };
    vec![first, second]
}

#[test]
fn composing_disjoint_components_succeeds_in_order() {
    let d = Dispatcher::compose(two_components()).unwrap();
    let call = Call { op: 20, params: Vec::new() };
    let (i, j) = d.route(&call);
    assert_eq!((i, j), (1, 0));
    let call = Call { op: 11, params: Vec::new() };
    let (i, j) = d.route(&call);
    assert_eq!((i, j), (0, 1));
}

#[test]
fn composing_overlapping_components_fails_at_assembly() {
    let mut components = two_components();
    components.push(Component {
        name: 3,
        ops: vec![OperationDesc { name: 11, cost: flat_model(0, 0, 0) }],
        validation: None,
    });
    let r = Dispatcher::compose(components);
    assert_eq!(r.err(), Some(DispatchError::AssemblyConflict));
}

#[test]
fn duplicate_operation_inside_one_component_fails_at_assembly() {
    let components = vec![Component {
        name: 1,
        ops: vec![
            OperationDesc { name: 10, cost: flat_model(0, 0, 0) },
            OperationDesc { name: 10, cost: flat_model(1, 0, 0) },
        ],
        validation: None,
    }];
    let r = Dispatcher::compose(components);
    assert_eq!(r.err(), Some(DispatchError::AssemblyConflict));
}

#[test]
fn routing_an_unowned_operation_yields_none() {
    let d = Dispatcher::compose(two_components()).unwrap();
    let call = Call { op: 99, params: Vec::new() };
    assert!(d.try_route(&call).is_none());
}

#[test]
fn call_weight_prices_by_the_owning_operation() {
    let d = Dispatcher::compose(two_components()).unwrap();
    let call = Call { op: 10, params: Vec::new() };
    let w = d.call_weight(&db(), &call);
    assert_eq!(w, 100 + 25_000_000 + 100_000_000);
}

#[test]
fn component_without_capability_passes_pre_dispatch() {
    let d = Dispatcher::compose(two_components()).unwrap();
    // operation 10 belongs to the component without validation
    let call = Call { op: 10, params: vec![1_000_000] };
    assert_eq!(d.pre_dispatch(&call), Ok(()));
}

#[test]
fn component_without_capability_is_never_implicitly_valid() {
    let d = Dispatcher::compose(two_components()).unwrap();
    let call = Call { op: 10, params: Vec::new() };
    assert_eq!(d.validate(CallSource::Local, &call).err(), Some(DispatchError::NoValidator));
    assert_eq!(d.validate(CallSource::External, &call).err(), Some(DispatchError::NoValidator));
}

#[test]
fn declared_validator_gates_pre_dispatch_by_call_size() {
    let d = Dispatcher::compose(two_components()).unwrap();
    // operation 20 belongs to the component with a validator capping
    // the declared call size at 100
    let small = Call { op: 20, params: vec![60, 40] };
    assert_eq!(d.pre_dispatch(&small), Ok(()));
    let large = Call { op: 20, params: vec![60, 41] };
    assert_eq!(d.pre_dispatch(&large), Err(DispatchError::InvalidCall));
}

#[test]
fn declared_validator_applies_its_source_policy() {
    let d = Dispatcher::compose(two_components()).unwrap();
    let call = Call { op: 20, params: vec![1] };
    let info = d.validate(CallSource::Local, &call).unwrap();
    assert_eq!(info.priority, 7);
    assert_eq!(info.longevity, 32);
    assert!(info.propagate);
    // this validator refuses externally submitted calls
    assert_eq!(d.validate(CallSource::External, &call).err(), Some(DispatchError::InvalidCall));
    assert_eq!(d.validate(CallSource::InBlock, &call).is_ok(), true);
}

#[test]
fn validation_outcomes_are_stable_under_repetition() {
    // the checks read no mutable state, so a speculative invocation can
    // be repeated and discarded freely
    let d = Dispatcher::compose(two_components()).unwrap();
    let call = Call { op: 20, params: vec![1] };
    let first = d.validate(CallSource::External, &call);
    let second = d.validate(CallSource::External, &call);
    assert_eq!(first, second);
    assert_eq!(d.pre_dispatch(&call), d.pre_dispatch(&call));
}
