use weighted_dispatch::DispatchError;
use weighted_dispatch::attributes::{
    AttributeStore, CollectionDetails, DepositConfig, FREE_HOLDING, LOCKED_ATTRIBUTES, StoreEvent,
};
use weighted_dispatch::ledger::Ledger;

const C1: u64 = 1;
const A: u64 = 10;
const B: u64 = 11;

fn setup(settings: u64) -> (AttributeStore, Ledger) {
    let mut store = AttributeStore::new(DepositConfig {
        deposit_per_byte: 1,
        attribute_deposit_base: 10,
    });
    assert!(store.put_collection(
        C1,
        CollectionDetails { owner: A, attributes: 0, total_deposit: 0, settings },
    ));
    let mut ledger = Ledger::new();
    assert!(ledger.endow(A, 1_000));
    (store, ledger)
}

#[test]
fn set_then_grow_then_clear_round_trips_the_deposit() {
    let (mut store, mut ledger) = setup(0);

    // first write: deposit = 1 * (1 + 1) + 10 = 12, reserved from A
    let r = store.do_set_attribute(&mut ledger, Some(A), C1, None, b"k".to_vec(), b"v".to_vec());
    assert_eq!(r, Ok(()));
    let details = store.collection_details(C1).unwrap();
    assert_eq!(details.attributes, 1);
    assert_eq!(details.total_deposit, 12);
    assert_eq!(ledger.reserved_balance(A), 12);
    assert_eq!(ledger.free_balance(A), 988);
    let (value, deposit) = store.attribute(C1, None, &b"k".to_vec()).unwrap();
    assert_eq!(value, b"v".to_vec());
    assert_eq!(deposit, 12);

    // same key, longer value: new deposit 13, only the difference is reserved
    let r = store.do_set_attribute(&mut ledger, Some(A), C1, None, b"k".to_vec(), b"vv".to_vec());
    assert_eq!(r, Ok(()));
    let details = store.collection_details(C1).unwrap();
    assert_eq!(details.attributes, 1);
    assert_eq!(details.total_deposit, 13);
    assert_eq!(ledger.reserved_balance(A), 13);
    assert_eq!(ledger.free_balance(A), 987);

    // clearing releases the whole deposit
    let r = store.do_clear_attribute(&mut ledger, Some(A), C1, None, b"k".to_vec());
    assert_eq!(r, Ok(()));
    let details = store.collection_details(C1).unwrap();
    assert_eq!(details.attributes, 0);
    assert_eq!(details.total_deposit, 0);
    assert_eq!(ledger.reserved_balance(A), 0);
    assert_eq!(ledger.free_balance(A), 1_000);
    assert!(store.attribute(C1, None, &b"k".to_vec()).is_none());
}

#[test]
fn privileged_set_is_deposit_free_and_issues_no_reserve() {
    let (mut store, mut ledger) = setup(0);
    let r = store.do_set_attribute(&mut ledger, None, C1, None, b"admin-key".to_vec(), b"x".to_vec());
    assert_eq!(r, Ok(()));
    let (_, deposit) = store.attribute(C1, None, &b"admin-key".to_vec()).unwrap();
    assert_eq!(deposit, 0);
    assert_eq!(store.collection_details(C1).unwrap().total_deposit, 0);
    assert_eq!(ledger.free_balance(A), 1_000);
    assert_eq!(ledger.reserved_balance(A), 0);
}

#[test]
fn locked_collection_refuses_writes_and_mutates_nothing() {
    let (mut store, mut ledger) = setup(LOCKED_ATTRIBUTES);
    let r = store.do_set_attribute(&mut ledger, Some(A), C1, None, b"k".to_vec(), b"v".to_vec());
    assert_eq!(r, Err(DispatchError::Frozen));
    assert!(store.attribute(C1, None, &b"k".to_vec()).is_none());
    assert_eq!(store.collection_details(C1).unwrap().attributes, 0);
    assert_eq!(ledger.free_balance(A), 1_000);
    assert_eq!(ledger.reserved_balance(A), 0);
    assert_eq!(store.events.len(), 0);
    // clearing is gated the same way
    let r = store.do_clear_attribute(&mut ledger, Some(A), C1, None, b"k".to_vec());
    assert_eq!(r, Err(DispatchError::Frozen));
}

#[test]
fn locked_item_refuses_item_level_writes_only() {
    let (mut store, mut ledger) = setup(0);
    assert!(store.put_item(C1, 7, LOCKED_ATTRIBUTES));
    assert!(store.put_item(C1, 8, 0));
    let r = store.do_set_attribute(&mut ledger, Some(A), C1, Some(7), b"k".to_vec(), b"v".to_vec());
    assert_eq!(r, Err(DispatchError::Frozen));
    let r = store.do_set_attribute(&mut ledger, Some(A), C1, Some(8), b"k".to_vec(), b"v".to_vec());
    assert_eq!(r, Ok(()));
    // the collection-level namespace is not gated by the item's lock
    let r = store.do_set_attribute(&mut ledger, Some(A), C1, None, b"k".to_vec(), b"v".to_vec());
    assert_eq!(r, Ok(()));
}

#[test]
fn clearing_an_absent_key_is_an_idempotent_success() {
    let (mut store, mut ledger) = setup(0);
    let r = store.do_clear_attribute(&mut ledger, Some(A), C1, None, b"ghost".to_vec());
    assert_eq!(r, Ok(()));
    let details = store.collection_details(C1).unwrap();
    assert_eq!(details.attributes, 0);
    assert_eq!(details.total_deposit, 0);
    assert_eq!(ledger.free_balance(A), 1_000);
    assert_eq!(store.events.len(), 0);
}

#[test]
fn unknown_collection_is_refused() {
    let (mut store, mut ledger) = setup(0);
    let r = store.do_set_attribute(&mut ledger, Some(A), 99, None, b"k".to_vec(), b"v".to_vec());
    assert_eq!(r, Err(DispatchError::UnknownCollection));
    let r = store.do_clear_attribute(&mut ledger, Some(A), 99, None, b"k".to_vec());
    assert_eq!(r, Err(DispatchError::UnknownCollection));
}

#[test]
fn non_owner_is_refused() {
    let (mut store, mut ledger) = setup(0);
    let r = store.do_set_attribute(&mut ledger, Some(B), C1, None, b"k".to_vec(), b"v".to_vec());
    assert_eq!(r, Err(DispatchError::NoPermission));
    let r = store.do_clear_attribute(&mut ledger, Some(B), C1, None, b"k".to_vec());
    assert_eq!(r, Err(DispatchError::NoPermission));
}

#[test]
fn uncovered_deposit_aborts_before_any_write() {
    let mut store = AttributeStore::new(DepositConfig {
        deposit_per_byte: 1,
        attribute_deposit_base: 10,
    });
    assert!(store.put_collection(
        C1,
        CollectionDetails { owner: A, attributes: 0, total_deposit: 0, settings: 0 },
    ));
    let mut ledger = Ledger::new();
    assert!(ledger.endow(A, 11)); // deposit would be 12
    let r = store.do_set_attribute(&mut ledger, Some(A), C1, None, b"k".to_vec(), b"v".to_vec());
    assert_eq!(r, Err(DispatchError::InsufficientBalance));
    assert!(store.attribute(C1, None, &b"k".to_vec()).is_none());
    assert_eq!(store.collection_details(C1).unwrap().attributes, 0);
    assert_eq!(ledger.free_balance(A), 11);
    assert_eq!(ledger.reserved_balance(A), 0);
}

#[test]
fn free_holding_collections_take_no_deposit_from_their_owner() {
    let (mut store, mut ledger) = setup(FREE_HOLDING);
    let r = store.do_set_attribute(&mut ledger, Some(A), C1, None, b"k".to_vec(), b"v".to_vec());
    assert_eq!(r, Ok(()));
    let (_, deposit) = store.attribute(C1, None, &b"k".to_vec()).unwrap();
    assert_eq!(deposit, 0);
    assert_eq!(ledger.reserved_balance(A), 0);
    assert_eq!(ledger.free_balance(A), 1_000);
}

#[test]
fn shrinking_a_value_unreserves_the_difference() {
    let (mut store, mut ledger) = setup(0);
    let r = store.do_set_attribute(&mut ledger, Some(A), C1, None, b"k".to_vec(), b"long-value".to_vec());
    assert_eq!(r, Ok(()));
    assert_eq!(ledger.reserved_balance(A), 21); // 1 * (1 + 10) + 10
    let r = store.do_set_attribute(&mut ledger, Some(A), C1, None, b"k".to_vec(), b"v".to_vec());
    assert_eq!(r, Ok(()));
    assert_eq!(ledger.reserved_balance(A), 12);
    assert_eq!(ledger.free_balance(A), 988);
    assert_eq!(store.collection_details(C1).unwrap().total_deposit, 12);
}

#[test]
fn completed_operations_emit_events() {
    let (mut store, mut ledger) = setup(0);
    store
        .do_set_attribute(&mut ledger, Some(A), C1, None, b"k".to_vec(), b"v".to_vec())
        .unwrap();
    store.do_clear_attribute(&mut ledger, Some(A), C1, None, b"k".to_vec()).unwrap();
    assert_eq!(store.events.len(), 2);
    match &store.events[0] {
        StoreEvent::AttributeSet { collection, maybe_item, key, value } => {
            assert_eq!(*collection, C1);
            assert_eq!(*maybe_item, None);
            assert_eq!(key, &b"k".to_vec());
            assert_eq!(value, &b"v".to_vec());
        },
        _ => panic!("expected a set event"),
    }
    match &store.events[1] {
        StoreEvent::AttributeCleared { collection, maybe_item, key } => {
            assert_eq!(*collection, C1);
            assert_eq!(*maybe_item, None);
            assert_eq!(key, &b"k".to_vec());
        },
        _ => panic!("expected a cleared event"),
    }
}

#[test]
fn attributes_of_other_keys_and_collections_are_untouched() {
    let (mut store, mut ledger) = setup(0);
    assert!(store.put_collection(
        2,
        CollectionDetails { owner: B, attributes: 0, total_deposit: 0, settings: 0 },
    ));
    assert!(ledger.endow(B, 500));
    store
        .do_set_attribute(&mut ledger, Some(A), C1, None, b"k1".to_vec(), b"v1".to_vec())
        .unwrap();
    store
        .do_set_attribute(&mut ledger, Some(B), 2, None, b"k1".to_vec(), b"other".to_vec())
        .unwrap();
    store.do_clear_attribute(&mut ledger, Some(A), C1, None, b"k1".to_vec()).unwrap();
    let (value, _) = store.attribute(2, None, &b"k1".to_vec()).unwrap();
    assert_eq!(value, b"other".to_vec());
    assert_eq!(store.collection_details(2).unwrap().attributes, 1);
    assert_eq!(ledger.reserved_balance(B), 17); // 1 * (2 + 5) + 10
}

#[test]
fn ledger_reserve_and_unreserve_move_balances_exactly() {
    let mut ledger = Ledger::new();
    assert!(ledger.endow(A, 100));
    assert!(!ledger.endow(A, 50)); // an identity cannot be endowed twice
    assert_eq!(ledger.reserve(A, 30), Ok(()));
    assert_eq!(ledger.free_balance(A), 70);
    assert_eq!(ledger.reserved_balance(A), 30);
    assert_eq!(ledger.reserve(A, 71).err(), Some(DispatchError::InsufficientBalance));
    assert_eq!(ledger.free_balance(A), 70);
    // unreserving more than is reserved releases only what is held
    ledger.unreserve(A, 1_000);
    assert_eq!(ledger.free_balance(A), 100);
    assert_eq!(ledger.reserved_balance(A), 0);
    // accounts never seen hold nothing
    assert_eq!(ledger.free_balance(B), 0);
    assert_eq!(ledger.reserve(B, 1).err(), Some(DispatchError::InsufficientBalance));
}
