//! The example component: a keyed attribute store with size-proportional
//! deposits.
//!
//! Attributes are keyed by `(collection, optional item, key bytes)` and
//! hold `(value bytes, deposit)`. Writing an attribute reserves a deposit
//! proportional to the stored byte length against the collection owner's
//! ledger account; clearing it releases the deposit in full. Both
//! operations are gated by ownership and by the "locked attributes"
//! setting of the collection (or of the item, for item-level keys), and
//! either complete entirely or mutate nothing.

use vstd::prelude::*;

use crate::DispatchError;
use crate::ledger::Ledger;
use crate::weight::{clamp, floor_sub, lemma_clamp_add, lemma_clamp_mul, sat_add, sat_mul, sat_sub};

verus! {

/// Settings flag: attributes of the collection (or item) are locked.
pub const LOCKED_ATTRIBUTES: u64 = 1;

/// Settings flag: the collection owner holds attributes deposit-free.
pub const FREE_HOLDING: u64 = 2;

/// Whether a settings bitset contains a flag.
pub open spec fn spec_has_setting(settings: u64, flag: u64) -> bool {
    settings & flag != 0
}

/// Whether a settings bitset contains a flag.
pub fn has_setting(settings: u64, flag: u64) -> (r: bool)
    ensures
        r == spec_has_setting(settings, flag),
{
    settings & flag != 0
}

/// The deposit rates: one per stored byte, one flat base per attribute.
#[derive(Clone, Copy, Debug, PartialEq, Eq, Structural)]
pub struct DepositConfig {
    pub deposit_per_byte: u64,
    pub attribute_deposit_base: u64,
}

/// A collection's accounting record: its owner, how many attributes it
/// holds, the running total of their deposits, and its settings bitset.
#[derive(Clone, Copy, Debug, PartialEq, Eq, Structural)]
pub struct CollectionDetails {
    pub owner: u64,
    pub attributes: u32,
    pub total_deposit: u64,
    pub settings: u64,
}

/// A collection record as persisted: its identity and its details.
#[derive(Clone, Copy, Debug, PartialEq, Eq, Structural)]
pub struct CollectionRecord {
    pub id: u64,
    pub details: CollectionDetails,
}

/// An item's settings within a collection (only the settings matter to
/// this component).
#[derive(Clone, Copy, Debug, PartialEq, Eq, Structural)]
pub struct ItemRecord {
    pub collection: u64,
    pub item: u64,
    pub settings: u64,
}

/// One stored attribute: its full key and its value plus the deposit
/// reserved for it.
#[derive(Clone, Debug)]
pub struct AttributeRecord {
    pub collection: u64,
    pub item: Option<u64>,
    pub key: Vec<u8>,
    pub value: Vec<u8>,
    pub deposit: u64,
}

/// A domain event emitted by a completed operation.
#[derive(Clone, Debug)]
pub enum StoreEvent {
    AttributeSet { collection: u64, maybe_item: Option<u64>, key: Vec<u8>, value: Vec<u8> },
    AttributeCleared { collection: u64, maybe_item: Option<u64>, key: Vec<u8> },
}

/// Index `i` holds the record of collection `c`.
pub open spec fn col_at(s: Seq<CollectionRecord>, c: u64, i: int) -> bool {
    0 <= i < s.len() && s[i].id == c
}

pub open spec fn spec_has_col(s: Seq<CollectionRecord>, c: u64) -> bool {
    exists|i: int| col_at(s, c, i)
}

pub open spec fn col_index(s: Seq<CollectionRecord>, c: u64) -> int {
    choose|i: int| col_at(s, c, i)
}

/// The details of collection `c`, if it exists.
pub open spec fn spec_col(s: Seq<CollectionRecord>, c: u64) -> Option<CollectionDetails> {
    if spec_has_col(s, c) {
        Some(s[col_index(s, c)].details)
    } else {
        None
    }
}

/// Index `i` holds the record of item `it` of collection `c`.
pub open spec fn item_at(s: Seq<ItemRecord>, c: u64, it: u64, i: int) -> bool {
    0 <= i < s.len() && s[i].collection == c && s[i].item == it
}

pub open spec fn spec_has_item(s: Seq<ItemRecord>, c: u64, it: u64) -> bool {
    exists|i: int| item_at(s, c, it, i)
}

pub open spec fn item_index(s: Seq<ItemRecord>, c: u64, it: u64) -> int {
    choose|i: int| item_at(s, c, it, i)
}

/// The settings of an item; an item with no record has none set.
pub open spec fn spec_item_settings(s: Seq<ItemRecord>, c: u64, it: u64) -> u64 {
    if spec_has_item(s, c, it) {
        s[item_index(s, c, it)].settings
    } else {
        0
    }
}

/// Index `i` holds the attribute keyed `(c, mi, k)`.
pub open spec fn attr_at(s: Seq<AttributeRecord>, c: u64, mi: Option<u64>, k: Seq<u8>, i: int) -> bool {
    0 <= i < s.len() && s[i].collection == c && s[i].item == mi && s[i].key@ == k
}

pub open spec fn spec_has_attr(s: Seq<AttributeRecord>, c: u64, mi: Option<u64>, k: Seq<u8>) -> bool {
    exists|i: int| attr_at(s, c, mi, k, i)
}

pub open spec fn attr_index(s: Seq<AttributeRecord>, c: u64, mi: Option<u64>, k: Seq<u8>) -> int {
    choose|i: int| attr_at(s, c, mi, k, i)
}

/// The value bytes and deposit of the attribute keyed `(c, mi, k)`, if
/// it exists.
pub open spec fn spec_attr(s: Seq<AttributeRecord>, c: u64, mi: Option<u64>, k: Seq<u8>) -> Option<
    (Seq<u8>, u64),
> {
    if spec_has_attr(s, c, mi, k) {
        let r = s[attr_index(s, c, mi, k)];
        Some((r.value@, r.deposit))
    } else {
        None
    }
}

/// Collection identities are unique.
pub open spec fn cols_wf(s: Seq<CollectionRecord>) -> bool {
    forall|i: int, j: int| 0 <= i < j < s.len() ==> (#[trigger] s[i]).id != (#[trigger] s[j]).id
}

/// Item identities are unique within their collection.
pub open spec fn items_wf(s: Seq<ItemRecord>) -> bool {
    forall|i: int, j: int|
        0 <= i < j < s.len() ==> !((#[trigger] s[i]).collection == (#[trigger] s[j]).collection
            && s[i].item == s[j].item)
}

/// Attribute keys are unique.
pub open spec fn attrs_wf(s: Seq<AttributeRecord>) -> bool {
    forall|i: int, j: int|
        0 <= i < j < s.len() ==> !((#[trigger] s[i]).collection == (#[trigger] s[j]).collection
            && s[i].item == s[j].item && s[i].key@ == s[j].key@)
}

pub proof fn lemma_col_at_unique(s: Seq<CollectionRecord>, c: u64, i: int)
    requires
        cols_wf(s),
        col_at(s, c, i),
    ensures
        spec_has_col(s, c),
        col_index(s, c) == i,
{
    assert(spec_has_col(s, c));
    let k = col_index(s, c);
    assert(col_at(s, c, k));
    if k != i {
        assert((s[k]).id != (s[i]).id);
        assert(false);
    }
}

pub proof fn lemma_item_at_unique(s: Seq<ItemRecord>, c: u64, it: u64, i: int)
    requires
        items_wf(s),
        item_at(s, c, it, i),
    ensures
        spec_has_item(s, c, it),
        item_index(s, c, it) == i,
{
    assert(spec_has_item(s, c, it));
    let k = item_index(s, c, it);
    assert(item_at(s, c, it, k));
    if k != i {
        assert(!((s[k]).collection == (s[i]).collection && s[k].item == s[i].item));
        assert(false);
    }
}

pub proof fn lemma_attr_at_unique(s: Seq<AttributeRecord>, c: u64, mi: Option<u64>, k: Seq<u8>, i: int)
    requires
        attrs_wf(s),
        attr_at(s, c, mi, k, i),
    ensures
        spec_has_attr(s, c, mi, k),
        attr_index(s, c, mi, k) == i,
{
    assert(spec_has_attr(s, c, mi, k));
    let j = attr_index(s, c, mi, k);
    assert(attr_at(s, c, mi, k, j));
    if j != i {
        assert(!((s[j]).collection == (s[i]).collection && s[j].item == s[i].item && s[j].key@
            == s[i].key@));
        assert(false);
    }
}

/// Replacing the record at index `i` (same collection identity) changes
/// only that collection's details.
proof fn lemma_col_update(s: Seq<CollectionRecord>, i: int, r: CollectionRecord)
    requires
        cols_wf(s),
        0 <= i < s.len(),
        r.id == s[i].id,
    ensures
        cols_wf(s.update(i, r)),
        spec_col(s.update(i, r), r.id) == Some(r.details),
        forall|c2: u64|
            c2 != r.id ==> #[trigger] spec_col(s.update(i, r), c2) == spec_col(s, c2),
{
    let s2 = s.update(i, r);
    lemma_col_at_unique(s2, r.id, i);
    assert forall|c2: u64| c2 != r.id implies #[trigger] spec_col(s2, c2) == spec_col(s, c2) by {
        if spec_has_col(s, c2) {
            let k = col_index(s, c2);
            assert(col_at(s, c2, k));
            assert(k != i);
            lemma_col_at_unique(s2, c2, k);
        } else {
            if spec_has_col(s2, c2) {
                let k = choose|k: int| col_at(s2, c2, k);
                assert(k != i);
                assert(col_at(s, c2, k));
                assert(false);
            }
        }
    }
}

/// Appending a fresh collection identity leaves every other collection
/// unchanged.
proof fn lemma_col_push(s: Seq<CollectionRecord>, r: CollectionRecord)
    requires
        cols_wf(s),
        !spec_has_col(s, r.id),
    ensures
        cols_wf(s.push(r)),
        spec_col(s.push(r), r.id) == Some(r.details),
        forall|c2: u64|
            c2 != r.id ==> #[trigger] spec_col(s.push(r), c2) == spec_col(s, c2),
{
    let s2 = s.push(r);
    assert forall|i: int, j: int| 0 <= i < j < s2.len() implies (#[trigger] s2[i]).id
        != (#[trigger] s2[j]).id by {
        if j == s.len() {
            if s2[i].id == r.id {
                assert(col_at(s, r.id, i));
                assert(false);
            }
        }
    }
    lemma_col_at_unique(s2, r.id, s.len() as int);
    assert forall|c2: u64| c2 != r.id implies #[trigger] spec_col(s2, c2) == spec_col(s, c2) by {
        if spec_has_col(s, c2) {
            let k = col_index(s, c2);
            assert(col_at(s, c2, k));
            lemma_col_at_unique(s2, c2, k);
        } else {
            if spec_has_col(s2, c2) {
                let k = choose|k: int| col_at(s2, c2, k);
                assert(k != s.len());
                assert(col_at(s, c2, k));
                assert(false);
            }
        }
    }
}

/// Appending a fresh item record leaves every other item's settings
/// unchanged.
proof fn lemma_item_push(s: Seq<ItemRecord>, r: ItemRecord)
    requires
        items_wf(s),
        !spec_has_item(s, r.collection, r.item),
    ensures
        items_wf(s.push(r)),
        spec_item_settings(s.push(r), r.collection, r.item) == r.settings,
        forall|c2: u64, it2: u64|
            !(c2 == r.collection && it2 == r.item) ==> #[trigger] spec_item_settings(
                s.push(r),
                c2,
                it2,
            ) == spec_item_settings(s, c2, it2),
{
    let s2 = s.push(r);
    assert forall|i: int, j: int| 0 <= i < j < s2.len() implies !((#[trigger] s2[i]).collection
        == (#[trigger] s2[j]).collection && s2[i].item == s2[j].item) by {
        if j == s.len() {
            if s2[i].collection == r.collection && s2[i].item == r.item {
                assert(item_at(s, r.collection, r.item, i));
                assert(false);
            }
        }
    }
    lemma_item_at_unique(s2, r.collection, r.item, s.len() as int);
    assert forall|c2: u64, it2: u64| !(c2 == r.collection && it2 == r.item)
        implies #[trigger] spec_item_settings(s2, c2, it2) == spec_item_settings(s, c2, it2) by {
        if spec_has_item(s, c2, it2) {
            let k = item_index(s, c2, it2);
            assert(item_at(s, c2, it2, k));
            lemma_item_at_unique(s2, c2, it2, k);
        } else {
            if spec_has_item(s2, c2, it2) {
                let k = choose|k: int| item_at(s2, c2, it2, k);
                assert(k != s.len());
                assert(item_at(s, c2, it2, k));
                assert(false);
            }
        }
    }
}

/// Replacing the attribute at index `i` (same key) changes only that
/// key's value and deposit.
proof fn lemma_attr_update(s: Seq<AttributeRecord>, i: int, r: AttributeRecord)
    requires
        attrs_wf(s),
        0 <= i < s.len(),
        r.collection == s[i].collection,
        r.item == s[i].item,
        r.key@ == s[i].key@,
    ensures
        attrs_wf(s.update(i, r)),
        spec_attr(s.update(i, r), r.collection, r.item, r.key@) == Some((r.value@, r.deposit)),
        forall|c2: u64, mi2: Option<u64>, k2: Seq<u8>|
            !(c2 == r.collection && mi2 == r.item && k2 == r.key@) ==> #[trigger] spec_attr(
                s.update(i, r),
                c2,
                mi2,
                k2,
            ) == spec_attr(s, c2, mi2, k2),
{
    let s2 = s.update(i, r);
    assert forall|a: int, b: int| 0 <= a < b < s2.len() implies !((#[trigger] s2[a]).collection
        == (#[trigger] s2[b]).collection && s2[a].item == s2[b].item && s2[a].key@
        == s2[b].key@) by {
        assert(!((s[a]).collection == (s[b]).collection && s[a].item == s[b].item && s[a].key@
            == s[b].key@));
    }
    lemma_attr_at_unique(s2, r.collection, r.item, r.key@, i);
    assert forall|c2: u64, mi2: Option<u64>, k2: Seq<u8>|
        !(c2 == r.collection && mi2 == r.item && k2 == r.key@) implies #[trigger] spec_attr(
        s2,
        c2,
        mi2,
        k2,
    ) == spec_attr(s, c2, mi2, k2) by {
        if spec_has_attr(s, c2, mi2, k2) {
            let k = attr_index(s, c2, mi2, k2);
            assert(attr_at(s, c2, mi2, k2, k));
            assert(k != i);
            lemma_attr_at_unique(s2, c2, mi2, k2, k);
        } else {
            if spec_has_attr(s2, c2, mi2, k2) {
                let k = choose|k: int| attr_at(s2, c2, mi2, k2, k);
                assert(k != i);
                assert(attr_at(s, c2, mi2, k2, k));
                assert(false);
            }
        }
    }
}

/// Appending an attribute under a fresh key leaves every other key
/// unchanged.
proof fn lemma_attr_push(s: Seq<AttributeRecord>, r: AttributeRecord)
    requires
        attrs_wf(s),
        !spec_has_attr(s, r.collection, r.item, r.key@),
    ensures
        attrs_wf(s.push(r)),
        spec_attr(s.push(r), r.collection, r.item, r.key@) == Some((r.value@, r.deposit)),
        forall|c2: u64, mi2: Option<u64>, k2: Seq<u8>|
            !(c2 == r.collection && mi2 == r.item && k2 == r.key@) ==> #[trigger] spec_attr(
                s.push(r),
                c2,
                mi2,
                k2,
            ) == spec_attr(s, c2, mi2, k2),
{
    let s2 = s.push(r);
    assert forall|a: int, b: int| 0 <= a < b < s2.len() implies !((#[trigger] s2[a]).collection
        == (#[trigger] s2[b]).collection && s2[a].item == s2[b].item && s2[a].key@
        == s2[b].key@) by {
        if b == s.len() {
            if s2[a].collection == r.collection && s2[a].item == r.item && s2[a].key@ == r.key@ {
                assert(attr_at(s, r.collection, r.item, r.key@, a));
                assert(false);
            }
        }
    }
    lemma_attr_at_unique(s2, r.collection, r.item, r.key@, s.len() as int);
    assert forall|c2: u64, mi2: Option<u64>, k2: Seq<u8>|
        !(c2 == r.collection && mi2 == r.item && k2 == r.key@) implies #[trigger] spec_attr(
        s2,
        c2,
        mi2,
        k2,
    ) == spec_attr(s, c2, mi2, k2) by {
        if spec_has_attr(s, c2, mi2, k2) {
            let k = attr_index(s, c2, mi2, k2);
            assert(attr_at(s, c2, mi2, k2, k));
            lemma_attr_at_unique(s2, c2, mi2, k2, k);
        } else {
            if spec_has_attr(s2, c2, mi2, k2) {
                let k = choose|k: int| attr_at(s2, c2, mi2, k2, k);
                assert(k != s.len());
                assert(attr_at(s, c2, mi2, k2, k));
                assert(false);
            }
        }
    }
}

/// Removing the attribute at index `i` erases exactly that key.
proof fn lemma_attr_remove(s: Seq<AttributeRecord>, i: int)
    requires
        attrs_wf(s),
        0 <= i < s.len(),
    ensures
        attrs_wf(s.remove(i)),
        spec_attr(s.remove(i), s[i].collection, s[i].item, s[i].key@) is None,
        forall|c2: u64, mi2: Option<u64>, k2: Seq<u8>|
            !(c2 == s[i].collection && mi2 == s[i].item && k2 == s[i].key@) ==> #[trigger] spec_attr(
                s.remove(i),
                c2,
                mi2,
                k2,
            ) == spec_attr(s, c2, mi2, k2),
{
    let s2 = s.remove(i);
    s.remove_ensures(i);
    assert forall|a: int, b: int| 0 <= a < b < s2.len() implies !((#[trigger] s2[a]).collection
        == (#[trigger] s2[b]).collection && s2[a].item == s2[b].item && s2[a].key@
        == s2[b].key@) by {
        let a1: int = if a < i { a } else { a + 1 };
        let b1: int = if b < i { b } else { b + 1 };
        assert(s2[a] == s[a1]);
        assert(s2[b] == s[b1]);
        assert(!((s[a1]).collection == (s[b1]).collection && s[a1].item == s[b1].item && s[a1].key@
            == s[b1].key@));
    }
    if spec_has_attr(s2, s[i].collection, s[i].item, s[i].key@) {
        let k = choose|k: int| attr_at(s2, s[i].collection, s[i].item, s[i].key@, k);
        let k1: int = if k < i { k } else { k + 1 };
        assert(s2[k] == s[k1]);
        assert(attr_at(s, s[i].collection, s[i].item, s[i].key@, k1));
        assert(k1 != i ==> !((s[k1]).collection == (s[i]).collection && s[k1].item == s[i].item
            && s[k1].key@ == s[i].key@));
        assert(false);
    }
    assert forall|c2: u64, mi2: Option<u64>, k2: Seq<u8>|
        !(c2 == s[i].collection && mi2 == s[i].item && k2 == s[i].key@) implies #[trigger] spec_attr(
        s2,
        c2,
        mi2,
        k2,
    ) == spec_attr(s, c2, mi2, k2) by {
        if spec_has_attr(s, c2, mi2, k2) {
            let k = attr_index(s, c2, mi2, k2);
            assert(attr_at(s, c2, mi2, k2, k));
            assert(k != i);
            let k1: int = if k < i { k } else { k - 1 };
            assert(s2[k1] == s[k]);
            assert(attr_at(s2, c2, mi2, k2, k1));
            lemma_attr_at_unique(s2, c2, mi2, k2, k1);
        } else {
            if spec_has_attr(s2, c2, mi2, k2) {
                let k = choose|k: int| attr_at(s2, c2, mi2, k2, k);
                let k1: int = if k < i { k } else { k + 1 };
                assert(s2[k] == s[k1]);
                assert(attr_at(s, c2, mi2, k2, k1));
                assert(false);
            }
        }
    }
}

/// Whether two byte vectors hold the same bytes.
fn bytes_eq(a: &Vec<u8>, b: &Vec<u8>) -> (r: bool)
    ensures
        r == (a@ == b@),
{
    if a.len() != b.len() {
        return false;
    }
    let mut i: usize = 0;
    while i < a.len()
        invariant
            a@.len() == b@.len(),
            i <= a@.len(),
            forall|k: int| 0 <= k < i ==> a@[k] == b@[k],
        decreases a@.len() - i,
    {
        if a[i] != b[i] {
            return false;
        }
        i = i + 1;
    }
    proof {
        assert(a@ =~= b@);
    }
    true
}

/// What one record contributes to a collection's total deposit.
pub open spec fn deposit_contrib(r: AttributeRecord, c: u64) -> int {
    if r.collection == c {
        r.deposit as int
    } else {
        0
    }
}

/// What one record contributes to a collection's attribute count.
pub open spec fn count_contrib(r: AttributeRecord, c: u64) -> int {
    if r.collection == c {
        1
    } else {
        0
    }
}

/// The total deposit held by the attributes of collection `c`.
pub open spec fn sum_deposits(s: Seq<AttributeRecord>, c: u64) -> int
    decreases s.len(),
{
    if s.len() == 0 {
        0
    } else {
        sum_deposits(s.drop_last(), c) + deposit_contrib(s.last(), c)
    }
}

/// How many attributes collection `c` holds.
pub open spec fn count_attrs(s: Seq<AttributeRecord>, c: u64) -> int
    decreases s.len(),
{
    if s.len() == 0 {
        0
    } else {
        count_attrs(s.drop_last(), c) + count_contrib(s.last(), c)
    }
}

/// The accounting invariant of a collection: its recorded counters agree
/// with the attribute table.
pub open spec fn balanced(st: AttributeStore, c: u64) -> bool {
    match spec_col(st.collections@, c) {
        None => true,
        Some(col) => col.total_deposit == sum_deposits(st.attributes@, c) && col.attributes
            == count_attrs(st.attributes@, c),
    }
}

/// Every record's contribution lies between zero and the whole sum.
proof fn lemma_contrib_bounds(s: Seq<AttributeRecord>, c: u64, i: int)
    requires
        0 <= i < s.len(),
    ensures
        sum_deposits(s, c) >= deposit_contrib(s[i], c) >= 0,
        count_attrs(s, c) >= count_contrib(s[i], c) >= 0,
        sum_deposits(s, c) >= 0,
        count_attrs(s, c) >= 0,
    decreases s.len(),
{
    lemma_sums_nonneg(s.drop_last(), c);
    if i < s.len() - 1 {
        lemma_contrib_bounds(s.drop_last(), c, i);
        assert(s.drop_last()[i] == s[i]);
    }
}

proof fn lemma_sums_nonneg(s: Seq<AttributeRecord>, c: u64)
    ensures
        sum_deposits(s, c) >= 0,
        count_attrs(s, c) >= 0,
    decreases s.len(),
{
    if s.len() > 0 {
        lemma_sums_nonneg(s.drop_last(), c);
    }
}

/// Appending a record adds its contributions.
proof fn lemma_sums_push(s: Seq<AttributeRecord>, r: AttributeRecord, c: u64)
    ensures
        sum_deposits(s.push(r), c) == sum_deposits(s, c) + deposit_contrib(r, c),
        count_attrs(s.push(r), c) == count_attrs(s, c) + count_contrib(r, c),
{
    assert(s.push(r).drop_last() =~= s);
}

/// Replacing the record at index `i` swaps its contributions.
proof fn lemma_sums_update(s: Seq<AttributeRecord>, i: int, r: AttributeRecord, c: u64)
    requires
        0 <= i < s.len(),
    ensures
        sum_deposits(s.update(i, r), c) == sum_deposits(s, c) - deposit_contrib(s[i], c)
            + deposit_contrib(r, c),
        count_attrs(s.update(i, r), c) == count_attrs(s, c) - count_contrib(s[i], c)
            + count_contrib(r, c),
    decreases s.len(),
{
    let s2 = s.update(i, r);
    if i == s.len() - 1 {
        assert(s2.drop_last() =~= s.drop_last());
        assert(s2.last() == r);
    } else {
        assert(s2.drop_last() =~= s.drop_last().update(i, r));
        assert(s2.last() == s.last());
        lemma_sums_update(s.drop_last(), i, r, c);
        assert(s.drop_last()[i] == s[i]);
    }
}

/// Removing the record at index `i` subtracts its contributions.
proof fn lemma_sums_remove(s: Seq<AttributeRecord>, i: int, c: u64)
    requires
        0 <= i < s.len(),
    ensures
        sum_deposits(s.remove(i), c) == sum_deposits(s, c) - deposit_contrib(s[i], c),
        count_attrs(s.remove(i), c) == count_attrs(s, c) - count_contrib(s[i], c),
    decreases s.len(),
{
    let s2 = s.remove(i);
    if i == s.len() - 1 {
        assert(s2 =~= s.drop_last());
    } else {
        assert(s2.drop_last() =~= s.drop_last().remove(i));
        s.remove_ensures(i);
        assert(s2.last() == s.last());
        lemma_sums_remove(s.drop_last(), i, c);
        assert(s.drop_last()[i] == s[i]);
    }
}

/// The deposit owed for an attribute of the given key and value byte
/// lengths: one rate per stored byte plus a flat base, saturating.
pub open spec fn spec_attr_deposit(cfg: DepositConfig, klen: int, vlen: int) -> int {
    clamp(cfg.deposit_per_byte * (klen + vlen) + cfg.attribute_deposit_base)
}

/// The deposit a write owes: nothing when the collection holds
/// attributes deposit-free or when the caller is privileged (no owner
/// check was requested — administrative writes never pay), otherwise
/// proportional to the stored bytes.
pub open spec fn spec_new_deposit(
    cfg: DepositConfig,
    col_settings: u64,
    mco: Option<u64>,
    klen: int,
    vlen: int,
) -> int {
    if spec_has_setting(col_settings, FREE_HOLDING) || mco is None {
        0
    } else {
        spec_attr_deposit(cfg, klen, vlen)
    }
}

/// The deposit currently held for a key; zero when the key is absent.
pub open spec fn spec_old_deposit(s: Seq<AttributeRecord>, c: u64, mi: Option<u64>, k: Seq<u8>) -> int {
    match spec_attr(s, c, mi, k) {
        Some(a) => a.1 as int,
        None => 0,
    }
}

/// Saturating increment of an attribute count.
pub open spec fn inc_count(n: u32) -> u32 {
    if n == u32::MAX {
        n
    } else {
        (n + 1) as u32
    }
}

/// Saturating decrement of an attribute count.
pub open spec fn dec_count(n: u32) -> u32 {
    if n == 0 {
        n
    } else {
        (n - 1) as u32
    }
}

/// The keyed attribute store: collection records, item settings,
/// attributes, and the events completed operations emitted. The deposit
/// rates are fixed configuration.
#[derive(Clone, Debug)]
pub struct AttributeStore {
    pub config: DepositConfig,
    pub collections: Vec<CollectionRecord>,
    pub items: Vec<ItemRecord>,
    pub attributes: Vec<AttributeRecord>,
    pub events: Vec<StoreEvent>,
}

/// Everything a completed, successful `do_set_attribute` changed,
/// related to the states before the call.
pub open spec fn set_ok_post(
    pre: AttributeStore,
    lpre: Ledger,
    post: AttributeStore,
    lpost: Ledger,
    mco: Option<u64>,
    c: u64,
    mi: Option<u64>,
    k: Seq<u8>,
    v: Seq<u8>,
) -> bool {
    let col = spec_col(pre.collections@, c).unwrap();
    let had = spec_has_attr(pre.attributes@, c, mi, k);
    let old_dep = spec_old_deposit(pre.attributes@, c, mi, k);
    let new_dep = spec_new_deposit(pre.config, col.settings, mco, k.len() as int, v.len() as int);
    &&& post.config == pre.config
    &&& post.items@ == pre.items@
    &&& post.wf()
    &&& lpost.wf()
    // the attribute now holds the new value and its deposit
    &&& spec_attr(post.attributes@, c, mi, k) == Some((v, new_dep as u64))
    // no other key was touched
    &&& forall|c2: u64, mi2: Option<u64>, k2: Seq<u8>|
        !(c2 == c && mi2 == mi && k2 == k) ==> #[trigger] spec_attr(post.attributes@, c2, mi2, k2)
            == spec_attr(pre.attributes@, c2, mi2, k2)
    // how the table itself changed: the one record replaced or appended
    &&& (if had {
        exists|i: int, nr: AttributeRecord|
            attr_at(pre.attributes@, c, mi, k, i) && nr.collection == c && nr.item == mi
                && nr.key@ == k && nr.value@ == v && nr.deposit == new_dep as u64
                && post.attributes@ == pre.attributes@.update(i, nr)
    } else {
        exists|nr: AttributeRecord|
            nr.collection == c && nr.item == mi && nr.key@ == k && nr.value@ == v && nr.deposit
                == new_dep as u64 && post.attributes@ == pre.attributes@.push(nr)
    })
    // the collection's accounting: count up for a fresh key, running
    // total reconciled from the old deposit to the new one
    &&& spec_col(post.collections@, c) == Some(
        CollectionDetails {
            owner: col.owner,
            attributes: if had {
                col.attributes
            } else {
                inc_count(col.attributes)
            },
            total_deposit: clamp(floor_sub(col.total_deposit as int, old_dep) + new_dep) as u64,
            settings: col.settings,
        },
    )
    &&& forall|c2: u64|
        c2 != c ==> #[trigger] spec_col(post.collections@, c2) == spec_col(pre.collections@, c2)
    // ledger reconciliation: exactly one of reserve/unreserve fired, or
    // neither when the deposit is unchanged
    &&& (if new_dep > old_dep {
        lpost.free_of(col.owner) == lpre.free_of(col.owner) - (new_dep - old_dep)
            && lpost.reserved_of(col.owner) == lpre.reserved_of(col.owner) + (new_dep - old_dep)
    } else if new_dep < old_dep {
        lpost.reserved_of(col.owner) == lpre.reserved_of(col.owner) - lpre.unreserve_amount(
            col.owner,
            (old_dep - new_dep) as u64,
        ) && lpost.free_of(col.owner) == lpre.free_of(col.owner) + lpre.unreserve_amount(
            col.owner,
            (old_dep - new_dep) as u64,
        )
    } else {
        lpost == lpre
    })
    &&& forall|w: u64|
        w != col.owner ==> #[trigger] lpost.free_of(w) == lpre.free_of(w) && lpost.reserved_of(w)
            == lpre.reserved_of(w)
    // the event
    &&& post.events@.len() == pre.events@.len() + 1
    &&& forall|e: int| 0 <= e < pre.events@.len() ==> #[trigger] post.events@[e] == pre.events@[e]
    &&& (post.events@.last() matches StoreEvent::AttributeSet {
        collection,
        maybe_item,
        key,
        value,
    } && collection == c && maybe_item == mi && key@ == k && value@ == v)
}

/// Everything a completed, successful `do_clear_attribute` changed,
/// related to the states before the call. Clearing an absent key is a
/// silent no-op.
pub open spec fn clear_ok_post(
    pre: AttributeStore,
    lpre: Ledger,
    post: AttributeStore,
    lpost: Ledger,
    c: u64,
    mi: Option<u64>,
    k: Seq<u8>,
) -> bool {
    let col = spec_col(pre.collections@, c).unwrap();
    match spec_attr(pre.attributes@, c, mi, k) {
        None => post == pre && lpost == lpre,
        Some(a) => {
            let dep = a.1;
            &&& post.config == pre.config
            &&& post.items@ == pre.items@
            &&& post.wf()
            &&& lpost.wf()
            // the attribute is gone and no other key was touched
            &&& spec_attr(post.attributes@, c, mi, k) is None
            &&& forall|c2: u64, mi2: Option<u64>, k2: Seq<u8>|
                !(c2 == c && mi2 == mi && k2 == k) ==> #[trigger] spec_attr(
                    post.attributes@,
                    c2,
                    mi2,
                    k2,
                ) == spec_attr(pre.attributes@, c2, mi2, k2)
            // how the table itself changed: the one record removed
            &&& exists|i: int|
                attr_at(pre.attributes@, c, mi, k, i) && post.attributes@
                    == pre.attributes@.remove(i)
            // count down, running total reduced by the held deposit
            &&& spec_col(post.collections@, c) == Some(
                CollectionDetails {
                    owner: col.owner,
                    attributes: dec_count(col.attributes),
                    total_deposit: floor_sub(col.total_deposit as int, dep as int) as u64,
                    settings: col.settings,
                },
            )
            &&& forall|c2: u64|
                c2 != c ==> #[trigger] spec_col(post.collections@, c2) == spec_col(
                    pre.collections@,
                    c2,
                )
            // the held deposit is released in full (up to what the
            // ledger has reserved)
            &&& lpost.reserved_of(col.owner) == lpre.reserved_of(col.owner)
                - lpre.unreserve_amount(col.owner, dep)
            &&& lpost.free_of(col.owner) == lpre.free_of(col.owner) + lpre.unreserve_amount(
                col.owner,
                dep,
            )
            &&& forall|w: u64|
                w != col.owner ==> #[trigger] lpost.free_of(w) == lpre.free_of(w)
                    && lpost.reserved_of(w) == lpre.reserved_of(w)
            // the event
            &&& post.events@.len() == pre.events@.len() + 1
            &&& forall|e: int|
                0 <= e < pre.events@.len() ==> #[trigger] post.events@[e] == pre.events@[e]
            &&& (post.events@.last() matches StoreEvent::AttributeCleared {
                collection,
                maybe_item,
                key,
            } && collection == c && maybe_item == mi && key@ == k)
        },
    }
}

impl AttributeStore {
    /// Identities are unique in every table.
    pub open spec fn wf(self) -> bool {
        &&& cols_wf(self.collections@)
        &&& items_wf(self.items@)
        &&& attrs_wf(self.attributes@)
    }

    /// The frozen state that gates writes at `(c, mi)`: for a
    /// collection-level attribute, the collection's own "locked
    /// attributes" setting; for an item-level attribute, the item's.
    pub open spec fn spec_frozen(self, c: u64, mi: Option<u64>) -> bool
        recommends
            spec_col(self.collections@, c) is Some,
    {
        match mi {
            None => spec_has_setting(
                spec_col(self.collections@, c).unwrap().settings,
                LOCKED_ATTRIBUTES,
            ),
            Some(it) => spec_has_setting(
                spec_item_settings(self.items@, c, it),
                LOCKED_ATTRIBUTES,
            ),
        }
    }

    /// Which result `do_set_attribute` returns, decided from the states
    /// before the call alone: the checks in order, then whether the
    /// ledger can cover a deposit increase.
    pub open spec fn set_outcome(
        self,
        l: Ledger,
        mco: Option<u64>,
        c: u64,
        mi: Option<u64>,
        k: Seq<u8>,
        v: Seq<u8>,
    ) -> Result<(), DispatchError> {
        match spec_col(self.collections@, c) {
            None => Err(DispatchError::UnknownCollection),
            Some(col) => if (match mco {
                Some(o) => o != col.owner,
                None => false,
            }) {
                Err(DispatchError::NoPermission)
            } else if self.spec_frozen(c, mi) {
                Err(DispatchError::Frozen)
            } else {
                let old_dep = spec_old_deposit(self.attributes@, c, mi, k);
                let new_dep = spec_new_deposit(
                    self.config,
                    col.settings,
                    mco,
                    k.len() as int,
                    v.len() as int,
                );
                if new_dep > old_dep && l.free_of(col.owner) < new_dep - old_dep {
                    Err(DispatchError::InsufficientBalance)
                } else {
                    Ok(())
                }
            },
        }
    }

    /// Which result `do_clear_attribute` returns: the same checks, and
    /// success whether or not the key exists.
    pub open spec fn clear_outcome(self, mco: Option<u64>, c: u64, mi: Option<u64>) -> Result<
        (),
        DispatchError,
    > {
        match spec_col(self.collections@, c) {
            None => Err(DispatchError::UnknownCollection),
            Some(col) => if (match mco {
                Some(o) => o != col.owner,
                None => false,
            }) {
                Err(DispatchError::NoPermission)
            } else if self.spec_frozen(c, mi) {
                Err(DispatchError::Frozen)
            } else {
                Ok(())
            },
        }
    }

    /// An empty store with the given deposit rates.
    pub fn new(config: DepositConfig) -> (s: AttributeStore)
        ensures
            s.wf(),
            s.config == config,
            s.events@.len() == 0,
            forall|c: u64| #[trigger] spec_col(s.collections@, c) is None,
            forall|c: u64, mi: Option<u64>, k: Seq<u8>| #[trigger] spec_attr(
                s.attributes@,
                c,
                mi,
                k,
            ) is None,
            forall|c: u64, it: u64| #[trigger] spec_item_settings(s.items@, c, it) == 0,
    {
        let s = AttributeStore {
            config,
            collections: Vec::new(),
            items: Vec::new(),
            attributes: Vec::new(),
            events: Vec::new(),
        };
        proof {
            assert forall|c: u64| #[trigger] spec_col(s.collections@, c) is None by {
                if spec_has_col(s.collections@, c) {
                    let k = choose|k: int| col_at(s.collections@, c, k);
                    assert(false);
                }
            }
            assert forall|c: u64, mi: Option<u64>, k: Seq<u8>| #[trigger] spec_attr(
                s.attributes@,
                c,
                mi,
                k,
            ) is None by {
                if spec_has_attr(s.attributes@, c, mi, k) {
                    let i = choose|i: int| attr_at(s.attributes@, c, mi, k, i);
                    assert(false);
                }
            }
            assert forall|c: u64, it: u64| #[trigger] spec_item_settings(s.items@, c, it)
                == 0 by {
                if spec_has_item(s.items@, c, it) {
                    let i = choose|i: int| item_at(s.items@, c, it, i);
                    assert(false);
                }
            }
        }
        s
    }

    fn find_collection(&self, c: u64) -> (r: Option<usize>)
        ensures
            match r {
                Some(i) => col_at(self.collections@, c, i as int),
                None => !spec_has_col(self.collections@, c),
            },
    {
        let mut i: usize = 0;
        while i < self.collections.len()
            invariant
                i <= self.collections@.len(),
                forall|t: int| 0 <= t < i ==> (#[trigger] self.collections@[t]).id != c,
            decreases self.collections@.len() - i,
        {
            if self.collections[i].id == c {
                return Some(i);
            }
            i = i + 1;
        }
        proof {
            if spec_has_col(self.collections@, c) {
                let t = choose|t: int| col_at(self.collections@, c, t);
                assert((self.collections@[t]).id != c);
                assert(false);
            }
        }
        None
    }

    fn find_item(&self, c: u64, it: u64) -> (r: Option<usize>)
        ensures
            match r {
                Some(i) => item_at(self.items@, c, it, i as int),
                None => !spec_has_item(self.items@, c, it),
            },
    {
        let mut i: usize = 0;
        while i < self.items.len()
            invariant
                i <= self.items@.len(),
                forall|t: int|
                    0 <= t < i ==> !((#[trigger] self.items@[t]).collection == c
                        && self.items@[t].item == it),
            decreases self.items@.len() - i,
        {
            if self.items[i].collection == c && self.items[i].item == it {
                return Some(i);
            }
            i = i + 1;
        }
        proof {
            if spec_has_item(self.items@, c, it) {
                let t = choose|t: int| item_at(self.items@, c, it, t);
                assert(!((self.items@[t]).collection == c && self.items@[t].item == it));
                assert(false);
            }
        }
        None
    }

    fn find_attribute(&self, c: u64, mi: Option<u64>, key: &Vec<u8>) -> (r: Option<usize>)
        ensures
            match r {
                Some(i) => attr_at(self.attributes@, c, mi, key@, i as int),
                None => !spec_has_attr(self.attributes@, c, mi, key@),
            },
    {
        let mut i: usize = 0;
        while i < self.attributes.len()
            invariant
                i <= self.attributes@.len(),
                forall|t: int| 0 <= t < i ==> !attr_at(self.attributes@, c, mi, key@, t),
            decreases self.attributes@.len() - i,
        {
            let same_collection = self.attributes[i].collection == c;
            let same_item = match (mi, self.attributes[i].item) {
                (None, None) => true,
                (Some(a), Some(b)) => a == b,
                _ => false,
            };
            if same_collection && same_item && bytes_eq(&self.attributes[i].key, key) {
                return Some(i);
            }
            i = i + 1;
        }
        proof {
            if spec_has_attr(self.attributes@, c, mi, key@) {
                let t = choose|t: int| attr_at(self.attributes@, c, mi, key@, t);
                assert(!attr_at(self.attributes@, c, mi, key@, t));
                assert(false);
            }
        }
        None
    }

    /// Install a collection record. Refuses an identity that already
    /// exists (collection creation itself is an external operation; this
    /// is the storage interface it goes through).
    pub fn put_collection(&mut self, id: u64, details: CollectionDetails) -> (r: bool)
        requires
            old(self).wf(),
        ensures
            final(self).wf(),
            r == !spec_has_col(old(self).collections@, id),
            r ==> spec_col(final(self).collections@, id) == Some(details),
            r ==> forall|c2: u64|
                c2 != id ==> #[trigger] spec_col(final(self).collections@, c2) == spec_col(
                    old(self).collections@,
                    c2,
                ),
            final(self).config == old(self).config,
            final(self).items@ == old(self).items@,
            final(self).attributes@ == old(self).attributes@,
            final(self).events@ == old(self).events@,
            !r ==> *final(self) == *old(self),
    {
        match self.find_collection(id) {
            Some(i) => false,
            None => {
                let rec = CollectionRecord { id, details };
                proof {
                    lemma_col_push(self.collections@, rec);
                }
                self.collections.push(rec);
                true
            },
        }
    }

    /// Install an item's settings record. Refuses an item that already
    /// has one (item minting is an external operation).
    pub fn put_item(&mut self, collection: u64, item: u64, settings: u64) -> (r: bool)
        requires
            old(self).wf(),
        ensures
            final(self).wf(),
            r == !spec_has_item(old(self).items@, collection, item),
            r ==> spec_item_settings(final(self).items@, collection, item) == settings,
            r ==> forall|c2: u64, it2: u64|
                !(c2 == collection && it2 == item) ==> #[trigger] spec_item_settings(
                    final(self).items@,
                    c2,
                    it2,
                ) == spec_item_settings(old(self).items@, c2, it2),
            final(self).config == old(self).config,
            final(self).collections@ == old(self).collections@,
            final(self).attributes@ == old(self).attributes@,
            final(self).events@ == old(self).events@,
            !r ==> *final(self) == *old(self),
    {
        match self.find_item(collection, item) {
            Some(i) => false,
            None => {
                let rec = ItemRecord { collection, item, settings };
                proof {
                    lemma_item_push(self.items@, rec);
                }
                self.items.push(rec);
                true
            },
        }
    }

    /// Read a collection's details.
    pub fn collection_details(&self, id: u64) -> (r: Option<CollectionDetails>)
        requires
            self.wf(),
        ensures
            r == spec_col(self.collections@, id),
    {
        match self.find_collection(id) {
            Some(i) => {
                proof {
                    lemma_col_at_unique(self.collections@, id, i as int);
                }
                Some(self.collections[i].details)
            },
            None => None,
        }
    }

    /// Read an item's settings; an item with no record has none set.
    pub fn item_settings(&self, collection: u64, item: u64) -> (r: u64)
        requires
            self.wf(),
        ensures
            r == spec_item_settings(self.items@, collection, item),
    {
        match self.find_item(collection, item) {
            Some(i) => {
                proof {
                    lemma_item_at_unique(self.items@, collection, item, i as int);
                }
                self.items[i].settings
            },
            None => 0,
        }
    }

    /// Read an attribute's value bytes and deposit.
    pub fn attribute(&self, collection: u64, maybe_item: Option<u64>, key: &Vec<u8>) -> (r: Option<
        (Vec<u8>, u64),
    >)
        requires
            self.wf(),
        ensures
            match r {
                Some(p) => spec_attr(self.attributes@, collection, maybe_item, key@) == Some(
                    (p.0@, p.1),
                ),
                None => spec_attr(self.attributes@, collection, maybe_item, key@) is None,
            },
    {
        match self.find_attribute(collection, maybe_item, key) {
            Some(i) => {
                proof {
                    lemma_attr_at_unique(self.attributes@, collection, maybe_item, key@, i as int);
                }
                let value = clone_bytes(&self.attributes[i].value);
                Some((value, self.attributes[i].deposit))
            },
            None => None,
        }
    }
}

/// Copy a byte vector.
fn clone_bytes(v: &Vec<u8>) -> (r: Vec<u8>)
    ensures
        r@ == v@,
{
    let mut r: Vec<u8> = Vec::new();
    let mut i: usize = 0;
    while i < v.len()
        invariant
            i <= v@.len(),
            r@ == v@.subrange(0, i as int),
        decreases v@.len() - i,
    {
        r.push(v[i]);
        proof {
            assert(r@ =~= v@.subrange(0, i + 1));
        }
        i = i + 1;
    }
    proof {
        assert(r@ =~= v@);
    }
    r
}

impl AttributeStore {
    /// Write (or overwrite) the attribute keyed `(collection, maybe_item,
    /// key)` with `value`.
    ///
    /// An absent `maybe_check_owner` is a privileged caller: the
    /// ownership check is bypassed and the write is deposit-free. The
    /// checks run in order — unknown collection, permission, frozen
    /// state, then the ledger reservation for a deposit increase — and a
    /// failed check returns its error with nothing mutated.
    pub fn do_set_attribute(
        &mut self,
        ledger: &mut Ledger,
        maybe_check_owner: Option<u64>,
        collection: u64,
        maybe_item: Option<u64>,
        key: Vec<u8>,
        value: Vec<u8>,
    ) -> (r: Result<(), DispatchError>)
        requires
            old(self).wf(),
            old(ledger).wf(),
        ensures
            final(self).wf(),
            final(ledger).wf(),
            r == old(self).set_outcome(
                *old(ledger),
                maybe_check_owner,
                collection,
                maybe_item,
                key@,
                value@,
            ),
            r is Ok ==> set_ok_post(
                *old(self),
                *old(ledger),
                *final(self),
                *final(ledger),
                maybe_check_owner,
                collection,
                maybe_item,
                key@,
                value@,
            ),
            r is Err ==> *final(self) == *old(self) && *final(ledger) == *old(ledger),
    {
        let col_idx = match self.find_collection(collection) {
            Some(i) => i,
            None => {
                return Err(DispatchError::UnknownCollection);
            },
        };
        proof {
            lemma_col_at_unique(self.collections@, collection, col_idx as int);
        }
        let details = self.collections[col_idx].details;
        if let Some(check_owner) = maybe_check_owner {
            if check_owner != details.owner {
                return Err(DispatchError::NoPermission);
            }
        }
        let frozen = match maybe_item {
            None => has_setting(details.settings, LOCKED_ATTRIBUTES),
            Some(item) => has_setting(self.item_settings(collection, item), LOCKED_ATTRIBUTES),
        };
        if frozen {
            return Err(DispatchError::Frozen);
        }
        let attr_idx = self.find_attribute(collection, maybe_item, &key);
        let old_deposit: u64 = match attr_idx {
            Some(i) => {
                proof {
                    lemma_attr_at_unique(self.attributes@, collection, maybe_item, key@, i as int);
                }
                self.attributes[i].deposit
            },
            None => 0,
        };
        let deposit: u64 = if !has_setting(details.settings, FREE_HOLDING)
            && maybe_check_owner.is_some() {
            let size = sat_add(key.len() as u64, value.len() as u64);
            let byte_part = sat_mul(self.config.deposit_per_byte, size);
            proof {
                lemma_clamp_mul(
                    key@.len() + value@.len() as int,
                    self.config.deposit_per_byte as int,
                );
                assert(self.config.deposit_per_byte * (key@.len() + value@.len()) >= 0)
                    by (nonlinear_arith);
                lemma_clamp_add(
                    self.config.deposit_per_byte * (key@.len() + value@.len()),
                    self.config.attribute_deposit_base as int,
                );
            }
            let d = sat_add(byte_part, self.config.attribute_deposit_base);
            assert(size == clamp(key@.len() + value@.len() as int));
            proof {
                let kv: int = key@.len() + value@.len() as int;
                let pb: int = self.config.deposit_per_byte as int;
                assert(pb * clamp(kv) == clamp(kv) * pb) by (nonlinear_arith);
                assert(kv * pb == pb * kv) by (nonlinear_arith);
            }
            assert(byte_part == clamp(
                self.config.deposit_per_byte * (key@.len() + value@.len() as int),
            ));
            assert(d == spec_attr_deposit(
                self.config,
                key@.len() as int,
                value@.len() as int,
            ));
            d
        } else {
            0
        };
        assert(deposit == spec_new_deposit(
            self.config,
            details.settings,
            maybe_check_owner,
            key@.len() as int,
            value@.len() as int,
        ));
        // reconcile the ledger first: a failed reservation aborts before
        // any persistent write
        if deposit > old_deposit {
            match ledger.reserve(details.owner, deposit - old_deposit) {
                Ok(u) => {},
                Err(e) => {
                    return Err(e);
                },
            }
        } else if deposit < old_deposit {
            ledger.unreserve(details.owner, old_deposit - deposit);
        }
        // persist the collection's accounting
        let new_count: u32 = match attr_idx {
            Some(i) => details.attributes,
            None => if details.attributes < u32::MAX {
                details.attributes + 1
            } else {
                details.attributes
            },
        };
        let new_total = sat_add(sat_sub(details.total_deposit, old_deposit), deposit);
        let new_col = CollectionRecord {
            id: collection,
            details: CollectionDetails {
                owner: details.owner,
                attributes: new_count,
                total_deposit: new_total,
                settings: details.settings,
            },
        };
        proof {
            lemma_col_update(self.collections@, col_idx as int, new_col);
        }
        self.collections[col_idx] = new_col;
        // persist the attribute
        let new_attr = AttributeRecord {
            collection,
            item: maybe_item,
            key: clone_bytes(&key),
            value: clone_bytes(&value),
            deposit,
        };
        let ghost recorded = new_attr;
        match attr_idx {
            Some(i) => {
                proof {
                    lemma_attr_update(self.attributes@, i as int, new_attr);
                }
                self.attributes[i] = new_attr;
                proof {
                    assert(self.attributes@ == old(self).attributes@.update(i as int, recorded));
                }
            },
            None => {
                proof {
                    lemma_attr_push(self.attributes@, new_attr);
                }
                self.attributes.push(new_attr);
                proof {
                    assert(self.attributes@ == old(self).attributes@.push(recorded));
                }
            },
        }
        self.events.push(
            StoreEvent::AttributeSet { collection, maybe_item, key, value },
        );
        Ok(())
    }

    /// Clear the attribute keyed `(collection, maybe_item, key)`,
    /// releasing its deposit in full.
    ///
    /// The permission and frozen checks are those of
    /// `do_set_attribute`. Clearing an absent key succeeds without
    /// mutating anything: the operation is idempotent.
    pub fn do_clear_attribute(
        &mut self,
        ledger: &mut Ledger,
        maybe_check_owner: Option<u64>,
        collection: u64,
        maybe_item: Option<u64>,
        key: Vec<u8>,
    ) -> (r: Result<(), DispatchError>)
        requires
            old(self).wf(),
            old(ledger).wf(),
        ensures
            final(self).wf(),
            final(ledger).wf(),
            r == old(self).clear_outcome(maybe_check_owner, collection, maybe_item),
            r is Ok ==> clear_ok_post(
                *old(self),
                *old(ledger),
                *final(self),
                *final(ledger),
                collection,
                maybe_item,
                key@,
            ),
            r is Err ==> *final(self) == *old(self) && *final(ledger) == *old(ledger),
    {
        let col_idx = match self.find_collection(collection) {
            Some(i) => i,
            None => {
                return Err(DispatchError::UnknownCollection);
            },
        };
        proof {
            lemma_col_at_unique(self.collections@, collection, col_idx as int);
        }
        let details = self.collections[col_idx].details;
        if let Some(check_owner) = maybe_check_owner {
            if check_owner != details.owner {
                return Err(DispatchError::NoPermission);
            }
        }
        let frozen = match maybe_item {
            None => has_setting(details.settings, LOCKED_ATTRIBUTES),
            Some(item) => has_setting(self.item_settings(collection, item), LOCKED_ATTRIBUTES),
        };
        if frozen {
            return Err(DispatchError::Frozen);
        }
        match self.find_attribute(collection, maybe_item, &key) {
            None => Ok(()),
            Some(i) => {
                proof {
                    lemma_attr_at_unique(self.attributes@, collection, maybe_item, key@, i as int);
                    lemma_attr_remove(self.attributes@, i as int);
                }
                let rec = self.attributes.remove(i);
                proof {
                    assert(self.attributes@ == old(self).attributes@.remove(i as int));
                }
                ledger.unreserve(details.owner, rec.deposit);
                let new_count: u32 = if details.attributes > 0 {
                    details.attributes - 1
                } else {
                    0
                };
                let new_col = CollectionRecord {
                    id: collection,
                    details: CollectionDetails {
                        owner: details.owner,
                        attributes: new_count,
                        total_deposit: sat_sub(details.total_deposit, rec.deposit),
                        settings: details.settings,
                    },
                };
                proof {
                    lemma_col_update(self.collections@, col_idx as int, new_col);
                }
                self.collections[col_idx] = new_col;
                self.events.push(
                    StoreEvent::AttributeCleared { collection, maybe_item, key },
                );
                Ok(())
            },
        }
    }
}

/// Frozen invariant law: while a collection (or, for an item-level key,
/// the item) has its attributes locked, every write or clear whose
/// earlier checks pass — the collection exists and the caller is its
/// owner or privileged — fails with `Frozen`; and since neither
/// operation ever changes a settings bitset, it stays locked until an
/// external unlock.
pub proof fn lemma_frozen_blocks(
    s: AttributeStore,
    l: Ledger,
    mco: Option<u64>,
    c: u64,
    mi: Option<u64>,
    k: Seq<u8>,
    v: Seq<u8>,
)
    requires
        spec_col(s.collections@, c) is Some,
        match mco {
            Some(o) => o == spec_col(s.collections@, c).unwrap().owner,
            None => true,
        },
        s.spec_frozen(c, mi),
    ensures
        s.set_outcome(l, mco, c, mi, k, v) == Err::<(), DispatchError>(DispatchError::Frozen),
        s.clear_outcome(mco, c, mi) == Err::<(), DispatchError>(DispatchError::Frozen),
{
}

/// Deposit round-trip law: a `set` that created an attribute, followed
/// by a `clear` of the same key with no operation in between, nets the
/// collection's running total and attribute count back to their values
/// before the `set`, removes the attribute, and returns the owner's
/// ledger balances to where they started — the deposit is fully
/// unreserved. (Stated away from the saturation ceilings: the running
/// total and the attribute count must have room for the deposit.)
pub proof fn lemma_deposit_round_trip(
    s0: AttributeStore,
    l0: Ledger,
    s1: AttributeStore,
    l1: Ledger,
    s2: AttributeStore,
    l2: Ledger,
    mco: Option<u64>,
    c: u64,
    mi: Option<u64>,
    k: Seq<u8>,
    v: Seq<u8>,
)
    requires
        spec_col(s0.collections@, c) is Some,
        !spec_has_attr(s0.attributes@, c, mi, k),
        set_ok_post(s0, l0, s1, l1, mco, c, mi, k, v),
        clear_ok_post(s1, l1, s2, l2, c, mi, k),
        spec_col(s0.collections@, c).unwrap().total_deposit + spec_new_deposit(
            s0.config,
            spec_col(s0.collections@, c).unwrap().settings,
            mco,
            k.len() as int,
            v.len() as int,
        ) <= u64::MAX,
        spec_col(s0.collections@, c).unwrap().attributes < u32::MAX,
    ensures
        spec_attr(s2.attributes@, c, mi, k) is None,
        spec_col(s2.collections@, c).unwrap().total_deposit == spec_col(
            s0.collections@,
            c,
        ).unwrap().total_deposit,
        spec_col(s2.collections@, c).unwrap().attributes == spec_col(
            s0.collections@,
            c,
        ).unwrap().attributes,
        l2.free_of(spec_col(s0.collections@, c).unwrap().owner) == l0.free_of(
            spec_col(s0.collections@, c).unwrap().owner,
        ),
        l2.reserved_of(spec_col(s0.collections@, c).unwrap().owner) == l0.reserved_of(
            spec_col(s0.collections@, c).unwrap().owner,
        ),
{
    let col0 = spec_col(s0.collections@, c).unwrap();
    let nd = spec_new_deposit(s0.config, col0.settings, mco, k.len() as int, v.len() as int);
    assert(spec_old_deposit(s0.attributes@, c, mi, k) == 0);
    assert(spec_attr(s1.attributes@, c, mi, k) == Some((v, nd as u64)));
    let col1 = spec_col(s1.collections@, c).unwrap();
    assert(col1.total_deposit == clamp(floor_sub(col0.total_deposit as int, 0) + nd));
    assert(col1.total_deposit == col0.total_deposit + nd);
    assert(col1.attributes == col0.attributes + 1);
    assert(spec_col(s2.collections@, c).unwrap().total_deposit == floor_sub(
        col1.total_deposit as int,
        nd,
    ));
    if nd > 0 {
        assert(l1.reserved_of(col0.owner) == l0.reserved_of(col0.owner) + nd);
        assert(l1.unreserve_amount(col0.owner, nd as u64) == nd);
    } else {
        assert(l1 == l0);
        assert(l1.unreserve_amount(col0.owner, nd as u64) == 0);
    }
}

/// Accounting law for writes: a completed `set` keeps every collection's
/// recorded counters equal to what its attribute table actually holds —
/// the running total equals the sum of the deposits and the count equals
/// the number of attributes. (Stated away from the saturation ceilings:
/// the reconciled total and, for a fresh key, the count must have room.)
pub proof fn lemma_set_preserves_accounting(
    s0: AttributeStore,
    l0: Ledger,
    s1: AttributeStore,
    l1: Ledger,
    mco: Option<u64>,
    c: u64,
    mi: Option<u64>,
    k: Seq<u8>,
    v: Seq<u8>,
)
    requires
        s0.wf(),
        spec_col(s0.collections@, c) is Some,
        set_ok_post(s0, l0, s1, l1, mco, c, mi, k, v),
        balanced(s0, c),
        sum_deposits(s0.attributes@, c) - spec_old_deposit(s0.attributes@, c, mi, k)
            + spec_new_deposit(
            s0.config,
            spec_col(s0.collections@, c).unwrap().settings,
            mco,
            k.len() as int,
            v.len() as int,
        ) <= u64::MAX,
        spec_has_attr(s0.attributes@, c, mi, k) || spec_col(
            s0.collections@,
            c,
        ).unwrap().attributes < u32::MAX,
    ensures
        balanced(s1, c),
        forall|c2: u64| c2 != c && balanced(s0, c2) ==> #[trigger] balanced(s1, c2),
{
    let col0 = spec_col(s0.collections@, c).unwrap();
    let had = spec_has_attr(s0.attributes@, c, mi, k);
    let old_dep = spec_old_deposit(s0.attributes@, c, mi, k);
    let nd = spec_new_deposit(s0.config, col0.settings, mco, k.len() as int, v.len() as int);
    assert(s0.config.deposit_per_byte * (k.len() + v.len()) >= 0) by (nonlinear_arith);
    assert(0 <= nd <= u64::MAX);
    if had {
        let (i, nr) = choose|i: int, nr: AttributeRecord|
            attr_at(s0.attributes@, c, mi, k, i) && nr.collection == c && nr.item == mi
                && nr.key@ == k && nr.value@ == v && nr.deposit == nd as u64 && s1.attributes@
                == s0.attributes@.update(i, nr);
        lemma_attr_at_unique(s0.attributes@, c, mi, k, i);
        assert(old_dep == s0.attributes@[i].deposit);
        lemma_sums_update(s0.attributes@, i, nr, c);
        lemma_contrib_bounds(s0.attributes@, c, i);
        assert(sum_deposits(s1.attributes@, c) == sum_deposits(s0.attributes@, c) - old_dep + nd);
        assert(count_attrs(s1.attributes@, c) == count_attrs(s0.attributes@, c));
        assert forall|c2: u64| c2 != c && balanced(s0, c2) implies #[trigger] balanced(
            s1,
            c2,
        ) by {
            lemma_sums_update(s0.attributes@, i, nr, c2);
        }
    } else {
        let nr = choose|nr: AttributeRecord|
            nr.collection == c && nr.item == mi && nr.key@ == k && nr.value@ == v && nr.deposit
                == nd as u64 && s1.attributes@ == s0.attributes@.push(nr);
        lemma_sums_push(s0.attributes@, nr, c);
        assert(sum_deposits(s1.attributes@, c) == sum_deposits(s0.attributes@, c) + nd);
        assert(count_attrs(s1.attributes@, c) == count_attrs(s0.attributes@, c) + 1);
        assert forall|c2: u64| c2 != c && balanced(s0, c2) implies #[trigger] balanced(
            s1,
            c2,
        ) by {
            lemma_sums_push(s0.attributes@, nr, c2);
        }
    }
}

/// Accounting law for clears: a completed `clear` keeps every
/// collection's recorded counters equal to what its attribute table
/// actually holds, with no side condition — releasing a deposit can
/// never overflow.
pub proof fn lemma_clear_preserves_accounting(
    s0: AttributeStore,
    l0: Ledger,
    s1: AttributeStore,
    l1: Ledger,
    c: u64,
    mi: Option<u64>,
    k: Seq<u8>,
)
    requires
        s0.wf(),
        spec_col(s0.collections@, c) is Some,
        clear_ok_post(s0, l0, s1, l1, c, mi, k),
        balanced(s0, c),
    ensures
        balanced(s1, c),
        forall|c2: u64| c2 != c && balanced(s0, c2) ==> #[trigger] balanced(s1, c2),
{
    match spec_attr(s0.attributes@, c, mi, k) {
        None => {
        },
        Some(a) => {
            let i = choose|i: int|
                attr_at(s0.attributes@, c, mi, k, i) && s1.attributes@ == s0.attributes@.remove(i);
            lemma_attr_at_unique(s0.attributes@, c, mi, k, i);
            assert(a.1 == s0.attributes@[i].deposit);
            lemma_sums_remove(s0.attributes@, i, c);
            lemma_contrib_bounds(s0.attributes@, c, i);
            assert(sum_deposits(s1.attributes@, c) == sum_deposits(s0.attributes@, c) - a.1);
            assert(count_attrs(s1.attributes@, c) == count_attrs(s0.attributes@, c) - 1);
            assert forall|c2: u64| c2 != c && balanced(s0, c2) implies #[trigger] balanced(
                s1,
                c2,
            ) by {
                lemma_sums_remove(s0.attributes@, i, c2);
            }
        },
    }
}

} // verus!
