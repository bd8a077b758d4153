//! A check that storage of records answers queries as it should, for use
//! with any entity, attribute and value.

use crate::attribute::Attribute;
use crate::clock::IndexClock;
use crate::content::{Address, AddressableContent};
use crate::eav::{
    records_bytes, with_record, EntityAttributeValueStorage, ExampleEntityAttributeValueStorage,
};
use crate::eavi::{Eavi, EntityAttributeValueIndex};
use crate::error::PersistenceError;
use crate::query::{
    evaluate, evaluate_first, same_records, views, EaviQuery, IndexFilter, Query,
};
use vstd::prelude::*;

verus! {

/// Whether `store` answers the query for the given entity, attribute and
/// value, each of which may be left open, and for the last record of each
/// attribute, with exactly the records `expected`.
fn answers<A: Attribute>(
    store: &ExampleEntityAttributeValueStorage<A>,
    entity: Option<Address>,
    attribute: Option<A>,
    value: Option<Address>,
    expected: &Vec<EntityAttributeValueIndex<A>>,
) -> (same: bool)
    ensures
        same == (evaluate(
            Query {
                entity: match entity {
                    Some(entity) => Some(entity@),
                    None => None,
                },
                attribute: match attribute {
                    Some(attribute) => Some(attribute.text()),
                    None => None,
                },
                value: match value {
                    Some(value) => Some(value@),
                    None => None,
                },
                index: IndexFilter::LatestByAttribute,
            },
            store@,
        ) == views(expected@)),
{
    let query = EaviQuery::new(entity, attribute, value, IndexFilter::LatestByAttribute);
    match store.fetch_eavi(&query) {
        Ok(found) => same_records(&found, expected),
        Err(_) => false,
    }
}

/// Checks storage of records with one record that relates the address of
/// `entity_content` to the address of `value_content` under `attribute`,
/// with the clock reading `now` as its index: an empty store must answer
/// with nothing, and a store that holds the record must answer with it to
/// every query that constrains none, one or all of entity, attribute and
/// value to those of the record.
///
/// The answer `Ok(true)` says that the store passed, and it is the only
/// answer there is where the record could be made and stored: no clock
/// reading gives `Internal`, and a record of more bytes than the machine can
/// address gives `BackendIo`.
pub fn eav_round_trip_check<A: Attribute, E: AddressableContent, V: AddressableContent>(
    entity_content: E,
    attribute: A,
    value_content: V,
    now: Option<i64>,
) -> (result: Result<bool, PersistenceError>)
    ensures
        now is None ==> result == Err::<bool, PersistenceError>(PersistenceError::Internal),
        now is Some && 33 + entity_content.address_spec().len() + vstd::utf8::encode_utf8(
            attribute.text(),
        ).len() + value_content.address_spec().len() > usize::MAX ==> result == Err::<
            bool,
            PersistenceError,
        >(PersistenceError::BackendIo),
        now is Some && 33 + entity_content.address_spec().len() + vstd::utf8::encode_utf8(
            attribute.text(),
        ).len() + value_content.address_spec().len() <= usize::MAX ==> result == Ok::<
            bool,
            PersistenceError,
        >(true),
{
    let entity = entity_content.address();
    let value = value_content.address();
    let eav = match EntityAttributeValueIndex::new_at(&entity, &attribute, &value, now) {
        Ok(eav) => eav,
        Err(error) => {
            return Err(error);
        },
    };
    let mut eav_storage = ExampleEntityAttributeValueStorage::new();
    let nothing: Vec<EntityAttributeValueIndex<A>> = Vec::new();
    let mut expected: Vec<EntityAttributeValueIndex<A>> = Vec::new();
    expected.push(eav.clone());
    proof {
        reveal_with_fuel(evaluate_first, 2);
        reveal_with_fuel(records_bytes, 2);
        assert(with_record(Seq::<Eavi>::empty(), eav@) =~= seq![eav@]);
        assert(seq![eav@].drop_last() =~= Seq::<Eavi>::empty());
        assert(views(expected@) =~= seq![eav@]);
        assert(views(nothing@) =~= Seq::<Eavi>::empty());
    }

    let empty_is_empty = answers(
        &eav_storage,
        Some(entity.clone()),
        Some(attribute.duplicate()),
        Some(value.clone()),
        &nothing,
    );

    match eav_storage.add_eavi(&eav) {
        Ok(_) => {},
        Err(error) => {
            return Err(error);
        },
    }

    // some constraints that should all return the record
    let all = answers(
        &eav_storage,
        Some(entity.clone()),
        Some(attribute.duplicate()),
        Some(value.clone()),
        &expected,
    );
    let open_entity = answers(
        &eav_storage,
        None,
        Some(attribute.duplicate()),
        Some(value.clone()),
        &expected,
    );
    let open_attribute = answers(
        &eav_storage,
        Some(entity.clone()),
        None,
        Some(value.clone()),
        &expected,
    );
    let open_value = answers(
        &eav_storage,
        Some(entity.clone()),
        Some(attribute.duplicate()),
        None,
        &expected,
    );
    let open = answers(&eav_storage, None, None, None, &expected);
    Ok(empty_is_empty && all && open_entity && open_attribute && open_value && open)
}

/// Checks storage of records as `eav_round_trip_check` does, with the next
/// index of `clock` as the index of the record.
///
/// Where the machine can address the bytes of the record, the store passes
/// unless the clock has no index to give, which is answered with `Internal`.
/// Where it cannot, the check fails: with `BackendIo`, or with `Internal`
/// where the clock has no index to give either. The clock has handed out an
/// index unless the answer is `Internal`.
pub fn eav_round_trip_test_runner<A: Attribute, E: AddressableContent, V: AddressableContent>(
    clock: &mut IndexClock,
    entity_content: E,
    attribute: A,
    value_content: V,
) -> (result: Result<bool, PersistenceError>)
    ensures
        33 + entity_content.address_spec().len() + vstd::utf8::encode_utf8(
            attribute.text(),
        ).len() + value_content.address_spec().len() <= usize::MAX ==> result == Ok::<
            bool,
            PersistenceError,
        >(true) || result == Err::<bool, PersistenceError>(PersistenceError::Internal),
        33 + entity_content.address_spec().len() + vstd::utf8::encode_utf8(
            attribute.text(),
        ).len() + value_content.address_spec().len() > usize::MAX ==> result == Err::<
            bool,
            PersistenceError,
        >(PersistenceError::BackendIo) || result == Err::<bool, PersistenceError>(
            PersistenceError::Internal,
        ),
        result == Err::<bool, PersistenceError>(PersistenceError::Internal) ==>
            final(clock).last() == old(clock).last(),
        result != Err::<bool, PersistenceError>(PersistenceError::Internal) ==>
            final(clock).last() is Some && (old(clock).last() matches Some(before) ==> before
            < final(clock).last()->Some_0),
{
    let now = clock.stamp();
    eav_round_trip_check(entity_content, attribute, value_content, now)
}

} // verus!
