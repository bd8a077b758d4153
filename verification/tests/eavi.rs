use holochain_persistence::attribute::{Attribute, AttributeError};
use holochain_persistence::cas::{ContentAddressableStorage, ExampleContentAddressableStorage};
use holochain_persistence::clock::IndexClock;
use holochain_persistence::content::{Address, AddressableContent, Content};
use holochain_persistence::eav::{EntityAttributeValueStorage, ExampleEntityAttributeValueStorage};
use holochain_persistence::eavi::EntityAttributeValueIndex;
use holochain_persistence::error::PersistenceError;
use holochain_persistence::example_attribute::ExampleAttribute;
use holochain_persistence::example_entry::{
    test_eav, test_eav_address, test_eav_attribute, test_eav_content, test_eav_entity,
    test_eav_value, test_entry_a, test_entry_b, ExampleEntry,
};
use holochain_persistence::query::{EaviQuery, IndexFilter};
use holochain_persistence::suite::{eav_round_trip_check, eav_round_trip_test_runner};

fn entry(data: &str) -> ExampleEntry {
    ExampleEntry::new(data.to_string())
}

fn test_eav_storage() -> ExampleEntityAttributeValueStorage<ExampleAttribute> {
    ExampleEntityAttributeValueStorage::new()
}

fn record(
    entity: &ExampleEntry,
    attribute: &ExampleAttribute,
    value: &ExampleEntry,
    index: i64,
) -> EntityAttributeValueIndex<ExampleAttribute> {
    EntityAttributeValueIndex::new_with_index(
        &entity.address(),
        attribute,
        &value.address(),
        index,
    )
    .expect("could not create EAV")
}

fn fetch(
    storage: &ExampleEntityAttributeValueStorage<ExampleAttribute>,
    entity: Option<Address>,
    attribute: Option<ExampleAttribute>,
    value: Option<Address>,
    index: IndexFilter,
) -> Vec<EntityAttributeValueIndex<ExampleAttribute>> {
    storage
        .fetch_eavi(&EaviQuery::new(entity, attribute, value, index))
        .expect("could not fetch eav")
}

#[test]
fn example_eav_round_trip() {
    let entity = entry("foo");
    let attribute = ExampleAttribute::WithPayload("favourite-color".to_string());
    let value = entry("blue");

    let mut clock = IndexClock::new();
    let eav = EntityAttributeValueIndex::new(
        &mut clock,
        &entity.address(),
        &attribute,
        &value.address(),
    )
    .expect("Could not create EAV");
    let eav_storage = test_eav_storage();
    let two_stores = vec![eav_storage.clone(), eav_storage.clone()];

    for mut eav_storage in two_stores {
        assert_eq!(
            Vec::<EntityAttributeValueIndex<ExampleAttribute>>::new(),
            fetch(
                &eav_storage,
                Some(entity.address()),
                Some(attribute.clone()),
                Some(value.address()),
                IndexFilter::LatestByAttribute
            ),
        );

        eav_storage.add_eavi(&eav).expect("could not add eav");

        let expected = vec![eav.clone()];
        // some examples of constraints that should all return the eav
        for (e, a, v) in vec![
            // constrain all
            (
                Some(entity.address()),
                Some(attribute.clone()),
                Some(value.address()),
            ),
            // open entity
            (None, Some(attribute.clone()), Some(value.address())),
            // open attribute
            (Some(entity.address()), None, Some(value.address())),
            // open value
            (Some(entity.address()), Some(attribute.clone()), None),
            // open
            (None, None, None),
        ] {
            assert_eq!(
                expected,
                fetch(&eav_storage, e, a, v, IndexFilter::LatestByAttribute),
            );
        }
    }

    assert_eq!(
        Ok(true),
        eav_round_trip_test_runner(&mut clock, entry("foo"), attribute.clone(), entry("blue")),
    );
    assert_eq!(
        Err(PersistenceError::Internal),
        eav_round_trip_test_runner(
            &mut IndexClock::starting_after(i64::MAX),
            entry("foo"),
            attribute.clone(),
            entry("blue")
        ),
    );
}

#[test]
fn example_eav_one_to_many() {
    let mut eav_storage = test_eav_storage();
    let one = entry("foo");
    // it can reference itself, why not?
    let many_one = entry("foo");
    let many_two = entry("bar");
    let many_three = entry("baz");
    let attribute = ExampleAttribute::WithPayload("one_to_many".to_string());

    let mut expected = Vec::new();
    let mut index = 0;
    for many in vec![many_one.clone(), many_two.clone(), many_three.clone()] {
        index += 1;
        let eav = record(&one, &attribute, &many, index);
        assert_eq!(None, eav_storage.add_eavi(&eav).expect("could not add eav"));
        expected.push(eav);
    }

    // throw an extra thing referencing many to show fetch ignores it
    let two = entry("qux");
    for many in vec![many_one.clone(), many_three.clone()] {
        index += 1;
        eav_storage
            .add_eavi(&record(&two, &attribute, &many, index))
            .expect("could not add eav");
    }

    // show the many results for one
    assert_eq!(
        expected,
        fetch(
            &eav_storage,
            Some(one.address()),
            Some(attribute.clone()),
            None,
            IndexFilter::Unfiltered
        ),
    );

    // of the many results for one, the last is the latest of its attribute
    assert_eq!(
        vec![expected[2].clone()],
        fetch(
            &eav_storage,
            Some(one.address()),
            Some(attribute.clone()),
            None,
            IndexFilter::LatestByAttribute
        ),
    );

    // show one for the many results
    for (position, many) in vec![many_one, many_two, many_three].iter().enumerate() {
        let found = fetch(
            &eav_storage,
            Some(one.address()),
            Some(attribute.clone()),
            Some(many.address()),
            IndexFilter::LatestByAttribute,
        );
        assert_eq!(vec![expected[position].clone()], found);
    }
}

#[test]
fn example_eav_many_to_one() {
    let mut eav_storage = test_eav_storage();
    let one = entry("foo");
    // it can reference itself, why not?
    let many_one = entry("foo");
    let many_two = entry("bar");
    let many_three = entry("baz");
    let attribute = ExampleAttribute::WithPayload("many_to_one".to_string());

    let mut expected = Vec::new();
    let mut index = 0;
    for many in vec![many_one.clone(), many_two.clone(), many_three.clone()] {
        index += 1;
        let eav = record(&many, &attribute, &one, index);
        eav_storage.add_eavi(&eav).expect("could not add eav");
        expected.push(eav);
    }

    // throw an extra thing referenced by many to show fetch ignores it
    let two = entry("qux");
    for many in vec![many_one.clone(), many_three.clone()] {
        index += 1;
        eav_storage
            .add_eavi(&record(&many, &attribute, &two, index))
            .expect("could not add eav");
    }

    // show the many referencing one
    assert_eq!(
        expected,
        fetch(
            &eav_storage,
            None,
            Some(attribute.clone()),
            Some(one.address()),
            IndexFilter::Unfiltered
        ),
    );

    // show one for the many results
    for (position, many) in vec![many_one, many_two, many_three].iter().enumerate() {
        let found = fetch(
            &eav_storage,
            Some(many.address()),
            Some(attribute.clone()),
            Some(one.address()),
            IndexFilter::LatestByAttribute,
        );
        assert_eq!(vec![expected[position].clone()], found);
    }
}

#[test]
fn example_eav_range() {
    let mut eav_storage = test_eav_storage();
    let one = entry("foo");
    let two = entry("bar");
    let attribute = ExampleAttribute::WithPayload("c".to_string());

    let mut all = Vec::new();
    for index in vec![10, 20, 30] {
        let eav = record(&one, &attribute, &two, index);
        eav_storage.add_eavi(&eav).expect("could not add eav");
        all.push(eav);
    }

    let range = |low, high| {
        fetch(
            &eav_storage,
            Some(one.address()),
            Some(attribute.clone()),
            Some(two.address()),
            IndexFilter::Range(low, high),
        )
    };
    assert_eq!(vec![all[1].clone()], range(Some(15), Some(25)));
    // a bound belongs to the range
    assert_eq!(vec![all[0].clone(), all[1].clone()], range(Some(10), Some(20)));
    // a missing bound leaves that side open
    assert_eq!(vec![all[1].clone(), all[2].clone()], range(Some(11), None));
    assert_eq!(vec![all[0].clone()], range(None, Some(19)));
    assert_eq!(all, range(None, None));
    assert_eq!(
        Vec::<EntityAttributeValueIndex<ExampleAttribute>>::new(),
        range(Some(21), Some(29))
    );
    assert_eq!(
        Vec::<EntityAttributeValueIndex<ExampleAttribute>>::new(),
        range(Some(25), Some(15))
    );
}

#[test]
fn example_eav_prefixes() {
    let mut eav_storage = test_eav_storage();
    let mut attrs: Vec<ExampleAttribute> = vec!["a_", "b_", "c_", "d_"]
        .into_iter()
        .map(|p| ExampleAttribute::WithPayload(p.to_string() + "one_to_many"))
        .collect();
    attrs.push(ExampleAttribute::WithoutPayload);

    let one = entry("foo");
    let many = entry("bar");
    let mut expected = Vec::new();
    let mut index = 0;
    for attribute in attrs.iter() {
        index += 1;
        let eav = record(&one, attribute, &many, index);
        eav_storage.add_eavi(&eav).expect("could not add eav");
        expected.push(eav);
    }

    // each attribute finds its own record and no other
    for (position, attribute) in attrs.iter().enumerate() {
        assert_eq!(
            vec![expected[position].clone()],
            fetch(
                &eav_storage,
                Some(one.address()),
                Some(attribute.clone()),
                None,
                IndexFilter::LatestByAttribute
            ),
        );
    }

    // with the attribute left open, the latest of each attribute is all of them
    assert_eq!(
        expected,
        fetch(
            &eav_storage,
            Some(one.address()),
            None,
            None,
            IndexFilter::LatestByAttribute
        ),
    );
}

#[test]
/// show AddressableContent implementation
fn addressable_content_test() {
    let content = test_eav_content();
    let expected_content = test_eav();
    let address = test_eav_address();

    let addressable_content =
        EntityAttributeValueIndex::<ExampleAttribute>::try_from_content(&content)
            .expect("could not create AddressableContent from Content");

    assert_eq!(addressable_content, expected_content);
    assert_eq!(content, addressable_content.content());
    assert_eq!(address, addressable_content.address());
}

#[test]
/// show CAS round trip
fn cas_round_trip_test() {
    let addressable_contents = vec![test_eav()];
    let mut cas = ExampleContentAddressableStorage::new();
    for f in addressable_contents {
        cas.add(&f).expect("Could not add");
        assert_eq!(
            Some(f.clone()),
            Some(
                EntityAttributeValueIndex::<ExampleAttribute>::try_from_content(
                    &cas.fetch(&f.address())
                        .expect("Could not fetch")
                        .expect("could not get content")
                )
                .unwrap()
            )
        );
    }
}

#[test]
fn fixtures_are_what_they_say() {
    assert_eq!("a", test_entry_a().data);
    assert_eq!("b", test_entry_b().data);
    assert_eq!(test_entry_a(), test_eav_entity());
    assert_eq!(test_entry_b(), test_eav_value());
    assert_eq!(
        ExampleAttribute::WithPayload("foo-attribute".to_string()),
        test_eav_attribute()
    );
    let eav = test_eav();
    assert_eq!(Address::from_text("a"), eav.entity());
    assert_eq!(test_eav_attribute(), eav.attribute());
    assert_eq!(Address::from_text("b"), eav.value());
    assert_eq!(0, eav.index());
}

#[test]
fn set_index_changes_only_the_index() {
    let mut eav = test_eav();
    eav.set_index(42);
    assert_eq!(42, eav.index());
    assert_eq!(test_eav().entity(), eav.entity());
    assert_eq!(test_eav().attribute(), eav.attribute());
    assert_eq!(test_eav().value(), eav.value());
    assert!(test_eav().same_triple(&eav));
    assert!(!test_eav().same_as(&eav));
}

#[test]
fn record_is_encoded_byte_by_byte() {
    let mut expected: Vec<u8> = vec![1];
    expected.extend_from_slice(&[0; 8]);
    expected.extend_from_slice(&[1, 0, 0, 0, 0, 0, 0, 0]);
    expected.extend_from_slice(b"a");
    expected.extend_from_slice(&[18, 0, 0, 0, 0, 0, 0, 0]);
    expected.extend_from_slice(b"with-foo-attribute");
    expected.extend_from_slice(&[1, 0, 0, 0, 0, 0, 0, 0]);
    expected.extend_from_slice(b"b");
    assert_eq!(Content::new(expected.clone()), test_eav_content());
    assert_eq!(Address::new(expected.clone()), test_eav_address());
    assert_eq!(Some(expected.len()), test_eav().size());
}

#[test]
fn negative_index_round_trips() {
    for index in vec![i64::MIN, -1, 0, 1, i64::MAX, 1_565_000_000_000_000_000] {
        let mut eav = test_eav();
        eav.set_index(index);
        let content = eav.content();
        assert_eq!(
            Ok(eav),
            EntityAttributeValueIndex::<ExampleAttribute>::try_from_content(&content)
        );
    }
    let mut eav = test_eav();
    eav.set_index(-2);
    assert_eq!(
        &[0xfe, 0xff, 0xff, 0xff, 0xff, 0xff, 0xff, 0xff][..],
        &eav.content().as_bytes()[1..9]
    );
}

#[test]
fn malformed_records_are_refused() {
    let decode = |bytes: Vec<u8>| {
        EntityAttributeValueIndex::<ExampleAttribute>::try_from_content(&Content::new(bytes))
    };
    let good = test_eav_content().as_bytes().to_vec();
    assert!(decode(good.clone()).is_ok());

    // nothing at all, and a wrong tag
    assert_eq!(Err(PersistenceError::Corruption), decode(vec![]));
    let mut wrong_tag = good.clone();
    wrong_tag[0] = 2;
    assert_eq!(Err(PersistenceError::Corruption), decode(wrong_tag));

    // cut short, and with something behind
    let mut short = good.clone();
    short.pop();
    assert_eq!(Err(PersistenceError::Corruption), decode(short));
    let mut long = good.clone();
    long.push(0);
    assert_eq!(Err(PersistenceError::Corruption), decode(long));

    // a length that runs past the end
    let mut overrun = good.clone();
    overrun[9] = 200;
    assert_eq!(Err(PersistenceError::Corruption), decode(overrun));

    // an attribute that is not UTF-8
    let mut not_utf8 = good.clone();
    not_utf8[26] = 0xff;
    assert_eq!(Err(PersistenceError::Corruption), decode(not_utf8));

    // an attribute without a dash, and one that is not written as it would be
    let mut no_dash = good.clone();
    no_dash[30] = b'x';
    no_dash[34] = b'x';
    assert_eq!(Err(PersistenceError::InvalidArgument), decode(no_dash));
    let mut other_prefix = good.clone();
    other_prefix[26] = b'x';
    assert_eq!(Err(PersistenceError::InvalidArgument), decode(other_prefix));
}

#[test]
fn example_attribute_is_read_from_its_string_form() {
    assert_eq!(
        Ok(ExampleAttribute::WithoutPayload),
        ExampleAttribute::try_from("without-payload".to_string())
    );
    assert_eq!(
        Ok(ExampleAttribute::WithPayload("foo".to_string())),
        ExampleAttribute::try_from("with-foo".to_string())
    );
    assert_eq!(
        Ok(ExampleAttribute::WithPayload("b-c".to_string())),
        ExampleAttribute::try_from("a-b-c".to_string())
    );
    assert_eq!(
        Ok(ExampleAttribute::WithPayload("".to_string())),
        ExampleAttribute::try_from("-".to_string())
    );
    assert_eq!(
        Ok(ExampleAttribute::WithPayload("ü-ß".to_string())),
        ExampleAttribute::try_from("größe-ü-ß".to_string())
    );
    assert_eq!(
        Err(AttributeError::ParseError),
        ExampleAttribute::try_from("nodash".to_string())
    );
    assert_eq!(
        Err(AttributeError::ParseError),
        ExampleAttribute::try_from("".to_string())
    );
    assert_eq!(
        Err(AttributeError::ParseError),
        ExampleAttribute::try_from_string("without".to_string())
    );
}

#[test]
fn example_attribute_round_trips_through_its_string_form() {
    assert_eq!("without-payload", ExampleAttribute::WithoutPayload.to_text());
    assert_eq!(
        "with-foo-attribute",
        test_eav_attribute().to_text()
    );
    for attribute in vec![
        ExampleAttribute::WithoutPayload,
        ExampleAttribute::default(),
        test_eav_attribute(),
        ExampleAttribute::WithPayload("".to_string()),
        ExampleAttribute::WithPayload("out-payload".to_string()),
        ExampleAttribute::WithPayload("favourite-color".to_string()),
    ] {
        assert_eq!(
            Ok(attribute.clone()),
            ExampleAttribute::try_from_string(attribute.to_text())
        );
        assert_eq!(attribute, attribute.duplicate());
    }
}

#[test]
fn attribute_errors_say_what_went_wrong() {
    assert_eq!(
        "Unknown attribute: colour",
        AttributeError::Unrecognized("colour".to_string()).message()
    );
    assert_eq!(
        "Could not parse attribute, bad regex match",
        AttributeError::ParseError.message()
    );
    assert_eq!(
        PersistenceError::InvalidArgument,
        PersistenceError::from(AttributeError::ParseError)
    );
    assert_eq!(
        PersistenceError::InvalidArgument,
        PersistenceError::from(AttributeError::Unrecognized("colour".to_string()))
    );
}

#[test]
fn example_entry_round_trips_through_its_content() {
    let entry = entry("größe");
    assert_eq!(Address::new("größe".as_bytes().to_vec()), entry.address());
    assert_eq!(Content::new("größe".as_bytes().to_vec()), entry.content());
    assert_eq!(Ok(entry.clone()), ExampleEntry::try_from_content(&entry.content()));
    assert_eq!(
        Err(PersistenceError::Serialization),
        ExampleEntry::try_from_content(&Content::new(vec![0xff, 0xfe]))
    );
}

#[test]
fn round_trip_check_needs_a_clock_reading() {
    assert_eq!(
        Err(PersistenceError::Internal),
        eav_round_trip_check(entry("foo"), test_eav_attribute(), entry("blue"), None)
    );
    assert_eq!(
        Ok(true),
        eav_round_trip_check(entry("foo"), test_eav_attribute(), entry("blue"), Some(7))
    );
    assert_eq!(
        Err(PersistenceError::Internal),
        EntityAttributeValueIndex::new_at(
            &Address::from_text("a"),
            &test_eav_attribute(),
            &Address::from_text("b"),
            None
        )
    );
}

#[test]
fn new_record_carries_the_time() {
    let before = 1_600_000_000_000_000_000i64;
    let mut clock = IndexClock::new();
    let first = EntityAttributeValueIndex::new(
        &mut clock,
        &Address::from_text("a"),
        &test_eav_attribute(),
        &Address::from_text("b"),
    )
    .expect("could not create EAV");
    assert!(first.index() > before);
    assert!(test_eav().same_triple(&first));
}

#[test]
fn new_records_have_rising_indices() {
    // a clock that is ahead of the wall clock, as after the wall clock was set back
    let ahead = i64::MAX - 1000;
    let mut clock = IndexClock::starting_after(ahead);
    let mut last = ahead;
    for _ in 0..1000 {
        let record = EntityAttributeValueIndex::new(
            &mut clock,
            &Address::from_text("a"),
            &test_eav_attribute(),
            &Address::from_text("b"),
        )
        .expect("could not create EAV");
        assert_eq!(last + 1, record.index());
        last = record.index();
    }
    assert_eq!(
        Err(PersistenceError::Internal),
        EntityAttributeValueIndex::new(
            &mut clock,
            &Address::from_text("a"),
            &test_eav_attribute(),
            &Address::from_text("b"),
        )
    );

    // with the wall clock alone, a thousand records in a row still rise
    let mut clock = IndexClock::new();
    let mut last = i64::MIN;
    for _ in 0..1000 {
        let record = EntityAttributeValueIndex::new(
            &mut clock,
            &Address::from_text("a"),
            &test_eav_attribute(),
            &Address::from_text("b"),
        )
        .expect("could not create EAV");
        assert!(last < record.index());
        last = record.index();
    }
}
