use holochain_persistence::cas::{ContentAddressableStorage, ExampleContentAddressableStorage};
use holochain_persistence::clock::IndexClock;
use holochain_persistence::content::{Address, AddressableContent, Content};
use holochain_persistence::cursor::{
    manager_with_ids, new_manager, next_map_size, step_after, CommitStep, EnvCursor,
    EnvCursorProvider, EnvManager, EnvironmentFlags,
};
use holochain_persistence::eav::{EntityAttributeValueStorage, ExampleEntityAttributeValueStorage};
use holochain_persistence::eavi::EntityAttributeValueIndex;
use holochain_persistence::error::PersistenceError;
use holochain_persistence::example_attribute::ExampleAttribute;
use holochain_persistence::example_entry::ExampleEntry;
use holochain_persistence::query::{EaviQuery, IndexFilter};
use holochain_persistence::reporting::{ReportStorage, StorageReport};
use holochain_persistence::transport::{TransportError, TransportEvent};
use holochain_persistence::txn::{
    CursorProvider, DefaultPersistenceManager, NonTransactionalCursor, NoopWriter,
    PersistenceManager, Writer,
};

type Record = EntityAttributeValueIndex<ExampleAttribute>;

const MIB: usize = 1024 * 1024;

fn new_test_manager() -> EnvManager<ExampleAttribute> {
    new_manager(Some(1024 * 1024), None, Some(1024 * 1024), None)
}

fn entry(data: &str) -> ExampleEntry {
    ExampleEntry::new(data.to_string())
}

fn record(entity: &str, attribute: &ExampleAttribute, value: &str, index: i64) -> Record {
    EntityAttributeValueIndex::new_with_index(
        &entry(entity).address(),
        attribute,
        &entry(value).address(),
        index,
    )
    .expect("could not create EAV")
}

fn with_cursor<F: FnOnce(&mut EnvCursor<ExampleAttribute>, &EnvManager<ExampleAttribute>)>(
    manager: &mut EnvManager<ExampleAttribute>,
    f: F,
) {
    let mut cursor = manager.create_cursor().expect("could not create cursor");
    f(&mut cursor, manager);
    cursor.commit(manager).expect("could not commit");
}

#[test]
fn txn_lmdb_cas_round_trip() {
    let entity_content = entry("foo");
    let other_content = entry("blue");
    let mut manager = new_test_manager();

    with_cursor(&mut manager, |cursor, manager| {
        assert_eq!(Ok(None), cursor.fetch(manager, &entity_content.address()));
        assert_eq!(Ok(false), cursor.contains(manager, &entity_content.address()));
        cursor.add(&entity_content).expect("could not add");
        cursor.add(&other_content).expect("could not add");
        assert_eq!(
            Ok(Some(entity_content.content())),
            cursor.fetch(manager, &entity_content.address())
        );
        assert_eq!(Ok(true), cursor.contains(manager, &other_content.address()));
    });

    let mut cursor = manager.create_cursor().unwrap();
    assert_eq!(
        Ok(Some(entity_content.content())),
        cursor.fetch(&manager, &entity_content.address())
    );
    assert_eq!(
        Ok(Some(other_content.content())),
        cursor.fetch(&manager, &other_content.address())
    );
    assert_eq!(
        Ok(entity_content.clone()),
        ExampleEntry::try_from_content(
            &cursor
                .fetch(&manager, &entity_content.address())
                .unwrap()
                .unwrap()
        )
    );
    assert_eq!(Ok(None), cursor.fetch(&manager, &entry("baz").address()));
}

#[test]
fn txn_lmdb_eav_round_trip() {
    let entity_content = entry("foo");
    let attribute = ExampleAttribute::WithPayload("favourite-color".to_string());
    let value_content = entry("blue");
    let eav = EntityAttributeValueIndex::new(
        &mut IndexClock::new(),
        &entity_content.address(),
        &attribute,
        &value_content.address(),
    )
    .expect("Could not create EAV");
    let query = || {
        EaviQuery::new(
            Some(entity_content.address()),
            Some(attribute.clone()),
            Some(value_content.address()),
            IndexFilter::LatestByAttribute,
        )
    };

    let mut manager = new_test_manager();
    with_cursor(&mut manager, |cursor, manager| {
        assert_eq!(Ok(vec![]), cursor.fetch_eavi(manager, &query()));
        assert_eq!(Ok(None), cursor.add_eavi(&eav));
        assert_eq!(Ok(vec![eav.clone()]), cursor.fetch_eavi(manager, &query()));
    });

    let mut cursor = manager.create_cursor().unwrap();
    for (e, a, v) in vec![
        (
            Some(entity_content.address()),
            Some(attribute.clone()),
            Some(value_content.address()),
        ),
        (None, Some(attribute.clone()), Some(value_content.address())),
        (Some(entity_content.address()), None, Some(value_content.address())),
        (Some(entity_content.address()), Some(attribute.clone()), None),
        (None, None, None),
    ] {
        assert_eq!(
            Ok(vec![eav.clone()]),
            cursor.fetch_eavi(
                &manager,
                &EaviQuery::new(e, a, v, IndexFilter::LatestByAttribute)
            )
        );
    }
}

#[test]
fn txn_lmdb_eav_one_to_many() {
    let attribute = ExampleAttribute::default();
    let mut manager = new_test_manager();
    let expected: Vec<Record> = vec![
        record("foo", &attribute, "foo", 1),
        record("foo", &attribute, "bar", 2),
        record("foo", &attribute, "baz", 3),
    ];
    with_cursor(&mut manager, |cursor, _| {
        for eav in expected.iter() {
            cursor.add_eavi(eav).expect("could not add eav");
        }
        // an extra thing referencing many, which the query ignores
        cursor.add_eavi(&record("qux", &attribute, "foo", 4)).unwrap();
        cursor.add_eavi(&record("qux", &attribute, "baz", 5)).unwrap();
    });

    let mut cursor = manager.create_cursor().unwrap();
    assert_eq!(
        Ok(expected.clone()),
        cursor.fetch_eavi(
            &manager,
            &EaviQuery::new(
                Some(entry("foo").address()),
                Some(attribute.clone()),
                None,
                IndexFilter::Unfiltered
            )
        )
    );
    for eav in expected.iter() {
        assert_eq!(
            Ok(vec![eav.clone()]),
            cursor.fetch_eavi(
                &manager,
                &EaviQuery::new(
                    Some(entry("foo").address()),
                    Some(attribute.clone()),
                    Some(eav.value()),
                    IndexFilter::LatestByAttribute
                )
            )
        );
    }
}

#[test]
fn txn_lmdb_eav_many_to_one() {
    let attribute = ExampleAttribute::WithPayload("rel".to_string());
    let mut manager = new_test_manager();
    let expected: Vec<Record> = vec![
        record("e1", &attribute, "v", 1),
        record("e2", &attribute, "v", 2),
        record("e3", &attribute, "v", 3),
    ];
    with_cursor(&mut manager, |cursor, _| {
        for eav in expected.iter() {
            cursor.add_eavi(eav).expect("could not add eav");
        }
        cursor.add_eavi(&record("e1", &attribute, "w", 4)).unwrap();
    });

    let mut cursor = manager.create_cursor().unwrap();
    assert_eq!(
        Ok(expected.clone()),
        cursor.fetch_eavi(
            &manager,
            &EaviQuery::new(
                None,
                Some(attribute.clone()),
                Some(entry("v").address()),
                IndexFilter::Unfiltered
            )
        )
    );
}

#[test]
fn txn_lmdb_eav_range() {
    let attribute = ExampleAttribute::default();
    let mut manager = new_test_manager();
    let all: Vec<Record> = vec![
        record("foo", &attribute, "bar", 10),
        record("foo", &attribute, "bar", 20),
        record("foo", &attribute, "bar", 30),
    ];
    with_cursor(&mut manager, |cursor, _| {
        for eav in all.iter() {
            cursor.add_eavi(eav).expect("could not add eav");
        }
    });

    let mut cursor = manager.create_cursor().unwrap();
    assert_eq!(
        Ok(vec![all[1].clone()]),
        cursor.fetch_eavi(
            &manager,
            &EaviQuery::new(None, None, None, IndexFilter::Range(Some(15), Some(25)))
        )
    );
    let mut cursor = manager.create_cursor().unwrap();
    assert_eq!(
        Ok(all[1..].to_vec()),
        cursor.fetch_eavi(
            &manager,
            &EaviQuery::new(None, None, None, IndexFilter::Range(Some(20), None))
        )
    );
}

#[test]
fn txn_lmdb_eav_prefixes() {
    let attrs: Vec<ExampleAttribute> = vec!["a_", "b_", "c_", "d_"]
        .into_iter()
        .map(|p| ExampleAttribute::WithPayload(p.to_string() + "one_to_many"))
        .collect();
    let mut manager = new_test_manager();
    let expected: Vec<Record> = attrs
        .iter()
        .enumerate()
        .map(|(position, attribute)| record("foo", attribute, "bar", position as i64))
        .collect();
    with_cursor(&mut manager, |cursor, _| {
        for eav in expected.iter() {
            cursor.add_eavi(eav).expect("could not add eav");
        }
    });

    for (position, attribute) in attrs.iter().enumerate() {
        let mut cursor = manager.create_cursor().unwrap();
        assert_eq!(
            Ok(vec![expected[position].clone()]),
            cursor.fetch_eavi(
                &manager,
                &EaviQuery::new(
                    Some(entry("foo").address()),
                    Some(attribute.clone()),
                    None,
                    IndexFilter::LatestByAttribute
                )
            )
        );
    }
}

#[test]
fn txn_lmdb_can_write_cas_entry_larger_than_map() {
    let mut manager = new_test_manager();
    let inititial_mmap_size = 1024 * 1024;
    assert_eq!(inititial_mmap_size, manager.cas.map_size());

    // can write a single entry that is much larger than the current mmap
    let data: Vec<u8> = std::iter::repeat(0).take(10 * inititial_mmap_size).collect();
    let example_content = ExampleEntry::new(String::from_utf8_lossy(data.as_slice()).to_string());
    with_cursor(&mut manager, |cursor, manager| {
        cursor.add(&example_content).unwrap();
        assert!(cursor.contains(manager, &example_content.address()).unwrap());
    });

    assert!(manager.cas.map_size() >= 10 * inititial_mmap_size);
    // twenty MiB and a bit are held, and the map was doubled until they fit
    assert_eq!(20 * MIB, manager.cas.used());
    assert_eq!(32 * MIB, manager.cas.map_size());
    // the records live in the same region
    assert_eq!(32 * MIB, manager.eav.map_size());
    assert_eq!(
        Ok(Some(example_content.content())),
        manager.cas.fetch(&example_content.address())
    );
}

#[test]
fn txn_can_write_many_eav_entries_larger_than_map() {
    let mut manager: EnvManager<ExampleAttribute> = new_manager(Some(64), None, Some(64), None);
    let mut expected = Vec::new();
    with_cursor(&mut manager, |cursor, _| {
        for i in 0..500 {
            let data = format!("{}", i);
            let eavi = EntityAttributeValueIndex::new_with_index(
                &Address::from_text(&data),
                &ExampleAttribute::WithoutPayload,
                &Address::from_text(&data),
                i,
            )
            .unwrap();
            cursor.add_eavi(&eavi).unwrap();
            expected.push(eavi);
        }
    });
    assert_eq!(500, manager.eav.len());
    assert!(manager.eav.map_size() >= manager.eav.used());
    assert!(manager.eav.used() > 500 * 33);
    assert_eq!(
        Ok(expected),
        manager
            .eav
            .fetch_eavi(&EaviQuery::new(None, None, None, IndexFilter::Unfiltered))
    );
}

#[test]
fn txn_lmdb_tombstone() {
    let mut manager = new_test_manager();
    let link = ExampleAttribute::WithPayload("link".to_string());
    let removed = ExampleAttribute::WithPayload("removed-link".to_string());
    with_cursor(&mut manager, |cursor, _| {
        cursor.add_eavi(&record("foo", &link, "bar", 1)).unwrap();
        cursor.add_eavi(&record("foo", &removed, "bar", 2)).unwrap();
    });
    // with the attribute left open, the later assertion is among the latest
    let mut cursor = manager.create_cursor().unwrap();
    assert_eq!(
        Ok(vec![record("foo", &link, "bar", 1), record("foo", &removed, "bar", 2)]),
        cursor.fetch_eavi(
            &manager,
            &EaviQuery::new(
                Some(entry("foo").address()),
                None,
                Some(entry("bar").address()),
                IndexFilter::LatestByAttribute
            )
        )
    );
}

#[test]
fn latest_by_attribute_keeps_the_last_of_each_attribute() {
    let color = ExampleAttribute::WithPayload("color".to_string());
    let mut manager = new_test_manager();
    with_cursor(&mut manager, |cursor, _| {
        cursor.add_eavi(&record("e", &color, "red", 1)).unwrap();
        cursor.add_eavi(&record("e", &color, "blue", 2)).unwrap();
    });
    let mut cursor = manager.create_cursor().unwrap();
    assert_eq!(
        Ok(vec![record("e", &color, "blue", 2)]),
        cursor.fetch_eavi(
            &manager,
            &EaviQuery::new(
                Some(entry("e").address()),
                None,
                None,
                IndexFilter::LatestByAttribute
            )
        )
    );
    assert_eq!(
        EaviQuery::<ExampleAttribute>::default().index(),
        IndexFilter::LatestByAttribute
    );
    assert_eq!(
        EaviQuery::<ExampleAttribute>::all().index(),
        IndexFilter::Unfiltered
    );
}

#[test]
fn cursor_reads_its_writes_and_hides_them_from_others() {
    let foo = entry("foo");
    let mut manager = new_test_manager();
    let mut writer = manager.create_cursor().unwrap();
    let mut reader = manager.create_cursor().unwrap();

    writer.add(&foo).unwrap();
    writer
        .add_eavi(&record("foo", &ExampleAttribute::default(), "bar", 1))
        .unwrap();
    assert_eq!(Ok(Some(foo.content())), writer.fetch(&manager, &foo.address()));
    assert_eq!(Ok(None), reader.fetch(&manager, &foo.address()));
    assert_eq!(Ok(false), reader.contains(&manager, &foo.address()));
    assert_eq!(
        Ok(vec![]),
        reader.fetch_eavi(&manager, &EaviQuery::default())
    );
    assert_eq!(Ok(None), manager.cas.fetch(&foo.address()));
    assert!(manager.cas.is_empty());
    assert!(manager.eav.is_empty());

    writer.commit(&mut manager).unwrap();
    assert_eq!(Ok(Some(foo.content())), reader.fetch(&manager, &foo.address()));
    assert_eq!(Ok(true), reader.contains(&manager, &foo.address()));
    assert_eq!(
        Ok(vec![record("foo", &ExampleAttribute::default(), "bar", 1)]),
        reader.fetch_eavi(&manager, &EaviQuery::default())
    );
}

#[test]
fn cursor_reports_on_the_primary() {
    let mut manager = new_test_manager();
    let mut cursor = manager.create_cursor().unwrap();
    cursor.add(&entry("foo")).unwrap();
    assert_eq!(Ok(StorageReport::new(0)), cursor.get_storage_report(&manager));
    cursor.commit(&mut manager).unwrap();
    let cursor = manager.create_cursor().unwrap();
    assert_eq!(Ok(StorageReport::new(3)), cursor.get_storage_report(&manager));
    assert_eq!(Ok(3), manager.cas.get_byte_count());
}

#[test]
fn dropped_cursor_leaves_no_trace() {
    let foo = entry("foo");
    let mut manager = new_test_manager();
    {
        let mut cursor = manager.create_cursor().unwrap();
        cursor.add(&foo).unwrap();
    }
    assert!(manager.cas.is_empty());
    let mut cursor = manager.create_cursor().unwrap();
    assert_eq!(Ok(None), cursor.fetch(&manager, &foo.address()));
}

#[test]
fn empty_commit_changes_nothing() {
    let mut manager = new_test_manager();
    with_cursor(&mut manager, |cursor, _| {
        cursor.add(&entry("foo")).unwrap();
    });
    let used = manager.cas.used();
    let cursor = manager.create_cursor().unwrap();
    assert_eq!(Ok(()), cursor.commit(&mut manager));
    assert_eq!(used, manager.cas.used());
    assert_eq!(1, manager.cas.len());
    assert_eq!(0, manager.eav.len());
    assert_eq!(MIB, manager.cas.map_size());
    assert_eq!(MIB, manager.eav.map_size());
}

#[test]
fn commit_internal_grows_the_region_until_all_fits() {
    let mut manager: EnvManager<ExampleAttribute> =
        manager_with_ids(1, 2, Some(4), None, Some(4), None);
    let mut cursor = manager.create_cursor().unwrap();
    assert_eq!(4, cursor.staging_map_size());
    // staging is one region as well: six bytes of content take eight, and
    // a record of fifty beside them takes sixty-four
    cursor.add(&entry("foo")).unwrap();
    assert_eq!(8, cursor.staging_map_size());
    cursor
        .add_eavi(&record("a", &ExampleAttribute::WithoutPayload, "b", 0))
        .unwrap();
    assert_eq!(64, cursor.staging_map_size());

    // six bytes of content and a record of fifty do not fit into four, nor
    // into eight, sixteen or thirty-two
    for grown in vec![8, 16, 32, 64] {
        assert_eq!(Ok(false), cursor.commit_internal(&mut manager));
        assert_eq!(grown, manager.cas.map_size());
        assert!(manager.cas.is_empty());
        assert!(manager.eav.is_empty());
    }
    assert_eq!(Ok(true), cursor.commit_internal(&mut manager));
    assert_eq!((64, 64), (manager.cas.map_size(), manager.eav.map_size()));
    assert_eq!((6, 50), (manager.cas.used(), manager.eav.used()));
    assert_eq!(1, manager.cas.get_id());
    assert_eq!(2, manager.eav.get_id());
    assert_eq!(1, cursor.get_id());

    // the content alone would fit into eight bytes, and does not get them
    // while the records of the same region take fifty
    let mut cursor = manager.create_cursor().unwrap();
    cursor.add(&entry("12345")).unwrap();
    assert_eq!(Ok(false), cursor.commit_internal(&mut manager));
    assert_eq!(128, manager.cas.map_size());
    assert_eq!(Ok(true), cursor.commit_internal(&mut manager));
    assert_eq!((128, 128), (manager.cas.map_size(), manager.eav.map_size()));
    assert_eq!((16, 50), (manager.cas.used(), manager.eav.used()));
}

#[test]
fn demand_of_put_counts_a_record_once() {
    let first = record("a", &ExampleAttribute::WithoutPayload, "b", 0);
    let second = record("a", &ExampleAttribute::WithoutPayload, "c", 0);
    let mut eav: ExampleEntityAttributeValueStorage<ExampleAttribute> =
        ExampleEntityAttributeValueStorage::with_map_size(1, Some(64));
    assert_eq!(Some(50), eav.demand_of_put(&first));
    eav.add_eavi(&first).unwrap();
    assert_eq!(50, eav.used());
    // a record that is there takes no more room
    assert_eq!(Some(50), eav.demand_of_put(&first));
    assert_eq!(Some(100), eav.demand_of_put(&second));
    assert_eq!(64, eav.map_size());
}

#[test]
fn staging_grows_for_what_is_kept_from_the_primary() {
    let mut manager: EnvManager<ExampleAttribute> =
        manager_with_ids(1, 2, Some(4), None, Some(4), None);
    with_cursor(&mut manager, |cursor, _| {
        cursor.add(&entry("foo")).unwrap();
        cursor
            .add_eavi(&record("a", &ExampleAttribute::WithoutPayload, "b", 0))
            .unwrap();
    });

    let mut cursor = manager.create_cursor().unwrap();
    assert_eq!(4, cursor.staging_map_size());
    // a miss keeps nothing, and staging stays as it is
    assert_eq!(Ok(None), cursor.fetch(&manager, &entry("bar").address()));
    assert_eq!(4, cursor.staging_map_size());
    // a hit in the primary is kept: six bytes
    assert_eq!(Ok(true), cursor.contains(&manager, &entry("foo").address()));
    assert_eq!(8, cursor.staging_map_size());
    // a second look is answered from staging
    assert_eq!(Ok(true), cursor.contains(&manager, &entry("foo").address()));
    assert_eq!(8, cursor.staging_map_size());
    // the record of fifty bytes is kept beside the content
    let found = cursor.fetch_eavi(&manager, &EaviQuery::default()).unwrap();
    assert_eq!(1, found.len());
    assert_eq!(64, cursor.staging_map_size());
    // a copy of the cursor has the same region
    assert_eq!(64, cursor.clone().staging_map_size());
}

#[test]
fn fetch_keeps_what_came_from_the_primary() {
    let foo = entry("foo");
    let mut manager: EnvManager<ExampleAttribute> =
        manager_with_ids(7, 8, Some(MIB), None, Some(MIB), None);
    with_cursor(&mut manager, |cursor, _| {
        cursor.add(&foo).unwrap();
        cursor
            .add_eavi(&record("foo", &ExampleAttribute::default(), "bar", 1))
            .unwrap();
    });

    let mut cursor = manager.create_cursor().unwrap();
    assert_eq!(Ok(Some(foo.content())), cursor.fetch(&manager, &foo.address()));
    assert_eq!(
        Ok(vec![record("foo", &ExampleAttribute::default(), "bar", 1)]),
        cursor.fetch_eavi(&manager, &EaviQuery::default())
    );
    // staging now answers alone, in front of a primary that holds nothing
    let nothing: EnvManager<ExampleAttribute> =
        manager_with_ids(7, 8, Some(MIB), None, Some(MIB), None);
    assert_eq!(Ok(Some(foo.content())), cursor.fetch(&nothing, &foo.address()));
    assert_eq!(
        Ok(vec![record("foo", &ExampleAttribute::default(), "bar", 1)]),
        cursor.fetch_eavi(&nothing, &EaviQuery::default())
    );
}

#[test]
fn cursor_refuses_a_manager_that_is_not_its_own() {
    let foo = entry("foo");
    let mut manager = new_test_manager();
    let mut other = new_test_manager();
    with_cursor(&mut other, |cursor, _| {
        cursor.add(&foo).unwrap();
        cursor
            .add_eavi(&record("foo", &ExampleAttribute::default(), "bar", 1))
            .unwrap();
    });

    let mut cursor = manager.create_cursor().unwrap();
    cursor.add(&entry("bar")).unwrap();
    assert_eq!(
        Err(PersistenceError::InvalidArgument),
        cursor.fetch(&other, &foo.address())
    );
    assert_eq!(
        Err(PersistenceError::InvalidArgument),
        cursor.contains(&other, &foo.address())
    );
    assert_eq!(
        Err(PersistenceError::InvalidArgument),
        cursor.fetch_eavi(&other, &EaviQuery::default())
    );
    assert_eq!(
        Err(PersistenceError::InvalidArgument),
        cursor.get_storage_report(&other)
    );
    assert_eq!(
        Err(PersistenceError::InvalidArgument),
        cursor.commit_internal(&mut other)
    );
    // nothing came into staging, and nothing went into the other primary
    assert_eq!(Ok(None), cursor.fetch(&manager, &foo.address()));
    let copy = cursor.clone();
    assert_eq!(Err(PersistenceError::InvalidArgument), copy.commit(&mut other));
    assert_eq!(1, other.cas.len());
    assert_eq!(Ok(()), cursor.commit(&mut manager));
    assert_eq!(Ok(true), manager.cas.contains(&entry("bar").address()));
}

#[test]
fn staged_records_take_precedence() {
    let attribute = ExampleAttribute::default();
    let mut manager = new_test_manager();
    with_cursor(&mut manager, |cursor, _| {
        cursor.add_eavi(&record("foo", &attribute, "bar", 1)).unwrap();
    });
    let mut cursor = manager.create_cursor().unwrap();
    cursor.add_eavi(&record("foo", &attribute, "baz", 2)).unwrap();
    assert_eq!(
        Ok(vec![record("foo", &attribute, "baz", 2)]),
        cursor.fetch_eavi(
            &manager,
            &EaviQuery::new(None, None, None, IndexFilter::Unfiltered)
        )
    );
}

#[test]
fn commit_steps_are_decided_by_the_outcome() {
    assert_eq!(CommitStep::Proceed, step_after(&Ok(())));
    assert_eq!(
        CommitStep::Grow,
        step_after(&Err(PersistenceError::CapacityExhausted))
    );
    for error in vec![
        PersistenceError::BackendIo,
        PersistenceError::Corruption,
        PersistenceError::Serialization,
        PersistenceError::InvalidArgument,
        PersistenceError::Internal,
    ] {
        assert_eq!(CommitStep::Fail(error), step_after(&Err(error)));
    }
    assert_eq!(Ok(1), next_map_size(0));
    assert_eq!(Ok(2048), next_map_size(1024));
    assert_eq!(Ok(usize::MAX), next_map_size(usize::MAX / 2 + 1));
    assert_eq!(Ok(usize::MAX - 1), next_map_size(usize::MAX / 2));
    assert_eq!(Err(PersistenceError::BackendIo), next_map_size(usize::MAX));
}

#[test]
fn manager_is_made_as_it_is_told() {
    let flags = EnvironmentFlags {
        fixed_map: false,
        no_sub_dir: false,
        write_map: true,
        read_only: false,
        no_meta_sync: false,
        no_sync: true,
        map_async: false,
        no_tls: false,
        no_lock: false,
        no_read_ahead: false,
        no_mem_init: false,
    };
    let manager: EnvManager<ExampleAttribute> = new_manager(None, Some(flags), Some(7), None);
    assert_eq!(104857600, manager.cas.map_size());
    assert_eq!(104857600, manager.eav.map_size());
    assert_eq!(Some(flags), manager.cursor_provider.env_flags());
    assert_eq!(None, manager.cursor_provider.staging_env_flags());
    assert_eq!(Some(7), manager.cursor_provider.staging_initial_map_size());
    assert_ne!(manager.cas.get_id(), manager.eav.get_id());
    assert_eq!(manager.cas.get_id(), manager.cas().get_id());
    assert_eq!(manager.eav.get_id(), manager.eav().get_id());

    let cursor = manager.create_cursor().unwrap();
    assert_eq!(manager.cas.get_id(), cursor.get_id());
    let other = manager.cursor_provider.create_cursor().unwrap();
    assert_eq!(manager.cas.get_id(), other.get_id());

    let provider: EnvCursorProvider<ExampleAttribute> =
        EnvCursorProvider::new(9, None, None, Some(flags));
    assert_eq!(9, provider.cursor_with_staging_id(3).get_id());
    assert_eq!(Some(flags), provider.staging_env_flags());
}

#[test]
fn fresh_ids_are_random_uuids() {
    let first = ExampleContentAddressableStorage::new().get_id();
    let second = ExampleContentAddressableStorage::new().get_id();
    assert_ne!(first, second);
    for id in vec![first, second] {
        assert_eq!(0x4, (id >> 76) & 0xf);
        assert_eq!(0x2, (id >> 62) & 0x3);
    }
}

#[test]
fn copies_of_cursor_and_provider_are_told_the_same() {
    let mut manager: EnvManager<ExampleAttribute> = new_manager(None, None, Some(7), None);
    let provider = manager.cursor_provider.clone();
    assert_eq!(Some(7), provider.staging_initial_map_size());
    assert_eq!(manager.cas.get_id(), provider.create_cursor().unwrap().get_id());

    let mut cursor = manager.create_cursor().unwrap();
    cursor.add(&entry("foo")).unwrap();
    let mut copy = cursor.clone();
    copy.add(&entry("bar")).unwrap();
    // what is staged in the copy is not staged in the cursor
    assert_eq!(Ok(None), cursor.fetch(&manager, &entry("bar").address()));
    assert_eq!(
        Ok(Some(entry("foo").content())),
        copy.fetch(&manager, &entry("foo").address())
    );
    cursor.commit(&mut manager).unwrap();
    assert_eq!(1, manager.cas.len());
    copy.commit(&mut manager).unwrap();
    assert_eq!(2, manager.cas.len());
}

#[test]
fn transport_events_compare_by_what_they_hold() {
    let message = TransportEvent::Message("peer".to_string(), vec![1, 2, 3]);
    assert_eq!(message.clone(), message);
    assert_ne!(TransportEvent::Connect("peer".to_string()), message);
    assert_ne!(
        TransportEvent::Close("peer".to_string()),
        TransportEvent::Close("other".to_string())
    );
    assert_eq!(
        TransportEvent::TransportError("peer".to_string(), TransportError("reset".to_string())),
        TransportEvent::TransportError("peer".to_string(), TransportError("reset".to_string()))
    );
}

#[test]
fn noop_writer_commits_nothing() {
    let mut primary = 7u8;
    assert_eq!(Ok(()), NoopWriter::new().commit(&mut primary));
    assert_eq!(7, primary);
}

#[test]
fn non_transactional_cursor_writes_through() {
    let foo = entry("foo");
    let attribute = ExampleAttribute::default();
    let mut cursor: NonTransactionalCursor<
        ExampleAttribute,
        ExampleContentAddressableStorage,
        ExampleEntityAttributeValueStorage<ExampleAttribute>,
    > = NonTransactionalCursor::new(
        ExampleContentAddressableStorage::with_map_size(5, Some(16)),
        ExampleEntityAttributeValueStorage::new(),
    );
    assert_eq!(Ok(false), cursor.contains(&foo.address()));
    assert_eq!(Ok(()), cursor.add(&foo));
    assert_eq!(Ok(true), cursor.contains(&foo.address()));
    assert_eq!(Ok(Some(foo.content())), cursor.fetch(&foo.address()));
    assert_eq!(5, cursor.get_id());
    assert_eq!(Ok(None), cursor.add_eavi(&record("foo", &attribute, "bar", 1)));
    assert_eq!(
        Ok(vec![record("foo", &attribute, "bar", 1)]),
        cursor.fetch_eavi(&EaviQuery::default())
    );
    assert_eq!(Ok(3), cursor.get_byte_count());
    assert_eq!(Ok(StorageReport::new(3)), cursor.get_storage_report());

    // a cursor from the cursor is a copy: it has what was written, and what
    // is written to it stays with it
    let mut copy = cursor.create_cursor().unwrap();
    assert_eq!(Ok(Some(foo.content())), copy.fetch(&foo.address()));
    copy.add(&entry("bar")).unwrap();
    assert_eq!(Ok(None), cursor.fetch(&entry("bar").address()));
    assert_eq!(1, cursor.cas.len());

    let mut primary = ();
    assert_eq!(Ok(()), copy.commit(&mut primary));
    assert_eq!(1, cursor.eav.len());
}

#[test]
fn default_manager_hands_out_what_it_was_given() {
    let cas = ExampleContentAddressableStorage::with_map_size(1, None);
    let eav: ExampleEntityAttributeValueStorage<ExampleAttribute> =
        ExampleEntityAttributeValueStorage::with_map_size(2, None);
    let provider = EnvCursorProvider::new(1, None, None, None);
    let manager = DefaultPersistenceManager::new(cas, eav, provider);
    assert_eq!(1, manager.cas().get_id());
    assert_eq!(2, manager.eav().get_id());
    assert_eq!(1, manager.create_cursor().unwrap().get_id());
}

#[test]
fn content_is_an_opaque_payload() {
    let content = Content::new(vec![0, 159, 146, 150]);
    assert_eq!(4, content.len());
    assert!(content.same_as(&content.clone()));
    assert!(!content.same_as(&Content::from_text("foo")));
    assert_eq!(b"foo", Content::from_text("foo").as_bytes());
}
