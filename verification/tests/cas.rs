use holochain_persistence::cas::{
    grow_map_size, ContentAddressableStorage, ExampleContentAddressableStorage, DEFAULT_MAP_SIZE,
};
use holochain_persistence::clock::IndexClock;
use holochain_persistence::content::{Address, AddressableContent, Content};
use holochain_persistence::eav::{
    is_among, prior_among, EntityAttributeValueStorage, ExampleEntityAttributeValueStorage,
};
use holochain_persistence::eavi::EntityAttributeValueIndex;
use holochain_persistence::error::PersistenceError;
use holochain_persistence::example_attribute::ExampleAttribute;
use holochain_persistence::example_entry::{test_eav, ExampleEntry};
use holochain_persistence::order::{rank_bytes, Rank};
use holochain_persistence::query::{same_records, EaviQuery, IndexFilter};
use holochain_persistence::reporting::{count_bytes, ReportStorage, StorageReport};

fn entry(data: &str) -> ExampleEntry {
    ExampleEntry::new(data.to_string())
}

#[test]
fn content_round_trip_test() {
    let mut cas = ExampleContentAddressableStorage::new();
    let content = entry("foo");
    let other_content = entry("bar");

    assert_eq!(Ok(None), cas.fetch(&content.address()));
    assert_eq!(Ok(false), cas.contains(&content.address()));
    assert_eq!(Ok(()), cas.add(&content));
    assert_eq!(Ok(true), cas.contains(&content.address()));
    assert_eq!(Ok(false), cas.contains(&other_content.address()));
    assert_eq!(Ok(Some(content.content())), cas.fetch(&content.address()));

    // adding the same content again changes nothing
    let used = cas.used();
    assert_eq!(Ok(()), cas.add(&content));
    assert_eq!(used, cas.used());
    assert_eq!(1, cas.len());

    assert_eq!(Ok(()), cas.add(&other_content));
    assert_eq!(Ok(true), cas.contains(&content.address()));
    assert_eq!(Ok(true), cas.contains(&other_content.address()));
    assert_eq!(Ok(Some(content.content())), cas.fetch(&content.address()));
    assert_eq!(
        Ok(Some(other_content.content())),
        cas.fetch(&other_content.address())
    );
    assert_eq!(2, cas.len());
}

#[test]
fn iter_hands_out_all_entries_in_order() {
    let mut cas = ExampleContentAddressableStorage::new();
    assert!(cas.iter().is_empty());
    for name in vec!["b", "a", "ab", "c", "a"] {
        cas.add(&entry(name)).unwrap();
    }
    let all = cas.iter();
    let expected: Vec<(Address, Content)> = vec!["a", "ab", "b", "c"]
        .into_iter()
        .map(|name| (Address::from_text(name), Content::from_text(name)))
        .collect();
    assert_eq!(expected, all);
}

#[test]
fn report_storage_test() {
    let mut cas = ExampleContentAddressableStorage::new();
    assert_eq!(cas.get_storage_report().unwrap(), StorageReport::new(0));
    // add some content
    cas.add(&entry("some bytes")).expect("could not add to CAS");
    assert_eq!(cas.get_byte_count().unwrap(), 10);
    assert_eq!(cas.get_storage_report().unwrap(), StorageReport::new(10));
    // add some more
    cas.add(&entry("more bytes")).expect("could not add to CAS");
    assert_eq!(cas.get_byte_count().unwrap(), 10 + 10);
    // the addresses take room in the region and are not reported
    assert_eq!(cas.used(), 20 + 20);
    assert_eq!(cas.content_bytes(), 20);
    // content that takes the place of other content is counted once
    cas.put(Address::from_text("some bytes"), Content::from_text("b")).unwrap();
    assert_eq!(cas.get_byte_count().unwrap(), 1 + 10);

    assert_eq!(
        Some(10 + 10),
        count_bytes(&vec![
            Content::from_text("some bytes"),
            Content::from_text("more bytes")
        ])
    );
    assert_eq!(Some(0), count_bytes(&vec![]));
}

#[test]
fn many_entries_are_found_again() {
    let mut cas = ExampleContentAddressableStorage::with_map_size(0, Some(0));
    let mut names: Vec<String> = (0..200).map(|i| format!("{}", (i * 7919) % 1000)).collect();
    for name in names.iter() {
        cas.add(&entry(name)).unwrap();
    }
    names.sort();
    names.dedup();
    assert_eq!(names.len(), cas.len());
    for name in names.iter() {
        assert_eq!(Ok(Some(entry(name).content())), cas.fetch(&entry(name).address()));
    }
    assert_eq!(Ok(None), cas.fetch(&Address::from_text("1000")));
    assert_eq!(Ok(None), cas.fetch(&Address::from_text("")));
    assert_eq!(Ok(None), cas.fetch(&Address::from_text("zzz")));
    let held: usize = names.iter().map(|name| 2 * name.len()).sum();
    assert_eq!(held, cas.used());
}

#[test]
fn put_is_refused_when_the_region_is_full() {
    let mut cas = ExampleContentAddressableStorage::with_map_size(1, Some(10));
    let address = Address::from_text("key");
    assert_eq!(Ok(()), cas.put(address.clone(), Content::from_text("1234567")));
    assert_eq!(10, cas.used());
    // one byte more does not fit
    assert_eq!(
        Err(PersistenceError::CapacityExhausted),
        cas.put(address.clone(), Content::from_text("12345678"))
    );
    assert_eq!(
        Err(PersistenceError::CapacityExhausted),
        cas.put(Address::from_text("k"), Content::from_text(""))
    );
    assert_eq!(Ok(Some(Content::from_text("1234567"))), cas.fetch(&address));
    assert_eq!(10, cas.used());
    assert_eq!(10, cas.map_size());
    // less does, in place of what was there
    assert_eq!(Ok(()), cas.put(address.clone(), Content::from_text("12")));
    assert_eq!(5, cas.used());
    assert_eq!(Ok(Some(Content::from_text("12"))), cas.fetch(&address));
    assert_eq!(1, cas.len());
}

#[test]
fn add_grows_the_region_until_the_write_fits() {
    let mut cas = ExampleContentAddressableStorage::with_map_size(1, Some(8));
    assert_eq!(
        Ok(()),
        cas.add_entry(Address::from_text("key"), Content::new(vec![0; 97]))
    );
    assert_eq!(100, cas.used());
    assert_eq!(128, cas.map_size());
    // what fits leaves the region as it is
    assert_eq!(
        Ok(()),
        cas.add_entry(Address::from_text("k"), Content::new(vec![0; 27]))
    );
    assert_eq!(128, cas.used());
    assert_eq!(128, cas.map_size());
    assert_eq!(Ok(()), cas.add_entry(Address::from_text(""), Content::new(vec![1])));
    assert_eq!(256, cas.map_size());
}

#[test]
fn region_is_doubled_until_it_holds_the_bytes() {
    let mut cas = ExampleContentAddressableStorage::with_map_size(1, Some(3));
    cas.fit_map_size(3);
    assert_eq!(3, cas.map_size());
    cas.fit_map_size(4);
    assert_eq!(6, cas.map_size());
    cas.fit_map_size(25);
    assert_eq!(48, cas.map_size());
    cas.fit_map_size(7);
    assert_eq!(48, cas.map_size());

    let mut cas = ExampleContentAddressableStorage::with_map_size(1, Some(0));
    cas.fit_map_size(1);
    assert_eq!(1, cas.map_size());
    cas.fit_map_size(usize::MAX);
    assert_eq!(usize::MAX, cas.map_size());
}

#[test]
fn demand_of_put_counts_the_bytes_after_the_write() {
    let mut cas = ExampleContentAddressableStorage::with_map_size(1, Some(8));
    assert_eq!(Some(13), cas.demand_of_put(&Address::from_text("key"), 10));
    cas.add_entry(Address::from_text("key"), Content::new(vec![0; 97]))
        .unwrap();
    assert_eq!(100, cas.used());
    // content that is replaced gives its bytes back
    assert_eq!(Some(13), cas.demand_of_put(&Address::from_text("key"), 10));
    // a new address is counted with its content
    assert_eq!(Some(115), cas.demand_of_put(&Address::from_text("other"), 10));
    assert_eq!(
        None,
        cas.demand_of_put(&Address::from_text("other"), usize::MAX)
    );
    // asking changes nothing
    assert_eq!(100, cas.used());
    assert_eq!(128, cas.map_size());
}

#[test]
fn map_size_is_set_and_grown() {
    let mut cas = ExampleContentAddressableStorage::new();
    assert_eq!(DEFAULT_MAP_SIZE, cas.map_size());
    assert_eq!(100 * 1024 * 1024, DEFAULT_MAP_SIZE);
    cas.add(&entry("foo")).unwrap();
    assert_eq!(Ok(()), cas.set_map_size(6));
    assert_eq!(6, cas.map_size());
    assert_eq!(Err(PersistenceError::InvalidArgument), cas.set_map_size(5));
    assert_eq!(6, cas.map_size());

    assert_eq!(1, grow_map_size(0));
    assert_eq!(2, grow_map_size(1));
    assert_eq!(2 * 1024 * 1024, grow_map_size(1024 * 1024));
    assert_eq!(usize::MAX - 1, grow_map_size(usize::MAX / 2));
    assert_eq!(usize::MAX, grow_map_size(usize::MAX / 2 + 1));
    assert_eq!(usize::MAX, grow_map_size(usize::MAX));

    let mut eav: ExampleEntityAttributeValueStorage<ExampleAttribute> =
        ExampleEntityAttributeValueStorage::new();
    assert_eq!(DEFAULT_MAP_SIZE, eav.map_size());
    eav.add_eavi(&test_eav()).unwrap();
    assert_eq!(53, eav.used());
    assert_eq!(Err(PersistenceError::InvalidArgument), eav.set_map_size(52));
    assert_eq!(Ok(()), eav.set_map_size(53));
    assert_eq!(53, eav.map_size());
}

#[test]
fn put_all_stops_at_what_does_not_fit() {
    let mut staged = ExampleContentAddressableStorage::new();
    for name in vec!["a", "b", "c"] {
        staged.add(&entry(name)).unwrap();
    }
    let mut primary = ExampleContentAddressableStorage::with_map_size(1, Some(5));
    primary.add(&entry("b")).unwrap();
    assert_eq!(Err(PersistenceError::CapacityExhausted), primary.put_all(&staged));
    assert_eq!(2, primary.len());
    assert_eq!(Ok(()), primary.set_map_size(6));
    assert_eq!(Ok(()), primary.put_all(&staged));
    assert_eq!(3, primary.len());
    assert_eq!(6, primary.used());
    assert_eq!(Ok(()), primary.put_all(&ExampleContentAddressableStorage::new()));
    assert_eq!(3, primary.len());
}

#[test]
fn records_are_kept_as_an_ordered_set() {
    let attribute = ExampleAttribute::default();
    let make = |entity: &str, value: &str, index: i64| {
        EntityAttributeValueIndex::new_with_index(
            &Address::from_text(entity),
            &attribute,
            &Address::from_text(value),
            index,
        )
        .unwrap()
    };
    let mut eav = ExampleEntityAttributeValueStorage::with_map_size(3, Some(1));
    assert_eq!(Ok(None), eav.add_eavi(&make("b", "x", 2)));
    assert_eq!(Ok(None), eav.add_eavi(&make("a", "x", 2)));
    assert_eq!(Ok(None), eav.add_eavi(&make("c", "x", 1)));
    assert_eq!(Ok(None), eav.add_eavi(&make("a", "w", 2)));
    // the same triple with another index: the last such record is the prior
    assert_eq!(Ok(Some(make("b", "x", 2))), eav.add_eavi(&make("b", "x", 5)));
    assert_eq!(Ok(Some(make("b", "x", 5))), eav.add_eavi(&make("b", "x", 3)));
    // the same record again changes nothing
    let used = eav.used();
    assert_eq!(Ok(Some(make("b", "x", 5))), eav.add_eavi(&make("b", "x", 5)));
    assert_eq!(used, eav.used());
    assert_eq!(6, eav.len());
    assert_eq!(6 * (33 + 15 + 2), eav.used());
    assert_eq!(512, eav.map_size());
    assert_eq!(3, eav.get_id());

    let all = eav
        .fetch_eavi(&EaviQuery::new(None, None, None, IndexFilter::Unfiltered))
        .unwrap();
    let expected = vec![
        make("c", "x", 1),
        make("a", "w", 2),
        make("a", "x", 2),
        make("b", "x", 2),
        make("b", "x", 3),
        make("b", "x", 5),
    ];
    assert!(same_records(&expected, &all));
    assert_eq!(expected, all);
    assert_eq!(Some(make("b", "x", 5)), prior_among(&all, &make("b", "x", 9)));
    assert_eq!(Some(make("a", "w", 2)), prior_among(&all, &make("a", "w", 0)));
    assert_eq!(None, prior_among(&all, &make("a", "y", 2)));
    assert!(is_among(&all, &make("b", "x", 3)));
    assert!(!is_among(&all, &make("b", "x", 4)));
    let mut shuffled = vec![
        make("b", "x", 5),
        make("a", "x", 2),
        make("b", "x", 3),
        make("c", "x", 1),
        make("b", "x", 2),
        make("a", "w", 2),
    ];
    shuffled.sort_by(|a, b| a.partial_cmp(b).unwrap());
    assert_eq!(expected, shuffled);
    for pair in all.windows(2) {
        assert!(pair[0] < pair[1]);
        assert!(pair[1] > pair[0]);
        assert!(pair[0] <= pair[0]);
        assert_eq!(Rank::Before, pair[0].rank(&pair[1]));
        assert_eq!(Rank::After, pair[1].rank(&pair[0]));
        assert_eq!(Rank::Same, pair[0].rank(&pair[0]));
    }
}

#[test]
fn put_eavi_is_refused_when_the_region_is_full() {
    let mut eav: ExampleEntityAttributeValueStorage<ExampleAttribute> =
        ExampleEntityAttributeValueStorage::with_map_size(3, Some(52));
    assert_eq!(
        Err(PersistenceError::CapacityExhausted),
        eav.put_eavi(&test_eav())
    );
    assert!(eav.is_empty());
    assert_eq!(Ok(()), eav.set_map_size(53));
    assert_eq!(Ok(None), eav.put_eavi(&test_eav()));
    assert_eq!(Ok(Some(test_eav())), eav.put_eavi(&test_eav()));
    let mut later = test_eav();
    later.set_index(1);
    assert_eq!(
        Err(PersistenceError::CapacityExhausted),
        eav.put_eavi(&later)
    );

    let mut primary: ExampleEntityAttributeValueStorage<ExampleAttribute> =
        ExampleEntityAttributeValueStorage::with_map_size(4, Some(52));
    assert_eq!(Err(PersistenceError::CapacityExhausted), primary.add_all(&eav));
    assert_eq!(Ok(()), primary.set_map_size(60));
    assert_eq!(Ok(()), primary.add_all(&eav));
    assert_eq!(Ok(()), primary.add_all(&eav));
    assert_eq!(1, primary.len());
}

#[test]
fn addresses_are_ordered_byte_by_byte() {
    let rank = |a: &str, b: &str| Address::from_text(a).rank(&Address::from_text(b));
    assert_eq!(Rank::Same, rank("", ""));
    assert_eq!(Rank::Before, rank("", "a"));
    assert_eq!(Rank::After, rank("a", ""));
    assert_eq!(Rank::Before, rank("a", "b"));
    assert_eq!(Rank::Before, rank("a", "aa"));
    assert_eq!(Rank::Before, rank("ab", "b"));
    assert_eq!(Rank::After, rank("b", "ab"));
    assert_eq!(Rank::Same, rank("abc", "abc"));
    assert_eq!(Rank::Before, rank_bytes(&[1, 2, 0x7f], &[1, 2, 0x80]));
    assert_eq!(Rank::After, rank_bytes(&[0xff], &[0xfe, 0xff]));
    assert!(Address::new(vec![1, 2]).same_as(&Address::new(vec![1, 2])));
    assert!(!Address::new(vec![1, 2]).same_as(&Address::new(vec![1, 2, 3])));
    assert_eq!(3, Address::from_text("abc").len());
    assert_eq!(&[1u8, 2, 3][..], Address::new(vec![1, 2, 3]).as_bytes());
}

#[test]
fn index_clock_never_goes_back() {
    let mut clock = IndexClock::new();
    assert_eq!(Some(100), clock.advance(100));
    // the wall clock stands still, then is set back
    assert_eq!(Some(101), clock.advance(100));
    assert_eq!(Some(102), clock.advance(7));
    // and goes on
    assert_eq!(Some(200), clock.advance(200));
    assert_eq!(Some(-5), IndexClock::new().advance(-5));

    let mut last = IndexClock::starting_after(i64::MAX - 1);
    assert_eq!(Some(i64::MAX), last.advance(0));
    assert_eq!(None, last.advance(0));
    assert_eq!(None, last.advance(i64::MAX));

    let mut clock = IndexClock::starting_after(i64::MAX - 2);
    assert_eq!(Some(i64::MAX - 1), clock.stamp());
    let mut clock = IndexClock::new();
    let first = clock.stamp().unwrap();
    let second = clock.stamp().unwrap();
    assert!(first < second);
    assert!(first > 1_600_000_000_000_000_000);

    let attribute = ExampleAttribute::default();
    let address = Address::from_text("a");
    let first =
        EntityAttributeValueIndex::new(&mut clock, &address, &attribute, &address).unwrap();
    let second =
        EntityAttributeValueIndex::new(&mut clock, &address, &attribute, &address).unwrap();
    assert!(first.index() < second.index());
    assert_eq!(Rank::Before, first.rank(&second));
    let mut spent = IndexClock::starting_after(i64::MAX);
    assert_eq!(
        Err(PersistenceError::Internal),
        EntityAttributeValueIndex::new(&mut spent, &address, &attribute, &address)
    );
}
