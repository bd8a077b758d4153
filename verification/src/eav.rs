//! Storage of entity-attribute-value records: an ordered set of records that
//! lives in a region of limited, growable size.

use crate::attribute::Attribute;
use crate::cas::{fitted_map_size, grow_map_size, DEFAULT_MAP_SIZE};
use crate::eavi::{
    eavi_lt, eavi_size, lemma_eavi_lt_asymmetric, lemma_eavi_lt_irreflexive, lemma_eavi_lt_total,
    lemma_eavi_lt_transitive, same_triple, Eavi, EntityAttributeValueIndex,
};
use crate::error::PersistenceError;
use crate::ident::{fresh_id, is_random_uuid};
use crate::order::Rank;
use crate::query::{evaluate, is_ordered, lemma_evaluate_ordered, views, EaviQuery};
use vstd::prelude::*;

verus! {

/// The ordered records `records` with `record` among them: put in its place
/// if it was not there, and nothing changed if it was.
pub open spec fn with_record(records: Seq<Eavi>, record: Eavi) -> Seq<Eavi>
    decreases records.len(),
{
    if records.len() == 0 {
        seq![record]
    } else if records.last() == record {
        records
    } else if eavi_lt(records.last(), record) {
        records.push(record)
    } else {
        with_record(records.drop_last(), record).push(records.last())
    }
}

/// The ordered records `records` with each record of `staged` among them.
pub open spec fn with_all(records: Seq<Eavi>, staged: Seq<Eavi>) -> Seq<Eavi>
    decreases staged.len(),
{
    if staged.len() == 0 {
        records
    } else {
        with_all(with_record(records, staged[0]), staged.drop_first())
    }
}

/// The ordered records `records`, in a region of `map_size` bytes, with each
/// record of `staged` among them, up to the first that did not fit.
pub open spec fn with_all_that_fit(records: Seq<Eavi>, staged: Seq<Eavi>, map_size: nat) -> Seq<
    Eavi,
>
    decreases staged.len(),
{
    if staged.len() == 0 {
        records
    } else if records_bytes(with_record(records, staged[0])) > map_size {
        records
    } else {
        with_all_that_fit(with_record(records, staged[0]), staged.drop_first(), map_size)
    }
}

/// The last of `records` that relates the entity of `record` to its value
/// under its attribute, if there is one.
pub open spec fn prior_of(records: Seq<Eavi>, record: Eavi) -> Option<Eavi>
    decreases records.len(),
{
    if records.len() == 0 {
        None
    } else if same_triple(records.last(), record) {
        Some(records.last())
    } else {
        prior_of(records.drop_last(), record)
    }
}

/// The bytes that `records` take together.
pub open spec fn records_bytes(records: Seq<Eavi>) -> nat
    decreases records.len(),
{
    if records.len() == 0 {
        0
    } else {
        records_bytes(records.drop_last()) + eavi_size(records.last())
    }
}

/// `record` has its place at position `at` of `records`: what stands before
/// comes before it, and either it stands there itself, or what stands there
/// and after comes after it.
pub open spec fn place_of(records: Seq<Eavi>, record: Eavi, held: bool, at: int) -> bool {
    &&& 0 <= at <= records.len()
    &&& forall|i: int| 0 <= i < at ==> eavi_lt(#[trigger] records[i], record)
    &&& held ==> at < records.len() && records[at] == record
    &&& !held ==> forall|i: int| at <= i < records.len() ==> eavi_lt(record, #[trigger] records[i])
}

proof fn lemma_ordered_drop_last(records: Seq<Eavi>)
    requires
        is_ordered(records),
        records.len() > 0,
    ensures
        is_ordered(records.drop_last()),
{
    let shorter = records.drop_last();
    assert forall|i: int, j: int| 0 <= i < j < shorter.len() implies eavi_lt(
        #[trigger] shorter[i],
        #[trigger] shorter[j],
    ) by {
        assert(eavi_lt(records[i], records[j]));
    }
}

proof fn lemma_bytes_insert(records: Seq<Eavi>, at: int, record: Eavi)
    requires
        0 <= at <= records.len(),
    ensures
        records_bytes(records.insert(at, record)) == records_bytes(records) + eavi_size(record),
    decreases records.len() - at,
{
    let after = records.insert(at, record);
    if at == records.len() {
        assert(after.drop_last() =~= records);
    } else {
        assert(after.drop_last() =~= records.drop_last().insert(at, record));
        assert(after.last() == records.last());
        lemma_bytes_insert(records.drop_last(), at, record);
    }
}

/// Putting a record in its place keeps the order, adds the record's bytes
/// if it is new, and changes nothing if it is not.
pub proof fn lemma_with_record_at(records: Seq<Eavi>, record: Eavi, held: bool, at: int)
    requires
        is_ordered(records),
        place_of(records, record, held, at),
    ensures
        held ==> with_record(records, record) == records,
        !held ==> with_record(records, record) == records.insert(at, record),
        held == records.contains(record),
        is_ordered(with_record(records, record)),
        records_bytes(with_record(records, record)) == records_bytes(records) + (if held {
            0
        } else {
            eavi_size(record)
        }),
    decreases records.len(),
{
    lemma_eavi_lt_irreflexive(record);
    if records.contains(record) {
        let k = choose|k: int| 0 <= k < records.len() && records[k] == record;
        if k < at {
            assert(eavi_lt(records[k], record));
        } else if !held {
            assert(eavi_lt(record, records[k]));
        }
    }
    if records.len() == 0 {
        assert(seq![record] =~= records.insert(at, record));
    } else {
        let last = records.last();
        let shorter = records.drop_last();
        lemma_ordered_drop_last(records);
        if last == record {
            if !held {
                if at < records.len() {
                    assert(eavi_lt(record, records[records.len() - 1]));
                } else {
                    assert(eavi_lt(records[records.len() - 1], record));
                }
            }
        } else if eavi_lt(last, record) {
            lemma_eavi_lt_asymmetric(last, record);
            if at < records.len() {
                if held {
                    if at < records.len() - 1 {
                        assert(eavi_lt(records[at], records[records.len() - 1]));
                    }
                } else {
                    assert(eavi_lt(record, records[records.len() - 1]));
                }
            }
            assert(at == records.len());
            assert(records.push(record) =~= records.insert(at, record));
        } else {
            lemma_eavi_lt_total(last, record);
            if at == records.len() {
                assert(eavi_lt(records[records.len() - 1], record));
                lemma_eavi_lt_asymmetric(record, last);
            }
            assert(place_of(shorter, record, held, at)) by {
                assert forall|i: int| 0
                    <= i < at implies eavi_lt(#[trigger] shorter[i], record) by {
                    assert(eavi_lt(records[i], record));
                }
                if held {
                    assert(records[at] == record);
                    assert(at < shorter.len());
                } else {
                    assert forall|i: int| at <= i < shorter.len() implies eavi_lt(
                        record,
                        #[trigger] shorter[i],
                    ) by {
                        assert(eavi_lt(record, records[i]));
                    }
                }
            }
            lemma_with_record_at(shorter, record, held, at);
            let inner = with_record(shorter, record);
            if held {
                assert(inner.push(last) =~= records);
            } else {
                assert(inner.push(last) =~= records.insert(at, record));
            }
        }
    }
    if !held {
        lemma_bytes_insert(records, at, record);
        let after = records.insert(at, record);
        assert forall|i: int, j: int| 0 <= i < j < after.len() implies eavi_lt(
            #[trigger] after[i],
            #[trigger] after[j],
        ) by {
            if j < at {
                assert(eavi_lt(records[i], records[j]));
            } else if j == at {
                assert(eavi_lt(records[i], record));
            } else if i < at {
                assert(eavi_lt(records[i], record));
                assert(eavi_lt(record, records[j - 1]));
                lemma_eavi_lt_transitive(records[i], record, records[j - 1]);
            } else if i == at {
                assert(eavi_lt(record, records[j - 1]));
            } else {
                assert(eavi_lt(records[i - 1], records[j - 1]));
            }
        }
    }
}

/// The bytes of records are those of the first and those of the rest.
pub proof fn lemma_records_bytes_front(records: Seq<Eavi>)
    requires
        records.len() > 0,
    ensures
        records_bytes(records) == eavi_size(records[0]) + records_bytes(records.drop_first()),
    decreases records.len(),
{
    if records.len() == 1 {
        assert(records.drop_last() =~= records.drop_first());
    } else {
        lemma_records_bytes_front(records.drop_last());
        assert(records.drop_last().drop_first() =~= records.drop_first().drop_last());
    }
}

/// Every record has a place among ordered records.
pub proof fn lemma_place_exists(records: Seq<Eavi>, record: Eavi) -> (place: (bool, int))
    requires
        is_ordered(records),
    ensures
        place_of(records, record, place.0, place.1),
    decreases records.len(),
{
    if records.len() == 0 {
        (false, 0)
    } else {
        let last = records.last();
        lemma_ordered_drop_last(records);
        if last == record {
            assert forall|i: int| 0 <= i < records.len() - 1 implies eavi_lt(
                #[trigger] records[i],
                record,
            ) by {
                assert(eavi_lt(records[i], records[records.len() - 1]));
            }
            (true, records.len() - 1)
        } else if eavi_lt(last, record) {
            assert forall|i: int| 0 <= i < records.len() implies eavi_lt(
                #[trigger] records[i],
                record,
            ) by {
                if i < records.len() - 1 {
                    assert(eavi_lt(records[i], records[records.len() - 1]));
                    lemma_eavi_lt_transitive(records[i], last, record);
                }
            }
            (false, records.len() as int)
        } else {
            lemma_eavi_lt_total(last, record);
            let inner = lemma_place_exists(records.drop_last(), record);
            let shorter = records.drop_last();
            assert forall|i: int| 0
                <= i < inner.1 implies eavi_lt(#[trigger] records[i], record) by {
                assert(eavi_lt(shorter[i], record));
            }
            if inner.0 {
                assert(shorter[inner.1] == record);
            } else {
                assert forall|i: int| inner.1 <= i < records.len() implies eavi_lt(
                    record,
                    #[trigger] records[i],
                ) by {
                    if i < records.len() - 1 {
                        assert(eavi_lt(record, shorter[i]));
                    }
                }
            }
            inner
        }
    }
}

/// Putting a record among ordered records keeps them ordered and never
/// takes bytes away.
pub proof fn lemma_with_record(records: Seq<Eavi>, record: Eavi)
    requires
        is_ordered(records),
    ensures
        is_ordered(with_record(records, record)),
        records_bytes(with_record(records, record)) == records_bytes(records) + (
        if records.contains(record) {
            0
        } else {
            eavi_size(record)
        }),
        forall|other: Eavi| #[trigger]
            with_record(records, record).contains(other) <==> records.contains(other) || other
                == record,
{
    let place = lemma_place_exists(records, record);
    lemma_with_record_at(records, record, place.0, place.1);
    let after = with_record(records, record);
    assert forall|other: Eavi| #[trigger]
        after.contains(other) <==> records.contains(other) || other == record by {
        if place.0 {
            assert(records[place.1] == record);
        } else {
            let at = place.1;
            if after.contains(other) {
                let k = choose|k: int| 0 <= k < after.len() && after[k] == other;
                if k < at {
                    assert(records[k] == other);
                } else if k > at {
                    assert(records[k - 1] == other);
                }
            }
            if records.contains(other) {
                let k = choose|k: int| 0 <= k < records.len() && records[k] == other;
                if k < at {
                    assert(after[k] == other);
                } else {
                    assert(after[k + 1] == other);
                }
            }
            assert(after[at] == record);
        }
    }
}

/// Putting records among ordered records keeps them ordered, keeps what was
/// there, and never takes bytes away.
pub proof fn lemma_with_all(records: Seq<Eavi>, staged: Seq<Eavi>)
    requires
        is_ordered(records),
    ensures
        is_ordered(with_all(records, staged)),
        records_bytes(with_all(records, staged)) >= records_bytes(records),
        forall|other: Eavi| #[trigger]
            with_all(records, staged).contains(other) <==> records.contains(other)
                || staged.contains(other),
    decreases staged.len(),
{
    if staged.len() > 0 {
        lemma_with_record(records, staged[0]);
        let next = with_record(records, staged[0]);
        lemma_with_all(next, staged.drop_first());
        assert forall|other: Eavi| #[trigger]
            with_all(records, staged).contains(other) <==> records.contains(other)
                || staged.contains(other) by {
            if staged.contains(other) {
                let k = choose|k: int| 0 <= k < staged.len() && staged[k] == other;
                if k > 0 {
                    assert(staged.drop_first()[k - 1] == other);
                }
            }
            if staged.drop_first().contains(other) {
                let k = choose|k: int|
                    0 <= k < staged.drop_first().len() && staged.drop_first()[k] == other;
                assert(staged[k + 1] == other);
            }
            assert(staged[0] == staged[0]);
        }
    }
}

/// What storage of entity-attribute-value records offers, whatever it keeps
/// them in.
pub trait EntityAttributeValueStorage<A: Attribute> {
    /// The records that the store holds, in their order.
    spec fn records(&self) -> Seq<Eavi>;

    /// Whether putting `record` among the records may take the store to
    /// `after` and end in `result`: when it succeeds, with which error it
    /// fails, and what it does to the store besides its records.
    spec fn adds_eavi(
        &self,
        after: &Self,
        record: Eavi,
        result: Result<Option<EntityAttributeValueIndex<A>>, PersistenceError>,
    ) -> bool;

    /// Puts `eavi` among the records, and returns the last record that
    /// related the same entity to the same value under the same attribute
    /// before. A call that fails changes nothing.
    fn add_eavi(&mut self, eavi: &EntityAttributeValueIndex<A>) -> (result: Result<
        Option<EntityAttributeValueIndex<A>>,
        PersistenceError,
    >)
        ensures
            old(self).adds_eavi(final(self), eavi@, result),
            result matches Ok(prior) ==> final(self).records() == with_record(
                old(self).records(),
                eavi@,
            ) && (match prior {
                Some(record) => Some(record@),
                None => None,
            }) == prior_of(old(self).records(), eavi@),
            result is Err ==> final(self).records() == old(self).records(),
    ;

    /// Evaluates `query` on the records of the store. The answer is in the
    /// order of records.
    fn fetch_eavi(&self, query: &EaviQuery<A>) -> (result: Result<
        Vec<EntityAttributeValueIndex<A>>,
        PersistenceError,
    >)
        ensures
            result matches Ok(found) ==> views(found@) == evaluate(query@, self.records())
                && is_ordered(views(found@)),
    ;
}

/// The last of `records` that relates the entity of `record` to its value
/// under its attribute, if there is one.
pub fn prior_among<A: Attribute>(
    records: &Vec<EntityAttributeValueIndex<A>>,
    record: &EntityAttributeValueIndex<A>,
) -> (prior: Option<EntityAttributeValueIndex<A>>)
    ensures
        (match prior {
            Some(found) => Some(found@),
            None => None,
        }) == prior_of(views(records@), record@),
{
    let ghost all = views(records@);
    let mut at: usize = records.len();
    assert(all.take(at as int) =~= all);
    while at > 0
        invariant
            all == views(records@),
            at <= all.len(),
            prior_of(all, record@) == prior_of(all.take(at as int), record@),
        decreases at,
    {
        assert(all.take(at as int).last() == records@[at - 1]@);
        assert(all.take(at as int).drop_last() =~= all.take(at - 1));
        if records[at - 1].same_triple(record) {
            return Some(records[at - 1].clone());
        }
        at -= 1;
    }
    None
}

/// Whether `record` is among `records`.
pub fn is_among<A: Attribute>(
    records: &Vec<EntityAttributeValueIndex<A>>,
    record: &EntityAttributeValueIndex<A>,
) -> (held: bool)
    ensures
        held == views(records@).contains(record@),
{
    let mut i: usize = 0;
    while i < records.len()
        invariant
            i <= records@.len(),
            forall|j: int| 0 <= j < i ==> #[trigger] views(records@)[j] != record@,
        decreases records@.len() - i,
    {
        assert(views(records@)[i as int] == records@[i as int]@);
        if records[i].same_as(record) {
            return true;
        }
        i += 1;
    }
    false
}

/// Putting records among ordered records never takes more bytes than what
/// is there and what is put take together.
pub proof fn lemma_with_all_bound(records: Seq<Eavi>, staged: Seq<Eavi>)
    requires
        is_ordered(records),
    ensures
        records_bytes(with_all(records, staged)) <= records_bytes(records) + records_bytes(staged),
    decreases staged.len(),
{
    if staged.len() > 0 {
        lemma_with_record(records, staged[0]);
        lemma_with_all_bound(with_record(records, staged[0]), staged.drop_first());
        lemma_records_bytes_front(staged);
    }
}

/// A run of records is put one after the other without ever taking more
/// bytes than it takes in the end: where the whole run fits, each record
/// of it fits when its turn comes.
pub proof fn lemma_with_all_fits(records: Seq<Eavi>, staged: Seq<Eavi>, limit: nat)
    requires
        is_ordered(records),
        records_bytes(with_all(records, staged)) <= limit,
    ensures
        with_all_that_fit(records, staged, limit) == with_all(records, staged),
        forall|n: int|
            0 <= n <= staged.len() ==> records_bytes(#[trigger] with_all(records, staged.take(n)))
                <= limit,
    decreases staged.len(),
{
    assert forall|n: int| 0 <= n <= staged.len() implies records_bytes(
        #[trigger] with_all(records, staged.take(n)),
    ) <= limit by {
        lemma_with_all_split(records, staged, n);
        lemma_with_all(records, staged.take(n));
        lemma_with_all(with_all(records, staged.take(n)), staged.skip(n));
    }
    if staged.len() > 0 {
        lemma_with_record(records, staged[0]);
        lemma_with_all(with_record(records, staged[0]), staged.drop_first());
        lemma_with_all_fits(with_record(records, staged[0]), staged.drop_first(), limit);
    }
}

/// Putting a run of records is putting its first part and then its rest.
pub proof fn lemma_with_all_split(records: Seq<Eavi>, staged: Seq<Eavi>, n: int)
    requires
        0 <= n <= staged.len(),
    ensures
        with_all(records, staged) == with_all(with_all(records, staged.take(n)), staged.skip(n)),
    decreases n,
{
    if n == 0 {
        assert(staged.skip(0) =~= staged);
    } else {
        lemma_with_all_split(with_record(records, staged[0]), staged.drop_first(), n - 1);
        assert(staged.take(n).drop_first() =~= staged.drop_first().take(n - 1));
        assert(staged.drop_first().skip(n - 1) =~= staged.skip(n));
        assert(staged.take(n)[0] == staged[0]);
    }
}

/// The records of a store in their order, with the bytes they take and the
/// size of the region they live in.
struct Shelf<A: Attribute> {
    records: Vec<EntityAttributeValueIndex<A>>,
    used: usize,
    map_size: usize,
}

impl<A: Attribute> Shelf<A> {
    spec fn valid(&self) -> bool {
        &&& is_ordered(views(self.records@))
        &&& self.used == records_bytes(views(self.records@))
        &&& self.used <= self.map_size
    }

    fn empty(map_size: usize) -> (shelf: Self)
        ensures
            shelf.valid(),
            shelf.records@.len() == 0,
            shelf.used == 0,
            shelf.map_size == map_size,
    {
        Shelf { records: Vec::new(), used: 0, map_size }
    }

    /// Finds the place of `record`, looking from the end, where new records
    /// mostly belong.
    fn locate(&self, record: &EntityAttributeValueIndex<A>) -> (place: (bool, usize))
        requires
            self.valid(),
        ensures
            place_of(views(self.records@), record@, place.0, place.1 as int),
    {
        let ghost all = views(self.records@);
        let mut at: usize = self.records.len();
        while at > 0
            invariant
                all == views(self.records@),
                is_ordered(all),
                at <= all.len(),
                forall|i: int| at <= i < all.len() ==> eavi_lt(record@, #[trigger] all[i]),
            decreases at,
        {
            assert(all[at - 1] == self.records@[at - 1]@);
            match self.records[at - 1].rank(record) {
                Rank::Same => {
                    assert forall|i: int| 0 <= i < at - 1 implies eavi_lt(
                        #[trigger] all[i],
                        record@,
                    ) by {
                        assert(eavi_lt(all[i], all[at - 1]));
                    }
                    return (true, at - 1);
                },
                Rank::Before => {
                    assert forall|i: int| 0
                        <= i < at implies eavi_lt(#[trigger] all[i], record@) by {
                        if i < at - 1 {
                            assert(eavi_lt(all[i], all[at - 1]));
                            lemma_eavi_lt_transitive(all[i], all[at - 1], record@);
                        }
                    }
                    return (false, at);
                },
                Rank::After => {
                    at -= 1;
                },
            }
        }
        (false, at)
    }

    /// Puts `record` in its place if the region has room for it, and answers
    /// whether it did.
    fn put(&mut self, record: EntityAttributeValueIndex<A>) -> (stored: bool)
        requires
            old(self).valid(),
        ensures
            final(self).valid(),
            final(self).map_size == old(self).map_size,
            stored == (records_bytes(with_record(views(old(self).records@), record@)) <= old(
                self,
            ).map_size),
            stored ==> views(final(self).records@) == with_record(
                views(old(self).records@),
                record@,
            ),
            !stored ==> final(self).records@ == old(self).records@ && final(self).used == old(
                self,
            ).used,
    {
        let (held, at) = self.locate(&record);
        proof {
            lemma_with_record_at(views(self.records@), record@, held, at as int);
        }
        if held {
            return true;
        }
        match record.size() {
            Some(size) => match self.used.checked_add(size) {
                Some(demand) => {
                    if demand > self.map_size {
                        return false;
                    }
                    let ghost before = self.records@;
                    let ghost said = record@;
                    self.records.insert(at, record);
                    self.used = demand;
                    assert(views(self.records@) =~= views(before).insert(at as int, said));
                    true
                },
                None => false,
            },
            None => false,
        }
    }

    fn copy(&self) -> (copy: Self)
        ensures
            views(copy.records@) == views(self.records@),
            copy.used == self.used,
            copy.map_size == self.map_size,
    {
        let mut records: Vec<EntityAttributeValueIndex<A>> = Vec::new();
        let mut i: usize = 0;
        while i < self.records.len()
            invariant
                i <= self.records@.len(),
                records@.len() == i,
                forall|j: int| 0 <= j < i ==> (#[trigger] records@[j])@ == self.records@[j]@,
            decreases self.records@.len() - i,
        {
            records.push(self.records[i].clone());
            i += 1;
        }
        assert(views(records@) =~= views(self.records@));
        Shelf { records, used: self.used, map_size: self.map_size }
    }
}

/// Storage of entity-attribute-value records that lives in memory.
///
/// It holds a set of records in the order of records. The store lives in a
/// region of `map_size` bytes; a record that does not fit is refused until
/// the region has been grown.
pub struct ExampleEntityAttributeValueStorage<A: Attribute> {
    id: u128,
    shelf: Shelf<A>,
}

impl<A: Attribute> View for ExampleEntityAttributeValueStorage<A> {
    type V = Seq<Eavi>;

    closed spec fn view(&self) -> Seq<Eavi> {
        views(self.shelf.records@)
    }
}

impl<A: Attribute> Clone for ExampleEntityAttributeValueStorage<A> {
    /// A copy with the same identity, records and region.
    fn clone(&self) -> (copy: Self)
        ensures
            copy@ == self@,
            copy.spec_map_size() == self.spec_map_size(),
            copy.spec_id() == self.spec_id(),
            copy.is_sound(),
    {
        proof {
            use_type_invariant(self);
        }
        ExampleEntityAttributeValueStorage { id: self.id, shelf: self.shelf.copy() }
    }
}

impl<A: Attribute> ExampleEntityAttributeValueStorage<A> {
    #[verifier::type_invariant]
    spec fn well_formed(self) -> bool {
        self.shelf.valid()
    }

    /// The bytes that the records of the store take.
    pub open spec fn used_bytes(&self) -> nat {
        records_bytes(self@)
    }

    /// The size of the region that the store lives in.
    pub closed spec fn spec_map_size(&self) -> usize {
        self.shelf.map_size
    }

    /// The identity of the store.
    pub closed spec fn spec_id(&self) -> u128 {
        self.id
    }

    /// What every store keeps: its records are in their order, and they take
    /// no more bytes than its region has.
    pub open spec fn is_sound(&self) -> bool {
        &&& is_ordered(self@)
        &&& self.used_bytes() <= self.spec_map_size()
    }

    /// The store is `before` in a region of `map_size` bytes.
    pub open spec fn is_resized(&self, before: Self, map_size: usize) -> bool {
        &&& self@ == before@
        &&& self.spec_id() == before.spec_id()
        &&& self.spec_map_size() == map_size
    }

    /// The store is what `before` is once `record` was put among its
    /// records with the region grown to fit: the same store with the record
    /// in its place, in a region that was doubled until the record fit; or,
    /// where no region can hold that many bytes, `before` as it was.
    pub open spec fn is_after_add(&self, before: Self, record: Eavi) -> bool {
        let demand = records_bytes(with_record(before@, record));
        &&& self.spec_id() == before.spec_id()
        &&& self.is_sound()
        &&& demand <= usize::MAX ==> {
            &&& self@ == with_record(before@, record)
            &&& self.spec_map_size() == fitted_map_size(before.spec_map_size(), demand)
        }
        &&& demand > usize::MAX ==> {
            &&& self@ == before@
            &&& self.spec_map_size() == before.spec_map_size()
        }
    }

    /// An empty store with the identity `id`, in a region of
    /// `initial_map_size` bytes, or of the default size where none is given.
    pub fn with_map_size(id: u128, initial_map_size: Option<usize>) -> (store: Self)
        ensures
            store@ == Seq::<Eavi>::empty(),
            store.spec_id() == id,
            store.spec_map_size() == (match initial_map_size {
                Some(size) => size,
                None => DEFAULT_MAP_SIZE,
            }),
            store.is_sound(),
    {
        let map_size = match initial_map_size {
            Some(size) => size,
            None => DEFAULT_MAP_SIZE,
        };
        let store = ExampleEntityAttributeValueStorage { id, shelf: Shelf::empty(map_size) };
        assert(store@ =~= Seq::<Eavi>::empty());
        store
    }

    /// An empty store in a region of the default size, with an identity drawn
    /// at random.
    pub fn new() -> (store: Self)
        ensures
            store@ == Seq::<Eavi>::empty(),
            store.spec_map_size() == DEFAULT_MAP_SIZE,
            is_random_uuid(store.spec_id()),
            store.is_sound(),
    {
        Self::with_map_size(fresh_id(), None)
    }

    /// The identity of the store, which a copy shares.
    pub fn get_id(&self) -> (id: u128)
        ensures
            id == self.spec_id(),
    {
        self.id
    }

    /// The size of the region that the store lives in. It is never less than
    /// the bytes in use.
    #[verifier::when_used_as_spec(spec_map_size)]
    pub fn map_size(&self) -> (size: usize)
        ensures
            size == self.spec_map_size(),
            self.used_bytes() <= size,
            is_ordered(self@),
    {
        proof {
            use_type_invariant(self);
        }
        self.shelf.map_size
    }

    /// The bytes that the records of the store take.
    pub fn used(&self) -> (count: usize)
        ensures
            count == self.used_bytes(),
    {
        proof {
            use_type_invariant(self);
        }
        self.shelf.used
    }

    /// The number of records in the store.
    pub fn len(&self) -> (n: usize)
        ensures
            n == self@.len(),
    {
        self.shelf.records.len()
    }

    /// Whether the store holds nothing.
    pub fn is_empty(&self) -> (empty: bool)
        ensures
            empty == (self@.len() == 0),
    {
        self.shelf.records.len() == 0
    }

    /// Gives the store a region of `bytes` bytes. A region smaller than the
    /// bytes in use is refused with `InvalidArgument`, and nothing changes.
    pub fn set_map_size(&mut self, bytes: usize) -> (result: Result<(), PersistenceError>)
        ensures
            final(self)@ == old(self)@,
            final(self).spec_id() == old(self).spec_id(),
            bytes >= old(self).used_bytes() ==> result is Ok && final(self).spec_map_size()
                == bytes,
            bytes < old(self).used_bytes() ==> result == Err::<(), PersistenceError>(
                PersistenceError::InvalidArgument,
            ) && final(self).spec_map_size() == old(self).spec_map_size(),
            final(self).is_sound(),
    {
        proof {
            use_type_invariant(&*self);
        }
        if bytes < self.shelf.used {
            return Err(PersistenceError::InvalidArgument);
        }
        self.shelf.map_size = bytes;
        Ok(())
    }

    /// Puts `eavi` among the records if the region has room for it, and
    /// returns the last record that related the same entity to the same
    /// value under the same attribute before. Otherwise it answers
    /// `CapacityExhausted` and changes nothing.
    pub fn put_eavi(&mut self, eavi: &EntityAttributeValueIndex<A>) -> (result: Result<
        Option<EntityAttributeValueIndex<A>>,
        PersistenceError,
    >)
        ensures
            final(self).spec_map_size() == old(self).spec_map_size(),
            final(self).spec_id() == old(self).spec_id(),
            records_bytes(with_record(old(self)@, eavi@)) <= old(self).spec_map_size() ==> (
            result matches Ok(prior) && (match prior {
                Some(record) => Some(record@),
                None => None,
            }) == prior_of(old(self)@, eavi@)) && final(self)@ == with_record(old(self)@, eavi@),
            records_bytes(with_record(old(self)@, eavi@)) > old(self).spec_map_size() ==> (result
                matches Err(PersistenceError::CapacityExhausted)) && final(self)@ == old(self)@,
            final(self).is_sound(),
    {
        proof {
            use_type_invariant(&*self);
        }
        let prior = prior_among(&self.shelf.records, eavi);
        let mut shelf = Shelf::empty(0);
        std::mem::swap(&mut self.shelf, &mut shelf);
        let stored = shelf.put(eavi.clone());
        self.shelf = shelf;
        if stored {
            Ok(prior)
        } else {
            Err(PersistenceError::CapacityExhausted)
        }
    }

    /// The bytes that the store would hold with `eavi` among its records, or
    /// `None` where the machine cannot count them.
    pub fn demand_of_put(&self, eavi: &EntityAttributeValueIndex<A>) -> (demand: Option<usize>)
        ensures
            match demand {
                Some(bytes) => bytes == records_bytes(with_record(self@, eavi@)),
                None => records_bytes(with_record(self@, eavi@)) > usize::MAX,
            },
    {
        proof {
            use_type_invariant(self);
        }
        let (held, at) = self.shelf.locate(eavi);
        proof {
            lemma_with_record_at(self@, eavi@, held, at as int);
        }
        if held {
            Some(self.shelf.used)
        } else {
            match eavi.size() {
                Some(size) => self.shelf.used.checked_add(size),
                None => None,
            }
        }
    }

    /// Puts every record of `staged` among the records, in their order, and
    /// stops with `CapacityExhausted` at the first that does not fit, with
    /// the records before it put.
    pub fn add_all(&mut self, staged: &Self) -> (result: Result<(), PersistenceError>)
        ensures
            final(self).spec_map_size() == old(self).spec_map_size(),
            final(self).spec_id() == old(self).spec_id(),
            result is Ok <==> records_bytes(with_all(old(self)@, staged@)) <= old(
                self,
            ).spec_map_size(),
            result is Ok ==> final(self)@ == with_all(old(self)@, staged@),
            final(self)@ == with_all_that_fit(
                old(self)@,
                staged@,
                old(self).spec_map_size() as nat,
            ),
            result matches Err(error) ==> error == PersistenceError::CapacityExhausted,
            final(self).is_sound(),
    {
        proof {
            use_type_invariant(&*self);
        }
        let mut shelf = Shelf::empty(0);
        std::mem::swap(&mut self.shelf, &mut shelf);
        let ghost all = staged@;
        let ghost limit = shelf.map_size;
        let ghost goal = with_all(old(self)@, all);
        let ghost end = with_all_that_fit(old(self)@, all, limit as nat);
        let mut i: usize = 0;
        let mut full = false;
        assert(all.skip(0) =~= all);
        while i < staged.shelf.records.len()
            invariant_except_break
                !full,
                goal == with_all(views(shelf.records@), all.skip(i as int)),
                end == with_all_that_fit(
                    views(shelf.records@),
                    all.skip(i as int),
                    limit as nat,
                ),
            invariant
                all == views(staged.shelf.records@),
                i <= all.len(),
                shelf.valid(),
                shelf.map_size == limit,
            ensures
                full ==> records_bytes(goal) > limit,
                end == views(shelf.records@),
                !full ==> i == all.len() && goal == with_all(
                    views(shelf.records@),
                    all.skip(i as int),
                ),
            decreases all.len() - i,
        {
            let record = staged.shelf.records[i].clone();
            proof {
                let rest = all.skip(i as int);
                assert(rest[0] == record@);
                assert(rest.drop_first() =~= all.skip(i + 1));
                lemma_with_record(views(shelf.records@), record@);
                lemma_with_all(with_record(views(shelf.records@), record@), all.skip(i + 1));
            }
            let stored = shelf.put(record);
            if !stored {
                full = true;
                break ;
            }
            i += 1;
        }
        self.shelf = shelf;
        if full {
            Err(PersistenceError::CapacityExhausted)
        } else {
            Ok(())
        }
    }
}

impl<A: Attribute> EntityAttributeValueStorage<A> for ExampleEntityAttributeValueStorage<A> {
    open spec fn records(&self) -> Seq<Eavi> {
        self@
    }

    /// The record is put exactly where the machine can address the bytes
    /// that the store then holds; the call fails with `BackendIo`; and the
    /// store is afterwards what `is_after_add` says.
    open spec fn adds_eavi(
        &self,
        after: &Self,
        record: Eavi,
        result: Result<Option<EntityAttributeValueIndex<A>>, PersistenceError>,
    ) -> bool {
        &&& result is Ok <==> records_bytes(with_record(self@, record)) <= usize::MAX
        &&& result matches Err(error) ==> error == PersistenceError::BackendIo
        &&& after.is_after_add(*self, record)
    }

    /// Puts `eavi` among the records, and grows the region first, as often
    /// as it takes, if the record does not fit. It returns the last record
    /// that related the same entity to the same value under the same
    /// attribute before.
    ///
    /// It fails, with `BackendIo` and without changing anything, only where
    /// the store would hold more bytes than the machine can address.
    fn add_eavi(&mut self, eavi: &EntityAttributeValueIndex<A>) -> (result: Result<
        Option<EntityAttributeValueIndex<A>>,
        PersistenceError,
    >)
        ensures
            result is Ok <==> records_bytes(with_record(old(self)@, eavi@)) <= usize::MAX,
            result matches Err(error) ==> error == PersistenceError::BackendIo,
            final(self).is_after_add(*old(self), eavi@),
    {
        let ghost demand = records_bytes(with_record(self@, eavi@));
        let _ = self.map_size();
        match self.demand_of_put(eavi) {
            None => Err(PersistenceError::BackendIo),
            Some(bytes) => {
                while self.map_size() < bytes
                    invariant
                        bytes == demand,
                        self@ == old(self)@,
                        self.spec_id() == old(self).spec_id(),
                        fitted_map_size(self.spec_map_size(), demand) == fitted_map_size(
                            old(self).spec_map_size(),
                            demand,
                        ),
                    decreases usize::MAX - self.spec_map_size(),
                {
                    let grown = grow_map_size(self.map_size());
                    let _ = self.set_map_size(grown);
                }
                self.put_eavi(eavi)
            },
        }
    }

    /// Evaluates `query` on the records of the store. It never fails.
    fn fetch_eavi(&self, query: &EaviQuery<A>) -> (result: Result<
        Vec<EntityAttributeValueIndex<A>>,
        PersistenceError,
    >)
        ensures
            result is Ok,
    {
        proof {
            use_type_invariant(self);
            lemma_evaluate_ordered(query@, self@);
        }
        Ok(query.run(&self.shelf.records))
    }
}

} // verus!
