//! Queries over entity-attribute-value records.
//!
//! A query first selects the records whose entity, attribute and value it
//! accepts, then filters what it selected by index. What it returns is in the
//! order of records.

use crate::attribute::{same_attribute, Attribute};
use crate::eavi::{eavi_lt, Eavi, EntityAttributeValueIndex, Entity, Value};
use vstd::prelude::*;

verus! {

/// How a query filters, by index, the records that it selected.
#[derive(Clone, Copy, Debug, PartialEq, Eq)]
pub enum IndexFilter {
    /// Of the selected records of each attribute, only the last is kept.
    LatestByAttribute,
    /// Only records whose index lies between the two bounds are kept. A
    /// bound that is given belongs to the range; one that is missing leaves
    /// that side open.
    Range(Option<i64>, Option<i64>),
    /// Every selected record is kept.
    Unfiltered,
}

/// What a query asks for.
pub struct Query {
    /// The entity that a record must have, if any is asked for.
    pub entity: Option<Seq<u8>>,
    /// The string form of the attribute that a record must have, if any is
    /// asked for.
    pub attribute: Option<Seq<char>>,
    /// The value that a record must have, if any is asked for.
    pub value: Option<Seq<u8>>,
    /// The filter by index.
    pub index: IndexFilter,
}

/// The record has the entity, the attribute and the value that the query
/// asks for.
pub open spec fn selects(query: Query, record: Eavi) -> bool {
    &&& query.entity matches Some(entity) ==> record.entity == entity
    &&& query.attribute matches Some(attribute) ==> record.attribute == attribute
    &&& query.value matches Some(value) ==> record.value == value
}

/// The index lies between the bounds that are given.
pub open spec fn in_range(low: Option<i64>, high: Option<i64>, index: int) -> bool {
    &&& low matches Some(bound) ==> bound <= index
    &&& high matches Some(bound) ==> index <= bound
}

/// No selected record after position `i` has the attribute of the record at
/// position `i`.
pub open spec fn is_latest(query: Query, records: Seq<Eavi>, i: int) -> bool {
    forall|j: int|
        i < j < records.len() && selects(query, #[trigger] records[j]) ==> records[j].attribute
            != records[i].attribute
}

/// The query keeps the record at position `i` of `records`.
pub open spec fn keeps(query: Query, records: Seq<Eavi>, i: int) -> bool {
    &&& selects(query, records[i])
    &&& match query.index {
        IndexFilter::LatestByAttribute => is_latest(query, records, i),
        IndexFilter::Range(low, high) => in_range(low, high, records[i].index),
        IndexFilter::Unfiltered => true,
    }
}

/// What the query keeps of the first `n` records, in their order.
pub open spec fn evaluate_first(query: Query, records: Seq<Eavi>, n: int) -> Seq<Eavi>
    decreases n,
{
    if n <= 0 {
        Seq::empty()
    } else if keeps(query, records, n - 1) {
        evaluate_first(query, records, n - 1).push(records[n - 1])
    } else {
        evaluate_first(query, records, n - 1)
    }
}

/// What the query answers on `records`: the records that it keeps, in their
/// order.
pub open spec fn evaluate(query: Query, records: Seq<Eavi>) -> Seq<Eavi> {
    evaluate_first(query, records, records.len() as int)
}

/// Each record comes strictly before those after it.
pub open spec fn is_ordered(records: Seq<Eavi>) -> bool {
    forall|i: int, j: int|
        0 <= i < j < records.len() ==> eavi_lt(#[trigger] records[i], #[trigger] records[j])
}

/// What the records of `records` say, one by one.
pub open spec fn views<A: Attribute>(records: Seq<EntityAttributeValueIndex<A>>) -> Seq<Eavi> {
    Seq::new(records.len(), |i: int| records[i]@)
}

proof fn lemma_evaluate_first_ordered(query: Query, records: Seq<Eavi>, n: int)
    requires
        is_ordered(records),
        0 <= n <= records.len(),
    ensures
        is_ordered(evaluate_first(query, records, n)),
        forall|i: int|
            0 <= i < evaluate_first(query, records, n).len() ==> exists|k: int|
                0 <= k < n && #[trigger] evaluate_first(query, records, n)[i] == records[k],
    decreases n,
{
    if n > 0 {
        lemma_evaluate_first_ordered(query, records, n - 1);
        let before = evaluate_first(query, records, n - 1);
        let now = evaluate_first(query, records, n);
        if keeps(query, records, n - 1) {
            assert forall|i: int| 0 <= i < now.len() implies exists|k: int|
                0 <= k < n && #[trigger] now[i] == records[k] by {
                if i < before.len() {
                    let k = choose|k: int| 0 <= k < n - 1 && before[i] == records[k];
                    assert(now[i] == records[k]);
                } else {
                    assert(now[i] == records[n - 1]);
                }
            }
            assert forall|i: int, j: int| 0 <= i < j < now.len() implies eavi_lt(
                #[trigger] now[i],
                #[trigger] now[j],
            ) by {
                if j < before.len() {
                    assert(eavi_lt(before[i], before[j]));
                } else {
                    let k = choose|k: int| 0 <= k < n - 1 && before[i] == records[k];
                    assert(eavi_lt(records[k], records[n - 1]));
                }
            }
        } else {
            assert forall|i: int| 0 <= i < now.len() implies exists|k: int|
                0 <= k < n && #[trigger] now[i] == records[k] by {
                let k = choose|k: int| 0 <= k < n - 1 && before[i] == records[k];
                assert(now[i] == records[k]);
            }
        }
    }
}

/// What a query answers on ordered records is ordered, and holds nothing
/// that was not among them.
pub proof fn lemma_evaluate_ordered(query: Query, records: Seq<Eavi>)
    requires
        is_ordered(records),
    ensures
        is_ordered(evaluate(query, records)),
        forall|i: int|
            0 <= i < evaluate(query, records).len() ==> records.contains(
                #[trigger] evaluate(query, records)[i],
            ),
{
    lemma_evaluate_first_ordered(query, records, records.len() as int);
    let answer = evaluate(query, records);
    assert forall|i: int| 0 <= i < answer.len() implies records.contains(#[trigger] answer[i]) by {
        let k = choose|k: int| 0 <= k < records.len() && answer[i] == records[k];
        assert(records[k] == answer[i]);
    }
}

/// Whether the two lists hold records that say the same, one by one.
pub fn same_records<A: Attribute>(
    left: &Vec<EntityAttributeValueIndex<A>>,
    right: &Vec<EntityAttributeValueIndex<A>>,
) -> (same: bool)
    ensures
        same == (views(left@) == views(right@)),
{
    if left.len() != right.len() {
        assert(views(left@).len() != views(right@).len());
        return false;
    }
    let mut i: usize = 0;
    while i < left.len()
        invariant
            i <= left@.len(),
            left@.len() == right@.len(),
            forall|j: int| 0 <= j < i ==> left@[j]@ == right@[j]@,
        decreases left@.len() - i,
    {
        if !left[i].same_as(&right[i]) {
            assert(views(left@)[i as int] != views(right@)[i as int]);
            return false;
        }
        i += 1;
    }
    assert(views(left@) =~= views(right@));
    true
}

/// A query over entity-attribute-value records.
pub struct EaviQuery<A: Attribute> {
    entity: Option<Entity>,
    attribute: Option<A>,
    value: Option<Value>,
    index: IndexFilter,
}

impl<A: Attribute> View for EaviQuery<A> {
    type V = Query;

    closed spec fn view(&self) -> Query {
        Query {
            entity: match self.entity {
                Some(entity) => Some(entity@),
                None => None,
            },
            attribute: match self.attribute {
                Some(attribute) => Some(attribute.text()),
                None => None,
            },
            value: match self.value {
                Some(value) => Some(value@),
                None => None,
            },
            index: self.index,
        }
    }
}

impl<A: Attribute> EaviQuery<A> {
    /// The query that asks for the given entity, attribute and value, each
    /// of which may be left open, and filters by `index`.
    pub fn new(
        entity: Option<Entity>,
        attribute: Option<A>,
        value: Option<Value>,
        index: IndexFilter,
    ) -> (query: Self)
        ensures
            query@ == (Query {
                entity: match entity {
                    Some(entity) => Some(entity@),
                    None => None,
                },
                attribute: match attribute {
                    Some(attribute) => Some(attribute.text()),
                    None => None,
                },
                value: match value {
                    Some(value) => Some(value@),
                    None => None,
                },
                index,
            }),
    {
        EaviQuery { entity, attribute, value, index }
    }

    /// The query that leaves entity, attribute and value open and keeps the
    /// last record of each attribute.
    pub fn default() -> (query: Self)
        ensures
            query@ == (Query {
                entity: None,
                attribute: None,
                value: None,
                index: IndexFilter::LatestByAttribute,
            }),
    {
        EaviQuery {
            entity: None,
            attribute: None,
            value: None,
            index: IndexFilter::LatestByAttribute,
        }
    }

    /// The query that keeps every record.
    pub fn all() -> (query: Self)
        ensures
            query@ == (Query {
                entity: None,
                attribute: None,
                value: None,
                index: IndexFilter::Unfiltered,
            }),
    {
        EaviQuery { entity: None, attribute: None, value: None, index: IndexFilter::Unfiltered }
    }

    /// The filter by index.
    pub fn index(&self) -> (index: IndexFilter)
        ensures
            index == self@.index,
    {
        self.index
    }

    /// Whether the record has the entity, the attribute and the value that
    /// the query asks for.
    pub fn selects(&self, record: &EntityAttributeValueIndex<A>) -> (selected: bool)
        ensures
            selected == selects(self@, record@),
    {
        if let Some(entity) = &self.entity {
            if !record.entity_ref().same_as(entity) {
                return false;
            }
        }
        if let Some(attribute) = &self.attribute {
            if !same_attribute(record.attribute_ref(), attribute) {
                return false;
            }
        }
        if let Some(value) = &self.value {
            if !record.value_ref().same_as(value) {
                return false;
            }
        }
        true
    }

    /// Whether no selected record after position `i` has the attribute of
    /// the record at position `i`.
    fn is_latest(&self, records: &Vec<EntityAttributeValueIndex<A>>, i: usize) -> (latest: bool)
        requires
            i < records@.len(),
        ensures
            latest == is_latest(self@, views(records@), i as int),
    {
        let n = records.len();
        let mut j: usize = i + 1;
        while j < n
            invariant
                n == records@.len(),
                i < j <= records@.len(),
                forall|k: int|
                    i < k < j && selects(self@, #[trigger] views(records@)[k]) ==> views(
                        records@,
                    )[k].attribute != views(records@)[i as int].attribute,
            decreases records@.len() - j,
        {
            assert(views(records@)[j as int] == records@[j as int]@);
            assert(views(records@)[i as int] == records@[i as int]@);
            if self.selects(&records[j]) && same_attribute(
                records[j].attribute_ref(),
                records[i].attribute_ref(),
            ) {
                return false;
            }
            j += 1;
        }
        true
    }

    /// Whether the query keeps the record at position `i` of `records`.
    fn keeps(&self, records: &Vec<EntityAttributeValueIndex<A>>, i: usize) -> (kept: bool)
        requires
            i < records@.len(),
        ensures
            kept == keeps(self@, views(records@), i as int),
    {
        assert(views(records@)[i as int] == records@[i as int]@);
        if !self.selects(&records[i]) {
            return false;
        }
        match self.index {
            IndexFilter::LatestByAttribute => self.is_latest(records, i),
            IndexFilter::Range(low, high) => {
                let index = records[i].index();
                let above = match low {
                    Some(bound) => bound <= index,
                    None => true,
                };
                let below = match high {
                    Some(bound) => index <= bound,
                    None => true,
                };
                above && below
            },
            IndexFilter::Unfiltered => true,
        }
    }

    /// Evaluates the query on `records`: copies of the records that it
    /// keeps, in the order in which they stand. Where it keeps the last
    /// record of each attribute, the last is the one that stands last in
    /// `records`, which is the latest where `records` are in their order.
    pub fn run(&self, records: &Vec<EntityAttributeValueIndex<A>>) -> (answer: Vec<
        EntityAttributeValueIndex<A>,
    >)
        ensures
            views(answer@) == evaluate(self@, views(records@)),
    {
        let mut answer: Vec<EntityAttributeValueIndex<A>> = Vec::new();
        let mut i: usize = 0;
        assert(views(answer@) =~= evaluate_first(self@, views(records@), 0));
        while i < records.len()
            invariant
                i <= records@.len(),
                views(answer@) == evaluate_first(self@, views(records@), i as int),
            decreases records@.len() - i,
        {
            if self.keeps(records, i) {
                let ghost before = answer@;
                let copy = records[i].clone();
                answer.push(copy);
                assert(views(answer@) =~= views(before).push(views(records@)[i as int]));
            }
            i += 1;
        }
        answer
    }
}

} // verus!
