//! Entity-attribute-value records: facts that relate one address to another
//! under a named attribute, each with an index that orders it among the rest.

use crate::attribute::{
    lemma_encode_utf8_injective, rank_text, same_attribute, text_lt, Attribute,
};
use crate::clock::IndexClock;
use crate::content::Address;
use crate::error::PersistenceError;
use crate::order::{
    bytes_lt, lemma_bytes_lt_asymmetric, lemma_bytes_lt_irreflexive, lemma_bytes_lt_total,
    lemma_bytes_lt_transitive, Rank,
};
use vstd::prelude::*;
use vstd::utf8::encode_utf8;

verus! {

/// The address that a record speaks of.
pub type Entity = Address;

/// The address that a record relates its entity to.
pub type Value = Address;

/// The number that orders a record among the others.
pub type Index = i64;

/// What a record says: the entity, the attribute in its string form, the
/// value, and the index.
pub struct Eavi {
    pub entity: Seq<u8>,
    pub attribute: Seq<char>,
    pub value: Seq<u8>,
    pub index: int,
}

/// `a` comes strictly before `b`: by index, and among records of one index by
/// entity, then attribute, then value.
pub open spec fn eavi_lt(a: Eavi, b: Eavi) -> bool {
    ||| a.index < b.index
    ||| a.index == b.index && bytes_lt(a.entity, b.entity)
    ||| a.index == b.index && a.entity == b.entity && text_lt(a.attribute, b.attribute)
    ||| a.index == b.index && a.entity == b.entity && a.attribute == b.attribute && bytes_lt(
        a.value,
        b.value,
    )
}

/// The bytes that a record takes in a store: those of its entity, of its
/// attribute in UTF-8 and of its value, and 33 more that frame them.
pub open spec fn eavi_size(record: Eavi) -> nat {
    33 + record.entity.len() + encode_utf8(record.attribute).len() + record.value.len()
}

/// The two records relate the same entity to the same value under the same
/// attribute, whatever their indices.
pub open spec fn same_triple(a: Eavi, b: Eavi) -> bool {
    a.entity == b.entity && a.attribute == b.attribute && a.value == b.value
}

/// No record comes before itself.
pub proof fn lemma_eavi_lt_irreflexive(a: Eavi)
    ensures
        !eavi_lt(a, a),
{
    lemma_bytes_lt_irreflexive(a.entity);
    lemma_bytes_lt_irreflexive(encode_utf8(a.attribute));
    lemma_bytes_lt_irreflexive(a.value);
}

/// Two records are never each before the other.
pub proof fn lemma_eavi_lt_asymmetric(a: Eavi, b: Eavi)
    requires
        eavi_lt(a, b),
    ensures
        !eavi_lt(b, a),
{
    lemma_eavi_lt_irreflexive(a);
    if bytes_lt(a.entity, b.entity) {
        lemma_bytes_lt_asymmetric(a.entity, b.entity);
    }
    if bytes_lt(b.entity, a.entity) {
        lemma_bytes_lt_asymmetric(b.entity, a.entity);
    }
    if text_lt(a.attribute, b.attribute) {
        lemma_bytes_lt_asymmetric(encode_utf8(a.attribute), encode_utf8(b.attribute));
    }
    if text_lt(b.attribute, a.attribute) {
        lemma_bytes_lt_asymmetric(encode_utf8(b.attribute), encode_utf8(a.attribute));
    }
    if bytes_lt(a.value, b.value) {
        lemma_bytes_lt_asymmetric(a.value, b.value);
    }
    lemma_bytes_lt_irreflexive(a.entity);
    lemma_bytes_lt_irreflexive(encode_utf8(a.attribute));
}

/// The order of records is transitive.
pub proof fn lemma_eavi_lt_transitive(a: Eavi, b: Eavi, c: Eavi)
    requires
        eavi_lt(a, b),
        eavi_lt(b, c),
    ensures
        eavi_lt(a, c),
{
    if a.index == b.index && b.index == c.index {
        if bytes_lt(a.entity, b.entity) && bytes_lt(b.entity, c.entity) {
            lemma_bytes_lt_transitive(a.entity, b.entity, c.entity);
        }
        if a.entity == b.entity && b.entity == c.entity {
            if text_lt(a.attribute, b.attribute) && text_lt(b.attribute, c.attribute) {
                lemma_bytes_lt_transitive(
                    encode_utf8(a.attribute),
                    encode_utf8(b.attribute),
                    encode_utf8(c.attribute),
                );
            }
            if a.attribute == b.attribute && b.attribute == c.attribute {
                lemma_bytes_lt_transitive(a.value, b.value, c.value);
            }
        }
    }
}

/// Any two records are equal or one comes before the other.
pub proof fn lemma_eavi_lt_total(a: Eavi, b: Eavi)
    ensures
        eavi_lt(a, b) || a == b || eavi_lt(b, a),
{
    lemma_bytes_lt_total(a.entity, b.entity);
    lemma_bytes_lt_total(encode_utf8(a.attribute), encode_utf8(b.attribute));
    lemma_bytes_lt_total(a.value, b.value);
    if encode_utf8(a.attribute) == encode_utf8(b.attribute) {
        lemma_encode_utf8_injective(a.attribute, b.attribute);
    }
}

/// One entity-attribute-value record with its index.
#[derive(Debug, PartialEq, Eq, Hash)]
pub struct EntityAttributeValueIndex<A: Attribute> {
    entity: Entity,
    attribute: A,
    value: Value,
    index: Index,
}

impl<A: Attribute> View for EntityAttributeValueIndex<A> {
    type V = Eavi;

    closed spec fn view(&self) -> Eavi {
        Eavi {
            entity: self.entity@,
            attribute: self.attribute.text(),
            value: self.value@,
            index: self.index as int,
        }
    }
}

impl<A: Attribute> Clone for EntityAttributeValueIndex<A> {
    fn clone(&self) -> (copy: Self)
        ensures
            copy@ == self@,
    {
        EntityAttributeValueIndex {
            entity: self.entity.clone(),
            attribute: self.attribute.duplicate(),
            value: self.value.clone(),
            index: self.index,
        }
    }
}

impl<A: Attribute> EntityAttributeValueIndex<A> {
    /// The record that relates `entity` to `value` under `attribute`, with
    /// the index `index`.
    pub fn with_index(entity: &Entity, attribute: &A, value: &Value, index: Index) -> (record:
        Self)
        ensures
            record@ == (Eavi {
                entity: entity@,
                attribute: attribute.text(),
                value: value@,
                index: index as int,
            }),
    {
        EntityAttributeValueIndex {
            entity: entity.clone(),
            attribute: attribute.duplicate(),
            value: value.clone(),
            index,
        }
    }

    /// The record that relates `entity` to `value` under `attribute`, with
    /// the reading `now` of a clock as its index. It fails, with `Internal`,
    /// exactly where the clock gave no reading.
    pub fn new_at(entity: &Entity, attribute: &A, value: &Value, now: Option<i64>) -> (result:
        Result<Self, PersistenceError>)
        ensures
            match now {
                Some(index) => result matches Ok(record) && record@ == (Eavi {
                    entity: entity@,
                    attribute: attribute.text(),
                    value: value@,
                    index: index as int,
                }),
                None => result matches Err(PersistenceError::Internal),
            },
    {
        match now {
            Some(index) => Ok(Self::with_index(entity, attribute, value, index)),
            None => Err(PersistenceError::Internal),
        }
    }

    /// The record that relates `entity` to `value` under `attribute`, with
    /// the next index of `clock` as its index: the time of the wall clock in
    /// nanoseconds since 1970, or, where the wall clock stood still or was
    /// set back, the number after the last index. So the index is greater
    /// than every index that `clock` handed out before.
    ///
    /// It fails, with `Internal` and with the clock as it was, where the
    /// clock has no index to give.
    pub fn new(
        clock: &mut IndexClock,
        entity: &Entity,
        attribute: &A,
        value: &Value,
    ) -> (result: Result<Self, PersistenceError>)
        ensures
            result matches Ok(record) ==> record@.entity == entity@ && record@.attribute
                == attribute.text() && record@.value == value@ && final(clock).last() == Some(
                record@.index,
            ) && (old(clock).last() matches Some(before) ==> before < record@.index),
            result matches Err(error) ==> error == PersistenceError::Internal
                && final(clock).last() == old(clock).last(),
    {
        let now = clock.stamp();
        Self::new_at(entity, attribute, value, now)
    }

    /// The record made of the four parts.
    pub fn from_parts(entity: Entity, attribute: A, value: Value, index: Index) -> (record: Self)
        ensures
            record@ == (Eavi {
                entity: entity@,
                attribute: attribute.text(),
                value: value@,
                index: index as int,
            }),
    {
        EntityAttributeValueIndex { entity, attribute, value, index }
    }

    /// The record that relates `entity` to `value` under `attribute`, with
    /// the index `timestamp`. It never fails.
    pub fn new_with_index(entity: &Entity, attribute: &A, value: &Value, timestamp: i64) -> (result:
        Result<Self, PersistenceError>)
        ensures
            result matches Ok(record) && record@ == (Eavi {
                entity: entity@,
                attribute: attribute.text(),
                value: value@,
                index: timestamp as int,
            }),
    {
        Ok(Self::with_index(entity, attribute, value, timestamp))
    }

    /// The entity of the record.
    pub fn entity(&self) -> (entity: Entity)
        ensures
            entity@ == self@.entity,
    {
        self.entity.clone()
    }

    /// The attribute of the record.
    pub fn attribute(&self) -> (attribute: A)
        ensures
            attribute.text() == self@.attribute,
    {
        self.attribute.duplicate()
    }

    /// The value of the record.
    pub fn value(&self) -> (value: Value)
        ensures
            value@ == self@.value,
    {
        self.value.clone()
    }

    /// The entity of the record, on loan.
    pub fn entity_ref(&self) -> (entity: &Entity)
        ensures
            entity@ == self@.entity,
    {
        &self.entity
    }

    /// The attribute of the record, on loan.
    pub fn attribute_ref(&self) -> (attribute: &A)
        ensures
            attribute.text() == self@.attribute,
    {
        &self.attribute
    }

    /// The value of the record, on loan.
    pub fn value_ref(&self) -> (value: &Value)
        ensures
            value@ == self@.value,
    {
        &self.value
    }

    /// The index of the record.
    pub fn index(&self) -> (index: Index)
        ensures
            index == self@.index,
    {
        self.index
    }

    /// Gives the record another index and leaves the rest as it is.
    pub fn set_index(&mut self, new_index: i64)
        ensures
            final(self)@ == (Eavi { index: new_index as int, ..old(self)@ }),
    {
        self.index = new_index
    }

    /// Where this record stands relative to `other` in the order of records.
    pub fn rank(&self, other: &Self) -> (rank: Rank)
        ensures
            rank == Rank::Before <==> eavi_lt(self@, other@),
            rank == Rank::Same <==> self@ == other@,
            rank == Rank::After <==> eavi_lt(other@, self@),
    {
        proof {
            lemma_eavi_lt_irreflexive(self@);
            if eavi_lt(self@, other@) {
                lemma_eavi_lt_asymmetric(self@, other@);
            }
            if eavi_lt(other@, self@) {
                lemma_eavi_lt_asymmetric(other@, self@);
            }
        }
        if self.index < other.index {
            return Rank::Before;
        }
        if self.index > other.index {
            return Rank::After;
        }
        let by_entity = self.entity.rank(&other.entity);
        if by_entity != Rank::Same {
            return by_entity;
        }
        let mine = self.attribute.to_text();
        let theirs = other.attribute.to_text();
        let by_attribute = rank_text(mine.as_str(), theirs.as_str());
        if by_attribute != Rank::Same {
            return by_attribute;
        }
        self.value.rank(&other.value)
    }

    /// Whether the two records relate the same entity to the same value
    /// under the same attribute.
    pub fn same_triple(&self, other: &Self) -> (same: bool)
        ensures
            same == same_triple(self@, other@),
    {
        self.entity.same_as(&other.entity) && self.value.same_as(&other.value) && same_attribute(
            &self.attribute,
            &other.attribute,
        )
    }

    /// The bytes that the record takes in a store, or `None` where the
    /// machine cannot count them.
    pub fn size(&self) -> (size: Option<usize>)
        ensures
            match size {
                Some(bytes) => bytes == eavi_size(self@),
                None => eavi_size(self@) > usize::MAX,
            },
    {
        let text = self.attribute.to_text();
        let framed: usize = 33;
        match framed.checked_add(self.entity.len()) {
            Some(with_entity) => match with_entity.checked_add(text.as_str().as_bytes().len()) {
                Some(with_attribute) => with_attribute.checked_add(self.value.len()),
                None => None,
            },
            None => None,
        }
    }

    /// The index of a record is a 64-bit number.
    pub proof fn lemma_index_bounds(&self)
        ensures
            i64::MIN <= self@.index <= i64::MAX,
    {
    }

    /// The attribute of the record is read back from its string form.
    pub proof fn lemma_attribute_lossless(&self)
        ensures
            A::parsed(self@.attribute) == Some(self@.attribute),
    {
        self.attribute.lemma_lossless();
    }

    /// Whether the two records say the same and have the same index.
    pub fn same_as(&self, other: &Self) -> (same: bool)
        ensures
            same == (self@ == other@),
    {
        self.rank(other) == Rank::Same
    }
}

} // verus!
