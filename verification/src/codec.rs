//! The bytes that stand for an entity-attribute-value record.
//!
//! A record is written as a tag byte, the index in eight bytes, and then the
//! entity, the attribute in UTF-8 and the value, each after its length in
//! eight bytes. Numbers are written with the least significant byte first.

use crate::attribute::Attribute;
use crate::content::{Address, AddressableContent, Content};
use crate::eavi::{eavi_size, Eavi, EntityAttributeValueIndex};
use crate::error::PersistenceError;
use crate::text::string_from_utf8;
use vstd::bytes::{
    lemma_auto_spec_u64_to_from_le_bytes, spec_u64_from_le_bytes, spec_u64_to_le_bytes,
    u64_from_le_bytes, u64_to_le_bytes,
};
use vstd::prelude::*;
use vstd::slice::{slice_subrange, slice_to_vec};
use vstd::utf8::{
    decode_utf8, decode_utf8_encode_utf8, encode_utf8, encode_utf8_decode_utf8,
    encode_utf8_valid_utf8, valid_utf8,
};

verus! {

/// The byte that every encoded record begins with.
pub const RECORD_TAG: u8 = 1;

/// `payload` after its length in eight bytes.
pub open spec fn framed(payload: Seq<u8>) -> Seq<u8> {
    spec_u64_to_le_bytes(payload.len() as u64) + payload
}

/// The four parts of an encoded record, the attribute still in bytes.
pub struct RawRecord {
    pub index: i64,
    pub entity: Seq<u8>,
    pub attribute: Seq<u8>,
    pub value: Seq<u8>,
}

/// The bytes that stand for the four parts.
pub open spec fn encode_raw(raw: RawRecord) -> Seq<u8> {
    seq![RECORD_TAG] + spec_u64_to_le_bytes(raw.index as u64) + framed(raw.entity) + framed(
        raw.attribute,
    ) + framed(raw.value)
}

/// The payload that is framed at position `at` of `bytes`, and the position
/// behind it; `None` where no whole frame stands there.
pub open spec fn read_frame(bytes: Seq<u8>, at: int) -> Option<(Seq<u8>, int)> {
    if 0 <= at && at + 8 <= bytes.len() {
        let length = spec_u64_from_le_bytes(bytes.subrange(at, at + 8)) as int;
        if at + 8 + length <= bytes.len() {
            Some((bytes.subrange(at + 8, at + 8 + length), at + 8 + length))
        } else {
            None
        }
    } else {
        None
    }
}

/// The four parts that `bytes` stand for; `None` where `bytes` are not a
/// tag, an index and three frames, with nothing behind them.
pub open spec fn decode_raw(bytes: Seq<u8>) -> Option<RawRecord> {
    if bytes.len() >= 9 && bytes[0] == RECORD_TAG {
        let index = spec_u64_from_le_bytes(bytes.subrange(1, 9)) as i64;
        match read_frame(bytes, 9) {
            Some((entity, after_entity)) => match read_frame(bytes, after_entity) {
                Some((attribute, after_attribute)) => match read_frame(bytes, after_attribute) {
                    Some((value, end)) => if end == bytes.len() {
                        Some(RawRecord { index, entity, attribute, value })
                    } else {
                        None
                    },
                    None => None,
                },
                None => None,
            },
            None => None,
        }
    } else {
        None
    }
}

/// The parts of a record can be written: the index is a 64-bit number and
/// each length can be written in eight bytes.
pub open spec fn encodable(record: Eavi) -> bool {
    &&& i64::MIN <= record.index <= i64::MAX
    &&& record.entity.len() <= u64::MAX
    &&& encode_utf8(record.attribute).len() <= u64::MAX
    &&& record.value.len() <= u64::MAX
}

/// The bytes that stand for a record.
pub open spec fn encode_eavi(record: Eavi) -> Seq<u8> {
    encode_raw(
        RawRecord {
            index: record.index as i64,
            entity: record.entity,
            attribute: encode_utf8(record.attribute),
            value: record.value,
        },
    )
}

/// The record with attributes of type `A` that `bytes` stand for; `None`
/// where they stand for none: where they are not framed as a record, where
/// the attribute is not UTF-8, or where it is not the string form of an
/// attribute.
pub open spec fn decode_eavi<A: Attribute>(bytes: Seq<u8>) -> Option<Eavi> {
    match decode_raw(bytes) {
        Some(raw) => if valid_utf8(raw.attribute) && A::parsed(decode_utf8(raw.attribute)) == Some(
            decode_utf8(raw.attribute),
        ) {
            Some(
                Eavi {
                    entity: raw.entity,
                    attribute: decode_utf8(raw.attribute),
                    value: raw.value,
                    index: raw.index as int,
                },
            )
        } else {
            None
        },
        None => None,
    }
}

proof fn lemma_index_round_trip(index: i64, word: u64)
    ensures
        (index as u64) as i64 == index,
        (word as i64) as u64 == word,
{
    assert((index as u64) as i64 == index) by (bit_vector);
    assert((word as i64) as u64 == word) by (bit_vector);
}

proof fn lemma_read_framed(bytes: Seq<u8>, at: int, payload: Seq<u8>)
    requires
        0 <= at,
        payload.len() <= u64::MAX,
        at + 8 + payload.len() <= bytes.len(),
        bytes.subrange(at, at + 8 + payload.len()) == framed(payload),
    ensures
        read_frame(bytes, at) == Some((payload, at + 8 + payload.len())),
{
    lemma_auto_spec_u64_to_from_le_bytes();
    let frame = framed(payload);
    assert(bytes.subrange(at, at + 8) =~= spec_u64_to_le_bytes(payload.len() as u64)) by {
        assert forall|i: int| 0 <= i < 8 implies #[trigger] bytes.subrange(at, at + 8)[i]
            == spec_u64_to_le_bytes(payload.len() as u64)[i] by {
            assert(bytes.subrange(at, at + 8 + payload.len())[i] == frame[i]);
        }
    }
    assert(bytes.subrange(at + 8, at + 8 + payload.len()) =~= payload) by {
        assert forall|i: int| 0 <= i < payload.len() implies #[trigger] bytes.subrange(
            at + 8,
            at + 8 + payload.len(),
        )[i] == payload[i] by {
            assert(bytes.subrange(at, at + 8 + payload.len())[i + 8] == frame[i + 8]);
        }
    }
}

/// What was written is read back part by part.
pub proof fn lemma_decode_raw_of_encode_raw(raw: RawRecord)
    requires
        raw.entity.len() <= u64::MAX,
        raw.attribute.len() <= u64::MAX,
        raw.value.len() <= u64::MAX,
    ensures
        decode_raw(encode_raw(raw)) == Some(raw),
        encode_raw(raw).len() == 33 + raw.entity.len() + raw.attribute.len() + raw.value.len(),
{
    lemma_auto_spec_u64_to_from_le_bytes();
    lemma_index_round_trip(raw.index, 0);
    let bytes = encode_raw(raw);
    let head = seq![RECORD_TAG] + spec_u64_to_le_bytes(raw.index as u64);
    assert(bytes.subrange(1, 9) =~= spec_u64_to_le_bytes(raw.index as u64));
    let after_entity = 9 + 8 + raw.entity.len();
    let after_attribute = after_entity + 8 + raw.attribute.len();
    assert(bytes.subrange(9, after_entity as int) =~= framed(raw.entity));
    lemma_read_framed(bytes, 9, raw.entity);
    assert(bytes.subrange(after_entity as int, after_attribute as int) =~= framed(raw.attribute));
    lemma_read_framed(bytes, after_entity as int, raw.attribute);
    assert(bytes.subrange(after_attribute as int, bytes.len() as int) =~= framed(raw.value));
    lemma_read_framed(bytes, after_attribute as int, raw.value);
}

/// What was read, written again, gives the bytes it was read from.
pub proof fn lemma_encode_raw_of_decode_raw(bytes: Seq<u8>)
    requires
        decode_raw(bytes) is Some,
    ensures
        encode_raw(decode_raw(bytes)->Some_0) == bytes,
{
    lemma_auto_spec_u64_to_from_le_bytes();
    let raw = decode_raw(bytes)->Some_0;
    let word = spec_u64_from_le_bytes(bytes.subrange(1, 9));
    lemma_index_round_trip(0, word);
    let (entity, after_entity) = read_frame(bytes, 9)->Some_0;
    let (attribute, after_attribute) = read_frame(bytes, after_entity)->Some_0;
    let (value, end) = read_frame(bytes, after_attribute)->Some_0;
    assert(framed(entity) =~= bytes.subrange(9, after_entity));
    assert(framed(attribute) =~= bytes.subrange(after_entity, after_attribute));
    assert(framed(value) =~= bytes.subrange(after_attribute, end));
    assert(encode_raw(raw) =~= bytes);
}

/// Encoding a record and decoding the bytes gives the record back.
pub proof fn lemma_decode_of_encode<A: Attribute>(record: EntityAttributeValueIndex<A>)
    requires
        encodable(record@),
    ensures
        decode_eavi::<A>(encode_eavi(record@)) == Some(record@),
        encode_eavi(record@).len() == eavi_size(record@),
{
    let said = record@;
    let raw = RawRecord {
        index: said.index as i64,
        entity: said.entity,
        attribute: encode_utf8(said.attribute),
        value: said.value,
    };
    lemma_decode_raw_of_encode_raw(raw);
    encode_utf8_valid_utf8(said.attribute);
    encode_utf8_decode_utf8(said.attribute);
    record.lemma_attribute_lossless();
}

fn append_bytes(out: &mut Vec<u8>, bytes: &[u8])
    ensures
        final(out)@ == old(out)@ + bytes@,
{
    out.extend_from_slice(bytes);
    assert(out@ =~= old(out)@ + bytes@);
}

fn append_framed(out: &mut Vec<u8>, payload: &[u8])
    ensures
        final(out)@ == old(out)@ + framed(payload@),
        payload@.len() <= usize::MAX,
{
    let length = u64_to_le_bytes(payload.len() as u64);
    append_bytes(out, length.as_slice());
    append_bytes(out, payload);
    assert(out@ =~= old(out)@ + framed(payload@));
}

/// The number that the eight bytes of an index stand for.
fn index_of_word(word: u64) -> (index: i64)
    ensures
        index == word as i64,
{
    if word <= 0x7fff_ffff_ffff_ffff {
        assert(word as i64 == word) by (bit_vector)
            requires
                word <= 0x7fff_ffff_ffff_ffff,
        ;
        word as i64
    } else {
        let below = u64::MAX - word;
        assert(word as i64 == -(below as int) - 1) by (bit_vector)
            requires
                word > 0x7fff_ffff_ffff_ffff,
                below == 0xffff_ffff_ffff_ffff - word,
        ;
        -(below as i64) - 1
    }
}

/// The eight bytes of an index, read as a number.
fn word_of_index(index: i64) -> (word: u64)
    ensures
        word == index as u64,
{
    if index >= 0 {
        assert(index as u64 == index) by (bit_vector)
            requires
                index >= 0,
        ;
        index as u64
    } else {
        let below = (-(index + 1)) as u64;
        assert(index as u64 == 0xffff_ffff_ffff_ffff - below) by (bit_vector)
            requires
                index < 0,
                below == (-(index + 1)) as u64,
        ;
        u64::MAX - below
    }
}

/// Writes a record as bytes.
pub fn encode<A: Attribute>(record: &EntityAttributeValueIndex<A>) -> (bytes: Vec<u8>)
    ensures
        bytes@ == encode_eavi(record@),
        bytes@.len() == eavi_size(record@),
        decode_eavi::<A>(bytes@) == Some(record@),
{
    let text = record.attribute_ref().to_text();
    let mut out: Vec<u8> = Vec::new();
    out.push(RECORD_TAG);
    let index = u64_to_le_bytes(word_of_index(record.index()));
    append_bytes(&mut out, index.as_slice());
    append_framed(&mut out, record.entity_ref().as_bytes());
    append_framed(&mut out, text.as_str().as_bytes());
    append_framed(&mut out, record.value_ref().as_bytes());
    proof {
        assert(out@ =~= encode_eavi(record@));
        record.lemma_index_bounds();
        lemma_decode_of_encode(*record);
    }
    out
}

/// Reads the frame at position `at` of `bytes`: where its payload begins and
/// where it ends.
fn take_frame(bytes: &[u8], at: usize) -> (frame: Option<(usize, usize)>)
    requires
        at <= bytes@.len(),
    ensures
        match read_frame(bytes@, at as int) {
            Some((payload, end)) => frame matches Some((from, to)) && from == at + 8 && to == end
                && to <= bytes@.len() && payload == bytes@.subrange(from as int, to as int),
            None => frame is None,
        },
{
    let total = bytes.len();
    if total - at < 8 {
        return None;
    }
    let length = u64_from_le_bytes(slice_subrange(bytes, at, at + 8));
    let from = at + 8;
    if length > (total - from) as u64 {
        return None;
    }
    Some((from, from + length as usize))
}

/// Reads a record from bytes.
///
/// It succeeds exactly on the bytes of a record. Bytes that are not framed
/// as a record, or whose attribute is not UTF-8, are refused as
/// `Corruption`; an attribute that is not the string form of an attribute of
/// type `A` is refused as `InvalidArgument`.
pub fn decode<A: Attribute>(bytes: &[u8]) -> (result: Result<
    EntityAttributeValueIndex<A>,
    PersistenceError,
>)
    ensures
        match decode_eavi::<A>(bytes@) {
            Some(record) => result matches Ok(value) && value@ == record,
            None => result is Err,
        },
        result matches Ok(value) ==> encode_eavi(value@) == bytes@,
        result matches Err(error) ==> error == (if decode_raw(bytes@) is Some && valid_utf8(
            decode_raw(bytes@)->Some_0.attribute,
        ) {
            PersistenceError::InvalidArgument
        } else {
            PersistenceError::Corruption
        }),
{
    if bytes.len() < 9 || bytes[0] != RECORD_TAG {
        return Err(PersistenceError::Corruption);
    }
    let index = index_of_word(u64_from_le_bytes(slice_subrange(bytes, 1, 9)));
    let (entity_from, entity_to) = match take_frame(bytes, 9) {
        Some(frame) => frame,
        None => {
            return Err(PersistenceError::Corruption);
        },
    };
    let (attribute_from, attribute_to) = match take_frame(bytes, entity_to) {
        Some(frame) => frame,
        None => {
            return Err(PersistenceError::Corruption);
        },
    };
    let (value_from, value_to) = match take_frame(bytes, attribute_to) {
        Some(frame) => frame,
        None => {
            return Err(PersistenceError::Corruption);
        },
    };
    if value_to != bytes.len() {
        return Err(PersistenceError::Corruption);
    }
    let attribute_bytes = slice_to_vec(slice_subrange(bytes, attribute_from, attribute_to));
    let text = match string_from_utf8(attribute_bytes) {
        Some(text) => text,
        None => {
            return Err(PersistenceError::Corruption);
        },
    };
    let attribute = match A::try_from_string(text.clone()) {
        Ok(attribute) => attribute,
        Err(_) => {
            return Err(PersistenceError::InvalidArgument);
        },
    };
    if attribute.to_text() != text {
        return Err(PersistenceError::InvalidArgument);
    }
    let entity = Address::new(slice_to_vec(slice_subrange(bytes, entity_from, entity_to)));
    let value = Address::new(slice_to_vec(slice_subrange(bytes, value_from, value_to)));
    proof {
        lemma_encode_raw_of_decode_raw(bytes@);
        decode_utf8_encode_utf8(decode_raw(bytes@)->Some_0.attribute);
        lemma_index_round_trip(index, 0);
    }
    Ok(EntityAttributeValueIndex::from_parts(entity, attribute, value, index))
}

impl<A: Attribute> AddressableContent for EntityAttributeValueIndex<A> {
    /// A record is stored under its own bytes, which no other record has.
    open spec fn address_spec(&self) -> Seq<u8> {
        encode_eavi(self@)
    }

    open spec fn content_spec(&self) -> Seq<u8> {
        encode_eavi(self@)
    }

    open spec fn decodable(content: Seq<u8>) -> bool {
        decode_eavi::<A>(content) is Some
    }

    proof fn lemma_content_decodable(&self) {
        let said = self@;
        let raw = RawRecord {
            index: said.index as i64,
            entity: said.entity,
            attribute: encode_utf8(said.attribute),
            value: said.value,
        };
        lemma_auto_spec_u64_to_from_le_bytes();
        assert(encode_raw(raw).len() == 33 + raw.entity.len() + raw.attribute.len()
            + raw.value.len());
        self.lemma_index_bounds();
        lemma_decode_of_encode(*self);
    }

    fn address(&self) -> (address: Address) {
        Address::new(encode(self))
    }

    fn content(&self) -> (content: Content) {
        Content::new(encode(self))
    }

    /// Reads a record from its content, as `decode` does.
    fn try_from_content(content: &Content) -> (result: Result<Self, PersistenceError>)
        ensures
            result matches Ok(value) ==> decode_eavi::<A>(content@) == Some(value@),
            result matches Err(error) ==> error == (if decode_raw(content@) is Some && valid_utf8(
                decode_raw(content@)->Some_0.attribute,
            ) {
                PersistenceError::InvalidArgument
            } else {
                PersistenceError::Corruption
            }),
    {
        decode(content.as_bytes())
    }
}

} // verus!
