//! Transactions over a content-addressable store and storage of
//! entity-attribute-value records: writers, cursors, and what hands cursors
//! out.

use crate::attribute::Attribute;
use crate::cas::ContentAddressableStorage;
use crate::content::{Address, AddressableContent, Content};
use crate::eav::EntityAttributeValueStorage;
use crate::eavi::{Eavi, EntityAttributeValueIndex};
use crate::error::PersistenceError;
use crate::query::EaviQuery;
use crate::reporting::{ReportStorage, StorageReport};
use std::marker::PhantomData;
use vstd::prelude::*;

verus! {

/// A transactional writer: what it holds reaches the primary `P` when it
/// commits, and never if it is dropped instead.
pub trait Writer<P>: Sized {
    /// Whether a commit of the writer that ends in `result` may take the
    /// primary from `before` to `after`.
    spec fn commits(self, before: P, after: P, result: Result<(), PersistenceError>) -> bool;

    /// Commits the transaction into `primary`.
    fn commit(self, primary: &mut P) -> (result: Result<(), PersistenceError>)
        ensures
            self.commits(*old(primary), *final(primary), result),
    ;
}

/// A cursor over a content-addressable store and storage of records, with a
/// writer across both.
pub trait Cursor<A: Attribute, P>: Writer<P> {

}

/// What hands out cursors over the primary `P`.
pub trait CursorProvider<A: Attribute, P> {
    /// The cursors that are handed out.
    type Cursor: Cursor<A, P>;

    /// Whether `cursor` may be a new cursor from this provider.
    spec fn hands_out(&self, cursor: Self::Cursor) -> bool;

    /// Makes a new cursor.
    fn create_cursor(&self) -> (result: Result<Self::Cursor, PersistenceError>)
        ensures
            result matches Ok(cursor) ==> self.hands_out(cursor),
    ;
}

/// A content-addressable store, storage of records, and cursors over both.
pub trait PersistenceManager<A: Attribute>: CursorProvider<A, Self> + Sized {
    /// The content-addressable store.
    type Cas: ContentAddressableStorage;

    /// The storage of records.
    type Eav: EntityAttributeValueStorage<A>;

    /// The primary content-addressable store.
    spec fn primary_cas(&self) -> Self::Cas;

    /// The primary storage of records.
    spec fn primary_eav(&self) -> Self::Eav;

    /// The content-addressable store, for access that bypasses cursors.
    fn cas(&self) -> (cas: &Self::Cas)
        ensures
            *cas == self.primary_cas(),
    ;

    /// The storage of records, for access that bypasses cursors.
    fn eav(&self) -> (eav: &Self::Eav)
        ensures
            *eav == self.primary_eav(),
    ;
}

/// A writer that has nothing to write.
#[derive(Clone, Copy, Debug, PartialEq, Eq, Structural)]
pub struct NoopWriter;

impl NoopWriter {
    /// The writer that has nothing to write.
    pub fn new() -> (writer: Self)
        ensures
            writer == NoopWriter,
    {
        NoopWriter
    }
}

impl<P> Writer<P> for NoopWriter {
    open spec fn commits(self, before: P, after: P, result: Result<(), PersistenceError>) -> bool {
        result is Ok && after == before
    }

    /// Succeeds and leaves the primary as it is.
    fn commit(self, primary: &mut P) -> (result: Result<(), PersistenceError>) {
        Ok(())
    }
}

/// A cursor without transactions: what is written through it is written to
/// its stores at once, and its commit has nothing left to do.
pub struct NonTransactionalCursor<
    A: Attribute,
    CAS: ContentAddressableStorage,
    EAV: EntityAttributeValueStorage<A>,
> {
    /// The content-addressable store that the cursor writes to.
    pub cas: CAS,
    /// The storage of records that the cursor writes to.
    pub eav: EAV,
    /// The attributes of the records, which no field holds.
    pub phantom: PhantomData<A>,
}

impl<
    A: Attribute,
    CAS: ContentAddressableStorage,
    EAV: EntityAttributeValueStorage<A>,
> NonTransactionalCursor<A, CAS, EAV> {
    /// The cursor that writes to `cas` and `eav`.
    pub fn new(cas: CAS, eav: EAV) -> (cursor: Self)
        ensures
            cursor.cas == cas,
            cursor.eav == eav,
    {
        NonTransactionalCursor { cas, eav, phantom: PhantomData }
    }
}

impl<
    A: Attribute,
    CAS: ContentAddressableStorage + Clone,
    EAV: EntityAttributeValueStorage<A> + Clone,
> Clone for NonTransactionalCursor<A, CAS, EAV> {
    /// A cursor over copies of the two stores.
    fn clone(&self) -> (copy: Self)
        ensures
            cloned::<CAS>(self.cas, copy.cas),
            cloned::<EAV>(self.eav, copy.eav),
    {
        NonTransactionalCursor {
            cas: self.cas.clone(),
            eav: self.eav.clone(),
            phantom: PhantomData,
        }
    }
}

impl<
    A: Attribute,
    CAS: ContentAddressableStorage,
    EAV: EntityAttributeValueStorage<A>,
> ContentAddressableStorage for NonTransactionalCursor<A, CAS, EAV> {
    open spec fn contents(&self) -> Map<Seq<u8>, Seq<u8>> {
        self.cas.contents()
    }

    open spec fn identity(&self) -> u128 {
        self.cas.identity()
    }

    /// The write does to the content-addressable store of the cursor, and
    /// ends, as a write to that store does; the storage of records is not
    /// touched.
    open spec fn adds(
        &self,
        after: &Self,
        address: Seq<u8>,
        content: Seq<u8>,
        result: Result<(), PersistenceError>,
    ) -> bool {
        &&& self.cas.adds(&after.cas, address, content, result)
        &&& after.eav == self.eav
    }

    /// Writes the content of `content` to the content-addressable store of
    /// the cursor, at once and as that store does.
    fn add<C: AddressableContent>(&mut self, content: &C) -> (result: Result<
        (),
        PersistenceError,
    >)
        ensures
            old(self).cas.adds(
                &final(self).cas,
                content.address_spec(),
                content.content_spec(),
                result,
            ),
            final(self).eav == old(self).eav,
    {
        self.cas.add(content)
    }

    /// What the content-addressable store of the cursor answers when it is
    /// asked for the content under `address`.
    fn fetch(&self, address: &Address) -> (result: Result<Option<Content>, PersistenceError>)
        ensures
            call_ensures(CAS::fetch, (&self.cas, address), result),
    {
        self.cas.fetch(address)
    }

    /// What the content-addressable store of the cursor answers when it is
    /// asked whether there is content under `address`.
    fn contains(&self, address: &Address) -> (result: Result<bool, PersistenceError>)
        ensures
            call_ensures(CAS::contains, (&self.cas, address), result),
    {
        self.cas.contains(address)
    }

    /// The identity of the content-addressable store.
    fn get_id(&self) -> (id: u128) {
        self.cas.get_id()
    }
}

impl<
    A: Attribute,
    CAS: ContentAddressableStorage,
    EAV: EntityAttributeValueStorage<A>,
> EntityAttributeValueStorage<A> for NonTransactionalCursor<A, CAS, EAV> {
    open spec fn records(&self) -> Seq<Eavi> {
        self.eav.records()
    }

    /// The record is put among the records of the storage of the cursor,
    /// and the call ends, as with that storage; the content-addressable
    /// store is not touched.
    open spec fn adds_eavi(
        &self,
        after: &Self,
        record: Eavi,
        result: Result<Option<EntityAttributeValueIndex<A>>, PersistenceError>,
    ) -> bool {
        &&& self.eav.adds_eavi(&after.eav, record, result)
        &&& after.cas == self.cas
    }

    /// Puts `eavi` among the records of the storage of the cursor, at once
    /// and as that storage does.
    fn add_eavi(&mut self, eavi: &EntityAttributeValueIndex<A>) -> (result: Result<
        Option<EntityAttributeValueIndex<A>>,
        PersistenceError,
    >)
        ensures
            old(self).eav.adds_eavi(&final(self).eav, eavi@, result),
            final(self).cas == old(self).cas,
    {
        self.eav.add_eavi(eavi)
    }

    /// What the storage of records of the cursor answers to `query`.
    fn fetch_eavi(&self, query: &EaviQuery<A>) -> (result: Result<
        Vec<EntityAttributeValueIndex<A>>,
        PersistenceError,
    >)
        ensures
            call_ensures(EAV::fetch_eavi, (&self.eav, query), result),
    {
        self.eav.fetch_eavi(query)
    }
}

impl<
    A: Attribute,
    CAS: ContentAddressableStorage + ReportStorage,
    EAV: EntityAttributeValueStorage<A>,
> ReportStorage for NonTransactionalCursor<A, CAS, EAV> {
    /// The cursor reports what its content-addressable store reports.
    open spec fn reported_bytes(&self) -> nat {
        self.cas.reported_bytes()
    }

    /// The bytes that the content-addressable store of the cursor counts.
    fn get_byte_count(&self) -> (result: Result<usize, PersistenceError>)
        ensures
            call_ensures(CAS::get_byte_count, (&self.cas,), result),
    {
        self.cas.get_byte_count()
    }

    /// The report of the content-addressable store of the cursor.
    fn get_storage_report(&self) -> (result: Result<StorageReport, PersistenceError>)
        ensures
            call_ensures(CAS::get_storage_report, (&self.cas,), result),
    {
        self.cas.get_storage_report()
    }
}

impl<
    A: Attribute,
    CAS: ContentAddressableStorage,
    EAV: EntityAttributeValueStorage<A>,
    P,
> Writer<P> for NonTransactionalCursor<A, CAS, EAV> {
    open spec fn commits(self, before: P, after: P, result: Result<(), PersistenceError>) -> bool {
        result is Ok && after == before
    }

    /// Succeeds and leaves the primary as it is: what was written through
    /// the cursor is in its stores already.
    fn commit(self, primary: &mut P) -> (result: Result<(), PersistenceError>) {
        NoopWriter::new().commit(primary)
    }
}

impl<
    A: Attribute,
    CAS: ContentAddressableStorage,
    EAV: EntityAttributeValueStorage<A>,
    P,
> Cursor<A, P> for NonTransactionalCursor<A, CAS, EAV> {

}

impl<
    A: Attribute,
    CAS: ContentAddressableStorage + Clone,
    EAV: EntityAttributeValueStorage<A> + Clone,
> CursorProvider<A, Self> for NonTransactionalCursor<A, CAS, EAV> {
    type Cursor = Self;

    open spec fn hands_out(&self, cursor: Self) -> bool {
        cloned::<CAS>(self.cas, cursor.cas) && cloned::<EAV>(self.eav, cursor.eav)
    }

    /// A cursor over copies of the two stores. It never fails.
    fn create_cursor(&self) -> (result: Result<Self, PersistenceError>)
        ensures
            result is Ok,
    {
        Ok(self.clone())
    }
}

/// A store of content, storage of records, and what hands out cursors over
/// them, brought together.
pub struct DefaultPersistenceManager<A: Attribute, CAS, EAV, CP> {
    /// The primary content-addressable store.
    pub cas: CAS,
    /// The primary storage of records.
    pub eav: EAV,
    /// What hands out the cursors.
    pub cursor_provider: CP,
    /// The attributes of the records, which no field holds.
    pub phantom: PhantomData<A>,
}

impl<A: Attribute, CAS, EAV, CP> DefaultPersistenceManager<A, CAS, EAV, CP> {
    /// The manager of the two stores, with cursors from `cursor_provider`.
    pub fn new(cas: CAS, eav: EAV, cursor_provider: CP) -> (manager: Self)
        ensures
            manager.cas == cas,
            manager.eav == eav,
            manager.cursor_provider == cursor_provider,
    {
        Self { cas, eav, cursor_provider, phantom: PhantomData }
    }
}

impl<
    A: Attribute,
    CAS: ContentAddressableStorage,
    EAV: EntityAttributeValueStorage<A>,
    CP: CursorProvider<A, Self>,
> PersistenceManager<A> for DefaultPersistenceManager<A, CAS, EAV, CP> {
    type Cas = CAS;

    type Eav = EAV;

    open spec fn primary_cas(&self) -> CAS {
        self.cas
    }

    open spec fn primary_eav(&self) -> EAV {
        self.eav
    }

    fn cas(&self) -> (cas: &CAS) {
        &self.cas
    }

    fn eav(&self) -> (eav: &EAV) {
        &self.eav
    }
}

impl<
    A: Attribute,
    CAS: ContentAddressableStorage,
    EAV: EntityAttributeValueStorage<A>,
    CP: CursorProvider<A, Self>,
> CursorProvider<A, Self> for DefaultPersistenceManager<A, CAS, EAV, CP> {
    type Cursor = CP::Cursor;

    open spec fn hands_out(&self, cursor: CP::Cursor) -> bool {
        self.cursor_provider.hands_out(cursor)
    }

    /// A new cursor from the manager's provider.
    fn create_cursor(&self) -> (result: Result<Self::Cursor, PersistenceError>)
        ensures
            call_ensures(CP::create_cursor, (&self.cursor_provider,), result),
    {
        self.cursor_provider.create_cursor()
    }
}

} // verus!
