//! The transactional cursor: a private staging pair in front of the primary
//! stores. Writes go to staging, reads fall through to the primary, and a
//! commit moves what was staged into the primary, all of it or none.

use crate::attribute::Attribute;
use crate::cas::{
    bytes_after_put, content_bytes_of, entries_with, fitted_map_size, grow_map_size,
    grown_map_size, lemma_fitted_again, lemma_put_all_fits, lookup, peak_bytes, put_each,
    ContentAddressableStorage, ExampleContentAddressableStorage,
};
use crate::content::{Address, AddressableContent, Content};
use crate::eav::{
    lemma_with_all, lemma_with_record, prior_of, records_bytes, with_all, with_all_that_fit,
    with_record, EntityAttributeValueStorage, ExampleEntityAttributeValueStorage,
};
use crate::eavi::{Eavi, EntityAttributeValueIndex};
use crate::error::PersistenceError;
use crate::ident::{fresh_id, is_random_uuid};
use crate::query::{evaluate, is_ordered, views, EaviQuery, Query};
use crate::reporting::{ReportStorage, StorageReport};
use crate::txn::{Cursor, CursorProvider, DefaultPersistenceManager, Writer};
use std::marker::PhantomData;
use vstd::prelude::*;

verus! {

/// How the region of a store is to be kept by a backend that keeps it on
/// disk. A store in memory carries the flags and is not changed by them.
#[derive(Clone, Copy, Debug, PartialEq, Eq, Structural)]
pub struct EnvironmentFlags {
    /// Map the region at a fixed address.
    pub fixed_map: bool,
    /// Keep the region in a single file rather than in a directory.
    pub no_sub_dir: bool,
    /// Write through a writable map of the region.
    pub write_map: bool,
    /// Open the region for reading only.
    pub read_only: bool,
    /// Do not flush the system's buffers for the meta page at each commit.
    pub no_meta_sync: bool,
    /// Do not flush the system's buffers at each commit.
    pub no_sync: bool,
    /// With a writable map, flush to disk asynchronously.
    pub map_async: bool,
    /// Do not tie reader slots to threads.
    pub no_tls: bool,
    /// Do no locking; the caller keeps writers apart.
    pub no_lock: bool,
    /// Do not read ahead.
    pub no_read_ahead: bool,
    /// Do not clear memory before it is written to disk.
    pub no_mem_init: bool,
}

/// What a commit does next, after one write into the primary.
#[derive(Clone, Copy, Debug, PartialEq, Eq, Structural)]
pub enum CommitStep {
    /// The write is done: go on with the next.
    Proceed,
    /// The region is full: give the writes up, grow the region, start again.
    Grow,
    /// The write failed for good: give the commit up with this error.
    Fail(PersistenceError),
}

/// What a commit does after a write into the primary that ended in
/// `outcome`. Only a full region is worth another attempt.
pub fn step_after(outcome: &Result<(), PersistenceError>) -> (step: CommitStep)
    ensures
        step == (match outcome {
            Ok(_) => CommitStep::Proceed,
            Err(PersistenceError::CapacityExhausted) => CommitStep::Grow,
            Err(error) => CommitStep::Fail(*error),
        }),
{
    match outcome {
        Ok(_) => CommitStep::Proceed,
        Err(PersistenceError::CapacityExhausted) => CommitStep::Grow,
        Err(error) => CommitStep::Fail(*error),
    }
}

/// The size that a full region of `map_size` bytes is grown to before the
/// next attempt, or `BackendIo` where it has the largest size there is.
pub fn next_map_size(map_size: usize) -> (result: Result<usize, PersistenceError>)
    ensures
        map_size < usize::MAX ==> result == Ok::<usize, PersistenceError>(
            grown_map_size(map_size),
        ),
        map_size == usize::MAX ==> result == Err::<usize, PersistenceError>(
            PersistenceError::BackendIo,
        ),
        result matches Ok(grown) ==> grown > map_size,
{
    if map_size == usize::MAX {
        Err(PersistenceError::BackendIo)
    } else {
        Ok(grow_map_size(map_size))
    }
}

/// What a cursor answers when asked for the content under `address`: what it
/// has staged there, or else what the primary holds there.
pub open spec fn cursor_lookup(
    staged: Map<Seq<u8>, Seq<u8>>,
    primary: Map<Seq<u8>, Seq<u8>>,
    address: Seq<u8>,
) -> Option<Seq<u8>> {
    if staged.contains_key(address) {
        Some(staged[address])
    } else {
        lookup(primary, address)
    }
}

/// Whether a lookup of `address` brings content from the primary into
/// staging.
pub open spec fn lookup_caches(
    staged: Map<Seq<u8>, Seq<u8>>,
    primary: Map<Seq<u8>, Seq<u8>>,
    address: Seq<u8>,
) -> bool {
    !staged.contains_key(address) && primary.contains_key(address)
}

/// What a cursor has staged after it was asked for the content under
/// `address`: content that came from the primary is kept in staging.
pub open spec fn staged_after_lookup(
    staged: Map<Seq<u8>, Seq<u8>>,
    primary: Map<Seq<u8>, Seq<u8>>,
    address: Seq<u8>,
) -> Map<Seq<u8>, Seq<u8>> {
    if lookup_caches(staged, primary, address) {
        staged.insert(address, primary[address])
    } else {
        staged
    }
}

/// What a cursor answers to a query: what the query finds in staging, or,
/// where it finds nothing there, what it finds in the primary.
pub open spec fn cursor_evaluate(staged: Seq<Eavi>, primary: Seq<Eavi>, query: Query) -> Seq<
    Eavi,
> {
    if evaluate(query, staged).len() > 0 {
        evaluate(query, staged)
    } else {
        evaluate(query, primary)
    }
}

/// The records that a cursor has staged after it answered a query: records
/// that came from the primary are kept in staging.
pub open spec fn staged_after_query(staged: Seq<Eavi>, primary: Seq<Eavi>, query: Query) -> Seq<
    Eavi,
> {
    if evaluate(query, staged).len() > 0 {
        staged
    } else {
        with_all(staged, evaluate(query, primary))
    }
}

/// What hands out cursors that stage in memory, with what it was told about
/// the primary and about staging.
pub struct EnvCursorProvider<A: Attribute> {
    primary_id: u128,
    env_flags: Option<EnvironmentFlags>,
    staging_initial_map_size: Option<usize>,
    staging_env_flags: Option<EnvironmentFlags>,
    phantom: PhantomData<A>,
}

/// A manager of stores in memory with cursors that stage in memory. The two
/// primary stores share one region, whose size the content store carries; a
/// commit brings the size that the storage of records carries in line.
pub type EnvManager<A> = DefaultPersistenceManager<
    A,
    ExampleContentAddressableStorage,
    ExampleEntityAttributeValueStorage<A>,
    EnvCursorProvider<A>,
>;

/// A cursor over the primary stores of a manager, with a staging pair of its
/// own that no other cursor sees. The two staging stores share one region,
/// whose size the staged content carries; each write into staging brings the
/// size that the staged records carry in line.
pub struct EnvCursor<A: Attribute> {
    primary_id: u128,
    staging_cas_db: ExampleContentAddressableStorage,
    staging_eav_db: ExampleEntityAttributeValueStorage<A>,
}

/// The greater of two numbers.
pub open spec fn greater(a: nat, b: nat) -> nat {
    if a >= b {
        a
    } else {
        b
    }
}

/// The bytes that the one region of a primary needs at most while what a
/// cursor has staged is moved into it: what the two primary stores take
/// before, what they take while the staged content is written, and what
/// they take once the staged records are put as well.
pub open spec fn env_demand<A: Attribute>(
    cas: ExampleContentAddressableStorage,
    eav: ExampleEntityAttributeValueStorage<A>,
    staged_cas: ExampleContentAddressableStorage,
    staged_eav: ExampleEntityAttributeValueStorage<A>,
) -> nat {
    let before = cas.used_bytes() + eav.used_bytes();
    let during = peak_bytes(cas@, cas.used_bytes(), staged_cas.entries()) + eav.used_bytes();
    let after = put_each(cas@, cas.used_bytes(), staged_cas.entries()).1 + records_bytes(
        with_all(eav@, staged_eav@),
    );
    greater(before, greater(during, after))
}

/// The two primary stores of the manager share one region: both carry its
/// size, and together they take no more bytes than it has.
pub open spec fn is_one_region<A: Attribute>(manager: EnvManager<A>) -> bool {
    &&& manager.eav.spec_map_size() == manager.cas.spec_map_size()
    &&& manager.cas.used_bytes() + manager.eav.used_bytes() <= manager.cas.spec_map_size()
}

impl<A: Attribute> EnvCursor<A> {
    /// The staged content.
    pub closed spec fn staging_cas(&self) -> ExampleContentAddressableStorage {
        self.staging_cas_db
    }

    /// The staged records.
    pub closed spec fn staging_eav(&self) -> ExampleEntityAttributeValueStorage<A> {
        self.staging_eav_db
    }

    /// The identity of the primary that the cursor was made for.
    pub closed spec fn spec_id(&self) -> u128 {
        self.primary_id
    }

    /// A cursor for the primary with the identity `primary_id`, which stages
    /// in the two given stores. The region of staging has the size that the
    /// content store carries.
    pub fn new(
        primary_id: u128,
        staging_cas_db: ExampleContentAddressableStorage,
        staging_eav_db: ExampleEntityAttributeValueStorage<A>,
    ) -> (cursor: Self)
        ensures
            cursor.spec_id() == primary_id,
            cursor.staging_cas() == staging_cas_db,
            cursor.staging_eav() == staging_eav_db,
    {
        EnvCursor { primary_id, staging_cas_db, staging_eav_db }
    }

    /// The identity of the primary that the cursor was made for.
    pub fn get_id(&self) -> (id: u128)
        ensures
            id == self.spec_id(),
    {
        self.primary_id
    }

    /// The two staging stores share one region: both carry its size, and
    /// together they take no more bytes than it has.
    pub open spec fn is_one_staging_region(&self) -> bool {
        &&& self.staging_eav().spec_map_size() == self.staging_cas().spec_map_size()
        &&& self.staging_cas().used_bytes() + self.staging_eav().used_bytes()
            <= self.staging_cas().spec_map_size()
    }

    /// Nothing is staged differently in `before`: the staging stores are
    /// the same.
    pub open spec fn is_staged_as(&self, before: Self) -> bool {
        &&& self.staging_cas() == before.staging_cas()
        &&& self.staging_eav() == before.staging_eav()
    }

    /// The bytes that the region of staging holds with `content` staged
    /// under `address`.
    pub open spec fn demand_with_content(&self, address: Seq<u8>, content: Seq<u8>) -> nat {
        bytes_after_put(
            self.staging_cas()@,
            self.staging_cas().used_bytes(),
            address,
            content,
        ) + self.staging_eav().used_bytes()
    }

    /// The bytes that the region of staging holds with `record` staged.
    pub open spec fn demand_with_record(&self, record: Eavi) -> nat {
        records_bytes(with_record(self.staging_eav()@, record))
            + self.staging_cas().used_bytes()
    }

    /// The cursor is what `before` is once `content` was staged under
    /// `address`: the content is staged, in a region that was doubled, from
    /// the size that the staged content carried, until all that is staged
    /// fit; or, where no region can hold that many bytes, nothing changed.
    pub open spec fn is_after_staging(
        &self,
        before: Self,
        address: Seq<u8>,
        content: Seq<u8>,
    ) -> bool {
        let staged = before.staging_cas();
        let demand = before.demand_with_content(address, content);
        let region = fitted_map_size(staged.spec_map_size(), demand);
        &&& self.spec_id() == before.spec_id()
        &&& demand <= usize::MAX ==> {
            &&& self.staging_cas()@ == staged@.insert(address, content)
            &&& self.staging_cas().entries() == entries_with(staged.entries(), address, content)
            &&& self.staging_cas().used_bytes() == bytes_after_put(
                staged@,
                staged.used_bytes(),
                address,
                content,
            )
            &&& self.staging_cas().spec_id() == staged.spec_id()
            &&& self.staging_cas().spec_map_size() == region
            &&& self.staging_cas().is_sound()
            &&& self.staging_eav().is_resized(before.staging_eav(), region)
            &&& self.staging_eav().is_sound()
            &&& self.is_one_staging_region()
        }
        &&& demand > usize::MAX ==> self.is_staged_as(before)
    }

    /// The cursor is what `before` is once `record` was staged: the record
    /// is among the staged records, in a region that was doubled, from the
    /// size that the staged content carried, until all that is staged fit;
    /// or, where no region can hold that many bytes, nothing changed.
    pub open spec fn is_after_staging_record(&self, before: Self, record: Eavi) -> bool {
        let demand = before.demand_with_record(record);
        let region = fitted_map_size(before.staging_cas().spec_map_size(), demand);
        &&& self.spec_id() == before.spec_id()
        &&& demand <= usize::MAX ==> {
            &&& self.staging_eav()@ == with_record(before.staging_eav()@, record)
            &&& self.staging_eav().spec_id() == before.staging_eav().spec_id()
            &&& self.staging_eav().spec_map_size() == region
            &&& self.staging_eav().is_sound()
            &&& self.staging_cas().is_resized(before.staging_cas(), region)
            &&& self.staging_cas().is_sound()
            &&& self.is_one_staging_region()
        }
        &&& demand > usize::MAX ==> self.is_staged_as(before)
    }

    /// The cursor is what `before` is once the records of `run` were staged
    /// one after the other, up to the first for which no region can be large
    /// enough. Where not even the first was staged, nothing changed.
    pub open spec fn is_after_staging_all(&self, before: Self, run: Seq<Eavi>) -> bool {
        let room = (usize::MAX - before.staging_cas().used_bytes()) as nat;
        let kept = with_all_that_fit(before.staging_eav()@, run, room);
        let region = fitted_map_size(
            before.staging_cas().spec_map_size(),
            records_bytes(kept) + before.staging_cas().used_bytes(),
        );
        let first_fits = run.len() > 0 && before.demand_with_record(run[0]) <= usize::MAX;
        &&& self.spec_id() == before.spec_id()
        &&& self.staging_eav()@ == kept
        &&& first_fits ==> {
            &&& self.staging_eav().spec_id() == before.staging_eav().spec_id()
            &&& self.staging_eav().spec_map_size() == region
            &&& self.staging_eav().is_sound()
            &&& self.staging_cas().is_resized(before.staging_cas(), region)
            &&& self.staging_cas().is_sound()
            &&& self.is_one_staging_region()
        }
        &&& !first_fits ==> self.is_staged_as(before)
    }

    /// The size of the region that the staging stores share.
    pub fn staging_map_size(&self) -> (size: usize)
        ensures
            size == self.staging_cas().spec_map_size(),
    {
        self.staging_cas_db.map_size()
    }

    /// Stages `content` under `address`, and grows the region of staging
    /// first, as often as it takes, if it does not fit.
    fn stage_content(&mut self, address: Address, content: Content) -> (result: Result<
        (),
        PersistenceError,
    >)
        ensures
            final(self).is_after_staging(*old(self), address@, content@),
            result is Ok <==> old(self).demand_with_content(address@, content@) <= usize::MAX,
            result matches Err(error) ==> error == PersistenceError::BackendIo,
    {
        let ghost put = bytes_after_put(
            self.staging_cas()@,
            self.staging_cas().used_bytes(),
            address@,
            content@,
        );
        let demand = match self.staging_cas_db.demand_of_put(&address, content.len()) {
            Some(bytes) => bytes,
            None => {
                return Err(PersistenceError::BackendIo);
            },
        };
        assert(demand == put);
        let total = match demand.checked_add(self.staging_eav_db.used()) {
            Some(bytes) => bytes,
            None => {
                return Err(PersistenceError::BackendIo);
            },
        };
        self.staging_cas_db.fit_map_size(total);
        let written = self.staging_cas_db.put(address, content);
        let region = self.staging_cas_db.map_size();
        let _ = self.staging_eav_db.set_map_size(region);
        written
    }

    /// Stages `eavi`, and grows the region of staging first, as often as it
    /// takes, if it does not fit.
    fn stage_record(&mut self, eavi: &EntityAttributeValueIndex<A>) -> (result: Result<
        Option<EntityAttributeValueIndex<A>>,
        PersistenceError,
    >)
        ensures
            final(self).is_after_staging_record(*old(self), eavi@),
            result is Ok <==> old(self).demand_with_record(eavi@) <= usize::MAX,
            result matches Ok(prior) ==> (match prior {
                Some(record) => Some(record@),
                None => None,
            }) == prior_of(old(self).staging_eav()@, eavi@),
            result matches Err(error) ==> error == PersistenceError::BackendIo,
    {
        let _ = self.staging_eav_db.map_size();
        let demand = match self.staging_eav_db.demand_of_put(eavi) {
            Some(bytes) => bytes,
            None => {
                return Err(PersistenceError::BackendIo);
            },
        };
        let total = match demand.checked_add(self.staging_cas_db.used()) {
            Some(bytes) => bytes,
            None => {
                return Err(PersistenceError::BackendIo);
            },
        };
        proof {
            lemma_with_record(self.staging_eav()@, eavi@);
        }
        self.staging_cas_db.fit_map_size(total);
        let region = self.staging_cas_db.map_size();
        let _ = self.staging_eav_db.set_map_size(region);
        self.staging_eav_db.put_eavi(eavi)
    }

    /// Stages the content of `content` under its address. The primary is
    /// not touched, and no other cursor sees the content before a commit.
    /// The staging stores share one region, which is grown first, as often
    /// as it takes, if the content does not fit.
    ///
    /// It fails, with `BackendIo` and without changing anything, only where
    /// staging would hold more bytes than the machine can address.
    pub fn add<C: AddressableContent>(&mut self, content: &C) -> (result: Result<
        (),
        PersistenceError,
    >)
        ensures
            final(self).is_after_staging(
                *old(self),
                content.address_spec(),
                content.content_spec(),
            ),
            result is Ok <==> old(self).demand_with_content(
                content.address_spec(),
                content.content_spec(),
            ) <= usize::MAX,
            result matches Err(error) ==> error == PersistenceError::BackendIo,
    {
        self.stage_content(content.address(), content.content())
    }

    /// The cursor was made for `primary`: it carries the identity of its
    /// content-addressable store.
    pub open spec fn is_cursor_of(&self, primary: EnvManager<A>) -> bool {
        primary.cas.spec_id() == self.spec_id()
    }

    /// A fetch under `address` in front of `primary` takes the cursor to
    /// `after` and ends in `result`.
    ///
    /// A primary that the cursor was not made for is refused with
    /// `InvalidArgument`. Else the answer is what is staged under the
    /// address or, failing that, what the primary holds there, which is then
    /// staged. The fetch fails with `BackendIo` exactly where staging cannot
    /// take what came from the primary. A fetch that fails changes nothing.
    pub open spec fn fetches(
        &self,
        after: Self,
        primary: EnvManager<A>,
        address: Seq<u8>,
        result: Result<Option<Content>, PersistenceError>,
    ) -> bool {
        let staged = self.staging_cas();
        let caches = lookup_caches(staged@, primary.cas@, address);
        &&& after.spec_id() == self.spec_id()
        &&& !self.is_cursor_of(primary) ==> {
            &&& result matches Err(PersistenceError::InvalidArgument)
            &&& after.is_staged_as(*self)
        }
        &&& self.is_cursor_of(primary) ==> {
            &&& caches ==> after.is_after_staging(*self, address, primary.cas@[address])
            &&& !caches ==> after.is_staged_as(*self)
            &&& result is Err <==> caches && self.demand_with_content(
                address,
                primary.cas@[address],
            ) > usize::MAX
            &&& result matches Ok(found) ==> (match found {
                Some(content) => Some(content@),
                None => None,
            }) == cursor_lookup(staged@, primary.cas@, address) && after.staging_cas()@
                == staged_after_lookup(staged@, primary.cas@, address)
            &&& result matches Err(error) ==> error == PersistenceError::BackendIo
        }
    }

    /// The content under `address`: what is staged there, or else what the
    /// primary holds there, which is then kept in staging.
    ///
    /// It fails, without changing anything, with `InvalidArgument` where the
    /// cursor was not made for `primary`, and with `BackendIo` where staging
    /// cannot keep what came from the primary, because it would hold more
    /// bytes than the machine can address.
    pub fn fetch(&mut self, primary: &EnvManager<A>, address: &Address) -> (result: Result<
        Option<Content>,
        PersistenceError,
    >)
        ensures
            old(self).fetches(*final(self), *primary, address@, result),
    {
        if primary.cas.get_id() != self.primary_id {
            return Err(PersistenceError::InvalidArgument);
        }
        match self.staging_cas_db.fetch(address) {
            Ok(Some(content)) => Ok(Some(content)),
            Ok(None) => match primary.cas.fetch(address) {
                Ok(Some(content)) => {
                    match self.stage_content(address.clone(), content.clone()) {
                        Ok(_) => Ok(Some(content)),
                        Err(error) => Err(error),
                    }
                },
                Ok(None) => Ok(None),
                Err(error) => Err(error),
            },
            Err(error) => Err(error),
        }
    }

    /// Asking whether there is content under `address` in front of `primary`
    /// takes the cursor to `after` and ends in `result`: it is refused, it
    /// fails and it changes staging exactly as a fetch does, and it answers
    /// whether a fetch finds content.
    pub open spec fn holds(
        &self,
        after: Self,
        primary: EnvManager<A>,
        address: Seq<u8>,
        result: Result<bool, PersistenceError>,
    ) -> bool {
        let staged = self.staging_cas();
        let caches = lookup_caches(staged@, primary.cas@, address);
        &&& after.spec_id() == self.spec_id()
        &&& !self.is_cursor_of(primary) ==> {
            &&& result matches Err(PersistenceError::InvalidArgument)
            &&& after.is_staged_as(*self)
        }
        &&& self.is_cursor_of(primary) ==> {
            &&& caches ==> after.is_after_staging(*self, address, primary.cas@[address])
            &&& !caches ==> after.is_staged_as(*self)
            &&& result is Err <==> caches && self.demand_with_content(
                address,
                primary.cas@[address],
            ) > usize::MAX
            &&& result matches Ok(held) ==> held == (cursor_lookup(staged@, primary.cas@, address)
                is Some)
            &&& result matches Err(error) ==> error == PersistenceError::BackendIo
        }
    }

    /// Whether there is content under `address`, in staging or in the
    /// primary: whether `fetch` finds some. It fails and changes staging
    /// exactly as `fetch` does.
    pub fn contains(&mut self, primary: &EnvManager<A>, address: &Address) -> (result: Result<
        bool,
        PersistenceError,
    >)
        ensures
            old(self).holds(*final(self), *primary, address@, result),
    {
        match self.fetch(primary, address) {
            Ok(found) => Ok(found.is_some()),
            Err(error) => Err(error),
        }
    }

    /// The report on the primary content-addressable store, which is what
    /// the cursor reports. A primary that the cursor was not made for is
    /// refused with `InvalidArgument`.
    pub fn get_storage_report(&self, primary: &EnvManager<A>) -> (result: Result<
        StorageReport,
        PersistenceError,
    >)
        ensures
            self.is_cursor_of(*primary) ==> (result matches Ok(report) && report.bytes_total
                == content_bytes_of(primary.cas.entries())),
            !self.is_cursor_of(*primary) ==> result matches Err(PersistenceError::InvalidArgument),
    {
        if primary.cas.get_id() != self.primary_id {
            return Err(PersistenceError::InvalidArgument);
        }
        primary.cas.get_storage_report()
    }

    /// Stages `eavi`, and returns the last staged record that related the
    /// same entity to the same value under the same attribute before. The
    /// primary is not touched, and no other cursor sees the record before a
    /// commit. The staging stores share one region, which is grown first,
    /// as often as it takes, if the record does not fit.
    ///
    /// It fails, with `BackendIo` and without changing anything, only where
    /// staging would hold more bytes than the machine can address.
    pub fn add_eavi(&mut self, eavi: &EntityAttributeValueIndex<A>) -> (result: Result<
        Option<EntityAttributeValueIndex<A>>,
        PersistenceError,
    >)
        ensures
            final(self).is_after_staging_record(*old(self), eavi@),
            result is Ok <==> old(self).demand_with_record(eavi@) <= usize::MAX,
            result matches Ok(prior) ==> (match prior {
                Some(record) => Some(record@),
                None => None,
            }) == prior_of(old(self).staging_eav()@, eavi@),
            result matches Err(error) ==> error == PersistenceError::BackendIo,
    {
        self.stage_record(eavi)
    }

    /// Answering `query` in front of `primary` takes the cursor to `after`
    /// and ends in `result`.
    ///
    /// A primary that the cursor was not made for is refused with
    /// `InvalidArgument`, and nothing changes. Else the answer is what the
    /// query finds in staging or, where it finds nothing there, what it finds
    /// in the primary, which is then staged. It fails with `BackendIo`
    /// exactly where staging cannot take what came from the primary; staging
    /// then holds the records before the one that did not fit.
    pub open spec fn finds(
        &self,
        after: Self,
        primary: EnvManager<A>,
        query: Query,
        result: Result<Vec<EntityAttributeValueIndex<A>>, PersistenceError>,
    ) -> bool {
        let staged = self.staging_eav();
        let answers = evaluate(query, staged@).len() > 0;
        let found = evaluate(query, primary.eav@);
        &&& after.spec_id() == self.spec_id()
        &&& !self.is_cursor_of(primary) ==> {
            &&& result matches Err(PersistenceError::InvalidArgument)
            &&& after.is_staged_as(*self)
        }
        &&& self.is_cursor_of(primary) ==> {
            &&& answers ==> after.is_staged_as(*self)
            &&& !answers ==> after.is_after_staging_all(*self, found)
            &&& result is Ok <==> answers || found.len() == 0 || records_bytes(
                with_all(staged@, found),
            ) + self.staging_cas().used_bytes() <= usize::MAX
            &&& result matches Ok(found) ==> views(found@) == cursor_evaluate(
                staged@,
                primary.eav@,
                query,
            ) && is_ordered(views(found@)) && after.staging_eav()@ == staged_after_query(
                staged@,
                primary.eav@,
                query,
            )
            &&& result matches Err(error) ==> error == PersistenceError::BackendIo
        }
    }

    /// Answers `query`: with what it finds in staging, or, where it finds
    /// nothing there, with what it finds in the primary, which is then kept
    /// in staging. The answer is in the order of records.
    ///
    /// It fails with `InvalidArgument`, and changes nothing, where the cursor
    /// was not made for `primary`. It fails with `BackendIo` where staging
    /// cannot keep what came from the primary, because it would hold more
    /// bytes than the machine can address. Staging then holds the records
    /// before the one that did not fit.
    pub fn fetch_eavi(&mut self, primary: &EnvManager<A>, query: &EaviQuery<A>) -> (result: Result<
        Vec<EntityAttributeValueIndex<A>>,
        PersistenceError,
    >)
        ensures
            old(self).finds(*final(self), *primary, query@, result),
    {
        if primary.cas.get_id() != self.primary_id {
            return Err(PersistenceError::InvalidArgument);
        }
        let _ = self.staging_eav_db.map_size();
        match self.staging_eav_db.fetch_eavi(query) {
            Ok(staged) => {
                if staged.len() > 0 {
                    return Ok(staged);
                }
            },
            Err(error) => {
                return Err(error);
            },
        }
        match primary.eav.fetch_eavi(query) {
            Ok(found) => match self.stage_each(&found) {
                Ok(_) => Ok(found),
                Err(error) => Err(error),
            },
            Err(error) => Err(error),
        }
    }

    /// Stages every record of `records`, one after the other, and grows the
    /// region of staging as often as it takes.
    ///
    /// It fails, with `BackendIo`, only where staging would hold more bytes
    /// than the machine can address; the records before the one that did
    /// not fit are then staged.
    fn stage_each(&mut self, records: &Vec<EntityAttributeValueIndex<A>>) -> (result: Result<
        (),
        PersistenceError,
    >)
        ensures
            final(self).is_after_staging_all(*old(self), views(records@)),
            result is Ok <==> records@.len() == 0 || records_bytes(
                with_all(old(self).staging_eav()@, views(records@)),
            ) + old(self).staging_cas().used_bytes() <= usize::MAX,
            result is Ok ==> final(self).staging_eav()@ == with_all(
                old(self).staging_eav()@,
                views(records@),
            ),
            result matches Err(error) ==> error == PersistenceError::BackendIo,
    {
        let ghost all = views(records@);
        let ghost beside = self.staging_cas().used_bytes();
        let ghost room = (usize::MAX - beside) as nat;
        let ghost start = self.staging_cas().spec_map_size();
        let ghost goal = with_all(self.staging_eav()@, all);
        let ghost end = with_all_that_fit(self.staging_eav()@, all, room);
        let _ = self.staging_eav_db.map_size();
        let _ = self.staging_cas_db.used();
        let mut i: usize = 0;
        assert(all.skip(0) =~= all);
        while i < records.len()
            invariant
                all == views(records@),
                i <= all.len(),
                self.spec_id() == old(self).spec_id(),
                beside == old(self).staging_cas().used_bytes(),
                beside <= usize::MAX,
                room == usize::MAX - beside,
                start == old(self).staging_cas().spec_map_size(),
                is_ordered(self.staging_eav()@),
                goal == with_all(old(self).staging_eav()@, all),
                end == with_all_that_fit(old(self).staging_eav()@, all, room),
                goal == with_all(self.staging_eav()@, all.skip(i as int)),
                end == with_all_that_fit(self.staging_eav()@, all.skip(i as int), room),
                self.staging_cas().used_bytes() == beside,
                i == 0 ==> self.is_staged_as(*old(self)),
                i > 0 ==> {
                    &&& old(self).demand_with_record(all[0]) <= usize::MAX
                    &&& self.staging_eav().spec_id() == old(self).staging_eav().spec_id()
                    &&& self.staging_eav().spec_map_size() == fitted_map_size(
                        start,
                        records_bytes(self.staging_eav()@) + beside,
                    )
                    &&& self.staging_eav().is_sound()
                    &&& self.staging_cas().is_resized(
                        old(self).staging_cas(),
                        fitted_map_size(start, records_bytes(self.staging_eav()@) + beside),
                    )
                    &&& self.staging_cas().is_sound()
                    &&& self.is_one_staging_region()
                },
            decreases all.len() - i,
        {
            proof {
                let rest = all.skip(i as int);
                assert(rest[0] == records@[i as int]@);
                assert(rest.drop_first() =~= all.skip(i + 1));
                lemma_with_record(self.staging_eav()@, rest[0]);
                lemma_with_all(with_record(self.staging_eav()@, rest[0]), all.skip(i + 1));
                lemma_fitted_again(
                    start,
                    records_bytes(self.staging_eav()@) + beside,
                    records_bytes(with_record(self.staging_eav()@, rest[0])) + beside,
                );
            }
            match self.stage_record(&records[i]) {
                Ok(_) => {},
                Err(error) => {
                    return Err(error);
                },
            }
            i += 1;
        }
        Ok(())
    }

    /// The bytes that the region of `primary` needs for what the cursor has
    /// staged.
    pub open spec fn demand(&self, primary: EnvManager<A>) -> nat {
        env_demand(primary.cas, primary.eav, self.staging_cas(), self.staging_eav())
    }

    /// One attempt to move what is staged into the primary.
    ///
    /// The primary stores share one region, whose size the content store
    /// carries. The staged content, then the staged records, are written
    /// into a copy of the primary stores, each store having the room that
    /// the other leaves in the region. If the region is full, the copy is
    /// given up, the region is grown, and the answer is `false`: another
    /// attempt is due. If all is written, the copy takes the place of the
    /// primary stores and the answer is `true`. The attempt fails, with the
    /// primary as it was: with `InvalidArgument` where the cursor was not
    /// made for `primary`, and with `BackendIo` where the full region has
    /// the largest size there is.
    pub fn commit_internal(&self, primary: &mut EnvManager<A>) -> (result: Result<
        bool,
        PersistenceError,
    >)
        ensures
            final(primary).cursor_provider == old(primary).cursor_provider,
            final(primary).cas.spec_id() == old(primary).cas.spec_id(),
            final(primary).eav.spec_id() == old(primary).eav.spec_id(),
            final(primary).cas.is_sound(),
            final(primary).eav.is_sound(),
            !self.is_cursor_of(*old(primary)) ==> result matches Err(
                PersistenceError::InvalidArgument,
            ),
            self.is_cursor_of(*old(primary)) ==> (result matches Err(error) ==> error
                == PersistenceError::BackendIo),
            result matches Ok(true) <==> self.is_cursor_of(*old(primary)) && self.demand(
                *old(primary),
            ) <= old(primary).cas.spec_map_size(),
            result matches Ok(true) ==> {
                &&& final(primary).cas@ == old(primary).cas@.union_prefer_right(
                    self.staging_cas()@,
                )
                &&& (final(primary).cas@, final(primary).cas.used_bytes()) == put_each(
                    old(primary).cas@,
                    old(primary).cas.used_bytes(),
                    self.staging_cas().entries(),
                )
                &&& final(primary).eav@ == with_all(old(primary).eav@, self.staging_eav()@)
                &&& final(primary).cas.spec_map_size() == old(primary).cas.spec_map_size()
                &&& is_one_region(*final(primary))
                &&& self.staging_cas().entries().len() == 0 ==> final(primary).cas.entries()
                    == old(primary).cas.entries()
            },
            result matches Ok(false) ==> {
                &&& self.demand(*old(primary)) > old(primary).cas.spec_map_size()
                &&& old(primary).cas.spec_map_size() < usize::MAX
                &&& final(primary).cas.is_resized(
                    old(primary).cas,
                    grown_map_size(old(primary).cas.spec_map_size()),
                )
                &&& final(primary).eav.is_resized(
                    old(primary).eav,
                    old(primary).eav.spec_map_size(),
                )
            },
            result matches Err(error) ==> {
                &&& final(primary).cas.is_resized(
                    old(primary).cas,
                    old(primary).cas.spec_map_size(),
                )
                &&& final(primary).eav.is_resized(
                    old(primary).eav,
                    old(primary).eav.spec_map_size(),
                )
                &&& {
                    ||| !self.is_cursor_of(*old(primary))
                    ||| self.demand(*old(primary)) > usize::MAX
                }
            },
    {
        let map_size = primary.cas.map_size();
        let _ = primary.eav.map_size();
        if primary.cas.get_id() != self.primary_id {
            return Err(PersistenceError::InvalidArgument);
        }
        let eav_used = primary.eav.used();
        let fits_before = match primary.cas.used().checked_add(eav_used) {
            Some(total) => total <= map_size,
            None => false,
        };
        if !fits_before {
            return Self::grow_region(primary);
        }
        // the content has the room that the records leave
        let mut cas_writer = primary.cas.clone();
        let _ = cas_writer.set_map_size(map_size - eav_used);
        let written = cas_writer.put_all(&self.staging_cas_db);
        match step_after(&written) {
            CommitStep::Proceed => {},
            CommitStep::Grow => {
                return Self::grow_region(primary);
            },
            CommitStep::Fail(error) => {
                return Err(error);
            },
        }
        let _ = cas_writer.set_map_size(map_size);
        proof {
            lemma_put_all_fits(
                old(primary).cas@,
                old(primary).cas.used_bytes(),
                self.staging_cas().entries(),
                (map_size - eav_used) as nat,
            );
        }

        // the records have the room that the content leaves
        let mut eav_writer = primary.eav.clone();
        let _ = eav_writer.set_map_size(map_size - cas_writer.used());
        let written = eav_writer.add_all(&self.staging_eav_db);
        match step_after(&written) {
            CommitStep::Proceed => {},
            CommitStep::Grow => {
                return Self::grow_region(primary);
            },
            CommitStep::Fail(error) => {
                return Err(error);
            },
        }
        let _ = eav_writer.set_map_size(map_size);
        primary.cas = cas_writer;
        primary.eav = eav_writer;
        Ok(true)
    }

    /// Grows the full region of `primary` for the next attempt, which the
    /// answer `false` asks for; or fails with `BackendIo`, and leaves the
    /// primary as it is, where the region has the largest size there is.
    fn grow_region(primary: &mut EnvManager<A>) -> (result: Result<bool, PersistenceError>)
        requires
            old(primary).cas.is_sound(),
            old(primary).eav.is_sound(),
        ensures
            final(primary).cursor_provider == old(primary).cursor_provider,
            final(primary).cas.is_sound(),
            final(primary).eav.is_resized(old(primary).eav, old(primary).eav.spec_map_size()),
            old(primary).cas.spec_map_size() < usize::MAX ==> result == Ok::<
                bool,
                PersistenceError,
            >(false) && final(primary).cas.is_resized(
                old(primary).cas,
                grown_map_size(old(primary).cas.spec_map_size()),
            ),
            old(primary).cas.spec_map_size() == usize::MAX ==> result == Err::<
                bool,
                PersistenceError,
            >(PersistenceError::BackendIo) && final(primary).cas.is_resized(
                old(primary).cas,
                old(primary).cas.spec_map_size(),
            ),
    {
        let map_size = primary.cas.map_size();
        match next_map_size(map_size) {
            Ok(grown) => {
                let _ = primary.cas.set_map_size(grown);
                Ok(false)
            },
            Err(error) => Err(error),
        }
    }
}

impl<A: Attribute> Writer<EnvManager<A>> for EnvCursor<A> {
    /// A commit takes the primary from `before` to `after` with `result`:
    /// a primary that the cursor was not made for is refused with
    /// `InvalidArgument`; else the commit succeeds exactly where the machine
    /// can address what the region of the primary needs; the primary then
    /// holds what is staged as well, in a region that was grown from its
    /// size until all fit. Where it fails, the primary is as it was; and
    /// where nothing is staged, a primary whose stores share one region is
    /// as it was.
    open spec fn commits(
        self,
        before: EnvManager<A>,
        after: EnvManager<A>,
        result: Result<(), PersistenceError>,
    ) -> bool {
        &&& after.cursor_provider == before.cursor_provider
        &&& after.cas.spec_id() == before.cas.spec_id()
        &&& after.eav.spec_id() == before.eav.spec_id()
        &&& after.cas.is_sound()
        &&& after.eav.is_sound()
        &&& !self.is_cursor_of(before) ==> (result matches Err(
            PersistenceError::InvalidArgument,
        ))
        &&& result is Ok <==> self.is_cursor_of(before) && self.demand(before) <= usize::MAX
        &&& result is Ok ==> {
            &&& after.cas@ == before.cas@.union_prefer_right(self.staging_cas()@)
            &&& (after.cas@, after.cas.used_bytes()) == put_each(
                before.cas@,
                before.cas.used_bytes(),
                self.staging_cas().entries(),
            )
            &&& after.eav@ == with_all(before.eav@, self.staging_eav()@)
            &&& after.cas.spec_map_size() == fitted_map_size(
                before.cas.spec_map_size(),
                self.demand(before),
            )
            &&& is_one_region(after)
        }
        &&& result matches Err(error) ==> {
            &&& self.is_cursor_of(before) ==> error == PersistenceError::BackendIo
            &&& after.cas.is_resized(before.cas, before.cas.spec_map_size())
            &&& after.eav.is_resized(before.eav, before.eav.spec_map_size())
        }
        &&& self.is_cursor_of(before) && is_one_region(before)
            && self.staging_cas().entries().len() == 0 && self.staging_eav()@.len() == 0 ==> {
            &&& result is Ok
            &&& after.cas.is_resized(before.cas, before.cas.spec_map_size())
            &&& after.eav.is_resized(before.eav, before.eav.spec_map_size())
        }
    }

    /// Moves what is staged into the primary, all of it or none, and ends
    /// the cursor.
    ///
    /// Attempts are made until one succeeds; before each new attempt the
    /// region of the primary, which was full, is grown. So a full region
    /// never fails a commit. The commit fails, with the primary as it was:
    /// with `InvalidArgument` where the cursor was not made for `primary`,
    /// and with `BackendIo` where the primary would hold more bytes than the
    /// machine can address. A commit of nothing leaves the primary as it is.
    fn commit(self, primary: &mut EnvManager<A>) -> (result: Result<(), PersistenceError>) {
        let map_size = primary.cas.map_size();
        let _ = primary.eav.map_size();
        let ghost need = self.demand(*primary);
        loop
            invariant
                primary.cursor_provider == old(primary).cursor_provider,
                primary.cas.is_resized(old(primary).cas, primary.cas.spec_map_size()),
                primary.eav.is_resized(old(primary).eav, old(primary).eav.spec_map_size()),
                primary.cas.is_sound(),
                primary.eav.is_sound(),
                old(primary).cas.is_sound(),
                map_size == old(primary).cas.spec_map_size(),
                need == self.demand(*old(primary)),
                old(primary).cas.spec_map_size() <= primary.cas.spec_map_size(),
                fitted_map_size(primary.cas.spec_map_size(), need) == fitted_map_size(
                    old(primary).cas.spec_map_size(),
                    need,
                ),
            decreases usize::MAX - primary.cas.spec_map_size(),
        {
            match self.commit_internal(primary) {
                Ok(committed) => {
                    if committed {
                        proof {
                            assert(old(primary).cas@.union_prefer_right(
                                Map::<Seq<u8>, Seq<u8>>::empty(),
                            ) =~= old(primary).cas@);
                        }
                        return Ok(());
                    }
                },
                Err(error) => {
                    let _ = primary.cas.set_map_size(map_size);
                    return Err(error);
                },
            }
        }
    }
}

impl<A: Attribute> Clone for EnvCursor<A> {
    /// A cursor for the same primary with copies of what is staged.
    fn clone(&self) -> (copy: Self)
        ensures
            copy.spec_id() == self.spec_id(),
            copy.staging_cas().is_resized(
                self.staging_cas(),
                self.staging_cas().spec_map_size(),
            ),
            copy.staging_eav().is_resized(
                self.staging_eav(),
                self.staging_eav().spec_map_size(),
            ),
            copy.staging_cas().is_sound(),
            copy.staging_eav().is_sound(),
            copy.is_one_staging_region() == self.is_one_staging_region(),
    {
        EnvCursor {
            primary_id: self.primary_id,
            staging_cas_db: self.staging_cas_db.clone(),
            staging_eav_db: self.staging_eav_db.clone(),
        }
    }
}

impl<A: Attribute> Clone for EnvCursorProvider<A> {
    /// A provider that was told the same.
    fn clone(&self) -> (copy: Self)
        ensures
            copy.spec_primary_id() == self.spec_primary_id(),
            copy.spec_env_flags() == self.spec_env_flags(),
            copy.spec_staging_initial_map_size() == self.spec_staging_initial_map_size(),
            copy.spec_staging_env_flags() == self.spec_staging_env_flags(),
    {
        EnvCursorProvider {
            primary_id: self.primary_id,
            env_flags: self.env_flags,
            staging_initial_map_size: self.staging_initial_map_size,
            staging_env_flags: self.staging_env_flags,
            phantom: PhantomData,
        }
    }
}

impl<A: Attribute> EnvCursorProvider<A> {
    /// The identity of the primary that the cursors are for.
    pub closed spec fn spec_primary_id(&self) -> u128 {
        self.primary_id
    }

    /// The flags of the primary.
    pub closed spec fn spec_env_flags(&self) -> Option<EnvironmentFlags> {
        self.env_flags
    }

    /// The size of the region that the staging stores of a new cursor get.
    pub closed spec fn spec_staging_initial_map_size(&self) -> Option<usize> {
        self.staging_initial_map_size
    }

    /// The flags of the staging stores.
    pub closed spec fn spec_staging_env_flags(&self) -> Option<EnvironmentFlags> {
        self.staging_env_flags
    }

    /// What hands out cursors for the primary with the identity
    /// `primary_id`, whose staging stores start in a region of
    /// `staging_initial_map_size` bytes.
    pub fn new(
        primary_id: u128,
        env_flags: Option<EnvironmentFlags>,
        staging_initial_map_size: Option<usize>,
        staging_env_flags: Option<EnvironmentFlags>,
    ) -> (provider: Self)
        ensures
            provider.spec_primary_id() == primary_id,
            provider.spec_env_flags() == env_flags,
            provider.spec_staging_initial_map_size() == staging_initial_map_size,
            provider.spec_staging_env_flags() == staging_env_flags,
    {
        EnvCursorProvider {
            primary_id,
            env_flags,
            staging_initial_map_size,
            staging_env_flags,
            phantom: PhantomData,
        }
    }

    /// The flags of the primary.
    pub fn env_flags(&self) -> (flags: Option<EnvironmentFlags>)
        ensures
            flags == self.spec_env_flags(),
    {
        self.env_flags
    }

    /// The size of the region that the staging stores of a new cursor get.
    pub fn staging_initial_map_size(&self) -> (size: Option<usize>)
        ensures
            size == self.spec_staging_initial_map_size(),
    {
        self.staging_initial_map_size
    }

    /// The flags of the staging stores.
    pub fn staging_env_flags(&self) -> (flags: Option<EnvironmentFlags>)
        ensures
            flags == self.spec_staging_env_flags(),
    {
        self.staging_env_flags
    }

    /// A cursor with nothing staged, whose staging stores have the identity
    /// `staging_id`.
    pub fn cursor_with_staging_id(&self, staging_id: u128) -> (cursor: EnvCursor<A>)
        ensures
            cursor.spec_id() == self.spec_primary_id(),
            cursor.staging_cas()@ == Map::<Seq<u8>, Seq<u8>>::empty(),
            cursor.staging_cas().entries().len() == 0,
            cursor.staging_cas().used_bytes() == 0,
            cursor.staging_cas().spec_id() == staging_id,
            cursor.staging_cas().spec_map_size() == (match self.spec_staging_initial_map_size() {
                Some(size) => size,
                None => crate::cas::DEFAULT_MAP_SIZE,
            }),
            cursor.staging_eav()@ == Seq::<Eavi>::empty(),
            cursor.staging_eav().spec_id() == staging_id,
            cursor.staging_eav().spec_map_size() == (match self.spec_staging_initial_map_size() {
                Some(size) => size,
                None => crate::cas::DEFAULT_MAP_SIZE,
            }),
            cursor.staging_cas().is_sound(),
            cursor.staging_eav().is_sound(),
            cursor.is_one_staging_region(),
    {
        let staging_cas_db = ExampleContentAddressableStorage::with_map_size(
            staging_id,
            self.staging_initial_map_size,
        );
        let staging_eav_db = ExampleEntityAttributeValueStorage::with_map_size(
            staging_id,
            self.staging_initial_map_size,
        );
        EnvCursor::new(self.primary_id, staging_cas_db, staging_eav_db)
    }
}

impl<A: Attribute> CursorProvider<A, EnvManager<A>> for EnvCursorProvider<A> {
    type Cursor = EnvCursor<A>;

    open spec fn hands_out(&self, cursor: EnvCursor<A>) -> bool {
        &&& cursor.spec_id() == self.spec_primary_id()
        &&& cursor.staging_cas()@ == Map::<Seq<u8>, Seq<u8>>::empty()
        &&& cursor.staging_cas().entries().len() == 0
        &&& cursor.staging_cas().used_bytes() == 0
        &&& cursor.staging_cas().spec_map_size() == (match self.spec_staging_initial_map_size() {
            Some(size) => size,
            None => crate::cas::DEFAULT_MAP_SIZE,
        })
        &&& cursor.staging_eav()@ == Seq::<Eavi>::empty()
        &&& cursor.staging_eav().spec_map_size() == (match self.spec_staging_initial_map_size() {
            Some(size) => size,
            None => crate::cas::DEFAULT_MAP_SIZE,
        })
        &&& cursor.staging_cas().is_sound()
        &&& cursor.staging_eav().is_sound()
        &&& cursor.is_one_staging_region()
    }

    /// A cursor with nothing staged, whose staging stores have an identity
    /// drawn at random. It never fails.
    fn create_cursor(&self) -> (result: Result<EnvCursor<A>, PersistenceError>)
        ensures
            result matches Ok(cursor) && is_random_uuid(cursor.staging_cas().spec_id())
                && cursor.staging_eav().spec_id() == cursor.staging_cas().spec_id(),
    {
        Ok(self.cursor_with_staging_id(fresh_id()))
    }
}

/// A manager of two empty stores in memory with the identities `cas_id` and
/// `eav_id`, which share one region of `initial_map_size` bytes, with
/// cursors whose staging stores start in a region of
/// `staging_initial_map_size` bytes. A size that is not given is the default
/// size.
pub fn manager_with_ids<A: Attribute>(
    cas_id: u128,
    eav_id: u128,
    initial_map_size: Option<usize>,
    env_flags: Option<EnvironmentFlags>,
    staging_initial_map_size: Option<usize>,
    staging_env_flags: Option<EnvironmentFlags>,
) -> (manager: EnvManager<A>)
    ensures
        manager.cas@ == Map::<Seq<u8>, Seq<u8>>::empty(),
        manager.cas.entries().len() == 0,
        manager.cas.is_sound(),
        manager.eav.is_sound(),
        is_one_region(manager),
        manager.cas.used_bytes() == 0,
        manager.cas.spec_id() == cas_id,
        manager.cas.spec_map_size() == (match initial_map_size {
            Some(size) => size,
            None => crate::cas::DEFAULT_MAP_SIZE,
        }),
        manager.eav@ == Seq::<Eavi>::empty(),
        manager.eav.spec_id() == eav_id,
        manager.eav.spec_map_size() == (match initial_map_size {
            Some(size) => size,
            None => crate::cas::DEFAULT_MAP_SIZE,
        }),
        manager.cursor_provider.spec_primary_id() == cas_id,
        manager.cursor_provider.spec_env_flags() == env_flags,
        manager.cursor_provider.spec_staging_initial_map_size() == staging_initial_map_size,
        manager.cursor_provider.spec_staging_env_flags() == staging_env_flags,
{
    let cas_db = ExampleContentAddressableStorage::with_map_size(cas_id, initial_map_size);
    let eav_db = ExampleEntityAttributeValueStorage::with_map_size(eav_id, initial_map_size);
    let cursor_provider = EnvCursorProvider::new(
        cas_id,
        env_flags,
        staging_initial_map_size,
        staging_env_flags,
    );
    DefaultPersistenceManager::new(cas_db, eav_db, cursor_provider)
}

/// A manager of two empty stores in memory, which share one region of
/// `initial_map_size` bytes, with cursors whose staging stores start in a
/// region of `staging_initial_map_size` bytes. A size that is not given is
/// the default size. The identities of the stores are drawn at random.
pub fn new_manager<A: Attribute>(
    initial_map_size: Option<usize>,
    env_flags: Option<EnvironmentFlags>,
    staging_initial_map_size: Option<usize>,
    staging_env_flags: Option<EnvironmentFlags>,
) -> (manager: EnvManager<A>)
    ensures
        manager.cas@ == Map::<Seq<u8>, Seq<u8>>::empty(),
        manager.cas.entries().len() == 0,
        manager.cas.is_sound(),
        manager.eav.is_sound(),
        is_one_region(manager),
        manager.cas.used_bytes() == 0,
        manager.cas.spec_map_size() == (match initial_map_size {
            Some(size) => size,
            None => crate::cas::DEFAULT_MAP_SIZE,
        }),
        manager.eav@ == Seq::<Eavi>::empty(),
        manager.eav.spec_map_size() == (match initial_map_size {
            Some(size) => size,
            None => crate::cas::DEFAULT_MAP_SIZE,
        }),
        is_random_uuid(manager.cas.spec_id()),
        is_random_uuid(manager.eav.spec_id()),
        manager.cursor_provider.spec_primary_id() == manager.cas.spec_id(),
        manager.cursor_provider.spec_env_flags() == env_flags,
        manager.cursor_provider.spec_staging_initial_map_size() == staging_initial_map_size,
        manager.cursor_provider.spec_staging_env_flags() == staging_env_flags,
{
    manager_with_ids(
        fresh_id(),
        fresh_id(),
        initial_map_size,
        env_flags,
        staging_initial_map_size,
        staging_env_flags,
    )
}

impl<A: Attribute> Cursor<A, EnvManager<A>> for EnvCursor<A> {

}

} // verus!
