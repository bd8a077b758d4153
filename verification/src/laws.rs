//! What holds of cursors and stores, whatever they hold.

use crate::attribute::Attribute;
use crate::cas::{
    bytes_after_put, fitted_map_size, grown_map_size, lemma_bytes_of_held, lemma_peak_bytes_bound,
    lemma_put_each_bound, lookup,
};
use crate::content::Content;
use crate::cursor::{EnvCursor, EnvManager};
use crate::eav::{lemma_with_all_bound, lemma_with_all_fits, records_bytes};
use crate::error::PersistenceError;
use crate::txn::{CursorProvider, Writer};
use crate::codec::{decode_eavi, encodable, encode_eavi, lemma_decode_of_encode};
use crate::cursor::{cursor_evaluate, cursor_lookup, staged_after_query};
use crate::eav::{lemma_with_all, lemma_with_record, with_all, with_record};
use crate::eavi::{Eavi, EntityAttributeValueIndex};
use crate::query::{evaluate, is_ordered, lemma_evaluate_ordered, Query};
use vstd::prelude::*;

verus! {

/// Content that a cursor staged and committed is what a new cursor fetches.
///
/// `primary` is what the primary held before the commit and `staged` what
/// the cursor had staged before it staged `content` under `address`.
pub proof fn law_committed_content_is_fetched(
    primary: Map<Seq<u8>, Seq<u8>>,
    staged: Map<Seq<u8>, Seq<u8>>,
    address: Seq<u8>,
    content: Seq<u8>,
)
    ensures
        cursor_lookup(
            Map::empty(),
            primary.union_prefer_right(staged.insert(address, content)),
            address,
        ) == Some(content),
{
}

/// A cursor fetches what it staged before any commit.
pub proof fn law_cursor_reads_its_writes(
    primary: Map<Seq<u8>, Seq<u8>>,
    staged: Map<Seq<u8>, Seq<u8>>,
    address: Seq<u8>,
    content: Seq<u8>,
)
    ensures
        cursor_lookup(staged.insert(address, content), primary, address) == Some(content),
{
}

/// What two cursors have staged in front of one primary.
pub struct Session {
    /// What the primary holds.
    pub primary: Map<Seq<u8>, Seq<u8>>,
    /// The records of the primary.
    pub primary_records: Seq<Eavi>,
    /// What the one cursor has staged.
    pub writer: Map<Seq<u8>, Seq<u8>>,
    /// The records that the one cursor has staged.
    pub writer_records: Seq<Eavi>,
    /// What the other cursor has staged.
    pub reader: Map<Seq<u8>, Seq<u8>>,
    /// The records that the other cursor has staged.
    pub reader_records: Seq<Eavi>,
}

/// The session after the one cursor staged `content` under `address`.
pub open spec fn after_add(session: Session, address: Seq<u8>, content: Seq<u8>) -> Session {
    Session { writer: session.writer.insert(address, content), ..session }
}

/// The session after the one cursor staged `record`.
pub open spec fn after_add_eavi(session: Session, record: Eavi) -> Session {
    Session { writer_records: with_record(session.writer_records, record), ..session }
}

/// The session after the one cursor committed.
pub open spec fn after_commit(session: Session) -> Session {
    Session {
        primary: session.primary.union_prefer_right(session.writer),
        primary_records: with_all(session.primary_records, session.writer_records),
        ..session
    }
}

/// What the other cursor fetches under `address`.
pub open spec fn reader_fetches(session: Session, address: Seq<u8>) -> Option<Seq<u8>> {
    cursor_lookup(session.reader, session.primary, address)
}

/// What the other cursor answers to `query`.
pub open spec fn reader_finds(session: Session, query: Query) -> Seq<Eavi> {
    cursor_evaluate(session.reader_records, session.primary_records, query)
}

/// What a cursor stages is invisible to every other cursor until it
/// commits: the other cursor fetches and finds what it did before.
pub proof fn law_staged_writes_are_invisible(
    session: Session,
    address: Seq<u8>,
    content: Seq<u8>,
    record: Eavi,
    asked: Seq<u8>,
    query: Query,
)
    ensures
        reader_fetches(after_add(session, address, content), asked) == reader_fetches(
            session,
            asked,
        ),
        reader_finds(after_add(session, address, content), query) == reader_finds(session, query),
        reader_fetches(after_add_eavi(session, record), asked) == reader_fetches(session, asked),
        reader_finds(after_add_eavi(session, record), query) == reader_finds(session, query),
{
}

/// Once a cursor has committed, another cursor that has nothing staged
/// under an address fetches what was committed there.
pub proof fn law_committed_writes_are_visible(session: Session, address: Seq<u8>)
    requires
        session.writer.contains_key(address),
        !session.reader.contains_key(address),
    ensures
        reader_fetches(after_commit(session), address) == Some(session.writer[address]),
{
}

/// There is content under an address exactly if a fetch finds some, in a
/// store and through a cursor.
pub proof fn law_contains_iff_fetched(
    primary: Map<Seq<u8>, Seq<u8>>,
    staged: Map<Seq<u8>, Seq<u8>>,
    address: Seq<u8>,
)
    ensures
        primary.contains_key(address) <==> lookup(primary, address) is Some,
        staged.contains_key(address) || primary.contains_key(address) <==> cursor_lookup(
            staged,
            primary,
            address,
        ) is Some,
{
}

/// Writing the same content under the same address a second time changes
/// neither what a store holds nor the bytes it takes.
pub proof fn law_add_is_idempotent(
    contents: Map<Seq<u8>, Seq<u8>>,
    used: nat,
    address: Seq<u8>,
    content: Seq<u8>,
)
    ensures
        contents.insert(address, content).insert(address, content) == contents.insert(
            address,
            content,
        ),
        bytes_after_put(
            contents.insert(address, content),
            bytes_after_put(contents, used, address, content),
            address,
            content,
        ) == bytes_after_put(contents, used, address, content),
{
    assert(contents.insert(address, content).insert(address, content) =~= contents.insert(
        address,
        content,
    ));
}

/// Putting the same record among ordered records a second time changes
/// nothing.
pub proof fn law_add_eavi_is_idempotent(records: Seq<Eavi>, record: Eavi)
    requires
        is_ordered(records),
    ensures
        with_record(with_record(records, record), record) == with_record(records, record),
{
    lemma_with_record(records, record);
    let once = with_record(records, record);
    let place = crate::eav::lemma_place_exists(once, record);
    crate::eav::lemma_with_record_at(once, record, place.0, place.1);
}

/// A record that is stored under its address and fetched again is decoded
/// to the record that was stored.
pub proof fn law_record_round_trips<A: Attribute>(
    contents: Map<Seq<u8>, Seq<u8>>,
    record: EntityAttributeValueIndex<A>,
)
    requires
        encodable(record@),
    ensures
        lookup(
            contents.insert(encode_eavi(record@), encode_eavi(record@)),
            encode_eavi(record@),
        ) is Some,
        decode_eavi::<A>(
            lookup(
                contents.insert(encode_eavi(record@), encode_eavi(record@)),
                encode_eavi(record@),
            )->Some_0,
        ) == Some(record@),
{
    lemma_decode_of_encode(record);
}

/// A region that is grown to fit holds what it was grown for, whatever its
/// size was before, as long as the machine can address that much.
pub proof fn law_grown_region_fits(map_size: usize, demand: nat)
    requires
        demand <= usize::MAX,
    ensures
        fitted_map_size(map_size, demand) >= demand,
        fitted_map_size(map_size, demand) >= map_size,
        demand <= map_size ==> fitted_map_size(map_size, demand) == map_size,
    decreases usize::MAX - map_size,
{
    if demand > map_size && map_size < usize::MAX {
        law_grown_region_fits(grown_map_size(map_size), demand);
    }
}

/// What a cursor answers to a query is in the order of records, whether it
/// comes from staging or from the primary.
pub proof fn law_answers_are_ordered(staged: Seq<Eavi>, primary: Seq<Eavi>, query: Query)
    requires
        is_ordered(staged),
        is_ordered(primary),
    ensures
        is_ordered(cursor_evaluate(staged, primary, query)),
        is_ordered(staged_after_query(staged, primary, query)),
{
    lemma_evaluate_ordered(query, staged);
    lemma_evaluate_ordered(query, primary);
    lemma_with_all(staged, evaluate(query, primary));
}

/// What a cursor answers to a query holds nothing but records that are
/// staged or in the primary.
pub proof fn law_answers_come_from_the_stores(
    staged: Seq<Eavi>,
    primary: Seq<Eavi>,
    query: Query,
    i: int,
)
    requires
        is_ordered(staged),
        is_ordered(primary),
        0 <= i < cursor_evaluate(staged, primary, query).len(),
    ensures
        staged.contains(cursor_evaluate(staged, primary, query)[i]) || primary.contains(
            cursor_evaluate(staged, primary, query)[i],
        ),
{
    lemma_evaluate_ordered(query, staged);
    lemma_evaluate_ordered(query, primary);
}

/// A commit of nothing leaves the primary as it is.
pub proof fn law_empty_commit_changes_nothing(
    primary: Map<Seq<u8>, Seq<u8>>,
    primary_records: Seq<Eavi>,
)
    ensures
        primary.union_prefer_right(Map::empty()) == primary,
        with_all(primary_records, Seq::empty()) == primary_records,
{
    assert(primary.union_prefer_right(Map::<Seq<u8>, Seq<u8>>::empty()) =~= primary);
}

/// A commit succeeds where the machine can address what the primary holds
/// and what is staged together, whatever the size of the region of the
/// primary is; a full region never fails it. The primary then holds all
/// that was staged, in one region that has room for it.
pub proof fn law_commit_succeeds_where_all_fits<A: Attribute>(
    cursor: EnvCursor<A>,
    before: EnvManager<A>,
    after: EnvManager<A>,
    result: Result<(), PersistenceError>,
)
    requires
        cursor.is_cursor_of(before),
        cursor.commits(before, after, result),
        before.cas.is_sound(),
        before.eav.is_sound(),
        cursor.staging_cas().is_sound(),
        cursor.staging_eav().is_sound(),
        before.cas.used_bytes() + cursor.staging_cas().used_bytes() + before.eav.used_bytes()
            + cursor.staging_eav().used_bytes() <= usize::MAX,
    ensures
        result is Ok,
        forall|address: Seq<u8>| #[trigger]
            cursor.staging_cas()@.contains_key(address) ==> lookup(after.cas@, address) == Some(
                cursor.staging_cas()@[address],
            ),
        forall|record: Eavi| #[trigger]
            cursor.staging_eav()@.contains(record) ==> after.eav@.contains(record),
        after.cas.used_bytes() + after.eav.used_bytes() <= after.cas.spec_map_size(),
        after.eav.spec_map_size() == after.cas.spec_map_size(),
{
    lemma_peak_bytes_bound(before.cas.entries(), cursor.staging_cas().entries());
    lemma_put_each_bound(before.cas.entries(), cursor.staging_cas().entries());
    lemma_with_all_bound(before.eav@, cursor.staging_eav()@);
    lemma_with_all(before.eav@, cursor.staging_eav()@);
}

/// A commit into a primary that holds nothing succeeds where the machine
/// can address what is staged, however small the region of the primary is.
pub proof fn law_commit_into_new_primary_succeeds<A: Attribute>(
    cursor: EnvCursor<A>,
    before: EnvManager<A>,
    after: EnvManager<A>,
    result: Result<(), PersistenceError>,
)
    requires
        cursor.is_cursor_of(before),
        cursor.commits(before, after, result),
        before.cas.is_sound(),
        before.eav.is_sound(),
        before.cas.used_bytes() == 0,
        before.eav@.len() == 0,
        cursor.staging_cas().is_sound(),
        cursor.staging_eav().is_sound(),
        cursor.staging_cas().used_bytes() + cursor.staging_eav().used_bytes() <= usize::MAX,
    ensures
        result is Ok,
{
    law_commit_succeeds_where_all_fits(cursor, before, after, result);
}

/// Content that a cursor staged and committed is what a new cursor of the
/// manager fetches under its address.
///
/// `earlier` is the writing cursor before it staged `content` under
/// `address`, `writer` that cursor before its commit, and `reader` the new
/// cursor, whose fetch took it to `reader_after` and ended in `found`.
pub proof fn law_new_cursor_fetches_what_was_committed<A: Attribute>(
    earlier: EnvCursor<A>,
    address: Seq<u8>,
    content: Seq<u8>,
    writer: EnvCursor<A>,
    before: EnvManager<A>,
    after: EnvManager<A>,
    reader: EnvCursor<A>,
    reader_after: EnvCursor<A>,
    found: Result<Option<Content>, PersistenceError>,
)
    requires
        writer.is_after_staging(earlier, address, content),
        earlier.demand_with_content(address, content) <= usize::MAX,
        writer.is_cursor_of(before),
        writer.commits(before, after, Ok(())),
        after.cursor_provider.hands_out(reader),
        reader.is_cursor_of(after),
        reader.fetches(reader_after, after, address, found),
    ensures
        found matches Ok(Some(fetched)) && fetched@ == content,
{
    assert(after.cas@.contains_key(address));
    lemma_bytes_of_held(after.cas.entries(), address);
}

/// Records that are staged one after the other are all staged, each
/// without fail, where the machine can address what is staged in the end;
/// and once committed they are all in the primary.
///
/// `staged` are the records that were staged before the run, and `beside`
/// are the bytes of the content that is staged in the same region.
pub proof fn law_run_of_records_is_kept(
    staged: Seq<Eavi>,
    beside: nat,
    run: Seq<Eavi>,
    primary: Seq<Eavi>,
    i: int,
)
    requires
        is_ordered(staged),
        is_ordered(primary),
        records_bytes(with_all(staged, run)) + beside <= usize::MAX,
        0 <= i < run.len(),
    ensures
        records_bytes(with_record(with_all(staged, run.take(i)), run[i])) + beside <= usize::MAX,
        with_all(staged, run.take(i + 1)) == with_record(with_all(staged, run.take(i)), run[i]),
        with_all(staged, run).contains(run[i]),
        with_all(primary, with_all(staged, run)).contains(run[i]),
{
    lemma_with_all_fits(staged, run, (usize::MAX - beside) as nat);
    crate::eav::lemma_with_all_split(staged, run.take(i + 1), i);
    assert(run.take(i + 1).take(i) =~= run.take(i));
    assert(run.take(i + 1).skip(i) =~= seq![run[i]]);
    assert(seq![run[i]].drop_first() =~= Seq::<Eavi>::empty());
    assert(with_all(with_all(staged, run.take(i)), seq![run[i]]) == with_record(
        with_all(staged, run.take(i)),
        run[i],
    )) by {
        reveal_with_fuel(with_all, 2);
    }
    lemma_with_all(staged, run);
    assert(run[i] == run[i]);
    lemma_with_all(primary, with_all(staged, run));
}

/// The indices of records that are made one after the other with the same
/// clock rise, whatever the wall clock reads.
///
/// `first` and `second` are the indices of the two records, and `between`
/// is what the clock had handed out last when the first record was made.
pub proof fn law_new_records_rise(between: Option<int>, first: int, second: int)
    requires
        between == Some(first),
        between matches Some(before) ==> before < second,
    ensures
        first < second,
{
}

} // verus!
