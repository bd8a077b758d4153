//! Content-addressable storage: a map from addresses to content that lives in
//! a region of limited, growable size.

use crate::content::{Address, AddressableContent, Content};
use crate::error::PersistenceError;
use crate::ident::{fresh_id, is_random_uuid};
use crate::order::{bytes_lt, lemma_bytes_lt_irreflexive, lemma_bytes_lt_transitive, Rank};
use vstd::prelude::*;

verus! {

/// The region that a store is given when none is asked for: 100 MiB.
pub const DEFAULT_MAP_SIZE: usize = 104857600;

/// The size that a full region of size `map_size` is grown to: twice the
/// size, no less than one byte and no more than the machine can address.
pub open spec fn grown_map_size(map_size: usize) -> usize {
    if map_size == 0 {
        1
    } else if map_size > usize::MAX / 2 {
        usize::MAX
    } else {
        (2 * map_size) as usize
    }
}

/// The size that a region of size `map_size` has once it was grown, as often
/// as needed, to hold `demand` bytes, or to the largest size there is.
pub open spec fn fitted_map_size(map_size: usize, demand: nat) -> usize
    decreases usize::MAX - map_size,
{
    if demand <= map_size || map_size == usize::MAX {
        map_size
    } else {
        fitted_map_size(grown_map_size(map_size), demand)
    }
}

/// The size that a full region of size `map_size` is grown to.
pub fn grow_map_size(map_size: usize) -> (grown: usize)
    ensures
        grown == grown_map_size(map_size),
        map_size < usize::MAX ==> grown > map_size,
{
    if map_size == 0 {
        1
    } else if map_size > usize::MAX / 2 {
        usize::MAX
    } else {
        2 * map_size
    }
}

/// A region that was grown to fit is grown on as if it had not been: growing
/// for `small` bytes and then for `large` is growing for `large`.
pub proof fn lemma_fitted_again(map_size: usize, small: nat, large: nat)
    requires
        small <= large,
    ensures
        fitted_map_size(fitted_map_size(map_size, small), large) == fitted_map_size(
            map_size,
            large,
        ),
    decreases usize::MAX - map_size,
{
    if small > map_size && map_size < usize::MAX {
        lemma_fitted_again(grown_map_size(map_size), small, large);
    }
}

/// What one lookup in a store answers: the content under `address`, if any.
pub open spec fn lookup(contents: Map<Seq<u8>, Seq<u8>>, address: Seq<u8>) -> Option<Seq<u8>> {
    if contents.contains_key(address) {
        Some(contents[address])
    } else {
        None
    }
}

/// What a content-addressable store offers, whatever it keeps its entries in.
pub trait ContentAddressableStorage {
    /// What the store holds: the content under each address.
    spec fn contents(&self) -> Map<Seq<u8>, Seq<u8>>;

    /// Whether writing `content` under `address` may take the store to
    /// `after` and end in `result`: when such a write succeeds, with which
    /// error it fails, and what it does to the store besides its contents.
    spec fn adds(
        &self,
        after: &Self,
        address: Seq<u8>,
        content: Seq<u8>,
        result: Result<(), PersistenceError>,
    ) -> bool;

    /// Writes the content of `content` under its address. Writing what is
    /// there already changes nothing. A write that fails changes nothing.
    fn add<C: AddressableContent>(&mut self, content: &C) -> (result: Result<
        (),
        PersistenceError,
    >)
        ensures
            old(self).adds(
                final(self),
                content.address_spec(),
                content.content_spec(),
                result,
            ),
            result is Ok ==> final(self).contents() == old(self).contents().insert(
                content.address_spec(),
                content.content_spec(),
            ),
            result is Err ==> final(self).contents() == old(self).contents(),
    ;

    /// The content under `address`, if there is any.
    fn fetch(&self, address: &Address) -> (result: Result<Option<Content>, PersistenceError>)
        ensures
            result matches Ok(found) ==> (match found {
                Some(content) => Some(content@),
                None => None,
            }) == lookup(self.contents(), address@),
    ;

    /// Whether there is content under `address`.
    fn contains(&self, address: &Address) -> (result: Result<bool, PersistenceError>)
        ensures
            result matches Ok(held) ==> held == (lookup(self.contents(), address@) is Some),
    ;

    /// The identity of the store, which a copy shares.
    spec fn identity(&self) -> u128;

    /// The identity of the store, which a copy shares.
    fn get_id(&self) -> (id: u128)
        ensures
            id == self.identity(),
    ;
}

/// The bytes that `contents`, holding `used` bytes, holds once `content` is
/// written under `address`: an address that is new adds its own length and
/// that of the content; one that is there has its content replaced.
pub open spec fn bytes_after_put(
    contents: Map<Seq<u8>, Seq<u8>>,
    used: nat,
    address: Seq<u8>,
    content: Seq<u8>,
) -> nat {
    if contents.contains_key(address) {
        (used - contents[address].len() + content.len()) as nat
    } else {
        used + address.len() + content.len()
    }
}

/// The bytes that `contents`, holding `used` bytes, holds at most while the
/// entries of `staged` are written into it one after the other.
pub open spec fn peak_bytes(
    contents: Map<Seq<u8>, Seq<u8>>,
    used: nat,
    staged: Seq<(Seq<u8>, Seq<u8>)>,
) -> nat
    decreases staged.len(),
{
    if staged.len() == 0 {
        used
    } else {
        let next = bytes_after_put(contents, used, staged[0].0, staged[0].1);
        let rest = peak_bytes(contents.insert(staged[0].0, staged[0].1), next, staged.drop_first());
        if next >= rest {
            next
        } else {
            rest
        }
    }
}

/// What `contents`, holding `used` bytes in a region of `map_size` bytes,
/// holds, and the bytes it takes, once the entries of `staged` were written
/// into it one after the other, up to the first that did not fit.
pub open spec fn put_all_that_fit(
    contents: Map<Seq<u8>, Seq<u8>>,
    used: nat,
    staged: Seq<(Seq<u8>, Seq<u8>)>,
    map_size: nat,
) -> (Map<Seq<u8>, Seq<u8>>, nat)
    decreases staged.len(),
{
    if staged.len() == 0 {
        (contents, used)
    } else {
        let next = bytes_after_put(contents, used, staged[0].0, staged[0].1);
        if next > map_size {
            (contents, used)
        } else {
            put_all_that_fit(
                contents.insert(staged[0].0, staged[0].1),
                next,
                staged.drop_first(),
                map_size,
            )
        }
    }
}

/// What `contents`, holding `used` bytes, holds, and the bytes it takes,
/// once the entries of `staged` were written into it one after the other.
pub open spec fn put_each(
    contents: Map<Seq<u8>, Seq<u8>>,
    used: nat,
    staged: Seq<(Seq<u8>, Seq<u8>)>,
) -> (Map<Seq<u8>, Seq<u8>>, nat)
    decreases staged.len(),
{
    if staged.len() == 0 {
        (contents, used)
    } else {
        put_each(
            contents.insert(staged[0].0, staged[0].1),
            bytes_after_put(contents, used, staged[0].0, staged[0].1),
            staged.drop_first(),
        )
    }
}

/// Where every write fits, all entries are written.
pub proof fn lemma_put_all_fits(
    contents: Map<Seq<u8>, Seq<u8>>,
    used: nat,
    staged: Seq<(Seq<u8>, Seq<u8>)>,
    map_size: nat,
)
    requires
        peak_bytes(contents, used, staged) <= map_size,
    ensures
        put_all_that_fit(contents, used, staged, map_size) == put_each(contents, used, staged),
    decreases staged.len(),
{
    if staged.len() > 0 {
        lemma_put_all_fits(
            contents.insert(staged[0].0, staged[0].1),
            bytes_after_put(contents, used, staged[0].0, staged[0].1),
            staged.drop_first(),
            map_size,
        );
    }
}

/// Each entry has an address that comes strictly before those after it.
pub open spec fn keys_ascending(entries: Seq<(Seq<u8>, Seq<u8>)>) -> bool {
    forall|i: int, j: int|
        0 <= i < j < entries.len() ==> bytes_lt(#[trigger] entries[i].0, #[trigger] entries[j].0)
}

/// One of the entries has the address `address`.
pub open spec fn holds_key(entries: Seq<(Seq<u8>, Seq<u8>)>, address: Seq<u8>) -> bool {
    exists|i: int| 0 <= i < entries.len() && #[trigger] entries[i].0 == address
}

/// The content under each address of the entries.
pub open spec fn map_of(entries: Seq<(Seq<u8>, Seq<u8>)>) -> Map<Seq<u8>, Seq<u8>> {
    Map::new(
        |address: Seq<u8>| holds_key(entries, address),
        |address: Seq<u8>|
            entries[choose|i: int| 0 <= i < entries.len() && #[trigger] entries[i].0 == address].1,
    )
}

/// The bytes that the entries take: of each its address and its content.
pub open spec fn bytes_of(entries: Seq<(Seq<u8>, Seq<u8>)>) -> nat
    decreases entries.len(),
{
    if entries.len() == 0 {
        0
    } else {
        bytes_of(entries.drop_last()) + entries.last().0.len() + entries.last().1.len()
    }
}

/// The bytes of the content of the entries, without their addresses.
pub open spec fn content_bytes_of(entries: Seq<(Seq<u8>, Seq<u8>)>) -> nat
    decreases entries.len(),
{
    if entries.len() == 0 {
        0
    } else {
        content_bytes_of(entries.drop_last()) + entries.last().1.len()
    }
}

/// The content of the first entries takes no more bytes than those entries
/// do, and they no more than all entries.
pub proof fn lemma_content_bytes_bound(entries: Seq<(Seq<u8>, Seq<u8>)>, n: int)
    requires
        0 <= n <= entries.len(),
    ensures
        content_bytes_of(entries.take(n)) <= bytes_of(entries.take(n)),
        bytes_of(entries.take(n)) <= bytes_of(entries),
    decreases entries.len() + entries.len() - n,
{
    if n > 0 {
        assert(entries.take(n).drop_last() =~= entries.take(n - 1));
        lemma_content_bytes_bound(entries.take(n - 1), n - 1);
        assert(entries.take(n - 1).take(n - 1) =~= entries.take(n - 1));
    }
    if n < entries.len() {
        assert(entries.take(n + 1).drop_last() =~= entries.take(n));
        lemma_prefix_bytes(entries, n + 1);
    } else {
        assert(entries.take(n) =~= entries);
    }
}

proof fn lemma_prefix_bytes(entries: Seq<(Seq<u8>, Seq<u8>)>, n: int)
    requires
        0 <= n <= entries.len(),
    ensures
        bytes_of(entries.take(n)) <= bytes_of(entries),
    decreases entries.len() - n,
{
    if n < entries.len() {
        assert(entries.take(n + 1).drop_last() =~= entries.take(n));
        lemma_prefix_bytes(entries, n + 1);
    } else {
        assert(entries.take(n) =~= entries);
    }
}

/// The ascending entries `entries` with `content` under `address`: in place
/// of what was under the address, or else in the place of the address.
pub open spec fn entries_with(
    entries: Seq<(Seq<u8>, Seq<u8>)>,
    address: Seq<u8>,
    content: Seq<u8>,
) -> Seq<(Seq<u8>, Seq<u8>)>
    decreases entries.len(),
{
    if entries.len() == 0 {
        seq![(address, content)]
    } else if entries.last().0 == address {
        entries.drop_last().push((address, content))
    } else if bytes_lt(entries.last().0, address) {
        entries.push((address, content))
    } else {
        entries_with(entries.drop_last(), address, content).push(entries.last())
    }
}

/// An entry under an address takes no more bytes than all entries do.
pub proof fn lemma_bytes_of_entry(entries: Seq<(Seq<u8>, Seq<u8>)>, i: int)
    requires
        0 <= i < entries.len(),
    ensures
        entries[i].0.len() + entries[i].1.len() <= bytes_of(entries),
    decreases entries.len(),
{
    if i < entries.len() - 1 {
        lemma_bytes_of_entry(entries.drop_last(), i);
    }
}

/// What ascending entries hold under an address takes, with the address, no
/// more bytes than all entries do.
pub proof fn lemma_bytes_of_held(entries: Seq<(Seq<u8>, Seq<u8>)>, address: Seq<u8>)
    requires
        keys_ascending(entries),
        map_of(entries).contains_key(address),
    ensures
        address.len() + map_of(entries)[address].len() <= bytes_of(entries),
{
    let i = choose|i: int| 0 <= i < entries.len() && #[trigger] entries[i].0 == address;
    lemma_bytes_of_entry(entries, i);
}

/// Ascending entries with one more entry behind them, whose address comes
/// after all of theirs, are ascending and hold that entry besides.
pub proof fn lemma_map_of_push(entries: Seq<(Seq<u8>, Seq<u8>)>, address: Seq<u8>, content: Seq<u8>)
    requires
        keys_ascending(entries),
        forall|i: int| 0 <= i < entries.len() ==> bytes_lt(#[trigger] entries[i].0, address),
    ensures
        keys_ascending(entries.push((address, content))),
        !map_of(entries).contains_key(address),
        map_of(entries.push((address, content))) == map_of(entries).insert(address, content),
{
    let after = entries.push((address, content));
    lemma_bytes_lt_irreflexive(address);
    assert forall|i: int, j: int| 0 <= i < j < after.len() implies bytes_lt(
        #[trigger] after[i].0,
        #[trigger] after[j].0,
    ) by {
        if j < entries.len() {
            assert(bytes_lt(entries[i].0, entries[j].0));
        } else {
            assert(bytes_lt(entries[i].0, address));
        }
    }
    if holds_key(entries, address) {
        let i = choose|i: int| 0 <= i < entries.len() && #[trigger] entries[i].0 == address;
        assert(bytes_lt(entries[i].0, address));
    }
    assert forall|key: Seq<u8>|
        map_of(after).contains_key(key) == map_of(entries).insert(address, content).contains_key(
            key,
        ) by {
        if holds_key(after, key) {
            let i = choose|i: int| 0 <= i < after.len() && #[trigger] after[i].0 == key;
            if i < entries.len() {
                assert(entries[i].0 == key);
            }
        }
        if holds_key(entries, key) {
            let i = choose|i: int| 0 <= i < entries.len() && #[trigger] entries[i].0 == key;
            assert(after[i].0 == key);
        }
        if key == address {
            assert(after[entries.len() as int].0 == key);
        }
    }
    assert forall|key: Seq<u8>| map_of(after).contains_key(key) implies map_of(after)[key]
        == map_of(entries).insert(address, content)[key] by {
        let i = choose|i: int| 0 <= i < after.len() && #[trigger] after[i].0 == key;
        if key == address {
            if i < entries.len() {
                assert(bytes_lt(entries[i].0, address));
            }
        } else {
            assert(entries[i].0 == key);
            let j = choose|j: int| 0 <= j < entries.len() && #[trigger] entries[j].0 == key;
            lemma_bytes_lt_irreflexive(key);
            if i < j {
                assert(bytes_lt(entries[i].0, entries[j].0));
            } else if j < i {
                assert(bytes_lt(entries[j].0, entries[i].0));
            }
        }
    }
    assert(map_of(after) =~= map_of(entries).insert(address, content));
}

/// Ascending entries without the last are ascending, come before the last,
/// and hold what all hold but for the last.
pub proof fn lemma_map_of_last(entries: Seq<(Seq<u8>, Seq<u8>)>)
    requires
        keys_ascending(entries),
        entries.len() > 0,
    ensures
        keys_ascending(entries.drop_last()),
        forall|i: int|
            0 <= i < entries.len() - 1 ==> bytes_lt(
                #[trigger] entries.drop_last()[i].0,
                entries.last().0,
            ),
        !map_of(entries.drop_last()).contains_key(entries.last().0),
        map_of(entries) == map_of(entries.drop_last()).insert(entries.last().0, entries.last().1),
{
    let shorter = entries.drop_last();
    let end = entries.len() - 1;
    assert forall|i: int, j: int| 0 <= i < j < shorter.len() implies bytes_lt(
        #[trigger] shorter[i].0,
        #[trigger] shorter[j].0,
    ) by {
        assert(bytes_lt(entries[i].0, entries[j].0));
    }
    assert forall|i: int| 0 <= i < end implies bytes_lt(
        #[trigger] shorter[i].0,
        entries.last().0,
    ) by {
        assert(bytes_lt(entries[i].0, entries[end].0));
    }
    lemma_map_of_push(shorter, entries.last().0, entries.last().1);
    assert(shorter.push(entries.last()) =~= entries);
}

/// Writing content under an address keeps ascending entries ascending,
/// puts the content under the address, and takes the bytes that it takes.
pub proof fn lemma_entries_with(
    entries: Seq<(Seq<u8>, Seq<u8>)>,
    address: Seq<u8>,
    content: Seq<u8>,
)
    requires
        keys_ascending(entries),
    ensures
        keys_ascending(entries_with(entries, address, content)),
        map_of(entries_with(entries, address, content)) == map_of(entries).insert(
            address,
            content,
        ),
        bytes_of(entries_with(entries, address, content)) == bytes_after_put(
            map_of(entries),
            bytes_of(entries),
            address,
            content,
        ),
        forall|i: int|
            0 <= i < entries_with(entries, address, content).len() ==> (#[trigger] entries_with(
                entries,
                address,
                content,
            )[i]).0 == address || holds_key(entries, entries_with(entries, address, content)[i].0),
    decreases entries.len(),
{
    let after = entries_with(entries, address, content);
    if entries.len() == 0 {
        assert(map_of(entries) =~= Map::<Seq<u8>, Seq<u8>>::empty());
        lemma_map_of_push(entries, address, content);
        assert(entries.push((address, content)) =~= after);
        assert(after.drop_last() =~= entries);
    } else {
        let last = entries.last();
        let end = entries.len() - 1;
        let shorter = entries.drop_last();
        lemma_map_of_last(entries);
        assert(entries[end] == last);
        if last.0 == address {
            lemma_map_of_push(shorter, address, content);
            assert(after.drop_last() =~= shorter);
            assert(map_of(after) =~= map_of(entries).insert(address, content));
            assert forall|i: int| 0 <= i < after.len() implies (#[trigger] after[i]).0 == address
                || holds_key(entries, after[i].0) by {
                if i < end {
                    assert(entries[i].0 == after[i].0);
                }
            }
        } else if bytes_lt(last.0, address) {
            assert forall|i: int| 0 <= i < entries.len() implies bytes_lt(
                #[trigger] entries[i].0,
                address,
            ) by {
                if i < end {
                    assert(bytes_lt(entries[i].0, entries[end].0));
                    lemma_bytes_lt_transitive(entries[i].0, last.0, address);
                }
            }
            lemma_map_of_push(entries, address, content);
            assert(after.drop_last() =~= entries);
            assert forall|i: int| 0 <= i < after.len() implies (#[trigger] after[i]).0 == address
                || holds_key(entries, after[i].0) by {
                if i < entries.len() {
                    assert(entries[i].0 == after[i].0);
                }
            }
        } else {
            crate::order::lemma_bytes_lt_total(last.0, address);
            lemma_entries_with(shorter, address, content);
            let inner = entries_with(shorter, address, content);
            assert forall|i: int| 0 <= i < inner.len() implies bytes_lt(
                #[trigger] inner[i].0,
                last.0,
            ) by {
                if inner[i].0 != address {
                    let j = choose|j: int|
                        0 <= j < shorter.len() && #[trigger] shorter[j].0 == inner[i].0;
                    assert(bytes_lt(shorter[j].0, last.0));
                }
            }
            lemma_map_of_push(inner, last.0, last.1);
            assert(after.drop_last() =~= inner);
            assert(map_of(after) =~= map_of(entries).insert(address, content));
            if map_of(shorter).contains_key(address) {
                lemma_bytes_of_held(shorter, address);
            }
            assert forall|i: int| 0 <= i < after.len() implies (#[trigger] after[i]).0 == address
                || holds_key(entries, after[i].0) by {
                if i < inner.len() {
                    assert(after[i] == inner[i]);
                    if inner[i].0 != address {
                        let j = choose|j: int|
                            0 <= j < shorter.len() && #[trigger] shorter[j].0 == inner[i].0;
                        assert(entries[j].0 == inner[i].0);
                    }
                } else {
                    assert(entries[end].0 == after[i].0);
                }
            }
        }
    }
}

/// Writing entries one after the other never takes more bytes than what is
/// there and what is written take together.
pub proof fn lemma_peak_bytes_bound(
    base: Seq<(Seq<u8>, Seq<u8>)>,
    staged: Seq<(Seq<u8>, Seq<u8>)>,
)
    requires
        keys_ascending(base),
    ensures
        peak_bytes(map_of(base), bytes_of(base), staged) <= bytes_of(base) + bytes_of(staged),
    decreases staged.len(),
{
    if staged.len() > 0 {
        let first = staged[0];
        lemma_entries_with(base, first.0, first.1);
        if map_of(base).contains_key(first.0) {
            lemma_bytes_of_held(base, first.0);
        }
        lemma_peak_bytes_bound(entries_with(base, first.0, first.1), staged.drop_first());
        lemma_bytes_of_front(staged);
    }
}

/// What is held once entries were written one after the other never takes
/// more bytes than what was there and what was written take together.
pub proof fn lemma_put_each_bound(
    base: Seq<(Seq<u8>, Seq<u8>)>,
    staged: Seq<(Seq<u8>, Seq<u8>)>,
)
    requires
        keys_ascending(base),
    ensures
        put_each(map_of(base), bytes_of(base), staged).1 <= bytes_of(base) + bytes_of(staged),
    decreases staged.len(),
{
    if staged.len() > 0 {
        let first = staged[0];
        lemma_entries_with(base, first.0, first.1);
        if map_of(base).contains_key(first.0) {
            lemma_bytes_of_held(base, first.0);
        }
        lemma_put_each_bound(entries_with(base, first.0, first.1), staged.drop_first());
        lemma_bytes_of_front(staged);
    }
}

/// The bytes of entries are those of the first and those of the rest.
pub proof fn lemma_bytes_of_front(entries: Seq<(Seq<u8>, Seq<u8>)>)
    requires
        entries.len() > 0,
    ensures
        bytes_of(entries) == entries[0].0.len() + entries[0].1.len() + bytes_of(
            entries.drop_first(),
        ),
    decreases entries.len(),
{
    if entries.len() == 1 {
        assert(entries.drop_last() =~= entries.drop_first());
    } else {
        lemma_bytes_of_front(entries.drop_last());
        assert(entries.drop_last().drop_first() =~= entries.drop_first().drop_last());
    }
}

proof fn lemma_entries_with_at(
    entries: Seq<(Seq<u8>, Seq<u8>)>,
    address: Seq<u8>,
    content: Seq<u8>,
    found: bool,
    at: int,
)
    requires
        keys_ascending(entries),
        0 <= at <= entries.len(),
        forall|i: int| 0 <= i < at ==> bytes_lt(#[trigger] entries[i].0, address),
        found ==> at < entries.len() && entries[at].0 == address,
        !found ==> forall|i: int|
            at <= i < entries.len() ==> bytes_lt(address, #[trigger] entries[i].0),
    ensures
        found ==> entries_with(entries, address, content) == entries.update(
            at,
            (address, content),
        ),
        !found ==> entries_with(entries, address, content) == entries.insert(
            at,
            (address, content),
        ),
    decreases entries.len(),
{
    lemma_bytes_lt_irreflexive(address);
    let entry = (address, content);
    if entries.len() == 0 {
        assert(seq![entry] =~= entries.insert(at, entry));
    } else {
        let last = entries.last();
        let end = entries.len() - 1;
        let shorter = entries.drop_last();
        assert(entries[end] == last);
        if last.0 == address {
            if !found {
                if end < at {
                    assert(bytes_lt(entries[end].0, address));
                } else {
                    assert(bytes_lt(address, entries[end].0));
                }
            }
            if at < end {
                assert(bytes_lt(entries[at].0, entries[end].0));
            }
            assert(shorter.push(entry) =~= entries.update(at, entry));
        } else if bytes_lt(last.0, address) {
            if at < entries.len() {
                if found {
                    if at < end {
                        assert(bytes_lt(entries[at].0, entries[end].0));
                    }
                } else {
                    assert(bytes_lt(address, entries[end].0));
                }
                crate::order::lemma_bytes_lt_asymmetric(last.0, address);
            }
            assert(entries.push(entry) =~= entries.insert(at, entry));
        } else {
            if at == entries.len() {
                assert(bytes_lt(entries[end].0, address));
            }
            assert(keys_ascending(shorter)) by {
                assert forall|i: int, j: int| 0 <= i < j < shorter.len() implies bytes_lt(
                    #[trigger] shorter[i].0,
                    #[trigger] shorter[j].0,
                ) by {
                    assert(bytes_lt(entries[i].0, entries[j].0));
                }
            }
            assert forall|i: int| 0 <= i < at implies bytes_lt(
                #[trigger] shorter[i].0,
                address,
            ) by {
                assert(bytes_lt(entries[i].0, address));
            }
            if found {
                assert(shorter[at] == entries[at]);
            } else {
                assert forall|i: int| at <= i < shorter.len() implies bytes_lt(
                    address,
                    #[trigger] shorter[i].0,
                ) by {
                    assert(bytes_lt(address, entries[i].0));
                }
            }
            lemma_entries_with_at(shorter, address, content, found, at);
            let inner = entries_with(shorter, address, content);
            if found {
                assert(inner.push(last) =~= entries.update(at, entry));
            } else {
                assert(inner.push(last) =~= entries.insert(at, entry));
            }
        }
    }
}

struct Entry {
    address: Address,
    content: Content,
}

spec fn pairs(entries: Seq<Entry>) -> Seq<(Seq<u8>, Seq<u8>)> {
    Seq::new(entries.len(), |i: int| (entries[i].address@, entries[i].content@))
}

spec fn has_key(entries: Seq<Entry>, address: Seq<u8>) -> bool {
    exists|i: int| 0 <= i < entries.len() && entries[i].address@ == address
}

spec fn index_of_key(entries: Seq<Entry>, address: Seq<u8>) -> int {
    choose|i: int| 0 <= i < entries.len() && entries[i].address@ == address
}

spec fn entries_map(entries: Seq<Entry>) -> Map<Seq<u8>, Seq<u8>> {
    Map::new(
        |address: Seq<u8>| has_key(entries, address),
        |address: Seq<u8>| entries[index_of_key(entries, address)].content@,
    )
}

spec fn entries_bytes(entries: Seq<Entry>) -> nat
    decreases entries.len(),
{
    if entries.len() == 0 {
        0
    } else {
        entries_bytes(entries.drop_last()) + entries.last().address@.len()
            + entries.last().content@.len()
    }
}

spec fn ascending(entries: Seq<Entry>) -> bool {
    forall|i: int, j: int|
        0 <= i < j < entries.len() ==> bytes_lt(
            #[trigger] entries[i].address@,
            #[trigger] entries[j].address@,
        )
}

proof fn lemma_ascending_keys_distinct(entries: Seq<Entry>, i: int, j: int)
    requires
        ascending(entries),
        0 <= i < entries.len(),
        0 <= j < entries.len(),
        entries[i].address@ == entries[j].address@,
    ensures
        i == j,
{
    lemma_bytes_lt_irreflexive(entries[i].address@);
}

proof fn lemma_entries_map_at(entries: Seq<Entry>, i: int)
    requires
        ascending(entries),
        0 <= i < entries.len(),
    ensures
        entries_map(entries).contains_key(entries[i].address@),
        entries_map(entries)[entries[i].address@] == entries[i].content@,
{
    let key = entries[i].address@;
    assert(has_key(entries, key));
    lemma_ascending_keys_distinct(entries, i, index_of_key(entries, key));
}

proof fn lemma_bytes_insert(entries: Seq<Entry>, at: int, entry: Entry)
    requires
        0 <= at <= entries.len(),
    ensures
        entries_bytes(entries.insert(at, entry)) == entries_bytes(entries) + entry.address@.len()
            + entry.content@.len(),
    decreases entries.len() - at,
{
    let after = entries.insert(at, entry);
    if at == entries.len() {
        assert(after.drop_last() =~= entries);
    } else {
        assert(after.drop_last() =~= entries.drop_last().insert(at, entry));
        assert(after.last() == entries.last());
        lemma_bytes_insert(entries.drop_last(), at, entry);
    }
}

proof fn lemma_bytes_update(entries: Seq<Entry>, at: int, entry: Entry)
    requires
        0 <= at < entries.len(),
    ensures
        entries_bytes(entries.update(at, entry)) + entries[at].address@.len()
            + entries[at].content@.len() == entries_bytes(entries) + entry.address@.len()
            + entry.content@.len(),
    decreases entries.len(),
{
    let after = entries.update(at, entry);
    if at == entries.len() - 1 {
        assert(after.drop_last() =~= entries.drop_last());
    } else {
        assert(after.drop_last() =~= entries.drop_last().update(at, entry));
        assert(after.last() == entries.last());
        lemma_bytes_update(entries.drop_last(), at, entry);
    }
}

proof fn lemma_map_insert(entries: Seq<Entry>, at: int, entry: Entry)
    requires
        ascending(entries),
        0 <= at <= entries.len(),
        forall|i: int| 0 <= i < at ==> bytes_lt(#[trigger] entries[i].address@, entry.address@),
        forall|i: int|
            at <= i < entries.len() ==> bytes_lt(entry.address@, #[trigger] entries[i].address@),
    ensures
        ascending(entries.insert(at, entry)),
        !entries_map(entries).contains_key(entry.address@),
        entries_map(entries.insert(at, entry)) == entries_map(entries).insert(
            entry.address@,
            entry.content@,
        ),
{
    let after = entries.insert(at, entry);
    assert forall|i: int, j: int| 0 <= i < j < after.len() implies bytes_lt(
        #[trigger] after[i].address@,
        #[trigger] after[j].address@,
    ) by {
        if j < at {
        } else if j == at {
        } else if i < at {
            if at < entries.len() {
                lemma_bytes_lt_transitive(
                    entries[i].address@,
                    entry.address@,
                    entries[j - 1].address@,
                );
            }
        } else if i == at {
        } else {
        }
    }
    lemma_bytes_lt_irreflexive(entry.address@);
    assert(!has_key(entries, entry.address@));
    assert forall|key: Seq<u8>|
        entries_map(after).contains_key(key) == entries_map(entries).insert(
            entry.address@,
            entry.content@,
        ).contains_key(key) by {
        if has_key(after, key) {
            let i = index_of_key(after, key);
            if i < at {
                assert(entries[i].address@ == key);
            } else if i > at {
                assert(entries[i - 1].address@ == key);
            }
        }
        if has_key(entries, key) {
            let i = index_of_key(entries, key);
            if i < at {
                assert(after[i].address@ == key);
            } else {
                assert(after[i + 1].address@ == key);
            }
        }
        if key == entry.address@ {
            assert(after[at].address@ == key);
        }
    }
    assert forall|key: Seq<u8>| entries_map(after).contains_key(key) implies entries_map(after)[key]
        == entries_map(entries).insert(entry.address@, entry.content@)[key] by {
        let i = index_of_key(after, key);
        lemma_entries_map_at(after, i);
        if i < at {
            lemma_entries_map_at(entries, i);
        } else if i > at {
            lemma_entries_map_at(entries, i - 1);
        }
    }
    assert(entries_map(after) =~= entries_map(entries).insert(entry.address@, entry.content@));
}

proof fn lemma_map_update(entries: Seq<Entry>, at: int, entry: Entry)
    requires
        ascending(entries),
        0 <= at < entries.len(),
        entries[at].address@ == entry.address@,
    ensures
        ascending(entries.update(at, entry)),
        entries_map(entries).contains_key(entry.address@),
        entries_map(entries)[entry.address@] == entries[at].content@,
        entries_map(entries.update(at, entry)) == entries_map(entries).insert(
            entry.address@,
            entry.content@,
        ),
{
    let after = entries.update(at, entry);
    assert forall|i: int, j: int| 0 <= i < j < after.len() implies bytes_lt(
        #[trigger] after[i].address@,
        #[trigger] after[j].address@,
    ) by {
        assert(after[i].address@ == entries[i].address@);
        assert(after[j].address@ == entries[j].address@);
    }
    lemma_entries_map_at(entries, at);
    assert forall|key: Seq<u8>|
        entries_map(after).contains_key(key) == entries_map(entries).insert(
            entry.address@,
            entry.content@,
        ).contains_key(key) by {
        if has_key(after, key) {
            let i = index_of_key(after, key);
            assert(entries[i].address@ == key);
        }
        if has_key(entries, key) {
            let i = index_of_key(entries, key);
            assert(after[i].address@ == key);
        }
    }
    assert forall|key: Seq<u8>| entries_map(after).contains_key(key) implies entries_map(after)[key]
        == entries_map(entries).insert(entry.address@, entry.content@)[key] by {
        let i = index_of_key(after, key);
        lemma_entries_map_at(after, i);
        if i != at {
            lemma_entries_map_at(entries, i);
        }
    }
    assert(entries_map(after) =~= entries_map(entries).insert(entry.address@, entry.content@));
}

proof fn lemma_pairs(entries: Seq<Entry>)
    requires
        ascending(entries),
    ensures
        keys_ascending(pairs(entries)),
        map_of(pairs(entries)) == entries_map(entries),
        bytes_of(pairs(entries)) == entries_bytes(entries),
    decreases entries.len(),
{
    let both = pairs(entries);
    assert forall|i: int, j: int| 0 <= i < j < both.len() implies bytes_lt(
        #[trigger] both[i].0,
        #[trigger] both[j].0,
    ) by {
        assert(bytes_lt(entries[i].address@, entries[j].address@));
    }
    assert forall|key: Seq<u8>| holds_key(both, key) == has_key(entries, key) by {
        if holds_key(both, key) {
            let i = choose|i: int| 0 <= i < both.len() && #[trigger] both[i].0 == key;
            assert(entries[i].address@ == key);
        }
        if has_key(entries, key) {
            let i = index_of_key(entries, key);
            assert(both[i].0 == key);
        }
    }
    assert forall|key: Seq<u8>| has_key(entries, key) implies map_of(both)[key] == entries_map(
        entries,
    )[key] by {
        let i = choose|i: int| 0 <= i < both.len() && #[trigger] both[i].0 == key;
        assert(entries[i].address@ == key);
        lemma_entries_map_at(entries, i);
    }
    assert(map_of(both) =~= entries_map(entries));
    if entries.len() > 0 {
        assert(ascending(entries.drop_last())) by {
            assert forall|i: int, j: int| 0 <= i < j < entries.drop_last().len() implies bytes_lt(
                #[trigger] entries.drop_last()[i].address@,
                #[trigger] entries.drop_last()[j].address@,
            ) by {
                assert(bytes_lt(entries[i].address@, entries[j].address@));
            }
        }
        lemma_pairs(entries.drop_last());
        assert(both.drop_last() =~= pairs(entries.drop_last()));
    }
}

proof fn lemma_bytes_at_least(entries: Seq<Entry>, at: int)
    requires
        0 <= at < entries.len(),
    ensures
        entries_bytes(entries) >= entries[at].address@.len() + entries[at].content@.len(),
    decreases entries.len(),
{
    if at < entries.len() - 1 {
        lemma_bytes_at_least(entries.drop_last(), at);
    }
}

/// The entries of a store in ascending order of address, with the bytes they
/// take and the size of the region they live in.
struct Table {
    entries: Vec<Entry>,
    used: usize,
    map_size: usize,
}

impl Table {
    spec fn valid(&self) -> bool {
        &&& ascending(self.entries@)
        &&& self.used == entries_bytes(self.entries@)
        &&& self.used <= self.map_size
    }

    spec fn map(&self) -> Map<Seq<u8>, Seq<u8>> {
        entries_map(self.entries@)
    }

    fn empty(map_size: usize) -> (table: Table)
        ensures
            table.valid(),
            table.map() == Map::<Seq<u8>, Seq<u8>>::empty(),
            table.entries@.len() == 0,
            table.used == 0,
            table.map_size == map_size,
    {
        let table = Table { entries: Vec::new(), used: 0, map_size };
        assert(table.map() =~= Map::<Seq<u8>, Seq<u8>>::empty());
        table
    }

    /// Searches the entries for `address` by halving. Answers whether it is
    /// there, and where it is or would have to be put.
    fn find(&self, address: &Address) -> (found: (bool, usize))
        requires
            self.valid(),
        ensures
            found.1 <= self.entries@.len(),
            found.0 ==> found.1 < self.entries@.len() && self.entries@[found.1 as int].address@
                == address@,
            found.0 == self.map().contains_key(address@),
            !found.0 ==> forall|i: int|
                0 <= i < found.1 ==> bytes_lt(#[trigger] self.entries@[i].address@, address@),
            !found.0 ==> forall|i: int|
                found.1 <= i < self.entries@.len() ==> bytes_lt(
                    address@,
                    #[trigger] self.entries@[i].address@,
                ),
    {
        let mut low: usize = 0;
        let mut high: usize = self.entries.len();
        while low < high
            invariant
                self.valid(),
                low <= high <= self.entries@.len(),
                forall|i: int|
                    0 <= i < low ==> bytes_lt(#[trigger] self.entries@[i].address@, address@),
                forall|i: int|
                    high <= i < self.entries@.len() ==> bytes_lt(
                        address@,
                        #[trigger] self.entries@[i].address@,
                    ),
            decreases high - low,
        {
            let middle = low + (high - low) / 2;
            match self.entries[middle].address.rank(address) {
                Rank::Same => {
                    proof {
                        lemma_entries_map_at(self.entries@, middle as int);
                    }
                    return (true, middle);
                },
                Rank::Before => {
                    assert forall|i: int| 0 <= i < middle + 1 implies bytes_lt(
                        #[trigger] self.entries@[i].address@,
                        address@,
                    ) by {
                        if i < middle {
                            lemma_bytes_lt_transitive(
                                self.entries@[i].address@,
                                self.entries@[middle as int].address@,
                                address@,
                            );
                        }
                    }
                    low = middle + 1;
                },
                Rank::After => {
                    assert forall|i: int| middle <= i < self.entries@.len() implies bytes_lt(
                        address@,
                        #[trigger] self.entries@[i].address@,
                    ) by {
                        if middle < i {
                            lemma_bytes_lt_transitive(
                                address@,
                                self.entries@[middle as int].address@,
                                self.entries@[i].address@,
                            );
                        }
                    }
                    high = middle;
                },
            }
        }
        proof {
            if has_key(self.entries@, address@) {
                let i = index_of_key(self.entries@, address@);
                lemma_bytes_lt_irreflexive(address@);
                if i < low {
                    assert(bytes_lt(self.entries@[i].address@, address@));
                } else {
                    assert(bytes_lt(address@, self.entries@[i].address@));
                }
            }
        }
        (false, low)
    }

    /// Writes `content` under `address` if the region has room for it, and
    /// answers whether it did.
    fn put(&mut self, address: Address, content: Content) -> (stored: bool)
        requires
            old(self).valid(),
        ensures
            final(self).valid(),
            final(self).map_size == old(self).map_size,
            stored == (bytes_after_put(old(self).map(), old(self).used as nat, address@, content@)
                <= old(self).map_size),
            stored ==> final(self).map() == old(self).map().insert(address@, content@),
            stored ==> final(self).used == bytes_after_put(
                old(self).map(),
                old(self).used as nat,
                address@,
                content@,
            ),
            !stored ==> final(self).entries@ == old(self).entries@ && final(self).used == old(
                self,
            ).used,
            stored ==> pairs(final(self).entries@) == entries_with(
                pairs(old(self).entries@),
                address@,
                content@,
            ),
    {
        let (found, at) = self.find(&address);
        proof {
            lemma_pairs(self.entries@);
            let both = pairs(self.entries@);
            if found {
                assert forall|i: int| 0 <= i < at implies bytes_lt(
                    #[trigger] both[i].0,
                    address@,
                ) by {
                    assert(bytes_lt(self.entries@[i].address@, self.entries@[at as int].address@));
                }
                assert(both[at as int].0 == address@);
            } else {
                assert forall|i: int| 0 <= i < at implies bytes_lt(
                    #[trigger] both[i].0,
                    address@,
                ) by {
                    assert(bytes_lt(self.entries@[i].address@, address@));
                }
                assert forall|i: int| at <= i < both.len() implies bytes_lt(
                    address@,
                    #[trigger] both[i].0,
                ) by {
                    assert(bytes_lt(address@, self.entries@[i].address@));
                }
            }
            lemma_entries_with_at(both, address@, content@, found, at as int);
        }
        if found {
            proof {
                lemma_bytes_at_least(self.entries@, at as int);
                lemma_entries_map_at(self.entries@, at as int);
            }
            let freed = self.used - self.entries[at].content.len();
            match freed.checked_add(content.len()) {
                Some(demand) => {
                    if demand > self.map_size {
                        return false;
                    }
                    let entry = Entry { address, content };
                    proof {
                        lemma_bytes_update(self.entries@, at as int, entry);
                        lemma_map_update(self.entries@, at as int, entry);
                    }
                    self.entries.set(at, entry);
                    self.used = demand;
                    assert(pairs(self.entries@) =~= pairs(old(self).entries@).update(
                        at as int,
                        (address@, content@),
                    ));
                    true
                },
                None => false,
            }
        } else {
            match self.used.checked_add(address.len()) {
                Some(partial) => match partial.checked_add(content.len()) {
                    Some(demand) => {
                        if demand > self.map_size {
                            return false;
                        }
                        let entry = Entry { address, content };
                        proof {
                            lemma_bytes_insert(self.entries@, at as int, entry);
                            lemma_map_insert(self.entries@, at as int, entry);
                        }
                        self.entries.insert(at, entry);
                        self.used = demand;
                        assert(pairs(self.entries@) =~= pairs(old(self).entries@).insert(
                            at as int,
                            (address@, content@),
                        ));
                        true
                    },
                    None => false,
                },
                None => false,
            }
        }
    }
}

impl Entry {
    fn duplicate(&self) -> (copy: Self)
        ensures
            copy.address@ == self.address@,
            copy.content@ == self.content@,
    {
        Entry { address: self.address.clone(), content: self.content.clone() }
    }
}

spec fn same_entries(a: Seq<Entry>, b: Seq<Entry>) -> bool {
    &&& a.len() == b.len()
    &&& forall|i: int|
        0 <= i < a.len() ==> (#[trigger] a[i]).address@ == b[i].address@ && a[i].content@
            == b[i].content@
}

proof fn lemma_same_entries(a: Seq<Entry>, b: Seq<Entry>)
    requires
        same_entries(a, b),
        ascending(a),
    ensures
        ascending(b),
        entries_bytes(a) == entries_bytes(b),
        entries_map(a) == entries_map(b),
    decreases a.len(),
{
    assert forall|i: int, j: int| 0 <= i < j < b.len() implies bytes_lt(
        #[trigger] b[i].address@,
        #[trigger] b[j].address@,
    ) by {
        assert(a[i].address@ == b[i].address@);
        assert(a[j].address@ == b[j].address@);
    }
    if a.len() > 0 {
        assert(same_entries(a.drop_last(), b.drop_last())) by {
            assert forall|i: int| 0
                <= i < a.drop_last().len() implies (#[trigger] a.drop_last()[i]).address@
                == b.drop_last()[i].address@ && a.drop_last()[i].content@
                == b.drop_last()[i].content@ by {
                assert(a[i].address@ == b[i].address@);
            }
        }
        assert(ascending(a.drop_last())) by {
            assert forall|i: int, j: int| 0 <= i < j < a.drop_last().len() implies bytes_lt(
                #[trigger] a.drop_last()[i].address@,
                #[trigger] a.drop_last()[j].address@,
            ) by {
                assert(bytes_lt(a[i].address@, a[j].address@));
            }
        }
        lemma_same_entries(a.drop_last(), b.drop_last());
        assert(a[a.len() - 1].address@ == b[a.len() - 1].address@);
    }
    assert forall|key: Seq<u8>| has_key(a, key) == has_key(b, key) by {
        if has_key(a, key) {
            let i = index_of_key(a, key);
            assert(a[i].address@ == b[i].address@);
        }
        if has_key(b, key) {
            let i = index_of_key(b, key);
            assert(a[i].address@ == b[i].address@);
        }
    }
    assert forall|key: Seq<u8>| has_key(a, key) implies entries_map(a)[key]
        == entries_map(b)[key] by {
        let i = index_of_key(a, key);
        assert(a[i].address@ == b[i].address@);
        lemma_entries_map_at(a, i);
        lemma_entries_map_at(b, i);
    }
    assert(entries_map(a) =~= entries_map(b));
}

fn copy_entries(entries: &Vec<Entry>) -> (copy: Vec<Entry>)
    ensures
        same_entries(entries@, copy@),
{
    let mut copy: Vec<Entry> = Vec::new();
    let mut i: usize = 0;
    while i < entries.len()
        invariant
            i <= entries@.len(),
            copy@.len() == i,
            forall|j: int|
                0 <= j < i ==> (#[trigger] entries@[j]).address@ == copy@[j].address@
                    && entries@[j].content@ == copy@[j].content@,
        decreases entries@.len() - i,
    {
        copy.push(entries[i].duplicate());
        i += 1;
    }
    copy
}

/// A content-addressable store that lives in memory.
///
/// It holds at most one content under each address; writing under an address
/// that is there replaces what was there. The store lives in a region of
/// `map_size` bytes, of which each entry takes the length of its address and
/// of its content. A write that does not fit is refused until the region has
/// been grown.
pub struct ExampleContentAddressableStorage {
    id: u128,
    table: Table,
}

impl View for ExampleContentAddressableStorage {
    type V = Map<Seq<u8>, Seq<u8>>;

    closed spec fn view(&self) -> Map<Seq<u8>, Seq<u8>> {
        self.table.map()
    }
}

impl Clone for ExampleContentAddressableStorage {
    /// A copy with the same identity, contents and region.
    fn clone(&self) -> (copy: Self)
        ensures
            copy@ == self@,
            copy.entries() == self.entries(),
            copy.used_bytes() == self.used_bytes(),
            copy.spec_map_size() == self.spec_map_size(),
            copy.spec_id() == self.spec_id(),
            copy.is_sound(),
    {
        proof {
            use_type_invariant(self);
        }
        let entries = copy_entries(&self.table.entries);
        proof {
            lemma_same_entries(self.table.entries@, entries@);
            lemma_pairs(entries@);
            assert(pairs(self.table.entries@) =~= pairs(entries@));
        }
        ExampleContentAddressableStorage {
            id: self.id,
            table: Table { entries, used: self.table.used, map_size: self.table.map_size },
        }
    }
}

impl ExampleContentAddressableStorage {
    #[verifier::type_invariant]
    spec fn well_formed(self) -> bool {
        self.table.valid()
    }

    /// The entries of the store in ascending order of address.
    pub closed spec fn entries(&self) -> Seq<(Seq<u8>, Seq<u8>)> {
        pairs(self.table.entries@)
    }

    /// The bytes that the entries of the store take.
    pub closed spec fn used_bytes(&self) -> nat {
        self.table.used as nat
    }

    /// The size of the region that the store lives in.
    pub closed spec fn spec_map_size(&self) -> usize {
        self.table.map_size
    }

    /// The identity of the store.
    pub closed spec fn spec_id(&self) -> u128 {
        self.id
    }

    /// What every store keeps: its entries are in ascending order of
    /// address, it holds what they hold, it takes the bytes that they take,
    /// and those are no more than its region has.
    pub open spec fn is_sound(&self) -> bool {
        &&& keys_ascending(self.entries())
        &&& self@ == map_of(self.entries())
        &&& self.used_bytes() == bytes_of(self.entries())
        &&& self.used_bytes() <= self.spec_map_size()
    }

    /// The store is `before` in a region of `map_size` bytes.
    pub open spec fn is_resized(&self, before: Self, map_size: usize) -> bool {
        &&& self@ == before@
        &&& self.entries() == before.entries()
        &&& self.used_bytes() == before.used_bytes()
        &&& self.spec_id() == before.spec_id()
        &&& self.spec_map_size() == map_size
    }

    /// The store is what `before` is once `content` was written under
    /// `address` with the region grown to fit: the same store with the
    /// content under the address, in a region that was doubled until the
    /// content fit; or, where no region can hold that many bytes, `before`
    /// as it was.
    pub open spec fn is_after_add(&self, before: Self, address: Seq<u8>, content: Seq<u8>) -> bool {
        let demand = bytes_after_put(before@, before.used_bytes(), address, content);
        &&& self.spec_id() == before.spec_id()
        &&& self.is_sound()
        &&& demand <= usize::MAX ==> {
            &&& self@ == before@.insert(address, content)
            &&& self.entries() == entries_with(before.entries(), address, content)
            &&& self.used_bytes() == demand
            &&& self.spec_map_size() == fitted_map_size(before.spec_map_size(), demand)
        }
        &&& demand > usize::MAX ==> {
            &&& self@ == before@
            &&& self.entries() == before.entries()
            &&& self.used_bytes() == before.used_bytes()
            &&& self.spec_map_size() == before.spec_map_size()
        }
    }

    /// An empty store with the identity `id`, in a region of
    /// `initial_map_size` bytes, or of the default size where none is given.
    pub fn with_map_size(id: u128, initial_map_size: Option<usize>) -> (store: Self)
        ensures
            store@ == Map::<Seq<u8>, Seq<u8>>::empty(),
            store.entries().len() == 0,
            store.used_bytes() == 0,
            store.spec_id() == id,
            store.spec_map_size() == (match initial_map_size {
                Some(size) => size,
                None => DEFAULT_MAP_SIZE,
            }),
            store.is_sound(),
    {
        let map_size = match initial_map_size {
            Some(size) => size,
            None => DEFAULT_MAP_SIZE,
        };
        let store = ExampleContentAddressableStorage { id, table: Table::empty(map_size) };
        proof {
            lemma_pairs(store.table.entries@);
        }
        store
    }

    /// An empty store in a region of the default size, with an identity drawn
    /// at random.
    pub fn new() -> (store: Self)
        ensures
            store@ == Map::<Seq<u8>, Seq<u8>>::empty(),
            store.entries().len() == 0,
            store.used_bytes() == 0,
            store.spec_map_size() == DEFAULT_MAP_SIZE,
            is_random_uuid(store.spec_id()),
            store.is_sound(),
    {
        Self::with_map_size(fresh_id(), None)
    }

    /// The size of the region that the store lives in. It is never less than
    /// the bytes in use.
    #[verifier::when_used_as_spec(spec_map_size)]
    pub fn map_size(&self) -> (size: usize)
        ensures
            size == self.spec_map_size(),
            self.used_bytes() <= size,
            self.is_sound(),
    {
        proof {
            use_type_invariant(self);
            lemma_pairs(self.table.entries@);
        }
        self.table.map_size
    }

    /// The bytes that the entries of the store take.
    pub fn used(&self) -> (count: usize)
        ensures
            count == self.used_bytes(),
    {
        self.table.used
    }

    /// The number of entries in the store.
    pub fn len(&self) -> (n: usize)
        ensures
            n == self.entries().len(),
            n == 0 <==> self@ == Map::<Seq<u8>, Seq<u8>>::empty(),
    {
        proof {
            use_type_invariant(self);
            if self.table.entries@.len() == 0 {
                assert(self@ =~= Map::<Seq<u8>, Seq<u8>>::empty());
            } else {
                lemma_entries_map_at(self.table.entries@, 0);
            }
        }
        self.table.entries.len()
    }

    /// The bytes of all content in the store, addresses not counted.
    pub fn content_bytes(&self) -> (count: usize)
        ensures
            count == content_bytes_of(self.entries()),
            count <= self.used_bytes(),
    {
        proof {
            use_type_invariant(self);
            lemma_pairs(self.table.entries@);
        }
        let ghost all = pairs(self.table.entries@);
        let mut count: usize = 0;
        let mut i: usize = 0;
        assert(all.take(0) =~= Seq::<(Seq<u8>, Seq<u8>)>::empty());
        while i < self.table.entries.len()
            invariant
                all == pairs(self.table.entries@),
                i <= all.len(),
                count == content_bytes_of(all.take(i as int)),
                bytes_of(all) <= usize::MAX,
            decreases all.len() - i,
        {
            proof {
                lemma_content_bytes_bound(all, i + 1);
                assert(all.take(i + 1).drop_last() =~= all.take(i as int));
                assert(all.take(i + 1).last().1 == self.table.entries@[i as int].content@);
            }
            count = count + self.table.entries[i].content.len();
            i += 1;
        }
        proof {
            assert(all.take(all.len() as int) =~= all);
            lemma_content_bytes_bound(all, all.len() as int);
        }
        count
    }

    /// Copies of all entries, in ascending order of address.
    pub fn iter(&self) -> (all: Vec<(Address, Content)>)
        ensures
            all@.len() == self.entries().len(),
            forall|i: int|
                0 <= i < all@.len() ==> (#[trigger] all@[i]).0@ == self.entries()[i].0 && all@[i].1@
                    == self.entries()[i].1,
            forall|i: int|
                0 <= i < all@.len() ==> lookup(self@, (#[trigger] all@[i]).0@) == Some(all@[i].1@),
            forall|i: int, j: int|
                0 <= i < j < all@.len() ==>
                    bytes_lt((#[trigger] all@[i]).0@, (#[trigger] all@[j]).0@),
            forall|address: Seq<u8>|
                self@.contains_key(address) ==> exists|i: int|
                    0 <= i < all@.len() && (#[trigger] all@[i]).0@ == address,
    {
        proof {
            use_type_invariant(self);
        }
        let mut all: Vec<(Address, Content)> = Vec::new();
        let mut i: usize = 0;
        while i < self.table.entries.len()
            invariant
                i <= self.table.entries@.len(),
                all@.len() == i,
                forall|j: int|
                    0 <= j < i ==> (#[trigger] all@[j]).0@ == self.table.entries@[j].address@
                        && all@[j].1@ == self.table.entries@[j].content@,
            decreases self.table.entries@.len() - i,
        {
            let entry = self.table.entries[i].duplicate();
            all.push((entry.address, entry.content));
            i += 1;
        }
        proof {
            assert forall|j: int| 0 <= j < all@.len() implies lookup(
                self@,
                (#[trigger] all@[j]).0@,
            ) == Some(all@[j].1@) by {
                lemma_entries_map_at(self.table.entries@, j);
            }
            assert forall|j: int, k: int| 0 <= j < k < all@.len() implies bytes_lt(
                (#[trigger] all@[j]).0@,
                (#[trigger] all@[k]).0@,
            ) by {
                assert(bytes_lt(self.table.entries@[j].address@, self.table.entries@[k].address@));
            }
            assert forall|address: Seq<u8>| self@.contains_key(address) implies exists|j: int|
                0 <= j < all@.len() && (#[trigger] all@[j]).0@ == address by {
                let j = index_of_key(self.table.entries@, address);
                assert(all@[j].0@ == address);
            }
        }
        all
    }

    /// Whether the store holds nothing.
    pub fn is_empty(&self) -> (empty: bool)
        ensures
            empty <==> self@ == Map::<Seq<u8>, Seq<u8>>::empty(),
            empty <==> self.entries().len() == 0,
    {
        self.len() == 0
    }

    /// Gives the store a region of `bytes` bytes. A region smaller than the
    /// bytes in use is refused with `InvalidArgument`, and nothing changes.
    pub fn set_map_size(&mut self, bytes: usize) -> (result: Result<(), PersistenceError>)
        ensures
            final(self)@ == old(self)@,
            final(self).entries() == old(self).entries(),
            final(self).used_bytes() == old(self).used_bytes(),
            final(self).spec_id() == old(self).spec_id(),
            bytes >= old(self).used_bytes() ==> result is Ok && final(self).spec_map_size()
                == bytes,
            bytes < old(self).used_bytes() ==> result == Err::<(), PersistenceError>(
                PersistenceError::InvalidArgument,
            ) && final(self).spec_map_size() == old(self).spec_map_size(),
            final(self).is_sound(),
    {
        proof {
            use_type_invariant(&*self);
            lemma_pairs(self.table.entries@);
        }
        if bytes < self.table.used {
            return Err(PersistenceError::InvalidArgument);
        }
        self.table.map_size = bytes;
        Ok(())
    }

    /// Writes `content` under `address` if the region has room for it.
    /// Otherwise it answers `CapacityExhausted` and changes nothing.
    pub fn put(&mut self, address: Address, content: Content) -> (result: Result<
        (),
        PersistenceError,
    >)
        ensures
            final(self).spec_map_size() == old(self).spec_map_size(),
            final(self).spec_id() == old(self).spec_id(),
            bytes_after_put(old(self)@, old(self).used_bytes(), address@, content@) <= old(
                self,
            ).spec_map_size() ==> result is Ok && final(self)@ == old(self)@.insert(
                address@,
                content@,
            ) && final(self).used_bytes() == bytes_after_put(
                old(self)@,
                old(self).used_bytes(),
                address@,
                content@,
            ),
            bytes_after_put(old(self)@, old(self).used_bytes(), address@, content@) > old(
                self,
            ).spec_map_size() ==> result == Err::<(), PersistenceError>(
                PersistenceError::CapacityExhausted,
            ) && final(self)@ == old(self)@ && final(self).entries() == old(self).entries()
                && final(self).used_bytes() == old(self).used_bytes(),
            result is Ok ==> final(self).entries() == entries_with(
                old(self).entries(),
                address@,
                content@,
            ),
            final(self).is_sound(),
    {
        proof {
            use_type_invariant(&*self);
        }
        let mut table = Table::empty(0);
        std::mem::swap(&mut self.table, &mut table);
        let stored = table.put(address, content);
        proof {
            lemma_pairs(table.entries@);
        }
        self.table = table;
        if stored {
            Ok(())
        } else {
            Err(PersistenceError::CapacityExhausted)
        }
    }

    /// The bytes that the store would hold with `content_len` bytes written
    /// under `address`, or `None` where the machine cannot count them.
    pub fn demand_of_put(&self, address: &Address, content_len: usize) -> (demand: Option<usize>)
        ensures
            forall|content: Seq<u8>|
                content.len() == content_len ==> (match demand {
                    Some(bytes) => bytes == #[trigger] bytes_after_put(
                        self@,
                        self.used_bytes(),
                        address@,
                        content,
                    ),
                    None => bytes_after_put(self@, self.used_bytes(), address@, content)
                        > usize::MAX,
                }),
    {
        proof {
            use_type_invariant(self);
        }
        let (found, at) = self.table.find(address);
        if found {
            proof {
                lemma_bytes_at_least(self.table.entries@, at as int);
                lemma_entries_map_at(self.table.entries@, at as int);
            }
            let freed = self.table.used - self.table.entries[at].content.len();
            freed.checked_add(content_len)
        } else {
            match self.table.used.checked_add(address.len()) {
                Some(partial) => partial.checked_add(content_len),
                None => None,
            }
        }
    }

    /// Grows the region, by doubling, as often as it takes to hold `bytes`
    /// bytes. A region that holds them is left as it is.
    pub fn fit_map_size(&mut self, bytes: usize)
        ensures
            final(self).is_resized(
                *old(self),
                fitted_map_size(old(self).spec_map_size(), bytes as nat),
            ),
            final(self).spec_map_size() >= bytes,
            final(self).spec_map_size() >= old(self).spec_map_size(),
            final(self).is_sound(),
    {
        let _ = self.map_size();
        while self.map_size() < bytes
            invariant
                self.is_resized(*old(self), self.spec_map_size()),
                self.spec_map_size() >= old(self).spec_map_size(),
                self.is_sound(),
                fitted_map_size(self.spec_map_size(), bytes as nat) == fitted_map_size(
                    old(self).spec_map_size(),
                    bytes as nat,
                ),
            decreases usize::MAX - self.spec_map_size(),
        {
            let grown = grow_map_size(self.map_size());
            let _ = self.set_map_size(grown);
        }
    }

    /// Writes `content` under `address`, and grows the region first, as
    /// often as it takes, if the write does not fit.
    ///
    /// It fails, with `BackendIo` and without changing anything, only where
    /// the store would hold more bytes than the machine can address.
    pub fn add_entry(&mut self, address: Address, content: Content) -> (result: Result<
        (),
        PersistenceError,
    >)
        ensures
            result is Ok <==> bytes_after_put(
                old(self)@,
                old(self).used_bytes(),
                address@,
                content@,
            ) <= usize::MAX,
            result matches Err(error) ==> error == PersistenceError::BackendIo,
            final(self).is_after_add(*old(self), address@, content@),
    {
        let ghost demand = bytes_after_put(self@, self.used_bytes(), address@, content@);
        let _ = self.map_size();
        match self.demand_of_put(&address, content.len()) {
            None => Err(PersistenceError::BackendIo),
            Some(bytes) => {
                assert(bytes == demand);
                self.fit_map_size(bytes);
                self.put(address, content)
            },
        }
    }

    /// Writes every entry of `staged` into the store, in ascending order of
    /// address, and stops with `CapacityExhausted` at the first that does not
    /// fit, with the entries before it written.
    pub fn put_all(&mut self, staged: &Self) -> (result: Result<(), PersistenceError>)
        ensures
            final(self).spec_map_size() == old(self).spec_map_size(),
            final(self).spec_id() == old(self).spec_id(),
            final(self).used_bytes() <= final(self).spec_map_size(),
            result is Ok <==> peak_bytes(old(self)@, old(self).used_bytes(), staged.entries())
                <= old(self).spec_map_size(),
            (final(self)@, final(self).used_bytes()) == put_all_that_fit(
                old(self)@,
                old(self).used_bytes(),
                staged.entries(),
                old(self).spec_map_size() as nat,
            ),
            result is Ok ==> final(self)@ == old(self)@.union_prefer_right(staged@),
            result matches Err(error) ==> error == PersistenceError::CapacityExhausted,
            final(self).is_sound(),
            staged.entries().len() == 0 ==> result is Ok && final(self)@ == old(self)@
                && final(self).entries() == old(self).entries() && final(self).used_bytes()
                == old(self).used_bytes(),
    {
        proof {
            use_type_invariant(&*self);
            use_type_invariant(staged);
        }
        let mut table = Table::empty(0);
        std::mem::swap(&mut self.table, &mut table);
        let ghost all = staged.table.entries@;
        let ghost limit = table.map_size;
        let ghost goal = peak_bytes(old(self)@, old(self).used_bytes(), pairs(all)) <= limit;
        let ghost end = put_all_that_fit(
            old(self)@,
            old(self).used_bytes(),
            pairs(all),
            limit as nat,
        );
        let mut i: usize = 0;
        let mut full = false;
        proof {
            assert(all.take(0) =~= Seq::<Entry>::empty());
            assert(entries_map(all.take(0)) =~= Map::<Seq<u8>, Seq<u8>>::empty());
            assert(table.map() =~= old(self)@.union_prefer_right(entries_map(all.take(0))));
            assert(pairs(all).skip(0) =~= pairs(all));
        }
        while i < staged.table.entries.len()
            invariant_except_break
                !full,
                goal == (peak_bytes(table.map(), table.used as nat, pairs(all).skip(i as int))
                    <= limit),
                table.map() == old(self)@.union_prefer_right(entries_map(all.take(i as int))),
                end == put_all_that_fit(
                    table.map(),
                    table.used as nat,
                    pairs(all).skip(i as int),
                    limit as nat,
                ),
            invariant
                all == staged.table.entries@,
                ascending(all),
                i <= all.len(),
                table.valid(),
                table.map_size == limit,
                all.len() == 0 ==> table.entries@ == old(self).table.entries@ && table.used == old(
                    self,
                ).table.used,
            ensures
                full ==> !goal,
                end == (table.map(), table.used as nat),
                !full ==> i == all.len() && goal == (peak_bytes(
                    table.map(),
                    table.used as nat,
                    pairs(all).skip(i as int),
                ) <= limit) && table.map() == old(self)@.union_prefer_right(
                    entries_map(all.take(i as int)),
                ),
            decreases all.len() - i,
        {
            let entry = staged.table.entries[i].duplicate();
            proof {
                let rest = pairs(all).skip(i as int);
                assert(rest[0] == (entry.address@, entry.content@));
                assert(rest.drop_first() =~= pairs(all).skip(i + 1));
                let before = all.take(i as int);
                assert(ascending(before)) by {
                    assert forall|a: int, b: int| 0 <= a < b < before.len() implies bytes_lt(
                        #[trigger] before[a].address@,
                        #[trigger] before[b].address@,
                    ) by {
                        assert(bytes_lt(all[a].address@, all[b].address@));
                    }
                }
                assert forall|j: int| 0 <= j < i implies bytes_lt(
                    #[trigger] before[j].address@,
                    all[i as int].address@,
                ) by {
                    assert(bytes_lt(all[j].address@, all[i as int].address@));
                }
                lemma_map_insert(before, i as int, all[i as int]);
                assert(before.insert(i as int, all[i as int]) =~= all.take(i + 1));
                assert(old(self)@.union_prefer_right(entries_map(before)).insert(
                    entry.address@,
                    entry.content@,
                ) =~= old(self)@.union_prefer_right(
                    entries_map(before).insert(entry.address@, entry.content@),
                ));
            }
            let stored = table.put(entry.address, entry.content);
            if !stored {
                full = true;
                break ;
            }
            i += 1;
        }
        proof {
            assert(all.take(all.len() as int) =~= all);
            lemma_pairs(table.entries@);
        }
        self.table = table;
        if full {
            Err(PersistenceError::CapacityExhausted)
        } else {
            Ok(())
        }
    }
}

impl ContentAddressableStorage for ExampleContentAddressableStorage {
    open spec fn contents(&self) -> Map<Seq<u8>, Seq<u8>> {
        self@
    }

    open spec fn identity(&self) -> u128 {
        self.spec_id()
    }

    /// The write succeeds exactly where the machine can address the bytes
    /// that the store then holds; it fails with `BackendIo`; and the store
    /// is afterwards what `is_after_add` says.
    open spec fn adds(
        &self,
        after: &Self,
        address: Seq<u8>,
        content: Seq<u8>,
        result: Result<(), PersistenceError>,
    ) -> bool {
        &&& result is Ok <==> bytes_after_put(self@, self.used_bytes(), address, content)
            <= usize::MAX
        &&& result matches Err(error) ==> error == PersistenceError::BackendIo
        &&& after.is_after_add(*self, address, content)
    }

    /// Writes the content of `content` under its address, and grows the
    /// region first, as often as it takes, if the write does not fit.
    ///
    /// It fails, with `BackendIo` and without changing anything, only where
    /// the store would hold more bytes than the machine can address.
    fn add<C: AddressableContent>(&mut self, content: &C) -> (result: Result<
        (),
        PersistenceError,
    >)
        ensures
            result is Ok <==> bytes_after_put(
                old(self)@,
                old(self).used_bytes(),
                content.address_spec(),
                content.content_spec(),
            ) <= usize::MAX,
            result matches Err(error) ==> error == PersistenceError::BackendIo,
            final(self).is_after_add(
                *old(self),
                content.address_spec(),
                content.content_spec(),
            ),
    {
        self.add_entry(content.address(), content.content())
    }

    /// The content under `address`, if there is any. It never fails.
    fn fetch(&self, address: &Address) -> (result: Result<Option<Content>, PersistenceError>)
        ensures
            result matches Ok(found) && (match found {
                Some(content) => Some(content@),
                None => None,
            }) == lookup(self@, address@),
    {
        proof {
            use_type_invariant(self);
        }
        let (found, at) = self.table.find(address);
        if found {
            proof {
                lemma_entries_map_at(self.table.entries@, at as int);
            }
            Ok(Some(self.table.entries[at].content.clone()))
        } else {
            Ok(None)
        }
    }

    /// Whether there is content under `address`. It never fails.
    fn contains(&self, address: &Address) -> (result: Result<bool, PersistenceError>)
        ensures
            result == Ok::<bool, PersistenceError>(lookup(self@, address@) is Some),
    {
        proof {
            use_type_invariant(self);
        }
        let (found, _) = self.table.find(address);
        Ok(found)
    }

    /// The identity of the store, which a copy shares.
    fn get_id(&self) -> (id: u128)
        ensures
            id == self.spec_id(),
    {
        self.id
    }
}

} // verus!
