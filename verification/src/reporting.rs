//! Reports on how much a store holds.

use crate::cas::{content_bytes_of, ExampleContentAddressableStorage};
use crate::content::Content;
use crate::error::PersistenceError;
use vstd::prelude::*;

verus! {

/// How much a store holds.
#[derive(Clone, Copy, Debug, PartialEq, Eq, Structural)]
pub struct StorageReport {
    pub bytes_total: usize,
}

impl StorageReport {
    /// The report of `bytes_total` bytes.
    pub fn new(bytes_total: usize) -> (report: Self)
        ensures
            report.bytes_total == bytes_total,
    {
        StorageReport { bytes_total }
    }
}

/// The bytes of `contents` taken together.
pub open spec fn total_bytes(contents: Seq<Seq<u8>>) -> nat
    decreases contents.len(),
{
    if contents.len() == 0 {
        0
    } else {
        total_bytes(contents.drop_last()) + contents.last().len()
    }
}

/// The bytes of `contents` taken together, or `None` where the machine
/// cannot count them.
pub fn count_bytes(contents: &Vec<Content>) -> (count: Option<usize>)
    ensures
        match count {
            Some(bytes) => bytes == total_bytes(Seq::new(contents@.len(), |i: int| contents@[i]@)),
            None => total_bytes(Seq::new(contents@.len(), |i: int| contents@[i]@)) > usize::MAX,
        },
{
    let ghost all = Seq::new(contents@.len(), |i: int| contents@[i]@);
    let mut count: usize = 0;
    let mut i: usize = 0;
    assert(all.take(0) =~= Seq::<Seq<u8>>::empty());
    while i < contents.len()
        invariant
            all == Seq::new(contents@.len(), |i: int| contents@[i]@),
            i <= contents@.len(),
            count == total_bytes(all.take(i as int)),
            total_bytes(all.take(i as int)) <= total_bytes(all),
        decreases contents@.len() - i,
    {
        proof {
            assert(all.take(i + 1).drop_last() =~= all.take(i as int));
            assert(all.take(i + 1).last() == contents@[i as int]@);
            lemma_total_bytes_of_prefix(all, i + 1);
        }
        match count.checked_add(contents[i].len()) {
            Some(more) => {
                count = more;
            },
            None => {
                return None;
            },
        }
        i += 1;
    }
    assert(all.take(contents@.len() as int) =~= all);
    Some(count)
}

proof fn lemma_total_bytes_of_prefix(contents: Seq<Seq<u8>>, n: int)
    requires
        0 <= n <= contents.len(),
    ensures
        total_bytes(contents.take(n)) <= total_bytes(contents),
    decreases contents.len() - n,
{
    if n < contents.len() {
        assert(contents.take(n + 1).drop_last() =~= contents.take(n));
        lemma_total_bytes_of_prefix(contents, n + 1);
    } else {
        assert(contents.take(n) =~= contents);
    }
}

/// What a store that reports on itself offers.
pub trait ReportStorage {
    /// The bytes that the store reports.
    spec fn reported_bytes(&self) -> nat;

    /// The bytes that the store holds.
    fn get_byte_count(&self) -> (result: Result<usize, PersistenceError>)
        ensures
            result matches Ok(count) ==> count == self.reported_bytes(),
    ;

    /// The report on the store.
    fn get_storage_report(&self) -> (result: Result<StorageReport, PersistenceError>)
        ensures
            result matches Ok(report) ==> report.bytes_total == self.reported_bytes(),
    ;
}

impl ReportStorage for ExampleContentAddressableStorage {
    /// The store reports the bytes of the content that it holds; the
    /// addresses are not counted.
    open spec fn reported_bytes(&self) -> nat {
        content_bytes_of(self.entries())
    }

    /// The bytes of the content that the store holds. It never fails.
    fn get_byte_count(&self) -> (result: Result<usize, PersistenceError>)
        ensures
            result is Ok,
    {
        Ok(self.content_bytes())
    }

    /// The report of the bytes of the content that the store holds. It
    /// never fails.
    fn get_storage_report(&self) -> (result: Result<StorageReport, PersistenceError>)
        ensures
            result is Ok,
    {
        Ok(StorageReport::new(self.content_bytes()))
    }
}

} // verus!
