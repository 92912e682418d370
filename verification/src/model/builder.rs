//! The engine's builder: the flush policy that an opened engine starts with.
use crate::model::database::{bytes_view, opened, Db};
use vstd::prelude::*;

verus! {

/// Settings for opening an engine: how often writes are flushed to disk.
#[derive(Debug)]
pub struct Builder {
    sync_writes: Option<u128>,
}

impl View for Builder {
    /// The flush interval in nanoseconds; `None` never flushes.
    type V = Option<u128>;

    closed spec fn view(&self) -> Option<u128> {
        self.sync_writes
    }
}

impl Default for Builder {
    /// Flushes after every write: an interval of zero.
    fn default() -> (builder: Self)
        ensures
            builder@ == Some(0u128),
    {
        Builder { sync_writes: Some(0) }
    }
}

impl Builder {
    /// Flushes after every write when `sync_writes`, never otherwise.
    pub fn sync_writes(self, sync_writes: bool) -> (builder: Self)
        ensures
            builder@ == if sync_writes {
                Some(0u128)
            } else {
                None
            },
    {
        Self {
            sync_writes: if sync_writes {
                Some(0)
            } else {
                None
            },
        }
    }

    /// Flushes after a write once more than `interval_nanos` nanoseconds
    /// have passed since the last flush.
    pub fn sync_write_interval(self, interval_nanos: u128) -> (builder: Self)
        ensures
            builder@ == Some(interval_nanos),
    {
        Self { sync_writes: Some(interval_nanos) }
    }

    /// The flush interval in nanoseconds; `None` never flushes.
    pub fn sync_policy(&self) -> (sync_writes: Option<u128>)
        ensures
            sync_writes == self@,
    {
        self.sync_writes
    }

    /// The engine for a file of `file_len` bytes whose last `PAGE_SIZE`
    /// bytes are `last_page` (when it holds that many), with this builder's
    /// flush policy.
    pub fn build<const ROW_SIZE: usize>(self, file_len: u64, last_page: Option<Vec<u8>>) -> (db: Db<
        ROW_SIZE,
    >)
        requires
            8 <= ROW_SIZE,
            last_page is Some <==> file_len >= crate::model::page::PAGE_SIZE,
            last_page matches Some(b) ==> b@.len() == crate::model::page::PAGE_SIZE,
        ensures
            db.wf(),
            db@ == opened(file_len as nat, bytes_view(last_page), self@, ROW_SIZE as nat),
    {
        Db::open(file_len, last_page, self.sync_writes)
    }
}

} // verus!
