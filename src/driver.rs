//! The driver of the write path: it owns the table that takes writes and the
//! counter of segment offsets. When the table is full, it captures the table
//! as a segment, installs an empty table, and hands the segment out with its
//! offset; the caller persists it.
use vstd::prelude::*;

use crate::codec::encode_segment;
use crate::db::{pairs_to_map, sorted_keys, MemTable, SSTable, CAPACITY};
use crate::Error;

verus! {

/// A captured segment with its offset and its encoding, ready to persist.
pub struct FlushJob {
    pub offset: usize,
    pub segment: SSTable,
    pub bytes: Vec<u8>,
}

/// Owns the table that takes writes and the next segment offset.
pub struct Driver {
    master: MemTable,
    offset: usize,
}

impl Driver {
    /// The table that takes writes.
    pub closed spec fn table_spec(&self) -> MemTable {
        self.master
    }

    /// The offset the next flush receives.
    pub closed spec fn offset_spec(&self) -> nat {
        self.offset as nat
    }

    /// A driver with an empty table of the default capacity; offsets start
    /// at zero.
    pub fn new() -> (r: Driver)
        ensures
            r.table_spec()@ == Map::<Seq<char>, u32>::empty(),
            r.table_spec().capacity_spec() == CAPACITY,
            r.offset_spec() == 0,
    {
        Driver::with_capacity(CAPACITY)
    }

    /// A driver whose tables hold up to `capacity` distinct keys.
    pub fn with_capacity(capacity: usize) -> (r: Driver)
        requires
            capacity > 0,
        ensures
            r.table_spec()@ == Map::<Seq<char>, u32>::empty(),
            r.table_spec().capacity_spec() == capacity,
            r.offset_spec() == 0,
    {
        Driver { master: MemTable::with_capacity(capacity), offset: 0 }
    }

    /// The table that takes writes.
    pub fn table(&self) -> (r: &MemTable)
        ensures
            *r == self.table_spec(),
    {
        &self.master
    }

    /// The offset the next flush receives.
    pub fn offset(&self) -> (r: usize)
        ensures
            r == self.offset_spec(),
    {
        self.offset
    }

    /// Captures the table as a segment and encodes it, then installs an empty
    /// table and takes the next offset. It always succeeds, an empty table
    /// included; were the encoder to fail, nothing would change.
    pub fn flush_table(&mut self) -> (r: Result<FlushJob, Error>)
        requires
            old(self).offset_spec() < usize::MAX,
        ensures
            r matches Ok(job) && {
                &&& job.offset == old(self).offset_spec()
                &&& job.segment@ == old(self).table_spec().items_spec()
                &&& sorted_keys(job.segment@)
                &&& pairs_to_map(job.segment@) == old(self).table_spec()@
                &&& job.bytes@ == encode_segment(job.segment@)
                &&& final(self).offset_spec() == old(self).offset_spec() + 1
                &&& final(self).table_spec()@ == Map::<Seq<char>, u32>::empty()
                &&& final(self).table_spec().items_spec() == Seq::<(Seq<char>, u32)>::empty()
                &&& final(self).table_spec().capacity_spec()
                    == old(self).table_spec().capacity_spec()
            },
    {
        let segment = SSTable::from(&self.master);
        let bytes = match segment.into_bytes() {
            Ok(b) => b,
            Err(e) => {
                return Err(e);
            },
        };
        let capacity = self.master.capacity();
        self.master = MemTable::with_capacity(capacity);
        let offset = self.offset;
        self.offset = self.offset + 1;
        Ok(FlushJob { offset, segment, bytes })
    }

    /// Writes `key` with `value`. If the table is full, it is flushed first
    /// and the flush is returned; the write then lands in the new table.
    pub fn write(&mut self, key: String, value: u32) -> (r: Result<Option<FlushJob>, Error>)
        requires
            old(self).table_spec()@.len() == old(self).table_spec().capacity_spec()
                ==> old(self).offset_spec() < usize::MAX,
        ensures
            old(self).table_spec()@.len() == old(self).table_spec().capacity_spec() ==> (r matches Ok(
                Some(job),
            ) && {
                &&& job.offset == old(self).offset_spec()
                &&& job.segment@ == old(self).table_spec().items_spec()
                &&& sorted_keys(job.segment@)
                &&& pairs_to_map(job.segment@) == old(self).table_spec()@
                &&& job.bytes@ == encode_segment(job.segment@)
                &&& final(self).offset_spec() == old(self).offset_spec() + 1
                &&& final(self).table_spec()@ == Map::<Seq<char>, u32>::empty().insert(
                    key@,
                    value,
                )
                &&& final(self).table_spec().capacity_spec()
                    == old(self).table_spec().capacity_spec()
            }),
            old(self).table_spec()@.len() != old(self).table_spec().capacity_spec() ==> {
                &&& r matches Ok(None)
                &&& final(self).offset_spec() == old(self).offset_spec()
                &&& final(self).table_spec()@ == old(self).table_spec()@.insert(key@, value)
                &&& final(self).table_spec().capacity_spec()
                    == old(self).table_spec().capacity_spec()
            },
    {
        if self.master.at_capacity() {
            match self.flush_table() {
                Ok(job) => {
                    self.master.write(key, value);
                    Ok(Some(job))
                },
                Err(e) => Err(e),
            }
        } else {
            self.master.write(key, value);
            Ok(None)
        }
    }
}

} // verus!
