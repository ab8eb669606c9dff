//! An append-only table: every write is kept in order, a read finds the
//! newest write of a key, and the listing gives each key's newest write,
//! newest first.
use vstd::prelude::*;

use crate::db::{entry_pair, entry_pairs, Entry};
use crate::order::{compare_keys, KeyOrder};

verus! {

/// A record of the append-only table.
pub type KeyValue = Entry;

/// The value of the newest record of `k` in `log`.
pub open spec fn latest(log: Seq<(Seq<char>, u32)>, k: Seq<char>) -> Option<u32>
    decreases log.len(),
{
    if log.len() == 0 {
        None
    } else if log.last().0 == k {
        Some(log.last().1)
    } else {
        latest(log.drop_last(), k)
    }
}

/// Whether some record of `s` has key `k`.
pub open spec fn has_key(s: Seq<(Seq<char>, u32)>, k: Seq<char>) -> bool {
    exists|j: int| 0 <= j < s.len() && s[j].0 == k
}

/// The newest record of each key of `log`, newest first.
pub open spec fn newest_first(log: Seq<(Seq<char>, u32)>) -> Seq<(Seq<char>, u32)>
    decreases log.len(),
{
    if log.len() == 0 {
        Seq::empty()
    } else {
        let rest = newest_first(log.drop_first());
        if has_key(rest, log[0].0) {
            rest
        } else {
            rest.push(log[0])
        }
    }
}

/// The append-only table.
pub struct MemTable {
    items: Vec<KeyValue>,
}

impl MemTable {
    /// Every write so far, oldest first.
    pub closed spec fn log(&self) -> Seq<(Seq<char>, u32)> {
        entry_pairs(self.items@)
    }

    /// An empty table.
    pub fn new() -> (r: MemTable)
        ensures
            r.log() == Seq::<(Seq<char>, u32)>::empty(),
    {
        let r = MemTable { items: Vec::new() };
        assert(r.log() =~= Seq::<(Seq<char>, u32)>::empty());
        r
    }

    /// Appends a write of `key` with `value`.
    pub fn write(&mut self, key: String, value: u32)
        ensures
            final(self).log() == old(self).log().push((key@, value)),
    {
        let kv = Entry { key, value };
        self.items.push(kv);
        assert(self.log() =~= old(self).log().push(entry_pair(kv)));
    }

    /// The value of the newest write of `key`.
    pub fn read(&self, key: &str) -> (r: Option<u32>)
        ensures
            r == latest(self.log(), key@),
    {
        let mut i: usize = self.items.len();
        assert(self.log().subrange(0, i as int) =~= self.log());
        while i > 0
            invariant
                0 <= i <= self.items@.len(),
                latest(self.log(), key@) == latest(self.log().subrange(0, i as int), key@),
            decreases i,
        {
            let kv = &self.items[i - 1];
            let ghost prefix = self.log().subrange(0, i as int);
            assert(prefix.last() == entry_pair(self.items@[i - 1]));
            if compare_keys(kv.key.as_str(), key) == KeyOrder::Equal {
                return Some(kv.value);
            }
            assert(prefix.drop_last() =~= self.log().subrange(0, i - 1));
            i = i - 1;
        }
        None
    }

    /// The newest write of each key, newest first.
    pub fn items(&self) -> (r: Vec<KeyValue>)
        ensures
            entry_pairs(r@) == newest_first(self.log()),
    {
        let ghost log = self.log();
        let mut r: Vec<KeyValue> = Vec::new();
        let mut i: usize = self.items.len();
        assert(log.subrange(i as int, log.len() as int) =~= Seq::<(Seq<char>, u32)>::empty());
        while i > 0
            invariant
                0 <= i <= self.items@.len(),
                log == self.log(),
                entry_pairs(r@) == newest_first(log.subrange(i as int, log.len() as int)),
            decreases i,
        {
            let kv = &self.items[i - 1];
            let ghost suffix = log.subrange(i - 1, log.len() as int);
            assert(suffix.drop_first() =~= log.subrange(i as int, log.len() as int));
            assert(suffix[0] == entry_pair(*kv));
            let mut seen = false;
            let mut j: usize = 0;
            while j < r.len()
                invariant
                    0 <= j <= r@.len(),
                    seen == exists|m: int| 0 <= m < j && entry_pairs(r@)[m].0 == kv.key@,
                decreases r@.len() - j,
            {
                assert(entry_pairs(r@)[j as int] == entry_pair(r@[j as int]));
                if r[j].key == kv.key {
                    seen = true;
                }
                j = j + 1;
            }
            if !seen {
                let ghost before = r@;
                let copy = Entry { key: kv.key.clone(), value: kv.value };
                r.push(copy);
                assert(entry_pairs(r@) =~= entry_pairs(before).push(entry_pair(copy)));
            }
            i = i - 1;
        }
        assert(log.subrange(0, log.len() as int) =~= log);
        r
    }
}

} // verus!
