//! Entries, the bounded sorted table that takes writes, and the immutable
//! segments captured from it.
use vstd::prelude::*;

use crate::codec::{
    decode_records, decode_segment, encode_segment, le_value, lemma_le_value_bound,
    lemma_pow256_8, read_le, serialize_pairs, string_pairs, utf8_to_string,
};
use crate::Error;
use crate::order::{
    compare_keys, key_lt, lemma_key_irreflexive, lemma_key_transitive, KeyOrder,
};

pub mod table;

verus! {

/// Number of distinct keys a table holds before the driver flushes it.
pub const CAPACITY: usize = 10_000;

/// One key/value record. Two entries are equal when their keys are.
#[derive(Debug, Clone)]
pub struct Entry {
    pub key: String,
    pub value: u32,
}

impl PartialEq for Entry {
    fn eq(&self, other: &Entry) -> (r: bool)
        ensures
            r == (self.key@ == other.key@),
    {
        self.key == other.key
    }
}

impl vstd::std_specs::cmp::PartialEqSpecImpl for Entry {
    open spec fn obeys_eq_spec() -> bool {
        true
    }

    open spec fn eq_spec(&self, other: &Entry) -> bool {
        self.key@ == other.key@
    }
}

/// The abstract record of an entry: its key as characters, and its value.
pub open spec fn entry_pair(e: Entry) -> (Seq<char>, u32) {
    (e.key@, e.value)
}

/// The abstract records of a sequence of entries, in the same order.
pub open spec fn entry_pairs(s: Seq<Entry>) -> Seq<(Seq<char>, u32)> {
    s.map_values(|e: Entry| entry_pair(e))
}

/// Keys strictly ascend along the sequence.
pub open spec fn sorted_keys(s: Seq<(Seq<char>, u32)>) -> bool {
    forall|i: int, j: int| 0 <= i < j < s.len() ==> key_lt(#[trigger] s[i].0, #[trigger] s[j].0)
}

/// No key occurs twice in the sequence.
pub open spec fn distinct_keys(s: Seq<(Seq<char>, u32)>) -> bool {
    forall|i: int, j: int| 0 <= i < j < s.len() ==> #[trigger] s[i].0 != #[trigger] s[j].0
}

/// The map from key to value that a sequence of records describes; a later
/// record of a key replaces an earlier one.
pub open spec fn pairs_to_map(s: Seq<(Seq<char>, u32)>) -> Map<Seq<char>, u32>
    decreases s.len(),
{
    if s.len() == 0 {
        Map::empty()
    } else {
        pairs_to_map(s.drop_last()).insert(s.last().0, s.last().1)
    }
}

/// Ascending keys are distinct.
pub proof fn lemma_sorted_distinct(s: Seq<(Seq<char>, u32)>)
    requires
        sorted_keys(s),
    ensures
        distinct_keys(s),
{
    assert forall|i: int, j: int| 0 <= i < j < s.len() implies #[trigger] s[i].0 != #[trigger] s[j].0 by {
        lemma_key_irreflexive(s[i].0);
    }
}

/// Lookup in the map of a sequence with distinct keys finds each record, and
/// the map has one key per record.
pub proof fn lemma_pairs_to_map(s: Seq<(Seq<char>, u32)>)
    requires
        distinct_keys(s),
    ensures
        pairs_to_map(s).dom().finite(),
        pairs_to_map(s).len() == s.len(),
        forall|k: Seq<char>| #[trigger]
            pairs_to_map(s).contains_key(k) <==> exists|i: int| 0 <= i < s.len() && s[i].0 == k,
        forall|i: int|
            0 <= i < s.len() ==> pairs_to_map(s).contains_key(#[trigger] s[i].0) && pairs_to_map(
                s,
            )[s[i].0] == s[i].1,
    decreases s.len(),
{
    if s.len() > 0 {
        let p = s.drop_last();
        assert(distinct_keys(p));
        lemma_pairs_to_map(p);
        let m = pairs_to_map(p);
        assert(!m.contains_key(s.last().0)) by {
            if m.contains_key(s.last().0) {
                let i = choose|i: int| 0 <= i < p.len() && p[i].0 == s.last().0;
                assert(s[i].0 == s[s.len() - 1].0);
            }
        }
        assert forall|k: Seq<char>| #[trigger]
            pairs_to_map(s).contains_key(k) <==> exists|i: int| 0 <= i < s.len() && s[i].0 == k by {
            if pairs_to_map(s).contains_key(k) && k != s.last().0 {
                let i = choose|i: int| 0 <= i < p.len() && p[i].0 == k;
                assert(s[i].0 == k);
            }
            if exists|i: int| 0 <= i < s.len() && s[i].0 == k {
                let i = choose|i: int| 0 <= i < s.len() && s[i].0 == k;
                if i < s.len() - 1 {
                    assert(p[i].0 == k);
                }
            }
        }
        assert forall|i: int| 0 <= i < s.len() implies pairs_to_map(s).contains_key(
            #[trigger] s[i].0,
        ) && pairs_to_map(s)[s[i].0] == s[i].1 by {
            if i < s.len() - 1 {
                assert(p[i] == s[i]);
            }
        }
    }
}

/// Writing records with pairwise distinct keys, one after the other, into an
/// empty table (whose view is `pairs_to_map` of what was written, as
/// `MemTable::write` states): every written key then reads back the value
/// written with it, a key never written reads nothing, and the table counts
/// one key per write.
pub proof fn lemma_distinct_writes(ws: Seq<(Seq<char>, u32)>)
    requires
        distinct_keys(ws),
    ensures
        forall|i: int|
            0 <= i < ws.len() ==> pairs_to_map(ws).contains_key(#[trigger] ws[i].0) && pairs_to_map(
                ws,
            )[ws[i].0] == ws[i].1,
        forall|k: Seq<char>|
            (forall|i: int| 0 <= i < ws.len() ==> #[trigger] ws[i].0 != k) ==> !pairs_to_map(
                ws,
            ).contains_key(k),
        pairs_to_map(ws).len() == ws.len(),
{
    lemma_pairs_to_map(ws);
}

/// Writing a key twice counts it once, and the key reads back the second
/// value.
pub proof fn lemma_overwrite(m: Map<Seq<char>, u32>, k: Seq<char>, v1: u32, v2: u32)
    requires
        m.dom().finite(),
    ensures
        m.insert(k, v1).insert(k, v2).len() == m.insert(k, v1).len(),
        m.insert(k, v1).insert(k, v2)[k] == v2,
{
    assert(m.insert(k, v1).insert(k, v2).dom() =~= m.insert(k, v1).dom());
}

/// Inserting a record of a new key at a position of a sequence with distinct
/// keys inserts the key into its map.
pub proof fn lemma_map_insert_new(s: Seq<(Seq<char>, u32)>, pos: int, k: Seq<char>, v: u32)
    requires
        0 <= pos <= s.len(),
        distinct_keys(s),
        distinct_keys(s.insert(pos, (k, v))),
    ensures
        pairs_to_map(s.insert(pos, (k, v))) == pairs_to_map(s).insert(k, v),
{
    let t = s.insert(pos, (k, v));
    lemma_pairs_to_map(s);
    lemma_pairs_to_map(t);
    assert(t[pos] == (k, v));
    assert forall|key: Seq<char>|
        pairs_to_map(t).contains_key(key) <==> pairs_to_map(s).insert(k, v).contains_key(key) by {
        if key == k {
            assert(t[pos].0 == key);
        }
        if exists|i: int| 0 <= i < s.len() && s[i].0 == key {
            let i = choose|i: int| 0 <= i < s.len() && s[i].0 == key;
            if i < pos {
                assert(t[i].0 == key);
            } else {
                assert(t[i + 1].0 == key);
            }
        }
        if exists|i: int| 0 <= i < t.len() && t[i].0 == key {
            let i = choose|i: int| 0 <= i < t.len() && t[i].0 == key;
            if i < pos {
                assert(s[i].0 == key);
            } else if i > pos {
                assert(s[i - 1].0 == key);
            }
        }
    }
    assert forall|key: Seq<char>| #[trigger] pairs_to_map(t).contains_key(key) implies pairs_to_map(
        t,
    )[key] == pairs_to_map(s).insert(k, v)[key] by {
        let i = choose|i: int| 0 <= i < t.len() && t[i].0 == key;
        assert(pairs_to_map(t)[t[i].0] == t[i].1);
        if i < pos {
            assert(s[i] == t[i]);
            assert(t[i].0 != t[pos].0);
        } else if i > pos {
            assert(s[i - 1] == t[i]);
            assert(t[i].0 != t[pos].0);
        }
    }
    assert(pairs_to_map(t) =~= pairs_to_map(s).insert(k, v));
}

/// Replacing the value of a record in a sequence with distinct keys replaces
/// the value of its key in the map.
pub proof fn lemma_map_update(s: Seq<(Seq<char>, u32)>, pos: int, v: u32)
    requires
        distinct_keys(s),
        0 <= pos < s.len(),
    ensures
        pairs_to_map(s.update(pos, (s[pos].0, v))) == pairs_to_map(s).insert(s[pos].0, v),
{
    let k = s[pos].0;
    let t = s.update(pos, (k, v));
    assert(distinct_keys(t)) by {
        assert forall|i: int, j: int| 0 <= i < j < t.len() implies #[trigger] t[i].0 != #[trigger] t[j].0 by {
            assert(t[i].0 == s[i].0 && t[j].0 == s[j].0);
        }
    }
    lemma_pairs_to_map(s);
    lemma_pairs_to_map(t);
    assert forall|key: Seq<char>|
        pairs_to_map(t).contains_key(key) <==> pairs_to_map(s).insert(k, v).contains_key(key) by {
        if exists|i: int| 0 <= i < s.len() && s[i].0 == key {
            let i = choose|i: int| 0 <= i < s.len() && s[i].0 == key;
            assert(t[i].0 == key);
        }
        if exists|i: int| 0 <= i < t.len() && t[i].0 == key {
            let i = choose|i: int| 0 <= i < t.len() && t[i].0 == key;
            assert(s[i].0 == key);
        }
    }
    assert forall|key: Seq<char>| #[trigger] pairs_to_map(t).contains_key(key) implies pairs_to_map(
        t,
    )[key] == pairs_to_map(s).insert(k, v)[key] by {
        let i = choose|i: int| 0 <= i < t.len() && t[i].0 == key;
        assert(pairs_to_map(t)[t[i].0] == t[i].1);
        if i != pos {
            assert(s[i] == t[i]);
        }
    }
    assert(pairs_to_map(t) =~= pairs_to_map(s).insert(k, v));
}

/// The bounded, sorted table that takes writes. Its entries ascend by key,
/// each key occurs once, and it holds at most `capacity` of them.
pub struct MemTable {
    entries: Vec<Entry>,
    capacity: usize,
}

/// Where a key stands in a sorted sequence of records: at an index, or
/// between the records before and after an insertion point.
pub open spec fn search_result(s: Seq<(Seq<char>, u32)>, k: Seq<char>, r: Result<usize, usize>) -> bool {
    match r {
        Ok(i) => i < s.len() && s[i as int].0 == k,
        Err(p) => p <= s.len() && (forall|i: int| 0 <= i < p ==> key_lt(#[trigger] s[i].0, k)) && (
        forall|i: int| p <= i < s.len() ==> key_lt(k, #[trigger] s[i].0)),
    }
}

impl View for MemTable {
    type V = Map<Seq<char>, u32>;

    open spec fn view(&self) -> Map<Seq<char>, u32> {
        pairs_to_map(self.items_spec())
    }
}

impl MemTable {
    /// The records of the table in ascending key order.
    pub closed spec fn items_spec(&self) -> Seq<(Seq<char>, u32)> {
        entry_pairs(self.entries@)
    }

    /// The number of distinct keys the table may hold.
    pub closed spec fn capacity_spec(&self) -> nat {
        self.capacity as nat
    }

    #[verifier::type_invariant]
    closed spec fn well_formed(&self) -> bool {
        &&& sorted_keys(self.items_spec())
        &&& self.entries@.len() <= self.capacity
        &&& self.capacity > 0
    }

    /// What every table satisfies: sorted records, one per key of the map,
    /// no more than the capacity.
    pub open spec fn valid(&self) -> bool {
        &&& sorted_keys(self.items_spec())
        &&& self@.len() == self.items_spec().len()
        &&& self@.dom().finite()
        &&& self@.len() <= self.capacity_spec()
        &&& self.capacity_spec() > 0
    }

    /// The type invariant gives `valid`.
    proof fn lemma_valid(&self)
        requires
            self.well_formed(),
        ensures
            self.valid(),
    {
        lemma_sorted_distinct(self.items_spec());
        lemma_pairs_to_map(self.items_spec());
    }

    /// An empty table of the default capacity.
    pub fn new() -> (r: MemTable)
        ensures
            r.valid(),
            r@ == Map::<Seq<char>, u32>::empty(),
            r.items_spec() == Seq::<(Seq<char>, u32)>::empty(),
            r.capacity_spec() == CAPACITY,
    {
        MemTable::with_capacity(CAPACITY)
    }

    /// An empty table that holds up to `capacity` distinct keys.
    pub fn with_capacity(capacity: usize) -> (r: MemTable)
        requires
            capacity > 0,
        ensures
            r.valid(),
            r@ == Map::<Seq<char>, u32>::empty(),
            r.items_spec() == Seq::<(Seq<char>, u32)>::empty(),
            r.capacity_spec() == capacity,
    {
        let r = MemTable { entries: Vec::new(), capacity };
        proof {
            assert(r.items_spec() =~= Seq::<(Seq<char>, u32)>::empty());
            r.lemma_valid();
        }
        r
    }

    /// The number of distinct keys in the table.
    pub fn len(&self) -> (r: usize)
        ensures
            self.valid(),
            r == self@.len(),
    {
        proof {
            use_type_invariant(self);
            self.lemma_valid();
        }
        self.entries.len()
    }

    /// The number of distinct keys the table may hold.
    pub fn capacity(&self) -> (r: usize)
        ensures
            r == self.capacity_spec(),
            r > 0,
    {
        proof {
            use_type_invariant(self);
        }
        self.capacity
    }

    /// Whether the table holds as many keys as its capacity allows.
    pub fn at_capacity(&self) -> (r: bool)
        ensures
            self.valid(),
            r == (self@.len() == self.capacity_spec()),
    {
        proof {
            use_type_invariant(self);
            self.lemma_valid();
        }
        self.entries.len() == self.capacity
    }

    /// Binary search for `key` among the entries.
    fn search(&self, key: &str) -> (r: Result<usize, usize>)
        ensures
            search_result(self.items_spec(), key@, r),
    {
        proof {
            use_type_invariant(self);
        }
        let ghost s = self.items_spec();
        let mut lo: usize = 0;
        let mut hi: usize = self.entries.len();
        while lo < hi
            invariant
                s == self.items_spec(),
                sorted_keys(s),
                s.len() == self.entries@.len(),
                0 <= lo <= hi <= s.len(),
                forall|i: int| 0 <= i < lo ==> key_lt(#[trigger] s[i].0, key@),
                forall|i: int| hi <= i < s.len() ==> key_lt(key@, #[trigger] s[i].0),
            decreases hi - lo,
        {
            let mid = lo + (hi - lo) / 2;
            assert(s[mid as int] == entry_pair(self.entries@[mid as int]));
            match compare_keys(key, self.entries[mid].key.as_str()) {
                KeyOrder::Equal => {
                    return Ok(mid);
                },
                KeyOrder::Less => {
                    assert forall|i: int| mid <= i < s.len() implies key_lt(key@, #[trigger] s[i].0) by {
                        if i > mid {
                            lemma_key_transitive(key@, s[mid as int].0, s[i].0);
                        }
                    }
                    hi = mid;
                },
                KeyOrder::Greater => {
                    assert forall|i: int| 0 <= i <= mid implies key_lt(#[trigger] s[i].0, key@) by {
                        if i < mid {
                            lemma_key_transitive(s[i].0, s[mid as int].0, key@);
                        }
                    }
                    lo = mid + 1;
                },
            }
        }
        Err(lo)
    }

    /// Inserts `key` with `value`, or replaces the value of `key` if the table
    /// holds it already. The caller checks the capacity first: a new key needs
    /// room for it.
    pub fn write(&mut self, key: String, value: u32)
        requires
            old(self)@.contains_key(key@) || old(self)@.len() < old(self).capacity_spec(),
        ensures
            final(self).valid(),
            final(self)@ == old(self)@.insert(key@, value),
            final(self).capacity_spec() == old(self).capacity_spec(),
    {
        proof {
            use_type_invariant(&*self);
            self.lemma_valid();
            lemma_sorted_distinct(self.items_spec());
            lemma_pairs_to_map(self.items_spec());
        }
        let ghost s = self.items_spec();
        let ghost m = self@;
        let found = self.search(key.as_str());
        let mut entries: Vec<Entry> = Vec::new();
        std::mem::swap(&mut self.entries, &mut entries);
        assert(entry_pairs(entries@) == s);
        match found {
            Ok(i) => {
                proof {
                    lemma_map_update(s, i as int, value);
                }
                entries.set(i, Entry { key, value });
                proof {
                    let t = s.update(i as int, (s[i as int].0, value));
                    assert(entry_pairs(entries@) =~= t);
                    assert forall|a: int, b: int| 0 <= a < b < t.len() implies key_lt(
                        #[trigger] t[a].0,
                        #[trigger] t[b].0,
                    ) by {
                        assert(t[a].0 == s[a].0 && t[b].0 == s[b].0);
                    }
                }
            },
            Err(p) => {
                proof {
                    if m.contains_key(key@) {
                        let j = choose|j: int| 0 <= j < s.len() && s[j].0 == key@;
                        lemma_key_irreflexive(key@);
                    }
                }
                let ghost k = key@;
                entries.insert(p, Entry { key, value });
                proof {
                    let t = s.insert(p as int, (k, value));
                    assert(entry_pairs(entries@) =~= t);
                    assert forall|a: int, b: int| 0 <= a < b < t.len() implies key_lt(
                        #[trigger] t[a].0,
                        #[trigger] t[b].0,
                    ) by {
                        if a < p && b > p {
                            lemma_key_transitive(t[a].0, k, t[b].0);
                        }
                    }
                    lemma_sorted_distinct(t);
                    lemma_map_insert_new(s, p as int, k, value);
                }
            },
        }
        std::mem::swap(&mut self.entries, &mut entries);
        proof {
            self.lemma_valid();
        }
    }

    /// The value of `key`, if the table holds it.
    pub fn read(&self, key: &str) -> (r: Option<&u32>)
        ensures
            match r {
                Some(v) => self@.contains_key(key@) && *v == self@[key@],
                None => !self@.contains_key(key@),
            },
    {
        proof {
            use_type_invariant(self);
            lemma_sorted_distinct(self.items_spec());
            lemma_pairs_to_map(self.items_spec());
        }
        let ghost s = self.items_spec();
        match self.search(key) {
            Ok(i) => {
                assert(s[i as int] == entry_pair(self.entries@[i as int]));
                Some(&self.entries[i].value)
            },
            Err(p) => {
                proof {
                    if self@.contains_key(key@) {
                        let j = choose|j: int| 0 <= j < s.len() && s[j].0 == key@;
                        lemma_key_irreflexive(key@);
                    }
                }
                None
            },
        }
    }

    /// A copy of all entries, in strictly ascending key order.
    pub fn items(&self) -> (r: Vec<Entry>)
        ensures
            entry_pairs(r@) == self.items_spec(),
            sorted_keys(entry_pairs(r@)),
            pairs_to_map(entry_pairs(r@)) == self@,
    {
        proof {
            use_type_invariant(self);
        }
        let mut r: Vec<Entry> = Vec::new();
        let mut i: usize = 0;
        while i < self.entries.len()
            invariant
                0 <= i <= self.entries@.len(),
                entry_pairs(r@) =~= self.items_spec().subrange(0, i as int),
            decreases self.entries@.len() - i,
        {
            let e = &self.entries[i];
            let copy = Entry { key: e.key.clone(), value: e.value };
            assert(entry_pair(copy) == self.items_spec()[i as int]);
            let ghost before = r@;
            r.push(copy);
            proof {
                assert(r@ == before.push(copy));
                assert(entry_pairs(r@) =~= entry_pairs(before).push(entry_pair(copy)));
                assert(entry_pairs(r@) =~= self.items_spec().subrange(0, i + 1));
            }
            i = i + 1;
        }
        proof {
            assert(self.items_spec().subrange(0, i as int) =~= self.items_spec());
        }
        r
    }
}

/// An immutable snapshot of a table's entries, in ascending key order.
pub struct SSTable {
    entries: Vec<Entry>,
}

impl View for SSTable {
    type V = Seq<(Seq<char>, u32)>;

    closed spec fn view(&self) -> Seq<(Seq<char>, u32)> {
        entry_pairs(self.entries@)
    }
}

impl SSTable {
    #[verifier::type_invariant]
    closed spec fn well_formed(&self) -> bool {
        sorted_keys(entry_pairs(self.entries@))
    }

    /// Captures the entries of `table`.
    pub fn from(table: &MemTable) -> (r: SSTable)
        ensures
            r@ == table.items_spec(),
            sorted_keys(r@),
            pairs_to_map(r@) == table@,
    {
        let entries = table.items();
        SSTable { entries }
    }

    /// The entries of the segment.
    pub fn entries(&self) -> (r: &Vec<Entry>)
        ensures
            entry_pairs(r@) == self@,
            sorted_keys(self@),
    {
        proof {
            use_type_invariant(self);
        }
        &self.entries
    }

    /// Decodes a segment from its binary encoding; `None` where `bytes` is
    /// not exactly the encoding of a segment.
    pub fn from_bytes(bytes: &[u8]) -> (r: Option<SSTable>)
        ensures
            match r {
                Some(t) => decode_segment(bytes@) == Some(t@),
                None => decode_segment(bytes@) is None,
            },
    {
        let len = bytes.len();
        if len < 8 {
            return None;
        }
        let n = read_le(bytes, 0, 8);
        let ghost all = bytes@.subrange(8, len as int);
        let mut entries: Vec<Entry> = Vec::new();
        let mut pos: usize = 8;
        let mut i: u64 = 0;
        proof {
            assert(bytes@.subrange(pos as int, len as int) == all);
            assert(entry_pairs(entries@) =~= Seq::<(Seq<char>, u32)>::empty());
            match decode_records(all, n as nat) {
                Some(t) => assert(entry_pairs(entries@) + t =~= t),
                None => {},
            }
        }
        while i < n
            invariant
                len == bytes@.len(),
                8 <= pos <= len,
                i <= n,
                n == le_value(bytes@.subrange(0, 8)),
                all == bytes@.subrange(8, len as int),
                decode_records(all, n as nat) == (match decode_records(
                    bytes@.subrange(pos as int, len as int),
                    (n - i) as nat,
                ) {
                    Some(t) => Some(entry_pairs(entries@) + t),
                    None => None::<Seq<(Seq<char>, u32)>>,
                }),
            decreases n - i,
        {
            let ghost rest = bytes@.subrange(pos as int, len as int);
            if len - pos < 8 {
                return None;
            }
            let kl = read_le(bytes, pos, 8);
            assert(rest.subrange(0, 8) =~= bytes@.subrange(pos as int, pos + 8));
            if ((len - pos - 8) as u64) < kl {
                return None;
            }
            let kl = kl as usize;
            if len - pos - 8 - kl < 4 {
                return None;
            }
            let kb = vstd::slice::slice_to_vec(vstd::slice::slice_subrange(bytes, pos + 8, pos + 8 + kl));
            assert(kb@ =~= rest.subrange(8, 8 + kl));
            let key = match utf8_to_string(kb) {
                Some(k) => k,
                None => {
                    return None;
                },
            };
            let v = read_le(bytes, pos + 8 + kl, 4);
            proof {
                assert(rest.subrange(8 + kl, 12 + kl) =~= bytes@.subrange(pos + 8 + kl, pos + 12 + kl));
                lemma_le_value_bound(bytes@.subrange(pos + 8 + kl, pos + 12 + kl));
                lemma_pow256_8();
            }
            let e = Entry { key, value: v as u32 };
            let ghost before = entries@;
            entries.push(e);
            proof {
                assert(entry_pairs(entries@) =~= entry_pairs(before).push(entry_pair(e)));
                assert(rest.subrange(12 + kl, rest.len() as int) =~= bytes@.subrange(
                    pos + 12 + kl,
                    len as int,
                ));
                match decode_records(bytes@.subrange(pos + 12 + kl, len as int), (n - i - 1) as nat) {
                    Some(t) => {
                        assert(entry_pairs(before) + (seq![entry_pair(e)] + t) =~= entry_pairs(
                            entries@,
                        ) + t);
                    },
                    None => {},
                }
            }
            pos = pos + 12 + kl;
            i = i + 1;
        }
        if pos != len {
            return None;
        }
        proof {
            assert(bytes@.subrange(pos as int, len as int).len() == 0);
            assert(entry_pairs(entries@) + Seq::<(Seq<char>, u32)>::empty() =~= entry_pairs(entries@));
        }
        let ghost es = entry_pairs(entries@);
        assert(decode_records(all, n as nat) == Some(es));
        let mut j: usize = 1;
        while j < entries.len()
            invariant
                es == entry_pairs(entries@),
                len == bytes@.len(),
                len >= 8,
                decode_records(all, n as nat) == Some(es),
                n == le_value(bytes@.subrange(0, 8)),
                all == bytes@.subrange(8, len as int),
                1 <= j,
                forall|a: int, b: int| 0 <= a < b < j && b < es.len() ==> key_lt(#[trigger] es[a].0, #[trigger] es[b].0),
            decreases entries@.len() - j,
        {
            assert(es[j - 1] == entry_pair(entries@[j - 1]) && es[j as int] == entry_pair(entries@[j as int]));
            if compare_keys(entries[j - 1].key.as_str(), entries[j].key.as_str()) != KeyOrder::Less {
                proof {
                    if sorted_keys(es) {
                        assert(key_lt(es[j - 1].0, es[j as int].0));
                    }
                }
                return None;
            }
            assert forall|a: int, b: int| 0 <= a < b < j + 1 && b < es.len() implies key_lt(#[trigger] es[a].0, #[trigger] es[b].0) by {
                if b == j && a < j - 1 {
                    lemma_key_transitive(es[a].0, es[j - 1].0, es[b].0);
                }
            }
            j = j + 1;
        }
        Some(SSTable { entries })
    }

    /// The segment's binary encoding. The encoder accepts every segment, so
    /// this always succeeds; the error is the one the write path reports
    /// should an encoder refuse its data.
    pub fn into_bytes(&self) -> (r: Result<Vec<u8>, Error>)
        ensures
            r matches Ok(b) && b@ == encode_segment(self@),
    {
        let mut pairs: Vec<(String, u32)> = Vec::new();
        let mut i: usize = 0;
        while i < self.entries.len()
            invariant
                0 <= i <= self.entries@.len(),
                string_pairs(pairs@) =~= self@.subrange(0, i as int),
            decreases self.entries@.len() - i,
        {
            let e = &self.entries[i];
            let p = (e.key.clone(), e.value);
            let ghost before = pairs@;
            pairs.push(p);
            proof {
                assert(string_pairs(pairs@) =~= string_pairs(before).push((p.0@, p.1)));
                assert(self@.subrange(0, i + 1) =~= self@.subrange(0, i as int).push(self@[i as int]));
            }
            i = i + 1;
        }
        proof {
            assert(self@.subrange(0, i as int) =~= self@);
        }
        match serialize_pairs(&pairs) {
            Ok(b) => Ok(b),
            Err(_) => Err(Error::SerializeError),
        }
    }
}

} // verus!
