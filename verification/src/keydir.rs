//! The key directory: for every live key, where its latest row stands.

use crate::common::RowLocation;
use crate::database::{lemma_recovery_rows_in_range, Database};
use crate::error::BitcaskResult;
use crate::file_id::FileId;
use crate::recovery::{
    entry_of, lemma_rebuild_entries, rebuild, rebuild_onto, rebuild_start, rebuild_step,
};
use dashmap::DashMap;
use vstd::prelude::*;

verus! {

/// `dashmap::DashMap`, carried as it is: what it holds is known through
/// `index_entries` alone.
#[verifier::external_type_specification]
#[verifier::external_body]
#[verifier::reject_recursive_types(K)]
#[verifier::reject_recursive_types(V)]
#[verifier::reject_recursive_types(S)]
pub struct ExDashMap<K, V, S>(DashMap<K, V, S>);

/// What the index holds: for each key the file id, the offset, the size and
/// the timestamp of a row.
pub uninterp spec fn index_entries(index: DashMap<Vec<u8>, (u32, u64, u64, u64)>) -> Map<
    Seq<u8>,
    (u32, u64, u64, u64),
>;

/// `DashMap::new`: a map that holds nothing.
#[verifier::external_body]
fn index_new() -> (index: DashMap<Vec<u8>, (u32, u64, u64, u64)>)
    ensures
        index_entries(index).dom() == Set::<Seq<u8>>::empty(),
{
    DashMap::new()
}

/// `DashMap::insert`: the key then maps to the value, whether or not it was
/// there before; the other keys keep theirs.
#[verifier::external_body]
fn index_insert(
    index: &mut DashMap<Vec<u8>, (u32, u64, u64, u64)>,
    key: Vec<u8>,
    value: (u32, u64, u64, u64),
)
    ensures
        index_entries(*final(index)) == index_entries(*old(index)).insert(key@, value),
{
    index.insert(key, value);
}

/// `DashMap::get`: the value of the key, if the map holds the key.
#[verifier::external_body]
fn index_get(index: &DashMap<Vec<u8>, (u32, u64, u64, u64)>, key: &Vec<u8>) -> (value: Option<
    (u32, u64, u64, u64),
>)
    ensures
        value == if index_entries(*index).contains_key(key@) {
            Some(index_entries(*index)[key@])
        } else {
            None
        },
{
    index.get(key).map(|entry| *entry.value())
}

/// `DashMap::contains_key`: whether the map holds the key.
#[verifier::external_body]
fn index_contains_key(index: &DashMap<Vec<u8>, (u32, u64, u64, u64)>, key: &Vec<u8>) -> (held:
    bool)
    ensures
        held == index_entries(*index).contains_key(key@),
{
    index.contains_key(key)
}

/// `DashMap::remove`: the key is gone; the other keys keep their values.
#[verifier::external_body]
fn index_remove(index: &mut DashMap<Vec<u8>, (u32, u64, u64, u64)>, key: &Vec<u8>)
    ensures
        index_entries(*final(index)) == index_entries(*old(index)).remove(key@),
{
    index.remove(key);
}

/// `DashMap::len`: the number of keys.
#[verifier::external_body]
fn index_len(index: &DashMap<Vec<u8>, (u32, u64, u64, u64)>) -> (count: usize)
    ensures
        index_entries(*index).dom().finite() ==> count == index_entries(*index).dom().len(),
{
    index.len()
}

/// `DashMap::clear`: the map holds nothing.
#[verifier::external_body]
fn index_clear(index: &mut DashMap<Vec<u8>, (u32, u64, u64, u64)>)
    ensures
        index_entries(*final(index)).dom() == Set::<Seq<u8>>::empty(),
{
    index.clear();
}

/// `DashMap::iter`, collected: every pair of the map once, in an order that
/// is not known.
#[verifier::external_body]
fn index_pairs(index: &DashMap<Vec<u8>, (u32, u64, u64, u64)>) -> (pairs: Vec<
    (Vec<u8>, (u32, u64, u64, u64)),
>)
    ensures
        forall|i: int|
            0 <= i < pairs@.len() ==> index_entries(*index).contains_key(#[trigger] pairs@[i].0@)
                && index_entries(*index)[pairs@[i].0@] == pairs@[i].1,
        forall|i: int, j: int|
            0 <= i < j < pairs@.len() ==> #[trigger] pairs@[i].0@ != #[trigger] pairs@[j].0@,
        forall|key: Seq<u8>| #[trigger]
            index_entries(*index).contains_key(key) ==> exists|i: int|
                0 <= i < pairs@.len() && #[trigger] pairs@[i].0@ == key,
{
    index.iter().map(|entry| (entry.key().clone(), *entry.value())).collect()
}

/// Where the latest row of a key stands, and the timestamp of that row.
#[derive(Debug, PartialEq, Eq, Clone, Copy, Structural)]
pub struct KeyDirEntry {
    pub file_id: FileId,
    pub row_offset: u64,
    pub row_size: u64,
    pub timestamp: u64,
}

impl KeyDirEntry {
    /// The entry for a row at `location` with this timestamp.
    pub fn new(location: RowLocation, timestamp: u64) -> (entry: KeyDirEntry)
        ensures
            entry.location() == location,
            entry.timestamp == timestamp,
    {
        KeyDirEntry {
            file_id: location.file_id,
            row_offset: location.row_offset,
            row_size: location.row_size,
            timestamp,
        }
    }

    /// Where the row stands.
    pub open spec fn location(&self) -> RowLocation {
        RowLocation {
            file_id: self.file_id,
            row_offset: self.row_offset,
            row_size: self.row_size,
        }
    }

    /// Where the row stands.
    pub fn row_location(&self) -> (location: RowLocation)
        ensures
            location == self.location(),
    {
        RowLocation {
            file_id: self.file_id,
            row_offset: self.row_offset,
            row_size: self.row_size,
        }
    }

    pub open spec fn of_tuple(fields: (u32, u64, u64, u64)) -> KeyDirEntry {
        KeyDirEntry {
            file_id: fields.0,
            row_offset: fields.1,
            row_size: fields.2,
            timestamp: fields.3,
        }
    }
}

/// The row of the one entry does not stand behind the row of the other: it
/// is in a file with a lesser id, or in the same file and not behind it.
pub open spec fn stands_before(one: KeyDirEntry, other: KeyDirEntry) -> bool {
    one.file_id < other.file_id || (one.file_id == other.file_id && one.row_offset
        <= other.row_offset)
}

/// The entries stand in the order of their rows.
pub open spec fn entries_in_order(entries: Seq<(Vec<u8>, KeyDirEntry)>) -> bool {
    forall|i: int, j: int|
        0 <= i < j < entries.len() ==> stands_before(
            (#[trigger] entries[i]).1,
            (#[trigger] entries[j]).1,
        )
}

/// One of the first `upto` of the entries has this key and this entry.
pub open spec fn holds_entry(
    all: Seq<(Vec<u8>, KeyDirEntry)>,
    upto: int,
    key: Seq<u8>,
    entry: KeyDirEntry,
) -> bool {
    exists|j: int| 0 <= j < upto && (#[trigger] all[j]).0@ == key && all[j].1 == entry
}

/// Every one of `some` is among the first `upto` of `all`, with its key and
/// its entry.
pub open spec fn entries_among(
    some: Seq<(Vec<u8>, KeyDirEntry)>,
    all: Seq<(Vec<u8>, KeyDirEntry)>,
    upto: int,
) -> bool {
    forall|i: int|
        0 <= i < some.len() ==> holds_entry(all, upto, (#[trigger] some[i]).0@, some[i].1)
}

/// Whether no key occurs twice among the entries.
pub open spec fn keys_differ(entries: Seq<(Vec<u8>, KeyDirEntry)>) -> bool {
    forall|i: int, j: int|
        0 <= i < j < entries.len() ==> (#[trigger] entries[i]).0@ != (#[trigger] entries[j]).0@
}

/// Whether the one entry stands before the other or where it stands.
fn is_before(one: &KeyDirEntry, other: &KeyDirEntry) -> (before: bool)
    ensures
        before == stands_before(*one, *other),
{
    one.file_id < other.file_id || (one.file_id == other.file_id && one.row_offset
        <= other.row_offset)
}

/// The entries with one more, put where it belongs by the place of its row.
fn insert_in_row_order(
    sorted: &mut Vec<(Vec<u8>, KeyDirEntry)>,
    key: Vec<u8>,
    entry: KeyDirEntry,
    Ghost(all): Ghost<Seq<(Vec<u8>, KeyDirEntry)>>,
    Ghost(n): Ghost<int>,
)
    requires
        0 <= n < all.len(),
        all[n].0@ == key@,
        all[n].1 == entry,
        keys_differ(all),
        old(sorted)@.len() == n,
        entries_in_order(old(sorted)@),
        keys_differ(old(sorted)@),
        entries_among(old(sorted)@, all, n),
        entries_among(all.subrange(0, n), old(sorted)@, n),
    ensures
        final(sorted)@.len() == n + 1,
        entries_in_order(final(sorted)@),
        keys_differ(final(sorted)@),
        entries_among(final(sorted)@, all, n + 1),
        entries_among(all.subrange(0, n + 1), final(sorted)@, n + 1),
{
    let mut at: usize = 0;
    while at < sorted.len() && is_before(&sorted[at].1, &entry)
        invariant
            at <= sorted@.len(),
            forall|k: int| 0 <= k < at ==> stands_before((#[trigger] sorted@[k]).1, entry),
        decreases sorted@.len() - at,
    {
        at += 1;
    }
    let ghost before = sorted@;
    sorted.insert(at, (key, entry));
    proof {
        let after = sorted@;
        assert(after =~= before.insert(at as int, (key, entry)));
        assert forall|i: int, j: int| 0 <= i < j < after.len() implies stands_before(
            (#[trigger] after[i]).1,
            (#[trigger] after[j]).1,
        ) by {
            if j < at {
                assert(after[i] == before[i] && after[j] == before[j]);
            } else if j == at {
                assert(after[i] == before[i]);
            } else if i < at {
                assert(after[i] == before[i] && after[j] == before[j - 1]);
            } else if i == at {
                assert(after[j] == before[j - 1]);
                assert(!stands_before(before[at as int].1, entry));
                if j - 1 > at {
                    assert(stands_before(before[at as int].1, before[j - 1].1));
                }
            } else {
                assert(after[i] == before[i - 1] && after[j] == before[j - 1]);
            }
        }
        assert forall|i: int| 0 <= i < after.len() implies holds_entry(
            all,
            n + 1,
            (#[trigger] after[i]).0@,
            after[i].1,
        ) by {
            if i == at {
                assert(all[n].0@ == after[i].0@ && all[n].1 == after[i].1);
            } else {
                let k = if i < at {
                    i
                } else {
                    i - 1
                };
                assert(after[i] == before[k]);
                assert(holds_entry(all, n, before[k].0@, before[k].1));
                let j = choose|j: int|
                    0 <= j < n && (#[trigger] all[j]).0@ == before[k].0@ && all[j].1
                        == before[k].1;
                assert(all[j].0@ == after[i].0@ && all[j].1 == after[i].1);
            }
        }
        assert forall|i: int, j: int| 0 <= i < j < after.len() implies (#[trigger] after[i]).0@
            != (#[trigger] after[j]).0@ by {
            let a = if i < at {
                i
            } else {
                i - 1
            };
            let b = if j < at {
                j
            } else {
                j - 1
            };
            if i != at && j != at {
                assert(after[i] == before[a] && after[j] == before[b]);
            } else {
                let k = if i == at {
                    b
                } else {
                    a
                };
                let other = if i == at {
                    j
                } else {
                    i
                };
                assert(after[other] == before[k]);
                assert(holds_entry(all, n, before[k].0@, before[k].1));
                let m = choose|m: int|
                    0 <= m < n && (#[trigger] all[m]).0@ == before[k].0@ && all[m].1
                        == before[k].1;
                assert(all[m].0@ != all[n].0@);
            }
        }
        let taken = all.subrange(0, n + 1);
        assert forall|i: int| 0 <= i < taken.len() implies holds_entry(
            after,
            n + 1,
            (#[trigger] taken[i]).0@,
            taken[i].1,
        ) by {
            if i == n {
                assert(after[at as int].0@ == taken[i].0@ && after[at as int].1 == taken[i].1);
            } else {
                let held = all.subrange(0, n);
                assert(held[i] == taken[i]);
                assert(holds_entry(before, n, held[i].0@, held[i].1));
                let k = choose|k: int|
                    0 <= k < n && (#[trigger] before[k]).0@ == held[i].0@ && before[k].1
                        == held[i].1;
                let j = if k < at {
                    k
                } else {
                    k + 1
                };
                assert(after[j] == before[k]);
                assert(after[j].0@ == taken[i].0@ && after[j].1 == taken[i].1);
            }
        }
    }
}

/// The key directory. It maps each live key to the place of its latest row.
#[derive(Debug)]
pub struct KeyDir {
    index: DashMap<Vec<u8>, (u32, u64, u64, u64)>,
}

impl View for KeyDir {
    type V = Map<Seq<u8>, KeyDirEntry>;

    closed spec fn view(&self) -> Map<Seq<u8>, KeyDirEntry> {
        Map::new(
            |key: Seq<u8>| index_entries(self.index).contains_key(key),
            |key: Seq<u8>| KeyDirEntry::of_tuple(index_entries(self.index)[key]),
        )
    }
}

impl KeyDir {
    /// The directory holds finitely many keys.
    pub open spec fn wf(&self) -> bool {
        self@.dom().finite()
    }

    /// The key directory of a database, rebuilt from its rows. The rows are
    /// taken newest first. A row whose key was seen is passed over; else a
    /// tombstone marks its key as deleted, and any other row becomes the entry
    /// of its key.
    pub fn new(database: &Database) -> (rebuilt: BitcaskResult<KeyDir>)
        requires
            database.wf(),
        ensures
            rebuilt.is_ok(),
            rebuilt.unwrap().wf(),
            rebuilt.unwrap()@ == rebuild(database@.recovery_rows()),
            forall|key: Seq<u8>| #[trigger]
                rebuilt.unwrap()@.contains_key(key) ==> database@.has_file(
                    rebuilt.unwrap()@[key].file_id,
                ) && rebuilt.unwrap()@[key].row_offset + rebuilt.unwrap()@[key].row_size
                    <= database@.file(rebuilt.unwrap()@[key].file_id).len(),
    {
        let mut iter = match database.recovery_iter() {
            Ok(iter) => iter,
            Err(e) => {
                return Err(e);
            },
        };
        let ghost all = database@.recovery_rows();
        let mut keydir = KeyDir::new_empty_key_dir();
        let mut deleted = KeyDir::new_empty_key_dir();
        proof {
            assert(all.subrange(0, all.len() as int) =~= all);
            assert(deleted@.dom() =~= rebuild_start().deleted);
        }
        loop
            invariant
                iter.wf(),
                iter.database() == database@,
                all == database@.recovery_rows(),
                iter.remaining().len() <= all.len(),
                iter.remaining() == all.subrange(0, iter.remaining().len() as int),
                keydir.wf(),
                deleted.wf(),
                keydir@ == rebuild_onto(rebuild_start(), all, iter.remaining().len() as int).index,
                deleted@.dom() == rebuild_onto(
                    rebuild_start(),
                    all,
                    iter.remaining().len() as int,
                ).deleted,
            ensures
                keydir.wf(),
                keydir@ == rebuild(all),
            decreases iter.remaining().len(),
        {
            let ghost m = iter.remaining().len() as int;
            let ghost state = rebuild_onto(rebuild_start(), all, m);
            let row = match iter.next() {
                None => {
                    break ;
                },
                Some(Err(e)) => {
                    return Err(e);
                },
                Some(Ok(row)) => row,
            };
            proof {
                assert(row@ == all[m - 1]);
                assert(iter.remaining() =~= all.subrange(0, m - 1));
                assert(rebuild_onto(rebuild_start(), all, m - 1) == rebuild_step(state, row@));
            }
            let entry = KeyDirEntry {
                file_id: row.file_id,
                row_offset: row.row_offset,
                row_size: row.row_size,
                timestamp: row.timestamp,
            };
            if keydir.contains_key(&row.key) {
            } else if row.is_tombstone {
                deleted.put(row.key, entry);
                assert(deleted@.dom() =~= state.deleted.insert(row@.key));
            } else if !deleted.contains_key(&row.key) {
                keydir.put(row.key, entry);
            }
        }
        proof {
            database.lemma_files_fit();
            lemma_recovery_rows_in_range(database@, database@.stable.len() as int + 1);
            lemma_rebuild_entries(rebuild_start(), all, 0);
            assert forall|key: Seq<u8>| #[trigger] keydir@.contains_key(key) implies database@.has_file(
                keydir@[key].file_id,
            ) && keydir@[key].row_offset + keydir@[key].row_size <= database@.file(
                keydir@[key].file_id,
            ).len() by {
                let j = choose|j: int|
                    0 <= j < all.len() && (#[trigger] all[j]).key == key && keydir@[key]
                        == entry_of(all[j]);
                assert(database@.has_file(all[j].file_id));
            }
        }
        Ok(keydir)
    }

    /// A key directory without a key.
    pub fn new_empty_key_dir() -> (keydir: KeyDir)
        ensures
            keydir@ == Map::<Seq<u8>, KeyDirEntry>::empty(),
            keydir.wf(),
    {
        let keydir = KeyDir { index: index_new() };
        assert(keydir@ =~= Map::<Seq<u8>, KeyDirEntry>::empty());
        keydir
    }

    /// Points the key at `entry`, whatever it pointed at before.
    pub fn put(&mut self, key: Vec<u8>, entry: KeyDirEntry)
        ensures
            final(self)@ == old(self)@.insert(key@, entry),
            old(self).wf() ==> final(self).wf(),
    {
        index_insert(
            &mut self.index,
            key,
            (entry.file_id, entry.row_offset, entry.row_size, entry.timestamp),
        );
        assert(self@ =~= old(self)@.insert(key@, entry));
    }

    /// Points the key at `entry` if the directory does not hold the key yet.
    pub fn checked_put(&mut self, key: Vec<u8>, entry: KeyDirEntry)
        ensures
            final(self)@ == if old(self)@.contains_key(key@) {
                old(self)@
            } else {
                old(self)@.insert(key@, entry)
            },
            old(self).wf() ==> final(self).wf(),
    {
        if !self.contains_key(&key) {
            self.put(key, entry);
        }
    }

    /// The entry of the key, if the directory holds the key.
    pub fn get(&self, key: &Vec<u8>) -> (entry: Option<KeyDirEntry>)
        ensures
            entry == if self@.contains_key(key@) {
                Some(self@[key@])
            } else {
                None
            },
    {
        match index_get(&self.index, key) {
            Some(fields) => Some(
                KeyDirEntry {
                    file_id: fields.0,
                    row_offset: fields.1,
                    row_size: fields.2,
                    timestamp: fields.3,
                },
            ),
            None => None,
        }
    }

    pub fn contains_key(&self, key: &Vec<u8>) -> (held: bool)
        ensures
            held == self@.contains_key(key@),
    {
        index_contains_key(&self.index, key)
    }

    /// Takes the key out of the directory.
    pub fn delete(&mut self, key: &Vec<u8>)
        ensures
            final(self)@ == old(self)@.remove(key@),
            old(self).wf() ==> final(self).wf(),
    {
        index_remove(&mut self.index, key);
        assert(self@ =~= old(self)@.remove(key@));
    }

    /// The number of keys.
    pub fn len(&self) -> (len: usize)
        requires
            self.wf(),
        ensures
            len == self@.dom().len(),
    {
        let len: usize = index_len(&self.index);
        assert(self@.dom() =~= index_entries(self.index).dom());
        len
    }

    /// Takes every key out of the directory.
    pub fn clear(&mut self)
        ensures
            final(self)@ == Map::<Seq<u8>, KeyDirEntry>::empty(),
            final(self).wf(),
    {
        index_clear(&mut self.index);
        assert(self@ =~= Map::<Seq<u8>, KeyDirEntry>::empty());
    }

    /// Every key with its entry, each key once, in no particular order.
    pub fn entries(&self) -> (entries: Vec<(Vec<u8>, KeyDirEntry)>)
        ensures
            forall|i: int|
                0 <= i < entries@.len() ==> self@.contains_key(#[trigger] entries@[i].0@)
                    && self@[entries@[i].0@] == entries@[i].1,
            forall|i: int, j: int|
                0 <= i < j < entries@.len() ==> #[trigger] entries@[i].0@
                    != #[trigger] entries@[j].0@,
            forall|key: Seq<u8>| #[trigger]
                self@.contains_key(key) ==> exists|i: int|
                    0 <= i < entries@.len() && #[trigger] entries@[i].0@ == key,
            entries@.len() == self@.dom().len(),
    {
        let pairs = index_pairs(&self.index);
        let mut entries: Vec<(Vec<u8>, KeyDirEntry)> = Vec::new();
        let mut i: usize = 0;
        while i < pairs.len()
            invariant
                i <= pairs@.len(),
                entries@.len() == i,
                forall|j: int|
                    0 <= j < i ==> (#[trigger] entries@[j]).0@ == pairs@[j].0@ && entries@[j].1
                        == KeyDirEntry::of_tuple(pairs@[j].1),
            decreases pairs@.len() - i,
        {
            let fields = pairs[i].1;
            entries.push(
                (
                    pairs[i].0.clone(),
                    KeyDirEntry {
                        file_id: fields.0,
                        row_offset: fields.1,
                        row_size: fields.2,
                        timestamp: fields.3,
                    },
                ),
            );
            i += 1;
        }
        proof {
            assert forall|key: Seq<u8>| #[trigger] self@.contains_key(key) implies exists|i: int|
                0 <= i < entries@.len() && #[trigger] entries@[i].0@ == key by {
                assert(index_entries(self.index).contains_key(key));
                let i = choose|i: int| 0 <= i < pairs@.len() && #[trigger] pairs@[i].0@ == key;
                assert(entries@[i].0@ == key);
            }
            let keys = entries@.map_values(|entry: (Vec<u8>, KeyDirEntry)| entry.0@);
            assert(keys.no_duplicates()) by {
                assert forall|i: int, j: int|
                    0 <= i < keys.len() && 0 <= j < keys.len() && i != j implies keys[i]
                    != keys[j] by {
                    if i < j {
                        assert(entries@[i].0@ != entries@[j].0@);
                    } else {
                        assert(entries@[j].0@ != entries@[i].0@);
                    }
                }
            }
            keys.unique_seq_to_set();
            assert(keys.to_set() =~= self@.dom()) by {
                assert forall|key: Seq<u8>| keys.to_set().contains(key) implies self@.dom().contains(
                    key,
                ) by {
                    let i = choose|i: int| 0 <= i < keys.len() && keys[i] == key;
                    assert(self@.contains_key(entries@[i].0@));
                }
                assert forall|key: Seq<u8>| self@.dom().contains(key) implies keys.to_set().contains(
                    key,
                ) by {
                    assert(self@.contains_key(key));
                    let i = choose|i: int|
                        0 <= i < entries@.len() && #[trigger] entries@[i].0@ == key;
                    assert(keys[i] == key);
                }
            }
        }
        entries
    }

    /// Every key with its entry, each key once, in the order in which their
    /// rows stand in the files.
    pub fn entries_in_row_order(&self) -> (entries: Vec<(Vec<u8>, KeyDirEntry)>)
        ensures
            forall|i: int|
                0 <= i < entries@.len() ==> self@.contains_key(#[trigger] entries@[i].0@)
                    && self@[entries@[i].0@] == entries@[i].1,
            keys_differ(entries@),
            forall|key: Seq<u8>| #[trigger]
                self@.contains_key(key) ==> exists|i: int|
                    0 <= i < entries@.len() && #[trigger] entries@[i].0@ == key,
            entries@.len() == self@.dom().len(),
            entries_in_order(entries@),
    {
        let all = self.entries();
        let mut sorted: Vec<(Vec<u8>, KeyDirEntry)> = Vec::new();
        let mut n: usize = 0;
        while n < all.len()
            invariant
                n <= all@.len(),
                keys_differ(all@),
                sorted@.len() == n,
                entries_in_order(sorted@),
                keys_differ(sorted@),
                entries_among(sorted@, all@, n as int),
                entries_among(all@.subrange(0, n as int), sorted@, n as int),
            decreases all@.len() - n,
        {
            insert_in_row_order(
                &mut sorted,
                all[n].0.clone(),
                all[n].1,
                Ghost(all@),
                Ghost(n as int),
            );
            n += 1;
        }
        proof {
            assert(all@.subrange(0, n as int) =~= all@);
            assert forall|i: int| 0 <= i < sorted@.len() implies self@.contains_key(
                #[trigger] sorted@[i].0@,
            ) && self@[sorted@[i].0@] == sorted@[i].1 by {
                assert(holds_entry(all@, n as int, sorted@[i].0@, sorted@[i].1));
                let j = choose|j: int|
                    0 <= j < n && (#[trigger] all@[j]).0@ == sorted@[i].0@ && all@[j].1
                        == sorted@[i].1;
                assert(self@.contains_key(all@[j].0@));
            }
            assert forall|key: Seq<u8>| #[trigger] self@.contains_key(key) implies exists|i: int|
                0 <= i < sorted@.len() && #[trigger] sorted@[i].0@ == key by {
                let j = choose|j: int| 0 <= j < all@.len() && #[trigger] all@[j].0@ == key;
                assert(holds_entry(sorted@, n as int, all@[j].0@, all@[j].1));
                let i = choose|i: int|
                    0 <= i < n && (#[trigger] sorted@[i]).0@ == all@[j].0@ && sorted@[i].1
                        == all@[j].1;
                assert(sorted@[i].0@ == key);
            }
        }
        sorted
    }
}

} // verus!
