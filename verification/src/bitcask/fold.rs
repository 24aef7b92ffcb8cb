//! What it is to apply a function to every key or to every live pair, and to
//! fold one over them.

use super::lookup::{contents_of, lookup_in};
use crate::database::{DatabaseView, ReadFailure};
use crate::error::{BitcaskError, BitcaskResult};
use crate::keydir::{entries_in_order, keys_differ, stands_before, KeyDirEntry};
use vstd::prelude::*;

verus! {

/// The keys are the keys of the key directory, each once.
pub open spec fn each_key_once(keys: Seq<Vec<u8>>, index: Map<Seq<u8>, KeyDirEntry>) -> bool {
    &&& keys.len() == index.dom().len()
    &&& forall|i: int| 0 <= i < keys.len() ==> index.contains_key(#[trigger] keys[i]@)
    &&& forall|i: int, j: int|
        0 <= i < j < keys.len() ==> #[trigger] keys[i]@ != #[trigger] keys[j]@
    &&& forall|key: Seq<u8>| #[trigger]
        index.contains_key(key) ==> exists|i: int| 0 <= i < keys.len() && #[trigger] keys[i]@ == key
}

/// The pairs are what the store holds: every key that has a value, once,
/// with that value.
pub open spec fn each_live_pair(pairs: Seq<(Vec<u8>, Vec<u8>)>, contents: Map<Seq<u8>, Seq<u8>>)
    -> bool {
    &&& pairs.len() == contents.dom().len()
    &&& forall|i: int|
        0 <= i < pairs.len() ==> contents.contains_key((#[trigger] pairs[i]).0@)
            && contents[pairs[i].0@] == pairs[i].1@
    &&& forall|i: int, j: int|
        0 <= i < j < pairs.len() ==> (#[trigger] pairs[i]).0@ != (#[trigger] pairs[j]).0@
    &&& forall|key: Seq<u8>| #[trigger] contents.contains_key(key) ==> has_pair(pairs, key)
}

/// One of the pairs has this key.
pub open spec fn has_pair(pairs: Seq<(Vec<u8>, Vec<u8>)>, key: Seq<u8>) -> bool {
    exists|i: int| 0 <= i < pairs.len() && (#[trigger] pairs[i]).0@ == key
}

/// One of the first `upto` of the entries has this key.
pub open spec fn key_among(entries: Seq<(Vec<u8>, KeyDirEntry)>, upto: int, key: Seq<u8>) -> bool {
    exists|j: int| 0 <= j < upto && (#[trigger] entries[j]).0@ == key
}

/// The entries are those of the key directory, each key once, in the order
/// of their rows.
pub open spec fn entries_of(entries: Seq<(Vec<u8>, KeyDirEntry)>, index: Map<Seq<u8>, KeyDirEntry>)
    -> bool {
    &&& forall|j: int|
        0 <= j < entries.len() ==> index.contains_key((#[trigger] entries[j]).0@)
            && index[entries[j].0@] == entries[j].1
    &&& keys_differ(entries)
    &&& entries_in_order(entries)
    &&& forall|key: Seq<u8>| #[trigger]
        index.contains_key(key) ==> key_among(entries, entries.len() as int, key)
}

/// The pairs are the live ones among the first `upto` of the entries: each
/// of those keys that looks up to a value has its pair, with that value, none
/// of them looks up to an error, and the pairs stand as the entries do.
pub open spec fn live_pairs_upto(
    pairs: Seq<(Vec<u8>, Vec<u8>)>,
    entries: Seq<(Vec<u8>, KeyDirEntry)>,
    upto: int,
    db: DatabaseView,
    index: Map<Seq<u8>, KeyDirEntry>,
) -> bool {
    &&& forall|k: int|
        0 <= k < pairs.len() ==> key_among(entries, upto, (#[trigger] pairs[k]).0@) && lookup_in(
            db,
            index,
            pairs[k].0@,
        ) == Ok::<Option<Seq<u8>>, ReadFailure>(Some(pairs[k].1@))
    &&& forall|k: int, l: int|
        0 <= k < l < pairs.len() ==> (#[trigger] pairs[k]).0@ != (#[trigger] pairs[l]).0@
            && stands_before(index[pairs[k].0@], index[pairs[l].0@])
    &&& forall|j: int|
        0 <= j < upto ==> match lookup_in(db, index, (#[trigger] entries[j]).0@) {
            Ok(Some(_)) => has_pair(pairs, entries[j].0@),
            Ok(None) => true,
            Err(_) => false,
        }
}

/// A key that looks up to no value adds no pair.
pub proof fn lemma_live_pair_skipped(
    pairs: Seq<(Vec<u8>, Vec<u8>)>,
    entries: Seq<(Vec<u8>, KeyDirEntry)>,
    upto: int,
    db: DatabaseView,
    index: Map<Seq<u8>, KeyDirEntry>,
)
    requires
        0 <= upto < entries.len(),
        live_pairs_upto(pairs, entries, upto, db, index),
        lookup_in(db, index, entries[upto].0@) == Ok::<Option<Seq<u8>>, ReadFailure>(None),
    ensures
        live_pairs_upto(pairs, entries, upto + 1, db, index),
{
    assert forall|k: int| 0 <= k < pairs.len() implies key_among(
        entries,
        upto + 1,
        (#[trigger] pairs[k]).0@,
    ) by {
        assert(key_among(entries, upto, pairs[k].0@));
        let j = choose|j: int| 0 <= j < upto && (#[trigger] entries[j]).0@ == pairs[k].0@;
        assert(entries[j].0@ == pairs[k].0@);
    }
}

/// A key that looks up to a value adds its pair, behind the others.
pub proof fn lemma_live_pair_added(
    pairs: Seq<(Vec<u8>, Vec<u8>)>,
    entries: Seq<(Vec<u8>, KeyDirEntry)>,
    upto: int,
    db: DatabaseView,
    index: Map<Seq<u8>, KeyDirEntry>,
    pair: (Vec<u8>, Vec<u8>),
)
    requires
        0 <= upto < entries.len(),
        entries_of(entries, index),
        live_pairs_upto(pairs, entries, upto, db, index),
        pair.0@ == entries[upto].0@,
        lookup_in(db, index, pair.0@) == Ok::<Option<Seq<u8>>, ReadFailure>(Some(pair.1@)),
    ensures
        live_pairs_upto(pairs.push(pair), entries, upto + 1, db, index),
{
    let after = pairs.push(pair);
    assert forall|k: int| 0 <= k < after.len() implies key_among(
        entries,
        upto + 1,
        (#[trigger] after[k]).0@,
    ) && lookup_in(db, index, after[k].0@) == Ok::<Option<Seq<u8>>, ReadFailure>(
        Some(after[k].1@),
    ) by {
        if k < pairs.len() {
            assert(after[k] == pairs[k]);
            assert(key_among(entries, upto, pairs[k].0@));
            let j = choose|j: int| 0 <= j < upto && (#[trigger] entries[j]).0@ == pairs[k].0@;
            assert(entries[j].0@ == pairs[k].0@);
        } else {
            assert(entries[upto].0@ == after[k].0@);
        }
    }
    assert forall|k: int, l: int| 0 <= k < l < after.len() implies (#[trigger] after[k]).0@ != (
    #[trigger] after[l]).0@ && stands_before(index[after[k].0@], index[after[l].0@]) by {
        assert(after[k] == pairs[k]);
        if l < pairs.len() {
            assert(after[l] == pairs[l]);
        } else {
            assert(key_among(entries, upto, pairs[k].0@));
            let j = choose|j: int| 0 <= j < upto && (#[trigger] entries[j]).0@ == pairs[k].0@;
            assert(entries[j].0@ != entries[upto].0@);
            assert(stands_before(entries[j].1, entries[upto].1));
        }
    }
    assert forall|j: int| 0 <= j < upto + 1 implies match lookup_in(
        db,
        index,
        (#[trigger] entries[j]).0@,
    ) {
        Ok(Some(_)) => has_pair(after, entries[j].0@),
        Ok(None) => true,
        Err(_) => false,
    } by {
        if j < upto {
            if lookup_in(db, index, entries[j].0@) matches Ok(Some(_)) {
                assert(has_pair(pairs, entries[j].0@));
                let k = choose|k: int|
                    0 <= k < pairs.len() && (#[trigger] pairs[k]).0@ == entries[j].0@;
                assert(after[k] == pairs[k]);
            }
        } else {
            assert(after[pairs.len() as int].0@ == entries[j].0@);
        }
    }
}

/// The live pairs among all the entries of the key directory are what the
/// store holds, in the order of their rows, and every key looks up without
/// an error.
pub proof fn lemma_live_pairs_done(
    pairs: Seq<(Vec<u8>, Vec<u8>)>,
    entries: Seq<(Vec<u8>, KeyDirEntry)>,
    db: DatabaseView,
    index: Map<Seq<u8>, KeyDirEntry>,
)
    requires
        entries_of(entries, index),
        live_pairs_upto(pairs, entries, entries.len() as int, db, index),
    ensures
        each_live_pair(pairs, contents_of(db, index)),
        in_row_order(pairs, index),
        forall|key: Seq<u8>| (#[trigger] lookup_in(db, index, key)).is_ok(),
{
    assert forall|key: Seq<u8>| (#[trigger] lookup_in(db, index, key)).is_ok() by {
        if index.contains_key(key) {
            assert(key_among(entries, entries.len() as int, key));
            let j = choose|j: int| 0 <= j < entries.len() && (#[trigger] entries[j]).0@ == key;
            assert(entries[j].0@ == key);
        }
    }
    assert forall|key: Seq<u8>| #[trigger]
        contents_of(db, index).contains_key(key) implies has_pair(pairs, key) by {
        assert(index.contains_key(key));
        assert(key_among(entries, entries.len() as int, key));
        let j = choose|j: int| 0 <= j < entries.len() && (#[trigger] entries[j]).0@ == key;
        assert(entries[j].0@ == key);
    }
    let keys = pairs.map_values(|pair: (Vec<u8>, Vec<u8>)| pair.0@);
    assert(keys.no_duplicates()) by {
        assert forall|k: int, l: int|
            0 <= k < keys.len() && 0 <= l < keys.len() && k != l implies keys[k] != keys[l] by {
            if k < l {
                assert(pairs[k].0@ != pairs[l].0@);
            } else {
                assert(pairs[l].0@ != pairs[k].0@);
            }
        }
    }
    keys.unique_seq_to_set();
    assert(keys.to_set() =~= contents_of(db, index).dom()) by {
        assert forall|key: Seq<u8>| keys.to_set().contains(key) implies contents_of(
            db,
            index,
        ).dom().contains(key) by {
            let k = choose|k: int| 0 <= k < keys.len() && keys[k] == key;
            assert(contents_of(db, index).contains_key(pairs[k].0@));
        }
        assert forall|key: Seq<u8>| contents_of(db, index).dom().contains(key) implies keys.to_set().contains(
            key,
        ) by {
            assert(contents_of(db, index).contains_key(key));
            assert(has_pair(pairs, key));
            let k = choose|k: int| 0 <= k < pairs.len() && (#[trigger] pairs[k]).0@ == key;
            assert(keys[k] == key);
        }
    }
}

/// The pairs stand in the order of the rows that the key directory has for
/// their keys.
pub open spec fn in_row_order(pairs: Seq<(Vec<u8>, Vec<u8>)>, index: Map<Seq<u8>, KeyDirEntry>)
    -> bool {
    forall|i: int, j: int|
        0 <= i < j < pairs.len() ==> stands_before(
            index[(#[trigger] pairs[i]).0@],
            index[(#[trigger] pairs[j]).0@],
        )
}

/// `f` was applied to every key in turn.
pub open spec fn applied_to_keys<F: FnMut(&Vec<u8>)>(f: F, keys: Seq<Vec<u8>>) -> bool {
    forall|i: int| 0 <= i < keys.len() ==> call_ensures(f, (&#[trigger] keys[i],), ())
}

/// `f` was applied to the key and the value of every pair in turn.
pub open spec fn applied_to_pairs<F: FnMut(&Vec<u8>, &Vec<u8>)>(
    f: F,
    pairs: Seq<(Vec<u8>, Vec<u8>)>,
) -> bool {
    forall|i: int|
        0 <= i < pairs.len() ==> call_ensures(f, (&(#[trigger] pairs[i]).0, &pairs[i].1), ())
}

/// `f` was folded over the keys, from `accs[0]`: applied to the key at `i`
/// and to `accs[i]`, every call but the last gave `accs[i + 1]`. The last
/// call gave the result of the fold: after the last key what was gathered,
/// or before that the error that ended the fold.
pub open spec fn folded_over_keys<T, F: FnMut(&Vec<u8>, Option<T>) -> BitcaskResult<Option<T>>>(
    f: F,
    keys: Seq<Vec<u8>>,
    accs: Seq<Option<T>>,
    folded: BitcaskResult<Option<T>>,
) -> bool {
    &&& accs.len() >= 1
    &&& accs.len() <= keys.len() + 1
    &&& forall|i: int|
        0 <= i < accs.len() - 1 ==> call_ensures(
            f,
            (&keys[i], #[trigger] accs[i]),
            Ok::<Option<T>, BitcaskError>(accs[i + 1]),
        )
    &&& match folded {
        Ok(gathered) => accs.len() == keys.len() + 1 && gathered == accs.last(),
        Err(e) => accs.len() <= keys.len() && call_ensures(
            f,
            (&keys[accs.len() - 1], accs.last()),
            Err::<Option<T>, BitcaskError>(e),
        ),
    }
}

/// `f` was folded over the keys and the values of the pairs, from `accs[0]`,
/// as `folded_over_keys` says of keys.
pub open spec fn folded_over_pairs<
    T,
    F: FnMut(&Vec<u8>, &Vec<u8>, Option<T>) -> BitcaskResult<Option<T>>,
>(f: F, pairs: Seq<(Vec<u8>, Vec<u8>)>, accs: Seq<Option<T>>, folded: BitcaskResult<Option<T>>)
    -> bool {
    &&& accs.len() >= 1
    &&& accs.len() <= pairs.len() + 1
    &&& forall|i: int|
        0 <= i < accs.len() - 1 ==> call_ensures(
            f,
            (&pairs[i].0, &pairs[i].1, #[trigger] accs[i]),
            Ok::<Option<T>, BitcaskError>(accs[i + 1]),
        )
    &&& match folded {
        Ok(gathered) => accs.len() == pairs.len() + 1 && gathered == accs.last(),
        Err(e) => accs.len() <= pairs.len() && call_ensures(
            f,
            (&pairs[accs.len() - 1].0, &pairs[accs.len() - 1].1, accs.last()),
            Err::<Option<T>, BitcaskError>(e),
        ),
    }
}

} // verus!
