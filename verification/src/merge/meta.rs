//! What a merge leaves on record, and what recovery does about a merge that
//! it finds unfinished.

use crate::codec::{be_bytes_u32, lemma_u32_be_roundtrip, push_u32_be, read_u32_be, u32_from_be};
use crate::error::{BitcaskError, BitcaskResult};
use crate::file_id::FileId;
use vstd::prelude::*;

verus! {

/// What a merge leaves on record for a recovery that finds it unfinished:
/// the least id among the files that the database had when the merge began.
#[derive(Debug, PartialEq, Eq, Clone, Copy, Structural)]
pub struct MergeMeta {
    pub known_min_file_id: FileId,
}

impl MergeMeta {
    /// The four bytes of the merge meta file: the id, big-endian.
    pub fn encode(&self) -> (bytes: Vec<u8>)
        ensures
            bytes@ == be_bytes_u32(self.known_min_file_id),
    {
        let mut bytes: Vec<u8> = Vec::new();
        push_u32_be(&mut bytes, self.known_min_file_id);
        assert(bytes@ =~= be_bytes_u32(self.known_min_file_id));
        bytes
    }

    /// Reads the merge meta file. Anything but four bytes is no merge meta
    /// file.
    pub fn decode(bytes: &[u8]) -> (meta: BitcaskResult<MergeMeta>)
        ensures
            bytes@.len() == 4 ==> meta == Ok::<MergeMeta, BitcaskError>(
                MergeMeta { known_min_file_id: u32_from_be(bytes@) },
            ),
            bytes@.len() != 4 ==> meta matches Err(BitcaskError::DataFileCorrupted(_, _, _)),
    {
        if bytes.len() != 4 {
            return Err(
                BitcaskError::DataFileCorrupted(
                    "merge.meta".to_string(),
                    0,
                    "the merge meta file does not hold four bytes".to_string(),
                ),
            );
        }
        assert(bytes@.subrange(0, 4) =~= bytes@);
        Ok(MergeMeta { known_min_file_id: read_u32_be(bytes, 0) })
    }
}

/// A merge meta file reads back as it was written.
pub proof fn lemma_merge_meta_roundtrip(id: FileId)
    ensures
        be_bytes_u32(id).len() == 4,
        u32_from_be(be_bytes_u32(id)) == id,
{
    lemma_u32_be_roundtrip(id);
}

/// What recovery does about a merge that it finds unfinished.
#[derive(Debug, PartialEq, Eq, Clone, Copy, Structural)]
pub enum MergeRecovery {
    /// The merge did not get as far as its meta file: what it wrote is thrown
    /// away, and the database is as it was before the merge.
    Discard,
    /// The merge wrote its meta file: the merged files are moved into place,
    /// and every file from before the merge goes, that is every file with an
    /// id from `known_min_file_id` on and below `new_min_merged_id`. The
    /// merged file with the id `new_min_merged_id` is moved last, when the
    /// files from before have gone: as long as a file from before is there,
    /// the scratch directory tells which files those are.
    Commit { known_min_file_id: FileId, new_min_merged_id: FileId },
    /// The merge wrote its meta file and no file besides: there is nothing to
    /// move and nothing to purge.
    Nothing,
}

/// The least of the first `n` ids.
pub open spec fn min_id(ids: Seq<FileId>, n: int) -> FileId
    decreases n,
{
    if n <= 1 {
        ids[0]
    } else if ids[n - 1] < min_id(ids, n - 1) {
        ids[n - 1]
    } else {
        min_id(ids, n - 1)
    }
}

/// The first of the ids that is less than `bound`, if there is one.
pub open spec fn first_below(ids: Seq<FileId>, bound: FileId, from: int) -> Option<FileId>
    decreases ids.len() - from,
{
    if from >= ids.len() || from < 0 {
        None
    } else if ids[from] < bound {
        Some(ids[from])
    } else {
        first_below(ids, bound, from + 1)
    }
}

/// Decides what to do about the scratch directory of a merge: `meta` holds
/// the bytes of the merge meta file if there is one, `merged_file_ids` the ids
/// of the data files in the directory.
pub fn recover_merge(meta: Option<&[u8]>, merged_file_ids: &Vec<FileId>) -> (plan: BitcaskResult<
    MergeRecovery,
>)
    ensures
        match meta {
            None => plan == Ok::<MergeRecovery, BitcaskError>(MergeRecovery::Discard),
            Some(bytes) => if bytes@.len() != 4 {
                plan matches Err(BitcaskError::DataFileCorrupted(_, _, _))
            } else {
                match first_below(merged_file_ids@, u32_from_be(bytes@), 0) {
                    Some(id) => plan == Err::<MergeRecovery, BitcaskError>(
                        BitcaskError::InvalidMergeDataFile(id, u32_from_be(bytes@)),
                    ),
                    None => if merged_file_ids@.len() == 0 {
                        plan == Ok::<MergeRecovery, BitcaskError>(MergeRecovery::Nothing)
                    } else {
                        plan == Ok::<MergeRecovery, BitcaskError>(
                            MergeRecovery::Commit {
                                known_min_file_id: u32_from_be(bytes@),
                                new_min_merged_id: min_id(
                                    merged_file_ids@,
                                    merged_file_ids@.len() as int,
                                ),
                            },
                        ) && is_least(
                            merged_file_ids@.to_set(),
                            min_id(merged_file_ids@, merged_file_ids@.len() as int),
                        )
                    },
                }
            },
        },
{
    let bytes: &[u8] = match meta {
        None => {
            return Ok(MergeRecovery::Discard);
        },
        Some(bytes) => bytes,
    };
    let known_min_file_id: FileId = match MergeMeta::decode(bytes) {
        Ok(meta) => meta.known_min_file_id,
        Err(e) => {
            return Err(e);
        },
    };
    let mut least: FileId = 0;
    let mut i: usize = 0;
    while i < merged_file_ids.len()
        invariant
            meta == Some(bytes),
            bytes@.len() == 4,
            known_min_file_id == u32_from_be(bytes@),
            i <= merged_file_ids@.len(),
            first_below(merged_file_ids@, known_min_file_id, 0) == first_below(
                merged_file_ids@,
                known_min_file_id,
                i as int,
            ),
            i > 0 ==> least == min_id(merged_file_ids@, i as int),
        decreases merged_file_ids@.len() - i,
    {
        let id: FileId = merged_file_ids[i];
        if id < known_min_file_id {
            return Err(BitcaskError::InvalidMergeDataFile(id, known_min_file_id));
        }
        if i == 0 || id < least {
            least = id;
        }
        i += 1;
    }
    if merged_file_ids.len() == 0 {
        Ok(MergeRecovery::Nothing)
    } else {
        proof {
            let ids = merged_file_ids@;
            lemma_min_id_is_least(ids, ids.len() as int);
            let at = choose|i: int| 0 <= i < ids.len() && ids[i] == min_id(ids, ids.len() as int);
            assert(ids.to_set().contains(ids[at]));
            assert forall|other: FileId| #[trigger] ids.to_set().contains(other) implies min_id(
                ids,
                ids.len() as int,
            ) <= other by {
                let i = choose|i: int| 0 <= i < ids.len() && ids[i] == other;
            }
        }
        Ok(MergeRecovery::Commit { known_min_file_id, new_min_merged_id: least })
    }
}

impl MergeRecovery {
    /// Whether the file with this id goes when the merge is committed: it was
    /// there when the merge began, and is older than every merged file.
    pub open spec fn obsolete(self, file_id: FileId) -> bool {
        match self {
            MergeRecovery::Commit { known_min_file_id, new_min_merged_id } => known_min_file_id
                <= file_id < new_min_merged_id,
            _ => false,
        }
    }

    /// Whether the file with this id goes when the merge is committed.
    pub fn purges(&self, file_id: FileId) -> (gone: bool)
        ensures
            gone == self.obsolete(file_id),
    {
        match self {
            MergeRecovery::Commit { known_min_file_id, new_min_merged_id } => *known_min_file_id
                <= file_id && file_id < *new_min_merged_id,
            _ => false,
        }
    }

    /// Whether the merged file with this id is the one that is moved last.
    pub fn moves_last(&self, file_id: FileId) -> (last: bool)
        ensures
            last == match *self {
                MergeRecovery::Commit { known_min_file_id, new_min_merged_id } => file_id
                    == new_min_merged_id,
                _ => false,
            },
    {
        match self {
            MergeRecovery::Commit { known_min_file_id, new_min_merged_id } => file_id
                == *new_min_merged_id,
            _ => false,
        }
    }
}

/// The least of the ids is one of them, and none of them is less.
pub proof fn lemma_min_id_is_least(ids: Seq<FileId>, n: int)
    requires
        1 <= n <= ids.len(),
    ensures
        exists|i: int| 0 <= i < n && ids[i] == min_id(ids, n),
        forall|i: int| 0 <= i < n ==> min_id(ids, n) <= #[trigger] ids[i],
    decreases n,
{
    if n > 1 {
        lemma_min_id_is_least(ids, n - 1);
        let i = choose|i: int| 0 <= i < n - 1 && ids[i] == min_id(ids, n - 1);
        if ids[n - 1] < min_id(ids, n - 1) {
            assert(ids[n - 1] == min_id(ids, n));
        } else {
            assert(ids[i] == min_id(ids, n));
        }
    } else {
        assert(ids[0] == min_id(ids, n));
    }
}

/// A database directory as the commit of a merge sees it: the ids of its data
/// files, the ids of the data files in its scratch directory, and the id in
/// the merge meta file, if there is one.
pub struct DirectoryView {
    pub main: Set<FileId>,
    pub scratch: Set<FileId>,
    pub meta: Option<FileId>,
}

/// `id` is the least of the ids.
pub open spec fn is_least(ids: Set<FileId>, id: FileId) -> bool {
    ids.contains(id) && forall|other: FileId| #[trigger] ids.contains(other) ==> id <= other
}

/// What `recover_merge` decides for a directory whose scratch directory holds
/// no id below the id in the meta file.
pub open spec fn recovery_of(dir: DirectoryView) -> MergeRecovery {
    match dir.meta {
        None => MergeRecovery::Discard,
        Some(known_min_file_id) => if dir.scratch =~= Set::empty() {
            MergeRecovery::Nothing
        } else {
            MergeRecovery::Commit {
                known_min_file_id,
                new_min_merged_id: choose|id: FileId| is_least(dir.scratch, id),
            }
        },
    }
}

/// The data files of a directory when recovery is through with it: without a
/// meta file what the scratch directory holds is thrown away, with one it is
/// moved into place and the files from before the merge go.
pub open spec fn recovered(dir: DirectoryView) -> Set<FileId> {
    match recovery_of(dir) {
        MergeRecovery::Commit { known_min_file_id, new_min_merged_id } => (dir.main + dir.scratch).filter(
            |id: FileId| !(known_min_file_id <= id < new_min_merged_id),
        ),
        _ => dir.main,
    }
}

/// The directory while a merge is committed: of the files from before, the
/// ones in `purged` have gone; of the merged files, the ones in `moved` are in
/// place and the others wait in the scratch directory.
pub open spec fn commit_state(
    before: Set<FileId>,
    merged: Set<FileId>,
    known_min_file_id: FileId,
    moved: Set<FileId>,
    purged: Set<FileId>,
) -> DirectoryView {
    DirectoryView {
        main: before.difference(purged) + moved,
        scratch: merged.difference(moved),
        meta: Some(known_min_file_id),
    }
}

/// Crash safety of a merge, for the files: while the merged files are staged
/// and the meta file is not written, recovery leaves the files from before
/// the merge; once the meta file is written, recovery leaves the merged
/// files, however far the commit has come, as long as the least merged file
/// is moved last and not before the files from before have gone.
pub proof fn lemma_commit_recovers(
    before: Set<FileId>,
    merged: Set<FileId>,
    known_min_file_id: FileId,
    least_merged_id: FileId,
    staged: Set<FileId>,
    moved: Set<FileId>,
    purged: Set<FileId>,
)
    requires
        is_least(merged, least_merged_id),
        forall|id: FileId| #[trigger]
            before.contains(id) ==> known_min_file_id <= id < least_merged_id,
        staged.subset_of(merged),
        moved.subset_of(merged),
        purged.subset_of(before),
        moved.contains(least_merged_id) ==> moved == merged && purged == before,
    ensures
        recovered(DirectoryView { main: before, scratch: staged, meta: None }) == before,
        recovered(commit_state(before, merged, known_min_file_id, moved, purged)) == merged,
{
    let dir = commit_state(before, merged, known_min_file_id, moved, purged);
    if moved.contains(least_merged_id) {
        assert(dir.scratch =~= Set::empty());
        assert(dir.main =~= merged);
    } else {
        assert(dir.scratch.contains(least_merged_id));
        assert(is_least(dir.scratch, least_merged_id));
        let chosen = choose|id: FileId| is_least(dir.scratch, id);
        assert(is_least(dir.scratch, chosen));
        assert(chosen == least_merged_id);
        assert(recovered(dir) =~= merged) by {
            assert forall|id: FileId| recovered(dir).contains(id) <==> merged.contains(id) by {
                if merged.contains(id) {
                    assert(least_merged_id <= id);
                    assert(dir.main.contains(id) || dir.scratch.contains(id));
                }
            }
        }
    }
}

} // verus!
