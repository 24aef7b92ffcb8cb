//! The read-only files of a database: a concurrent map from the id of a file
//! to the file, and beside it the ids in the order of the files.

use crate::database::StableFile;
use crate::file_id::FileId;
use dashmap::DashMap;
use vstd::prelude::*;

verus! {

/// What the map of files holds: for each file id a file.
pub uninterp spec fn stable_files(files: DashMap<u32, StableFile>) -> Map<u32, StableFile>;

/// `DashMap::new`: a map that holds nothing.
#[verifier::external_body]
fn files_new() -> (files: DashMap<u32, StableFile>)
    ensures
        stable_files(files).dom() == Set::<u32>::empty(),
{
    DashMap::new()
}

/// `DashMap::insert`: the id then maps to the file, whether or not it was
/// there before; the other ids keep theirs.
#[verifier::external_body]
fn files_insert(files: &mut DashMap<u32, StableFile>, file_id: u32, file: StableFile)
    ensures
        stable_files(*final(files)) == stable_files(*old(files)).insert(file_id, file),
{
    files.insert(file_id, file);
}

/// `DashMap::remove`: the id is gone and its file is handed out, if the map
/// held the id; the other ids keep their files.
#[verifier::external_body]
fn files_remove(files: &mut DashMap<u32, StableFile>, file_id: u32) -> (removed: Option<
    StableFile,
>)
    ensures
        stable_files(*final(files)) == stable_files(*old(files)).remove(file_id),
        removed == if stable_files(*old(files)).contains_key(file_id) {
            Some(stable_files(*old(files))[file_id])
        } else {
            None
        },
{
    files.remove(&file_id).map(|held| held.1)
}

/// `DashMap::clear`: the map then holds nothing.
#[verifier::external_body]
fn files_clear(files: &mut DashMap<u32, StableFile>)
    ensures
        stable_files(*final(files)).dom() == Set::<u32>::empty(),
{
    files.clear();
}

/// `DashMap::view`: what `f` gives for the file of the id and `arg`, if the
/// map holds the id; the map is left as it is.
#[verifier::external_body]
fn files_view<A, R, F: Fn(&StableFile, A) -> R>(
    files: &DashMap<u32, StableFile>,
    file_id: u32,
    arg: A,
    f: F,
) -> (seen: Option<R>)
    requires
        stable_files(*files).contains_key(file_id) ==> call_requires(
            f,
            (&stable_files(*files)[file_id], arg),
        ),
    ensures
        match seen {
            Some(given) => stable_files(*files).contains_key(file_id) && call_ensures(
                f,
                (&stable_files(*files)[file_id], arg),
                given,
            ),
            None => !stable_files(*files).contains_key(file_id),
        },
{
    files.view(&file_id, |_, file| f(file, arg))
}

/// One of the ids is this one.
pub open spec fn holds_id(ids: Seq<FileId>, id: FileId) -> bool {
    exists|i: int| 0 <= i < ids.len() && #[trigger] ids[i] == id
}

/// The read-only files of a database, in their order.
#[derive(Debug)]
pub struct StableFiles {
    files: DashMap<u32, StableFile>,
    ids: Vec<FileId>,
}

impl View for StableFiles {
    type V = Seq<StableFile>;

    closed spec fn view(&self) -> Seq<StableFile> {
        Seq::new(self.ids@.len(), |i: int| stable_files(self.files)[self.ids@[i]])
    }
}

impl StableFiles {
    /// The map holds a file for each of the ids, under its own id, and no
    /// other file.
    pub closed spec fn wf(&self) -> bool {
        &&& forall|i: int|
            0 <= i < self.ids@.len() ==> stable_files(self.files).contains_key(
                #[trigger] self.ids@[i],
            ) && stable_files(self.files)[self.ids@[i]].storage.id() == self.ids@[i]
        &&& forall|id: u32| #[trigger]
            stable_files(self.files).contains_key(id) ==> holds_id(self.ids@, id)
    }

    /// No file.
    pub fn new() -> (files: StableFiles)
        ensures
            files.wf(),
            files@ == Seq::<StableFile>::empty(),
    {
        let files = StableFiles { files: files_new(), ids: Vec::new() };
        assert forall|id: u32| !(#[trigger] stable_files(files.files).contains_key(id)) by {
            assert(!stable_files(files.files).dom().contains(id));
        }
        assert(files@ =~= Seq::<StableFile>::empty());
        files
    }

    /// The number of files.
    pub fn len(&self) -> (count: usize)
        ensures
            count == self@.len(),
    {
        self.ids.len()
    }

    /// The id of the file at `index`.
    pub fn id_at(&self, index: usize) -> (id: FileId)
        requires
            self.wf(),
            index < self@.len(),
        ensures
            id == self@[index as int].storage.id(),
    {
        self.ids[index]
    }

    /// The place of the file with the id `file_id`, if there is one.
    pub fn find(&self, file_id: FileId) -> (place: Option<usize>)
        requires
            self.wf(),
        ensures
            match place {
                Some(at) => at < self@.len() && self@[at as int].storage.id() == file_id,
                None => forall|i: int|
                    0 <= i < self@.len() ==> (#[trigger] self@[i]).storage.id() != file_id,
            },
    {
        let mut i: usize = 0;
        while i < self.ids.len()
            invariant
                i <= self.ids@.len(),
                self.wf(),
                forall|j: int| 0 <= j < i ==> #[trigger] self.ids@[j] != file_id,
            decreases self.ids@.len() - i,
        {
            if self.ids[i] == file_id {
                assert(self@[i as int].storage.id() == self.ids@[i as int]);
                return Some(i);
            }
            i += 1;
        }
        proof {
            assert forall|j: int| 0 <= j < self@.len() implies (#[trigger] self@[j]).storage.id()
                != file_id by {
                assert(self.ids@[j] != file_id);
            }
        }
        None
    }

    /// Puts a file behind the others.
    pub fn push(&mut self, file: StableFile)
        requires
            old(self).wf(),
            forall|i: int|
                0 <= i < old(self)@.len() ==> (#[trigger] old(self)@[i]).storage.id()
                    != file.storage.id(),
        ensures
            final(self).wf(),
            final(self)@ == old(self)@.push(file),
    {
        let id: FileId = file.storage.file_id();
        proof {
            assert forall|i: int| 0 <= i < self.ids@.len() implies #[trigger] self.ids@[i] != id by {
                assert(old(self)@[i].storage.id() == self.ids@[i]);
            }
        }
        files_insert(&mut self.files, id, file);
        self.ids.push(id);
        proof {
            assert forall|other: u32| #[trigger]
                stable_files(self.files).contains_key(other) implies holds_id(self.ids@, other) by {
                if other == id {
                    assert(self.ids@[self.ids@.len() - 1] == id);
                } else {
                    assert(holds_id(old(self).ids@, other));
                    let i = choose|i: int|
                        0 <= i < old(self).ids@.len() && #[trigger] old(self).ids@[i] == other;
                    assert(self.ids@[i] == other);
                }
            }
            assert(self@ =~= old(self)@.push(file));
        }
    }

    /// Gives up every file.
    pub fn clear(&mut self)
        ensures
            final(self).wf(),
            final(self)@ == Seq::<StableFile>::empty(),
    {
        files_clear(&mut self.files);
        self.ids.clear();
        assert forall|id: u32| !(#[trigger] stable_files(self.files).contains_key(id)) by {
            assert(!stable_files(self.files).dom().contains(id));
        }
        assert(self@ =~= Seq::<StableFile>::empty());
    }

    /// The files of the vector, in their order.
    pub fn of(files: Vec<StableFile>) -> (held: StableFiles)
        requires
            forall|i: int, j: int|
                0 <= i < j < files@.len() ==> (#[trigger] files@[i]).storage.id() != (
                #[trigger] files@[j]).storage.id(),
        ensures
            held.wf(),
            held@ == files@,
    {
        let mut rest = files;
        let mut held = StableFiles::new();
        while rest.len() > 0
            invariant
                held.wf(),
                held@ + rest@ == files@,
                forall|i: int, j: int|
                    0 <= i < j < files@.len() ==> (#[trigger] files@[i]).storage.id() != (
                    #[trigger] files@[j]).storage.id(),
            decreases rest@.len(),
        {
            let ghost before = held@;
            let ghost left = rest@;
            let file = rest.remove(0);
            proof {
                assert(file == left[0]);
                assert(files@[before.len() as int] == (before + left)[before.len() as int]);
                assert forall|i: int| 0 <= i < before.len() implies (#[trigger] before[i]).storage.id()
                    != file.storage.id() by {
                    assert(files@[i] == (before + left)[i]);
                }
            }
            held.push(file);
            proof {
                assert(held@ + rest@ =~= before + left);
            }
        }
        proof {
            assert(held@ =~= held@ + rest@);
        }
        held
    }

    /// What `f` gives for the file at `index` and `arg`.
    pub fn with_file<A, R, F: Fn(&StableFile, A) -> R>(&self, index: usize, arg: A, f: F) -> (given:
        R)
        requires
            self.wf(),
            index < self@.len(),
            call_requires(f, (&self@[index as int], arg)),
        ensures
            call_ensures(f, (&self@[index as int], arg), given),
    {
        files_view(&self.files, self.ids[index], arg, f).unwrap()
    }

    /// What `f` gives for the file with the id `file_id` and `arg`, if there
    /// is such a file.
    pub fn with_file_of<A, R, F: Fn(&StableFile, A) -> R>(
        &self,
        file_id: FileId,
        arg: A,
        f: F,
    ) -> (given: Option<R>)
        requires
            self.wf(),
            forall|i: int|
                0 <= i < self@.len() && (#[trigger] self@[i]).storage.id() == file_id
                    ==> call_requires(f, (&self@[i], arg)),
        ensures
            match given {
                Some(result) => exists|i: int|
                    0 <= i < self@.len() && (#[trigger] self@[i]).storage.id() == file_id
                        && call_ensures(f, (&self@[i], arg), result),
                None => forall|i: int|
                    0 <= i < self@.len() ==> (#[trigger] self@[i]).storage.id() != file_id,
            },
    {
        proof {
            if stable_files(self.files).contains_key(file_id) {
                assert(holds_id(self.ids@, file_id));
                let i = choose|i: int| 0 <= i < self.ids@.len() && #[trigger] self.ids@[i] == file_id;
                assert(self@[i] == stable_files(self.files)[file_id]);
                assert(self@[i].storage.id() == file_id);
            }
        }
        let given = files_view(&self.files, file_id, arg, f);
        proof {
            if given.is_some() {
                let i = choose|i: int|
                    0 <= i < self.ids@.len() && #[trigger] self.ids@[i] == file_id;
                assert(self@[i] == stable_files(self.files)[file_id]);
                assert(self@[i].storage.id() == file_id);
            } else {
                assert forall|i: int| 0 <= i < self@.len() implies (
                #[trigger] self@[i]).storage.id() != file_id by {
                    assert(stable_files(self.files).contains_key(self.ids@[i]));
                }
            }
        }
        given
    }

    /// Gives the file at `index` its hint file.
    pub fn set_hint(&mut self, index: usize, hint: Vec<u8>)
        requires
            old(self).wf(),
            index < old(self)@.len(),
            forall|j: int|
                0 <= j < old(self)@.len() && j != index ==> (#[trigger] old(self)@[j]).storage.id()
                    != old(self)@[index as int].storage.id(),
        ensures
            final(self).wf(),
            final(self)@ == old(self)@.update(
                index as int,
                (StableFile { storage: old(self)@[index as int].storage, hint: Some(hint) }),
            ),
    {
        let id: FileId = self.ids[index];
        proof {
            assert forall|j: int| 0 <= j < self.ids@.len() && j != index implies #[trigger] self.ids@[j]
                != id by {
                assert(old(self)@[j].storage.id() == self.ids@[j]);
            }
        }
        match files_remove(&mut self.files, id) {
            Some(file) => {
                let mut file = file;
                file.hint = Some(hint);
                files_insert(&mut self.files, id, file);
            },
            None => {},
        }
        proof {
            assert forall|other: u32| #[trigger]
                stable_files(self.files).contains_key(other) implies holds_id(self.ids@, other) by {
                if other == id {
                    assert(self.ids@[index as int] == id);
                } else {
                    assert(stable_files(old(self).files).contains_key(other));
                }
            }
            assert(self@ =~= old(self)@.update(
                index as int,
                (StableFile { storage: old(self)@[index as int].storage, hint: Some(hint) }),
            ));
        }
    }
}

} // verus!
