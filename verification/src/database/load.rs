//! Taking up the files that a directory holds: in ascending order of their
//! ids, the last one as the writable file if it can be written to.

use super::rows::lemma_same_files_same_rows;
use super::view::{DatabaseView, FileView};
use crate::data_storage::{is_clean, scan_end, DataStorage, DataStorageOptions};
use crate::error::{BitcaskError, BitcaskResult};
use crate::file_id::{FileId, FileIdGenerator};
use crate::formatter::{decode_file_header_spec, file_header_bytes};
use vstd::prelude::*;

verus! {

/// A data file as the directory holds it: its id, its bytes, whether it is
/// read-only, and the bytes of its hint file where it has one.
#[derive(Debug, Clone)]
pub struct DataFileImage {
    pub file_id: FileId,
    pub content: Vec<u8>,
    pub readonly: bool,
    pub hint: Option<Vec<u8>>,
}

/// A read-only data file and, where it was written, its hint file.
#[derive(Debug)]
pub struct StableFile {
    pub storage: DataStorage,
    pub hint: Option<Vec<u8>>,
}

/// A read-only file as the contracts speak of it.
pub open spec fn stable_view(file: StableFile) -> FileView {
    FileView {
        id: file.storage.id(),
        bytes: file.storage.bytes(),
        readonly: file.storage.readonly(),
        hint: match file.hint {
            Some(hint) => Some(hint@),
            None => None,
        },
    }
}

/// The bytes that a file holds once it was taken up: all of them for a
/// read-only file, and for a writable one the bytes up to the end of its last
/// row that decodes.
pub open spec fn opened_bytes(content: Seq<u8>, readonly: bool) -> Seq<u8> {
    if readonly {
        content
    } else {
        content.subrange(0, scan_end(content, 8))
    }
}

/// The file that an image is taken up as.
pub open spec fn image_view(image: DataFileImage) -> FileView {
    FileView {
        id: image.file_id,
        bytes: opened_bytes(image.content@, image.readonly),
        readonly: image.readonly,
        hint: match image.hint {
            Some(hint) => Some(hint@),
            None => None,
        },
    }
}

/// The images can be taken up: every one has a positive id and starts with a
/// file header, and no two have the same id.
pub open spec fn images_ok(images: Seq<DataFileImage>) -> bool {
    &&& forall|i: int|
        0 <= i < images.len() ==> (#[trigger] images[i]).file_id >= 1 && decode_file_header_spec(
            images[i].content@,
        ).is_ok()
    &&& forall|i: int, j: int|
        0 <= i < j < images.len() ==> (#[trigger] images[i]).file_id != (
        #[trigger] images[j]).file_id
}

/// The images are in ascending order of their ids.
pub open spec fn images_ascend(images: Seq<DataFileImage>) -> bool {
    forall|i: int, j: int|
        0 <= i < j < images.len() ==> (#[trigger] images[i]).file_id < (
        #[trigger] images[j]).file_id
}

/// The files are the images from `from` on, taken up, in the order of the
/// images.
pub open spec fn files_in_order(files: Seq<StableFile>, images: Seq<DataFileImage>, from: int)
    -> bool {
    &&& files.len() == images.len() - from
    &&& forall|j: int|
        0 <= j < files.len() ==> stable_view(#[trigger] files[j]) == image_view(images[from + j])
}

/// The files are in ascending order of their ids.
pub open spec fn files_ascend(files: Seq<StableFile>) -> bool {
    forall|i: int, j: int|
        0 <= i < j < files.len() ==> (#[trigger] files[i]).storage.id() < (
        #[trigger] files[j]).storage.id()
}

/// The files are the images from `from` on, taken up, each once.
pub open spec fn files_of_images(
    files: Seq<StableFile>,
    images: Seq<DataFileImage>,
    from: int,
    options: DataStorageOptions,
) -> bool {
    &&& files.len() == images.len() - from
    &&& files_ascend(files)
    &&& forall|j: int|
        0 <= j < files.len() ==> (#[trigger] files[j]).storage.wf() && files[j].storage.clean()
            && files[j].storage.options() == options && files[j].storage.cursor() == 8
            && files[j].storage.id() >= 1
    &&& forall|i: int|
        from <= i < images.len() ==> holds_file(files, #[trigger] image_view(images[i]))
    &&& forall|j: int|
        0 <= j < files.len() ==> holds_image(images, from, #[trigger] stable_view(files[j]))
}

/// One of the files is this file.
pub open spec fn holds_file(files: Seq<StableFile>, file: FileView) -> bool {
    exists|j: int| 0 <= j < files.len() && #[trigger] stable_view(files[j]) == file
}

/// One of the images from `from` on is taken up as this file.
pub open spec fn holds_image(images: Seq<DataFileImage>, from: int, file: FileView) -> bool {
    exists|i: int| from <= i < images.len() && #[trigger] image_view(images[i]) == file
}

/// Puts a file into its place among files that ascend by id. A file whose id
/// is taken is not put in.
fn insert_by_id(files: &mut Vec<StableFile>, file: StableFile) -> (place: Option<usize>)
    requires
        files_ascend(old(files)@),
    ensures
        match place {
            Some(at) => at <= old(files)@.len() && final(files)@ == old(files)@.insert(
                at as int,
                file,
            ) && files_ascend(final(files)@) && (at > 0 ==> old(files)@[at - 1].storage.id()
                < file.storage.id()),
            None => final(files)@ == old(files)@ && exists|j: int|
                0 <= j < old(files)@.len() && (#[trigger] old(files)@[j]).storage.id()
                    == file.storage.id(),
        },
{
    let file_id: FileId = file.storage.file_id();
    let mut at: usize = files.len();
    while at > 0 && files[at - 1].storage.file_id() > file_id
        invariant
            at <= files@.len(),
            forall|j: int| at <= j < files@.len() ==> (#[trigger] files@[j]).storage.id() > file_id,
        decreases at,
    {
        at = at - 1;
    }
    if at > 0 && files[at - 1].storage.file_id() == file_id {
        return None;
    }
    let ghost before = files@;
    files.insert(at, file);
    proof {
        assert forall|i: int, j: int| 0 <= i < j < files@.len() implies (
        #[trigger] files@[i]).storage.id() < (#[trigger] files@[j]).storage.id() by {
            if i < at && j > at {
                assert(files@[i] == before[i]);
                assert(files@[j] == before[j - 1]);
                if i < at - 1 {
                    assert(before[i].storage.id() < before[at - 1].storage.id());
                }
            } else if i < at && j == at {
                assert(files@[i] == before[i]);
                if i < at - 1 {
                    assert(before[i].storage.id() < before[at - 1].storage.id());
                }
            } else if i == at {
                assert(files@[j] == before[j - 1]);
            } else if j < at {
                assert(files@[i] == before[i]);
                assert(files@[j] == before[j]);
            } else {
                assert(files@[i] == before[i - 1]);
                assert(files@[j] == before[j - 1]);
            }
        }
    }
    Some(at)
}

/// Files that are the images behind `k`, with the image at `k` put in among
/// them, are the images from `k` on.
proof fn lemma_files_of_images_insert(
    before: Seq<StableFile>,
    at: int,
    file: StableFile,
    images: Seq<DataFileImage>,
    k: int,
    options: DataStorageOptions,
)
    requires
        0 <= k < images.len(),
        0 <= at <= before.len(),
        files_of_images(before, images, k + 1, options),
        files_ascend(before.insert(at, file)),
        stable_view(file) == image_view(images[k]),
        file.storage.wf(),
        file.storage.clean(),
        file.storage.options() == options,
        file.storage.cursor() == 8,
        file.storage.id() >= 1,
    ensures
        files_of_images(before.insert(at, file), images, k, options),
{
    let after = before.insert(at, file);
    assert(after[at] == file);
    assert forall|i: int| k <= i < images.len() implies holds_file(
        after,
        #[trigger] image_view(images[i]),
    ) by {
        if i == k {
            assert(stable_view(after[at]) == image_view(images[i]));
        } else {
            assert(holds_file(before, image_view(images[i])));
            let j = choose|j: int|
                0 <= j < before.len() && #[trigger] stable_view(before[j]) == image_view(
                    images[i],
                );
            if j < at {
                assert(after[j] == before[j]);
                assert(stable_view(after[j]) == image_view(images[i]));
            } else {
                assert(after[j + 1] == before[j]);
                assert(stable_view(after[j + 1]) == image_view(images[i]));
            }
        }
    }
    assert forall|j: int| 0 <= j < after.len() implies holds_image(
        images,
        k,
        #[trigger] stable_view(after[j]),
    ) by {
        if j == at {
            assert(image_view(images[k]) == stable_view(after[j]));
        } else {
            let old_j = if j < at {
                j
            } else {
                j - 1
            };
            assert(after[j] == before[old_j]);
            assert(holds_image(images, k + 1, stable_view(before[old_j])));
            let i = choose|i: int|
                k + 1 <= i < images.len() && #[trigger] image_view(images[i]) == stable_view(
                    before[old_j],
                );
            assert(image_view(images[i]) == stable_view(after[j]));
        }
    }
    assert forall|j: int| 0 <= j < after.len() implies (#[trigger] after[j]).storage.wf()
        && after[j].storage.clean() && after[j].storage.options() == options
        && after[j].storage.cursor() == 8 && after[j].storage.id() >= 1 by {
        if j < at {
            assert(after[j] == before[j]);
        } else if j > at {
            assert(after[j] == before[j - 1]);
        }
    }
}

/// Where the images ascend, the image in front of those that were taken up
/// goes in front of them.
proof fn lemma_files_in_order_insert(
    before: Seq<StableFile>,
    at: int,
    file: StableFile,
    images: Seq<DataFileImage>,
    k: int,
)
    requires
        0 <= k < images.len(),
        0 <= at <= before.len(),
        images_ascend(images) ==> files_in_order(before, images, k + 1),
        before.len() == images.len() - (k + 1),
        at > 0 ==> before[at - 1].storage.id() < file.storage.id(),
        stable_view(file) == image_view(images[k]),
    ensures
        images_ascend(images) ==> files_in_order(before.insert(at, file), images, k),
{
    let after = before.insert(at, file);
    if images_ascend(images) {
        if at > 0 {
            assert(stable_view(before[at - 1]) == image_view(images[k + 1 + (at - 1)]));
            assert(images[k].file_id < images[k + at].file_id);
        }
        assert forall|j: int| 0 <= j < after.len() implies stable_view(#[trigger] after[j])
            == image_view(images[k + j]) by {
            if j > 0 {
                assert(after[j] == before[j - 1]);
                assert(stable_view(before[j - 1]) == image_view(images[k + 1 + (j - 1)]));
            }
        }
    }
}

/// An image that went in among the files that were taken up has an id that
/// none of the images behind it has.
proof fn lemma_inserted_id_is_new(
    before: Seq<StableFile>,
    at: int,
    file: StableFile,
    images: Seq<DataFileImage>,
    k: int,
)
    requires
        0 <= k < images.len(),
        0 <= at <= before.len(),
        files_ascend(before.insert(at, file)),
        stable_view(file) == image_view(images[k]),
        forall|i: int|
            k + 1 <= i < images.len() ==> holds_file(before, #[trigger] image_view(images[i])),
        forall|i: int, j: int|
            k + 1 <= i < j < images.len() ==> (#[trigger] images[i]).file_id != (
            #[trigger] images[j]).file_id,
    ensures
        forall|i: int, j: int|
            k <= i < j < images.len() ==> (#[trigger] images[i]).file_id != (
            #[trigger] images[j]).file_id,
{
    let after = before.insert(at, file);
    assert forall|i: int, j: int| k <= i < j < images.len() implies (#[trigger] images[i]).file_id
        != (#[trigger] images[j]).file_id by {
        if i == k {
            assert(holds_file(before, image_view(images[j])));
            let old_j = choose|old_j: int|
                0 <= old_j < before.len() && #[trigger] stable_view(before[old_j]) == image_view(
                    images[j],
                );
            let moved = if old_j < at {
                old_j
            } else {
                old_j + 1
            };
            assert(after[moved] == before[old_j]);
            assert(after[at] == file);
            if moved < at {
                assert(after[moved].storage.id() < after[at].storage.id());
            } else {
                assert(after[at].storage.id() < after[moved].storage.id());
            }
        }
    }
}

/// Takes the images up as data files, in ascending order of their ids.
pub fn open_storages(images: Vec<DataFileImage>, options: DataStorageOptions) -> (opened:
    BitcaskResult<Vec<StableFile>>)
    ensures
        match opened {
            Ok(files) => images_ok(images@) && files_of_images(files@, images@, 0, options) && (
            images_ascend(images@) ==> files_in_order(files@, images@, 0)),
            Err(e) => !images_ok(images@) && (e matches BitcaskError::DataFileCorrupted(_, _, _)
                || e matches BitcaskError::InvalidDatabaseFileName(_)
                || e matches BitcaskError::InvalidParameter(_, _)),
        },
{
    let ghost all = images@;
    let mut rest = images;
    let mut files: Vec<StableFile> = Vec::new();
    while rest.len() > 0
        invariant
            all == images@,
            rest@.len() <= all.len(),
            rest@ == all.subrange(0, rest@.len() as int),
            files_of_images(files@, all, rest@.len() as int, options),
            images_ascend(all) ==> files_in_order(files@, all, rest@.len() as int),
            forall|i: int|
                rest@.len() <= i < all.len() ==> (#[trigger] all[i]).file_id >= 1
                    && decode_file_header_spec(all[i].content@).is_ok(),
            forall|i: int, j: int|
                rest@.len() <= i < j < all.len() ==> (#[trigger] all[i]).file_id != (
                #[trigger] all[j]).file_id,
        decreases rest@.len(),
    {
        let ghost k = rest@.len() - 1;
        let image: DataFileImage = rest.pop().unwrap();
        assert(image == all[k]);
        assert(rest@ =~= all.subrange(0, k));
        if image.file_id == 0 {
            assert(!(all[k].file_id >= 1));
            return Err(BitcaskError::InvalidDatabaseFileName("0.data".to_string()));
        }
        let file_id: FileId = image.file_id;
        let storage: DataStorage = match DataStorage::open(
            image.file_id,
            image.content,
            image.readonly,
            options,
        ) {
            Ok(storage) => storage,
            Err(_) => {
                assert(!decode_file_header_spec(all[k].content@).is_ok());
                return Err(
                    BitcaskError::DataFileCorrupted(
                        String::new(),
                        file_id,
                        "the file does not start with a file header".to_string(),
                    ),
                );
            },
        };
        let file = StableFile { storage, hint: image.hint };
        assert(stable_view(file) == image_view(all[k]));
        let ghost before = files@;
        match insert_by_id(&mut files, file) {
            Some(at) => {
                proof {
                    lemma_files_of_images_insert(before, at as int, file, all, k, options);
                    lemma_files_in_order_insert(before, at as int, file, all, k);
                    lemma_inserted_id_is_new(before, at as int, file, all, k);
                }
            },
            None => {
                proof {
                    let j = choose|j: int|
                        0 <= j < before.len() && (#[trigger] before[j]).storage.id()
                            == file.storage.id();
                    assert(holds_image(all, k + 1, stable_view(before[j])));
                    let i = choose|i: int|
                        k + 1 <= i < all.len() && #[trigger] image_view(all[i]) == stable_view(
                            before[j],
                        );
                    assert(all[k].file_id == all[i].file_id);
                }
                return Err(
                    BitcaskError::InvalidParameter(
                        "images".to_string(),
                        "two files have the same id".to_string(),
                    ),
                );
            },
        }
    }
    proof {
        assert(all.subrange(0, 0) =~= Seq::<DataFileImage>::empty());
    }
    Ok(files)
}

/// The files as the contracts speak of them.
pub open spec fn stable_views(files: Seq<StableFile>) -> Seq<FileView> {
    files.map_values(|file: StableFile| stable_view(file))
}

/// The greater of the last id given out and the id of the last file.
pub open spec fn top_id(files: Seq<FileView>, last_id: FileId) -> FileId {
    if files.len() > 0 && files.last().id > last_id {
        files.last().id
    } else {
        last_id
    }
}

/// Whether the last of the files is taken as the writable file: there is one
/// and it is not read-only.
pub open spec fn reuses_last(files: Seq<FileView>) -> bool {
    files.len() > 0 && !files.last().readonly
}

/// The database that files in ascending order are loaded as. The last file
/// becomes the writable file if it is not read-only; else a new file with the
/// next id does. No id is given out again: the last id given out is not less
/// than it was, nor than the id of any file.
pub open spec fn loaded_view(files: Seq<FileView>, last_id: FileId, max_file_size: usize)
    -> DatabaseView {
    if reuses_last(files) {
        DatabaseView {
            stable: files.drop_last(),
            writing: FileView { hint: None, ..files.last() },
            last_id: top_id(files, last_id),
            pending_hints: Seq::empty(),
            max_file_size,
            error: None,
        }
    } else {
        DatabaseView {
            stable: files,
            writing: FileView {
                id: (top_id(files, last_id) + 1) as u32,
                bytes: file_header_bytes(),
                readonly: false,
                hint: None,
            },
            last_id: (top_id(files, last_id) + 1) as u32,
            pending_hints: Seq::empty(),
            max_file_size,
            error: None,
        }
    }
}

/// What loading the images gives: the database, or why there is none.
pub open spec fn load_result_matches(
    images: Seq<DataFileImage>,
    last_id: FileId,
    options: DataStorageOptions,
    loaded: BitcaskResult<DatabaseView>,
) -> bool {
    match loaded {
        Ok(view) => images_ok(images) && exists|files: Seq<StableFile>|
            #![trigger files_of_images(files, images, 0, options)]
            files_of_images(files, images, 0, options) && view == loaded_view(
                stable_views(files),
                last_id,
                options.max_data_file_size,
            ) && (reuses_last(stable_views(files)) || top_id(stable_views(files), last_id)
                < u32::MAX) && (images_ascend(images) ==> files_in_order(files, images, 0)),
        Err(e) => if images_ok(images) {
            e matches BitcaskError::DatabaseBroken(_) && exists|files: Seq<StableFile>|
                #![trigger files_of_images(files, images, 0, options)]
                files_of_images(files, images, 0, options) && !reuses_last(stable_views(files))
                    && top_id(stable_views(files), last_id) == u32::MAX
        } else {
            e matches BitcaskError::DataFileCorrupted(_, _, _)
                || e matches BitcaskError::InvalidDatabaseFileName(_)
                || e matches BitcaskError::InvalidParameter(_, _)
        },
    }
}

/// Takes the images up and picks the writable file among them, or begins a
/// new one.
pub fn prepare_load_storages(
    images: Vec<DataFileImage>,
    file_id_generator: &mut FileIdGenerator,
    storage_options: DataStorageOptions,
) -> (loaded: BitcaskResult<(DataStorage, Vec<StableFile>)>)
    ensures
        match loaded {
            Ok((writing, stable)) => {
                &&& images_ok(images@)
                &&& exists|files: Seq<StableFile>|
                    #![trigger files_of_images(files, images@, 0, storage_options)]
                    {
                        &&& files_of_images(files, images@, 0, storage_options)
                        &&& parts_view(
                            writing,
                            stable@,
                            final(file_id_generator).current(),
                            storage_options.max_data_file_size,
                        ) == loaded_view(
                            stable_views(files),
                            old(file_id_generator).current(),
                            storage_options.max_data_file_size,
                        )
                        &&& reuses_last(stable_views(files)) || top_id(
                            stable_views(files),
                            old(file_id_generator).current(),
                        ) < u32::MAX
                        &&& images_ascend(images@) ==> files_in_order(files, images@, 0)
                    }
                &&& parts_wf(writing, stable@, storage_options)
                &&& parts_view(
                    writing,
                    stable@,
                    final(file_id_generator).current(),
                    storage_options.max_data_file_size,
                ).wf()
            },
            Err(e) => load_result_matches(
                images@,
                old(file_id_generator).current(),
                storage_options,
                Err(e),
            ),
        },
{
    let mut storages: Vec<StableFile> = match open_storages(images, storage_options) {
        Ok(storages) => storages,
        Err(e) => {
            return Err(e);
        },
    };
    let ghost files = storages@;
    let n: usize = storages.len();
    proof {
        assert(stable_views(files).len() == n);
        if n > 0 {
            assert(stable_views(files).last() == stable_view(files[n - 1]));
        }
    }
    if n > 0 {
        let greatest: FileId = storages[n - 1].storage.file_id();
        if file_id_generator.get_file_id() < greatest {
            file_id_generator.update_file_id(greatest);
        }
    }
    let reuse: bool = n > 0 && !match storages[n - 1].storage.is_readonly() {
        Ok(readonly) => readonly,
        Err(_) => true,
    };
    if reuse {
        let last: StableFile = storages.pop().unwrap();
        proof {
            assert(storages@ =~= files.drop_last());
            assert(stable_views(storages@) =~= stable_views(files).drop_last());
            lemma_loaded_parts_wf(files, last.storage, storages@, storage_options);
        }
        Ok((last.storage, storages))
    } else {
        let id: FileId = match file_id_generator.try_generate_next_file_id() {
            Some(id) => id,
            None => {
                return Err(BitcaskError::DatabaseBroken("file ids are used up".to_string()));
            },
        };
        let writing: DataStorage = DataStorage::new(id, storage_options).unwrap();
        proof {
            lemma_loaded_parts_wf(files, writing, storages@, storage_options);
        }
        Ok((writing, storages))
    }
}

/// The database that a writable file, read-only files and a last id make up.
pub open spec fn parts_view(
    writing: DataStorage,
    stable: Seq<StableFile>,
    last_id: FileId,
    max_file_size: usize,
) -> DatabaseView {
    DatabaseView {
        stable: stable_views(stable),
        writing: FileView {
            id: writing.id(),
            bytes: writing.bytes(),
            readonly: writing.readonly(),
            hint: None,
        },
        last_id,
        pending_hints: Seq::empty(),
        max_file_size,
        error: None,
    }
}

/// Every file is well formed and has the options.
pub open spec fn parts_wf(writing: DataStorage, stable: Seq<StableFile>, options: DataStorageOptions)
    -> bool {
    &&& writing.wf()
    &&& writing.clean()
    &&& writing.options() == options
    &&& forall|i: int|
        0 <= i < stable.len() ==> (#[trigger] stable[i]).storage.wf() && stable[i].storage.clean()
}

/// Files in ascending order with a writable file of a greater id behind them
/// make up a well-formed database.
proof fn lemma_loaded_parts_wf(
    files: Seq<StableFile>,
    writing: DataStorage,
    stable: Seq<StableFile>,
    options: DataStorageOptions,
)
    requires
        files_ascend(files),
        forall|j: int|
            0 <= j < files.len() ==> (#[trigger] files[j]).storage.wf() && files[j].storage.clean()
                && files[j].storage.options() == options && files[j].storage.id() >= 1,
        writing.wf(),
        writing.clean(),
        writing.options() == options,
        !writing.readonly(),
        writing.id() >= 1,
        (stable == files && forall|j: int|
            0 <= j < files.len() ==> (#[trigger] files[j]).storage.id() < writing.id()) || (
        files.len() > 0 && stable == files.drop_last() && writing == files.last().storage),
    ensures
        parts_wf(writing, stable, options),
        forall|last_id: FileId, max: usize|
            writing.id() <= last_id ==> (#[trigger] parts_view(writing, stable, last_id, max)).wf(),
{
    assert forall|i: int| 0 <= i < stable.len() implies (#[trigger] stable[i]).storage.wf()
        && stable[i].storage.clean() && stable[i].storage.id() >= 1 && stable[i].storage.id()
        < writing.id() by {
        assert(stable[i] == files[i]);
        if stable.len() < files.len() {
            assert(files[i].storage.id() < files[files.len() - 1].storage.id());
        }
    }
    assert forall|last_id: FileId, max: usize| writing.id() <= last_id implies (
    #[trigger] parts_view(writing, stable, last_id, max)).wf() by {
        let view = parts_view(writing, stable, last_id, max);
        assert forall|i: int, j: int| 0 <= i < j < view.stable.len() implies (
        #[trigger] view.stable[i]).id < (#[trigger] view.stable[j]).id by {
            assert(stable[i] == files[i]);
            assert(stable[j] == files[j]);
        }
    }
}

/// The file that an exported image stands for.
pub open spec fn exported(image: DataFileImage) -> FileView {
    FileView {
        id: image.file_id,
        bytes: image.content@,
        readonly: image.readonly,
        hint: match image.hint {
            Some(hint) => Some(hint@),
            None => None,
        },
    }
}

/// A database that is loaded gives out no id that one of its files has: the
/// last id given out is not less than it was before, nor than the id of any
/// file.
pub proof fn lemma_loaded_ids(files: Seq<FileView>, last_id: FileId, max_file_size: usize)
    requires
        forall|i: int, j: int| 0 <= i < j < files.len() ==> (#[trigger] files[i]).id < (
        #[trigger] files[j]).id,
        reuses_last(files) || top_id(files, last_id) < u32::MAX,
    ensures
        loaded_view(files, last_id, max_file_size).last_id >= last_id,
        forall|i: int|
            0 <= i < files.len() ==> (#[trigger] files[i]).id <= loaded_view(
                files,
                last_id,
                max_file_size,
            ).last_id,
{
    assert forall|i: int| 0 <= i < files.len() implies (#[trigger] files[i]).id <= top_id(
        files,
        last_id,
    ) by {
        if i < files.len() - 1 {
            assert(files[i].id < files[files.len() - 1].id);
        }
    }
}

/// Durability under reopen, for the files: a database that is opened over the
/// files of another, as `export` hands them out, has the same read-only
/// files and the same writable file, gives the same rows to recovery, and is
/// not refused.
pub proof fn lemma_reopened_files(
    db: DatabaseView,
    images: Seq<DataFileImage>,
    last_id: FileId,
    options: DataStorageOptions,
    reopened: BitcaskResult<DatabaseView>,
)
    requires
        db.wf(),
        images.len() == db.stable.len() + 1,
        forall|i: int| 0 <= i < images.len() ==> exported(#[trigger] images[i]) == db.file_at(i),
        load_result_matches(images, last_id, options, reopened),
    ensures
        reopened.is_ok(),
        reopened.unwrap().stable == db.stable,
        reopened.unwrap().writing == db.writing,
        reopened.unwrap().recovery_rows() == db.recovery_rows(),
        forall|id: FileId| #[trigger]
            reopened.unwrap().has_file(id) == db.has_file(id) && reopened.unwrap().file(id)
                == db.file(id),
{
    let n = db.stable.len() as int;
    assert forall|i: int| 0 <= i < images.len() implies image_view(#[trigger] images[i])
        == db.file_at(i) && images[i].file_id >= 1 && decode_file_header_spec(
        images[i].content@,
    ).is_ok() by {
        assert(exported(images[i]) == db.file_at(i));
        let content = images[i].content@;
        if i < n {
            assert(db.file_at(i) == db.stable[i]);
        }
        if !images[i].readonly {
            assert(is_clean(content));
            assert(content.subrange(0, content.len() as int) =~= content);
        }
    }
    assert(images_ascend(images)) by {
        assert forall|i: int, j: int| 0 <= i < j < images.len() implies (
        #[trigger] images[i]).file_id < (#[trigger] images[j]).file_id by {
            assert(exported(images[i]) == db.file_at(i));
            assert(exported(images[j]) == db.file_at(j));
            if j < n {
                assert(db.stable[i].id < db.stable[j].id);
            } else {
                assert(db.stable[i].id < db.writing.id);
            }
        }
    }
    assert(images_ok(images));
    match reopened {
        Ok(view) => {
            let files = choose|files: Seq<StableFile>|
                #![trigger files_of_images(files, images, 0, options)]
                files_of_images(files, images, 0, options) && view == loaded_view(
                    stable_views(files),
                    last_id,
                    options.max_data_file_size,
                ) && (reuses_last(stable_views(files)) || top_id(stable_views(files), last_id)
                    < u32::MAX) && (images_ascend(images) ==> files_in_order(files, images, 0));
            let views = stable_views(files);
            assert(views.len() == n + 1);
            assert forall|j: int| 0 <= j < views.len() implies views[j] == db.file_at(j) by {
                assert(stable_view(files[j]) == image_view(images[0 + j]));
            }
            assert(views.last() == db.writing);
            assert(views.drop_last() =~= db.stable);
            assert(view.writing == db.writing);
            assert forall|i: int| 0 <= i < n + 1 implies view.file_at(i) == db.file_at(i) by {}
            lemma_same_files_same_rows(view, db, n + 1);
            assert forall|id: FileId| #[trigger]
                view.has_file(id) == db.has_file(id) && view.file(id) == db.file(id) by {
                assert(view.has_stable(id) == db.has_stable(id));
            }
        },
        Err(e) => {
            let files = choose|files: Seq<StableFile>|
                #![trigger files_of_images(files, images, 0, options)]
                files_of_images(files, images, 0, options) && !reuses_last(stable_views(files))
                    && top_id(stable_views(files), last_id) == u32::MAX;
            let views = stable_views(files);
            assert(views.len() == n + 1);
            let last = views[n];
            assert(holds_image(images, 0, stable_view(files[n])));
            let i = choose|i: int|
                0 <= i < images.len() && #[trigger] image_view(images[i]) == stable_view(files[n]);
            assert(image_view(images[i]) == db.file_at(i));
            assert(!last.readonly) by {
                if i < n {
                    assert(holds_file(files, image_view(images[n])));
                    let j = choose|j: int|
                        0 <= j < files.len() && #[trigger] stable_view(files[j]) == image_view(
                            images[n],
                        );
                    assert(image_view(images[n]) == db.file_at(n));
                    assert(db.stable[i].id < db.writing.id);
                    if j < n {
                        assert(files[j].storage.id() < files[n].storage.id());
                    }
                }
            }
        },
    }
}

/// The images are those of `whole`, but for the last one, which is writable
/// and holds, behind what it holds in `whole`, bytes that begin no row: what
/// is left of an append that did not finish.
pub open spec fn torn_after(images: Seq<DataFileImage>, whole: Seq<DataFileImage>, tail: Seq<u8>)
    -> bool {
    &&& images.len() == whole.len()
    &&& images.len() > 0
    &&& forall|i: int| 0 <= i < images.len() - 1 ==> #[trigger] images[i] == whole[i]
    &&& images.last().file_id == whole.last().file_id
    &&& images.last().hint == whole.last().hint
    &&& !images.last().readonly
    &&& !whole.last().readonly
    &&& images.last().content@ == whole.last().content@ + tail
    &&& is_clean(whole.last().content@)
    &&& !(crate::data_storage::row_at(
        whole.last().content@ + tail,
        whole.last().content@.len() as int,
    ) matches Ok(Some(_)))
}

/// Durability under reopen, after a kill in the middle of an append: files
/// whose writable file ends with what is left of the append are taken up as
/// the files without it are.
pub proof fn lemma_torn_tail_loads_alike(
    images: Seq<DataFileImage>,
    whole: Seq<DataFileImage>,
    tail: Seq<u8>,
    last_id: FileId,
    options: DataStorageOptions,
    loaded: BitcaskResult<DatabaseView>,
)
    requires
        torn_after(images, whole, tail),
        load_result_matches(images, last_id, options, loaded),
    ensures
        load_result_matches(whole, last_id, options, loaded),
{
    let n = images.len() - 1;
    let content = whole[n].content@;
    crate::data_storage::lemma_torn_tail_is_cut(content, tail, 8);
    assert(content.subrange(0, content.len() as int) =~= content);
    assert(images[n].content@.subrange(0, 4) =~= content.subrange(0, 4));
    assert(images[n].content@.subrange(4, 8) =~= content.subrange(4, 8));
    assert forall|i: int| 0 <= i < images.len() implies image_view(#[trigger] images[i])
        == image_view(whole[i]) && images[i].file_id == whole[i].file_id
        && decode_file_header_spec(images[i].content@).is_ok() == decode_file_header_spec(
        whole[i].content@,
    ).is_ok() by {
        if i < n {
            assert(images[i] == whole[i]);
        }
    }
    assert(images_ok(images) == images_ok(whole)) by {
        if images_ok(images) {
            assert forall|i: int, j: int| 0 <= i < j < whole.len() implies (
            #[trigger] whole[i]).file_id != (#[trigger] whole[j]).file_id by {
                assert(images[i].file_id != images[j].file_id);
            }
            assert forall|i: int| 0 <= i < whole.len() implies (#[trigger] whole[i]).file_id >= 1
                && decode_file_header_spec(whole[i].content@).is_ok() by {
                assert(images[i].file_id >= 1);
            }
        } else if images_ok(whole) {
            assert forall|i: int, j: int| 0 <= i < j < images.len() implies (
            #[trigger] images[i]).file_id != (#[trigger] images[j]).file_id by {
                assert(whole[i].file_id != whole[j].file_id);
            }
            assert forall|i: int| 0 <= i < images.len() implies (#[trigger] images[i]).file_id
                >= 1 && decode_file_header_spec(images[i].content@).is_ok() by {
                assert(whole[i].file_id >= 1);
            }
        }
    }
    assert(images_ascend(images) == images_ascend(whole)) by {
        if images_ascend(images) {
            assert forall|i: int, j: int| 0 <= i < j < whole.len() implies (
            #[trigger] whole[i]).file_id < (#[trigger] whole[j]).file_id by {
                assert(images[i].file_id < images[j].file_id);
            }
        } else if images_ascend(whole) {
            assert forall|i: int, j: int| 0 <= i < j < images.len() implies (
            #[trigger] images[i]).file_id < (#[trigger] images[j]).file_id by {
                assert(whole[i].file_id < whole[j].file_id);
            }
        }
    }
    assert forall|files: Seq<StableFile>|
        #![trigger files_of_images(files, images, 0, options)]
        files_of_images(files, images, 0, options) implies files_of_images(
        files,
        whole,
        0,
        options,
    ) && (files_in_order(files, images, 0) ==> files_in_order(files, whole, 0)) by {
        assert forall|i: int| 0 <= i < whole.len() implies holds_file(
            files,
            #[trigger] image_view(whole[i]),
        ) by {
            assert(holds_file(files, image_view(images[i])));
        }
        assert forall|j: int| 0 <= j < files.len() implies holds_image(
            whole,
            0,
            #[trigger] stable_view(files[j]),
        ) by {
            assert(holds_image(images, 0, stable_view(files[j])));
            let i = choose|i: int|
                0 <= i < images.len() && #[trigger] image_view(images[i]) == stable_view(files[j]);
            assert(image_view(whole[i]) == stable_view(files[j]));
        }
        if files_in_order(files, images, 0) {
            assert forall|j: int| 0 <= j < files.len() implies stable_view(#[trigger] files[j])
                == image_view(whole[0 + j]) by {
                assert(stable_view(files[j]) == image_view(images[0 + j]));
            }
        }
    }
    match loaded {
        Ok(view) => {
            let files = choose|files: Seq<StableFile>|
                #![trigger files_of_images(files, images, 0, options)]
                files_of_images(files, images, 0, options) && view == loaded_view(
                    stable_views(files),
                    last_id,
                    options.max_data_file_size,
                ) && (reuses_last(stable_views(files)) || top_id(stable_views(files), last_id)
                    < u32::MAX) && (images_ascend(images) ==> files_in_order(files, images, 0));
            assert(files_of_images(files, whole, 0, options));
        },
        Err(e) => {
            if images_ok(images) {
                let files = choose|files: Seq<StableFile>|
                    #![trigger files_of_images(files, images, 0, options)]
                    files_of_images(files, images, 0, options) && !reuses_last(
                        stable_views(files),
                    ) && top_id(stable_views(files), last_id) == u32::MAX;
                assert(files_of_images(files, whole, 0, options));
            }
        },
    }
}

/// Ids that ascend and have the same members are the same, place by place.
proof fn lemma_ascending_same_members(a: Seq<FileId>, b: Seq<FileId>, j: int)
    requires
        a.len() == b.len(),
        0 <= j <= a.len(),
        forall|i: int, k: int| 0 <= i < k < a.len() ==> #[trigger] a[i] < #[trigger] a[k],
        forall|i: int, k: int| 0 <= i < k < b.len() ==> #[trigger] b[i] < #[trigger] b[k],
        forall|i: int| 0 <= i < a.len() ==> b.contains(#[trigger] a[i]),
        forall|i: int| 0 <= i < b.len() ==> a.contains(#[trigger] b[i]),
    ensures
        forall|i: int| 0 <= i < j ==> #[trigger] a[i] == b[i],
    decreases j,
{
    if j > 0 {
        lemma_ascending_same_members(a, b, j - 1);
        let at = j - 1;
        if a[at] < b[at] {
            assert(b.contains(a[at]));
            let m = choose|m: int| 0 <= m < b.len() && b[m] == a[at];
            if m > at {
                assert(b[at] < b[m]);
            } else if m < at {
                assert(a[m] == b[m]);
                assert(a[m] < a[at]);
            }
        } else if b[at] < a[at] {
            assert(a.contains(b[at]));
            let m = choose|m: int| 0 <= m < a.len() && a[m] == b[at];
            if m > at {
                assert(a[at] < a[m]);
            } else if m < at {
                assert(a[m] == b[m]);
                assert(b[m] < b[at]);
            }
        }
    }
}

/// Images of the same files, place by place, are taken up as files in the
/// same order: the file at a place of the one is the file at that place of
/// the other.
pub proof fn lemma_same_ids_same_order(
    files: Seq<StableFile>,
    images: Seq<DataFileImage>,
    other_files: Seq<StableFile>,
    other_images: Seq<DataFileImage>,
    options: DataStorageOptions,
    j: int,
)
    requires
        files_of_images(files, images, 0, options),
        files_of_images(other_files, other_images, 0, options),
        images.len() == other_images.len(),
        forall|i: int|
            0 <= i < images.len() ==> (#[trigger] images[i]).file_id == other_images[i].file_id,
        forall|i: int, k: int|
            0 <= i < k < images.len() ==> (#[trigger] images[i]).file_id != (
            #[trigger] images[k]).file_id,
        0 <= j < files.len(),
    ensures
        files.len() == other_files.len(),
        exists|i: int|
            0 <= i < images.len() && #[trigger] image_view(images[i]) == stable_view(files[j])
                && image_view(other_images[i]) == stable_view(other_files[j]),
{
    let a = files.map_values(|file: StableFile| file.storage.id());
    let b = other_files.map_values(|file: StableFile| file.storage.id());
    assert forall|i: int| 0 <= i < a.len() implies b.contains(#[trigger] a[i]) by {
        assert(holds_image(images, 0, stable_view(files[i])));
        let m = choose|m: int|
            0 <= m < images.len() && #[trigger] image_view(images[m]) == stable_view(files[i]);
        assert(holds_file(other_files, image_view(other_images[m])));
        let k = choose|k: int|
            0 <= k < other_files.len() && #[trigger] stable_view(other_files[k]) == image_view(
                other_images[m],
            );
        assert(b[k] == a[i]);
    }
    assert forall|i: int| 0 <= i < b.len() implies a.contains(#[trigger] b[i]) by {
        assert(holds_image(other_images, 0, stable_view(other_files[i])));
        let m = choose|m: int|
            0 <= m < other_images.len() && #[trigger] image_view(other_images[m]) == stable_view(
                other_files[i],
            );
        assert(holds_file(files, image_view(images[m])));
        let k = choose|k: int|
            0 <= k < files.len() && #[trigger] stable_view(files[k]) == image_view(images[m]);
        assert(a[k] == b[i]);
    }
    assert forall|i: int, k: int| 0 <= i < k < a.len() implies #[trigger] a[i] < #[trigger] a[k] by {
        assert(files[i].storage.id() < files[k].storage.id());
    }
    assert forall|i: int, k: int| 0 <= i < k < b.len() implies #[trigger] b[i] < #[trigger] b[k] by {
        assert(other_files[i].storage.id() < other_files[k].storage.id());
    }
    lemma_ascending_same_members(a, b, a.len() as int);
    assert(a[j] == b[j]);
    assert(holds_image(images, 0, stable_view(files[j])));
    let i = choose|i: int|
        0 <= i < images.len() && #[trigger] image_view(images[i]) == stable_view(files[j]);
    assert(holds_file(other_files, image_view(other_images[i])));
    let k = choose|k: int|
        0 <= k < other_files.len() && #[trigger] stable_view(other_files[k]) == image_view(
            other_images[i],
        );
    assert(b[k] == a[j]);
    if k < j {
        assert(b[k] < b[j]);
    } else if j < k {
        assert(b[j] < b[k]);
    }
}

/// The images are those of `plain`, which have no hint file, with, for some
/// of the read-only ones, the hint file that the library writes for the data
/// file.
pub open spec fn with_hint_files(hinted: Seq<DataFileImage>, plain: Seq<DataFileImage>) -> bool {
    &&& hinted.len() == plain.len()
    &&& forall|i: int|
        0 <= i < plain.len() ==> {
            &&& (#[trigger] hinted[i]).file_id == plain[i].file_id
            &&& hinted[i].content@ == plain[i].content@
            &&& hinted[i].readonly == plain[i].readonly
            &&& plain[i].hint.is_none()
            &&& match hinted[i].hint {
                Some(hint) => hinted[i].readonly && hint@ == crate::recovery::hint_of(
                    plain[i].content@,
                    plain[i].file_id,
                ),
                None => true,
            }
        }
}

/// Hint equivalence, at the opening of a store: a directory that holds hint
/// files is taken up as the directory without them is. Either both are
/// refused or both are taken up, and then with the same files and with rows
/// that give the same key directory.
pub proof fn lemma_hint_files_load_alike(
    plain: Seq<DataFileImage>,
    hinted: Seq<DataFileImage>,
    last_id: FileId,
    options: DataStorageOptions,
    loaded_plain: BitcaskResult<DatabaseView>,
    loaded_hinted: BitcaskResult<DatabaseView>,
)
    requires
        with_hint_files(hinted, plain),
        load_result_matches(plain, last_id, options, loaded_plain),
        load_result_matches(hinted, last_id, options, loaded_hinted),
    ensures
        loaded_plain.is_ok() == loaded_hinted.is_ok(),
        loaded_plain.is_ok() ==> {
            &&& loaded_hinted.unwrap().writing == loaded_plain.unwrap().writing
            &&& loaded_hinted.unwrap().stable.len() == loaded_plain.unwrap().stable.len()
            &&& forall|j: int|
                0 <= j < loaded_plain.unwrap().stable.len() ==> (
                #[trigger] loaded_hinted.unwrap().stable[j]).id == loaded_plain.unwrap().stable[j].id
                    && loaded_hinted.unwrap().stable[j].bytes
                    == loaded_plain.unwrap().stable[j].bytes
            &&& crate::recovery::rebuild(loaded_hinted.unwrap().recovery_rows())
                == crate::recovery::rebuild(loaded_plain.unwrap().recovery_rows())
        },
{
    assert(images_ok(plain) == images_ok(hinted)) by {
        if images_ok(plain) {
            assert forall|i: int, j: int| 0 <= i < j < hinted.len() implies (
            #[trigger] hinted[i]).file_id != (#[trigger] hinted[j]).file_id by {
                assert(plain[i].file_id != plain[j].file_id);
            }
            assert forall|i: int| 0 <= i < hinted.len() implies (#[trigger] hinted[i]).file_id >= 1
                && decode_file_header_spec(hinted[i].content@).is_ok() by {
                assert(plain[i].file_id >= 1);
            }
        } else if images_ok(hinted) {
            assert forall|i: int, j: int| 0 <= i < j < plain.len() implies (
            #[trigger] plain[i]).file_id != (#[trigger] plain[j]).file_id by {
                assert(hinted[i].file_id != hinted[j].file_id);
            }
            assert forall|i: int| 0 <= i < plain.len() implies (#[trigger] plain[i]).file_id >= 1
                && decode_file_header_spec(plain[i].content@).is_ok() by {
                assert(hinted[i].file_id >= 1);
            }
        }
    }
    if images_ok(plain) {
        let files = choose|files: Seq<StableFile>|
            #![trigger files_of_images(files, plain, 0, options)]
            files_of_images(files, plain, 0, options) && match loaded_plain {
                Ok(view) => view == loaded_view(
                    stable_views(files),
                    last_id,
                    options.max_data_file_size,
                ),
                Err(_) => !reuses_last(stable_views(files)) && top_id(
                    stable_views(files),
                    last_id,
                ) == u32::MAX,
            };
        let others = choose|files: Seq<StableFile>|
            #![trigger files_of_images(files, hinted, 0, options)]
            files_of_images(files, hinted, 0, options) && match loaded_hinted {
                Ok(view) => view == loaded_view(
                    stable_views(files),
                    last_id,
                    options.max_data_file_size,
                ) && (reuses_last(stable_views(files)) || top_id(stable_views(files), last_id)
                    < u32::MAX),
                Err(_) => !reuses_last(stable_views(files)) && top_id(
                    stable_views(files),
                    last_id,
                ) == u32::MAX,
            };
        let one = stable_views(files);
        let two = stable_views(others);
        assert forall|i: int| 0 <= i < plain.len() implies (#[trigger] plain[i]).file_id
            == hinted[i].file_id by {
            assert(hinted[i].file_id == plain[i].file_id);
        }
        assert(one.len() == two.len() && forall|j: int|
            0 <= j < one.len() ==> (#[trigger] two[j]).id == one[j].id && two[j].bytes
                == one[j].bytes && two[j].readonly == one[j].readonly && one[j].hint.is_none() && (
            two[j].hint.is_none() || (two[j].readonly && two[j].hint == Some(
                crate::recovery::hint_of(one[j].bytes, one[j].id),
            )))) by {
            if files.len() > 0 {
                lemma_same_ids_same_order(files, plain, others, hinted, options, 0);
            } else {
                assert(others.len() == hinted.len());
            }
            assert forall|j: int| 0 <= j < one.len() implies (#[trigger] two[j]).id == one[j].id
                && two[j].bytes == one[j].bytes && two[j].readonly == one[j].readonly
                && one[j].hint.is_none() && (two[j].hint.is_none() || (two[j].readonly
                && two[j].hint == Some(crate::recovery::hint_of(one[j].bytes, one[j].id)))) by {
                lemma_same_ids_same_order(files, plain, others, hinted, options, j);
                let i = choose|i: int|
                    0 <= i < plain.len() && #[trigger] image_view(plain[i]) == stable_view(files[j])
                        && image_view(hinted[i]) == stable_view(others[j]);
                assert(hinted[i].file_id == plain[i].file_id);
            }
        }
        assert(reuses_last(one) == reuses_last(two));
        assert(top_id(one, last_id) == top_id(two, last_id));
        if loaded_plain.is_ok() && loaded_hinted.is_ok() {
            let view = loaded_plain.unwrap();
            let other = loaded_hinted.unwrap();
            assert(other.writing == view.writing);
            assert(other.stable.len() == view.stable.len());
            assert forall|j: int| 0 <= j < view.stable.len() implies (#[trigger] other.stable[j]).id
                == view.stable[j].id && other.stable[j].bytes == view.stable[j].bytes by {
                assert(other.stable[j] == two[j]);
                assert(view.stable[j] == one[j]);
            }
            assert forall|i: int, state: crate::recovery::RebuildState|
                0 <= i <= other.stable.len() implies #[trigger] crate::recovery::rebuild_onto(
                state,
                super::rows::file_rows(other.file_at(i)),
                0,
            ) == crate::recovery::rebuild_onto(state, super::rows::file_rows(view.file_at(i)), 0) by {
                if i < other.stable.len() {
                    assert(other.stable[i] == two[i]);
                    assert(view.stable[i] == one[i]);
                    if two[i].hint.is_some() {
                        lemma_same_ids_same_order(files, plain, others, hinted, options, i);
                        let m = choose|m: int|
                            0 <= m < plain.len() && #[trigger] image_view(plain[m]) == stable_view(
                                files[i],
                            ) && image_view(hinted[m]) == stable_view(others[i]);
                        vstd::std_specs::vec::axiom_spec_len(&plain[m].content);
                        crate::recovery::lemma_hint_of_parses(one[i].bytes, one[i].id);
                        crate::recovery::lemma_hint_equivalence(state, one[i].bytes, one[i].id);
                    }
                }
            }
            super::rows::lemma_alike_files_rebuild(
                other,
                view,
                view.stable.len() as int + 1,
                crate::recovery::rebuild_start(),
            );
        }
    }
}

/// The images are the files of the database, each once, in whatever order.
pub open spec fn images_hold(images: Seq<DataFileImage>, db: DatabaseView) -> bool {
    &&& images.len() == db.stable.len() + 1
    &&& forall|i: int, k: int|
        0 <= i < k < images.len() ==> (#[trigger] images[i]).file_id != (
        #[trigger] images[k]).file_id
    &&& forall|i: int|
        0 <= i < images.len() ==> is_file_of(db, #[trigger] exported(images[i]))
    &&& forall|j: int| 0 <= j <= db.stable.len() ==> is_image_of(images, #[trigger] db.file_at(j))
}

/// The file is one of the files of the database.
pub open spec fn is_file_of(db: DatabaseView, file: FileView) -> bool {
    exists|j: int| 0 <= j <= db.stable.len() && #[trigger] db.file_at(j) == file
}

/// The file is the file of one of the images.
pub open spec fn is_image_of(images: Seq<DataFileImage>, file: FileView) -> bool {
    exists|i: int| 0 <= i < images.len() && #[trigger] exported(images[i]) == file
}

/// The files as `export` hands them out are the files of the database, each
/// once.
pub proof fn lemma_exported_images_hold(db: DatabaseView, images: Seq<DataFileImage>)
    requires
        db.wf(),
        images.len() == db.stable.len() + 1,
        forall|i: int| 0 <= i < images.len() ==> exported(#[trigger] images[i]) == db.file_at(i),
    ensures
        images_hold(images, db),
{
    assert forall|i: int, k: int| 0 <= i < k < images.len() implies (#[trigger] images[i]).file_id
        != (#[trigger] images[k]).file_id by {
        assert(exported(images[i]) == db.file_at(i));
        assert(exported(images[k]) == db.file_at(k));
        assert(db.file_at(i).id < db.file_at(k).id);
    }
    assert forall|i: int| 0 <= i < images.len() implies is_file_of(
        db,
        #[trigger] exported(images[i]),
    ) by {
        assert(db.file_at(i) == exported(images[i]));
    }
    assert forall|j: int| 0 <= j <= db.stable.len() implies is_image_of(
        images,
        #[trigger] db.file_at(j),
    ) by {
        assert(exported(images[j]) == db.file_at(j));
    }
}

/// Durability under reopen, for the files, whatever the order in which the
/// directory hands its files out: a database that is opened over the files of
/// another has the same read-only files and the same writable file, gives the
/// same rows to recovery, and is not refused.
pub proof fn lemma_reopened_any_order(
    db: DatabaseView,
    images: Seq<DataFileImage>,
    last_id: FileId,
    options: DataStorageOptions,
    reopened: BitcaskResult<DatabaseView>,
)
    requires
        db.wf(),
        images_hold(images, db),
        load_result_matches(images, last_id, options, reopened),
    ensures
        reopened.is_ok(),
        reopened.unwrap().stable == db.stable,
        reopened.unwrap().writing == db.writing,
        reopened.unwrap().recovery_rows() == db.recovery_rows(),
        forall|id: FileId| #[trigger]
            reopened.unwrap().has_file(id) == db.has_file(id) && reopened.unwrap().file(id)
                == db.file(id),
{
    let n = db.stable.len() as int;
    assert forall|i: int| 0 <= i < images.len() implies image_view(#[trigger] images[i])
        == exported(images[i]) && images[i].file_id >= 1 && decode_file_header_spec(
        images[i].content@,
    ).is_ok() by {
        assert(is_file_of(db, exported(images[i])));
        let j = choose|j: int| 0 <= j <= n && #[trigger] db.file_at(j) == exported(images[i]);
        let content = images[i].content@;
        if j < n {
            assert(db.file_at(j) == db.stable[j]);
        }
        if !images[i].readonly {
            assert(is_clean(content));
            assert(content.subrange(0, content.len() as int) =~= content);
        }
    }
    assert(images_ok(images));
    let files = choose|files: Seq<StableFile>|
        #![trigger files_of_images(files, images, 0, options)]
        files_of_images(files, images, 0, options) && match reopened {
            Ok(view) => view == loaded_view(
                stable_views(files),
                last_id,
                options.max_data_file_size,
            ),
            Err(_) => !reuses_last(stable_views(files)) && top_id(
                stable_views(files),
                last_id,
            ) == u32::MAX,
        };
    let views = stable_views(files);
    assert(views.len() == n + 1);
    let a = views.map_values(|file: FileView| file.id);
    let b = Seq::new((n + 1) as nat, |j: int| db.file_at(j).id);
    assert forall|i: int, k: int| 0 <= i < k < a.len() implies #[trigger] a[i] < #[trigger] a[k] by {
        assert(files[i].storage.id() < files[k].storage.id());
    }
    assert forall|i: int, k: int| 0 <= i < k < b.len() implies #[trigger] b[i] < #[trigger] b[k] by {
        if k < n {
            assert(db.stable[i].id < db.stable[k].id);
        } else {
            assert(db.stable[i].id < db.writing.id);
        }
    }
    assert forall|i: int| 0 <= i < a.len() implies b.contains(#[trigger] a[i]) by {
        assert(holds_image(images, 0, stable_view(files[i])));
        let m = choose|m: int|
            0 <= m < images.len() && #[trigger] image_view(images[m]) == stable_view(files[i]);
        assert(is_file_of(db, exported(images[m])));
        let j = choose|j: int| 0 <= j <= n && #[trigger] db.file_at(j) == exported(images[m]);
        assert(b[j] == a[i]);
    }
    assert forall|j: int| 0 <= j < b.len() implies a.contains(#[trigger] b[j]) by {
        assert(is_image_of(images, db.file_at(j)));
        let m = choose|m: int|
            0 <= m < images.len() && #[trigger] exported(images[m]) == db.file_at(j);
        assert(holds_file(files, image_view(images[m])));
        let k = choose|k: int|
            0 <= k < files.len() && #[trigger] stable_view(files[k]) == image_view(images[m]);
        assert(a[k] == b[j]);
    }
    lemma_ascending_same_members(a, b, n + 1);
    assert forall|j: int| 0 <= j < views.len() implies #[trigger] views[j] == db.file_at(j) by {
        assert(a[j] == b[j]);
        assert(holds_image(images, 0, stable_view(files[j])));
        let m = choose|m: int|
            0 <= m < images.len() && #[trigger] image_view(images[m]) == stable_view(files[j]);
        assert(is_file_of(db, exported(images[m])));
        let k = choose|k: int| 0 <= k <= n && #[trigger] db.file_at(k) == exported(images[m]);
        assert(b[k] == b[j]);
        if k < j {
            assert(b[k] < b[j]);
        } else if j < k {
            assert(b[j] < b[k]);
        }
    }
    assert(views.last() == db.writing);
    assert(views.drop_last() =~= db.stable);
    assert(reuses_last(views));
    let view = reopened.unwrap();
    assert(view.writing == db.writing);
    assert forall|i: int| 0 <= i < n + 1 implies view.file_at(i) == db.file_at(i) by {}
    lemma_same_files_same_rows(view, db, n + 1);
    assert forall|id: FileId| #[trigger]
        view.has_file(id) == db.has_file(id) && view.file(id) == db.file(id) by {
        assert(view.has_stable(id) == db.has_stable(id));
    }
}

} // verus!
