//! Allocation of data file ids.

use vstd::prelude::*;

verus! {

pub type FileId = u32;

/// Hands out file ids in increasing order. The id it holds is the last one
/// given out, or the greatest one known to exist.
#[derive(Debug)]
pub struct FileIdGenerator {
    file_id: u32,
}

impl FileIdGenerator {
    /// The last id given out.
    pub closed spec fn current(&self) -> u32 {
        self.file_id
    }

    pub fn new() -> (generator: FileIdGenerator)
        ensures
            generator.current() == 0,
    {
        FileIdGenerator { file_id: 0 }
    }

    /// Gives out the id after the current one.
    pub fn generate_next_file_id(&mut self) -> (id: u32)
        requires
            old(self).current() < u32::MAX,
        ensures
            id == old(self).current() + 1,
            final(self).current() == id,
    {
        let next_id: u32 = self.file_id + 1;
        self.file_id = next_id;
        next_id
    }

    /// Gives out the id after the current one, or nothing when every id has
    /// been given out.
    pub fn try_generate_next_file_id(&mut self) -> (id: Option<u32>)
        ensures
            old(self).current() < u32::MAX ==> id == Some((old(self).current() + 1) as u32)
                && final(self).current() == old(self).current() + 1,
            old(self).current() == u32::MAX ==> id.is_none() && final(self).current() == old(
                self,
            ).current(),
    {
        if self.file_id < u32::MAX {
            Some(self.generate_next_file_id())
        } else {
            None
        }
    }

    /// Takes note of the greatest id found on disk: the current id is raised
    /// to it if it is below it, and is never lowered, so that no id is given
    /// out twice.
    pub fn update_file_id(&mut self, current_max_file_id: u32)
        ensures
            final(self).current() == if current_max_file_id > old(self).current() {
                current_max_file_id
            } else {
                old(self).current()
            },
    {
        if current_max_file_id > self.file_id {
            self.file_id = current_max_file_id;
        }
    }

    pub fn get_file_id(&self) -> (id: u32)
        ensures
            id == self.current(),
    {
        self.file_id
    }
}

} // verus!
