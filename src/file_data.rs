use vstd::prelude::*;

verus! {

/// One discovered regular file: where it is and how many bytes it holds.
pub struct FileData {
    pub path: String,
    pub size: u64,
}

impl FileData {
    pub fn new(path: String, size: u64) -> (r: FileData)
        ensures
            r.path == path,
            r.size == size,
    {
        FileData { path, size }
    }

    /// A copy of this record with the same path and size.
    pub fn duplicate(&self) -> (r: FileData)
        ensures
            r == *self,
    {
        FileData { path: self.path.clone(), size: self.size }
    }
}

} // verus!
