use vstd::prelude::*;

use std::path::{Path, PathBuf};

use crate::error::Error;
use crate::store::{index_dir, index_id_ok, joined_path};

verus! {

/// The path that `PathBuf::as_path` borrows from a path buffer.
pub uninterp spec fn borrowed_path(buf: PathBuf) -> &'static Path;

/// `PathBuf::as_path`: the buffer seen as a borrowed path.
#[verifier::external_body]
fn as_path(buf: &PathBuf) -> (p: &Path)
    ensures
        p == borrowed_path(*buf),
{
    buf.as_path()
}

/// The root directory that holds one subdirectory per index.
pub struct Engine {
    root: PathBuf,
}

impl Engine {
    /// The engine's root as a path value.
    pub closed spec fn root_buf(&self) -> PathBuf {
        self.root
    }

    /// An engine over the directory `root`.
    pub fn with_root(root: PathBuf) -> (e: Engine)
        ensures
            e.root_buf() == root,
    {
        Engine { root }
    }

    /// The directory under which indexes live.
    pub fn root(&self) -> (p: &Path)
        ensures
            p == borrowed_path(self.root_buf()),
    {
        as_path(&self.root)
    }

    /// The directory of index `index_id` under the root; the id must name a
    /// single directory.
    pub fn index_dir(&self, index_id: &str) -> (r: Result<PathBuf, Error>)
        ensures
            r is Ok <==> index_id_ok(index_id@, index_id.len() as nat),
            r matches Ok(p) ==> p == joined_path(borrowed_path(self.root_buf()), index_id@),
            r matches Err(e) ==> (e matches Error::InvalidIndexId(s) && s@ == index_id@),
    {
        index_dir(as_path(&self.root), index_id)
    }
}

} // verus!
