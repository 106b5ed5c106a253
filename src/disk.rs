use vstd::prelude::*;

use vstd::utf8::encode_utf8;

use crate::lfs_id::{encoding_of, text_names, url_safe_encoded, ContentKey, LfsId};

verus! {

/// Why a disk tier could not be set up.
#[derive(Debug)]
pub enum DiskCacheError {
    /// The path is not a directory that can be used.
    NotADirectory(String),
}

/// A disk tier: one file per identifier in a directory, named by the
/// identifier's URL-safe text. Reading and writing the files is left to the
/// caller; this holds the directory and names the files.
pub struct SimpleDiskCache {
    path: String,
}

impl SimpleDiskCache {
    pub closed spec fn root(&self) -> Seq<char> {
        self.path@
    }

    /// A disk tier in `path`, which `is_dir` says is an accessible directory.
    pub fn new(path: String, is_dir: bool) -> (r: Result<SimpleDiskCache, DiskCacheError>)
        ensures
            is_dir ==> (r matches Ok(c) && c.root() == path@),
            !is_dir ==> (r matches Err(DiskCacheError::NotADirectory(p)) && p@ == path@),
    {
        if !is_dir {
            return Err(DiskCacheError::NotADirectory(path));
        }
        Ok(SimpleDiskCache { path })
    }

    /// The directory.
    pub fn path(&self) -> (r: &String)
        ensures
            r@ == self.root(),
    {
        &self.path
    }

    /// The name of the file that holds `key`'s data.
    pub fn file_name(&self, key: &LfsId) -> (r: String)
        requires
            key.is_valid(),
        ensures
            r@ == url_safe_encoded(encoding_of(key@)),
            text_names(encode_utf8(r@), key@),
    {
        key.to_url_safe_text()
    }
}

/// Distinct identifiers get distinct file names.
pub proof fn lemma_distinct_file_names(a: ContentKey, b: ContentKey, na: Seq<char>, nb: Seq<char>)
    requires
        text_names(encode_utf8(na), a),
        text_names(encode_utf8(nb), b),
        a != b,
    ensures
        na != nb,
{
    if na == nb {
        crate::lfs_id::lemma_text_round_trip(a, b, encode_utf8(na));
    }
}

} // verus!
