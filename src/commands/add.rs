//! Staging a file.
use vstd::prelude::*;

use crate::error::VcsError;
use crate::hash::object_hash;
use crate::index::index::{without_path, Index, IndexEntry, IndexType};
use crate::objects::blob::{blob_encoding, Blob};
use crate::objects::ObjectDump;
use crate::store::{stored_blob, StoredObject};

verus! {

/// Stages the file at `path` with content `content` and the given metadata:
/// the blob is returned for storing, and the index gets an entry for it in
/// place of any earlier entry for `path`, with the hash of the blob's
/// encoding. Never fails.
pub fn add(
    index: &mut Index,
    path: String,
    content: &[u8],
    ctime: i64,
    mtime: i64,
    size: u64,
    is_symlink: bool,
) -> (r: Result<StoredObject, VcsError>)
    ensures
        r is Ok,
        r is Ok ==> stored_blob(r->Ok_0, content@),
        r is Ok ==> final(index).indices@ == without_path(old(index).indices@, path@).push(final(index).indices@.last()),
        r is Ok ==> ({
            let e = final(index).indices@.last();
            &&& e.filename == path
            &&& e.sha1_hash@ == object_hash(blob_encoding(content@))
            &&& e.ctime == ctime && e.mtime == mtime && e.file_size == size
            &&& e.index_type == (if is_symlink { IndexType::SymbolicLink } else { IndexType::RegularFile })
        }),
{
    let mut blob = Blob::new();
    blob.set_data(content);
    let stored = match blob.stored() {
        Ok(s) => s,
        Err(e) => {
            return Err(e);
        },
    };
    let kind = if is_symlink {
        IndexType::SymbolicLink
    } else {
        IndexType::RegularFile
    };
    let entry = IndexEntry::new(ctime, mtime, size, kind, path, stored.name.clone());
    index.add(entry);
    Ok(stored)
}

} // verus!

verus! {

/// The content hash of a file as the status engine compares it: the hash of
/// the file's blob encoding, the same hash that `add` stages for it.
pub fn content_hash(content: &[u8]) -> (r: String)
    ensures
        r@ == object_hash(blob_encoding(content@)),
{
    let mut blob = Blob::new();
    blob.set_data(content);
    let enc = match blob.convert_to_bytes() {
        Ok(e) => e,
        Err(_) => Vec::new(),
    };
    crate::hash::generate_hash(enc.as_slice())
}

} // verus!
