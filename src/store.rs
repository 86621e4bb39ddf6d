//! The stored form of objects: the file name (the content hash of the
//! encoding) and the bytes written under it. Blobs are stored
//! zlib-compressed; trees and commits are stored as their encoding.
use vstd::prelude::*;

use crate::error::VcsError;
use crate::hash::{generate_hash, object_hash};
use crate::objects::blob::{blob_decode, blob_encoding, Blob};
use crate::objects::commit::Commit;
use crate::objects::tree::{tree_encoding, Tree};
use crate::objects::{ObjectDump, ObjectPump};

verus! {

/// The zlib stream that flate2 writes for `data` at the default level.
pub uninterp spec fn zlib_deflate(data: Seq<u8>) -> Seq<u8>;

/// The bytes that flate2 reads back out of a zlib stream.
pub uninterp spec fn zlib_inflate(data: Seq<u8>) -> Seq<u8>;

/// Whether flate2 reads `data` to its end as a valid zlib stream.
pub uninterp spec fn zlib_stream(data: Seq<u8>) -> bool;

/// Relies on flate2::write::ZlibEncoder (default level): the zlib stream
/// of `contents`, a valid stream that decompresses to `contents` again.
/// Writing into a `Vec` cannot fail, so neither can `finish`.
#[verifier::external_body]
pub fn compress(contents: &[u8]) -> (r: Result<Vec<u8>, VcsError>)
    ensures
        r is Ok,
        r->Ok_0@ == zlib_deflate(contents@),
        zlib_stream(r->Ok_0@),
        zlib_inflate(r->Ok_0@) == contents@,
{
    let mut e = flate2::write::ZlibEncoder::new(Vec::new(), flate2::Compression::default());
    if std::io::Write::write_all(&mut e, contents).is_err() {
        return Err(VcsError::IOError);
    }
    match e.finish() {
        Ok(v) => Ok(v),
        Err(_) => Err(VcsError::IOError),
    }
}

/// Relies on flate2::read::ZlibDecoder: the bytes that a zlib stream holds;
/// `FormatError` when it is not a valid stream.
#[verifier::external_body]
pub fn decompress(contents: &[u8]) -> (r: Result<Vec<u8>, VcsError>)
    ensures
        r is Ok <==> zlib_stream(contents@),
        r is Ok ==> r->Ok_0@ == zlib_inflate(contents@),
        r is Err ==> r->Err_0 == VcsError::FormatError,
{
    let mut d = flate2::read::ZlibDecoder::new(contents);
    let mut buf = Vec::new();
    match std::io::Read::read_to_end(&mut d, &mut buf) {
        Ok(_) => Ok(buf),
        Err(_) => Err(VcsError::FormatError),
    }
}

/// An object as it is put into the store: the file name and its bytes.
pub struct StoredObject {
    pub name: String,
    pub data: Vec<u8>,
}

/// A stored blob: named by the hash of its encoding, holding the
/// compressed encoding.
pub open spec fn stored_blob(o: StoredObject, content: Seq<u8>) -> bool {
    o.name@ == object_hash(blob_encoding(content)) && o.data@ == zlib_deflate(blob_encoding(content))
        && zlib_stream(o.data@) && zlib_inflate(o.data@) == blob_encoding(content)
}

/// A stored tree or commit: named by the hash of its encoding, holding the
/// encoding itself.
pub open spec fn stored_plain(o: StoredObject, encoding: Seq<u8>) -> bool {
    o.name@ == object_hash(encoding) && o.data@ == encoding
}

impl Blob {
    /// The blob's stored form; never fails.
    pub fn stored(&self) -> (r: Result<StoredObject, VcsError>)
        ensures
            r is Ok,
            stored_blob(r->Ok_0, self@),
    {
        let enc = match self.convert_to_bytes() {
            Ok(e) => e,
            Err(e) => {
                return Err(e);
            },
        };
        let data = match compress(enc.as_slice()) {
            Ok(d) => d,
            Err(_) => {
                return Err(VcsError::IOError);
            },
        };
        let name = generate_hash(enc.as_slice());
        Ok(StoredObject { name, data })
    }

    /// Reads a blob back from its stored bytes: decompresses, then decodes;
    /// `FormatError` when either step fails.
    pub fn from_stored(data: &[u8]) -> (r: Result<Blob, VcsError>)
        ensures
            r is Ok <==> zlib_stream(data@) && blob_decode(zlib_inflate(data@)) is Some,
            r is Ok ==> blob_decode(zlib_inflate(data@)) == Some(r->Ok_0@),
            r is Err ==> r->Err_0 == VcsError::FormatError,
    {
        let raw = match decompress(data) {
            Ok(r) => r,
            Err(e) => {
                return Err(e);
            },
        };
        Blob::from_raw_data(raw.as_slice())
    }
}

impl Tree {
    /// The tree's stored form; `EmptyTree` when it cannot be encoded.
    pub fn stored(&self) -> (r: Result<StoredObject, VcsError>)
        ensures
            r is Ok <==> crate::objects::tree::encodable(*self),
            r is Ok ==> stored_plain(r->Ok_0, tree_encoding(*self)),
            r is Err ==> r->Err_0 == VcsError::EmptyTree,
    {
        let enc = match self.convert_to_bytes() {
            Ok(e) => e,
            Err(e) => {
                return Err(e);
            },
        };
        let name = generate_hash(enc.as_slice());
        Ok(StoredObject { name, data: enc })
    }
}

impl Commit {
    /// The commit's stored form, stamped with `now` when it has no time of
    /// its own; `UnsetField` when a needed field is missing.
    pub fn stored_at(&self, now: u64) -> (r: Result<StoredObject, VcsError>)
        ensures
            r is Ok <==> self.complete(),
            r is Ok ==> stored_plain(
                r->Ok_0,
                self.encoding_at(
                    match self.secs_since_epoch {
                        Some(t) => t as nat,
                        None => now as nat,
                    },
                ),
            ),
            r is Err ==> r->Err_0 == VcsError::UnsetField,
    {
        let enc = match self.encode_at(now) {
            Ok(e) => e,
            Err(e) => {
                return Err(e);
            },
        };
        let name = generate_hash(enc.as_slice());
        Ok(StoredObject { name, data: enc })
    }
}

/// Content addressing: an object's name depends on its encoding alone, so
/// storing the same object twice gives the same name; and two stored
/// objects of one kind with the same bytes have the same name.
pub proof fn lemma_content_addressing(a: StoredObject, b: StoredObject, ea: Seq<u8>, eb: Seq<u8>, blobs: bool)
    requires
        blobs ==> stored_blob(a, ea) && stored_blob(b, eb),
        !blobs ==> stored_plain(a, ea) && stored_plain(b, eb),
    ensures
        blobs ==> (ea == eb ==> a.name@ == b.name@),
        !blobs ==> (ea == eb ==> a.name@ == b.name@),
        a.data@ == b.data@ ==> a.name@ == b.name@,
{
}

} // verus!
