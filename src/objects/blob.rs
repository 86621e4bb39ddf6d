//! Blobs: opaque file content.
use vstd::prelude::*;

use crate::error::VcsError;
use crate::objects::{ObjectDump, ObjectPump};
use crate::text::{dec, digits_value, find_byte, find_from, is_digits, lemma_dec, lemma_find_from, parse_u64, push_dec, slice_from, slice_range};

verus! {

/// The header that starts every blob encoding: `blob` and a space.
pub open spec fn blob_tag() -> Seq<u8> {
    seq![98u8, 108u8, 111u8, 98u8, 32u8]
}

/// `blob SPACE <length> NUL <content>`.
pub open spec fn blob_encoding(content: Seq<u8>) -> Seq<u8> {
    blob_tag() + dec(content.len()) + seq![0u8] + content
}

/// The content that a blob encoding holds, or `None` when `data` does not
/// follow the grammar: the tag, a decimal length, a NUL, then exactly that
/// many bytes.
pub open spec fn blob_decode(data: Seq<u8>) -> Option<Seq<u8>> {
    let q = find_from(data, 0, 5);
    if data.len() >= 5 && data.subrange(0, 5) == blob_tag() && q >= 5
        && is_digits(data.subrange(5, q)) && digits_value(data.subrange(5, q)) == data.len() - q - 1 {
        Some(data.subrange(q + 1, data.len() as int))
    } else {
        None
    }
}

/// A blob: raw file content.
#[derive(Clone)]
pub struct Blob {
    content: Vec<u8>,
}

impl View for Blob {
    type V = Seq<u8>;

    closed spec fn view(&self) -> Seq<u8> {
        self.content@
    }
}

fn blob_tag_bytes() -> (r: Vec<u8>)
    ensures
        r@ == blob_tag(),
{
    let r = vec![98u8, 108u8, 111u8, 98u8, 32u8];
    assert(r@ =~= blob_tag());
    r
}

impl Blob {
    /// An empty blob.
    pub fn new() -> (r: Self)
        ensures
            r@ == Seq::<u8>::empty(),
    {
        Blob { content: Vec::new() }
    }

    /// A copy of the content.
    pub fn get_data(&self) -> (r: Vec<u8>)
        ensures
            r@ == self@,
    {
        self.content.clone()
    }

    /// Appends bytes to the content.
    pub fn append_data(&mut self, data: &[u8])
        ensures
            final(self)@ == old(self)@ + data@,
    {
        self.content.extend_from_slice(data);
    }

    /// Replaces the content.
    pub fn set_data(&mut self, data: &[u8])
        ensures
            final(self)@ == data@,
    {
        self.content = crate::text::copy_bytes(data);
    }
}

/// Decoding the encoding of any blob gives back its content, so the
/// re-encoding is the same bytes with the same hash.
pub proof fn lemma_blob_round_trip(content: Seq<u8>)
    ensures
        blob_decode(blob_encoding(content)) == Some(content),
{
    let e = blob_encoding(content);
    let d = dec(content.len());
    lemma_dec(content.len());
    let q = 5 + d.len() as int;
    assert(e.subrange(0, 5) =~= blob_tag());
    assert(e.subrange(5, q) =~= d);
    assert forall|j: int| 5 <= j < q implies e[j] != 0 by {
        assert(e[j] == d[j - 5]);
    }
    assert(e[q] == 0);
    lemma_find_from(e, 0, 5, q);
    assert(e.subrange(q + 1, e.len() as int) =~= content);
}

impl ObjectDump for Blob {
    /// The blob encoding of the content; never fails.
    fn convert_to_bytes(&self) -> (r: Result<Vec<u8>, VcsError>)
        ensures
            r is Ok,
            r->Ok_0@ == blob_encoding(self@),
    {
        let mut bytes = blob_tag_bytes();
        push_dec(&mut bytes, self.content.len() as u64);
        bytes.push(0u8);
        bytes.extend_from_slice(self.content.as_slice());
        Ok(bytes)
    }
}

impl ObjectPump for Blob {
    /// Decodes a blob encoding; `FormatError` when it does not follow the grammar.
    fn from_raw_data(data: &[u8]) -> (r: Result<Blob, VcsError>)
        ensures
            r is Ok <==> blob_decode(data@) is Some,
            r is Ok ==> r->Ok_0@ == blob_decode(data@)->0,
            r is Err ==> r->Err_0 == VcsError::FormatError,
    {
        if data.len() < 5 {
            return Err(VcsError::FormatError);
        }
        let tag = blob_tag_bytes();
        let mut i: usize = 0;
        while i < 5
            invariant
                i <= 5,
                data@.len() >= 5,
                tag@ == blob_tag(),
                forall|j: int| 0 <= j < i ==> data@[j] == tag@[j],
            decreases 5 - i,
        {
            if data[i] != tag[i] {
                return Err(VcsError::FormatError);
            }
            i = i + 1;
        }
        assert(data@.subrange(0, 5) =~= blob_tag());
        let q = match find_byte(data, 0u8, 5) {
            Some(q) => q,
            None => {
                return Err(VcsError::FormatError);
            },
        };
        let len = match parse_u64(slice_range(data, 5, q)) {
            Some(n) => n,
            None => {
                return Err(VcsError::FormatError);
            },
        };
        if len as u128 != (data.len() - q - 1) as u128 {
            return Err(VcsError::FormatError);
        }
        let content = crate::text::copy_bytes(slice_from(data, q + 1));
        Ok(Blob { content })
    }
}

} // verus!
