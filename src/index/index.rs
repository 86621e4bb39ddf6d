//! Index entries, the index, and the index file's encoding.
use vstd::prelude::*;
use vstd::utf8::valid_utf8;

use crate::error::VcsError;
use crate::text::{
    dec, dec_signed, digits_value, find_byte, find_from, is_digits, is_signed_numeral, lemma_find_shift, parse_i64,
    parse_u64, push_dec, push_dec_signed, push_str, signed_value, slice_from, slice_range, split_lines, split_spaces,
    text_of, utf8,
};

verus! {

/// The kind of a staged file.
#[derive(Debug, Clone, Copy, PartialEq, Eq, Structural)]
pub enum IndexType {
    RegularFile,
    SymbolicLink,
}

/// The six-byte mode of each kind.
pub open spec fn index_mode(t: IndexType) -> Seq<u8> {
    match t {
        IndexType::RegularFile => seq![49u8, 48u8, 48u8, 54u8, 52u8, 52u8],
        IndexType::SymbolicLink => seq![49u8, 50u8, 48u8, 48u8, 48u8, 48u8],
    }
}

/// The kind whose mode is `b`, if any.
pub open spec fn index_type_of(b: Seq<u8>) -> Option<IndexType> {
    if b == index_mode(IndexType::RegularFile) {
        Some(IndexType::RegularFile)
    } else if b == index_mode(IndexType::SymbolicLink) {
        Some(IndexType::SymbolicLink)
    } else {
        None
    }
}

impl IndexType {
    /// The six-byte mode.
    pub fn to_bytes(&self) -> (r: Vec<u8>)
        ensures
            r@ == index_mode(*self),
    {
        let r = match self {
            IndexType::RegularFile => vec![49u8, 48u8, 48u8, 54u8, 52u8, 52u8],
            IndexType::SymbolicLink => vec![49u8, 50u8, 48u8, 48u8, 48u8, 48u8],
        };
        assert(r@ =~= index_mode(*self));
        r
    }

    /// The kind whose mode is `bytes`, if any.
    pub fn from_bytes(bytes: &[u8]) -> (r: Option<IndexType>)
        ensures
            r == index_type_of(bytes@),
    {
        let reg = IndexType::RegularFile.to_bytes();
        if crate::text::bytes_eq(bytes, reg.as_slice()) {
            return Some(IndexType::RegularFile);
        }
        let lnk = IndexType::SymbolicLink.to_bytes();
        if crate::text::bytes_eq(bytes, lnk.as_slice()) {
            return Some(IndexType::SymbolicLink);
        }
        None
    }
}

/// One staged file: its times and size from the file system, its kind, its
/// path relative to the repository root, and the hash of its blob encoding.
#[derive(Debug, Clone)]
pub struct IndexEntry {
    pub index_type: IndexType,
    pub ctime: i64,
    pub mtime: i64,
    pub file_size: u64,
    pub filename: String,
    pub sha1_hash: String,
}

/// `<mode> <ctime> <mtime> <size> <path> <hash>` and a newline.
pub open spec fn entry_line(e: IndexEntry) -> Seq<u8> {
    index_mode(e.index_type) + seq![32u8] + dec_signed(e.ctime as int) + seq![32u8] + dec_signed(e.mtime as int)
        + seq![32u8] + dec(e.file_size as nat) + seq![32u8] + utf8(e.filename@) + seq![32u8] + utf8(e.sha1_hash@)
        + seq![10u8]
}

impl IndexEntry {
    pub fn new(
        ctime: i64,
        mtime: i64,
        file_size: u64,
        index_type: IndexType,
        filename: String,
        sha1_hash: String,
    ) -> (r: Self)
        ensures
            r == (IndexEntry { index_type, ctime, mtime, file_size, filename, sha1_hash }),
    {
        IndexEntry { index_type, ctime, mtime, file_size, filename, sha1_hash }
    }

    /// The entry's line in the index file; never fails.
    pub fn convert_to_bytes(&self) -> (r: Result<Vec<u8>, VcsError>)
        ensures
            r is Ok,
            r->Ok_0@ == entry_line(*self),
    {
        let mut out = self.index_type.to_bytes();
        out.push(32u8);
        push_dec_signed(&mut out, self.ctime);
        out.push(32u8);
        push_dec_signed(&mut out, self.mtime);
        out.push(32u8);
        push_dec(&mut out, self.file_size);
        out.push(32u8);
        push_str(&mut out, self.filename.as_str());
        out.push(32u8);
        push_str(&mut out, self.sha1_hash.as_str());
        out.push(10u8);
        assert(out@ =~= entry_line(*self));
        Ok(out)
    }
}

/// The index file: the lines of all entries, in order.
pub open spec fn index_encoding(es: Seq<IndexEntry>) -> Seq<u8>
    decreases es.len(),
{
    if es.len() == 0 {
        Seq::empty()
    } else {
        index_encoding(es.drop_last()) + entry_line(es.last())
    }
}

/// The fields of one index line, when it is a valid one.
pub open spec fn line_ok(fs: Seq<Seq<u8>>) -> bool {
    &&& fs.len() == 6
    &&& index_type_of(fs[0]) is Some
    &&& is_signed_numeral(fs[1]) && i64::MIN <= signed_value(fs[1]) <= i64::MAX
    &&& is_signed_numeral(fs[2]) && i64::MIN <= signed_value(fs[2]) <= i64::MAX
    &&& is_digits(fs[3]) && digits_value(fs[3]) <= u64::MAX
    &&& valid_utf8(fs[4]) && valid_utf8(fs[5])
}

/// The lines of an index file cut into fields, or `None` when a line is
/// unterminated or not made of the six valid fields.
pub open spec fn index_decode(data: Seq<u8>) -> Option<Seq<Seq<Seq<u8>>>> {
    match split_lines(data) {
        None => None,
        Some(ls) => if forall|i: int| 0 <= i < ls.len() ==> line_ok(#[trigger] split_spaces(ls[i])) {
            Some(ls.map_values(|l: Seq<u8>| split_spaces(l)))
        } else {
            None
        },
    }
}

/// An entry that the fields of a line spell.
pub open spec fn entry_from_fields(e: IndexEntry, fs: Seq<Seq<u8>>) -> bool {
    &&& index_type_of(fs[0]) == Some(e.index_type)
    &&& e.ctime as int == signed_value(fs[1])
    &&& e.mtime as int == signed_value(fs[2])
    &&& e.file_size as nat == digits_value(fs[3])
    &&& utf8(e.filename@) == fs[4]
    &&& utf8(e.sha1_hash@) == fs[5]
}

/// The position of the first entry for `path`, or -1.
pub open spec fn path_index(es: Seq<IndexEntry>, path: Seq<char>) -> int
    decreases es.len(),
{
    if es.len() == 0 {
        -1
    } else if es[0].filename@ == path {
        0
    } else {
        let k = path_index(es.drop_first(), path);
        if k < 0 {
            -1
        } else {
            k + 1
        }
    }
}

/// The entries with the first entry for `path` taken out.
pub open spec fn without_path(es: Seq<IndexEntry>, path: Seq<char>) -> Seq<IndexEntry> {
    let k = path_index(es, path);
    if k < 0 {
        es
    } else {
        es.remove(k)
    }
}

/// No path is staged twice.
pub open spec fn unique_paths(es: Seq<IndexEntry>) -> bool {
    forall|i: int, j: int| 0 <= i < j < es.len() ==> (#[trigger] es[i]).filename@ != (#[trigger] es[j]).filename@
}

pub proof fn lemma_path_index(es: Seq<IndexEntry>, path: Seq<char>)
    ensures
        -1 <= path_index(es, path) < es.len(),
        path_index(es, path) >= 0 ==> es[path_index(es, path)].filename@ == path,
        forall|j: int| 0 <= j < es.len() && (path_index(es, path) < 0 || j < path_index(es, path)) ==> (#[trigger] es[j]).filename@ != path,
    decreases es.len(),
{
    if es.len() > 0 && es[0].filename@ != path {
        lemma_path_index(es.drop_first(), path);
        assert forall|j: int| 0 < j < es.len() implies es[j] == es.drop_first()[j - 1] by {}
    }
}

/// The staging index. Entries keep the order in which they were added.
pub struct Index {
    pub indices: Vec<IndexEntry>,
}

impl Index {
    /// An empty index.
    pub fn new() -> (r: Self)
        ensures
            r.indices@.len() == 0,
    {
        Index { indices: Vec::new() }
    }

    /// Adds an entry: any entry for the same path is taken out first, so
    /// that the last adding of a path wins.
    pub fn add(&mut self, entry: IndexEntry)
        ensures
            final(self).indices@ == without_path(old(self).indices@, entry.filename@).push(entry),
    {
        self.remove(entry.filename.as_str());
        self.indices.push(entry);
    }

    /// Empties the index.
    pub fn remove_all(&mut self)
        ensures
            final(self).indices@.len() == 0,
    {
        self.indices.clear();
    }

    /// Takes out the first entry for `filepath`; whether there was one.
    pub fn remove(&mut self, filepath: &str) -> (r: bool)
        ensures
            r == (path_index(old(self).indices@, filepath@) >= 0),
            final(self).indices@ == without_path(old(self).indices@, filepath@),
    {
        let mut i: usize = 0;
        proof {
            lemma_path_index(self.indices@, filepath@);
        }
        while i < self.indices.len()
            invariant
                i <= self.indices@.len(),
                self.indices@ == old(self).indices@,
                -1 <= path_index(self.indices@, filepath@) < self.indices@.len(),
                path_index(self.indices@, filepath@) >= 0 ==> self.indices@[path_index(self.indices@, filepath@)].filename@ == filepath@,
                forall|j: int| 0 <= j < self.indices@.len() && (path_index(self.indices@, filepath@) < 0 || j < path_index(self.indices@, filepath@)) ==> (#[trigger] self.indices@[j]).filename@ != filepath@,
                forall|j: int| 0 <= j < i ==> (#[trigger] self.indices@[j]).filename@ != filepath@,
            decreases self.indices@.len() - i,
        {
            if crate::text::str_eq(self.indices[i].filename.as_str(), filepath) {
                self.indices.remove(i);
                return true;
            }
            i = i + 1;
        }
        false
    }

    /// The index file: one line per entry, in order.
    pub fn convert_to_bytes(&self) -> (r: Result<Vec<u8>, VcsError>)
        ensures
            r is Ok,
            r->Ok_0@ == index_encoding(self.indices@),
    {
        let mut out: Vec<u8> = Vec::new();
        let mut i: usize = 0;
        while i < self.indices.len()
            invariant
                i <= self.indices@.len(),
                out@ == index_encoding(self.indices@.subrange(0, i as int)),
            decreases self.indices@.len() - i,
        {
            let line = match self.indices[i].convert_to_bytes() {
                Ok(l) => l,
                Err(e) => {
                    return Err(e);
                },
            };
            out.extend_from_slice(line.as_slice());
            proof {
                assert(self.indices@.subrange(0, i + 1).drop_last() =~= self.indices@.subrange(0, i as int));
            }
            i = i + 1;
        }
        assert(self.indices@.subrange(0, self.indices@.len() as int) =~= self.indices@);
        Ok(out)
    }
}

} // verus!

verus! {

/// An index whose entries the decoded lines spell, in order.
pub open spec fn index_from_lines(es: Seq<IndexEntry>, ls: Seq<Seq<Seq<u8>>>) -> bool {
    es.len() == ls.len() && forall|i: int| 0 <= i < ls.len() ==> entry_from_fields(#[trigger] es[i], ls[i])
}

fn entry_from_line(line: &[u8]) -> (r: Option<IndexEntry>)
    ensures
        r is Some <==> line_ok(split_spaces(line@)),
        r is Some ==> entry_from_fields(r->0, split_spaces(line@)),
{
    let fs = crate::text::field_bounds(line, 32u8);
    if fs.len() != 6 {
        return None;
    }
    let ghost sp = split_spaces(line@);
    let kind = match IndexType::from_bytes(slice_range(line, fs[0].0, fs[0].1)) {
        Some(k) => k,
        None => {
            return None;
        },
    };
    let ctime = match parse_i64(slice_range(line, fs[1].0, fs[1].1)) {
        Some(v) => v,
        None => {
            return None;
        },
    };
    let mtime = match parse_i64(slice_range(line, fs[2].0, fs[2].1)) {
        Some(v) => v,
        None => {
            return None;
        },
    };
    let size = match parse_u64(slice_range(line, fs[3].0, fs[3].1)) {
        Some(v) => v,
        None => {
            return None;
        },
    };
    let path = match text_of(slice_range(line, fs[4].0, fs[4].1)) {
        Some(v) => v,
        None => {
            return None;
        },
    };
    let hash = match text_of(slice_range(line, fs[5].0, fs[5].1)) {
        Some(v) => v,
        None => {
            return None;
        },
    };
    Some(IndexEntry { index_type: kind, ctime, mtime, file_size: size, filename: path, sha1_hash: hash })
}

impl Index {
    /// Reads an index file; `FormatError` when a line is unterminated or
    /// not made of six valid fields.
    pub fn from_raw_data(data: &[u8]) -> (r: Result<Index, VcsError>)
        ensures
            r is Ok <==> index_decode(data@) is Some,
            r is Ok ==> index_from_lines(r->Ok_0.indices@, index_decode(data@)->0),
            r is Err ==> r->Err_0 == VcsError::FormatError,
    {
        let mut index = Index::new();
        let mut pos: usize = 0;
        let ghost mut done: Seq<Seq<u8>> = Seq::empty();
        proof {
            assert(data@.subrange(0, data@.len() as int) =~= data@);
            match split_lines(data@) {
                Some(ls) => {
                    assert(done + ls =~= ls);
                },
                None => {},
            }
        }
        while pos < data.len()
            invariant
                pos <= data@.len(),
                split_lines(data@) == (match split_lines(data@.subrange(pos as int, data@.len() as int)) {
                    Some(rest) => Some(done + rest),
                    None => None::<Seq<Seq<u8>>>,
                }),
                forall|i: int| 0 <= i < done.len() ==> line_ok(#[trigger] split_spaces(done[i])),
                index.indices@.len() == done.len(),
                forall|i: int| 0 <= i < done.len() ==> entry_from_fields(#[trigger] index.indices@[i], split_spaces(done[i])),
            decreases data@.len() - pos,
        {
            let ghost rest = data@.subrange(pos as int, data@.len() as int);
            proof {
                lemma_find_shift(data@, 10, pos as int);
            }
            let nl = match find_byte(data, 10u8, pos) {
                Some(nl) => nl,
                None => {
                    proof {
                        assert(split_lines(rest) is None);
                    }
                    return Err(VcsError::FormatError);
                },
            };
            proof {
                assert(rest.subrange(0, nl - pos) =~= data@.subrange(pos as int, nl as int));
                assert(rest.subrange(nl - pos + 1, rest.len() as int) =~= data@.subrange(nl + 1, data@.len() as int));
            }
            let line = slice_range(data, pos, nl);
            let entry = match entry_from_line(line) {
                Some(e) => e,
                None => {
                    proof {
                        match split_lines(data@.subrange(nl + 1, data@.len() as int)) {
                            Some(r2) => {
                                let all = done + (seq![line@] + r2);
                                assert(all[done.len() as int] == line@);
                            },
                            None => {},
                        }
                    }
                    return Err(VcsError::FormatError);
                },
            };
            index.indices.push(entry);
            proof {
                let nd = done.push(line@);
                match split_lines(data@.subrange(nl + 1, data@.len() as int)) {
                    Some(r2) => {
                        assert(done + (seq![line@] + r2) =~= nd + r2);
                    },
                    None => {},
                }
                assert forall|i: int| 0 <= i < nd.len() implies line_ok(#[trigger] split_spaces(nd[i])) by {
                    if i < done.len() {
                        assert(nd[i] == done[i]);
                    }
                }
                assert forall|i: int| 0 <= i < nd.len() implies entry_from_fields(#[trigger] index.indices@[i], split_spaces(nd[i])) by {
                    if i < done.len() {
                        assert(nd[i] == done[i]);
                    }
                }
                done = nd;
            }
            pos = nl + 1;
        }
        proof {
            assert(data@.subrange(pos as int, data@.len() as int) =~= Seq::<u8>::empty());
            assert(done + Seq::<Seq<u8>>::empty() =~= done);
            let ls = split_lines(data@)->0;
            assert(ls == done);
            let m = ls.map_values(|l: Seq<u8>| split_spaces(l));
            assert forall|i: int| 0 <= i < ls.len() implies entry_from_fields(#[trigger] index.indices@[i], m[i]) by {
                assert(m[i] == split_spaces(ls[i]));
            }
        }
        Ok(index)
    }
}

/// Adding the same entry twice leaves exactly one entry for its path, the
/// entry itself: adding is idempotent.
pub proof fn lemma_add_idempotent(es: Seq<IndexEntry>, e: IndexEntry)
    requires
        unique_paths(es),
    ensures
        ({
            let once = without_path(es, e.filename@).push(e);
            let twice = without_path(once, e.filename@).push(e);
            &&& twice == once
            &&& unique_paths(once)
            &&& forall|i: int| 0 <= i < once.len() && (#[trigger] once[i]).filename@ == e.filename@ ==> i == once.len() - 1
        }),
{
    let p = e.filename@;
    let w = without_path(es, p);
    lemma_path_index(es, p);
    let k = path_index(es, p);
    assert forall|j: int| 0 <= j < w.len() implies (#[trigger] w[j]).filename@ != p by {
        if k >= 0 {
            if j < k {
                assert(w[j] == es[j]);
            } else {
                assert(w[j] == es[j + 1]);
                assert(es[k].filename@ == p);
            }
        }
    }
    assert forall|i: int, j: int| 0 <= i < j < w.len() implies (#[trigger] w[i]).filename@ != (#[trigger] w[j]).filename@ by {
        if k >= 0 {
            let ii = if i < k { i } else { i + 1 };
            let jj = if j < k { j } else { j + 1 };
            assert(w[i] == es[ii]);
            assert(w[j] == es[jj]);
        }
    }
    let once = w.push(e);
    lemma_path_index(once, p);
    assert(once[w.len() as int] == e);
    assert(path_index(once, p) == w.len());
    assert(once.remove(w.len() as int) =~= w);
}

} // verus!
