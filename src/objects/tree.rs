//! Trees: directories, as ordered mappings from names to blobs or subtrees.
use vstd::prelude::*;

use crate::error::VcsError;
use crate::hash::{generate_hash, object_hash};
use crate::text::{
    dec, digits_value, find_byte, find_from, is_digits, lemma_find_from, lemma_find_from_result, lemma_find_shift, parse_u64,
    push_dec, push_str, slice_from, slice_range, utf8,
};
use vstd::utf8::valid_utf8;

verus! {

/// The kind of a tree entry, written as a six-byte mode.
#[derive(Clone, Copy, Debug, PartialEq, Eq, Structural)]
pub enum FileType {
    RegularFile,
    ExecutableFile,
    SymbolicLink,
    Directory,
}

/// The six-byte mode of each kind.
pub open spec fn mode_code(ft: FileType) -> Seq<u8> {
    match ft {
        FileType::RegularFile => seq![49u8, 48u8, 48u8, 54u8, 52u8, 52u8],
        FileType::ExecutableFile => seq![49u8, 48u8, 48u8, 55u8, 53u8, 53u8],
        FileType::SymbolicLink => seq![49u8, 50u8, 48u8, 48u8, 48u8, 48u8],
        FileType::Directory => seq![48u8, 52u8, 48u8, 48u8, 48u8, 48u8],
    }
}

/// The kind whose mode is `b`, if any.
pub open spec fn file_type_of(b: Seq<u8>) -> Option<FileType> {
    if b == mode_code(FileType::RegularFile) {
        Some(FileType::RegularFile)
    } else if b == mode_code(FileType::ExecutableFile) {
        Some(FileType::ExecutableFile)
    } else if b == mode_code(FileType::SymbolicLink) {
        Some(FileType::SymbolicLink)
    } else if b == mode_code(FileType::Directory) {
        Some(FileType::Directory)
    } else {
        None
    }
}

impl FileType {
    /// The six-byte mode.
    pub fn to_bytes(&self) -> (r: Vec<u8>)
        ensures
            r@ == mode_code(*self),
    {
        let r = match self {
            FileType::RegularFile => vec![49u8, 48u8, 48u8, 54u8, 52u8, 52u8],
            FileType::ExecutableFile => vec![49u8, 48u8, 48u8, 55u8, 53u8, 53u8],
            FileType::SymbolicLink => vec![49u8, 50u8, 48u8, 48u8, 48u8, 48u8],
            FileType::Directory => vec![48u8, 52u8, 48u8, 48u8, 48u8, 48u8],
        };
        assert(r@ =~= mode_code(*self));
        r
    }

    /// The kind whose mode is `bytes`, if any.
    pub fn from_bytes(bytes: &[u8]) -> (r: Option<FileType>)
        ensures
            r == file_type_of(bytes@),
    {
        let kinds = [FileType::RegularFile, FileType::ExecutableFile, FileType::SymbolicLink, FileType::Directory];
        let mut k: usize = 0;
        while k < 4
            invariant
                k <= 4,
                kinds@ == seq![FileType::RegularFile, FileType::ExecutableFile, FileType::SymbolicLink, FileType::Directory],
                forall|j: int| 0 <= j < k ==> bytes@ != mode_code(#[trigger] kinds@[j]),
            decreases 4 - k,
        {
            let code = kinds[k].to_bytes();
            if crate::text::bytes_eq(bytes, code.as_slice()) {
                return Some(kinds[k]);
            }
            k = k + 1;
        }
        assert(bytes@ != mode_code(kinds@[0]));
        assert(bytes@ != mode_code(kinds@[1]));
        assert(bytes@ != mode_code(kinds@[2]));
        assert(bytes@ != mode_code(kinds@[3]));
        None
    }
}

/// A tree entry as a plain record: its kind, its name and the hash it points to.
#[derive(Clone)]
pub struct Object {
    pub obj_type: FileType,
    pub filepath: String,
    pub sha1_pointer: String,
}

impl Object {
    pub fn new(obj_type: FileType, filepath: String, sha1_pointer: String) -> (r: Self)
        ensures
            r.obj_type == obj_type,
            r.filepath == filepath,
            r.sha1_pointer == sha1_pointer,
    {
        Object { obj_type, filepath, sha1_pointer }
    }
}

/// A child of a tree: a subtree, or a blob named by its hash.
pub enum TreeObject {
    Tree(Tree),
    Blob(String),
}

/// A directory. Its children are kept sorted by the bytes of their names,
/// with no name twice. A subtree read back from storage has no children and
/// carries its own hash instead: it stands for a directory whose children
/// have not been loaded.
pub struct Tree {
    pub sha1_hash: String,
    pub objects: Vec<(String, TreeObject)>,
}

/// Strict lexicographic order on byte strings.
pub open spec fn lex_lt(a: Seq<u8>, b: Seq<u8>) -> bool
    decreases a.len(),
{
    if a.len() == 0 {
        b.len() > 0
    } else if b.len() == 0 {
        false
    } else if a[0] != b[0] {
        a[0] < b[0]
    } else {
        lex_lt(a.drop_first(), b.drop_first())
    }
}

/// The order in which children are kept and written.
pub open spec fn name_lt(a: Seq<char>, b: Seq<char>) -> bool {
    lex_lt(utf8(a), utf8(b))
}

/// Children sorted strictly by name.
pub open spec fn sorted_entries(es: Seq<(String, TreeObject)>) -> bool {
    forall|i: int, j: int| 0 <= i < j < es.len() ==> name_lt(#[trigger] es[i].0@, #[trigger] es[j].0@)
}

/// One line of a tree body: `<mode> SPACE <name> SPACE <hash> NEWLINE`.
pub open spec fn tree_line(mode: Seq<u8>, name: Seq<char>, hash: Seq<char>) -> Seq<u8> {
    mode + seq![32u8] + utf8(name) + seq![32u8] + utf8(hash) + seq![10u8]
}

/// `tree SPACE <body-length> NEWLINE <body>`.
pub open spec fn tree_frame(body: Seq<u8>) -> Seq<u8> {
    seq![116u8, 114u8, 101u8, 101u8, 32u8] + dec(body.len()) + seq![10u8] + body
}

/// The lines of the first `k` children of `t`. A subtree with children is
/// named by the hash of its own encoding; one without is named by the hash
/// it carries.
pub open spec fn tree_body(t: Tree, k: int) -> Seq<u8>
    decreases t, k,
{
    if k <= 0 || k > t.objects@.len() {
        Seq::empty()
    } else {
        let e = t.objects@[k - 1];
        tree_body(t, k - 1) + match e.1 {
            TreeObject::Blob(h) => tree_line(mode_code(FileType::RegularFile), e.0@, h@),
            TreeObject::Tree(sub) => tree_line(
                mode_code(FileType::Directory),
                e.0@,
                if sub.objects@.len() == 0 {
                    sub.sha1_hash@
                } else {
                    object_hash(tree_frame(tree_body(sub, sub.objects@.len() as int)))
                },
            ),
        }
    }
}

/// The canonical encoding of a tree with children.
pub open spec fn tree_encoding(t: Tree) -> Seq<u8> {
    tree_frame(tree_body(t, t.objects@.len() as int))
}

/// The hash by which a parent names a subtree.
pub open spec fn subtree_hash(t: Tree) -> Seq<char> {
    if t.objects@.len() == 0 {
        t.sha1_hash@
    } else {
        object_hash(tree_encoding(t))
    }
}

} // verus!

verus! {

pub proof fn lemma_lex_irreflexive(a: Seq<u8>)
    ensures
        !lex_lt(a, a),
    decreases a.len(),
{
    if a.len() > 0 {
        lemma_lex_irreflexive(a.drop_first());
    }
}

pub proof fn lemma_lex_asymmetric(a: Seq<u8>, b: Seq<u8>)
    ensures
        !(lex_lt(a, b) && lex_lt(b, a)),
    decreases a.len(),
{
    if a.len() > 0 && b.len() > 0 && a[0] == b[0] {
        lemma_lex_asymmetric(a.drop_first(), b.drop_first());
    }
}

pub proof fn lemma_lex_total(a: Seq<u8>, b: Seq<u8>)
    ensures
        a == b || lex_lt(a, b) || lex_lt(b, a),
    decreases a.len(),
{
    if a.len() > 0 && b.len() > 0 && a[0] == b[0] {
        lemma_lex_total(a.drop_first(), b.drop_first());
        if a.drop_first() == b.drop_first() {
            assert(a =~= seq![a[0]] + a.drop_first());
            assert(b =~= seq![b[0]] + b.drop_first());
        }
    } else if a.len() == 0 && b.len() == 0 {
        assert(a =~= b);
    }
}

pub proof fn lemma_lex_transitive(a: Seq<u8>, b: Seq<u8>, c: Seq<u8>)
    requires
        lex_lt(a, b),
        lex_lt(b, c),
    ensures
        lex_lt(a, c),
    decreases a.len(),
{
    if a.len() > 0 && b.len() > 0 && c.len() > 0 && a[0] == b[0] && b[0] == c[0] {
        lemma_lex_transitive(a.drop_first(), b.drop_first(), c.drop_first());
    }
}

pub proof fn lemma_utf8_injective(a: Seq<char>, b: Seq<char>)
    requires
        utf8(a) == utf8(b),
    ensures
        a == b,
{
    vstd::utf8::encode_utf8_decode_utf8(a);
    vstd::utf8::encode_utf8_decode_utf8(b);
}

/// Compares two names in the order in which children are kept:
/// negative, zero or positive.
pub fn compare_names(a: &str, b: &str) -> (r: i8)
    ensures
        r < 0 <==> name_lt(a@, b@),
        r == 0 <==> a@ == b@,
        r > 0 <==> name_lt(b@, a@),
{
    let x = a.as_bytes();
    let y = b.as_bytes();
    let mut i: usize = 0;
    proof {
        assert(x@.subrange(0, 0) =~= y@.subrange(0, 0));
        assert(x@.subrange(0, x@.len() as int) =~= x@);
        assert(y@.subrange(0, y@.len() as int) =~= y@);
    }
    while i < x.len() && i < y.len()
        invariant
            x@ == utf8(a@),
            y@ == utf8(b@),
            i <= x@.len(),
            i <= y@.len(),
            x@.subrange(0, i as int) == y@.subrange(0, i as int),
            lex_lt(x@, y@) == lex_lt(x@.subrange(i as int, x@.len() as int), y@.subrange(i as int, y@.len() as int)),
            lex_lt(y@, x@) == lex_lt(y@.subrange(i as int, y@.len() as int), x@.subrange(i as int, x@.len() as int)),
        decreases x@.len() - i,
    {
        let ghost xs = x@.subrange(i as int, x@.len() as int);
        let ghost ys = y@.subrange(i as int, y@.len() as int);
        if x[i] != y[i] {
            proof {
                assert(xs[0] == x@[i as int]);
                assert(ys[0] == y@[i as int]);
                lemma_utf8_neq(a@, b@);
            }
            if x[i] < y[i] {
                return -1;
            } else {
                return 1;
            }
        }
        proof {
            assert(xs.drop_first() =~= x@.subrange(i + 1, x@.len() as int));
            assert(ys.drop_first() =~= y@.subrange(i + 1, y@.len() as int));
            assert(x@.subrange(0, i + 1) =~= x@.subrange(0, i as int).push(x@[i as int]));
            assert(y@.subrange(0, i + 1) =~= y@.subrange(0, i as int).push(y@[i as int]));
        }
        i = i + 1;
    }
    let ghost xs = x@.subrange(i as int, x@.len() as int);
    let ghost ys = y@.subrange(i as int, y@.len() as int);
    if x.len() == y.len() {
        proof {
            assert(x@ =~= x@.subrange(0, i as int));
            assert(y@ =~= y@.subrange(0, i as int));
            lemma_utf8_injective(a@, b@);
            lemma_lex_irreflexive(x@);
        }
        0
    } else if x.len() < y.len() {
        proof {
            assert(xs.len() == 0);
            lemma_utf8_neq(a@, b@);
        }
        -1
    } else {
        proof {
            assert(ys.len() == 0);
            lemma_utf8_neq(a@, b@);
        }
        1
    }
}

proof fn lemma_utf8_neq(a: Seq<char>, b: Seq<char>)
    requires
        utf8(a) != utf8(b),
    ensures
        a != b,
{
}

} // verus!

verus! {

/// The position of the last child named `n`, or -1.
pub open spec fn name_index(es: Seq<(String, TreeObject)>, n: Seq<char>) -> int
    decreases es.len(),
{
    if es.len() == 0 {
        -1
    } else if es.last().0@ == n {
        es.len() - 1
    } else {
        name_index(es.drop_last(), n)
    }
}

/// The children of a tree as a mapping from names.
pub open spec fn entries_map(es: Seq<(String, TreeObject)>) -> Map<Seq<char>, TreeObject> {
    Map::new(|n: Seq<char>| name_index(es, n) >= 0, |n: Seq<char>| es[name_index(es, n)].1)
}

pub proof fn lemma_name_index(es: Seq<(String, TreeObject)>, n: Seq<char>)
    ensures
        -1 <= name_index(es, n) < es.len(),
        name_index(es, n) >= 0 ==> es[name_index(es, n)].0@ == n,
        name_index(es, n) == -1 ==> forall|i: int| 0 <= i < es.len() ==> (#[trigger] es[i].0@) != n,
    decreases es.len(),
{
    if es.len() > 0 && es.last().0@ != n {
        lemma_name_index(es.drop_last(), n);
        assert forall|i: int| 0 <= i < es.len() - 1 implies es[i] == es.drop_last()[i] by {}
    }
}

pub proof fn lemma_sorted_unique(es: Seq<(String, TreeObject)>, i: int, j: int)
    requires
        sorted_entries(es),
        0 <= i < es.len(),
        0 <= j < es.len(),
        es[i].0@ == es[j].0@,
    ensures
        i == j,
{
    if i < j {
        assert(name_lt(es[i].0@, es[j].0@));
        lemma_lex_irreflexive(utf8(es[i].0@));
    } else if j < i {
        assert(name_lt(es[j].0@, es[i].0@));
        lemma_lex_irreflexive(utf8(es[i].0@));
    }
}

pub proof fn lemma_entries_map_at(es: Seq<(String, TreeObject)>, i: int)
    requires
        sorted_entries(es),
        0 <= i < es.len(),
    ensures
        entries_map(es).contains_key(es[i].0@),
        entries_map(es)[es[i].0@] == es[i].1,
{
    let n = es[i].0@;
    lemma_name_index(es, n);
    lemma_sorted_unique(es, i, name_index(es, n));
}

pub proof fn lemma_entries_map_has(es: Seq<(String, TreeObject)>, n: Seq<char>)
    requires
        sorted_entries(es),
    ensures
        entries_map(es).contains_key(n) <==> exists|i: int| 0 <= i < es.len() && #[trigger] es[i].0@ == n,
        entries_map(es).contains_key(n) ==> es[name_index(es, n)].0@ == n && 0 <= name_index(es, n) < es.len(),
{
    lemma_name_index(es, n);
    if exists|i: int| 0 <= i < es.len() && #[trigger] es[i].0@ == n {
        let i = choose|i: int| 0 <= i < es.len() && #[trigger] es[i].0@ == n;
        lemma_entries_map_at(es, i);
    }
}

impl Tree {
    /// The children as a mapping from names.
    pub open spec fn children(&self) -> Map<Seq<char>, TreeObject> {
        entries_map(self.objects@)
    }

    /// Children kept in order, with no name twice.
    pub open spec fn wf(&self) -> bool {
        sorted_entries(self.objects@)
    }

    /// An empty tree.
    pub fn new() -> (r: Self)
        ensures
            r.wf(),
            r.objects@.len() == 0,
            r.sha1_hash@.len() == 0,
    {
        Tree { sha1_hash: String::new(), objects: Vec::new() }
    }

    /// The hash that a tree read back from storage carries; `TreeMode` when
    /// the tree holds children.
    pub fn get_hash(&self) -> (r: Result<String, VcsError>)
        ensures
            r is Ok <==> self.objects@.len() == 0,
            r is Ok ==> r->Ok_0@ == self.sha1_hash@,
            r is Err ==> r->Err_0 == VcsError::TreeMode,
    {
        if self.objects.len() != 0 {
            return Err(VcsError::TreeMode);
        }
        Ok(self.sha1_hash.clone())
    }

    /// Makes a childless tree stand for the stored tree `sha1_hash`;
    /// `TreeMode` when the tree holds children.
    pub fn set_hash(&mut self, sha1_hash: &str) -> (r: Result<(), VcsError>)
        ensures
            r is Ok <==> old(self).objects@.len() == 0,
            r is Ok ==> final(self).sha1_hash@ == sha1_hash@ && final(self).objects@ == old(self).objects@,
            r is Err ==> r->Err_0 == VcsError::TreeMode && *final(self) == *old(self),
    {
        if self.objects.len() != 0 {
            return Err(VcsError::TreeMode);
        }
        self.sha1_hash = sha1_hash.to_owned();
        Ok(())
    }

    /// The position at which `name` stands or would stand among the
    /// children, and whether it is there.
    pub(crate) fn locate(&self, name: &str) -> (r: (usize, bool))
        requires
            self.wf(),
        ensures
            r.0 <= self.objects@.len(),
            forall|j: int| 0 <= j < r.0 ==> name_lt(#[trigger] self.objects@[j].0@, name@),
            r.1 ==> r.0 < self.objects@.len() && self.objects@[r.0 as int].0@ == name@,
            !r.1 ==> (r.0 < self.objects@.len() ==> name_lt(name@, self.objects@[r.0 as int].0@)),
    {
        let mut p: usize = 0;
        while p < self.objects.len()
            invariant
                p <= self.objects@.len(),
                forall|j: int| 0 <= j < p ==> name_lt(#[trigger] self.objects@[j].0@, name@),
            decreases self.objects@.len() - p,
        {
            let c = compare_names(self.objects[p].0.as_str(), name);
            if c == 0 {
                return (p, true);
            }
            if c > 0 {
                return (p, false);
            }
            p = p + 1;
        }
        (p, false)
    }

    /// Sets the child `filepath` to `object`, replacing any child of that name.
    pub fn add_object(&mut self, filepath: &str, object: TreeObject)
        requires
            old(self).wf(),
        ensures
            final(self).wf(),
            final(self).children() == old(self).children().insert(filepath@, object),
            final(self).sha1_hash == old(self).sha1_hash,
    {
        let (p, found) = self.locate(filepath);
        let ghost old_es = self.objects@;
        if found {
            self.objects.set(p, (filepath.to_owned(), object));
            proof {
                let es = self.objects@;
                assert(es[p as int].0@ == filepath@);
                assert forall|i: int, j: int| 0 <= i < j < es.len() implies name_lt(#[trigger] es[i].0@, #[trigger] es[j].0@) by {
                    assert(old_es[i].0@ == es[i].0@);
                    assert(old_es[j].0@ == es[j].0@);
                }
                lemma_map_after_set(old_es, es, p as int);
            }
        } else {
            self.objects.insert(p, (filepath.to_owned(), object));
            proof {
                let es = self.objects@;
                assert forall|i: int, j: int| 0 <= i < j < es.len() implies name_lt(#[trigger] es[i].0@, #[trigger] es[j].0@) by {
                    if j < p {
                        assert(es[i] == old_es[i] && es[j] == old_es[j]);
                    } else if j == p {
                        assert(es[i] == old_es[i]);
                    } else if i == p {
                        assert(es[j] == old_es[j - 1]);
                        if j - 1 > p {
                            assert(name_lt(old_es[p as int].0@, old_es[j - 1].0@));
                            lemma_lex_transitive(utf8(filepath@), utf8(old_es[p as int].0@), utf8(old_es[j - 1].0@));
                        }
                    } else if i < p {
                        assert(es[i] == old_es[i] && es[j] == old_es[j - 1]);
                        if p < old_es.len() {
                            lemma_lex_transitive(utf8(old_es[i].0@), utf8(filepath@), utf8(old_es[p as int].0@));
                            if j - 1 > p {
                                lemma_lex_transitive(utf8(old_es[i].0@), utf8(old_es[p as int].0@), utf8(old_es[j - 1].0@));
                            }
                        }
                    } else {
                        assert(es[i] == old_es[i - 1] && es[j] == old_es[j - 1]);
                    }
                }
                assert forall|i: int| p < i < es.len() implies es[i] == old_es[i - 1] by {}
                lemma_map_after_insert(old_es, es, p as int);
            }
        }
    }

    /// Adds the child that `object_lambda` makes under `filepath`, unless a
    /// child of that name exists; the closure is called only then.
    pub fn add_object_if_not_exists<F: FnOnce() -> TreeObject>(&mut self, filepath: &str, object_lambda: F)
        requires
            old(self).wf(),
            object_lambda.requires(()),
        ensures
            final(self).wf(),
            final(self).sha1_hash == old(self).sha1_hash,
            old(self).children().contains_key(filepath@) ==> final(self).children() == old(self).children(),
            !old(self).children().contains_key(filepath@) ==> exists|o: TreeObject|
                object_lambda.ensures((), o) && final(self).children() == old(self).children().insert(filepath@, o),
    {
        if !self.object_exists(filepath) {
            let o = object_lambda();
            let ghost og = o;
            self.add_object(filepath, o);
            assert(object_lambda.ensures((), og));
        }
    }

    /// The child named `filepath`, if any.
    pub fn get_object(&self, filepath: &str) -> (r: Option<&TreeObject>)
        requires
            self.wf(),
        ensures
            r is Some <==> self.children().contains_key(filepath@),
            r is Some ==> *r->0 == self.children()[filepath@],
    {
        let (p, found) = self.locate(filepath);
        if found {
            proof {
                lemma_entries_map_at(self.objects@, p as int);
            }
            Some(&self.objects[p].1)
        } else {
            proof {
                lemma_entries_map_has(self.objects@, filepath@);
                if self.children().contains_key(filepath@) {
                    let k = name_index(self.objects@, filepath@);
                    if k < p {
                        lemma_lex_irreflexive(utf8(filepath@));
                    } else if p < self.objects@.len() {
                        if k > p {
                            assert(name_lt(self.objects@[p as int].0@, self.objects@[k].0@));
                            lemma_lex_asymmetric(utf8(filepath@), utf8(self.objects@[p as int].0@));
                        } else {
                            lemma_lex_irreflexive(utf8(filepath@));
                        }
                    }
                }
            }
            None
        }
    }

    /// The child named `filepath`, if any, to change in place. Whatever is
    /// written through it becomes that child; the names stay as they are.
    pub fn get_object_mut(&mut self, filepath: &str) -> (r: Option<&mut TreeObject>)
        requires
            old(self).wf(),
        ensures
            r is Some <==> old(self).children().contains_key(filepath@),
            r is Some ==> *r->0 == old(self).children()[filepath@],
            r is Some ==> final(self).objects@ == old(self).objects@.update(
                name_index(old(self).objects@, filepath@),
                (old(self).objects@[name_index(old(self).objects@, filepath@)].0, *final(r->0)),
            ),
            r is None ==> *final(self) == *old(self),
            final(self).wf(),
    {
        let (p, found) = self.locate(filepath);
        proof {
            lemma_entries_map_has(self.objects@, filepath@);
        }
        if found {
            proof {
                lemma_entries_map_at(self.objects@, p as int);
                lemma_name_index(self.objects@, filepath@);
                lemma_sorted_unique(self.objects@, p as int, name_index(self.objects@, filepath@));
                let es = self.objects@;
                assert forall|v: TreeObject| #[trigger] sorted_entries(es.update(p as int, (es[p as int].0, v))) by {
                    let u = es.update(p as int, (es[p as int].0, v));
                    assert forall|i: int, j: int| 0 <= i < j < u.len() implies name_lt(#[trigger] u[i].0@, #[trigger] u[j].0@) by {
                        assert(u[i].0@ == es[i].0@ && u[j].0@ == es[j].0@);
                    }
                }
            }
            Some(&mut self.objects[p].1)
        } else {
            proof {
                if self.children().contains_key(filepath@) {
                    let k = name_index(self.objects@, filepath@);
                    if k < p {
                        lemma_lex_irreflexive(utf8(filepath@));
                    } else if p < self.objects@.len() {
                        if k > p {
                            assert(name_lt(self.objects@[p as int].0@, self.objects@[k].0@));
                            lemma_lex_asymmetric(utf8(filepath@), utf8(self.objects@[p as int].0@));
                        } else {
                            lemma_lex_irreflexive(utf8(filepath@));
                        }
                    }
                }
            }
            None
        }
    }

    /// Whether a child named `filepath` exists.
    pub fn object_exists(&self, filepath: &str) -> (r: bool)
        requires
            self.wf(),
        ensures
            r == self.children().contains_key(filepath@),
    {
        self.get_object(filepath).is_some()
    }

    /// The children, in order.
    pub fn get_objects(&self) -> (r: &Vec<(String, TreeObject)>)
        ensures
            r@ == self.objects@,
    {
        &self.objects
    }
}

proof fn lemma_map_after_set(old_es: Seq<(String, TreeObject)>, es: Seq<(String, TreeObject)>, p: int)
    requires
        sorted_entries(old_es),
        sorted_entries(es),
        0 <= p < old_es.len(),
        es.len() == old_es.len(),
        es[p].0@ == old_es[p].0@,
        forall|i: int| 0 <= i < es.len() && i != p ==> es[i] == old_es[i],
    ensures
        entries_map(es) == entries_map(old_es).insert(es[p].0@, es[p].1),
{
    let m = entries_map(es);
    let m2 = entries_map(old_es).insert(es[p].0@, es[p].1);
    assert forall|n: Seq<char>| m.contains_key(n) <==> m2.contains_key(n) by {
        lemma_entries_map_has(es, n);
        lemma_entries_map_has(old_es, n);
        if m.contains_key(n) {
            let k = name_index(es, n);
            if k != p {
                assert(old_es[k].0@ == n);
            }
        }
        if m2.contains_key(n) && n != es[p].0@ {
            let k = name_index(old_es, n);
            assert(es[k].0@ == n);
        }
    }
    assert forall|n: Seq<char>| m.contains_key(n) implies m[n] == m2[n] by {
        lemma_entries_map_has(es, n);
        let k = name_index(es, n);
        lemma_entries_map_at(es, k);
        if k != p {
            lemma_entries_map_at(old_es, k);
            if n == es[p].0@ {
                lemma_sorted_unique(es, k, p);
            }
        }
    }
    assert(m =~= m2);
}

proof fn lemma_map_after_insert(old_es: Seq<(String, TreeObject)>, es: Seq<(String, TreeObject)>, p: int)
    requires
        sorted_entries(old_es),
        sorted_entries(es),
        0 <= p <= old_es.len(),
        es.len() == old_es.len() + 1,
        forall|i: int| 0 <= i < p ==> es[i] == old_es[i],
        forall|i: int| p < i < es.len() ==> es[i] == old_es[i - 1],
    ensures
        entries_map(es) == entries_map(old_es).insert(es[p].0@, es[p].1),
{
    let m = entries_map(es);
    let m2 = entries_map(old_es).insert(es[p].0@, es[p].1);
    assert forall|n: Seq<char>| m.contains_key(n) <==> m2.contains_key(n) by {
        lemma_entries_map_has(es, n);
        lemma_entries_map_has(old_es, n);
        if m.contains_key(n) {
            let k = name_index(es, n);
            if k < p {
                assert(old_es[k].0@ == n);
            } else if k > p {
                assert(old_es[k - 1].0@ == n);
            }
        }
        if m2.contains_key(n) && n != es[p].0@ {
            let k = name_index(old_es, n);
            if k < p {
                assert(es[k].0@ == n);
            } else {
                assert(es[k + 1].0@ == n);
            }
        }
    }
    assert forall|n: Seq<char>| m.contains_key(n) implies m[n] == m2[n] by {
        lemma_entries_map_has(es, n);
        let k = name_index(es, n);
        lemma_entries_map_at(es, k);
        if k != p && n == es[p].0@ {
            lemma_sorted_unique(es, k, p);
        }
        if k < p {
            lemma_entries_map_at(old_es, k);
        } else if k > p {
            lemma_entries_map_at(old_es, k - 1);
        }
    }
    assert(m =~= m2);
}

} // verus!

verus! {

fn push_tree_line(out: &mut Vec<u8>, mode: FileType, name: &str, hash: &str)
    ensures
        final(out)@ == old(out)@ + tree_line(mode_code(mode), name@, hash@),
{
    let m = mode.to_bytes();
    out.extend_from_slice(m.as_slice());
    out.push(32u8);
    push_str(out, name);
    out.push(32u8);
    push_str(out, hash);
    out.push(10u8);
    assert(final(out)@ =~= old(out)@ + tree_line(mode_code(mode), name@, hash@));
}

fn frame_tree(body: Vec<u8>) -> (r: Vec<u8>)
    ensures
        r@ == tree_frame(body@),
{
    let mut out = vec![116u8, 114u8, 101u8, 101u8, 32u8];
    push_dec(&mut out, body.len() as u64);
    out.push(10u8);
    out.extend_from_slice(body.as_slice());
    assert(out@ =~= tree_frame(body@));
    out
}

/// A tree that can be encoded: it has children, and each subtree below it
/// either has children and can be encoded, or carries its stored hash.
pub open spec fn encodable(t: Tree) -> bool
    decreases t,
{
    &&& t.objects@.len() > 0
    &&& forall|i: int|
        0 <= i < t.objects@.len() ==> match #[trigger] t.objects@[i].1 {
            TreeObject::Tree(sub) => if sub.objects@.len() == 0 {
                sub.sha1_hash@.len() > 0
            } else {
                encodable(sub)
            },
            TreeObject::Blob(_) => true,
        }
}

/// The canonical encoding of `t`; `EmptyTree` when it, or a subtree below
/// it, has no children and carries no hash.
pub fn encode_tree(t: &Tree) -> (r: Result<Vec<u8>, VcsError>)
    ensures
        r is Ok <==> encodable(*t),
        r is Ok ==> r->Ok_0@ == tree_encoding(*t),
        r is Err ==> r->Err_0 == VcsError::EmptyTree,
    decreases t,
{
    if t.objects.len() == 0 {
        return Err(VcsError::EmptyTree);
    }
    let mut body: Vec<u8> = Vec::new();
    let mut i: usize = 0;
    while i < t.objects.len()
        invariant
            i <= t.objects@.len(),
            body@ == tree_body(*t, i as int),
            forall|j: int|
                0 <= j < i ==> match #[trigger] t.objects@[j].1 {
                    TreeObject::Tree(sub) => if sub.objects@.len() == 0 {
                        sub.sha1_hash@.len() > 0
                    } else {
                        encodable(sub)
                    },
                    TreeObject::Blob(_) => true,
                },
        decreases t.objects@.len() - i,
    {
        let entry = &t.objects[i];
        match &entry.1 {
            TreeObject::Blob(h) => {
                push_tree_line(&mut body, FileType::RegularFile, entry.0.as_str(), h.as_str());
            },
            TreeObject::Tree(sub) => {
                if sub.objects.len() == 0 {
                    if sub.sha1_hash.as_str().is_empty() {
                        proof {
                            assert(match t.objects@[i as int].1 {
                                TreeObject::Tree(s2) => s2.objects@.len() == 0 && s2.sha1_hash@.len() == 0,
                                TreeObject::Blob(_) => false,
                            });
                        }
                        return Err(VcsError::EmptyTree);
                    }
                    push_tree_line(&mut body, FileType::Directory, entry.0.as_str(), sub.sha1_hash.as_str());
                } else {
                    assert(decreases_to!(*t => t.objects@[i as int]));
                    let enc = match encode_tree(sub) {
                        Ok(e) => e,
                        Err(e) => {
                            proof {
                                assert(match t.objects@[i as int].1 {
                                    TreeObject::Tree(s2) => s2.objects@.len() > 0 && !encodable(s2),
                                    TreeObject::Blob(_) => false,
                                });
                            }
                            return Err(e);
                        },
                    };
                    let h = generate_hash(enc.as_slice());
                    push_tree_line(&mut body, FileType::Directory, entry.0.as_str(), h.as_str());
                }
            },
        }
        i = i + 1;
    }
    Ok(frame_tree(body))
}

impl crate::objects::ObjectDump for Tree {
    /// The canonical encoding; `EmptyTree` when the tree, or a subtree below
    /// it, has no children and carries no hash.
    fn convert_to_bytes(&self) -> (r: Result<Vec<u8>, VcsError>)
        ensures
            r is Ok <==> encodable(*self),
            r is Ok ==> r->Ok_0@ == tree_encoding(*self),
            r is Err ==> r->Err_0 == VcsError::EmptyTree,
    {
        encode_tree(self)
    }
}

} // verus!

verus! {

/// The three space-separated fields of a tree line: mode, name and hash.
pub open spec fn split_line(line: Seq<u8>) -> Option<(Seq<u8>, Seq<u8>, Seq<u8>)> {
    let a = find_from(line, 32, 0);
    let b = find_from(line, 32, a + 1);
    if a < 0 || b < 0 || find_from(line, 32, b + 1) >= 0 {
        None
    } else {
        Some((line.subrange(0, a), line.subrange(a + 1, b), line.subrange(b + 1, line.len() as int)))
    }
}

/// A tree body cut into newline-terminated lines, each split into fields.
pub open spec fn parse_lines(body: Seq<u8>) -> Option<Seq<(Seq<u8>, Seq<u8>, Seq<u8>)>>
    decreases body.len(),
{
    if body.len() == 0 {
        Some(Seq::empty())
    } else {
        let nl = find_from(body, 10, 0);
        if nl < 0 {
            None
        } else {
            proof {
                lemma_find_from_result(body, 10, 0);
            }
            match split_line(body.subrange(0, nl)) {
                None => None,
                Some(l) => match parse_lines(body.subrange(nl + 1, body.len() as int)) {
                    None => None,
                    Some(rest) => Some(seq![l] + rest),
                },
            }
        }
    }
}

/// Lines that a tree accepts: known modes, names and hashes in UTF-8, and
/// names in strictly increasing order.
pub open spec fn lines_ok(ls: Seq<(Seq<u8>, Seq<u8>, Seq<u8>)>) -> bool {
    &&& forall|i: int| 0 <= i < ls.len() ==> (#[trigger] file_type_of(ls[i].0)) is Some
    &&& forall|i: int| 0 <= i < ls.len() ==> valid_utf8(#[trigger] ls[i].1) && valid_utf8(ls[i].2)
    &&& forall|i: int| 0 <= i < ls.len() - 1 ==> lex_lt(#[trigger] ls[i].1, ls[i + 1].1)
}

/// The lines of a tree encoding, or `None` when `data` does not follow the
/// grammar: `tree`, a space, the decimal length of the body, a newline, then
/// a body of exactly that length made of accepted lines.
pub open spec fn tree_decode(data: Seq<u8>) -> Option<Seq<(Seq<u8>, Seq<u8>, Seq<u8>)>> {
    let q = find_from(data, 10, 5);
    if data.len() >= 5 && data.subrange(0, 5) == seq![116u8, 114u8, 101u8, 101u8, 32u8] && q >= 5
        && is_digits(data.subrange(5, q)) && digits_value(data.subrange(5, q)) == data.len() - q - 1 {
        match parse_lines(data.subrange(q + 1, data.len() as int)) {
            Some(ls) => if lines_ok(ls) {
                Some(ls)
            } else {
                None
            },
            None => None,
        }
    } else {
        None
    }
}

/// A decoded child that stands for one line: the name, and a blob or an
/// unloaded subtree carrying the hash.
pub open spec fn entry_from_line(e: (String, TreeObject), l: (Seq<u8>, Seq<u8>, Seq<u8>)) -> bool {
    &&& utf8(e.0@) == l.1
    &&& match e.1 {
        TreeObject::Blob(h) => utf8(h@) == l.2 && file_type_of(l.0) != Some(FileType::Directory),
        TreeObject::Tree(sub) => utf8(sub.sha1_hash@) == l.2 && sub.objects@.len() == 0 && file_type_of(l.0) == Some(FileType::Directory),
    }
}

/// A tree whose children stand for the given lines, in order.
pub open spec fn tree_from_lines(t: Tree, ls: Seq<(Seq<u8>, Seq<u8>, Seq<u8>)>) -> bool {
    &&& t.sha1_hash@.len() == 0
    &&& t.objects@.len() == ls.len()
    &&& forall|i: int| 0 <= i < ls.len() ==> entry_from_line(#[trigger] t.objects@[i], ls[i])
}

fn split_fields(line: &[u8]) -> (r: Option<(usize, usize)>)
    ensures
        r is Some <==> split_line(line@) is Some,
        r is Some ==> ({
            let (a, b) = r->0;
            &&& a < b < line@.len()
            &&& split_line(line@)->0 == (line@.subrange(0, a as int), line@.subrange(a + 1, b as int), line@.subrange(b + 1, line@.len() as int))
        }),
{
    let n = line.len();
    let a = match find_byte(line, 32u8, 0) {
        Some(a) => a,
        None => {
            return None;
        },
    };
    let b = match find_byte(line, 32u8, a + 1) {
        Some(b) => b,
        None => {
            return None;
        },
    };
    match find_byte(line, 32u8, b + 1) {
        Some(_) => None,
        None => Some((a, b)),
    }
}

impl crate::objects::ObjectPump for Tree {
    /// Decodes a tree encoding; `FormatError` when it does not follow the grammar.
    /// Subtrees come back unloaded: childless, carrying their hash.
    fn from_raw_data(data: &[u8]) -> (r: Result<Tree, VcsError>)
        ensures
            r is Ok <==> tree_decode(data@) is Some,
            r is Ok ==> tree_from_lines(r->Ok_0, tree_decode(data@)->0) && r->Ok_0.wf(),
            r is Err ==> r->Err_0 == VcsError::FormatError,
    {
        if data.len() < 5 || data[0] != 116u8 || data[1] != 114u8 || data[2] != 101u8 || data[3] != 101u8 || data[4] != 32u8 {
            proof {
                if data@.len() >= 5 && data@.subrange(0, 5) == seq![116u8, 114u8, 101u8, 101u8, 32u8] {
                    assert(data@.subrange(0, 5)[0] == data@[0]);
                    assert(data@.subrange(0, 5)[1] == data@[1]);
                    assert(data@.subrange(0, 5)[2] == data@[2]);
                    assert(data@.subrange(0, 5)[3] == data@[3]);
                    assert(data@.subrange(0, 5)[4] == data@[4]);
                }
            }
            return Err(VcsError::FormatError);
        }
        assert(data@.subrange(0, 5) =~= seq![116u8, 114u8, 101u8, 101u8, 32u8]);
        let q = match find_byte(data, 10u8, 5) {
            Some(q) => q,
            None => {
                return Err(VcsError::FormatError);
            },
        };
        let len = match parse_u64(slice_range(data, 5, q)) {
            Some(n) => n,
            None => {
                return Err(VcsError::FormatError);
            },
        };
        if len as u128 != (data.len() - q - 1) as u128 {
            return Err(VcsError::FormatError);
        }
        let body = slice_from(data, q + 1);
        let mut tree = Tree::new();
        let mut pos: usize = 0;
        let ghost mut done: Seq<(Seq<u8>, Seq<u8>, Seq<u8>)> = Seq::empty();
        proof {
            assert(body@.subrange(0, body@.len() as int) =~= body@);
            match parse_lines(body@) {
                Some(ls) => {
                    assert(done + ls =~= ls);
                },
                None => {},
            }
        }
        while pos < body.len()
            invariant
                q < data@.len(),
                body@ == data@.subrange(q + 1, data@.len() as int),
                find_from(data@, 10, 5) == q,
                data@.len() >= 5 && data@.subrange(0, 5) == seq![116u8, 114u8, 101u8, 101u8, 32u8],
                is_digits(data@.subrange(5, q as int)),
                digits_value(data@.subrange(5, q as int)) == data@.len() - q - 1,
                pos <= body@.len(),
                tree.wf(),
                tree_from_lines(tree, done),
                lines_ok(done),
                parse_lines(body@) == (match parse_lines(body@.subrange(pos as int, body@.len() as int)) {
                    Some(rest) => Some(done + rest),
                    None => None::<Seq<(Seq<u8>, Seq<u8>, Seq<u8>)>>,
                }),
            decreases body@.len() - pos,
        {
            let ghost rest = body@.subrange(pos as int, body@.len() as int);
            let nl = match find_byte(body, 10u8, pos) {
                Some(nl) => nl,
                None => {
                    proof {
                        lemma_find_shift(body@, 10, pos as int);
                        assert(parse_lines(rest) is None);
                        assert(parse_lines(body@) is None);
                        assert(body@ == data@.subrange(q + 1, data@.len() as int));
                    }
                    return Err(VcsError::FormatError);
                },
            };
            proof {
                lemma_find_shift(body@, 10, pos as int);
                assert(rest.subrange(0, nl - pos) =~= body@.subrange(pos as int, nl as int));
                assert(rest.subrange(nl - pos + 1, rest.len() as int) =~= body@.subrange(nl + 1, body@.len() as int));
            }
            let line = slice_range(body, pos, nl);
            let (a, b) = match split_fields(line) {
                Some(ab) => ab,
                None => {
                    proof {
                        assert(parse_lines(rest) is None);
                        assert(parse_lines(body@) is None);
                        assert(body@ == data@.subrange(q + 1, data@.len() as int));
                    }
                    return Err(VcsError::FormatError);
                },
            };
            let ghost l = split_line(line@)->0;
            let kind = match FileType::from_bytes(slice_range(line, 0, a)) {
                Some(k) => k,
                None => {
                    proof {
                        lemma_lines_ok_extend_fails(done, l, parse_lines(body@.subrange(nl + 1, body@.len() as int)));
                    }
                    return Err(VcsError::FormatError);
                },
            };
            let name = match crate::text::text_of(slice_range(line, a + 1, b)) {
                Some(s) => s,
                None => {
                    proof {
                        lemma_lines_ok_extend_fails(done, l, parse_lines(body@.subrange(nl + 1, body@.len() as int)));
                    }
                    return Err(VcsError::FormatError);
                },
            };
            let hash = match crate::text::text_of(slice_from(line, b + 1)) {
                Some(s) => s,
                None => {
                    proof {
                        lemma_lines_ok_extend_fails(done, l, parse_lines(body@.subrange(nl + 1, body@.len() as int)));
                    }
                    return Err(VcsError::FormatError);
                },
            };
            let n = tree.objects.len();
            if n > 0 {
                let c = compare_names(tree.objects[n - 1].0.as_str(), name.as_str());
                if c >= 0 {
                    proof {
                        assert(utf8(tree.objects@[n - 1].0@) == done[n - 1].1);
                        if c == 0 {
                            lemma_lex_irreflexive(utf8(name@));
                        } else {
                            lemma_lex_asymmetric(utf8(name@), utf8(tree.objects@[n - 1].0@));
                        }
                        lemma_lines_ok_extend_fails(done, l, parse_lines(body@.subrange(nl + 1, body@.len() as int)));
                    }
                    return Err(VcsError::FormatError);
                }
            }
            let obj = match kind {
                FileType::Directory => {
                    let mut sub = Tree::new();
                    sub.sha1_hash = hash;
                    TreeObject::Tree(sub)
                },
                _ => TreeObject::Blob(hash),
            };
            let ghost old_es = tree.objects@;
            tree.objects.push((name, obj));
            proof {
                let es = tree.objects@;
                assert forall|i: int, j: int| 0 <= i < j < es.len() implies name_lt(#[trigger] es[i].0@, #[trigger] es[j].0@) by {
                    if j == es.len() - 1 && i < j - 1 {
                        assert(name_lt(old_es[i].0@, old_es[n - 1].0@));
                        lemma_lex_transitive(utf8(old_es[i].0@), utf8(old_es[n - 1].0@), utf8(es[j].0@));
                    } else if j < es.len() - 1 {
                        assert(es[i] == old_es[i] && es[j] == old_es[j]);
                    }
                }
                let nd = done.push(l);
                assert forall|i: int| 0 <= i < nd.len() implies entry_from_line(#[trigger] es[i], nd[i]) by {
                    if i < n {
                        assert(es[i] == old_es[i]);
                    }
                }
                assert forall|i: int| 0 <= i < nd.len() - 1 implies lex_lt(#[trigger] nd[i].1, nd[i + 1].1) by {
                    if i == n - 1 {
                        assert(utf8(old_es[i].0@) == done[i].1);
                    } else {
                        assert(nd[i] == done[i] && nd[i + 1] == done[i + 1]);
                    }
                }
                assert forall|i: int| 0 <= i < nd.len() implies (#[trigger] file_type_of(nd[i].0)) is Some by {
                    if i < n {
                        assert(nd[i] == done[i]);
                    }
                }
                assert(l.1 == line@.subrange(a + 1, b as int));
                assert(l.2 == line@.subrange(b + 1, line@.len() as int));
                assert(valid_utf8(l.1) && valid_utf8(l.2));
                assert forall|i: int| 0 <= i < nd.len() implies valid_utf8(#[trigger] nd[i].1) && valid_utf8(nd[i].2) by {
                    if i < n {
                        assert(nd[i] == done[i]);
                    } else {
                        assert(nd[i] == l);
                    }
                }
                match parse_lines(body@.subrange(nl + 1, body@.len() as int)) {
                    Some(r2) => {
                        assert(done + (seq![l] + r2) =~= nd + r2);
                    },
                    None => {},
                }
                done = nd;
            }
            pos = nl + 1;
        }
        proof {
            assert(body@.subrange(pos as int, body@.len() as int) =~= Seq::<u8>::empty());
            assert(done + Seq::<(Seq<u8>, Seq<u8>, Seq<u8>)>::empty() =~= done);
        }
        Ok(tree)
    }
}

proof fn lemma_lines_ok_extend_fails(
    done: Seq<(Seq<u8>, Seq<u8>, Seq<u8>)>,
    l: (Seq<u8>, Seq<u8>, Seq<u8>),
    rest: Option<Seq<(Seq<u8>, Seq<u8>, Seq<u8>)>>,
)
    requires
        !(file_type_of(l.0) is Some && valid_utf8(l.1) && valid_utf8(l.2) && (done.len() > 0 ==> lex_lt(done.last().1, l.1))),
    ensures
        match rest {
            Some(r) => !lines_ok(done + (seq![l] + r)),
            None => true,
        },
{
    match rest {
        Some(r) => {
            let all = done + (seq![l] + r);
            let k = done.len() as int;
            assert(all[k] == l);
            if done.len() > 0 {
                assert(all[k - 1] == done.last());
            }
        },
        None => {},
    }
}

} // verus!

verus! {

pub proof fn lemma_map_after_remove(old_es: Seq<(String, TreeObject)>, p: int)
    requires
        sorted_entries(old_es),
        0 <= p < old_es.len(),
    ensures
        sorted_entries(old_es.remove(p)),
        entries_map(old_es.remove(p)) == entries_map(old_es).remove(old_es[p].0@),
{
    let es = old_es.remove(p);
    assert forall|i: int, j: int| 0 <= i < j < es.len() implies name_lt(#[trigger] es[i].0@, #[trigger] es[j].0@) by {
        let ii = if i < p { i } else { i + 1 };
        let jj = if j < p { j } else { j + 1 };
        assert(es[i] == old_es[ii] && es[j] == old_es[jj]);
    }
    let m = entries_map(es);
    let m2 = entries_map(old_es).remove(old_es[p].0@);
    assert forall|n: Seq<char>| m.contains_key(n) <==> m2.contains_key(n) by {
        lemma_entries_map_has(es, n);
        lemma_entries_map_has(old_es, n);
        if m.contains_key(n) {
            let k = name_index(es, n);
            let kk = if k < p { k } else { k + 1 };
            assert(es[k] == old_es[kk]);
            if n == old_es[p].0@ {
                lemma_sorted_unique(old_es, kk, p);
            }
        }
        if m2.contains_key(n) {
            let k = name_index(old_es, n);
            if k < p {
                assert(es[k] == old_es[k]);
            } else {
                assert(k != p);
                assert(es[k - 1] == old_es[k]);
            }
        }
    }
    assert forall|n: Seq<char>| m.contains_key(n) implies m[n] == m2[n] by {
        lemma_entries_map_has(es, n);
        let k = name_index(es, n);
        lemma_entries_map_at(es, k);
        let kk = if k < p { k } else { k + 1 };
        assert(es[k] == old_es[kk]);
        lemma_entries_map_at(old_es, kk);
    }
    assert(m =~= m2);
}

} // verus!

verus! {

/// Bytes with no space and no newline.
pub open spec fn no_sep(b: Seq<u8>) -> bool {
    forall|j: int| 0 <= j < b.len() ==> #[trigger] b[j] != 32 && b[j] != 10
}

/// The hash by which a tree names a child.
pub open spec fn child_hash(o: TreeObject) -> Seq<char> {
    match o {
        TreeObject::Blob(h) => h@,
        TreeObject::Tree(sub) => subtree_hash(sub),
    }
}

/// The mode with which a tree writes a child.
pub open spec fn child_mode(o: TreeObject) -> Seq<u8> {
    match o {
        TreeObject::Blob(_) => mode_code(FileType::RegularFile),
        TreeObject::Tree(_) => mode_code(FileType::Directory),
    }
}

/// A tree whose encoding reads back: it has children, in order, and no
/// name or hash holds a space or a newline.
pub open spec fn tree_round_trips(t: Tree) -> bool {
    &&& t.wf()
    &&& t.objects@.len() > 0
    &&& forall|i: int| 0 <= i < t.objects@.len() ==> no_sep(utf8((#[trigger] t.objects@[i]).0@)) && no_sep(utf8(child_hash(t.objects@[i].1)))
}

/// The line that decoding reads for child `i`.
pub open spec fn expected_line(e: (String, TreeObject)) -> (Seq<u8>, Seq<u8>, Seq<u8>) {
    (child_mode(e.1), utf8(e.0@), utf8(child_hash(e.1)))
}

pub proof fn lemma_body_line(t: Tree, k: int)
    requires
        1 <= k <= t.objects@.len(),
    ensures
        tree_body(t, k) == tree_body(t, k - 1) + tree_line(child_mode(t.objects@[k - 1].1), t.objects@[k - 1].0@, child_hash(t.objects@[k - 1].1)),
{
}

proof fn lemma_split_tree_line(mode: Seq<u8>, name: Seq<u8>, hash: Seq<u8>)
    requires
        mode.len() == 6,
        no_sep(mode),
        no_sep(name),
        no_sep(hash),
    ensures
        split_line(mode + seq![32u8] + name + seq![32u8] + hash) == Some((mode, name, hash)),
{
    let l = mode + seq![32u8] + name + seq![32u8] + hash;
    let a = 6int;
    let b = 7 + name.len() as int;
    assert forall|j: int| 0 <= j < a implies l[j] != 32 by {
        assert(l[j] == mode[j]);
    }
    lemma_find_from(l, 32, 0, a);
    assert forall|j: int| a + 1 <= j < b implies l[j] != 32 by {
        assert(l[j] == name[j - a - 1]);
    }
    lemma_find_from(l, 32, a + 1, b);
    assert forall|j: int| b + 1 <= j < l.len() implies l[j] != 32 by {
        assert(l[j] == hash[j - b - 1]);
    }
    lemma_find_from(l, 32, b + 1, l.len() as int);
    assert(l.subrange(0, a) =~= mode);
    assert(l.subrange(a + 1, b) =~= name);
    assert(l.subrange(b + 1, l.len() as int) =~= hash);
}

proof fn lemma_parse_append(a: Seq<u8>, line: Seq<u8>)
    requires
        parse_lines(a) is Some,
        forall|j: int| 0 <= j < line.len() ==> #[trigger] line[j] != 10,
        split_line(line) is Some,
    ensures
        parse_lines(a + line.push(10u8)) == Some(parse_lines(a)->0.push(split_line(line)->0)),
    decreases a.len(),
{
    let full = a + line.push(10u8);
    if a.len() == 0 {
        assert(full =~= line.push(10u8));
        lemma_find_from(full, 10, 0, line.len() as int);
        assert(full.subrange(0, line.len() as int) =~= line);
        let tail = full.subrange(line.len() as int + 1, full.len() as int);
        assert(tail =~= Seq::<u8>::empty());
        assert(parse_lines(tail) == Some(Seq::<(Seq<u8>, Seq<u8>, Seq<u8>)>::empty()));
        assert(find_from(full, 10, 0) == line.len());
        assert(parse_lines(full) == Some(seq![split_line(line)->0] + Seq::<(Seq<u8>, Seq<u8>, Seq<u8>)>::empty()));
        assert(parse_lines(a) == Some(Seq::<(Seq<u8>, Seq<u8>, Seq<u8>)>::empty()));
        assert(seq![split_line(line)->0] + Seq::<(Seq<u8>, Seq<u8>, Seq<u8>)>::empty() =~= Seq::<(Seq<u8>, Seq<u8>, Seq<u8>)>::empty().push(split_line(line)->0));
    } else {
        let nl = find_from(a, 10, 0);
        lemma_find_from_result(a, 10, 0);
        assert forall|j: int| 0 <= j < nl implies full[j] != 10 by {
            assert(full[j] == a[j]);
        }
        assert(full[nl] == a[nl]);
        lemma_find_from(full, 10, 0, nl);
        let rest_a = a.subrange(nl + 1, a.len() as int);
        assert(full.subrange(0, nl) =~= a.subrange(0, nl));
        assert(full.subrange(nl + 1, full.len() as int) =~= rest_a + line.push(10u8));
        assert(parse_lines(rest_a) is Some);
        lemma_parse_append(rest_a, line);
        let first = split_line(a.subrange(0, nl))->0;
        let r1 = parse_lines(rest_a)->0;
        assert(parse_lines(a) == Some(seq![first] + r1));
        assert(parse_lines(full) == Some(seq![first] + r1.push(split_line(line)->0)));
        assert(seq![first] + r1.push(split_line(line)->0) =~= (seq![first] + r1).push(split_line(line)->0));
    }
}

proof fn lemma_body_parses(t: Tree, k: int)
    requires
        tree_round_trips(t),
        0 <= k <= t.objects@.len(),
    ensures
        parse_lines(tree_body(t, k)) == Some(Seq::new(k as nat, |i: int| expected_line(t.objects@[i]))),
    decreases k,
{
    if k == 0 {
        assert(Seq::new(0, |i: int| expected_line(t.objects@[i])) =~= Seq::<(Seq<u8>, Seq<u8>, Seq<u8>)>::empty());
    } else {
        lemma_body_parses(t, k - 1);
        lemma_body_line(t, k);
        let e = t.objects@[k - 1];
        let mode = child_mode(e.1);
        let line = mode + seq![32u8] + utf8(e.0@) + seq![32u8] + utf8(child_hash(e.1));
        assert(no_sep(mode));
        lemma_split_tree_line(mode, utf8(e.0@), utf8(child_hash(e.1)));
        assert forall|j: int| 0 <= j < line.len() implies #[trigger] line[j] != 10 by {
            if j < 6 {
                assert(line[j] == mode[j]);
            } else if j == 6 {
            } else if j < 7 + utf8(e.0@).len() {
                assert(line[j] == utf8(e.0@)[j - 7]);
            } else if j == 7 + utf8(e.0@).len() {
            } else {
                assert(line[j] == utf8(child_hash(e.1))[j - 8 - utf8(e.0@).len()]);
            }
        }
        lemma_parse_append(tree_body(t, k - 1), line);
        assert(tree_line(mode, e.0@, child_hash(e.1)) =~= line.push(10u8));
        assert(Seq::new((k - 1) as nat, |i: int| expected_line(t.objects@[i])).push(expected_line(e)) =~= Seq::new(k as nat, |i: int| expected_line(t.objects@[i])));
    }
}

proof fn lemma_decoded_body(t: Tree, d: Tree, k: int)
    requires
        tree_round_trips(t),
        tree_from_lines(d, Seq::new(t.objects@.len(), |i: int| expected_line(t.objects@[i]))),
        0 <= k <= t.objects@.len(),
    ensures
        tree_body(d, k) == tree_body(t, k),
    decreases k,
{
    if k > 0 {
        lemma_decoded_body(t, d, k - 1);
        let ls = Seq::new(t.objects@.len(), |i: int| expected_line(t.objects@[i]));
        let e = t.objects@[k - 1];
        let de = d.objects@[k - 1];
        assert(entry_from_line(de, ls[k - 1]));
        lemma_utf8_injective(de.0@, e.0@);
        lemma_body_line(t, k);
        lemma_body_line(d, k);
        match e.1 {
            TreeObject::Blob(h) => {
                assert(file_type_of(mode_code(FileType::RegularFile)) == Some(FileType::RegularFile));
                match de.1 {
                    TreeObject::Blob(h2) => {
                        lemma_utf8_injective(h2@, h@);
                    },
                    TreeObject::Tree(_) => {},
                }
            },
            TreeObject::Tree(sub) => {
                assert(file_type_of(mode_code(FileType::Directory)) == Some(FileType::Directory));
                match de.1 {
                    TreeObject::Tree(sub2) => {
                        lemma_utf8_injective(sub2.sha1_hash@, subtree_hash(sub));
                    },
                    TreeObject::Blob(_) => {},
                }
            },
        }
    }
}

/// Decoding the encoding of a tree that round-trips succeeds, and every
/// tree that decoding yields (its subtrees unloaded, carrying their hashes)
/// has the same encoding, so the same hash.
pub proof fn lemma_tree_round_trip(t: Tree, d: Tree)
    requires
        tree_round_trips(t),
        tree_decode(tree_encoding(t)) is Some ==> tree_from_lines(d, tree_decode(tree_encoding(t))->0),
    ensures
        tree_decode(tree_encoding(t)) is Some,
        tree_encoding(d) == tree_encoding(t),
{
    let n = t.objects@.len() as int;
    let body = tree_body(t, n);
    let enc = tree_encoding(t);
    let ls = Seq::new(n as nat, |i: int| expected_line(t.objects@[i]));
    lemma_body_parses(t, n);
    let dl = dec(body.len());
    crate::text::lemma_dec(body.len());
    let q = 5 + dl.len() as int;
    assert(enc.subrange(0, 5) =~= seq![116u8, 114u8, 101u8, 101u8, 32u8]);
    assert forall|j: int| 5 <= j < q implies enc[j] != 10 by {
        assert(enc[j] == dl[j - 5]);
    }
    assert(enc[q] == 10);
    lemma_find_from(enc, 10, 5, q);
    assert(enc.subrange(5, q) =~= dl);
    assert(enc.subrange(q + 1, enc.len() as int) =~= body);
    assert forall|i: int| 0 <= i < ls.len() implies (#[trigger] file_type_of(ls[i].0)) is Some by {
        match t.objects@[i].1 {
            TreeObject::Blob(_) => assert(file_type_of(mode_code(FileType::RegularFile)) is Some),
            TreeObject::Tree(_) => assert(file_type_of(mode_code(FileType::Directory)) is Some),
        }
    }
    assert forall|i: int| 0 <= i < ls.len() implies valid_utf8(#[trigger] ls[i].1) && valid_utf8(ls[i].2) by {
        vstd::utf8::encode_utf8_valid_utf8(t.objects@[i].0@);
        vstd::utf8::encode_utf8_valid_utf8(child_hash(t.objects@[i].1));
    }
    assert forall|i: int| 0 <= i < ls.len() - 1 implies lex_lt(#[trigger] ls[i].1, ls[i + 1].1) by {
        assert(name_lt(t.objects@[i].0@, t.objects@[i + 1].0@));
    }
    assert(tree_decode(enc) == Some(ls));
    lemma_decoded_body(t, d, n);
}

} // verus!
