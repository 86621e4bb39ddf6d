//! The tree builder: folds the flat index into a hierarchy of trees.
use vstd::prelude::*;
use vstd::utf8::{decode_utf8, valid_utf8};

use crate::error::VcsError;
use crate::index::index::{Index, IndexEntry};

use crate::objects::tree::{lemma_entries_map_at, lemma_entries_map_has, name_index, tree_encoding, Tree, TreeObject};
use crate::text::{split_on, utf8};

verus! {

/// Children kept in order at every level, and no subtree without children.
pub open spec fn deep_wf(t: Tree) -> bool
    decreases t,
{
    &&& t.wf()
    &&& forall|i: int|
        0 <= i < t.objects@.len() ==> match #[trigger] t.objects@[i].1 {
            TreeObject::Tree(sub) => sub.objects@.len() > 0 && deep_wf(sub),
            TreeObject::Blob(_) => true,
        }
}

/// The hash of the blob that `path` leads to, if it leads to a blob.
pub open spec fn lookup(t: Tree, path: Seq<Seq<char>>) -> Option<Seq<char>>
    decreases path.len(),
{
    if path.len() == 0 || !t.children().contains_key(path[0]) {
        None
    } else {
        match t.children()[path[0]] {
            TreeObject::Blob(h) => if path.len() == 1 {
                Some(h@)
            } else {
                None
            },
            TreeObject::Tree(sub) => if path.len() == 1 {
                None
            } else {
                lookup(sub, path.drop_first())
            },
        }
    }
}

/// The separator of path segments.
pub fn get_separator() -> (r: &'static str)
    ensures
        r@ == seq!['/'],
{
    let r = "/";
    proof {
        reveal_strlit("/");
    }
    r
}

/// The segments of a repository-relative path, cut at `/`.
pub open spec fn path_segments(p: Seq<char>) -> Seq<Seq<char>> {
    split_on(utf8(p), 47).map_values(|b: Seq<u8>| decode_utf8(b))
}

/// One path is a prefix of the other.
pub open spec fn related(q: Seq<Seq<char>>, s: Seq<Seq<char>>) -> bool {
    (q.len() <= s.len() && s.subrange(0, q.len() as int) == q) || (s.len() <= q.len() && q.subrange(0, s.len() as int) == s)
}

/// Some proper prefix of `s` leads to a blob: `s` cannot be put below it.
pub open spec fn blocked(t: Tree, s: Seq<Seq<char>>) -> bool {
    exists|k: int| 1 <= k < s.len() && (#[trigger] lookup(t, s.subrange(0, k))) is Some
}

/// What the first `k` staged files make `q` lead to: the last file staged
/// at `q`, unless a later file was staged at a path above or below it.
pub open spec fn staged_lookup(files: Seq<(Seq<Seq<char>>, Seq<char>)>, k: int, q: Seq<Seq<char>>) -> Option<Seq<char>>
    decreases k,
{
    if k <= 0 {
        None
    } else if q == files[k - 1].0 {
        Some(files[k - 1].1)
    } else if related(q, files[k - 1].0) {
        None
    } else {
        staged_lookup(files, k - 1, q)
    }
}

/// The staged files of an index: the path segments and the hash of each entry.
pub open spec fn staged_files(es: Seq<IndexEntry>) -> Seq<(Seq<Seq<char>>, Seq<char>)> {
    es.map_values(|e: IndexEntry| (path_segments(e.filename@), e.sha1_hash@))
}

/// Some staged file would sit below a file staged before it.
pub open spec fn has_conflict(files: Seq<(Seq<Seq<char>>, Seq<char>)>) -> bool {
    exists|k: int, j: int|
        0 <= k < files.len() && 1 <= j < files[k].0.len() && (#[trigger] staged_lookup(files, k, #[trigger] files[k].0.subrange(0, j)))
            is Some
}

pub proof fn lemma_deep_wf_child(t: Tree, n: Seq<char>)
    requires
        deep_wf(t),
        t.children().contains_key(n),
    ensures
        t.children()[n] is Tree ==> deep_wf(t.children()[n]->Tree_0) && t.children()[n]->Tree_0.objects@.len() > 0,
{
    lemma_entries_map_has(t.objects@, n);
    let i = name_index(t.objects@, n);
    lemma_entries_map_at(t.objects@, i);
    assert(t.objects@[i].1 == t.children()[n]);
}

} // verus!

verus! {

/// The views of a list of names.
pub open spec fn names_view(segs: Seq<String>) -> Seq<Seq<char>> {
    segs.map_values(|s: String| s@)
}

proof fn lemma_lookup_step(t: Tree, s: Seq<Seq<char>>, sub: Tree, k: int)
    requires
        s.len() >= 1,
        t.children().contains_key(s[0]),
        t.children()[s[0]] == TreeObject::Tree(sub),
        2 <= k <= s.len(),
    ensures
        lookup(t, s.subrange(0, k)) == lookup(sub, s.drop_first().subrange(0, k - 1)),
{
    assert(s.subrange(0, k).drop_first() =~= s.drop_first().subrange(0, k - 1));
}

/// Whether some proper prefix of `segs[i..]` leads to a blob in `t`.
fn path_blocked(t: &Tree, segs: &Vec<String>, i: usize) -> (r: bool)
    requires
        deep_wf(*t),
        i < segs@.len(),
    ensures
        r == blocked(*t, names_view(segs@).subrange(i as int, segs@.len() as int)),
    decreases segs@.len() - i,
{
    let ghost s = names_view(segs@).subrange(i as int, segs@.len() as int);
    if i >= segs.len() - 1 {
        return false;
    }
    assert(s[0] == segs@[i as int]@);
    match t.get_object(segs[i].as_str()) {
        None => {
            proof {
                assert forall|k: int| 1 <= k < s.len() implies (#[trigger] lookup(*t, s.subrange(0, k))) is None by {
                    assert(s.subrange(0, k)[0] == s[0]);
                }
            }
            false
        },
        Some(TreeObject::Blob(_)) => {
            proof {
                assert(s.subrange(0, 1)[0] == s[0]);
                assert(lookup(*t, s.subrange(0, 1)) is Some);
            }
            true
        },
        Some(TreeObject::Tree(sub)) => {
            proof {
                lemma_deep_wf_child(*t, s[0]);
            }
            let r = path_blocked(sub, segs, i + 1);
            proof {
                let s2 = names_view(segs@).subrange(i + 1, segs@.len() as int);
                assert(s.drop_first() =~= s2);
                if r {
                    let k2 = choose|k: int| 1 <= k < s2.len() && (#[trigger] lookup(*sub, s2.subrange(0, k))) is Some;
                    lemma_lookup_step(*t, s, *sub, k2 + 1);
                    assert(lookup(*t, s.subrange(0, k2 + 1)) is Some);
                } else {
                    assert forall|k: int| 1 <= k < s.len() implies (#[trigger] lookup(*t, s.subrange(0, k))) is None by {
                        assert(s.subrange(0, k)[0] == s[0]);
                        if k >= 2 {
                            lemma_lookup_step(*t, s, *sub, k);
                            assert(lookup(*sub, s2.subrange(0, k - 1)) is None);
                        }
                    }
                }
            }
            r
        },
    }
}

} // verus!

verus! {

proof fn lemma_related_step(q: Seq<Seq<char>>, s: Seq<Seq<char>>)
    requires
        q.len() >= 1,
        s.len() >= 1,
        q[0] == s[0],
    ensures
        related(q, s) <==> related(q.drop_first(), s.drop_first()),
        q == s <==> q.drop_first() == s.drop_first(),
{
    let q2 = q.drop_first();
    let s2 = s.drop_first();
    if q.len() <= s.len() {
        if s.subrange(0, q.len() as int) == q {
            assert(s2.subrange(0, q2.len() as int) =~= s.subrange(0, q.len() as int).drop_first());
        }
        if s2.subrange(0, q2.len() as int) == q2 {
            assert forall|j: int| 0 <= j < q.len() implies s.subrange(0, q.len() as int)[j] == q[j] by {
                if j > 0 {
                    assert(s2.subrange(0, q2.len() as int)[j - 1] == q2[j - 1]);
                }
            }
            assert(s.subrange(0, q.len() as int) =~= q);
        }
    }
    if s.len() <= q.len() {
        if q.subrange(0, s.len() as int) == s {
            assert(q2.subrange(0, s2.len() as int) =~= q.subrange(0, s.len() as int).drop_first());
        }
        if q2.subrange(0, s2.len() as int) == s2 {
            assert forall|j: int| 0 <= j < s.len() implies q.subrange(0, s.len() as int)[j] == s[j] by {
                if j > 0 {
                    assert(q2.subrange(0, s2.len() as int)[j - 1] == s2[j - 1]);
                }
            }
            assert(q.subrange(0, s.len() as int) =~= s);
        }
    }
    if q2 == s2 {
        assert forall|j: int| 0 <= j < q.len() implies q[j] == s[j] by {
            if j > 0 {
                assert(q2[j - 1] == s2[j - 1]);
            }
        }
        assert(q =~= s);
    }
}

proof fn lemma_deep_wf_insert(old: Tree, new: Tree, n: Seq<char>, o: TreeObject)
    requires
        deep_wf(old),
        new.wf(),
        new.children() == old.children().insert(n, o),
        o is Tree ==> deep_wf(o->Tree_0) && o->Tree_0.objects@.len() > 0,
    ensures
        deep_wf(new),
{
    assert forall|j: int| 0 <= j < new.objects@.len() implies match #[trigger] new.objects@[j].1 {
        TreeObject::Tree(sub) => sub.objects@.len() > 0 && deep_wf(sub),
        TreeObject::Blob(_) => true,
    } by {
        lemma_entries_map_at(new.objects@, j);
        let nj = new.objects@[j].0@;
        if nj != n {
            lemma_deep_wf_child(old, nj);
        }
    }
}

/// A tree in order at every level, with children and no empty subtree,
/// can be encoded.
pub proof fn lemma_deep_wf_encodable(t: Tree)
    requires
        deep_wf(t),
        t.objects@.len() > 0,
    ensures
        crate::objects::tree::encodable(t),
    decreases t,
{
    assert forall|i: int| 0 <= i < t.objects@.len() implies match #[trigger] t.objects@[i].1 {
        TreeObject::Tree(sub) => if sub.objects@.len() == 0 {
            sub.sha1_hash@.len() > 0
        } else {
            crate::objects::tree::encodable(sub)
        },
        TreeObject::Blob(_) => true,
    } by {
        match t.objects@[i].1 {
            TreeObject::Tree(sub) => {
                assert(decreases_to!(t => t.objects@[i]));
                lemma_deep_wf_encodable(sub);
            },
            TreeObject::Blob(_) => {},
        }
    }
}

pub proof fn lemma_lookup_nonempty(t: Tree, s: Seq<Seq<char>>)
    requires
        lookup(t, s) is Some,
    ensures
        t.objects@.len() > 0,
{
    crate::objects::tree::lemma_name_index(t.objects@, s[0]);
}

proof fn lemma_empty_tree_lookup(t: Tree, q: Seq<Seq<char>>)
    requires
        t.objects@.len() == 0,
    ensures
        lookup(t, q) is None,
{
    if q.len() > 0 {
        assert(name_index(t.objects@, q[0]) == -1);
    }
}

/// Puts the blob `hash` at the path `segs[i..]`, creating the trees on the
/// way that are missing.
fn insert_path(t: &mut Tree, segs: &Vec<String>, i: usize, hash: &String)
    requires
        deep_wf(*old(t)),
        i < segs@.len(),
        !blocked(*old(t), names_view(segs@).subrange(i as int, segs@.len() as int)),
    ensures
        ({
            let s = names_view(segs@).subrange(i as int, segs@.len() as int);
            &&& deep_wf(*final(t))
            &&& lookup(*final(t), s) == Some(hash@)
            &&& forall|q: Seq<Seq<char>>| related(q, s) && q != s ==> (#[trigger] lookup(*final(t), q)) is None
            &&& forall|q: Seq<Seq<char>>| !related(q, s) ==> (#[trigger] lookup(*final(t), q)) == lookup(*old(t), q)
        }),
    decreases segs@.len() - i,
{
    let ghost s = names_view(segs@).subrange(i as int, segs@.len() as int);
    let ghost old_t = *t;
    let seg = segs[i].as_str();
    assert(s[0] == seg@);
    if i == segs.len() - 1 {
        let h = hash.clone();
        let ghost leaf = TreeObject::Blob(h);
        t.add_object(seg, TreeObject::Blob(h));
        proof {
            lemma_deep_wf_insert(old_t, *t, seg@, leaf);
            assert(s.len() == 1);
            assert forall|q: Seq<Seq<char>>| !related(q, s) implies (#[trigger] lookup(*t, q)) == lookup(old_t, q) by {
                if q.len() > 0 && q[0] == seg@ {
                    assert(q.subrange(0, 1) =~= s);
                }
            }
            assert forall|q: Seq<Seq<char>>| related(q, s) && q != s implies (#[trigger] lookup(*t, q)) is None by {
                if q.len() == 1 {
                    if q.len() <= s.len() && s.subrange(0, 1) == q {
                        assert(s.subrange(0, 1) =~= s);
                    }
                    assert(q.subrange(0, 1) =~= q);
                } else if q.len() >= 2 {
                    assert(q.subrange(0, 1)[0] == q[0]);
                    assert(t.children()[q[0]] == leaf);
                }
            }
        }
        return;
    }
    let ghost s2 = names_view(segs@).subrange(i + 1, segs@.len() as int);
    assert(s.drop_first() =~= s2);
    let (p, found) = t.locate(seg);
    let ghost sub_old: Tree;
    let mut sub = if found {
        proof {
            lemma_entries_map_at(t.objects@, p as int);
            crate::objects::tree::lemma_map_after_remove(t.objects@, p as int);
        }
        let entry = t.objects.remove(p);
        match entry.1 {
            TreeObject::Tree(st) => st,
            TreeObject::Blob(_) => {
                proof {
                    assert(s.subrange(0, 1)[0] == s[0]);
                    assert(lookup(old_t, s.subrange(0, 1)) is Some);
                }
                Tree::new()
            },
        }
    } else {
        proof {
            lemma_entries_map_has(t.objects@, seg@);
            if t.children().contains_key(seg@) {
                let k = name_index(t.objects@, seg@);
                if k < p {
                    crate::objects::tree::lemma_lex_irreflexive(utf8(seg@));
                } else if p < t.objects@.len() {
                    if k > p {
                        assert(crate::objects::tree::name_lt(t.objects@[p as int].0@, t.objects@[k].0@));
                        crate::objects::tree::lemma_lex_asymmetric(utf8(seg@), utf8(t.objects@[p as int].0@));
                    } else {
                        crate::objects::tree::lemma_lex_irreflexive(utf8(seg@));
                    }
                }
            }
            assert(t.children().remove(seg@) =~= t.children());
        }
        Tree::new()
    };
    proof {
        sub_old = sub;
        if found {
            lemma_deep_wf_child(old_t, seg@);
            assert forall|k: int| 1 <= k < s2.len() implies (#[trigger] lookup(sub_old, s2.subrange(0, k))) is None by {
                lemma_lookup_step(old_t, s, sub_old, k + 1);
                if lookup(sub_old, s2.subrange(0, k)) is Some {
                    assert(lookup(old_t, s.subrange(0, k + 1)) is Some);
                }
            }
        } else {
            assert forall|k: int| 1 <= k < s2.len() implies (#[trigger] lookup(sub_old, s2.subrange(0, k))) is None by {
                lemma_empty_tree_lookup(sub_old, s2.subrange(0, k));
            }
        }
        assert(t.children() == old_t.children().remove(seg@));
    }
    insert_path(&mut sub, segs, i + 1, hash);
    let ghost sub_new = sub;
    proof {
        lemma_lookup_nonempty(sub_new, s2);
    }
    let ghost mid = *t;
    t.add_object(seg, TreeObject::Tree(sub));
    proof {
        assert(t.children() =~= old_t.children().insert(seg@, TreeObject::Tree(sub_new)));
        lemma_deep_wf_insert(old_t, *t, seg@, TreeObject::Tree(sub_new));
        assert(lookup(*t, s) == lookup(sub_new, s2));
        assert forall|q: Seq<Seq<char>>| related(q, s) && q != s implies (#[trigger] lookup(*t, q)) is None by {
            if q.len() >= 1 {
                if q.len() <= s.len() {
                    assert(s.subrange(0, q.len() as int)[0] == s[0]);
                } else {
                    assert(q.subrange(0, s.len() as int)[0] == q[0]);
                }
                lemma_related_step(q, s);
                if q.len() >= 2 {
                    assert(lookup(*t, q) == lookup(sub_new, q.drop_first()));
                }
            }
        }
        assert forall|q: Seq<Seq<char>>| !related(q, s) implies (#[trigger] lookup(*t, q)) == lookup(old_t, q) by {
            if q.len() >= 1 && q[0] == seg@ {
                lemma_related_step(q, s);
                if q.len() == 1 {
                    assert(s.subrange(0, 1) =~= q);
                } else {
                    assert(lookup(*t, q) == lookup(sub_new, q.drop_first()));
                    if found {
                        assert(lookup(old_t, q) == lookup(sub_old, q.drop_first()));
                    } else {
                        lemma_empty_tree_lookup(sub_old, q.drop_first());
                    }
                }
            }
        }
    }
}

} // verus!

verus! {

/// Cuts a repository-relative path into its segments at `/`.
pub fn split_path(p: &str) -> (r: Vec<String>)
    ensures
        names_view(r@) == path_segments(p@),
{
    let bytes = p.as_bytes();
    let bounds = crate::text::field_bounds(bytes, 47u8);
    let ghost pieces = split_on(utf8(p@), 47);
    let mut out: Vec<String> = Vec::new();
    let mut i: usize = 0;
    proof {
        vstd::utf8::encode_utf8_valid_utf8(p@);
        crate::text::lemma_split_valid(utf8(p@), 47);
    }
    while i < bounds.len()
        invariant
            bytes@ == utf8(p@),
            forall|j: int| 0 <= j < pieces.len() ==> valid_utf8(#[trigger] pieces[j]),
            bounds@.len() == pieces.len(),
            pieces == split_on(bytes@, 47),
            forall|j: int| 0 <= j < bounds@.len() ==> (#[trigger] bounds@[j]).0 <= bounds@[j].1 <= bytes@.len()
                && bytes@.subrange(bounds@[j].0 as int, bounds@[j].1 as int) == pieces[j],
            i <= bounds@.len(),
            out@.len() == i,
            forall|j: int| 0 <= j < i ==> (#[trigger] out@[j])@ == decode_utf8(pieces[j]),
        decreases bounds@.len() - i,
    {
        let (a, b) = bounds[i];
        match crate::text::text_of(crate::text::slice_range(bytes, a, b)) {
            Some(s) => {
                proof {
                    vstd::utf8::encode_utf8_decode_utf8(s@);
                }
                out.push(s);
            },
            None => {
                proof {
                    assert(valid_utf8(pieces[i as int]));
                }
                out.push(String::new());
            },
        }
        i = i + 1;
    }
    proof {
        assert(names_view(out@) =~= path_segments(p@));
    }
    out
}

proof fn lemma_split_nonempty(line: Seq<u8>, sep: u8)
    ensures
        split_on(line, sep).len() >= 1,
{
}

/// Builds the tree of the staged files. `IndexCorrupt` when a file is
/// staged below a path where an earlier entry staged a file. Otherwise every
/// path leads to what the entries staged there last, where no later entry
/// staged a file above or below it.
pub fn build_tree(index: &Index) -> (r: Result<Tree, VcsError>)
    ensures
        r is Err <==> has_conflict(staged_files(index.indices@)),
        r is Err ==> r->Err_0 == VcsError::IndexCorrupt,
        r is Ok ==> deep_wf(r->Ok_0),
        r is Ok ==> forall|q: Seq<Seq<char>>|
            (#[trigger] lookup(r->Ok_0, q)) == staged_lookup(staged_files(index.indices@), index.indices@.len() as int, q),
{
    let ghost files = staged_files(index.indices@);
    let mut all: Vec<Vec<String>> = Vec::new();
    let mut k: usize = 0;
    while k < index.indices.len()
        invariant
            k <= index.indices@.len(),
            all@.len() == k,
            forall|j: int| 0 <= j < k ==> names_view((#[trigger] all@[j])@) == path_segments(index.indices@[j].filename@),
        decreases index.indices@.len() - k,
    {
        let v = split_path(index.indices[k].filename.as_str());
        all.push(v);
        k = k + 1;
    }
    let mut t = Tree::new();
    proof {
        assert forall|q: Seq<Seq<char>>| (#[trigger] lookup(t, q)) == staged_lookup(files, 0, q) by {
            lemma_empty_tree_lookup(t, q);
        }
    }
    let mut k: usize = 0;
    while k < index.indices.len()
        invariant
            k <= index.indices@.len(),
            all@.len() == index.indices@.len(),
            files == staged_files(index.indices@),
            forall|j: int| 0 <= j < index.indices@.len() ==> names_view((#[trigger] all@[j])@) == path_segments(index.indices@[j].filename@),
            deep_wf(t),
            forall|q: Seq<Seq<char>>| (#[trigger] lookup(t, q)) == staged_lookup(files, k as int, q),
            forall|k2: int, j: int|
                0 <= k2 < k && 1 <= j < files[k2].0.len() ==> (#[trigger] staged_lookup(files, k2, #[trigger] files[k2].0.subrange(0, j)))
                    is None,
        decreases index.indices@.len() - k,
    {
        let segs = &all[k];
        let ghost s = files[k as int].0;
        proof {
            assert(files[k as int] == (path_segments(index.indices@[k as int].filename@), index.indices@[k as int].sha1_hash@));
            lemma_split_nonempty(utf8(index.indices@[k as int].filename@), 47);
            assert(names_view(segs@).subrange(0, segs@.len() as int) =~= s);
        }
        if path_blocked(&t, segs, 0) {
            proof {
                let j = choose|j: int| 1 <= j < s.len() && (#[trigger] lookup(t, s.subrange(0, j))) is Some;
                assert(staged_lookup(files, k as int, files[k as int].0.subrange(0, j)) is Some);
                assert(has_conflict(files));
            }
            return Err(VcsError::IndexCorrupt);
        }
        let ghost before = t;
        insert_path(&mut t, segs, 0, &index.indices[k].sha1_hash);
        proof {
            assert forall|q: Seq<Seq<char>>| (#[trigger] lookup(t, q)) == staged_lookup(files, k + 1, q) by {
                if q != s && !related(q, s) {
                    assert(lookup(before, q) == staged_lookup(files, k as int, q));
                }
            }
            assert forall|j: int| 1 <= j < files[k as int].0.len() implies (#[trigger] staged_lookup(files, k as int, #[trigger] files[k as int].0.subrange(0, j))) is None by {
                assert(lookup(before, s.subrange(0, j)) is None);
            }
        }
        k = k + 1;
    }
    proof {
        assert(!has_conflict(files));
    }
    Ok(t)
}

} // verus!

verus! {

/// The subtree that `path` leads to, if it leads to a tree.
pub open spec fn subtree_at(t: Tree, path: Seq<Seq<char>>) -> Option<Tree>
    decreases path.len(),
{
    if path.len() == 0 {
        Some(t)
    } else if !t.children().contains_key(path[0]) {
        None
    } else {
        match t.children()[path[0]] {
            TreeObject::Tree(sub) => subtree_at(sub, path.drop_first()),
            TreeObject::Blob(_) => None,
        }
    }
}

/// Every subtree of `t` with children, below the first `j` children when
/// `j` is given as the count, has its stored form in `out`.
pub open spec fn stores_subtrees(t: Tree, out: Seq<crate::store::StoredObject>) -> bool {
    forall|path: Seq<Seq<char>>|
        #![trigger subtree_at(t, path)]
        subtree_at(t, path) is Some && subtree_at(t, path)->0.objects@.len() > 0 ==> exists|i: int|
            0 <= i < out.len() && crate::store::stored_plain(#[trigger] out[i], tree_encoding(subtree_at(t, path)->0))
}

/// `o` is the stored form of a subtree of `t`.
pub open spec fn from_subtree(t: Tree, o: crate::store::StoredObject) -> bool {
    exists|path: Seq<Seq<char>>|
        #![trigger subtree_at(t, path)]
        subtree_at(t, path) is Some && crate::store::stored_plain(o, tree_encoding(subtree_at(t, path)->0))
}

/// Every object in `out` is the stored form of a subtree of `t`.
pub open spec fn only_subtrees(t: Tree, out: Seq<crate::store::StoredObject>) -> bool {
    forall|i: int| 0 <= i < out.len() ==> #[trigger] from_subtree(t, out[i])
}

/// The subtrees below the first `j` children of `t` are stored in `out`.
pub open spec fn stores_below(t: Tree, out: Seq<crate::store::StoredObject>, j: int) -> bool {
    forall|k: int, path: Seq<Seq<char>>|
        #![trigger subtree_at(t, seq![t.objects@[k].0@] + path)]
        0 <= k < j && subtree_at(t, seq![t.objects@[k].0@] + path) is Some
            && subtree_at(t, seq![t.objects@[k].0@] + path)->0.objects@.len() > 0 ==> exists|i: int|
            0 <= i < out.len() && crate::store::stored_plain(
                #[trigger] out[i],
                tree_encoding(subtree_at(t, seq![t.objects@[k].0@] + path)->0),
            )
}

proof fn lemma_subtree_below(t: Tree, name: Seq<char>, sub: Tree, path: Seq<Seq<char>>)
    requires
        t.children().contains_key(name),
        t.children()[name] == TreeObject::Tree(sub),
    ensures
        subtree_at(t, seq![name] + path) == subtree_at(sub, path),
{
    assert((seq![name] + path).drop_first() =~= path);
}

proof fn lemma_dump_step_tree(
    t: Tree,
    j: int,
    sub: Tree,
    before: Seq<crate::store::StoredObject>,
    added: Seq<crate::store::StoredObject>,
    out: Seq<crate::store::StoredObject>,
)
    requires
        0 <= j < t.objects@.len(),
        t.children().contains_key(t.objects@[j].0@),
        t.children()[t.objects@[j].0@] == TreeObject::Tree(sub),
        stores_below(t, before, j),
        only_subtrees(t, before),
        stores_subtrees(sub, added),
        only_subtrees(sub, added),
        out == before + added,
    ensures
        stores_below(t, out, j + 1),
        only_subtrees(t, out),
{
    let name = t.objects@[j].0@;
    assert forall|i: int| 0 <= i < out.len() implies #[trigger] from_subtree(t, out[i]) by {
        if i >= before.len() {
            assert(out[i] == added[i - before.len()]);
            assert(from_subtree(sub, added[i - before.len()]));
            let inner = choose|path: Seq<Seq<char>>|
                #![trigger subtree_at(sub, path)]
                subtree_at(sub, path) is Some && crate::store::stored_plain(added[i - before.len()], tree_encoding(subtree_at(sub, path)->0));
            lemma_subtree_below(t, name, sub, inner);
            assert(subtree_at(t, seq![name] + inner) is Some && crate::store::stored_plain(out[i], tree_encoding(subtree_at(t, seq![name] + inner)->0)));
        } else {
            assert(out[i] == before[i]);
            assert(from_subtree(t, before[i]));
        }
    }
    assert(only_subtrees(t, out));
    assert forall|k: int, path: Seq<Seq<char>>|
        #![trigger subtree_at(t, seq![t.objects@[k].0@] + path)]
        0 <= k < j + 1 && subtree_at(t, seq![t.objects@[k].0@] + path) is Some
            && subtree_at(t, seq![t.objects@[k].0@] + path)->0.objects@.len() > 0 implies exists|i: int|
            0 <= i < out.len() && crate::store::stored_plain(
                #[trigger] out[i],
                tree_encoding(subtree_at(t, seq![t.objects@[k].0@] + path)->0),
            ) by {
        if k == j {
            lemma_subtree_below(t, name, sub, path);
            let i2 = choose|i: int| 0 <= i < added.len() && crate::store::stored_plain(#[trigger] added[i], tree_encoding(subtree_at(sub, path)->0));
            assert(out[before.len() + i2] == added[i2]);
        } else {
            let i1 = choose|i: int| 0 <= i < before.len() && crate::store::stored_plain(#[trigger] before[i], tree_encoding(subtree_at(t, seq![t.objects@[k].0@] + path)->0));
            assert(out[i1] == before[i1]);
        }
    }
}

proof fn lemma_dump_step_other(t: Tree, j: int, out: Seq<crate::store::StoredObject>)
    requires
        0 <= j < t.objects@.len(),
        t.children().contains_key(t.objects@[j].0@),
        t.children()[t.objects@[j].0@] == t.objects@[j].1,
        match t.objects@[j].1 {
            TreeObject::Tree(sub) => sub.objects@.len() == 0,
            TreeObject::Blob(_) => true,
        },
        stores_below(t, out, j),
    ensures
        stores_below(t, out, j + 1),
{
    let name = t.objects@[j].0@;
    assert forall|path: Seq<Seq<char>>| #![trigger subtree_at(t, seq![name] + path)] subtree_at(t, seq![name] + path) is Some implies subtree_at(t, seq![name] + path)->0.objects@.len() == 0 by {
        assert((seq![name] + path)[0] == name);
        match t.objects@[j].1 {
            TreeObject::Tree(sub) => {
                lemma_subtree_below(t, name, sub, path);
                if path.len() > 0 {
                    lemma_empty_tree_subtree(sub, path);
                }
            },
            TreeObject::Blob(_) => {},
        }
    }
}

/// The stored forms of `tree` and of every subtree below it that has
/// children, the root first; `EmptyTree` when the root has no children.
pub fn dump_tree_recursive(tree: &Tree) -> (r: Result<Vec<crate::store::StoredObject>, VcsError>)
    requires
        deep_wf(*tree),
    ensures
        r is Ok <==> tree.objects@.len() > 0,
        r is Err ==> r->Err_0 == VcsError::EmptyTree,
        r is Ok ==> r->Ok_0@.len() >= 1 && crate::store::stored_plain(r->Ok_0@[0], tree_encoding(*tree)),
        r is Ok ==> stores_subtrees(*tree, r->Ok_0@),
        r is Ok ==> only_subtrees(*tree, r->Ok_0@),
    decreases tree,
{
    proof {
        if tree.objects@.len() > 0 {
            lemma_deep_wf_encodable(*tree);
        }
    }
    let root = match tree.stored() {
        Ok(o) => o,
        Err(e) => {
            return Err(e);
        },
    };
    let mut out: Vec<crate::store::StoredObject> = Vec::new();
    out.push(root);
    proof {
        assert(subtree_at(*tree, Seq::empty()) == Some(*tree));
        assert(from_subtree(*tree, out@[0]));
    }
    let mut j: usize = 0;
    while j < tree.objects.len()
        invariant
            deep_wf(*tree),
            j <= tree.objects@.len(),
            out@.len() >= 1,
            crate::store::stored_plain(out@[0], tree_encoding(*tree)),
            stores_below(*tree, out@, j as int),
            only_subtrees(*tree, out@),
        decreases tree.objects@.len() - j,
    {
        let entry = &tree.objects[j];
        proof {
            lemma_entries_map_at(tree.objects@, j as int);
        }
        let mut handled = false;
        match &entry.1 {
            TreeObject::Tree(sub) => {
                if sub.objects.len() > 0 {
                    proof {
                        assert(decreases_to!(*tree => tree.objects@[j as int]));
                        lemma_deep_wf_child(*tree, entry.0@);
                    }
                    let mut more = match dump_tree_recursive(sub) {
                        Ok(m) => m,
                        Err(e) => {
                            return Err(e);
                        },
                    };
                    let ghost before = out@;
                    let ghost added = more@;
                    out.append(&mut more);
                    proof {
                        lemma_dump_step_tree(*tree, j as int, *sub, before, added, out@);
                    }
                    handled = true;
                }
            },
            TreeObject::Blob(_) => {},
        }
        if !handled {
            proof {
                lemma_dump_step_other(*tree, j as int, out@);
            }
        }
        j = j + 1;
    }
    proof {
        assert forall|path: Seq<Seq<char>>|
            #![trigger subtree_at(*tree, path)]
            subtree_at(*tree, path) is Some && subtree_at(*tree, path)->0.objects@.len() > 0 implies exists|i: int|
                0 <= i < out@.len() && crate::store::stored_plain(#[trigger] out@[i], tree_encoding(subtree_at(*tree, path)->0)) by {
            if path.len() == 0 {
                assert(out@[0] == out@[0]);
            } else {
                lemma_entries_map_has(tree.objects@, path[0]);
                let k = name_index(tree.objects@, path[0]);
                assert(path =~= seq![tree.objects@[k].0@] + path.drop_first());
            }
        }
    }
    Ok(out)
}

proof fn lemma_empty_tree_subtree(t: Tree, path: Seq<Seq<char>>)
    requires
        t.objects@.len() == 0,
        path.len() > 0,
    ensures
        subtree_at(t, path) is None,
{
    assert(name_index(t.objects@, path[0]) == -1);
}

} // verus!

verus! {

pub proof fn lemma_path_segments_nonempty(p: Seq<char>)
    ensures
        path_segments(p).len() >= 1,
{
    lemma_split_nonempty(utf8(p), 47);
}

} // verus!
