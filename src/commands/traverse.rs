//! Expanding a stored tree into the files it holds, one level at a time:
//! subtrees come back as hashes to load.
use vstd::prelude::*;
use vstd::utf8::valid_utf8;

use crate::error::VcsError;
use crate::hash::generate_hash;
use crate::objects::tree::{encodable, encode_tree, subtree_hash, Tree, TreeObject};
use crate::text::utf8;

verus! {

/// The bytes of `name` joined below `prefix` with a `/`; just `name` at the root.
pub open spec fn joined(prefix: Seq<char>, name: Seq<char>) -> Seq<u8> {
    if prefix.len() == 0 {
        utf8(name)
    } else {
        utf8(prefix) + seq![47u8] + utf8(name)
    }
}

/// Joins `name` below the directory path `prefix`.
pub fn join_path(prefix: &str, name: &str) -> (r: String)
    ensures
        utf8(r@) == joined(prefix@, name@),
{
    let mut out: Vec<u8> = Vec::new();
    if !prefix.is_empty() {
        crate::text::push_str(&mut out, prefix);
        out.push(47u8);
    }
    crate::text::push_str(&mut out, name);
    proof {
        vstd::utf8::encode_utf8_valid_utf8(prefix@);
        vstd::utf8::encode_utf8_valid_utf8(name@);
        if prefix@.len() > 0 {
            let slash = seq![47u8];
            assert(vstd::utf8::length_of_first_scalar(slash) == 1);
            assert(vstd::utf8::valid_first_scalar(slash));
            assert(vstd::utf8::pop_first_scalar(slash) =~= Seq::<u8>::empty());
            assert(valid_utf8(vstd::utf8::pop_first_scalar(slash)));
            assert(valid_utf8(slash));
            vstd::utf8::valid_utf8_concat(utf8(prefix@), slash);
            vstd::utf8::valid_utf8_concat(utf8(prefix@) + slash, utf8(name@));
            assert(out@ =~= utf8(prefix@) + slash + utf8(name@));
        } else {
            assert(out@ =~= utf8(name@));
        }
    }
    match crate::text::text_of(out.as_slice()) {
        Some(s) => s,
        None => String::new(),
    }
}

/// The files of a tree's level: for each blob child, its joined path and hash.
pub open spec fn level_files(es: Seq<(String, TreeObject)>, prefix: Seq<char>) -> Seq<(Seq<u8>, Seq<char>)>
    decreases es.len(),
{
    if es.len() == 0 {
        Seq::empty()
    } else {
        let e = es.last();
        level_files(es.drop_last(), prefix) + match e.1 {
            TreeObject::Blob(h) => seq![(joined(prefix, e.0@), h@)],
            TreeObject::Tree(_) => Seq::empty(),
        }
    }
}

/// The subtrees of a tree's level: for each, its joined path and hash.
pub open spec fn level_dirs(es: Seq<(String, TreeObject)>, prefix: Seq<char>) -> Seq<(Seq<u8>, Seq<char>)>
    decreases es.len(),
{
    if es.len() == 0 {
        Seq::empty()
    } else {
        let e = es.last();
        level_dirs(es.drop_last(), prefix) + match e.1 {
            TreeObject::Tree(sub) => seq![(joined(prefix, e.0@), subtree_hash(sub))],
            TreeObject::Blob(_) => Seq::empty(),
        }
    }
}

/// Path and hash pairs as bytes and text.
pub open spec fn pairs_view(s: Seq<(String, String)>) -> Seq<(Seq<u8>, Seq<char>)> {
    s.map_values(|p: (String, String)| (utf8(p.0@), p.1@))
}

/// Every subtree of the level that has children can be encoded, so that
/// it can be named by its hash.
pub open spec fn level_ok(es: Seq<(String, TreeObject)>) -> bool {
    forall|i: int|
        0 <= i < es.len() ==> match #[trigger] es[i].1 {
            TreeObject::Tree(sub) => sub.objects@.len() > 0 ==> encodable(sub),
            TreeObject::Blob(_) => true,
        }
}

/// Appends to `files` the blobs of `tree`'s level, and to `pending` its
/// subtrees, each with its path below `current_path`. `EmptyTree`, with
/// both lists untouched, when a subtree with children cannot be encoded.
pub fn traverse_head_tree(
    files: &mut Vec<(String, String)>,
    pending: &mut Vec<(String, String)>,
    current_path: &str,
    tree: &Tree,
) -> (r: Result<(), VcsError>)
    ensures
        r is Ok <==> level_ok(tree.objects@),
        r is Ok ==> pairs_view(final(files)@) == pairs_view(old(files)@) + level_files(tree.objects@, current_path@),
        r is Ok ==> pairs_view(final(pending)@) == pairs_view(old(pending)@) + level_dirs(tree.objects@, current_path@),
        r is Err ==> r->Err_0 == VcsError::EmptyTree && final(files)@ == old(files)@ && final(pending)@ == old(pending)@,
{
    let mut j: usize = 0;
    let mut fs: Vec<(String, String)> = Vec::new();
    let mut ps: Vec<(String, String)> = Vec::new();
    proof {
        assert(tree.objects@.subrange(0, 0) =~= Seq::<(String, TreeObject)>::empty());
        assert(pairs_view(fs@) =~= Seq::<(Seq<u8>, Seq<char>)>::empty());
        assert(pairs_view(ps@) =~= Seq::<(Seq<u8>, Seq<char>)>::empty());
    }
    while j < tree.objects.len()
        invariant
            j <= tree.objects@.len(),
            pairs_view(fs@) == level_files(tree.objects@.subrange(0, j as int), current_path@),
            pairs_view(ps@) == level_dirs(tree.objects@.subrange(0, j as int), current_path@),
            forall|i: int|
                0 <= i < j ==> match #[trigger] tree.objects@[i].1 {
                    TreeObject::Tree(sub) => sub.objects@.len() > 0 ==> encodable(sub),
                    TreeObject::Blob(_) => true,
                },
        decreases tree.objects@.len() - j,
    {
        let entry = &tree.objects[j];
        let path = join_path(current_path, entry.0.as_str());
        let ghost fb = fs@;
        let ghost pb = ps@;
        proof {
            assert(tree.objects@.subrange(0, j + 1).drop_last() =~= tree.objects@.subrange(0, j as int));
        }
        match &entry.1 {
            TreeObject::Blob(h) => {
                fs.push((path, h.clone()));
                proof {
                    assert(pairs_view(fs@) =~= pairs_view(fb).push((utf8(path@), h@)));
                }
            },
            TreeObject::Tree(sub) => {
                let hash = if sub.objects.len() == 0 {
                    sub.sha1_hash.clone()
                } else {
                    match encode_tree(sub) {
                        Ok(enc) => generate_hash(enc.as_slice()),
                        Err(e) => {
                            proof {
                                assert(match tree.objects@[j as int].1 {
                                    TreeObject::Tree(s2) => s2.objects@.len() > 0 && !encodable(s2),
                                    TreeObject::Blob(_) => false,
                                });
                            }
                            return Err(e);
                        },
                    }
                };
                ps.push((path, hash));
                proof {
                    assert(pairs_view(ps@) =~= pairs_view(pb).push((utf8(path@), hash@)));
                }
            },
        }
        j = j + 1;
    }
    proof {
        assert(tree.objects@.subrange(0, j as int) =~= tree.objects@);
    }
    let ghost f0 = files@;
    let ghost q0 = pending@;
    let ghost fsv = fs@;
    let ghost psv = ps@;
    files.append(&mut fs);
    pending.append(&mut ps);
    proof {
        assert(pairs_view(files@) =~= pairs_view(f0) + pairs_view(fsv));
        assert(pairs_view(pending@) =~= pairs_view(q0) + pairs_view(psv));
    }
    Ok(())
}

} // verus!
