//! The status engine: classifies every path of the working tree, the index
//! and HEAD's tree.
use vstd::prelude::*;

use crate::index::index::{lemma_path_index, path_index, Index, IndexEntry};

verus! {

/// The state of one path.
#[derive(Debug, Clone, Copy, PartialEq, Eq, Structural)]
pub enum FileStatus {
    /// In the working tree, not in the index.
    Untracked,
    /// In the working tree and the index, with different contents.
    Unstaged,
    /// Staged as in the working tree, but not as in HEAD.
    Staged,
    /// The same in the working tree, the index and HEAD.
    Committed,
    /// In the index but not the working tree, or in HEAD but not the index.
    Deleted,
}

/// The state of a path from its hash in the working tree, the index and
/// HEAD, each absent or present. Deleted comes before Unstaged, Unstaged
/// before Staged, Staged before Untracked, Untracked before Committed.
pub open spec fn classify(w: Option<Seq<char>>, i: Option<Seq<char>>, h: Option<Seq<char>>) -> FileStatus {
    if (i is Some && w is None) || (h is Some && i is None) {
        FileStatus::Deleted
    } else if w is Some && i is Some && w != i {
        FileStatus::Unstaged
    } else if w is Some && i is Some && h != i {
        FileStatus::Staged
    } else if w is Some && i is None {
        FileStatus::Untracked
    } else {
        FileStatus::Committed
    }
}

/// The hash that a snapshot (path and hash pairs) gives `p`: the first pair for it.
pub open spec fn snap_lookup(s: Seq<(String, String)>, p: Seq<char>) -> Option<Seq<char>>
    decreases s.len(),
{
    if s.len() == 0 {
        None
    } else if s[0].0@ == p {
        Some(s[0].1@)
    } else {
        snap_lookup(s.drop_first(), p)
    }
}

/// The hash that the index stages for `p`: the first entry for it.
pub open spec fn index_lookup(es: Seq<IndexEntry>, p: Seq<char>) -> Option<Seq<char>> {
    let k = path_index(es, p);
    if k < 0 {
        None
    } else {
        Some(es[k].sha1_hash@)
    }
}

/// One path and its state.
#[derive(Debug, Clone)]
pub struct StatusEntry {
    pub path: String,
    pub status: FileStatus,
}

/// The state of a path from its optional hashes.
pub fn classify_file(w: Option<&String>, i: Option<&String>, h: Option<&String>) -> (r: FileStatus)
    ensures
        r == classify(
            match w {
                Some(x) => Some(x@),
                None => None,
            },
            match i {
                Some(x) => Some(x@),
                None => None,
            },
            match h {
                Some(x) => Some(x@),
                None => None,
            },
        ),
{
    let wi_eq = match (w, i) {
        (Some(a), Some(b)) => crate::text::str_eq(a.as_str(), b.as_str()),
        _ => false,
    };
    let hi_eq = match (h, i) {
        (Some(a), Some(b)) => crate::text::str_eq(a.as_str(), b.as_str()),
        (None, None) => true,
        _ => false,
    };
    if (i.is_some() && w.is_none()) || (h.is_some() && i.is_none()) {
        FileStatus::Deleted
    } else if w.is_some() && i.is_some() && !wi_eq {
        FileStatus::Unstaged
    } else if w.is_some() && i.is_some() && !hi_eq {
        FileStatus::Staged
    } else if w.is_some() && i.is_none() {
        FileStatus::Untracked
    } else {
        FileStatus::Committed
    }
}

/// The hash that a snapshot gives `p`.
pub fn find_in_snapshot<'a>(s: &'a Vec<(String, String)>, p: &str) -> (r: Option<&'a String>)
    ensures
        match r {
            Some(x) => snap_lookup(s@, p@) == Some(x@),
            None => snap_lookup(s@, p@) is None,
        },
{
    let mut k: usize = 0;
    assert(s@.subrange(0, s@.len() as int) =~= s@);
    while k < s.len()
        invariant
            k <= s@.len(),
            snap_lookup(s@, p@) == snap_lookup(s@.subrange(k as int, s@.len() as int), p@),
        decreases s@.len() - k,
    {
        assert(s@.subrange(k as int, s@.len() as int).drop_first() =~= s@.subrange(k + 1, s@.len() as int));
        if crate::text::str_eq(s[k].0.as_str(), p) {
            return Some(&s[k].1);
        }
        k = k + 1;
    }
    None
}

/// The hash that the index stages for `p`.
pub fn find_in_index<'a>(index: &'a Index, p: &str) -> (r: Option<&'a String>)
    ensures
        match r {
            Some(x) => index_lookup(index.indices@, p@) == Some(x@),
            None => index_lookup(index.indices@, p@) is None,
        },
{
    let mut k: usize = 0;
    proof {
        lemma_path_index(index.indices@, p@);
    }
    while k < index.indices.len()
        invariant
            k <= index.indices@.len(),
            -1 <= path_index(index.indices@, p@) < index.indices@.len(),
            path_index(index.indices@, p@) >= 0 ==> index.indices@[path_index(index.indices@, p@)].filename@ == p@,
            forall|j: int| 0 <= j < index.indices@.len() && (path_index(index.indices@, p@) < 0 || j < path_index(index.indices@, p@)) ==> (#[trigger] index.indices@[j]).filename@ != p@,
            forall|j: int| 0 <= j < k ==> (#[trigger] index.indices@[j]).filename@ != p@,
        decreases index.indices@.len() - k,
    {
        if crate::text::str_eq(index.indices[k].filename.as_str(), p) {
            return Some(&index.indices[k].sha1_hash);
        }
        k = k + 1;
    }
    None
}

/// Whether `p` is in a snapshot.
pub open spec fn in_snapshot(s: Seq<(String, String)>, p: Seq<char>) -> bool {
    exists|k: int| 0 <= k < s.len() && (#[trigger] s[k]).0@ == p
}

/// Whether `p` is staged.
pub open spec fn in_index(es: Seq<IndexEntry>, p: Seq<char>) -> bool {
    exists|k: int| 0 <= k < es.len() && (#[trigger] es[k]).filename@ == p
}

/// Whether some entry is for `p`.
pub open spec fn covered(out: Seq<StatusEntry>, p: Seq<char>) -> bool {
    exists|k: int| 0 <= k < out.len() && (#[trigger] out[k]).path@ == p
}

fn seen(out: &Vec<StatusEntry>, p: &str) -> (r: bool)
    ensures
        r == covered(out@, p@),
{
    let mut k: usize = 0;
    while k < out.len()
        invariant
            k <= out@.len(),
            forall|j: int| 0 <= j < k ==> (#[trigger] out@[j]).path@ != p@,
        decreases out@.len() - k,
    {
        if crate::text::str_eq(out[k].path.as_str(), p) {
            return true;
        }
        k = k + 1;
    }
    false
}

/// The state of a path given the three snapshots.
pub open spec fn status_of(work: Seq<(String, String)>, index: Seq<IndexEntry>, head: Seq<(String, String)>, p: Seq<char>) -> FileStatus {
    classify(snap_lookup(work, p), index_lookup(index, p), snap_lookup(head, p))
}

/// What `compute_status` promises of a list of entries so far.
pub open spec fn status_ok(out: Seq<StatusEntry>, work: Seq<(String, String)>, index: Seq<IndexEntry>, head: Seq<(String, String)>) -> bool {
    &&& forall|k: int| 0 <= k < out.len() ==> (#[trigger] out[k]).status == status_of(work, index, head, out[k].path@)
    &&& forall|k: int| 0 <= k < out.len() ==> in_snapshot(work, (#[trigger] out[k]).path@) || in_index(index, out[k].path@) || in_snapshot(head, out[k].path@)
    &&& forall|j: int, k: int| 0 <= j < k < out.len() ==> (#[trigger] out[j]).path@ != (#[trigger] out[k]).path@
}

fn note_path(out: &mut Vec<StatusEntry>, p: &String, work: &Vec<(String, String)>, index: &Index, head: &Vec<(String, String)>)
    requires
        status_ok(old(out)@, work@, index.indices@, head@),
        in_snapshot(work@, p@) || in_index(index.indices@, p@) || in_snapshot(head@, p@),
    ensures
        status_ok(final(out)@, work@, index.indices@, head@),
        covered(final(out)@, p@),
        forall|q: Seq<char>| covered(old(out)@, q) ==> #[trigger] covered(final(out)@, q),
{
    if seen(out, p.as_str()) {
        return;
    }
    let st = classify_file(find_in_snapshot(work, p.as_str()), find_in_index(index, p.as_str()), find_in_snapshot(head, p.as_str()));
    let ghost before = out@;
    out.push(StatusEntry { path: p.clone(), status: st });
    proof {
        assert(out@[before.len() as int].path@ == p@);
        assert forall|q: Seq<char>| covered(before, q) implies #[trigger] covered(out@, q) by {
            let k = choose|k: int| 0 <= k < before.len() && (#[trigger] before[k]).path@ == q;
            assert(out@[k] == before[k]);
        }
        assert forall|j: int, k: int| 0 <= j < k < out@.len() implies (#[trigger] out@[j]).path@ != (#[trigger] out@[k]).path@ by {
            if k < before.len() {
                assert(out@[j] == before[j] && out@[k] == before[k]);
            } else {
                assert(out@[j] == before[j]);
            }
        }
        assert forall|k: int| 0 <= k < out@.len() implies (#[trigger] out@[k]).status == status_of(work@, index.indices@, head@, out@[k].path@) by {
            if k < before.len() {
                assert(out@[k] == before[k]);
            }
        }
        assert forall|k: int| 0 <= k < out@.len() implies in_snapshot(work@, (#[trigger] out@[k]).path@) || in_index(index.indices@, out@[k].path@) || in_snapshot(head@, out@[k].path@) by {
            if k < before.len() {
                assert(out@[k] == before[k]);
            }
        }
    }
}

/// The state of every path that the working tree, the index or HEAD's tree
/// holds, each path once. The snapshots give each path's content hash.
pub fn compute_status(work: &Vec<(String, String)>, index: &Index, head: &Vec<(String, String)>) -> (r: Vec<StatusEntry>)
    ensures
        status_ok(r@, work@, index.indices@, head@),
        forall|p: Seq<char>| in_snapshot(work@, p) || in_index(index.indices@, p) || in_snapshot(head@, p) ==> #[trigger] covered(r@, p),
{
    let mut out: Vec<StatusEntry> = Vec::new();
    let mut k: usize = 0;
    while k < work.len()
        invariant
            k <= work@.len(),
            status_ok(out@, work@, index.indices@, head@),
            forall|j: int| 0 <= j < k ==> covered(out@, (#[trigger] work@[j]).0@),
        decreases work@.len() - k,
    {
        proof {
            assert(in_snapshot(work@, work@[k as int].0@));
        }
        note_path(&mut out, &work[k].0, work, index, head);
        k = k + 1;
    }
    let mut k: usize = 0;
    while k < index.indices.len()
        invariant
            k <= index.indices@.len(),
            status_ok(out@, work@, index.indices@, head@),
            forall|j: int| 0 <= j < work@.len() ==> covered(out@, (#[trigger] work@[j]).0@),
            forall|j: int| 0 <= j < k ==> covered(out@, (#[trigger] index.indices@[j]).filename@),
        decreases index.indices@.len() - k,
    {
        proof {
            assert(in_index(index.indices@, index.indices@[k as int].filename@));
        }
        note_path(&mut out, &index.indices[k].filename, work, index, head);
        k = k + 1;
    }
    let mut k: usize = 0;
    while k < head.len()
        invariant
            k <= head@.len(),
            status_ok(out@, work@, index.indices@, head@),
            forall|j: int| 0 <= j < work@.len() ==> covered(out@, (#[trigger] work@[j]).0@),
            forall|j: int| 0 <= j < index.indices@.len() ==> covered(out@, (#[trigger] index.indices@[j]).filename@),
            forall|j: int| 0 <= j < k ==> covered(out@, (#[trigger] head@[j]).0@),
        decreases head@.len() - k,
    {
        proof {
            assert(in_snapshot(head@, head@[k as int].0@));
        }
        note_path(&mut out, &head[k].0, work, index, head);
        k = k + 1;
    }
    proof {
        assert forall|p: Seq<char>| in_snapshot(work@, p) || in_index(index.indices@, p) || in_snapshot(head@, p) implies #[trigger] covered(out@, p) by {
            if in_snapshot(work@, p) {
                let j = choose|j: int| 0 <= j < work@.len() && (#[trigger] work@[j]).0@ == p;
                assert(covered(out@, work@[j].0@));
            } else if in_index(index.indices@, p) {
                let j = choose|j: int| 0 <= j < index.indices@.len() && (#[trigger] index.indices@[j]).filename@ == p;
                assert(covered(out@, index.indices@[j].filename@));
            } else {
                let j = choose|j: int| 0 <= j < head@.len() && (#[trigger] head@[j]).0@ == p;
                assert(covered(out@, head@[j].0@));
            }
        }
    }
    out
}

} // verus!

verus! {

/// The paths of the entries in state `s`, in order.
pub open spec fn paths_in(entries: Seq<StatusEntry>, s: FileStatus) -> Seq<Seq<char>>
    decreases entries.len(),
{
    if entries.len() == 0 {
        Seq::empty()
    } else {
        paths_in(entries.drop_last(), s) + if entries.last().status == s {
            seq![entries.last().path@]
        } else {
            Seq::empty()
        }
    }
}

/// The paths of the entries in state `s`, in order.
pub fn select_status(entries: &Vec<StatusEntry>, s: FileStatus) -> (r: Vec<String>)
    ensures
        r@.map_values(|p: String| p@) == paths_in(entries@, s),
{
    let mut out: Vec<String> = Vec::new();
    let mut k: usize = 0;
    while k < entries.len()
        invariant
            k <= entries@.len(),
            out@.map_values(|p: String| p@) == paths_in(entries@.subrange(0, k as int), s),
        decreases entries@.len() - k,
    {
        let ghost before = out@;
        proof {
            assert(entries@.subrange(0, k + 1).drop_last() =~= entries@.subrange(0, k as int));
        }
        if entries[k].status == s {
            out.push(entries[k].path.clone());
            proof {
                assert(out@.map_values(|p: String| p@) =~= before.map_values(|p: String| p@).push(entries@[k as int].path@));
            }
        } else {
            proof {
                assert(paths_in(entries@.subrange(0, k + 1), s) =~= paths_in(entries@.subrange(0, k as int), s));
            }
        }
        k = k + 1;
    }
    proof {
        assert(entries@.subrange(0, entries@.len() as int) =~= entries@);
    }
    out
}

} // verus!
