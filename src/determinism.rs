//! Tree determinism: the tree of the staged files does not depend on the
//! order in which they were staged.
use vstd::prelude::*;

use crate::builder::{deep_wf, lemma_deep_wf_child, lookup, related, staged_files, staged_lookup};
use crate::index::index::IndexEntry;
use crate::objects::tree::{
    child_hash, child_mode, lemma_body_line, lemma_entries_map_at, lemma_entries_map_has, lemma_lex_asymmetric,
    lemma_lex_irreflexive, lemma_lex_transitive, name_index, name_lt, sorted_entries, tree_body, tree_encoding, Tree, TreeObject,
};
use crate::text::utf8;

verus! {

proof fn lemma_has_leaf(t: Tree)
    requires
        deep_wf(t),
        t.objects@.len() > 0,
    ensures
        exists|q: Seq<Seq<char>>| (#[trigger] lookup(t, q)) is Some,
    decreases t,
{
    let n = t.objects@[0].0@;
    lemma_entries_map_at(t.objects@, 0);
    match t.objects@[0].1 {
        TreeObject::Blob(_) => {
            assert(lookup(t, seq![n]) is Some);
        },
        TreeObject::Tree(sub) => {
            assert(decreases_to!(t => t.objects@[0]));
            lemma_has_leaf(sub);
            let q2 = choose|q: Seq<Seq<char>>| (#[trigger] lookup(sub, q)) is Some;
            let q = seq![n] + q2;
            assert(q.drop_first() =~= q2);
            assert(lookup(t, q) is Some);
        },
    }
}

/// Whether some child is named `n`.
pub open spec fn has_name(es: Seq<(String, TreeObject)>, n: Seq<char>) -> bool {
    exists|i: int| 0 <= i < es.len() && #[trigger] es[i].0@ == n
}

/// Two sorted child lists with the same names have the same names in the
/// same places.
proof fn lemma_sorted_same_names(a: Seq<(String, TreeObject)>, b: Seq<(String, TreeObject)>)
    requires
        sorted_entries(a),
        sorted_entries(b),
        forall|n: Seq<char>| #![trigger has_name(a, n)] #![trigger has_name(b, n)] has_name(a, n) <==> has_name(b, n),
    ensures
        a.len() == b.len(),
        forall|i: int| 0 <= i < a.len() ==> (#[trigger] a[i]).0@ == b[i].0@,
    decreases a.len(),
{
    if a.len() == 0 {
        if b.len() > 0 {
            assert(has_name(b, b[0].0@));
        }
    } else if b.len() == 0 {
        assert(has_name(a, a[0].0@));
    } else {
        assert(has_name(a, a[0].0@));
        assert(has_name(b, a[0].0@));
        let j = choose|j: int| 0 <= j < b.len() && #[trigger] b[j].0@ == a[0].0@;
        assert(has_name(b, b[0].0@));
        assert(has_name(a, b[0].0@));
        let i = choose|i: int| 0 <= i < a.len() && #[trigger] a[i].0@ == b[0].0@;
        if j > 0 {
            assert(name_lt(b[0].0@, b[j].0@));
            if i > 0 {
                assert(name_lt(a[0].0@, a[i].0@));
                lemma_lex_asymmetric(utf8(a[0].0@), utf8(b[0].0@));
            } else {
                lemma_lex_irreflexive(utf8(a[0].0@));
            }
        }
        assert(a[0].0@ == b[0].0@);
        let a2 = a.drop_first();
        let b2 = b.drop_first();
        assert forall|n: Seq<char>| #![trigger has_name(a2, n)] #![trigger has_name(b2, n)] has_name(a2, n) <==> has_name(b2, n) by {
            if has_name(a2, n) {
                let i = choose|i: int| 0 <= i < a2.len() && #[trigger] a2[i].0@ == n;
                assert(a[i + 1].0@ == n);
                assert(name_lt(a[0].0@, a[i + 1].0@));
                assert(has_name(a, n));
                assert(has_name(b, n));
                let j = choose|j: int| 0 <= j < b.len() && #[trigger] b[j].0@ == n;
                if j == 0 {
                    lemma_lex_irreflexive(utf8(n));
                }
                assert(b2[j - 1].0@ == n);
            }
            if has_name(b2, n) {
                let j = choose|j: int| 0 <= j < b2.len() && #[trigger] b2[j].0@ == n;
                assert(b[j + 1].0@ == n);
                assert(name_lt(b[0].0@, b[j + 1].0@));
                assert(has_name(b, n));
                assert(has_name(a, n));
                let i = choose|i: int| 0 <= i < a.len() && #[trigger] a[i].0@ == n;
                if i == 0 {
                    lemma_lex_irreflexive(utf8(n));
                }
                assert(a2[i - 1].0@ == n);
            }
        }
        assert(sorted_entries(a2)) by {
            assert forall|x: int, y: int| 0 <= x < y < a2.len() implies name_lt(#[trigger] a2[x].0@, #[trigger] a2[y].0@) by {
                assert(a2[x] == a[x + 1] && a2[y] == a[y + 1]);
            }
        }
        assert(sorted_entries(b2)) by {
            assert forall|x: int, y: int| 0 <= x < y < b2.len() implies name_lt(#[trigger] b2[x].0@, #[trigger] b2[y].0@) by {
                assert(b2[x] == b[x + 1] && b2[y] == b[y + 1]);
            }
        }
        lemma_sorted_same_names(a2, b2);
        assert forall|i: int| 0 <= i < a.len() implies (#[trigger] a[i]).0@ == b[i].0@ by {
            if i > 0 {
                assert(a[i] == a2[i - 1] && b[i] == b2[i - 1]);
            }
        }
    }
}

} // verus!

verus! {

proof fn lemma_name_leaf(t: Tree, n: Seq<char>)
    requires
        deep_wf(t),
        t.children().contains_key(n),
    ensures
        exists|q: Seq<Seq<char>>| q.len() > 0 && q[0] == n && (#[trigger] lookup(t, q)) is Some,
{
    lemma_deep_wf_child(t, n);
    match t.children()[n] {
        TreeObject::Blob(_) => {
            let q = seq![n];
            assert(q[0] == n && lookup(t, q) is Some);
        },
        TreeObject::Tree(sub) => {
            lemma_has_leaf(sub);
            let q2 = choose|q: Seq<Seq<char>>| (#[trigger] lookup(sub, q)) is Some;
            let q = seq![n] + q2;
            assert(q.drop_first() =~= q2);
            assert(q[0] == n && lookup(t, q) is Some);
        },
    }
}

proof fn lemma_bodies_equal(t1: Tree, t2: Tree, k: int)
    requires
        0 <= k <= t1.objects@.len(),
        t1.objects@.len() == t2.objects@.len(),
        forall|i: int|
            0 <= i < t1.objects@.len() ==> (#[trigger] t1.objects@[i]).0@ == t2.objects@[i].0@ && child_mode(t1.objects@[i].1)
                == child_mode(t2.objects@[i].1) && child_hash(t1.objects@[i].1) == child_hash(t2.objects@[i].1),
    ensures
        tree_body(t1, k) == tree_body(t2, k),
    decreases k,
{
    if k > 0 {
        lemma_bodies_equal(t1, t2, k - 1);
        lemma_body_line(t1, k);
        lemma_body_line(t2, k);
        assert(t1.objects@[k - 1].0@ == t2.objects@[k - 1].0@);
    }
}

/// Two trees, in order at every level and without empty subtrees, in which
/// every path leads to the same blob, have the same children lines.
pub proof fn lemma_lookup_ext(t1: Tree, t2: Tree)
    requires
        deep_wf(t1),
        deep_wf(t2),
        forall|q: Seq<Seq<char>>| #[trigger] lookup(t1, q) == lookup(t2, q),
    ensures
        t1.objects@.len() == t2.objects@.len(),
        tree_body(t1, t1.objects@.len() as int) == tree_body(t2, t2.objects@.len() as int),
    decreases t1,
{
    let a = t1.objects@;
    let b = t2.objects@;
    assert forall|n: Seq<char>| #![trigger has_name(a, n)] #![trigger has_name(b, n)] has_name(a, n) <==> has_name(b, n) by {
        lemma_entries_map_has(a, n);
        lemma_entries_map_has(b, n);
        if has_name(a, n) {
            lemma_name_leaf(t1, n);
            let q = choose|q: Seq<Seq<char>>| q.len() > 0 && q[0] == n && (#[trigger] lookup(t1, q)) is Some;
            assert(lookup(t2, q) is Some);
        }
        if has_name(b, n) {
            lemma_name_leaf(t2, n);
            let q = choose|q: Seq<Seq<char>>| q.len() > 0 && q[0] == n && (#[trigger] lookup(t2, q)) is Some;
            assert(lookup(t1, q) is Some);
        }
    }
    lemma_sorted_same_names(a, b);
    assert forall|i: int|
        0 <= i < a.len() implies (#[trigger] a[i]).0@ == b[i].0@ && child_mode(a[i].1) == child_mode(b[i].1) && child_hash(a[i].1)
            == child_hash(b[i].1) by {
        let n = a[i].0@;
        lemma_entries_map_at(a, i);
        lemma_entries_map_at(b, i);
        let one = seq![n];
        assert(one[0] == n && one.len() == 1);
        assert(lookup(t1, one) == lookup(t2, one));
        match a[i].1 {
            TreeObject::Blob(h1) => {
                match b[i].1 {
                    TreeObject::Blob(h2) => {},
                    TreeObject::Tree(_) => {},
                }
            },
            TreeObject::Tree(sub1) => {
                match b[i].1 {
                    TreeObject::Blob(_) => {},
                    TreeObject::Tree(sub2) => {
                        lemma_deep_wf_child(t1, n);
                        lemma_deep_wf_child(t2, n);
                        assert forall|q: Seq<Seq<char>>| #[trigger] lookup(sub1, q) == lookup(sub2, q) by {
                            if q.len() > 0 {
                                let p = seq![n] + q;
                                assert(p.drop_first() =~= q);
                                assert(p[0] == n);
                                assert(lookup(t1, p) == lookup(sub1, q));
                                assert(lookup(t2, p) == lookup(sub2, q));
                            }
                        }
                        assert(decreases_to!(t1 => t1.objects@[i]));
                        lemma_lookup_ext(sub1, sub2);
                    },
                }
            },
        }
    }
    lemma_bodies_equal(t1, t2, a.len() as int);
}

} // verus!

verus! {

/// No staged path equals, or lies above or below, another.
pub open spec fn unrelated_paths(files: Seq<(Seq<Seq<char>>, Seq<char>)>) -> bool {
    forall|i: int, j: int|
        0 <= i < files.len() && 0 <= j < files.len() && i != j ==> !related(#[trigger] files[i].0, #[trigger] files[j].0)
}

proof fn lemma_related_self(s: Seq<Seq<char>>)
    ensures
        related(s, s),
{
    assert(s.subrange(0, s.len() as int) =~= s);
}

proof fn lemma_staged_unrelated(files: Seq<(Seq<Seq<char>>, Seq<char>)>, n: int, q: Seq<Seq<char>>)
    requires
        unrelated_paths(files),
        0 <= n <= files.len(),
    ensures
        forall|k: int| 0 <= k < n && (#[trigger] files[k]).0 == q ==> staged_lookup(files, n, q) == Some(files[k].1),
        (forall|k: int| 0 <= k < n ==> (#[trigger] files[k]).0 != q) ==> staged_lookup(files, n, q) is None,
    decreases n,
{
    if n > 0 {
        lemma_staged_unrelated(files, n - 1, q);
        let p = files[n - 1].0;
        if q == p {
            assert forall|k: int| 0 <= k < n && (#[trigger] files[k]).0 == q implies staged_lookup(files, n, q) == Some(files[k].1) by {
                if k < n - 1 {
                    lemma_related_self(p);
                    assert(!related(files[k].0, files[n - 1].0));
                }
            }
        } else if related(q, p) {
            assert forall|k: int| 0 <= k < n implies (#[trigger] files[k]).0 != q by {
                if k < n - 1 && files[k].0 == q {
                    assert(!related(files[k].0, files[n - 1].0));
                }
            }
        }
    }
}

/// Building the trees of two indexes that stage the same files in any
/// order gives trees with the same encoding, so the same root hash. Each
/// index stages every path once and none above or below another.
pub proof fn lemma_tree_determinism(e1: Seq<IndexEntry>, e2: Seq<IndexEntry>, t1: Tree, t2: Tree)
    requires
        unrelated_paths(staged_files(e1)),
        unrelated_paths(staged_files(e2)),
        forall|x: (Seq<Seq<char>>, Seq<char>)| staged_files(e1).contains(x) <==> staged_files(e2).contains(x),
        deep_wf(t1),
        deep_wf(t2),
        forall|q: Seq<Seq<char>>| #[trigger] lookup(t1, q) == staged_lookup(staged_files(e1), e1.len() as int, q),
        forall|q: Seq<Seq<char>>| #[trigger] lookup(t2, q) == staged_lookup(staged_files(e2), e2.len() as int, q),
    ensures
        tree_encoding(t1) == tree_encoding(t2),
{
    let f1 = staged_files(e1);
    let f2 = staged_files(e2);
    assert forall|q: Seq<Seq<char>>| #[trigger] lookup(t1, q) == lookup(t2, q) by {
        lemma_staged_unrelated(f1, f1.len() as int, q);
        lemma_staged_unrelated(f2, f2.len() as int, q);
        if exists|k: int| 0 <= k < f1.len() && (#[trigger] f1[k]).0 == q {
            let k = choose|k: int| 0 <= k < f1.len() && (#[trigger] f1[k]).0 == q;
            assert(f1.contains(f1[k]));
            assert(f2.contains(f1[k]));
            let j = choose|j: int| 0 <= j < f2.len() && f2[j] == f1[k];
            assert(f2[j].0 == q);
        } else {
            assert forall|j: int| 0 <= j < f2.len() implies (#[trigger] f2[j]).0 != q by {
                assert(f2.contains(f2[j]));
                assert(f1.contains(f2[j]));
                let k = choose|k: int| 0 <= k < f1.len() && f1[k] == f2[j];
                assert(f1[k].0 == f2[j].0);
            }
        }
    }
    lemma_lookup_ext(t1, t2);
}

} // verus!

verus! {

/// Two trees kept in order whose children map the same names to the same
/// objects have the same encoding, whatever the order in which the children
/// were added.
pub proof fn lemma_children_determine_encoding(t1: Tree, t2: Tree)
    requires
        t1.wf(),
        t2.wf(),
        t1.children() == t2.children(),
    ensures
        tree_encoding(t1) == tree_encoding(t2),
{
    let a = t1.objects@;
    let b = t2.objects@;
    assert forall|n: Seq<char>| #![trigger has_name(a, n)] #![trigger has_name(b, n)] has_name(a, n) <==> has_name(b, n) by {
        lemma_entries_map_has(a, n);
        lemma_entries_map_has(b, n);
    }
    lemma_sorted_same_names(a, b);
    assert forall|i: int|
        0 <= i < a.len() implies (#[trigger] a[i]).0@ == b[i].0@ && child_mode(a[i].1) == child_mode(b[i].1) && child_hash(a[i].1)
            == child_hash(b[i].1) by {
        lemma_entries_map_at(a, i);
        lemma_entries_map_at(b, i);
    }
    lemma_bodies_equal(t1, t2, a.len() as int);
}

/// Committing two indexes that stage the same files in any order gives the
/// same root tree: the first object each commit returns has the same name.
/// Each index stages every path once and none above or below another.
pub proof fn lemma_commit_tree_determinism(
    e1: Seq<IndexEntry>,
    e2: Seq<IndexEntry>,
    t1: Tree,
    t2: Tree,
    o1: crate::commands::commit::CommitOutcome,
    o2: crate::commands::commit::CommitOutcome,
    head1: Seq<char>,
    head2: Seq<char>,
    user: Seq<char>,
    email: Seq<char>,
    now1: nat,
    now2: nat,
    msg1: Seq<char>,
    msg2: Seq<char>,
)
    requires
        unrelated_paths(staged_files(e1)),
        unrelated_paths(staged_files(e2)),
        forall|x: (Seq<Seq<char>>, Seq<char>)| staged_files(e1).contains(x) <==> staged_files(e2).contains(x),
        deep_wf(t1),
        deep_wf(t2),
        forall|q: Seq<Seq<char>>| #[trigger] lookup(t1, q) == staged_lookup(staged_files(e1), e1.len() as int, q),
        forall|q: Seq<Seq<char>>| #[trigger] lookup(t2, q) == staged_lookup(staged_files(e2), e2.len() as int, q),
        crate::commands::commit::commit_outcome_ok(o1, t1, head1, user, email, now1, msg1),
        crate::commands::commit::commit_outcome_ok(o2, t2, head2, user, email, now2, msg2),
    ensures
        o1.objects@[0].name@ == o2.objects@[0].name@,
        o1.objects@[0].data@ == o2.objects@[0].data@,
{
    lemma_tree_determinism(e1, e2, t1, t2);
}

} // verus!
