//! Committing the index: the tree snapshot, the commit object and the new HEAD.
use vstd::prelude::*;

use crate::builder::{build_tree, deep_wf, dump_tree_recursive, has_conflict, lookup, staged_files, staged_lookup, subtree_at};
use crate::config::{config_lookup, Config, CONFIG_EMAIL_FIELD, CONFIG_GENERAL_SECTION, CONFIG_USERNAME_FIELD};
use crate::error::VcsError;
use crate::hash::object_hash;
use crate::index::index::Index;
use crate::objects::commit::{commit_encoding, Commit};
use crate::objects::tree::{tree_encoding, Tree};
use crate::store::{stored_plain, StoredObject};

verus! {

/// What a commit produces: the objects to store, trees first and the
/// commit last, and the commit's hash, which HEAD is to hold.
pub struct CommitOutcome {
    pub objects: Vec<StoredObject>,
    pub commit_hash: String,
}

/// The parent that HEAD's content names: none when it is empty.
pub open spec fn head_parent(head: Seq<char>) -> Option<Seq<char>> {
    if head.len() == 0 {
        None
    } else {
        Some(head)
    }
}

/// What a successful commit of the tree `t` produces.
pub open spec fn commit_outcome_ok(o: CommitOutcome, t: Tree, head: Seq<char>, user: Seq<char>, email: Seq<char>, now: nat, message: Seq<char>) -> bool {
    let enc = commit_encoding(object_hash(tree_encoding(t)), head_parent(head), user, email, now, message);
    &&& o.objects@.len() >= 2
    &&& stored_plain(o.objects@[0], tree_encoding(t))
    &&& stored_plain(o.objects@.last(), enc)
    &&& o.commit_hash@ == object_hash(enc)
    &&& forall|path: Seq<Seq<char>>|
        #![trigger subtree_at(t, path)]
        subtree_at(t, path) is Some && subtree_at(t, path)->0.objects@.len() > 0 ==> exists|i: int|
            0 <= i < o.objects@.len() && stored_plain(#[trigger] o.objects@[i], tree_encoding(subtree_at(t, path)->0))
}

/// Commits the index with `message`, on top of HEAD's content `head`, with
/// the author identity from `config` and the time `now`.
/// `EmptyIndexError` when nothing is staged; `IndexCorrupt` when a file is
/// staged below another; `ConfigMissing` when the name or the email is not
/// configured. Otherwise the tree of the staged files and every subtree
/// are returned for storing, then the commit, whose hash HEAD is to hold.
pub fn commit(index: &Index, message: String, head: &str, config: &Config, now: u64) -> (r: Result<CommitOutcome, VcsError>)
    ensures
        index.indices@.len() == 0 <==> (r is Err && r->Err_0 == VcsError::EmptyIndexError),
        index.indices@.len() > 0 ==> (has_conflict(staged_files(index.indices@)) <==> (r is Err && r->Err_0 == VcsError::IndexCorrupt)),
        index.indices@.len() > 0 && !has_conflict(staged_files(index.indices@)) ==> ((config_lookup(
            config.variables@,
            CONFIG_GENERAL_SECTION@,
            CONFIG_USERNAME_FIELD@,
        ) is None || config_lookup(config.variables@, CONFIG_GENERAL_SECTION@, CONFIG_EMAIL_FIELD@) is None) <==> (r is Err
            && r->Err_0 == VcsError::ConfigMissing)),
        r is Err ==> r->Err_0 == VcsError::EmptyIndexError || r->Err_0 == VcsError::IndexCorrupt || r->Err_0 == VcsError::ConfigMissing,
        r is Ok ==> exists|t: Tree|
            deep_wf(t) && (forall|q: Seq<Seq<char>>|
                (#[trigger] lookup(t, q)) == staged_lookup(staged_files(index.indices@), index.indices@.len() as int, q))
                && commit_outcome_ok(
                r->Ok_0,
                t,
                head@,
                config_lookup(config.variables@, CONFIG_GENERAL_SECTION@, CONFIG_USERNAME_FIELD@)->0,
                config_lookup(config.variables@, CONFIG_GENERAL_SECTION@, CONFIG_EMAIL_FIELD@)->0,
                now as nat,
                message@,
            ),
{
    if index.indices.len() == 0 {
        return Err(VcsError::EmptyIndexError);
    }
    let tree = match build_tree(index) {
        Ok(t) => t,
        Err(e) => {
            return Err(e);
        },
    };
    let username = match config.get(CONFIG_GENERAL_SECTION, CONFIG_USERNAME_FIELD) {
        Some(u) => u,
        None => {
            return Err(VcsError::ConfigMissing);
        },
    };
    let email = match config.get(CONFIG_GENERAL_SECTION, CONFIG_EMAIL_FIELD) {
        Some(e) => e,
        None => {
            return Err(VcsError::ConfigMissing);
        },
    };
    proof {
        let files = staged_files(index.indices@);
        let n = index.indices@.len() as int;
        let s = files[n - 1].0;
        crate::builder::lemma_path_segments_nonempty(index.indices@[n - 1].filename@);
        assert(staged_lookup(files, n, s) is Some);
        crate::builder::lemma_lookup_nonempty(tree, s);
    }
    let mut objects = match dump_tree_recursive(&tree) {
        Ok(o) => o,
        Err(e) => {
            return Err(e);
        },
    };
    let ghost trees = objects@;
    let tree_hash = objects[0].name.clone();
    let parent = if head.is_empty() {
        None
    } else {
        Some(head.to_owned())
    };
    let mut c = Commit::new();
    c.tree_sha = Some(tree_hash);
    c.parent_commit_sha = parent;
    c.username = Some(username);
    c.email = Some(email);
    c.message = Some(message);
    let stored = match c.stored_at(now) {
        Ok(s) => s,
        Err(e) => {
            return Err(e);
        },
    };
    let commit_hash = stored.name.clone();
    objects.push(stored);
    let outcome = CommitOutcome { objects, commit_hash };
    proof {
        assert(crate::objects::commit::opt_view(c.parent_commit_sha) == head_parent(head@));
        assert(outcome.objects@[0] == trees[0]);
        assert forall|path: Seq<Seq<char>>|
            #![trigger subtree_at(tree, path)]
            subtree_at(tree, path) is Some && subtree_at(tree, path)->0.objects@.len() > 0 implies exists|i: int|
                0 <= i < outcome.objects@.len() && stored_plain(#[trigger] outcome.objects@[i], tree_encoding(subtree_at(tree, path)->0)) by {
            assert(crate::builder::stores_subtrees(tree, trees));
            let i = choose|i: int| 0 <= i < trees.len() && stored_plain(#[trigger] trees[i], tree_encoding(subtree_at(tree, path)->0));
            assert(outcome.objects@[i] == trees[i]);
        }
        assert(commit_outcome_ok(
            outcome,
            tree,
            head@,
            config_lookup(config.variables@, CONFIG_GENERAL_SECTION@, CONFIG_USERNAME_FIELD@)->0,
            config_lookup(config.variables@, CONFIG_GENERAL_SECTION@, CONFIG_EMAIL_FIELD@)->0,
            now as nat,
            message@,
        ));
    }
    Ok(outcome)
}

} // verus!
