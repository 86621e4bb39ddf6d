//! Commits: a tree snapshot with authorship, time, message and parent.
use vstd::prelude::*;
use vstd::utf8::valid_utf8;

use crate::error::VcsError;
use crate::text::{
    bytes_at, dec, digits_value, find_byte, find_from, has_at, is_digits, parse_u64, push_dec, push_str, slice_from,
    slice_range, text_of, utf8,
};

verus! {

pub open spec fn commit_tag() -> Seq<u8> {
    seq![99u8, 111u8, 109u8, 109u8, 105u8, 116u8, 32u8]
}

pub open spec fn tree_tag() -> Seq<u8> {
    seq![116u8, 114u8, 101u8, 101u8, 32u8]
}

pub open spec fn parent_tag() -> Seq<u8> {
    seq![112u8, 97u8, 114u8, 101u8, 110u8, 116u8, 32u8]
}

pub open spec fn author_tag() -> Seq<u8> {
    seq![97u8, 117u8, 116u8, 104u8, 111u8, 114u8, 32u8]
}

pub open spec fn msg_tag() -> Seq<u8> {
    seq![109u8, 115u8, 103u8, 32u8]
}

/// The body of a commit encoding:
/// `tree <hash>[parent <hash>]author <name> <email> <secs> msg <message>`.
pub open spec fn commit_body(
    tree: Seq<char>,
    parent: Option<Seq<char>>,
    user: Seq<char>,
    email: Seq<char>,
    secs: nat,
    msg: Seq<char>,
) -> Seq<u8> {
    tree_tag() + utf8(tree) + match parent {
        Some(p) => parent_tag() + utf8(p),
        None => Seq::empty(),
    } + author_tag() + utf8(user) + seq![32u8] + utf8(email) + seq![32u8] + dec(secs) + seq![32u8] + msg_tag()
        + utf8(msg)
}

/// `commit SPACE <body-length> NUL <body>`.
pub open spec fn commit_encoding(
    tree: Seq<char>,
    parent: Option<Seq<char>>,
    user: Seq<char>,
    email: Seq<char>,
    secs: nat,
    msg: Seq<char>,
) -> Seq<u8> {
    let body = commit_body(tree, parent, user, email, secs, msg);
    commit_tag() + dec(body.len()) + seq![0u8] + body
}

/// The fields of a commit as bytes: tree hash, parent hash, name, email,
/// seconds and message.
pub type CommitFields = (Seq<u8>, Option<Seq<u8>>, Seq<u8>, Seq<u8>, nat, Seq<u8>);

/// What follows `author `: name, email and seconds, each ended by a space,
/// then `msg ` and the message.
pub open spec fn author_decode(s: Seq<u8>) -> Option<(Seq<u8>, Seq<u8>, nat, Seq<u8>)> {
    let a = find_from(s, 32, 0);
    let b = find_from(s, 32, a + 1);
    let c = find_from(s, 32, b + 1);
    if a < 0 || b < 0 || c < 0 {
        None
    } else if !is_digits(s.subrange(b + 1, c)) || digits_value(s.subrange(b + 1, c)) > u64::MAX
        || !has_at(s, c + 1, msg_tag()) {
        None
    } else {
        Some((s.subrange(0, a), s.subrange(a + 1, b), digits_value(s.subrange(b + 1, c)), s.subrange(c + 5, s.len() as int)))
    }
}

/// The fields of a commit encoding, or `None` when `data` does not follow
/// the grammar: the header with the exact body length, `tree ` and a 40-byte
/// hash, optionally `parent ` and a 40-byte hash, `author `, the author
/// fields, and all text in UTF-8.
pub open spec fn commit_decode(data: Seq<u8>) -> Option<CommitFields> {
    let q = find_from(data, 0, 7);
    if !(has_at(data, 0, commit_tag()) && q >= 7 && is_digits(data.subrange(7, q)) && digits_value(
        data.subrange(7, q),
    ) == data.len() - q - 1) {
        None
    } else {
        content_decode(data.subrange(q + 1, data.len() as int))
    }
}

/// The fields of a commit body.
pub open spec fn content_decode(c: Seq<u8>) -> Option<CommitFields> {
    if !(has_at(c, 0, tree_tag()) && c.len() >= 45) {
        None
    } else {
        let tree = c.subrange(5, 45);
        let has_parent = has_at(c, 45, parent_tag());
        let rest = if has_parent {
            c.subrange(92, c.len() as int)
        } else {
            c.subrange(45, c.len() as int)
        };
        let parent = if has_parent {
            Some(c.subrange(52, 92))
        } else {
            None
        };
        if has_parent && c.len() < 92 {
            None
        } else if !has_at(rest, 0, author_tag()) {
            None
        } else {
            match author_decode(rest.subrange(7, rest.len() as int)) {
                None => None,
                Some((user, email, secs, msg)) => if valid_utf8(tree) && (has_parent ==> valid_utf8(c.subrange(52, 92)))
                    && valid_utf8(user) && valid_utf8(email) && valid_utf8(msg) {
                    Some((tree, parent, user, email, secs, msg))
                } else {
                    None
                },
            }
        }
    }
}

} // verus!

verus! {

/// A commit. Every field but the parent must be set before it can be
/// encoded; a commit without a time is stamped with the current time when
/// it is encoded.
pub struct Commit {
    pub tree_sha: Option<String>,
    pub parent_commit_sha: Option<String>,
    pub username: Option<String>,
    pub email: Option<String>,
    pub message: Option<String>,
    pub secs_since_epoch: Option<u64>,
}

/// The view of an optional text field.
pub open spec fn opt_view(o: Option<String>) -> Option<Seq<char>> {
    match o {
        Some(s) => Some(s@),
        None => None,
    }
}

impl Commit {
    /// Whether the fields that the encoding needs are set.
    pub open spec fn complete(&self) -> bool {
        self.tree_sha is Some && self.username is Some && self.email is Some && self.message is Some
    }

    /// The encoding of a complete commit stamped with `secs`.
    pub open spec fn encoding_at(&self, secs: nat) -> Seq<u8> {
        commit_encoding(
            self.tree_sha->0@,
            opt_view(self.parent_commit_sha),
            self.username->0@,
            self.email->0@,
            secs,
            self.message->0@,
        )
    }

    /// A commit with no field set.
    pub fn new() -> (r: Self)
        ensures
            r.tree_sha is None && r.parent_commit_sha is None && r.username is None,
            r.email is None && r.message is None && r.secs_since_epoch is None,
    {
        Commit {
            tree_sha: None,
            parent_commit_sha: None,
            username: None,
            email: None,
            message: None,
            secs_since_epoch: None,
        }
    }

    pub fn set_tree_sha(&mut self, sha: String) -> (r: &mut Self)
        ensures
            *r == (Commit { tree_sha: Some(sha), ..*old(self) }),
            *final(self) == *final(r),
    {
        self.tree_sha = Some(sha);
        self
    }

    pub fn get_tree_sha(&self) -> (r: Option<String>)
        ensures
            r == self.tree_sha,
    {
        self.tree_sha.clone()
    }

    pub fn set_parent_commit_sha(&mut self, sha: Option<String>) -> (r: &mut Self)
        ensures
            *r == (Commit { parent_commit_sha: sha, ..*old(self) }),
            *final(self) == *final(r),
    {
        self.parent_commit_sha = sha;
        self
    }

    pub fn get_parent_commit_sha(&self) -> (r: Option<String>)
        ensures
            r == self.parent_commit_sha,
    {
        self.parent_commit_sha.clone()
    }

    pub fn set_username(&mut self, username: String) -> (r: &mut Self)
        ensures
            *r == (Commit { username: Some(username), ..*old(self) }),
            *final(self) == *final(r),
    {
        self.username = Some(username);
        self
    }

    pub fn get_username(&self) -> (r: Option<String>)
        ensures
            r == self.username,
    {
        self.username.clone()
    }

    pub fn set_email(&mut self, email: String) -> (r: &mut Self)
        ensures
            *r == (Commit { email: Some(email), ..*old(self) }),
            *final(self) == *final(r),
    {
        self.email = Some(email);
        self
    }

    pub fn get_email(&self) -> (r: Option<String>)
        ensures
            r == self.email,
    {
        self.email.clone()
    }

    pub fn set_message(&mut self, message: String) -> (r: &mut Self)
        ensures
            *r == (Commit { message: Some(message), ..*old(self) }),
            *final(self) == *final(r),
    {
        self.message = Some(message);
        self
    }

    pub fn get_message(&self) -> (r: Option<String>)
        ensures
            r == self.message,
    {
        self.message.clone()
    }

    pub fn set_secs_since_epoch(&mut self, secs: u64) -> (r: &mut Self)
        ensures
            *r == (Commit { secs_since_epoch: Some(secs), ..*old(self) }),
            *final(self) == *final(r),
    {
        self.secs_since_epoch = Some(secs);
        self
    }

    pub fn get_secs_since_epoch(&self) -> (r: Option<u64>)
        ensures
            r == self.secs_since_epoch,
    {
        self.secs_since_epoch
    }

    /// The encoding of the commit, stamped with its own time when it has
    /// one and with `now` otherwise; `UnsetField` when the tree hash, the
    /// name, the email or the message is missing.
    pub fn encode_at(&self, now: u64) -> (r: Result<Vec<u8>, VcsError>)
        ensures
            r is Ok <==> self.complete(),
            r is Ok ==> r->Ok_0@ == self.encoding_at(
                match self.secs_since_epoch {
                    Some(t) => t as nat,
                    None => now as nat,
                },
            ),
            r is Err ==> r->Err_0 == VcsError::UnsetField,
    {
        let tree = match &self.tree_sha {
            Some(t) => t,
            None => {
                return Err(VcsError::UnsetField);
            },
        };
        let user = match &self.username {
            Some(t) => t,
            None => {
                return Err(VcsError::UnsetField);
            },
        };
        let email = match &self.email {
            Some(t) => t,
            None => {
                return Err(VcsError::UnsetField);
            },
        };
        let msg = match &self.message {
            Some(t) => t,
            None => {
                return Err(VcsError::UnsetField);
            },
        };
        let secs = match self.secs_since_epoch {
            Some(t) => t,
            None => now,
        };
        let mut body: Vec<u8> = vec![116u8, 114u8, 101u8, 101u8, 32u8];
        push_str(&mut body, tree.as_str());
        match &self.parent_commit_sha {
            Some(p) => {
                body.extend_from_slice(&[112u8, 97u8, 114u8, 101u8, 110u8, 116u8, 32u8]);
                push_str(&mut body, p.as_str());
            },
            None => {},
        }
        body.extend_from_slice(&[97u8, 117u8, 116u8, 104u8, 111u8, 114u8, 32u8]);
        push_str(&mut body, user.as_str());
        body.push(32u8);
        push_str(&mut body, email.as_str());
        body.push(32u8);
        push_dec(&mut body, secs);
        body.push(32u8);
        body.extend_from_slice(&[109u8, 115u8, 103u8, 32u8]);
        push_str(&mut body, msg.as_str());
        assert(body@ =~= commit_body(tree@, opt_view(self.parent_commit_sha), user@, email@, secs as nat, msg@));
        let mut out: Vec<u8> = vec![99u8, 111u8, 109u8, 109u8, 105u8, 116u8, 32u8];
        push_dec(&mut out, body.len() as u64);
        out.push(0u8);
        out.extend_from_slice(body.as_slice());
        assert(out@ =~= commit_tag() + dec(body@.len()) + seq![0u8] + body@);
        Ok(out)
    }
}

/// Relies on std::time::SystemTime::now, read as whole seconds since the
/// Unix epoch (SystemTime::duration_since, Duration::as_secs); `None` when
/// the clock reads before the epoch. Nothing is promised of the value.
#[verifier::external_body]
fn unix_time_now() -> (r: Option<u64>) {
    std::time::SystemTime::now().duration_since(std::time::UNIX_EPOCH).ok().map(|d| d.as_secs())
}

impl crate::objects::ObjectDump for Commit {
    /// The encoding; a commit without a time is stamped with the current
    /// time (zero if the clock reads before the epoch).
    fn convert_to_bytes(&self) -> (r: Result<Vec<u8>, VcsError>)
        ensures
            r is Ok <==> self.complete(),
            r is Ok && self.secs_since_epoch is Some ==> r->Ok_0@ == self.encoding_at(self.secs_since_epoch->0 as nat),
            r is Ok && self.secs_since_epoch is None ==> exists|t: u64| r->Ok_0@ == self.encoding_at(t as nat),
            r is Err ==> r->Err_0 == VcsError::UnsetField,
    {
        let now = match self.secs_since_epoch {
            Some(t) => t,
            None => match unix_time_now() {
                Some(t) => t,
                None => 0,
            },
        };
        self.encode_at(now)
    }
}

} // verus!

verus! {

/// A commit whose fields spell the given decoded fields.
pub open spec fn commit_from_fields(c: Commit, f: CommitFields) -> bool {
    &&& c.tree_sha is Some && utf8(c.tree_sha->0@) == f.0
    &&& match f.1 {
        Some(p) => c.parent_commit_sha is Some && utf8(c.parent_commit_sha->0@) == p,
        None => c.parent_commit_sha is None,
    }
    &&& c.username is Some && utf8(c.username->0@) == f.2
    &&& c.email is Some && utf8(c.email->0@) == f.3
    &&& c.secs_since_epoch == Some(f.4 as u64)
    &&& c.message is Some && utf8(c.message->0@) == f.5
}

impl crate::objects::ObjectPump for Commit {
    /// Decodes a commit encoding; `FormatError` when it does not follow the grammar.
    fn from_raw_data(data: &[u8]) -> (r: Result<Commit, VcsError>)
        ensures
            r is Ok <==> commit_decode(data@) is Some,
            r is Ok ==> commit_from_fields(r->Ok_0, commit_decode(data@)->0),
            r is Err ==> r->Err_0 == VcsError::FormatError,
    {
        if !bytes_at(data, 0, &[99u8, 111u8, 109u8, 109u8, 105u8, 116u8, 32u8]) {
            return Err(VcsError::FormatError);
        }
        let _ = data.len();
        let q = match find_byte(data, 0u8, 7) {
            Some(q) => q,
            None => {
                return Err(VcsError::FormatError);
            },
        };
        let len = match parse_u64(slice_range(data, 7, q)) {
            Some(n) => n,
            None => {
                return Err(VcsError::FormatError);
            },
        };
        if len as u128 != (data.len() - q - 1) as u128 {
            return Err(VcsError::FormatError);
        }
        let c = slice_from(data, q + 1);
        if !bytes_at(c, 0, &[116u8, 114u8, 101u8, 101u8, 32u8]) || c.len() < 45 {
            return Err(VcsError::FormatError);
        }
        let has_parent = bytes_at(c, 45, &[112u8, 97u8, 114u8, 101u8, 110u8, 116u8, 32u8]);
        if has_parent && c.len() < 92 {
            return Err(VcsError::FormatError);
        }
        let rest = if has_parent {
            slice_from(c, 92)
        } else {
            slice_from(c, 45)
        };
        if !bytes_at(rest, 0, &[97u8, 117u8, 116u8, 104u8, 111u8, 114u8, 32u8]) {
            return Err(VcsError::FormatError);
        }
        let s = slice_from(rest, 7);
        let a = match find_byte(s, 32u8, 0) {
            Some(k) => k,
            None => {
                return Err(VcsError::FormatError);
            },
        };
        let b = match find_byte(s, 32u8, a + 1) {
            Some(k) => k,
            None => {
                return Err(VcsError::FormatError);
            },
        };
        let e = match find_byte(s, 32u8, b + 1) {
            Some(k) => k,
            None => {
                return Err(VcsError::FormatError);
            },
        };
        let secs = match parse_u64(slice_range(s, b + 1, e)) {
            Some(v) => v,
            None => {
                return Err(VcsError::FormatError);
            },
        };
        if !bytes_at(s, e + 1, &[109u8, 115u8, 103u8, 32u8]) {
            return Err(VcsError::FormatError);
        }
        let tree = match text_of(slice_range(c, 5, 45)) {
            Some(t) => t,
            None => {
                return Err(VcsError::FormatError);
            },
        };
        let parent = if has_parent {
            match text_of(slice_range(c, 52, 92)) {
                Some(t) => Some(t),
                None => {
                    return Err(VcsError::FormatError);
                },
            }
        } else {
            None
        };
        let user = match text_of(slice_range(s, 0, a)) {
            Some(t) => t,
            None => {
                return Err(VcsError::FormatError);
            },
        };
        let email = match text_of(slice_range(s, a + 1, b)) {
            Some(t) => t,
            None => {
                return Err(VcsError::FormatError);
            },
        };
        let msg = match text_of(slice_from(s, e + 5)) {
            Some(t) => t,
            None => {
                return Err(VcsError::FormatError);
            },
        };
        Ok(Commit {
            tree_sha: Some(tree),
            parent_commit_sha: parent,
            username: Some(user),
            email: Some(email),
            message: Some(msg),
            secs_since_epoch: Some(secs),
        })
    }
}

} // verus!

verus! {

/// Text whose UTF-8 bytes hold no space.
pub open spec fn no_space(s: Seq<char>) -> bool {
    forall|i: int| 0 <= i < utf8(s).len() ==> #[trigger] utf8(s)[i] != 32
}

/// A commit whose encoding reads back: all fields set, hashes of 40 bytes,
/// and a name and an email without spaces.
pub open spec fn round_trips(c: Commit) -> bool {
    &&& c.complete()
    &&& utf8(c.tree_sha->0@).len() == 40
    &&& (c.parent_commit_sha is Some ==> utf8(c.parent_commit_sha->0@).len() == 40)
    &&& no_space(c.username->0@)
    &&& no_space(c.email->0@)
}

proof fn lemma_author_round_trip(user: Seq<char>, email: Seq<char>, secs: nat, msg: Seq<char>)
    requires
        no_space(user),
        no_space(email),
        secs <= u64::MAX,
    ensures
        author_decode(utf8(user) + seq![32u8] + utf8(email) + seq![32u8] + dec(secs) + seq![32u8] + msg_tag() + utf8(msg))
            == Some((utf8(user), utf8(email), secs, utf8(msg))),
{
    let u = utf8(user);
    let e = utf8(email);
    let d = dec(secs);
    crate::text::lemma_dec(secs);
    let s = u + seq![32u8] + e + seq![32u8] + d + seq![32u8] + msg_tag() + utf8(msg);
    let a = u.len() as int;
    let b = a + 1 + e.len();
    let c = b + 1 + d.len();
    assert forall|j: int| 0 <= j < a implies s[j] != 32 by {
        assert(s[j] == u[j]);
    }
    crate::text::lemma_find_from(s, 32, 0, a);
    assert forall|j: int| a + 1 <= j < b implies s[j] != 32 by {
        assert(s[j] == e[j - a - 1]);
    }
    crate::text::lemma_find_from(s, 32, a + 1, b);
    assert forall|j: int| b + 1 <= j < c implies s[j] != 32 by {
        assert(s[j] == d[j - b - 1]);
    }
    crate::text::lemma_find_from(s, 32, b + 1, c);
    assert(s.subrange(0, a) =~= u);
    assert(s.subrange(a + 1, b) =~= e);
    assert(s.subrange(b + 1, c) =~= d);
    assert(s.subrange(c + 1, c + 5) =~= msg_tag());
    assert(s.subrange(c + 5, s.len() as int) =~= utf8(msg));
}

proof fn lemma_commit_header(body: Seq<u8>)
    ensures
        commit_decode(commit_tag() + dec(body.len()) + seq![0u8] + body) == content_decode(body),
{
    let enc = commit_tag() + dec(body.len()) + seq![0u8] + body;
    let dl = dec(body.len());
    crate::text::lemma_dec(body.len());
    let q = 7 + dl.len() as int;
    assert(enc.subrange(0, 7) =~= commit_tag());
    assert forall|j: int| 7 <= j < q implies enc[j] != 0 by {
        assert(enc[j] == dl[j - 7]);
    }
    assert(enc[q] == 0);
    crate::text::lemma_find_from(enc, 0, 7, q);
    assert(enc.subrange(7, q) =~= dl);
    assert(enc.subrange(q + 1, enc.len() as int) =~= body);
}

/// The body bytes before the author fields.
pub open spec fn content_head(tb: Seq<u8>, pb: Option<Seq<u8>>) -> Seq<u8> {
    tree_tag() + tb + match pb {
        Some(x) => parent_tag() + x,
        None => Seq::empty(),
    }
}

proof fn lemma_content_parts(tb: Seq<u8>, pb: Option<Seq<u8>>, author: Seq<u8>)
    requires
        tb.len() == 40,
        pb is Some ==> pb->0.len() == 40,
    ensures
        ({
            let c = content_head(tb, pb) + (author_tag() + author);
            &&& has_at(c, 0, tree_tag()) && c.len() >= 45 && c.subrange(5, 45) == tb
            &&& has_at(c, 45, parent_tag()) == pb is Some
            &&& pb is Some ==> c.len() >= 92 && c.subrange(52, 92) == pb->0 && c.subrange(92, c.len() as int) == author_tag() + author
            &&& pb is None ==> c.subrange(45, c.len() as int) == author_tag() + author
        }),
{
    let c = content_head(tb, pb) + (author_tag() + author);
    assert(c.subrange(0, 5) =~= tree_tag());
    assert(c.subrange(5, 45) =~= tb);
    match pb {
        Some(x) => {
            assert(c.subrange(45, 52) =~= parent_tag());
            assert(c.subrange(52, 92) =~= x);
            assert(c.subrange(92, c.len() as int) =~= author_tag() + author);
        },
        None => {
            assert(c[45] == 97u8);
            if has_at(c, 45, parent_tag()) {
                assert(c.subrange(45, 52)[0] == c[45]);
            }
            assert(c.subrange(45, c.len() as int) =~= author_tag() + author);
        },
    }
}

proof fn lemma_author_tag_split(author: Seq<u8>)
    ensures
        has_at(author_tag() + author, 0, author_tag()),
        (author_tag() + author).subrange(7, (author_tag() + author).len() as int) == author,
{
    assert((author_tag() + author).subrange(0, 7) =~= author_tag());
    assert((author_tag() + author).subrange(7, (author_tag() + author).len() as int) =~= author);
}

proof fn lemma_content_round_trip(t: Seq<char>, p: Option<Seq<char>>, u: Seq<char>, e: Seq<char>, secs: nat, m: Seq<char>)
    requires
        utf8(t).len() == 40,
        p is Some ==> utf8(p->0).len() == 40,
        no_space(u),
        no_space(e),
        secs <= u64::MAX,
    ensures
        content_decode(commit_body(t, p, u, e, secs, m)) == Some(
            (
                utf8(t),
                match p {
                    Some(pv) => Some(utf8(pv)),
                    None => None::<Seq<u8>>,
                },
                utf8(u),
                utf8(e),
                secs,
                utf8(m),
            ),
        ),
{
    let author = utf8(u) + seq![32u8] + utf8(e) + seq![32u8] + dec(secs) + seq![32u8] + msg_tag() + utf8(m);
    let pb = match p {
        Some(pv) => Some(utf8(pv)),
        None => None::<Seq<u8>>,
    };
    assert(commit_body(t, p, u, e, secs, m) =~= content_head(utf8(t), pb) + (author_tag() + author));
    lemma_author_round_trip(u, e, secs, m);
    lemma_content_parts(utf8(t), pb, author);
    lemma_author_tag_split(author);
    vstd::utf8::encode_utf8_valid_utf8(t);
    vstd::utf8::encode_utf8_valid_utf8(u);
    vstd::utf8::encode_utf8_valid_utf8(e);
    vstd::utf8::encode_utf8_valid_utf8(m);
    if p is Some {
        vstd::utf8::encode_utf8_valid_utf8(p->0);
    }
}

/// Decoding the encoding of a commit that round-trips succeeds, and every
/// commit that decoding yields has the same encoding, so the same hash.
pub proof fn lemma_commit_round_trip(c: Commit, secs: nat, d: Commit)
    requires
        round_trips(c),
        secs <= u64::MAX,
        commit_decode(c.encoding_at(secs)) is Some ==> commit_from_fields(d, commit_decode(c.encoding_at(secs))->0),
    ensures
        commit_decode(c.encoding_at(secs)) is Some,
        d.complete(),
        d.encoding_at(d.secs_since_epoch->0 as nat) == c.encoding_at(secs),
{
    let t = c.tree_sha->0@;
    let p = opt_view(c.parent_commit_sha);
    let u = c.username->0@;
    let e = c.email->0@;
    let m = c.message->0@;
    lemma_commit_header(commit_body(t, p, u, e, secs, m));
    lemma_content_round_trip(t, p, u, e, secs, m);
    lemma_utf8_eq_view(d.tree_sha->0@, t);
    lemma_utf8_eq_view(d.username->0@, u);
    lemma_utf8_eq_view(d.email->0@, e);
    lemma_utf8_eq_view(d.message->0@, m);
    if p is Some {
        lemma_utf8_eq_view(d.parent_commit_sha->0@, p->0);
    }
    assert(opt_view(d.parent_commit_sha) == p);
}

proof fn lemma_utf8_eq_view(a: Seq<char>, b: Seq<char>)
    ensures
        utf8(a) == utf8(b) ==> a == b,
{
    if utf8(a) == utf8(b) {
        vstd::utf8::encode_utf8_decode_utf8(a);
        vstd::utf8::encode_utf8_decode_utf8(b);
    }
}

} // verus!
