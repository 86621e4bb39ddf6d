//! Content hashes and the byte-level helpers of the object encodings.
use vstd::prelude::*;

verus! {

/// The 20-byte SHA-1 digest of a byte sequence.
pub uninterp spec fn sha1_digest(data: Seq<u8>) -> Seq<u8>;

/// Relies on sha1::Sha1::digest: the digest of `data`, twenty bytes long.
#[verifier::external_body]
fn sha1_bytes(data: &[u8]) -> (r: Vec<u8>)
    ensures
        r@ == sha1_digest(data@),
        r@.len() == 20,
{
    <sha1::Sha1 as sha1::Digest>::digest(data).to_vec()
}

/// The lowercase hexadecimal digit of a value below 16.
pub open spec fn hex_digit(v: u8) -> char {
    if v < 10 {
        (48 + v) as char
    } else {
        (87 + v) as char
    }
}

/// Two lowercase hexadecimal digits per byte, high nibble first.
pub open spec fn hex_of(data: Seq<u8>) -> Seq<char>
    decreases data.len(),
{
    if data.len() == 0 {
        Seq::empty()
    } else {
        seq![hex_digit(data[0] / 16), hex_digit(data[0] % 16)] + hex_of(data.drop_first())
    }
}

/// The content hash of an encoded object: its SHA-1 digest in hexadecimal.
pub open spec fn object_hash(encoded: Seq<u8>) -> Seq<char> {
    hex_of(sha1_digest(encoded))
}

fn hex_char(v: u8) -> (c: char)
    requires
        v < 16,
    ensures
        c == hex_digit(v),
{
    if v < 10 {
        (48u8 + v) as char
    } else {
        (87u8 + v) as char
    }
}

pub proof fn lemma_hex_of_len(data: Seq<u8>)
    ensures
        hex_of(data).len() == 2 * data.len(),
    decreases data.len(),
{
    if data.len() > 0 {
        lemma_hex_of_len(data.drop_first());
    }
}

/// Renders bytes as lowercase hexadecimal text.
pub fn to_hex(data: &[u8]) -> (r: String)
    ensures
        r@ == hex_of(data@),
{
    let mut out = String::new();
    let n = data.len();
    let mut i: usize = 0;
    proof {
        assert(data@.subrange(0, n as int) =~= data@);
        assert(out@ + hex_of(data@) =~= hex_of(data@));
    }
    while i < n
        invariant
            n == data@.len(),
            i <= n,
            hex_of(data@) == out@ + hex_of(data@.subrange(i as int, n as int)),
        decreases n - i,
    {
        let b = data[i];
        proof {
            let rest = data@.subrange(i as int, n as int);
            assert(rest.drop_first() =~= data@.subrange(i + 1, n as int));
        }
        push_char(&mut out, hex_char(b / 16));
        push_char(&mut out, hex_char(b % 16));
        proof {
            let rest = data@.subrange(i as int, n as int);
            assert(rest[0] == b);
        }
        i = i + 1;
    }
    proof {
        assert(data@.subrange(n as int, n as int) =~= Seq::<u8>::empty());
    }
    out
}

/// Relies on String::push: appends one character.
#[verifier::external_body]
fn push_char(s: &mut String, c: char)
    ensures
        final(s)@ == old(s)@.push(c),
{
    s.push(c)
}

/// The content hash of `content`: 40 lowercase hexadecimal characters.
pub fn generate_hash(content: &[u8]) -> (r: String)
    ensures
        r@ == object_hash(content@),
        r@.len() == 40,
{
    let digest = sha1_bytes(content);
    proof {
        lemma_hex_of_len(digest@);
    }
    to_hex(digest.as_slice())
}

} // verus!
