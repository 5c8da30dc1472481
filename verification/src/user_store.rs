//! Users, and the names under which what belongs to them is stored.

use crate::codec;
use crate::protocol;
use sha2::Digest;
use vstd::prelude::*;

verus! {

/// A user that logged in.
#[derive(Debug)]
pub struct User {
    pub id: u32,
    pub provider: String,
    pub subject: String,
    pub email: String,
    pub name: String,
}

impl Clone for User {
    fn clone(&self) -> (u: Self)
        ensures
            u == *self,
    {
        User {
            id: self.id,
            provider: self.provider.clone(),
            subject: self.subject.clone(),
            email: self.email.clone(),
            name: self.name.clone(),
        }
    }
}

/// The SHA-256 digest of bytes.
pub uninterp spec fn sha256_digest(s: Seq<u8>) -> Seq<u8>;

/// `sha2::Sha256::digest`: the SHA-256 digest of `data`. Which 32 bytes these are is left unsaid
/// but for that they depend on nothing but `data`.
#[verifier::external_body]
fn sha256(data: &[u8]) -> (d: [u8; 32])
    ensures
        d@ == sha256_digest(data@),
{
    sha2::Sha256::digest(data).into()
}

/// Bytes as hexadecimal digits, two for each.
pub open spec fn hex_text(s: Seq<u8>) -> Seq<char> {
    Seq::new(2 * s.len(), |i: int| protocol::hex_byte(s[i / 2])[i % 2])
}

/// `hex::encode`: each byte as two lowercase hexadecimal digits, the high one first.
#[verifier::external_body]
fn hex_encode(data: &[u8]) -> (s: String)
    ensures
        s@ == hex_text(data@),
{
    hex::encode(data)
}

/// The key that a digest makes.
pub fn digest_key(d: &[u8; 32]) -> (s: String)
    ensures
        s@ == hex_text(d@),
{
    hex_encode(d.as_slice())
}

/// The first 4 bytes of a digest as a little-endian number.
pub fn digest_id(d: &[u8; 32]) -> (id: u32)
    ensures
        id == codec::le_value(d@.subrange(0, 4)),
{
    protocol::read_u32(d.as_slice(), 0)
}

/// Where users are stored, one file each.
#[derive(Debug)]
pub struct UserStore {
    pub dir: String,
}

impl UserStore {
    /// Hex-encoded SHA-256 of the email — used as the file name.
    pub fn email_key(email: &str) -> (s: String)
        ensures
            s@ == hex_text(sha256_digest(vstd::utf8::encode_utf8(email@))),
    {
        let d = sha256(email.as_bytes());
        digest_key(&d)
    }

    /// First 4 bytes of SHA-256(email) as a little-endian u32.
    pub fn email_id(email: &str) -> (id: u32)
        ensures
            id == codec::le_value(
                sha256_digest(vstd::utf8::encode_utf8(email@)).subrange(0, 4),
            ),
    {
        let d = sha256(email.as_bytes());
        digest_id(&d)
    }

    /// The name of the file for a key.
    pub fn file_name(key: &str) -> (s: String)
        ensures
            s@ == key@ + ".json"@,
    {
        let mut s = key.to_owned();
        s.append(".json");
        s
    }

    /// The name of the file that is written before it takes the place of the one for a key.
    pub fn tmp_name(key: &str) -> (s: String)
        ensures
            s@ == key@ + ".tmp"@,
    {
        let mut s = key.to_owned();
        s.append(".tmp");
        s
    }
}

/// Keys tell digests apart.
pub proof fn law_keys_tell_digests_apart(a: Seq<u8>, b: Seq<u8>)
    ensures
        hex_text(a) == hex_text(b) ==> a == b,
{
    if hex_text(a) == hex_text(b) {
        assert(hex_text(a).len() == hex_text(b).len());
        assert forall|i: int| 0 <= i < a.len() implies a[i] == b[i] by {
            assert(hex_text(a)[2 * i] == hex_text(b)[2 * i]);
            assert(hex_text(a)[2 * i + 1] == hex_text(b)[2 * i + 1]);
            assert((2 * i) / 2 == i && (2 * i) % 2 == 0);
            assert((2 * i + 1) / 2 == i && (2 * i + 1) % 2 == 1);
            lemma_digits(a[i] as int / 16, b[i] as int / 16);
            lemma_digits(a[i] as int % 16, b[i] as int % 16);
        }
        assert(a =~= b);
    }
}

/// Each digit stands for one number.
proof fn lemma_digits(d: int, e: int)
    requires
        0 <= d < 16,
        0 <= e < 16,
    ensures
        "0123456789abcdef"@[d] == "0123456789abcdef"@[e] ==> d == e,
{
    reveal_strlit("0123456789abcdef");
}

} // verus!
