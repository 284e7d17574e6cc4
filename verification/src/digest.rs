//! Checksums and digests of byte strings.
use vstd::prelude::*;
use md5::{Digest, Md5};
use crate::text::push_lower_hex;

verus! {

/// The CRC-32 that `crc32fast::hash` computes of a byte string.
pub uninterp spec fn crc32_of(data: Seq<u8>) -> u32;

/// `crc32fast::hash`: a checksum that depends on the bytes alone. Its value is only
/// named here, by `crc32_of`.
#[verifier::external_body]
pub(crate) fn crc32(data: &[u8]) -> (sum: u32)
    ensures
        sum == crc32_of(data@),
{
    crc32fast::hash(data)
}

/// The MD5 digest that `md5::Md5::digest` computes of a byte string.
pub uninterp spec fn md5_of(data: Seq<u8>) -> Seq<u8>;

/// `md5::Md5::digest`: a digest of sixteen bytes that depends on the bytes alone. Its
/// value is only named here, by `md5_of`.
#[verifier::external_body]
pub(crate) fn md5_digest(data: &[u8]) -> (digest: Vec<u8>)
    ensures
        digest@ == md5_of(data@),
        digest@.len() == 16,
{
    Md5::digest(data).to_vec()
}

/// The first `n` bytes of a digest, two lower-case digits each.
pub open spec fn lower_hex(bytes: Seq<u8>, n: int) -> Seq<char>
    decreases n,
{
    if n <= 0 {
        Seq::empty()
    } else {
        lower_hex(bytes, n - 1) + crate::text::lower_hex_byte(bytes[n - 1])
    }
}

/// A digest of sixteen bytes in lower-case hexadecimal.
pub fn digest_hex(digest: &[u8]) -> (s: String)
    requires
        digest@.len() == 16,
    ensures
        s@ == lower_hex(digest@, 16),
{
    let mut s = String::new();
    let mut i: usize = 0;
    while i < 16
        invariant
            i <= 16,
            digest@.len() == 16,
            s@ == lower_hex(digest@, i as int),
        decreases 16 - i,
    {
        push_lower_hex(&mut s, digest[i]);
        i += 1;
    }
    s
}

/// The MD5 digest of a byte string in lower-case hexadecimal.
pub fn md5_hex(data: &[u8]) -> (s: String)
    ensures
        s@ == lower_hex(md5_of(data@), 16),
{
    digest_hex(md5_digest(data).as_slice())
}

} // verus!
