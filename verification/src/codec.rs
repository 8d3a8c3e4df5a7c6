//! Hashing and compression of framed objects.
//!
//! The SHA-1 and zlib implementations come from outside crates. Their results
//! are named by the uninterpreted functions below; everything in this module
//! that is marked `external_body` is believed, not proved.

use vstd::prelude::*;
use vstd::string::StringSliceAdditionalSpecFns;
use crate::bytes::bytes_eq;
use crate::error::StoreError;
use crate::hex::hex_encode;
use crate::hex::is_hex;
use crate::hex::hex_decode;
use crate::hex::sha_to_bytes;
use crate::hex::write_hex;
use crate::text::ascii_string;
use crate::text::ascii_text;
use crypto::digest::Digest as Sha1Api;
use crypto::sha1::Sha1;
use flate2::read::ZlibDecoder;
use flate2::write::ZlibEncoder;
use flate2::Compression;
use std::io::Read;
use std::io::Write;

verus! {

/// Number of bytes in a SHA-1 digest.
pub const DIGEST_LEN: usize = 20;

/// True when the hasher can count the bits of an input of `len` bytes: its
/// counter holds 64 bits.
pub open spec fn hashable_len(len: nat) -> bool {
    len < 0x2000_0000_0000_0000
}

/// The digest that forty hexadecimal digits denote; `None` for any other
/// text.
pub open spec fn digest_of_hex(text: Seq<u8>) -> Option<Seq<u8>> {
    if text.len() == 2 * DIGEST_LEN && is_hex(text) {
        Some(hex_decode(text))
    } else {
        None
    }
}

/// A digest's hexadecimal form denotes the digest.
pub proof fn lemma_digest_hex_round_trip(digest: Seq<u8>)
    requires
        digest.len() == DIGEST_LEN,
    ensures
        digest_of_hex(hex_encode(digest)) == Some(digest),
{
    crate::hex::lemma_hex_round_trip(digest);
}

/// Tells whether the hasher can take an input of `len` bytes.
pub fn hashable(len: usize) -> (r: bool)
    ensures
        r == hashable_len(len as nat),
{
    (len as u64) < 0x2000_0000_0000_0000u64
}

/// The SHA-1 digest of `data`, as computed by `crypto::sha1::Sha1`.
pub uninterp spec fn sha1_of(data: Seq<u8>) -> Seq<u8>;

/// The zlib stream that `flate2` produces for `data` at the default level;
/// `None` if it reports an error.
pub uninterp spec fn zlib_deflated(data: Seq<u8>) -> Option<Seq<u8>>;

/// What `flate2` inflates the zlib stream `data` to; `None` if it reports an
/// error.
pub uninterp spec fn zlib_inflated(data: Seq<u8>) -> Option<Seq<u8>>;

/// Calls `Sha1::new`, `Digest::input` and `Digest::result` of the `crypto`
/// crate, with a buffer of twenty bytes for the result. Trusted: the result
/// is the SHA-1 of `data`. The hasher panics once the input's bit count
/// overflows, hence the bound.
#[verifier::external_body]
pub(crate) fn sha1(data: &[u8]) -> (out: [u8; 20])
    requires
        hashable_len(data@.len()),
    ensures
        out@ == sha1_of(data@),
{
    let mut hasher = Sha1::new();
    hasher.input(data);
    let mut out = [0u8; 20];
    hasher.result(&mut out);
    out
}

/// The key of a stored object: the SHA-1 of its frame.
#[derive(Debug, Clone, Copy, PartialEq, Eq)]
pub struct Digest {
    pub bytes: [u8; 20],
}

impl View for Digest {
    type V = Seq<u8>;

    open spec fn view(&self) -> Seq<u8> {
        self.bytes@
    }
}

impl Digest {
    /// The digest of `data`.
    pub fn of(data: &[u8]) -> (digest: Digest)
        requires
            hashable_len(data@.len()),
        ensures
            digest@ == sha1_of(data@),
    {
        Digest { bytes: sha1(data) }
    }

    /// The digest made of the twenty given bytes; `None` for any other
    /// number of bytes.
    pub fn from_bytes(bytes: &[u8]) -> (r: Option<Digest>)
        ensures
            r is Some <==> bytes@.len() == DIGEST_LEN,
            r matches Some(digest) ==> digest@ == bytes@,
    {
        if bytes.len() != DIGEST_LEN {
            return None;
        }
        let mut out = [0u8; 20];
        let mut i: usize = 0;
        while i < DIGEST_LEN
            invariant
                i <= DIGEST_LEN,
                bytes@.len() == DIGEST_LEN,
                forall|j: int| 0 <= j < i ==> out@[j] == bytes@[j],
            decreases DIGEST_LEN - i,
        {
            out[i] = bytes[i];
            i += 1;
        }
        assert(out@ =~= bytes@);
        Some(Digest { bytes: out })
    }

    /// The digest's twenty bytes.
    pub fn as_bytes(&self) -> (bytes: &[u8])
        ensures
            bytes@ == self@,
            bytes@.len() == DIGEST_LEN,
    {
        self.bytes.as_slice()
    }

    /// True when both digests hold the same bytes.
    pub fn same(&self, other: &Digest) -> (same: bool)
        ensures
            same == (self@ == other@),
    {
        bytes_eq(self.as_bytes(), other.as_bytes())
    }

    /// The digest as forty lower-case hexadecimal digits.
    pub fn to_hex(&self) -> (text: String)
        ensures
            text@ == ascii_text(hex_encode(self@)),
            text@.len() == 2 * DIGEST_LEN,
    {
        let mut digits: Vec<u8> = Vec::new();
        write_hex(&mut digits, self.as_bytes());
        ascii_string(digits)
    }

    /// Reads a digest from forty hexadecimal digits of either case.
    pub fn from_hex_bytes(digits: &[u8]) -> (r: Option<Digest>)
        ensures
            match r {
                Some(digest) => digest_of_hex(digits@) == Some(digest@),
                None => digest_of_hex(digits@) is None,
            },
    {
        if digits.len() != 2 * DIGEST_LEN {
            return None;
        }
        match sha_to_bytes(digits) {
            Some(bytes) => Digest::from_bytes(bytes.as_slice()),
            None => None,
        }
    }

    /// Reads a digest from a string of forty hexadecimal digits of either
    /// case.
    pub fn from_hex(text: &str) -> (r: Option<Digest>)
        ensures
            match r {
                Some(digest) => digest_of_hex(text.spec_bytes()) == Some(digest@),
                None => digest_of_hex(text.spec_bytes()) is None,
            },
    {
        Digest::from_hex_bytes(text.as_bytes())
    }
}

/// Calls `ZlibEncoder::new`, `write_all` and `finish` of `flate2` on an
/// in-memory buffer. Trusted: the result is exactly what the encoder makes
/// of `data`, which nothing but `data` decides, and inflating a returned
/// buffer gives `data` back. `None` stands for an error reported by the
/// encoder.
#[verifier::external_body]
pub(crate) fn zlib_compress(data: &[u8]) -> (out: Option<Vec<u8>>)
    ensures
        match out {
            Some(v) => zlib_deflated(data@) == Some(v@) && zlib_inflated(v@) == Some(data@),
            None => zlib_deflated(data@) is None,
        },
{
    let mut encoder = ZlibEncoder::new(Vec::new(), Compression::default());
    match encoder.write_all(data) {
        Ok(()) => encoder.finish().ok(),
        Err(_) => None,
    }
}

/// Calls `ZlibDecoder::new` of `flate2` and reads the stream to its end.
/// Trusted: the result is exactly what the decoder inflates `data` to.
#[verifier::external_body]
pub(crate) fn zlib_decompress(data: &[u8]) -> (out: Option<Vec<u8>>)
    ensures
        match out {
            Some(v) => zlib_inflated(data@) == Some(v@),
            None => zlib_inflated(data@) is None,
        },
{
    let mut decoder = ZlibDecoder::new(data);
    let mut out = Vec::new();
    match decoder.read_to_end(&mut out) {
        Ok(_) => Some(out),
        Err(_) => None,
    }
}

/// Deflates `data` into a zlib stream. Fails, with `Io`, exactly where the
/// compressor reports an error for `data`.
pub fn compress(data: &[u8]) -> (r: Result<Vec<u8>, StoreError>)
    ensures
        match r {
            Ok(out) => zlib_deflated(data@) == Some(out@) && zlib_inflated(out@) == Some(data@),
            Err(e) => e == StoreError::Io && zlib_deflated(data@) is None,
        },
{
    match zlib_compress(data) {
        Some(out) => Ok(out),
        None => Err(StoreError::Io),
    }
}

/// Inflates a zlib stream. Fails, with `Corrupt`, where the bytes are no
/// such stream.
pub fn decompress(data: &[u8]) -> (r: Result<Vec<u8>, StoreError>)
    ensures
        match r {
            Ok(out) => zlib_inflated(data@) == Some(out@),
            Err(e) => e == StoreError::Corrupt && zlib_inflated(data@) is None,
        },
{
    match zlib_decompress(data) {
        Some(out) => Ok(out),
        None => Err(StoreError::Corrupt),
    }
}

} // verus!
