//! The outside computations the library relies on: SHA-256, zlib inflation and hex encoding.

use vstd::prelude::*;
use sha2::Digest;
use std::io::Read;

verus! {

/// The SHA-256 digest of a byte string, as `sha2::Sha256` computes it.
pub uninterp spec fn sha256_digest(data: Seq<u8>) -> Seq<u8>;

/// The SHA-256 hasher of the `sha2` crate, held opaquely: a declaration of its type is
/// refused, as its bounds name traits of the `digest` and `typenum` crates.
#[verifier::external_body]
pub struct Hasher {
    h: sha2::Sha256,
}

/// The bytes a hasher has been fed so far, in order.
pub uninterp spec fn hasher_fed(h: Hasher) -> Seq<u8>;

impl Hasher {
    /// Calls `sha2::Sha256::new`: a hasher that has been fed nothing.
    #[verifier::external_body]
    fn new() -> (h: Hasher)
        ensures
            hasher_fed(h) == Seq::<u8>::empty(),
    {
        Hasher { h: sha2::Sha256::new() }
    }

    /// Calls `sha2::Sha256::update` with `data`: the hasher has been fed `data` after what it
    /// was fed before (`update` takes every byte of the slice, whatever its length).
    #[verifier::external_body]
    fn feed(&mut self, data: &[u8])
        ensures
            hasher_fed(*final(self)) == hasher_fed(*old(self)) + data@,
    {
        self.h.update(data);
    }
}

/// A SHA-256 computed over bytes that arrive in pieces, such as the chunks of a file read from
/// disk or of a download.
pub struct Sha256Stream {
    h: Hasher,
}

impl Sha256Stream {
    /// All the bytes fed in so far, in order: what the hasher has been fed.
    pub closed spec fn seen(&self) -> Seq<u8> {
        hasher_fed(self.h)
    }

    /// A stream that has seen nothing.
    pub fn new() -> (s: Sha256Stream)
        ensures
            s.seen() == Seq::<u8>::empty(),
    {
        Sha256Stream { h: Hasher::new() }
    }

    /// Feeds `data` in after what was fed before.
    pub fn update(&mut self, data: &[u8])
        ensures
            final(self).seen() == old(self).seen() + data@,
    {
        self.h.feed(data);
    }

    /// Calls `sha2::Sha256::finalize`: the digest named `sha256_digest` of every byte the hasher
    /// was fed, in order, 32 bytes long.
    #[verifier::external_body]
    pub fn finalize(self) -> (d: Vec<u8>)
        ensures
            d@ == sha256_digest(self.seen()),
            d@.len() == 32,
    {
        self.h.h.finalize().to_vec()
    }
}

/// The SHA-256 of `data`, 32 bytes long.
pub(crate) fn sha256(data: &[u8]) -> (d: Vec<u8>)
    ensures
        d@ == sha256_digest(data@),
        d@.len() == 32,
{
    let mut s = Sha256Stream::new();
    s.update(data);
    assert(Seq::<u8>::empty() + data@ =~= data@);
    s.finalize()
}

/// The SHA-256 of everything fed to `s`, in lower-case hex.
pub fn stream_hex(s: Sha256Stream) -> (h: String)
    ensures
        h@ == hex_lower(sha256_digest(s.seen())),
{
    let d = s.finalize();
    hex_encode(d.as_slice())
}

/// Whether the SHA-256 of everything fed to `s`, in lower-case hex, is `expected`; with that hex.
pub fn stream_matches(s: Sha256Stream, expected: &str) -> (r: (bool, String))
    ensures
        r.1@ == hex_lower(sha256_digest(s.seen())),
        r.0 == (hex_lower(sha256_digest(s.seen())) == expected@),
{
    let got = stream_hex(s);
    let want = String::from_str(expected);
    (got == want, got)
}

/// What inflating a zlib stream gives: `None` when the bytes are not a valid zlib stream.
pub uninterp spec fn zlib_inflate(data: Seq<u8>) -> Option<Seq<u8>>;

/// Calls `flate2::read::ZlibDecoder::read_to_end` on `data`: the inflated bytes, or the text
/// of the error the decoder reports, as the name `zlib_inflate` says which. What the text says
/// is not stated.
#[verifier::external_body]
pub(crate) fn inflate(data: &[u8]) -> (r: Result<Vec<u8>, String>)
    ensures
        r is Ok <==> zlib_inflate(data@) is Some,
        r matches Ok(v) ==> zlib_inflate(data@) == Some(v@),
{
    let mut out = Vec::new();
    match flate2::read::ZlibDecoder::new(data).read_to_end(&mut out) {
        Ok(_) => Ok(out),
        Err(e) => Err(e.to_string()),
    }
}

/// The lower-case hex digit of a value below 16.
pub open spec fn hex_digit(v: nat) -> char {
    if v < 10 {
        (('0' as nat) + v) as char
    } else {
        (('a' as nat) + v - 10) as char
    }
}

/// Lower-case hex of a byte string: two digits per byte, high nibble first.
pub open spec fn hex_lower(data: Seq<u8>) -> Seq<char>
    decreases data.len(),
{
    if data.len() == 0 {
        Seq::empty()
    } else {
        hex_lower(data.drop_last()).push(hex_digit(data.last() as nat / 16)).push(
            hex_digit(data.last() as nat % 16),
        )
    }
}

/// Calls `hex::encode`: the lower-case hex of the bytes, two digits per byte, high nibble first.
#[verifier::external_body]
pub(crate) fn hex_encode(data: &[u8]) -> (s: String)
    ensures
        s@ == hex_lower(data@),
{
    hex::encode(data)
}

} // verus!
