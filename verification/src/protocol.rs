//! Protocol constants and the protocol version.

use vstd::prelude::*;

verus! {

/// First string in a handshake, helps with weeding out connections with completely different
/// protocols on the other end.
pub open spec fn magic_bytes() -> Seq<u8> {
    seq![0x4fu8, 0x55u8, 0x49u8, 0x53u8, 0x59u8, 0x4eu8, 0x43u8]
}

/// The handshake string "OUISYNC".
pub fn magic() -> (r: [u8; 7])
    ensures
        r@ == magic_bytes(),
{
    let r = [0x4fu8, 0x55u8, 0x49u8, 0x53u8, 0x59u8, 0x4eu8, 0x43u8];
    assert(r@ =~= magic_bytes());
    r
}

/// Length of a runtime id in bytes.
pub const RUNTIME_ID_SIZE: usize = 16;

/// Randomly generated ephemeral id that uniquely identifies a replica. Changes every time the
/// replica is restarted.
#[derive(Clone, Copy, PartialEq, Eq, Hash, Debug, PartialOrd, Ord)]
pub struct RuntimeId(pub [u8; 16]);

/// Protocol version.
#[derive(Clone, Copy, PartialEq, Eq, Debug, Structural)]
pub struct Version(pub u64);

/// The number of the version of the protocol spoken by this library.
pub const VERSION_NUMBER: u64 = 1;

#[verifier::external_type_specification]
#[verifier::external_body]
pub struct ExVint64Error(vint64::Error);

/// The `vint64` encoding of the value: little endian, with the length in the trailing zero bits
/// of the first byte.
pub uninterp spec fn vint64_encoding(value: u64) -> Seq<u8>;

/// The value at the start of the bytes, with the number of bytes that follow it, or `None` where
/// they do not start with a valid `vint64`.
pub uninterp spec fn vint64_decoding(input: Seq<u8>) -> Option<(u64, nat)>;

/// Number of trailing zero bits of the byte (eight for zero).
pub open spec fn trailing_zeros(b: u8) -> nat {
    tz_from(b, 0)
}

/// Number of zero bits of `b` from bit `i` up to the first set bit (or bit eight).
pub open spec fn tz_from(b: u8, i: nat) -> nat
    decreases 8 - i,
{
    if i >= 8 {
        0
    } else if (b >> i) & 1 == 1 {
        0
    } else {
        1 + tz_from(b, i + 1)
    }
}

/// The length of a `vint64` from its first byte, the first byte included.
pub open spec fn vint64_len(first: u8) -> nat {
    trailing_zeros(first) + 1
}

/// `vint64::encode`: the encoding of the value. It is one to nine bytes long, and its first byte
/// gives its length.
#[verifier::external_body]
fn vint64_encode(value: u64) -> (r: Vec<u8>)
    ensures
        r@ == vint64_encoding(value),
        1 <= r@.len() <= 9,
        vint64_len(r@[0]) == r@.len(),
{
    vint64::encode(value).as_ref().to_vec()
}

/// `vint64::decoded_len`: the length of a `vint64` from its first byte, the trailing zero bits
/// plus one.
#[verifier::external_body]
fn vint64_decoded_len(first: u8) -> (r: usize)
    ensures
        r == vint64_len(first),
{
    vint64::decoded_len(first)
}

/// `vint64::decode`: the value at the start of `input` and the number of bytes after it. It
/// gives back the value of an encoding, whatever follows it.
#[verifier::external_body]
fn vint64_decode(input: &[u8]) -> (r: Result<(u64, usize), vint64::Error>)
    ensures
        r is Ok ==> vint64_decoding(input@) == Some((r->Ok_0.0, r->Ok_0.1 as nat)),
        r is Err ==> vint64_decoding(input@) is None,
        forall|v: u64, tail: Seq<u8>|
            input@ == #[trigger] (vint64_encoding(v) + tail) ==> r is Ok && r->Ok_0.0 == v && r->Ok_0.1
                == tail.len(),
{
    let mut slice = input;
    match vint64::decode(&mut slice) {
        Ok(v) => Ok((v, slice.len())),
        Err(e) => Err(e),
    }
}

/// Why bytes could not be read as a version.
#[derive(Clone, Copy, PartialEq, Eq, Debug, Structural)]
pub enum VersionError {
    /// The bytes do not start with a valid `vint64`.
    InvalidData,
}

impl Version {
    /// The version of the protocol spoken by this library.
    pub fn current() -> (r: Version)
        ensures
            r.0 == VERSION_NUMBER,
    {
        Version(VERSION_NUMBER)
    }

    /// The lowest version.
    pub fn zero() -> (r: Version)
        ensures
            r.0 == 0,
    {
        Version(0)
    }

    /// The wire form of the version: its `vint64` encoding.
    pub fn encode(&self) -> (r: Vec<u8>)
        ensures
            r@ == vint64_encoding(self.0),
            1 <= r@.len() <= 9,
            vint64_len(r@[0]) == r@.len(),
    {
        vint64_encode(self.0)
    }

    /// The total length of an encoded version, from its first byte.
    pub fn encoded_len(first: u8) -> (r: usize)
        ensures
            r == vint64_len(first),
            1 <= r <= 9,
    {
        proof {
            lemma_tz_bound(first, 0);
        }
        vint64_decoded_len(first)
    }

    /// Reads a version from the start of the bytes. The encoding of a version reads back as
    /// that version.
    pub fn decode(input: &[u8]) -> (r: Result<Version, VersionError>)
        ensures
            r matches Ok(v) ==> vint64_decoding(input@) matches Some((w, _)) && v.0 == w,
            r is Err <==> vint64_decoding(input@) is None,
            forall|v: u64, tail: Seq<u8>|
                input@ == #[trigger] (vint64_encoding(v) + tail) ==> r == Ok::<Version, VersionError>(
                    Version(v),
                ),
    {
        match vint64_decode(input) {
            Ok((v, _)) => Ok(Version(v)),
            Err(_) => Err(VersionError::InvalidData),
        }
    }

    /// Whether this version is newer than `other`.
    pub fn is_newer_than(&self, other: &Version) -> (r: bool)
        ensures
            r == (self.0 > other.0),
    {
        self.0 > other.0
    }

    /// The version as a `u32`, truncated.
    pub fn to_u32(&self) -> (r: u32)
        ensures
            r == self.0 as u32,
    {
        self.0 as u32
    }
}

proof fn lemma_tz_bound(b: u8, i: nat)
    requires
        i <= 8,
    ensures
        tz_from(b, i) <= 8 - i,
    decreases 8 - i,
{
    if i < 8 && (b >> i) & 1 != 1 {
        lemma_tz_bound(b, i + 1);
    }
}

} // verus!
