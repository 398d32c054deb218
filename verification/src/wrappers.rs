//! The SHA-1 track hash: a fixed 20-byte digest, carried as plain bytes and
//! converted to and from its 40-digit hexadecimal spelling.

use vstd::prelude::*;

use sha1::Digest;
use vstd::string::StringSliceAdditionalSpecFns;

verus! {

/// What the SHA-1 function returns for a byte sequence. The digest takes
/// pages to state, but it depends on the input bytes alone, so it only gets
/// a name here; the hashing crate computes it.
pub uninterp spec fn sha1_of(data: Seq<u8>) -> Seq<u8>;

/// A SHA-1 digest: 20 bytes identifying a track file.
#[derive(Hash, Default, Clone, Copy, PartialEq, Eq, PartialOrd, Ord, Debug)]
pub struct Sha1(pub [u8; 20]);

impl View for Sha1 {
    type V = Seq<u8>;

    open spec fn view(&self) -> Seq<u8> {
        self.0@
    }
}

/// Whether a byte spells a hexadecimal digit, in either case.
pub open spec fn is_hex_digit(b: u8) -> bool {
    (0x30 <= b <= 0x39) || (0x41 <= b <= 0x46) || (0x61 <= b <= 0x66)
}

/// The value of one hexadecimal digit byte.
pub open spec fn hex_val(b: u8) -> u8 {
    if 0x30 <= b <= 0x39 {
        (b - 0x30) as u8
    } else if 0x41 <= b <= 0x46 {
        (b - 0x41 + 10) as u8
    } else if 0x61 <= b <= 0x66 {
        (b - 0x61 + 10) as u8
    } else {
        0
    }
}

/// The lowercase hexadecimal spelling of one digit value.
pub open spec fn hex_char(v: u8) -> char {
    if v == 0 {
        '0'
    } else if v == 1 {
        '1'
    } else if v == 2 {
        '2'
    } else if v == 3 {
        '3'
    } else if v == 4 {
        '4'
    } else if v == 5 {
        '5'
    } else if v == 6 {
        '6'
    } else if v == 7 {
        '7'
    } else if v == 8 {
        '8'
    } else if v == 9 {
        '9'
    } else if v == 10 {
        'a'
    } else if v == 11 {
        'b'
    } else if v == 12 {
        'c'
    } else if v == 13 {
        'd'
    } else if v == 14 {
        'e'
    } else {
        'f'
    }
}

/// The lowercase hexadecimal spelling of a byte sequence: two digits per
/// byte, high nibble first.
pub open spec fn hex_chars_of(bytes: Seq<u8>) -> Seq<char> {
    Seq::new(
        bytes.len() * 2,
        |i: int|
            if i % 2 == 0 {
                hex_char(bytes[i / 2] / 16)
            } else {
                hex_char((bytes[i / 2] % 16) as u8)
            },
    )
}

/// The bytes spelled by a sequence of hexadecimal digit bytes, two per byte.
pub open spec fn hex_bytes_of(digits: Seq<u8>) -> Seq<u8> {
    Seq::new(
        (digits.len() / 2) as nat,
        |i: int| (hex_val(digits[2 * i]) * 16 + hex_val(digits[2 * i + 1])) as u8,
    )
}

/// Relies on hex::encode: one lowercase digit pair per byte, high nibble
/// first (the crate computes the nibbles as `b >> 4` and `b & 0x0f`, which
/// for a byte are its quotient and remainder by 16).
#[verifier::external_body]
fn hex_encode_20(bytes: &[u8; 20]) -> (r: String)
    ensures
        r@ == hex_chars_of(bytes@),
{
    hex::encode(bytes)
}

/// Relies on hex::decode_to_slice: it fills the 20 output bytes exactly when
/// the input is 40 hexadecimal digits (of either case), pairing digits high
/// nibble first, and reports an error otherwise.
#[verifier::external_body]
fn hex_decode_20(s: &str) -> (r: Option<[u8; 20]>)
    ensures
        r is Some <==> (s.spec_bytes().len() == 40 && (forall|i: int|
            0 <= i < 40 ==> is_hex_digit(#[trigger] s.spec_bytes()[i]))),
        r matches Some(out) ==> out@ == hex_bytes_of(s.spec_bytes()),
{
    let mut out = [0u8; 20];
    match hex::decode_to_slice(s, &mut out) {
        Ok(()) => Some(out),
        Err(_) => None,
    }
}

/// Relies on sha1::Sha1::digest: the 20-byte SHA-1 digest of the input,
/// a function of the input bytes alone.
#[verifier::external_body]
fn sha1_digest(data: &[u8]) -> (r: [u8; 20])
    ensures
        r@ == sha1_of(data@),
{
    let out = sha1::Sha1::digest(data);
    let mut bytes = [0u8; 20];
    bytes.copy_from_slice(&out);
    bytes
}

impl Sha1 {
    /// The raw digest bytes.
    pub fn into_inner(self) -> (r: [u8; 20])
        ensures
            r@ == self@,
    {
        self.0
    }

    /// Hashes a byte buffer.
    pub fn hash(data: &[u8]) -> (r: Self)
        ensures
            r@ == sha1_of(data@),
    {
        Self(sha1_digest(data))
    }

    /// The 40-digit lowercase hexadecimal spelling of the digest.
    pub fn to_hex(&self) -> (r: String)
        ensures
            r@ == hex_chars_of(self@),
    {
        hex_encode_20(&self.0)
    }

    /// Whether two digests hold the same bytes.
    pub fn equals(&self, other: &Sha1) -> (r: bool)
        ensures
            r == (self@ == other@),
    {
        let mut i: usize = 0;
        while i < 20
            invariant
                i <= 20,
                forall|k: int| 0 <= k < i ==> self@[k] == other@[k],
            decreases 20 - i,
        {
            if self.0[i] != other.0[i] {
                proof {
                    assert(self@[i as int] != other@[i as int]);
                }
                return false;
            }
            i = i + 1;
        }
        proof {
            assert(self@ =~= other@);
        }
        true
    }

    /// Reads a digest back from its hexadecimal spelling: exactly 40 digits
    /// of either case, or nothing.
    pub fn from_str(s: &str) -> (r: Option<Self>)
        ensures
            r is Some <==> (s.spec_bytes().len() == 40 && (forall|i: int|
                0 <= i < 40 ==> is_hex_digit(#[trigger] s.spec_bytes()[i]))),
            r matches Some(h) ==> h@ == hex_bytes_of(s.spec_bytes()),
    {
        match hex_decode_20(s) {
            Some(bytes) => Some(Self(bytes)),
            None => None,
        }
    }
}

impl From<[u8; 20]> for Sha1 {
    fn from(value: [u8; 20]) -> (r: Self) {
        Self(value)
    }
}

impl vstd::std_specs::convert::FromSpecImpl<[u8; 20]> for Sha1 {
    open spec fn obeys_from_spec() -> bool {
        true
    }

    open spec fn from_spec(value: [u8; 20]) -> Self {
        Sha1(value)
    }
}

} // verus!
