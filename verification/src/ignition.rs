//! Ignition-style message digests: `sha256-<hex>` or `sha512-<hex>`, and
//! checking data against them.

use crate::text::{chars_of, find_char, hex_value, len_before, sub_chars};
use std::io::Read;
use vstd::prelude::*;

verus! {

/// Ignition-style message digests.
#[derive(Debug, Clone)]
pub enum IgnitionHash {
    /// SHA-256 digest.
    Sha256(Vec<u8>),
    /// SHA-512 digest.
    Sha512(Vec<u8>),
}

/// The kind of digest, with the digest bytes.
pub enum HashSpec {
    Sha256(Seq<u8>),
    Sha512(Seq<u8>),
}

impl IgnitionHash {
    pub open spec fn spec(&self) -> HashSpec {
        match self {
            IgnitionHash::Sha256(d) => HashSpec::Sha256(d@),
            IgnitionHash::Sha512(d) => HashSpec::Sha512(d@),
        }
    }
}

/// Why a digest argument was refused, or data did not match it.
#[derive(Debug, Clone, PartialEq, Eq)]
pub enum HashError {
    /// No `-` between the hash type and the digest.
    MissingSeparator,
    /// The hash type is neither `sha256` nor `sha512`.
    UnknownType,
    /// The digest is not hexadecimal.
    BadHex,
    /// The digest has the wrong number of bits.
    WrongLength { bits: usize },
    /// The data does not have the expected digest.
    Mismatch,
    /// The data could not be read.
    Read,
}

/// Text that `hex::decode` accepts: an even number of hexadecimal digits,
/// in either case.
pub open spec fn hex_decodes(s: Seq<char>) -> bool {
    s.len() % 2 == 0 && forall|i: int| 0 <= i < s.len() ==> (#[trigger] hex_value(s[i])) is Some
}

/// The bytes that `hex::decode` gives for such text.
pub open spec fn hex_decode_spec(s: Seq<char>) -> Seq<u8> {
    Seq::new(
        s.len() / 2,
        |i: int| (hex_value(s[2 * i]).unwrap() * 16 + hex_value(s[2 * i + 1]).unwrap()) as u8,
    )
}

/// `hex::decode`: `None` for an odd length or a character that is not a
/// hexadecimal digit (a non-ASCII character has no hexadecimal bytes
/// either), else two digits per byte, high digit first.
#[verifier::external_body]
pub(crate) fn hex_decode(s: &str) -> (r: Option<Vec<u8>>)
    ensures
        r is Some <==> hex_decodes(s@),
        r matches Some(v) ==> v@ == hex_decode_spec(s@),
{
    hex::decode(s).ok()
}

/// `usize::saturating_mul(n, 8)`.
pub open spec fn bits_of(n: nat) -> usize {
    if n * 8 > usize::MAX {
        usize::MAX
    } else {
        (n * 8) as usize
    }
}

/// The digest of a `<type>-<hex>` argument.
pub open spec fn parse_spec(s: Seq<char>) -> Result<HashSpec, HashError> {
    let k = len_before(s, '-');
    if k >= s.len() {
        Err(HashError::MissingSeparator)
    } else {
        let kind = s.take(k as int);
        let hex = s.skip(k + 1int);
        if kind != "sha256"@ && kind != "sha512"@ {
            Err(HashError::UnknownType)
        } else if !hex_decodes(hex) {
            Err(HashError::BadHex)
        } else {
            let d = hex_decode_spec(hex);
            let want: nat = if kind == "sha256"@ {
                256
            } else {
                512
            };
            if d.len() * 8 != want {
                Err(HashError::WrongLength { bits: bits_of(d.len()) })
            } else if kind == "sha256"@ {
                Ok(HashSpec::Sha256(d))
            } else {
                Ok(HashSpec::Sha512(d))
            }
        }
    }
}

/// The SHA-256 digest of the data.
pub uninterp spec fn sha256_digest(data: Seq<u8>) -> Seq<u8>;

/// The SHA-512 digest of the data.
pub uninterp spec fn sha512_digest(data: Seq<u8>) -> Seq<u8>;

/// `openssl::sha::sha256`: the 32-byte SHA-256 digest.
#[verifier::external_body]
pub(crate) fn sha256_of(data: &[u8]) -> (r: Vec<u8>)
    ensures
        r@ == sha256_digest(data@),
        r@.len() == 32,
{
    openssl::sha::sha256(data).to_vec()
}

/// `openssl::sha::sha512`: the 64-byte SHA-512 digest.
#[verifier::external_body]
fn sha512_of(data: &[u8]) -> (r: Vec<u8>)
    ensures
        r@ == sha512_digest(data@),
        r@.len() == 64,
{
    openssl::sha::sha512(data).to_vec()
}

/// The digest of `data` that `h` is of the kind of.
pub open spec fn digest_for(h: HashSpec, data: Seq<u8>) -> Seq<u8> {
    match h {
        HashSpec::Sha256(_) => sha256_digest(data),
        HashSpec::Sha512(_) => sha512_digest(data),
    }
}

pub open spec fn expected(h: HashSpec) -> Seq<u8> {
    match h {
        HashSpec::Sha256(d) => d,
        HashSpec::Sha512(d) => d,
    }
}

pub(crate) fn bytes_eq(a: &[u8], b: &[u8]) -> (r: bool)
    ensures
        r == (a@ == b@),
{
    if a.len() != b.len() {
        return false;
    }
    let mut i: usize = 0;
    while i < a.len()
        invariant
            i <= a.len(),
            a.len() == b.len(),
            forall|k: int| 0 <= k < i ==> a@[k] == b@[k],
        decreases a.len() - i,
    {
        if a[i] != b[i] {
            return false;
        }
        i += 1;
    }
    assert(a@ =~= b@);
    true
}

impl IgnitionHash {
    /// Parses a digest argument of the form `<type>-<hex>`, as the
    /// `ignition.config.verification.hash` setting writes it.
    pub fn try_parse(input: &str) -> (r: Result<Self, HashError>)
        ensures
            match parse_spec(input@) {
                Ok(h) => r matches Ok(v) && v.spec() == h,
                Err(e) => r == Err::<Self, HashError>(e),
            },
    {
        let v = chars_of(input);
        let k = find_char(&v, 0, '-');
        assert(v@.skip(0) =~= v@);
        if k >= v.len() {
            return Err(HashError::MissingSeparator);
        }
        let kind = sub_chars(&v, 0, k);
        let rest = sub_chars(&v, k + 1, v.len());
        assert(kind@ == input@.take(k as int));
        assert(rest@ == input@.skip(k + 1));
        proof {
            reveal_strlit("sha256");
            reveal_strlit("sha512");
        }
        let is256 = crate::text::chars_eq(&kind, &chars_of("sha256"));
        let is512 = crate::text::chars_eq(&kind, &chars_of("sha512"));
        if !is256 && !is512 {
            return Err(HashError::UnknownType);
        }
        let hex = crate::text::string_of(&rest);
        let d = match hex_decode(hex.as_str()) {
            Some(d) => d,
            None => return Err(HashError::BadHex),
        };
        let bits: usize = if d.len() > usize::MAX / 8 {
            usize::MAX
        } else {
            d.len() * 8
        };
        if is256 {
            if bits != 256 {
                return Err(HashError::WrongLength { bits });
            }
            Ok(IgnitionHash::Sha256(d))
        } else {
            if bits != 512 {
                return Err(HashError::WrongLength { bits });
            }
            Ok(IgnitionHash::Sha512(d))
        }
    }

    /// Checks `data` against the digest.
    pub fn check(&self, data: &[u8]) -> (r: Result<(), HashError>)
        ensures
            r is Ok <==> digest_for(self.spec(), data@) == expected(self.spec()),
            r is Err ==> r == Err::<(), HashError>(HashError::Mismatch),
    {
        let computed = match self {
            IgnitionHash::Sha256(_) => sha256_of(data),
            IgnitionHash::Sha512(_) => sha512_of(data),
        };
        let want = match self {
            IgnitionHash::Sha256(d) => d,
            IgnitionHash::Sha512(d) => d,
        };
        if !bytes_eq(computed.as_slice(), want.as_slice()) {
            return Err(HashError::Mismatch);
        }
        Ok(())
    }

    /// Reads `input` to its end and checks it against the digest.
    pub fn validate<R: Read>(&self, input: &mut R) -> (r: Result<(), HashError>)
        ensures
            r is Ok ==> exists|data: Seq<u8>| digest_for(self.spec(), data) == expected(self.spec()),
    {
        let mut data: Vec<u8> = Vec::new();
        match crate::io::read_to_end(input, &mut data) {
            Ok(()) => {},
            Err(_) => return Err(HashError::Read),
        }
        self.check(data.as_slice())
    }
}

} // verus!
