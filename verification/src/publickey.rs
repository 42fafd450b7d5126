//! Public keys in their JSON Web Key form, and the one-cell codes that the
//! compiled program stores for their key type, curve, algorithm and use.

use vstd::prelude::*;

use base64::Engine;

use crate::text::str_eq;

verus! {

/// Memory cells taken by a public key: key type, curve, algorithm, use, and
/// a pointer to the 64 bytes of the x and y coordinates.
pub const WIDTH: u32 = 5;

/// JSON Web Key type.
#[derive(Debug, Copy, Clone, Default, PartialEq, Eq, Hash)]
pub enum Kty {
    #[default]
    EC,
}

/// JSON Web Key curve.
#[derive(Debug, Copy, Clone, Default, PartialEq, Eq, Hash)]
pub enum Crv {
    #[default]
    Secp256k1,
}

/// JSON Web Key algorithm.
#[derive(Debug, Copy, Clone, Default, PartialEq, Eq, Hash)]
pub enum Alg {
    #[default]
    ES256K,
}

/// JSON Web Key use.
#[derive(Debug, Copy, Clone, Default, PartialEq, Eq, Hash)]
pub enum Use {
    #[default]
    Sig,
}

/// A secp256k1 public key with its x and y coordinates.
#[derive(Debug, Default, PartialEq, Eq, Hash, Clone)]
pub struct Key {
    pub kty: Kty,
    pub crv: Crv,
    pub alg: Alg,
    pub use_: Use,
    pub x: [u8; 32],
    pub y: [u8; 32],
}

impl From<Kty> for u8 {
    fn from(value: Kty) -> (code: u8) {
        match value {
            Kty::EC => 1,
        }
    }
}

impl vstd::std_specs::convert::FromSpecImpl<Kty> for u8 {
    open spec fn obeys_from_spec() -> bool {
        true
    }

    open spec fn from_spec(v: Kty) -> u8 {
        match v {
            Kty::EC => 1,
        }
    }
}

impl From<Crv> for u8 {
    fn from(value: Crv) -> (code: u8) {
        match value {
            Crv::Secp256k1 => 1,
        }
    }
}

impl vstd::std_specs::convert::FromSpecImpl<Crv> for u8 {
    open spec fn obeys_from_spec() -> bool {
        true
    }

    open spec fn from_spec(v: Crv) -> u8 {
        match v {
            Crv::Secp256k1 => 1,
        }
    }
}

impl From<Alg> for u8 {
    fn from(value: Alg) -> (code: u8) {
        match value {
            Alg::ES256K => 1,
        }
    }
}

impl vstd::std_specs::convert::FromSpecImpl<Alg> for u8 {
    open spec fn obeys_from_spec() -> bool {
        true
    }

    open spec fn from_spec(v: Alg) -> u8 {
        match v {
            Alg::ES256K => 1,
        }
    }
}

impl From<Use> for u8 {
    fn from(value: Use) -> (code: u8) {
        match value {
            Use::Sig => 1,
        }
    }
}

impl vstd::std_specs::convert::FromSpecImpl<Use> for u8 {
    open spec fn obeys_from_spec() -> bool {
        true
    }

    open spec fn from_spec(v: Use) -> u8 {
        match v {
            Use::Sig => 1,
        }
    }
}

impl Kty {
    /// The key type stored as `code`; 1 is the only code in use.
    pub fn from_u8(code: u8) -> (k: Kty)
        requires
            code == 1,
        ensures
            k == Kty::EC,
    {
        Kty::EC
    }

    /// Parses the JSON Web Key name of a key type.
    pub fn from_str(s: &str) -> (r: Result<Kty, ()>)
        ensures
            r == (if s@ == "EC"@ {
                Ok::<Kty, ()>(Kty::EC)
            } else {
                Err::<Kty, ()>(())
            }),
    {
        if str_eq(s, "EC") {
            Ok(Kty::EC)
        } else {
            Err(())
        }
    }
}

impl Crv {
    /// The curve stored as `code`; 1 is the only code in use.
    pub fn from_u8(code: u8) -> (c: Crv)
        requires
            code == 1,
        ensures
            c == Crv::Secp256k1,
    {
        Crv::Secp256k1
    }

    /// Parses the JSON Web Key name of a curve.
    pub fn from_str(s: &str) -> (r: Result<Crv, ()>)
        ensures
            r == (if s@ == "secp256k1"@ {
                Ok::<Crv, ()>(Crv::Secp256k1)
            } else {
                Err::<Crv, ()>(())
            }),
    {
        if str_eq(s, "secp256k1") {
            Ok(Crv::Secp256k1)
        } else {
            Err(())
        }
    }
}

impl Alg {
    /// The algorithm stored as `code`; 1 is the only code in use.
    pub fn from_u8(code: u8) -> (a: Alg)
        requires
            code == 1,
        ensures
            a == Alg::ES256K,
    {
        Alg::ES256K
    }

    /// Parses the JSON Web Key name of an algorithm.
    pub fn from_str(s: &str) -> (r: Result<Alg, ()>)
        ensures
            r == (if s@ == "ES256K"@ {
                Ok::<Alg, ()>(Alg::ES256K)
            } else {
                Err::<Alg, ()>(())
            }),
    {
        if str_eq(s, "ES256K") {
            Ok(Alg::ES256K)
        } else {
            Err(())
        }
    }
}

impl Use {
    /// The use stored as `code`; 1 is the only code in use.
    pub fn from_u8(code: u8) -> (u: Use)
        requires
            code == 1,
        ensures
            u == Use::Sig,
    {
        Use::Sig
    }

    /// Parses the JSON Web Key name of a key use.
    pub fn from_str(s: &str) -> (r: Result<Use, ()>)
        ensures
            r == (if s@ == "sig"@ {
                Ok::<Use, ()>(Use::Sig)
            } else {
                Err::<Use, ()>(())
            }),
    {
        if str_eq(s, "sig") {
            Ok(Use::Sig)
        } else {
            Err(())
        }
    }
}

/// The symbol of a 6-bit value in the URL-safe base64 alphabet of RFC 4648
/// (section 5): `A`-`Z`, `a`-`z`, `0`-`9`, `-`, `_`.
pub open spec fn url_safe_symbol(v: int) -> char {
    if v < 26 {
        ('A' as int + v) as char
    } else if v < 52 {
        ('a' as int + v - 26) as char
    } else if v < 62 {
        ('0' as int + v - 52) as char
    } else if v == 62 {
        '-'
    } else {
        '_'
    }
}

/// `bytes` in URL-safe base64 with padding: each group of three bytes as
/// four symbols of six bits each; a last group of one or two bytes as two
/// or three symbols, its unused low bits zero, then `=` up to four.
pub open spec fn url_safe_base64(bytes: Seq<u8>) -> Seq<char>
    decreases bytes.len(),
{
    if bytes.len() == 0 {
        Seq::empty()
    } else if bytes.len() == 1 {
        let a = bytes[0] as int;
        seq![url_safe_symbol(a / 4), url_safe_symbol((a % 4) * 16), '=', '=']
    } else if bytes.len() == 2 {
        let a = bytes[0] as int;
        let b = bytes[1] as int;
        seq![
            url_safe_symbol(a / 4),
            url_safe_symbol((a % 4) * 16 + b / 16),
            url_safe_symbol((b % 16) * 4),
            '=',
        ]
    } else {
        let a = bytes[0] as int;
        let b = bytes[1] as int;
        let c = bytes[2] as int;
        seq![
            url_safe_symbol(a / 4),
            url_safe_symbol((a % 4) * 16 + b / 16),
            url_safe_symbol((b % 16) * 4 + c / 64),
            url_safe_symbol(c % 64),
        ] + url_safe_base64(bytes.skip(3))
    }
}

proof fn lemma_symbol_injective(v: int, w: int)
    requires
        0 <= v < 64,
        0 <= w < 64,
    ensures
        url_safe_symbol(v) != '=',
        url_safe_symbol(v) == url_safe_symbol(w) ==> v == w,
{
    let cv = url_safe_symbol(v) as u32;
    let cw = url_safe_symbol(w) as u32;
    assert(cv == if v < 26 { 65 + v } else if v < 52 { 97 + v - 26 } else if v < 62 { 48 + v - 52 } else if v == 62 { 45 } else { 95 });
    assert(cw == if w < 26 { 65 + w } else if w < 52 { 97 + w - 26 } else if w < 62 { 48 + w - 52 } else if w == 62 { 45 } else { 95 });
}

proof fn lemma_url_safe_base64_len(bytes: Seq<u8>)
    ensures
        bytes.len() == 0 <==> url_safe_base64(bytes).len() == 0,
        bytes.len() > 0 ==> url_safe_base64(bytes).len() >= 4,
        bytes.len() <= 3 ==> url_safe_base64(bytes).len() <= 4,
    decreases bytes.len(),
{
    if bytes.len() >= 3 {
        lemma_url_safe_base64_len(bytes.skip(3));
    }
}

/// Different bytes have different base64 texts.
proof fn lemma_url_safe_base64_injective(b1: Seq<u8>, b2: Seq<u8>)
    requires
        url_safe_base64(b1) == url_safe_base64(b2),
    ensures
        b1 == b2,
    decreases b1.len(),
{
    let e = url_safe_base64(b1);
    lemma_url_safe_base64_len(b1);
    lemma_url_safe_base64_len(b2);
    if b1.len() == 0 {
        assert(b2.len() == 0);
        assert(b1 =~= b2);
    } else {
        let a1 = b1[0] as int;
        let a2 = b2[0] as int;
        lemma_symbol_injective(a1 / 4, a2 / 4);
        let x1 = if b1.len() >= 2 { b1[1] as int } else { 0 };
        let x2 = if b2.len() >= 2 { b2[1] as int } else { 0 };
        let y1 = if b1.len() >= 3 { b1[2] as int } else { 0 };
        let y2 = if b2.len() >= 3 { b2[2] as int } else { 0 };
        lemma_symbol_injective((a1 % 4) * 16 + x1 / 16, (a2 % 4) * 16 + x2 / 16);
        lemma_symbol_injective((x1 % 16) * 4 + y1 / 64, (x2 % 16) * 4 + y2 / 64);
        lemma_symbol_injective(y1 % 64, y2 % 64);
        assert(e[0] == url_safe_symbol(a1 / 4));
        assert(a1 / 4 == a2 / 4);
        assert(e[1] == url_safe_symbol((a1 % 4) * 16 + x1 / 16));
        assert(e[1] == url_safe_symbol((a2 % 4) * 16 + x2 / 16));
        // the padding tells how many bytes the first group holds
        assert(b1.len() == 1 ==> e[2] == '=');
        assert(b2.len() == 1 ==> e[2] == '=');
        assert(b1.len() >= 2 ==> e[2] == url_safe_symbol((x1 % 16) * 4 + y1 / 64));
        assert(b2.len() >= 2 ==> e[2] == url_safe_symbol((x2 % 16) * 4 + y2 / 64));
        assert(b1.len() <= 2 ==> e[3] == '=');
        assert(b2.len() <= 2 ==> e[3] == '=');
        assert(b1.len() >= 3 ==> e[3] == url_safe_symbol(y1 % 64));
        assert(b2.len() >= 3 ==> e[3] == url_safe_symbol(y2 % 64));
        assert((b1.len() == 1) == (b2.len() == 1));
        assert((b1.len() == 2) == (b2.len() == 2));
        assert(a1 == a2);
        assert(x1 == x2);
        assert(y1 == y2);
        if b1.len() >= 3 {
            assert(e.skip(4) =~= url_safe_base64(b1.skip(3)));
            assert(e.skip(4) =~= url_safe_base64(b2.skip(3)));
            lemma_url_safe_base64_injective(b1.skip(3), b2.skip(3));
            assert(b1.len() == b2.len());
            assert forall|k: int| 0 <= k < b1.len() implies b1[k] == b2[k] by {
                if k >= 3 {
                    assert(b1[k] == b1.skip(3)[k - 3]);
                    assert(b2[k] == b2.skip(3)[k - 3]);
                }
            }
            assert(b1 =~= b2);
        } else {
            assert(b1.len() == b2.len());
            assert(b1[0] == b2[0]);
            assert(b1.len() == 2 ==> b1[1] == b2[1]);
            assert(b1 =~= b2);
        }
    }
}

/// Why base64 text could not be decoded: the variants of the decoder's
/// error, with the offset and value of the offending byte where it names one.
#[derive(Debug, Clone, Copy, PartialEq, Eq)]
pub enum Base64Error {
    InvalidByte(usize, u8),
    InvalidLength,
    InvalidLastSymbol(usize, u8),
    InvalidPadding,
}

/// What the URL-safe, padded base64 decoder makes of `text`: the decoded
/// bytes, or the error it reports.
pub uninterp spec fn url_safe_base64_decoded(text: Seq<char>) -> Result<Seq<u8>, Base64Error>;

/// Encodes with `base64::engine::general_purpose::URL_SAFE`, the engine with
/// the URL-safe alphabet and `=` padding. The contract claims that the text
/// is `url_safe_base64` of the bytes, the encoding that RFC 4648 fixes.
#[verifier::external_body]
fn encode_url_safe_base64(bytes: &[u8]) -> (text: String)
    ensures
        text@ == url_safe_base64(bytes@),
{
    base64::engine::general_purpose::URL_SAFE.encode(bytes)
}

/// Decodes the bytes of `text` with `base64::engine::general_purpose::URL_SAFE`
/// and converts the decoder's error variant by variant. The contract claims
/// that the outcome is a function of the text, named
/// `url_safe_base64_decoded`, and that this engine (padding required and
/// canonical, no stray trailing bits) decodes exactly the texts that
/// `url_safe_base64` produces, each to the bytes it encodes. Which error a
/// text that is not such an encoding gives is not stated.
#[verifier::external_body]
fn decode_url_safe_base64(text: &str) -> (r: Result<Vec<u8>, Base64Error>)
    ensures
        match (r, url_safe_base64_decoded(text@)) {
            (Ok(v), Ok(b)) => v@ == b,
            (Err(e), Err(f)) => e == f,
            _ => false,
        },
        r is Ok || forall|b: Seq<u8>| text@ != url_safe_base64(b),
        r matches Ok(v) ==> text@ == url_safe_base64(v@),
{
    match base64::engine::general_purpose::URL_SAFE.decode(text.as_bytes()) {
        Ok(bytes) => Ok(bytes),
        Err(base64::DecodeError::InvalidByte(i, b)) => Err(Base64Error::InvalidByte(i, b)),
        Err(base64::DecodeError::InvalidLength) => Err(Base64Error::InvalidLength),
        Err(base64::DecodeError::InvalidLastSymbol(i, b)) => Err(Base64Error::InvalidLastSymbol(i, b)),
        Err(base64::DecodeError::InvalidPadding) => Err(Base64Error::InvalidPadding),
    }
}

/// Why a key coordinate could not be read from its base64 text.
#[derive(Debug, Clone, Copy, PartialEq, Eq)]
pub enum CoordinateError {
    /// The text is not valid URL-safe base64.
    Decode(Base64Error),
    /// The text decodes to a number of bytes other than 32.
    InvalidLength,
}

/// The text of a key coordinate: its 32 bytes in URL-safe base64 with
/// padding.
pub fn to_url_safe_base64(bytes: &[u8; 32]) -> (text: String)
    ensures
        text@ == url_safe_base64(bytes@),
{
    encode_url_safe_base64(bytes.as_slice())
}

/// A key coordinate from the outcome of decoding its text: the decoded
/// bytes when there are exactly 32 of them.
pub fn coordinate_from_decoded(decoded: Result<Vec<u8>, Base64Error>) -> (r: Result<
    [u8; 32],
    CoordinateError,
>)
    ensures
        match decoded {
            Err(e) => r == Err::<[u8; 32], CoordinateError>(CoordinateError::Decode(e)),
            Ok(v) => if v@.len() == 32 {
                r matches Ok(a) && a@ == v@
            } else {
                r == Err::<[u8; 32], CoordinateError>(CoordinateError::InvalidLength)
            },
        },
{
    match decoded {
        Err(e) => Err(CoordinateError::Decode(e)),
        Ok(v) => {
            if v.len() != 32 {
                return Err(CoordinateError::InvalidLength);
            }
            let mut a = [0u8; 32];
            let mut i: usize = 0;
            while i < 32
                invariant
                    i <= 32,
                    v@.len() == 32,
                    forall|j: int| 0 <= j < i ==> a@[j] == v@[j],
                decreases 32 - i,
            {
                a[i] = v[i];
                i = i + 1;
            }
            assert(a@ =~= v@);
            Ok(a)
        },
    }
}

/// A key coordinate from its URL-safe base64 text. Decoding the text that
/// `to_url_safe_base64` gives for a coordinate gives the coordinate back.
pub fn from_url_safe_base64(text: &str) -> (r: Result<[u8; 32], CoordinateError>)
    ensures
        forall|b: Seq<u8>| b.len() == 32 && text@ == url_safe_base64(b) ==> (r matches Ok(a) && a@ == b),
        r matches Ok(a) ==> text@ == url_safe_base64(a@),
        match url_safe_base64_decoded(text@) {
            Err(e) => r == Err::<[u8; 32], CoordinateError>(CoordinateError::Decode(e)),
            Ok(b) => if b.len() == 32 {
                r matches Ok(a) && a@ == b
            } else {
                r == Err::<[u8; 32], CoordinateError>(CoordinateError::InvalidLength)
            },
        },
{
    let decoded = decode_url_safe_base64(text);
    proof {
        if let Ok(v) = &decoded {
            assert forall|b: Seq<u8>| text@ == url_safe_base64(b) implies v@ == b by {
                lemma_url_safe_base64_injective(v@, b);
            }
        }
    }
    coordinate_from_decoded(decoded)
}

} // verus!
