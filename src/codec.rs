use vstd::prelude::*;
use vstd::slice::slice_subrange;
use crate::keypair::{KeyPair, KeyPairModel, KEY_LENGTH};

verus! {

/// The comma that separates the public and the secret half of a line.
pub const DELIMITER: u8 = 0x2c;

/// The lowercase ASCII hex digit for a nibble.
pub open spec fn hex_digit(n: int) -> u8 {
    if n < 10 {
        (0x30 + n) as u8
    } else {
        (0x61 + n - 10) as u8
    }
}

/// Lowercase hex text of a byte sequence, high nibble first.
pub open spec fn hex_of(b: Seq<u8>) -> Seq<u8> {
    Seq::new(
        2 * b.len(),
        |i: int|
            if i % 2 == 0 {
                hex_digit(b[i / 2] as int / 16)
            } else {
                hex_digit(b[i / 2] as int % 16)
            },
    )
}

/// An ASCII hex digit, either case.
pub open spec fn is_hex_char(c: u8) -> bool {
    (0x30 <= c <= 0x39) || (0x41 <= c <= 0x46) || (0x61 <= c <= 0x66)
}

/// The nibble that an ASCII hex digit stands for.
pub open spec fn hex_val(c: u8) -> int {
    if 0x30 <= c <= 0x39 {
        c - 0x30
    } else if 0x41 <= c <= 0x46 {
        c - 0x41 + 10
    } else {
        c - 0x61 + 10
    }
}

/// Text that decodes as hex: an even number of hex digits.
pub open spec fn hex_ok(s: Seq<u8>) -> bool {
    s.len() % 2 == 0 && forall|i: int| 0 <= i < s.len() ==> is_hex_char(#[trigger] s[i])
}

/// The bytes that hex text stands for, two digits per byte.
pub open spec fn hex_decoded(s: Seq<u8>) -> Seq<u8> {
    Seq::new(s.len() / 2, |i: int| (hex_val(s[2 * i]) * 16 + hex_val(s[2 * i + 1])) as u8)
}

/// Whether ed25519 accepts these bytes as the encoding of a public key.
pub uninterp spec fn public_key_accepts(b: Seq<u8>) -> bool;

#[verifier::external_type_specification]
#[verifier::external_body]
pub struct ExFromHexError(hex::FromHexError);

/// Relies on hex::encode: two lowercase digits per byte, high nibble first.
#[verifier::external_body]
fn hex_encode(b: &[u8]) -> (r: Vec<u8>)
    ensures
        r@ == hex_of(b@),
{
    hex::encode(b).into_bytes()
}

/// Relies on hex::decode: an odd length or a byte that is no hex digit
/// (either case) is an error, else each pair of digits gives one byte.
#[verifier::external_body]
fn hex_decode(s: &[u8]) -> (r: Result<Vec<u8>, hex::FromHexError>)
    ensures
        r is Ok <==> hex_ok(s@),
        r matches Ok(b) ==> b@ == hex_decoded(s@),
{
    hex::decode(s)
}

/// Relies on ed25519_dalek::PublicKey::from_bytes, which refuses a length
/// other than 32 and bytes that do not decompress to a curve point.
#[verifier::external_body]
fn public_key_valid(b: &[u8]) -> (r: bool)
    ensures
        r == public_key_accepts(b@),
        r ==> b@.len() == KEY_LENGTH,
{
    ed25519_dalek::PublicKey::from_bytes(b).is_ok()
}

/// Relies on ed25519_dalek::SecretKey::from_bytes, which accepts exactly the
/// inputs of length 32.
#[verifier::external_body]
fn secret_key_valid(b: &[u8]) -> (r: bool)
    ensures
        r == (b@.len() == KEY_LENGTH),
{
    ed25519_dalek::SecretKey::from_bytes(b).is_ok()
}

/// Why a checkpoint line was refused.
#[derive(Clone, Copy, Debug, PartialEq, Eq, Structural)]
pub enum LineError {
    /// The line holds no comma.
    MissingDelimiter,
    /// A half is not an even number of hex digits.
    InvalidHex,
    /// The public half is not an ed25519 public key.
    InvalidPublicKey,
    /// The secret half is not 32 bytes long.
    InvalidSecretKey,
}

/// The checkpoint line of a key pair: public hex, the delimiter, secret hex.
pub open spec fn line_of(kp: KeyPairModel) -> Seq<u8> {
    hex_of(kp.public) + seq![DELIMITER] + hex_of(kp.secret)
}

/// `k` is the position of the first delimiter in `line`.
pub open spec fn is_first_delimiter(line: Seq<u8>, k: int) -> bool {
    &&& 0 <= k < line.len()
    &&& line[k] == DELIMITER
    &&& forall|j: int| 0 <= j < k ==> line[j] != DELIMITER
}

/// What a checkpoint line stands for: split at the first delimiter, both
/// halves hex-decoded, the public half an ed25519 public key and the secret
/// half 32 bytes.
pub open spec fn parse_line(line: Seq<u8>) -> Result<KeyPairModel, LineError> {
    if !(exists|k: int| is_first_delimiter(line, k)) {
        Err(LineError::MissingDelimiter)
    } else {
        let k = choose|k: int| is_first_delimiter(line, k);
        let p = line.take(k);
        let s = line.skip(k + 1);
        if !hex_ok(p) || !hex_ok(s) {
            Err(LineError::InvalidHex)
        } else if !public_key_accepts(hex_decoded(p)) || hex_decoded(p).len() != KEY_LENGTH {
            Err(LineError::InvalidPublicKey)
        } else if hex_decoded(s).len() != KEY_LENGTH {
            Err(LineError::InvalidSecretKey)
        } else {
            Ok(KeyPairModel { public: hex_decoded(p), secret: hex_decoded(s) })
        }
    }
}

/// The model of a decoding result.
pub open spec fn decoded_view(r: Result<KeyPair, LineError>) -> Result<KeyPairModel, LineError> {
    match r {
        Ok(kp) => Ok(kp@),
        Err(e) => Err(e),
    }
}

proof fn lemma_first_delimiter_unique(line: Seq<u8>, a: int, b: int)
    requires
        is_first_delimiter(line, a),
        is_first_delimiter(line, b),
    ensures
        a == b,
{
    if a < b {
        assert(line[a] == DELIMITER);
    } else if b < a {
        assert(line[b] == DELIMITER);
    }
}

proof fn lemma_hex_digit(n: int)
    requires
        0 <= n < 16,
    ensures
        is_hex_char(hex_digit(n)),
        hex_val(hex_digit(n)) == n,
        hex_digit(n) != DELIMITER,
{
}

proof fn lemma_hex_of_decodes(b: Seq<u8>)
    ensures
        hex_ok(hex_of(b)),
        hex_decoded(hex_of(b)) =~= b,
        forall|i: int| 0 <= i < hex_of(b).len() ==> #[trigger] hex_of(b)[i] != DELIMITER,
{
    let h = hex_of(b);
    assert forall|i: int| 0 <= i < h.len() implies is_hex_char(#[trigger] h[i]) && h[i]
        != DELIMITER by {
        lemma_hex_digit(b[i / 2] as int / 16);
        lemma_hex_digit(b[i / 2] as int % 16);
    }
    assert forall|i: int| 0 <= i < b.len() implies #[trigger] hex_decoded(h)[i] == b[i] by {
        let x = b[i] as int;
        lemma_hex_digit(x / 16);
        lemma_hex_digit(x % 16);
        assert((2 * i) / 2 == i);
        assert((2 * i + 1) / 2 == i);
        assert((2 * i) % 2 == 0);
        assert((2 * i + 1) % 2 == 1);
        assert(x / 16 * 16 + x % 16 == x);
    }
}

/// Decoding the checkpoint line of a key pair gives back the same pair, byte
/// for byte, when its halves are 32 bytes and its public half is a valid
/// ed25519 public key.
pub proof fn lemma_line_round_trip(kp: KeyPairModel)
    requires
        kp.wf(),
        public_key_accepts(kp.public),
    ensures
        parse_line(line_of(kp)) == Ok::<KeyPairModel, LineError>(kp),
{
    let line = line_of(kp);
    let hp = hex_of(kp.public);
    let hs = hex_of(kp.secret);
    lemma_hex_of_decodes(kp.public);
    lemma_hex_of_decodes(kp.secret);
    let k = hp.len() as int;
    assert(line[k] == DELIMITER);
    assert forall|j: int| 0 <= j < k implies line[j] != DELIMITER by {
        assert(line[j] == hp[j]);
    }
    assert(is_first_delimiter(line, k));
    let c = choose|j: int| is_first_delimiter(line, j);
    lemma_first_delimiter_unique(line, c, k);
    assert(line.take(k) =~= hp);
    assert(line.skip(k + 1) =~= hs);
}

/// Encodes a key pair as one checkpoint line, without the line break.
pub fn encode_line(kp: &KeyPair) -> (r: Vec<u8>)
    ensures
        r@ == line_of(kp@),
{
    let mut line = hex_encode(kp.public.as_slice());
    line.push(DELIMITER);
    let mut secret = hex_encode(kp.secret.as_slice());
    line.append(&mut secret);
    line
}

/// The public half of a key pair as lowercase hex, for display.
pub fn pretty_print_public(keypair: &KeyPair) -> (r: Vec<u8>)
    ensures
        r@ == hex_of(keypair.public@),
{
    hex_encode(keypair.public.as_slice())
}

/// Decodes one checkpoint line, without its line break.
pub fn decode_line(line: &[u8]) -> (r: Result<KeyPair, LineError>)
    ensures
        decoded_view(r) == parse_line(line@),
        r matches Ok(kp) ==> kp@.wf(),
{
    let mut k: usize = 0;
    while k < line.len() && line[k] != DELIMITER
        invariant
            k <= line@.len(),
            forall|j: int| 0 <= j < k ==> line@[j] != DELIMITER,
        decreases line@.len() - k,
    {
        k = k + 1;
    }
    if k == line.len() {
        assert(!(exists|j: int| is_first_delimiter(line@, j)));
        return Err(LineError::MissingDelimiter);
    }
    proof {
        assert(is_first_delimiter(line@, k as int));
        let c = choose|j: int| is_first_delimiter(line@, j);
        lemma_first_delimiter_unique(line@, c, k as int);
    }
    let public_hex = slice_subrange(line, 0, k);
    let secret_hex = slice_subrange(line, k + 1, line.len());
    assert(public_hex@ =~= line@.take(k as int));
    assert(secret_hex@ =~= line@.skip(k as int + 1));
    let public = match hex_decode(public_hex) {
        Ok(b) => b,
        Err(_) => {
            return Err(LineError::InvalidHex);
        },
    };
    let secret = match hex_decode(secret_hex) {
        Ok(b) => b,
        Err(_) => {
            return Err(LineError::InvalidHex);
        },
    };
    if !public_key_valid(public.as_slice()) {
        return Err(LineError::InvalidPublicKey);
    }
    if !secret_key_valid(secret.as_slice()) {
        return Err(LineError::InvalidSecretKey);
    }
    Ok(KeyPair { public, secret })
}

} // verus!
