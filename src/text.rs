//! Text produced from raw bytes: the table's single-byte code page, decimal
//! numbers, and character-wise string building.
use encoding::Encoding;
use vstd::prelude::*;

verus! {

/// The characters that the windows-1252 code page gives for the bytes `b`.
pub uninterp spec fn windows_1252_text(b: Seq<u8>) -> Seq<char>;

/// Relies on `encoding::all::WINDOWS_1252` and `Encoding::decode` with
/// `DecoderTrap::Ignore`: the single-byte decoder writes one character per
/// byte (its index table defines all 128 upper bytes), bytes up to 0x7F
/// unchanged, and with that trap it never reports an error.
#[verifier::external_body]
pub(crate) fn decode_windows_1252(b: &[u8]) -> (r: String)
    ensures
        r@ == windows_1252_text(b@),
        r@.len() == b@.len(),
        forall|i: int| 0 <= i < b@.len() && b@[i] <= 0x7F ==> r@[i] == (b@[i] as char),
{
    match encoding::all::WINDOWS_1252.decode(b, encoding::DecoderTrap::Ignore) {
        Ok(s) => s,
        Err(_) => String::new(),
    }
}

/// The windows-1252 bytes for the characters `t`.
pub uninterp spec fn windows_1252_bytes(t: Seq<char>) -> Seq<u8>;

/// Relies on `encoding::all::WINDOWS_1252` and `Encoding::encode` with
/// `EncoderTrap::Replace`: the single-byte encoder writes one byte per
/// character, characters up to U+007F unchanged, and `?` for a character the
/// code page lacks; with that trap it never reports an error.
#[verifier::external_body]
pub(crate) fn encode_windows_1252(t: &str) -> (r: Vec<u8>)
    ensures
        r@ == windows_1252_bytes(t@),
        r@.len() == t@.len(),
        forall|i: int| 0 <= i < t@.len() && (t@[i] as u32) <= 0x7F ==> r@[i] == (t@[i] as u32) as u8,
{
    match encoding::all::WINDOWS_1252.encode(t, encoding::EncoderTrap::Replace) {
        Ok(b) => b,
        Err(_) => Vec::new(),
    }
}

/// The ASCII digit for `d < 10`.
pub open spec fn digit_char(d: nat) -> char {
    ((d + 48) as u8) as char
}

/// Decimal notation of `n`, without leading zeros.
pub open spec fn decimal_text(n: nat) -> Seq<char>
    decreases n,
{
    if n < 10 {
        seq![digit_char(n)]
    } else {
        decimal_text(n / 10).push(digit_char(n % 10))
    }
}

/// Relies on `ToString` for `u32` (through `Display`): the decimal digits of
/// the value, with no sign, padding or leading zeros.
#[verifier::external_body]
pub(crate) fn decimal_string(n: u32) -> (r: String)
    ensures
        r@ == decimal_text(n as nat),
{
    n.to_string()
}

/// Relies on `String::push`: appends the one character.
#[verifier::external_body]
pub(crate) fn push_char(s: &mut String, c: char)
    ensures
        final(s)@ == old(s)@.push(c),
{
    s.push(c);
}

} // verus!
