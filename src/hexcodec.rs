//! Hexadecimal text: what the transport carries for sealed fixes.
use vstd::prelude::*;

verus! {

/// The lowercase digit of a nibble.
pub open spec fn digit_char(v: int) -> char {
    if v < 10 {
        ((48 + v) as u8) as char
    } else {
        ((87 + v) as u8) as char
    }
}

/// A digit of either case.
pub open spec fn is_hex_digit(c: char) -> bool {
    let n = c as u32;
    (48 <= n <= 57) || (97 <= n <= 102) || (65 <= n <= 70)
}

/// The value of a hex digit.
pub open spec fn digit_val(c: char) -> int {
    let n = c as u32 as int;
    if 48 <= n <= 57 {
        n - 48
    } else if 97 <= n <= 102 {
        n - 87
    } else {
        n - 55
    }
}

/// Text that decodes: an even number of hex digits.
pub open spec fn is_hex_text(s: Seq<char>) -> bool {
    s.len() % 2 == 0 && forall|i: int| 0 <= i < s.len() ==> is_hex_digit(#[trigger] s[i])
}

/// The bytes that hex text stands for, two digits each, high nibble first.
pub open spec fn hex_decoded(s: Seq<char>) -> Seq<u8> {
    Seq::new(s.len() / 2, |i: int| (digit_val(s[2 * i]) * 16 + digit_val(s[2 * i + 1])) as u8)
}

/// Lowercase hex text of bytes, two digits each, high nibble first.
pub open spec fn hex_lower(b: Seq<u8>) -> Seq<char> {
    Seq::new(
        2 * b.len(),
        |i: int|
            if i % 2 == 0 {
                digit_char(b[i / 2] as int / 16)
            } else {
                digit_char(b[i / 2] as int % 16)
            },
    )
}

proof fn lemma_digit_round_trip(v: int)
    requires
        0 <= v < 16,
    ensures
        is_hex_digit(digit_char(v)),
        digit_val(digit_char(v)) == v,
{
}

/// Decoding the hex text of some bytes gives the bytes back.
pub proof fn lemma_hex_round_trip(b: Seq<u8>)
    ensures
        is_hex_text(hex_lower(b)),
        hex_decoded(hex_lower(b)) == b,
{
    let s = hex_lower(b);
    assert forall|i: int| 0 <= i < s.len() implies is_hex_digit(#[trigger] s[i]) by {
        if i % 2 == 0 {
            lemma_digit_round_trip(b[i / 2] as int / 16);
        } else {
            lemma_digit_round_trip(b[i / 2] as int % 16);
        }
    }
    assert forall|j: int| 0 <= j < b.len() implies #[trigger] hex_decoded(s)[j] == b[j] by {
        assert((2 * j) / 2 == j && (2 * j) % 2 == 0);
        assert((2 * j + 1) / 2 == j && (2 * j + 1) % 2 == 1);
        lemma_digit_round_trip(b[j] as int / 16);
        lemma_digit_round_trip(b[j] as int % 16);
        assert(b[j] as int / 16 * 16 + b[j] as int % 16 == b[j]);
    }
    assert(hex_decoded(s) =~= b);
}

/// The hex text of two runs of bytes, one after the other, is the hex text
/// of the two joined.
pub proof fn lemma_hex_concat(a: Seq<u8>, b: Seq<u8>)
    ensures
        hex_lower(a) + hex_lower(b) == hex_lower(a + b),
{
    let l = hex_lower(a) + hex_lower(b);
    let r = hex_lower(a + b);
    assert forall|i: int| 0 <= i < l.len() implies l[i] == r[i] by {
        if i >= 2 * a.len() {
            let k = i - 2 * a.len();
            assert(k / 2 + a.len() == i / 2 && k % 2 == i % 2);
        }
    }
    assert(l =~= r);
}

/// The error of hex::decode, which callers only tell apart from success.
#[verifier::external_type_specification]
#[verifier::external_body]
pub struct ExFromHexError(hex::FromHexError);

/// Relies on hex::encode: two lowercase digits per byte, high nibble first.
#[verifier::external_body]
pub(crate) fn encode_hex(b: &[u8]) -> (r: String)
    ensures
        r@ == hex_lower(b@),
{
    hex::encode(b)
}

/// Relies on hex::decode: it takes an even number of digits of either
/// case, and fails on anything else.
#[verifier::external_body]
pub(crate) fn decode_hex(s: &str) -> (r: Result<Vec<u8>, hex::FromHexError>)
    ensures
        r is Ok <==> is_hex_text(s@),
        r matches Ok(v) ==> v@ == hex_decoded(s@),
{
    hex::decode(s)
}

} // verus!
