//! Fixed-length hexadecimal text for digests and binary values.
use vstd::prelude::*;
use vstd::utf8::{encode_utf8, is_ascii_chars, is_ascii_chars_encode_utf8};

use crate::lexical::push_char;
use crate::wire::{hex_digit, hex_digit_of, hex_nibble, hex_value, nibble_value};

verus! {

/// Failure decoding a fixed-length lowercase or uppercase hexadecimal value.
#[derive(Clone, Copy, Debug, PartialEq, Eq, Structural)]
pub enum HexError {
    /// The trimmed text does not have exactly twice as many bytes as the
    /// decoded value.
    Length { expected: usize, actual: usize },
    /// A byte is not a hexadecimal digit.
    Character,
}

/// Two lowercase digits per byte, high nibble first.
pub open spec fn hex_text(b: Seq<u8>) -> Seq<char>
    decreases b.len(),
{
    if b.len() == 0 {
        Seq::empty()
    } else {
        hex_text(b.drop_last()).push(hex_digit(b.last() / 16)).push(hex_digit(b.last() % 16))
    }
}

/// Every byte of `d` is a hexadecimal digit.
pub open spec fn all_hex_digits(d: Seq<u8>) -> bool {
    forall|i: int| 0 <= i < d.len() ==> #[trigger] nibble_value(d[i]) is Some
}

/// The result of decoding already trimmed digit bytes `d` into `n` bytes:
/// the length is checked first, then every digit.
pub open spec fn hex_decoding(n: usize, d: Seq<u8>) -> Result<Seq<u8>, HexError> {
    if d.len() != 2 * n {
        Err(HexError::Length { expected: (2 * n) as usize, actual: d.len() as usize })
    } else if !all_hex_digits(d) {
        Err(HexError::Character)
    } else {
        Ok(hex_value(d))
    }
}

/// What `str::trim` returns for a text.
pub uninterp spec fn trimmed_text(s: Seq<char>) -> Seq<char>;

/// `str::trim`: the text without its leading and trailing whitespace. The
/// set of whitespace characters is the Unicode `White_Space` property,
/// which is not restated here.
#[verifier::external_body]
fn trim_text(s: &str) -> (r: &str)
    ensures
        r@ == trimmed_text(s@),
{
    s.trim()
}

/// Encodes bytes as lowercase hexadecimal text, two digits per byte.
pub fn encode_hex(bytes: &[u8]) -> (r: String)
    ensures
        r@ == hex_text(bytes@),
{
    let mut encoded = String::new();
    let mut i: usize = 0;
    proof {
        assert(bytes@.subrange(0, 0) =~= Seq::<u8>::empty());
    }
    while i < bytes.len()
        invariant
            i <= bytes@.len(),
            encoded@ == hex_text(bytes@.subrange(0, i as int)),
        decreases bytes@.len() - i,
    {
        let b = bytes[i];
        push_char(&mut encoded, hex_digit_of(b / 16));
        push_char(&mut encoded, hex_digit_of(b % 16));
        proof {
            let next = bytes@.subrange(0, i + 1);
            assert(next.drop_last() =~= bytes@.subrange(0, i as int));
            assert(next.last() == b);
        }
        i = i + 1;
    }
    proof {
        assert(bytes@.subrange(0, bytes@.len() as int) =~= bytes@);
    }
    encoded
}

/// Decodes `N` bytes from hexadecimal digits that are already trimmed:
/// exactly `2 * N` digits of either case. An array of `N` bytes fits in
/// memory, so `2 * N` fits a `usize`.
pub fn decode_hex_digits<const N: usize>(digits: &str) -> (r: Result<[u8; N], HexError>)
    requires
        N <= usize::MAX / 2,
    ensures
        match hex_decoding(N, encode_utf8(digits@)) {
            Ok(v) => r matches Ok(a) && a@ == v,
            Err(e) => r == Err::<[u8; N], HexError>(e),
        },
{
    let d = digits.as_bytes();
    let expected: usize = 2 * N;
    if d.len() != expected {
        return Err(HexError::Length { expected, actual: d.len() });
    }
    let mut decoded = [0u8; N];
    let mut i: usize = 0;
    while i < N
        invariant
            d@ == encode_utf8(digits@),
            d@.len() == 2 * N,
            N <= usize::MAX / 2,
            i <= N,
            decoded@.len() == N,
            forall|k: int| 0 <= k < 2 * i ==> #[trigger] nibble_value(d@[k]) is Some,
            forall|k: int| 0 <= k < i ==> decoded@[k] == #[trigger] hex_value(d@)[k],
        decreases N - i,
    {
        let high = match hex_nibble(d[2 * i]) {
            Some(v) => v,
            None => {
                return Err(HexError::Character);
            },
        };
        let low = match hex_nibble(d[2 * i + 1]) {
            Some(v) => v,
            None => {
                return Err(HexError::Character);
            },
        };
        let value: u8 = high * 16 + low;
        decoded.set(i, value);
        i = i + 1;
    }
    proof {
        assert(decoded@ =~= hex_value(d@));
    }
    Ok(decoded)
}

/// Decodes a fixed-length hexadecimal value: surrounding whitespace is
/// trimmed, then exactly `2 * N` digits of either case must remain.
pub fn decode_hex<const N: usize>(encoded: &str) -> (r: Result<[u8; N], HexError>)
    requires
        N <= usize::MAX / 2,
    ensures
        match hex_decoding(N, encode_utf8(trimmed_text(encoded@))) {
            Ok(v) => r matches Ok(a) && a@ == v,
            Err(e) => r == Err::<[u8; N], HexError>(e),
        },
{
    decode_hex_digits(trim_text(encoded))
}

/// The digits of `hex_text(b)` as bytes.
proof fn lemma_hex_text_ascii(b: Seq<u8>)
    ensures
        hex_text(b).len() == 2 * b.len(),
        is_ascii_chars(hex_text(b)),
        forall|i: int| 0 <= i < b.len() ==> (#[trigger] hex_text(b)[2 * i]) == hex_digit(b[i] / 16)
            && hex_text(b)[2 * i + 1] == hex_digit(b[i] % 16),
    decreases b.len(),
{
    if b.len() > 0 {
        lemma_hex_text_ascii(b.drop_last());
        let t = hex_text(b);
        let p = hex_text(b.drop_last());
        assert forall|i: int| 0 <= i < b.len() implies (#[trigger] t[2 * i]) == hex_digit(b[i] / 16) && t[2 * i + 1]
            == hex_digit(b[i] % 16) by {
            if i < b.len() - 1 {
                assert(t[2 * i] == p[2 * i]);
                assert(t[2 * i + 1] == p[2 * i + 1]);
                assert(b.drop_last()[i] == b[i]);
            }
        }
        assert forall|i: int| 0 <= i < t.len() implies '\0' <= #[trigger] t[i] <= '\u{7f}' by {
            if i < p.len() {
                assert(t[i] == p[i]);
            }
        }
    }
}

/// Hexadecimal text decodes back to the bytes it was made from: the
/// encoding of `b` decodes into exactly `b.len()` bytes, giving `b`.
pub proof fn lemma_hex_round_trip(b: Seq<u8>)
    requires
        2 * b.len() <= usize::MAX,
    ensures
        hex_decoding(b.len() as usize, encode_utf8(hex_text(b))) == Ok::<Seq<u8>, HexError>(b),
{
    lemma_hex_text_ascii(b);
    let t = hex_text(b);
    is_ascii_chars_encode_utf8(t);
    let d = encode_utf8(t);
    assert forall|i: int| 0 <= i < b.len() implies d[2 * i] == hex_digit(b[i] / 16) as u8 && d[2 * i + 1]
        == hex_digit(b[i] % 16) as u8 by {
        assert(t[2 * i] == hex_digit(b[i] / 16));
        assert(t[2 * i + 1] == hex_digit(b[i] % 16));
    }
    assert forall|k: int| 0 <= k < d.len() implies #[trigger] nibble_value(d[k]) is Some by {
        let i = k / 2;
        assert(k == 2 * i || k == 2 * i + 1);
        assert(t[2 * i] == hex_digit(b[i] / 16));
        assert(t[2 * i + 1] == hex_digit(b[i] % 16));
    }
    assert(hex_value(d) =~= b) by {
        assert forall|i: int| 0 <= i < b.len() implies #[trigger] hex_value(d)[i] == b[i] by {
            assert(t[2 * i] == hex_digit(b[i] / 16));
            assert(t[2 * i + 1] == hex_digit(b[i] % 16));
        }
    }
}

} // verus!
