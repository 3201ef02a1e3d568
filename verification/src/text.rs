//! Text out of strings of binary digits.

use vstd::prelude::*;
use vstd::string::StrSliceExecFns;
use crate::checksum::string_from_chars;
use crate::bits::{bit_of, bits_of_bytes, lemma_byte_from_bits};
use crate::decrypt::{decrypt_error, decrypt_message, decrypted_bits, DecryptError};
use crate::encrypt::padded_bits;
use crate::lattice::NTRUVector;
use crate::whitebox::WhiteData;

verus! {

/// The value of a binary digit, if the character is one.
pub open spec fn digit_value(c: char) -> Option<int> {
    if c == '0' {
        Some(0int)
    } else if c == '1' {
        Some(1int)
    } else {
        None
    }
}

/// The value of the binary digits `chunk[from..8]`, most significant
/// first, if they all are binary digits.
pub open spec fn digits_value(chunk: Seq<char>, from: int) -> Option<int>
    decreases 8 - from,
{
    if from >= 8 {
        Some(0int)
    } else {
        match (digit_value(chunk[from]), digits_value(chunk, from + 1)) {
            (Some(d), Some(rest)) => Some(d * weight(from) + rest),
            _ => None,
        }
    }
}

/// The weight of position `p` of an eight-digit chunk.
pub open spec fn weight(p: int) -> int {
    if p == 0 {
        128
    } else if p == 1 {
        64
    } else if p == 2 {
        32
    } else if p == 3 {
        16
    } else if p == 4 {
        8
    } else if p == 5 {
        4
    } else if p == 6 {
        2
    } else {
        1
    }
}

/// The byte an eight-character chunk stands for: its value as a binary
/// number, with an optional leading plus sign; zero for anything else.
pub open spec fn chunk_byte(chunk: Seq<char>) -> u8 {
    if digits_value(chunk, 0) is Some {
        digits_value(chunk, 0)->0 as u8
    } else if chunk[0] == '+' && digits_value(chunk, 1) is Some {
        digits_value(chunk, 1)->0 as u8
    } else {
        0
    }
}

/// The digits padded on the right with zeros to a multiple of eight.
pub open spec fn padded_digits(digits: Seq<char>) -> Seq<char> {
    if digits.len() % 8 == 0 {
        digits
    } else {
        digits + Seq::new((8 - digits.len() % 8) as nat, |i: int| '0')
    }
}

/// The text that a string of binary digits stands for: one character per
/// chunk of eight digits.
pub open spec fn text_of_binary(digits: Seq<char>) -> Seq<char> {
    let padded = padded_digits(digits);
    Seq::new(padded.len() / 8, |i: int| chunk_byte(padded.subrange(8 * i, 8 * i + 8)) as char)
}

/// The character at offset `p` of the chunk that starts at `at`.
fn padded_at(digits: &Vec<char>, at: usize, p: usize) -> (c: char)
    requires
        at <= digits@.len(),
        at + p < padded_digits(digits@).len(),
    ensures
        c == padded_digits(digits@)[at + p],
{
    if p < digits.len() - at {
        digits[at + p]
    } else {
        '0'
    }
}

/// The byte of the chunk that starts at padded position `at`.
fn parse_chunk(digits: &Vec<char>, at: usize) -> (byte: u8)
    requires
        at <= digits@.len(),
        at + 8 <= padded_digits(digits@).len(),
    ensures
        byte == chunk_byte(padded_digits(digits@).subrange(at as int, at + 8)),
{
    let ghost chunk = padded_digits(digits@).subrange(at as int, at + 8);
    let first = padded_at(digits, at, 0);
    // value of positions 1..8, if they are binary digits
    let mut tail: u8 = 0;
    let mut tail_ok = true;
    let mut p: usize = 8;
    while p > 1
        invariant
            1 <= p <= 8,
            at <= digits@.len(),
            at + 8 <= padded_digits(digits@).len(),
            chunk == padded_digits(digits@).subrange(at as int, at + 8),
            tail_ok == digits_value(chunk, p as int) is Some,
            tail_ok ==> tail == digits_value(chunk, p as int)->0,
            tail_ok ==> tail < weight(p - 1),
            !tail_ok ==> digits_value(chunk, 1) is None && digits_value(chunk, 0) is None,
        decreases p,
    {
        let ghost rest = digits_value(chunk, p as int);
        p -= 1;
        let c = padded_at(digits, at, p);
        assert(chunk[p as int] == c);
        assert(digits_value(chunk, p as int) == match (digit_value(c), rest) {
            (Some(d), Some(r)) => Some(d * weight(p as int) + r),
            _ => None::<int>,
        });
        if tail_ok {
            if c == '1' {
                let w: u8 = match p {
                    1 => 64,
                    2 => 32,
                    3 => 16,
                    4 => 8,
                    5 => 4,
                    6 => 2,
                    _ => 1,
                };
                assert(w == weight(p as int));
                assert(weight(p - 1) == 2 * weight(p as int));
                assert(digit_value(c) == Some(1int));
                assert(rest is Some);
                assert(digits_value(chunk, p as int) == Some(1 * weight(p as int) + rest->0));
                tail = tail + w;
                assert(tail == digits_value(chunk, p as int)->0);
            } else if c != '0' {
                tail_ok = false;
                proof {
                    lemma_bad_digit(chunk, p as int, 1);
                    lemma_bad_digit(chunk, p as int, 0);
                }
            } else {
                assert(weight(p - 1) == 2 * weight(p as int));
                assert(digit_value(c) == Some(0int));
                assert(digits_value(chunk, p as int) == Some(0 * weight(p as int) + rest->0));
                assert(tail == digits_value(chunk, p as int)->0);
            }
        }
    }
    assert(chunk[0] == first);
    if !tail_ok {
        0
    } else if first == '1' {
        tail + 128
    } else if first == '0' || first == '+' {
        tail
    } else {
        0
    }
}

/// A chunk with a character that is no binary digit has no value from
/// any position at or before that character.
proof fn lemma_bad_digit(chunk: Seq<char>, bad: int, from: int)
    requires
        0 <= from <= bad < 8,
        digit_value(chunk[bad]) is None,
    ensures
        digits_value(chunk, from) is None,
    decreases bad - from,
{
    if from < bad {
        lemma_bad_digit(chunk, bad, from + 1);
    }
}

/// The text of the binary digits in `digits`.
fn text_from_digits(digits: &Vec<char>) -> (text: Vec<char>)
    ensures
        text@ == text_of_binary(digits@),
{
    let n = digits.len();
    let chunks: usize = if n % 8 == 0 {
        n / 8
    } else {
        n / 8 + 1
    };
    let mut text: Vec<char> = Vec::new();
    let mut i: usize = 0;
    while i < chunks
        invariant
            n == digits@.len(),
            padded_digits(digits@).len() == 8 * chunks,
            8 * chunks < n + 8,
            i <= chunks,
            text@.len() == i,
            forall|k: int|
                0 <= k < i ==> text@[k] == chunk_byte(
                    padded_digits(digits@).subrange(8 * k, 8 * k + 8),
                ) as char,
        decreases chunks - i,
    {
        let byte = parse_chunk(digits, 8 * i);
        text.push(byte as char);
        i += 1;
    }
    assert(text@ =~= text_of_binary(digits@));
    text
}

/// The characters of a string.
fn chars_of(s: &str) -> (chars: Vec<char>)
    ensures
        chars@ == s@,
{
    let n = s.unicode_len();
    let mut chars: Vec<char> = Vec::new();
    let mut i: usize = 0;
    while i < n
        invariant
            n == s@.len(),
            i <= n,
            chars@.len() == i,
            forall|k: int| 0 <= k < i ==> chars@[k] == s@[k],
        decreases n - i,
    {
        chars.push(s.get_char(i));
        i += 1;
    }
    assert(chars@ =~= s@);
    chars
}

/// Convert a string of binary digits to the text it encodes: eight digits
/// per character, most significant first; a last chunk that is short is
/// padded with zeros, and a chunk that is no binary number counts as zero.
pub fn binary_to_text(binary_str: String) -> (text: String)
    ensures
        text@ == text_of_binary(binary_str@),
{
    let digits = chars_of(binary_str.as_str());
    let text = text_from_digits(&digits);
    string_from_chars(&text)
}

/// The decimal digit of each bit.
pub open spec fn bit_digits(bits: Seq<i64>) -> Seq<char> {
    Seq::new(
        bits.len(),
        |i: int|
            if bits[i] == 0 {
                '0'
            } else {
                '1'
            },
    )
}

/// White-box decryption of the ciphertext `(a1, a2)`, as text.
pub fn decrypt_to_text(
    white_data: &WhiteData,
    a1: &NTRUVector,
    a2: &NTRUVector,
    degree: usize,
    modulus: i64,
) -> (res: Result<String, DecryptError>)
    ensures
        match res {
            Ok(text) => decrypt_error(white_data, a1, a2, degree, modulus) is None && text@
                == text_of_binary(
                bit_digits(decrypted_bits(white_data, a1.vector@, a2.vector@, modulus as int)),
            ),
            Err(e) => decrypt_error(white_data, a1, a2, degree, modulus) == Some(e),
        },
{
    let bits = match decrypt_message(white_data, a1, a2, degree, modulus) {
        Ok(b) => b,
        Err(e) => {
            return Err(e);
        },
    };
    let mut digits: Vec<char> = Vec::new();
    let mut i: usize = 0;
    while i < bits.len()
        invariant
            i <= bits@.len(),
            digits@.len() == i,
            forall|k: int|
                0 <= k < i ==> digits@[k] == (if bits@[k] == 0 {
                    '0'
                } else {
                    '1'
                }),
        decreases bits@.len() - i,
    {
        digits.push(if bits[i] == 0 {
            '0'
        } else {
            '1'
        });
        i += 1;
    }
    assert(digits@ =~= bit_digits(bits@));
    let text = text_from_digits(&digits);
    Ok(string_from_chars(&text))
}

/// A byte string as text, one character per byte, followed by NUL
/// characters up to `count` characters.
pub open spec fn text_of_bytes(bytes: Seq<u8>, count: nat) -> Seq<char> {
    Seq::new(
        count,
        |i: int|
            if i < bytes.len() {
                bytes[i] as char
            } else {
                0u8 as char
            },
    )
}

/// The eight binary digits of a byte, most significant first, stand for
/// the byte.
pub proof fn lemma_chunk_of_byte(chunk: Seq<char>, byte: u8)
    requires
        chunk.len() == 8,
        forall|p: int|
            0 <= p < 8 ==> #[trigger] chunk[p] == (if bit_of(byte, p) == 0 {
                '0'
            } else {
                '1'
            }),
    ensures
        chunk_byte(chunk) == byte,
{
    reveal_with_fuel(digits_value, 2);
    lemma_byte_from_bits(byte);
    assert forall|p: int| 0 <= p < 8 implies digit_value(#[trigger] chunk[p]) == Some(
        bit_of(byte, p),
    ) by {
        assert(bit_of(byte, p) == 0 || bit_of(byte, p) == 1);
    }
    assert(digit_value(chunk[0]) == Some(bit_of(byte, 0)));
    assert(digit_value(chunk[1]) == Some(bit_of(byte, 1)));
    assert(digit_value(chunk[2]) == Some(bit_of(byte, 2)));
    assert(digit_value(chunk[3]) == Some(bit_of(byte, 3)));
    assert(digit_value(chunk[4]) == Some(bit_of(byte, 4)));
    assert(digit_value(chunk[5]) == Some(bit_of(byte, 5)));
    assert(digit_value(chunk[6]) == Some(bit_of(byte, 6)));
    assert(digit_value(chunk[7]) == Some(bit_of(byte, 7)));
    let b = |p: int| bit_of(byte, p);
    assert(digits_value(chunk, 8) == Some(0int));
    assert(digits_value(chunk, 7) == Some(b(7)));
    assert(digits_value(chunk, 6) == Some(b(6) * 2 + b(7)));
    assert(digits_value(chunk, 5) == Some(b(5) * 4 + (b(6) * 2 + b(7))));
    assert(digits_value(chunk, 4) == Some(b(4) * 8 + (b(5) * 4 + (b(6) * 2 + b(7)))));
    assert(digits_value(chunk, 3) == Some(
        b(3) * 16 + (b(4) * 8 + (b(5) * 4 + (b(6) * 2 + b(7)))),
    ));
    assert(digits_value(chunk, 2) == Some(
        b(2) * 32 + (b(3) * 16 + (b(4) * 8 + (b(5) * 4 + (b(6) * 2 + b(7))))),
    ));
    assert(digits_value(chunk, 1) == Some(
        b(1) * 64 + (b(2) * 32 + (b(3) * 16 + (b(4) * 8 + (b(5) * 4 + (b(6) * 2 + b(7)))))),
    ));
    assert(digits_value(chunk, 0) == Some(byte as int));
}

/// The text of a message's bits is the message. The bits of a byte
/// string, padded with zeros to a whole number of bytes, read back as
/// text give the byte string followed by NUL characters.
pub proof fn lemma_text_of_message_bits(bytes: Seq<u8>, degree: nat)
    requires
        8 * bytes.len() <= degree,
        degree % 8 == 0,
    ensures
        text_of_binary(bit_digits(padded_bits(bits_of_bytes(bytes), degree))) == text_of_bytes(
            bytes,
            degree / 8,
        ),
{
    let bits = padded_bits(bits_of_bytes(bytes), degree);
    let digits = bit_digits(bits);
    assert(padded_digits(digits) == digits);
    let text = text_of_binary(digits);
    assert forall|i: int| 0 <= i < degree / 8 implies text[i] == text_of_bytes(bytes, degree / 8)[i] by {
        let chunk = digits.subrange(8 * i, 8 * i + 8);
        let byte: u8 = if i < bytes.len() {
            bytes[i]
        } else {
            0u8
        };
        assert forall|p: int| 0 <= p < 8 implies #[trigger] chunk[p] == (if bit_of(byte, p) == 0 {
            '0'
        } else {
            '1'
        }) by {
            assert(chunk[p] == digits[8 * i + p]);
            assert((8 * i + p) / 8 == i);
            assert((8 * i + p) % 8 == p);
            if i >= bytes.len() {
                assert(bit_of(0u8, p) == 0);
            }
        }
        lemma_chunk_of_byte(chunk, byte);
    }
    assert(text =~= text_of_bytes(bytes, degree / 8));
}

} // verus!
