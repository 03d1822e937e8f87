//! Hexadecimal text: two digits per byte, high nibble first.

use vstd::prelude::*;

verus! {

/// The lowercase hexadecimal digit for a value below 16.
pub open spec fn hex_digit(nibble: int) -> char {
    if nibble < 10 {
        ('0' as u8 + nibble) as char
    } else {
        ('a' as u8 + nibble - 10) as char
    }
}

/// Whether a byte is the ASCII code of a hexadecimal digit of either case.
pub open spec fn is_hex_byte(b: u8) -> bool {
    ||| '0' as u8 <= b <= '9' as u8
    ||| 'a' as u8 <= b <= 'f' as u8
    ||| 'A' as u8 <= b <= 'F' as u8
}

/// Whether a character is a hexadecimal digit of either case.
pub open spec fn is_hex_char(c: char) -> bool {
    c <= '\u{7f}' && is_hex_byte(c as u8)
}

/// What a hexadecimal digit stands for.
pub open spec fn hex_value(b: u8) -> int {
    if '0' as u8 <= b <= '9' as u8 {
        b - '0' as u8
    } else if 'a' as u8 <= b <= 'f' as u8 {
        b - 'a' as u8 + 10
    } else {
        b - 'A' as u8 + 10
    }
}

/// The text that writes `data` as lowercase hexadecimal digits.
pub open spec fn hex_encoding(data: Seq<u8>) -> Seq<char> {
    Seq::new(
        2 * data.len(),
        |i: int|
            if i % 2 == 0 {
                hex_digit(data[i / 2] as int / 16)
            } else {
                hex_digit(data[i / 2] as int % 16)
            },
    )
}

/// Whether `text` is an even number of hexadecimal digits.
pub open spec fn is_hex_bytes(text: Seq<u8>) -> bool {
    &&& text.len() % 2 == 0
    &&& forall|i: int| 0 <= i < text.len() ==> is_hex_byte(#[trigger] text[i])
}

/// Whether `text` is an even number of hexadecimal digits.
pub open spec fn is_hex_text(text: Seq<char>) -> bool {
    &&& text.len() % 2 == 0
    &&& forall|i: int| 0 <= i < text.len() ==> is_hex_char(#[trigger] text[i])
}

/// The bytes that `text` writes, for a text of hexadecimal digits.
pub open spec fn hex_decoding(text: Seq<u8>) -> Seq<u8> {
    Seq::new(
        text.len() / 2,
        |i: int| (16 * hex_value(text[2 * i]) + hex_value(text[2 * i + 1])) as u8,
    )
}

/// The bytes of a text whose characters are all ASCII.
pub open spec fn ascii_bytes(text: Seq<char>) -> Seq<u8> {
    Seq::new(text.len(), |i: int| text[i] as u8)
}

/// Calls `hex::encode` on `data`. Trusted: the string that comes back holds two
/// lowercase hexadecimal digits for each byte, the high nibble first.
#[verifier::external_body]
pub(crate) fn hex_encode(data: &[u8]) -> (text: String)
    ensures
        text@ == hex_encoding(data@),
{
    hex::encode(data)
}

/// The error of `hex::decode`.
#[verifier::external_type_specification]
#[verifier::external_body]
pub struct ExFromHexError(hex::FromHexError);

/// Calls `hex::decode` on `text`. Trusted: it succeeds exactly on an even
/// number of bytes that are all hexadecimal digits, of either case, and then
/// each pair of digits gives one byte, the high nibble first.
#[verifier::external_body]
pub(crate) fn hex_decode(text: &[u8]) -> (decoded: Result<Vec<u8>, hex::FromHexError>)
    ensures
        decoded is Ok <==> is_hex_bytes(text@),
        decoded matches Ok(data) ==> data@ == hex_decoding(text@),
{
    hex::decode(text)
}

/// The digits of an encoding are hexadecimal digits, and ASCII.
pub proof fn lemma_hex_digit(nibble: int)
    requires
        0 <= nibble < 16,
    ensures
        is_hex_char(hex_digit(nibble)),
        hex_value(hex_digit(nibble) as u8) == nibble,
        !('A' as u8 <= hex_digit(nibble) as u8 <= 'F' as u8),
{
}

/// An encoding is a text of hexadecimal digits, twice as long as the data.
pub proof fn lemma_hex_encoding_is_hex(data: Seq<u8>)
    ensures
        hex_encoding(data).len() == 2 * data.len(),
        is_hex_text(hex_encoding(data)),
        is_hex_bytes(ascii_bytes(hex_encoding(data))),
{
    let text = hex_encoding(data);
    assert forall|i: int| 0 <= i < text.len() implies is_hex_char(#[trigger] text[i]) by {
        if i % 2 == 0 {
            lemma_hex_digit(data[i / 2] as int / 16);
        } else {
            lemma_hex_digit(data[i / 2] as int % 16);
        }
    }
    assert forall|i: int| 0 <= i < text.len() implies is_hex_byte(
        #[trigger] ascii_bytes(text)[i],
    ) by {
        assert(is_hex_char(text[i]));
    }
}

/// Decoding the encoding of `data` gives `data` back.
pub proof fn lemma_hex_round_trip(data: Seq<u8>)
    ensures
        hex_decoding(ascii_bytes(hex_encoding(data))) == data,
{
    let text = ascii_bytes(hex_encoding(data));
    let back = hex_decoding(text);
    assert(back.len() == data.len());
    assert forall|i: int| 0 <= i < data.len() implies back[i] == data[i] by {
        let hi = data[i] as int / 16;
        let lo = data[i] as int % 16;
        lemma_hex_digit(hi);
        lemma_hex_digit(lo);
        assert((2 * i) % 2 == 0);
        assert((2 * i + 1) % 2 == 1);
        assert((2 * i) / 2 == i);
        assert((2 * i + 1) / 2 == i);
        assert(text[2 * i] == hex_digit(hi) as u8);
        assert(text[2 * i + 1] == hex_digit(lo) as u8);
    }
    assert(back =~= data);
}

/// A hexadecimal digit is an ASCII character.
pub proof fn lemma_hex_char_is_ascii(c: char)
    requires
        is_hex_char(c),
    ensures
        '\0' <= c <= '\u{7f}',
{
}

/// A text is hexadecimal exactly when it is ASCII and its bytes are.
pub proof fn lemma_hex_text_bytes(text: Seq<char>)
    ensures
        is_hex_text(text) <==> vstd::utf8::is_ascii_chars(text) && is_hex_bytes(ascii_bytes(text)),
{
    if is_hex_text(text) {
        assert forall|i: int| 0 <= i < text.len() implies is_hex_byte(
            #[trigger] ascii_bytes(text)[i],
        ) by {
            assert(is_hex_char(text[i]));
        }
        assert forall|i: int| 0 <= i < text.len() implies '\0' <= #[trigger] text[i]
            <= '\u{7f}' by {
            let c = text[i];
            assert(is_hex_char(c));
            lemma_hex_char_is_ascii(c);
        }
    }
    if vstd::utf8::is_ascii_chars(text) && is_hex_bytes(ascii_bytes(text)) {
        assert forall|i: int| 0 <= i < text.len() implies is_hex_char(#[trigger] text[i]) by {
            assert(is_hex_byte(ascii_bytes(text)[i]));
        }
    }
}

} // verus!
