use verifiable_lottery::error::LotteryError;
use verifiable_lottery::hash;

const HELLO: &str = "021ced8799296ceca557832ab941a50b4a11f83478cf141f51f933f653ab9fbcc05a037cddbed06e309bf334942c4e58cdf1a46e237911ccd7fcf9787cbc7fd0";
const EMPTY: &str = "786a02f742015903c6c6fd852552d272912f4740e15847618a86e217f71f5419d25e1031afee585313896444934eb04b903a685b1448b755d56f701afe9be2ce";
const ZERO64: &str = "8715b7b58c747a49e371ba0b02b7de8f35da26ff2c8a60b80715d0272021266283af3eedb537683dd74cb1708601a80c9970376f1226d16afc242765eccd592a";

fn with_first_byte(first: u8) -> hash::Hash {
    let mut bytes = [0u8; 64];
    bytes[0] = first;
    hash::Hash::from_bytes(bytes)
}

fn with_last_byte(last: u8) -> hash::Hash {
    let mut bytes = [0u8; 64];
    bytes[63] = last;
    hash::Hash::from_bytes(bytes)
}

#[test]
fn hash_of_known_message() {
    let digest = hash::Hash::of(&[b"hello world"]);
    assert_eq!(digest.to_string(), HELLO);
}

#[test]
fn hash_of_nothing_is_hash_of_empty_message() {
    assert_eq!(hash::Hash::of(&[]).to_string(), EMPTY);
    assert_eq!(hash::Hash::of(&[b""]).to_string(), EMPTY);
    assert_eq!(hash::Hash::of(&[b"", b""]).to_string(), EMPTY);
}

#[test]
fn hash_of_parts_is_hash_of_concatenation() {
    let whole = hash::Hash::of(&[b"hello world"]);
    assert_eq!(hash::Hash::of(&[b"hello", b" world"]), whole);
    assert_eq!(hash::Hash::of(&[b"hel", b"lo wor", b"ld"]), whole);
    assert_eq!(hash::Hash::of(&[b"", b"hello world", b""]), whole);
    assert_eq!(hash::Hash::of(&[b"h", b"e", b"l", b"l", b"o", b" ", b"w", b"o", b"r", b"l", b"d"]), whole);
}

#[test]
fn hash_depends_on_the_message() {
    assert_ne!(hash::Hash::of(&[b"hello world"]), hash::Hash::of(&[b"hello worle"]));
    assert_ne!(hash::Hash::of(&[b"ab", b"c"]), hash::Hash::of(&[b"c", b"ab"]));
}

#[test]
fn hash_of_sixty_four_zero_bytes() {
    let zeros = [0u8; 64];
    assert_eq!(hash::Hash::of(&[&zeros]).to_string(), ZERO64);
    assert_eq!(hash::Hash::of(&[&zeros[..10], &zeros[10..]]).to_string(), ZERO64);
}

#[test]
fn hash_has_sixty_four_bytes() {
    let digest = hash::Hash::of(&[b"hello world"]);
    assert_eq!(digest.as_bytes().len(), 64);
    assert_eq!(digest.as_bytes()[0], 0x02);
    assert_eq!(digest.as_bytes()[1], 0x1c);
    assert_eq!(digest.as_bytes()[63], 0xd0);
}

#[test]
fn to_string_is_128_lowercase_hex_digits() {
    let text = hash::Hash::of(&[b"anything at all"]).to_string();
    assert_eq!(text.len(), 128);
    assert!(text.chars().all(|c| c.is_ascii_digit() || ('a'..='f').contains(&c)));
}

#[test]
fn to_string_writes_high_nibble_first() {
    let mut bytes = [0u8; 64];
    bytes[0] = 0x0f;
    bytes[1] = 0xf0;
    bytes[2] = 0xa9;
    bytes[63] = 0x01;
    let text = hash::Hash::from_bytes(bytes).to_string();
    assert_eq!(&text[..6], "0ff0a9");
    assert_eq!(&text[126..], "01");
    assert_eq!(&text[6..126], "0".repeat(120));
}

#[test]
fn parse_reads_what_to_string_writes() {
    let digest = hash::Hash::of(&[b"round", b"trip"]);
    assert_eq!(hash::Hash::parse(&digest.to_string()), Ok(digest));
    let all_values = with_first_byte(0xff);
    assert_eq!(hash::Hash::parse(&all_values.to_string()), Ok(all_values));
}

#[test]
fn parse_known_text() {
    let parsed = hash::Hash::parse(HELLO).unwrap();
    assert_eq!(parsed, hash::Hash::of(&[b"hello world"]));
    assert_eq!(parsed.to_string(), HELLO);
}

#[test]
fn parse_accepts_uppercase_and_mixed_case() {
    let expected = hash::Hash::of(&[b"hello world"]);
    assert_eq!(hash::Hash::parse(&HELLO.to_uppercase()), Ok(expected));
    let mixed: String = HELLO
        .chars()
        .enumerate()
        .map(|(i, c)| if i % 2 == 0 { c.to_ascii_uppercase() } else { c })
        .collect();
    assert_eq!(hash::Hash::parse(&mixed), Ok(expected));
    assert_eq!(hash::Hash::parse(&mixed).unwrap().to_string(), HELLO);
}

#[test]
fn parse_rejects_wrong_length() {
    assert_eq!(hash::Hash::parse(""), Err(LotteryError::MalformedHash));
    assert_eq!(hash::Hash::parse("00"), Err(LotteryError::MalformedHash));
    assert_eq!(hash::Hash::parse(&HELLO[..126]), Err(LotteryError::MalformedHash));
    assert_eq!(hash::Hash::parse(&HELLO[..127]), Err(LotteryError::MalformedHash));
    assert_eq!(hash::Hash::parse(&format!("{}00", HELLO)), Err(LotteryError::MalformedHash));
    assert_eq!(hash::Hash::parse(&format!("{}0", HELLO)), Err(LotteryError::MalformedHash));
}

#[test]
fn parse_rejects_what_is_not_hex() {
    let with_g = format!("g{}", &HELLO[1..]);
    assert_eq!(hash::Hash::parse(&with_g), Err(LotteryError::MalformedHash));
    let with_space = format!("{} ", &HELLO[..127]);
    assert_eq!(hash::Hash::parse(&with_space), Err(LotteryError::MalformedHash));
    let with_newline = format!("{}\n", HELLO);
    assert_eq!(hash::Hash::parse(&with_newline), Err(LotteryError::MalformedHash));
    let with_escape = format!("\\u0030{}", &HELLO[6..]);
    assert_eq!(with_escape.len(), 128);
    assert_eq!(hash::Hash::parse(&with_escape), Err(LotteryError::MalformedHash));
}

#[test]
fn parse_rejects_text_that_is_not_ascii() {
    let accented = format!("{}é", &HELLO[..126]);
    assert_eq!(accented.len(), 128);
    assert_eq!(hash::Hash::parse(&accented), Err(LotteryError::MalformedHash));
    let fullwidth = format!("{}０", &HELLO[..127]);
    assert_eq!(fullwidth.chars().count(), 128);
    assert_eq!(hash::Hash::parse(&fullwidth), Err(LotteryError::MalformedHash));
}

#[test]
fn equality_is_by_bytes() {
    let a = with_last_byte(1);
    let b = with_last_byte(1);
    let c = with_last_byte(2);
    assert!(a.equals(&b));
    assert!(!a.equals(&c));
    assert!(a == b);
    assert!(a != c);
    assert_eq!(a.as_bytes(), b.as_bytes());
}

#[test]
fn order_is_lexicographic_by_byte() {
    let low = with_last_byte(0xff);
    let high = with_first_byte(0x01);
    assert!(low.le(&high));
    assert!(!high.le(&low));
    assert!(low.le(&low));
    assert!(low < high);
    assert!(high > low);
    assert!(low <= low);
    assert_eq!(low.partial_cmp(&high), Some(std::cmp::Ordering::Less));
    assert_eq!(high.partial_cmp(&low), Some(std::cmp::Ordering::Greater));
    assert_eq!(low.partial_cmp(&low), Some(std::cmp::Ordering::Equal));
    assert_eq!(low.cmp(&high), std::cmp::Ordering::Less);
}

#[test]
fn order_compares_bytes_as_unsigned() {
    let small = with_first_byte(0x7f);
    let large = with_first_byte(0x80);
    assert!(small.le(&large));
    assert!(!large.le(&small));
    assert!(small < large);
}

#[test]
fn order_agrees_with_the_order_of_the_texts() {
    let digests = [
        hash::Hash::of(&[b"a"]),
        hash::Hash::of(&[b"b"]),
        hash::Hash::of(&[b"c"]),
        hash::Hash::of(&[b"d"]),
        with_first_byte(0),
        with_first_byte(0xff),
    ];
    for x in digests.iter() {
        for y in digests.iter() {
            assert_eq!(x.le(y), x.to_string() <= y.to_string());
            assert_eq!(x.partial_cmp(y), Some(x.cmp(y)));
            assert_eq!(x.partial_cmp(y), Some(x.as_bytes().cmp(y.as_bytes())));
        }
    }
}

#[test]
fn error_messages_name_the_failure() {
    assert_eq!(LotteryError::MalformedHash.message(), "malformed hash");
    assert_eq!(LotteryError::MalformedSecret.message(), "malformed secret");
    assert_eq!(LotteryError::IntegrityViolation.message(), "integrity violation");
    assert_eq!(LotteryError::CommitmentMismatch.message(), "commitment mismatch");
    assert_eq!(LotteryError::Entropy.message(), "no entropy available");
}

#[test]
fn only_invalid_lotteries_give_a_verdict() {
    assert!(LotteryError::IntegrityViolation.is_verdict());
    assert!(LotteryError::CommitmentMismatch.is_verdict());
    assert!(!LotteryError::MalformedHash.is_verdict());
    assert!(!LotteryError::MalformedSecret.is_verdict());
    assert!(!LotteryError::Entropy.is_verdict());
}
