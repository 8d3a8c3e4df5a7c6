use wyag::codec::hashable;
use wyag::codec::Digest;
use wyag::hex::hex_digit_to_num;
use wyag::hex::num_to_hex_digit;
use wyag::hex::sha_to_bytes;
use wyag::hex::write_hex;
use wyag::text::ascii_string;

#[test]
fn sha1_of_empty_input() {
    assert_eq!(Digest::of(b"").to_hex(), "da39a3ee5e6b4b0d3255bfef95601890afd80709");
}

#[test]
fn sha1_of_abc() {
    assert_eq!(Digest::of(b"abc").to_hex(), "a9993e364706816aba3e25717850c26c9cd0d89d");
}

#[test]
fn sha1_of_hello_line() {
    let hex = Digest::of(b"hello\n").to_hex();
    assert_eq!(hex, "f572d396fae9206628714fb2ce00f72e94f2258f");
    assert!(hex.starts_with("f572d396fae9206628714fb2ce00f72e94f2258"));
}

#[test]
fn digest_is_a_function_of_the_input() {
    assert_eq!(Digest::of(b"same bytes"), Digest::of(b"same bytes"));
    assert_ne!(Digest::of(b"same bytes"), Digest::of(b"other bytes"));
    assert!(Digest::of(b"x").same(&Digest::of(b"x")));
    assert!(!Digest::of(b"x").same(&Digest::of(b"y")));
}

#[test]
fn digest_has_twenty_bytes_and_forty_digits() {
    let digest = Digest::of(b"abc");
    assert_eq!(digest.as_bytes().len(), 20);
    assert_eq!(digest.as_bytes()[0], 0xa9);
    assert_eq!(digest.as_bytes()[19], 0x9d);
    assert_eq!(digest.to_hex().len(), 40);
}

#[test]
fn digest_from_bytes_needs_twenty() {
    let bytes: Vec<u8> = (0u8..20).collect();
    let digest = Digest::from_bytes(&bytes).unwrap();
    assert_eq!(digest.as_bytes(), &bytes[..]);
    assert!(Digest::from_bytes(&bytes[..19]).is_none());
    assert!(Digest::from_bytes(&[0u8; 21]).is_none());
    assert!(Digest::from_bytes(&[]).is_none());
}

#[test]
fn digest_hex_round_trip() {
    let digest = Digest::of(b"hello\n");
    assert_eq!(Digest::from_hex(&digest.to_hex()), Some(digest));
}

#[test]
fn digest_from_hex_takes_both_cases() {
    let lower = Digest::from_hex("a9993e364706816aba3e25717850c26c9cd0d89d").unwrap();
    let upper = Digest::from_hex("A9993E364706816ABA3E25717850C26C9CD0D89D").unwrap();
    assert_eq!(lower, upper);
    assert_eq!(upper.to_hex(), "a9993e364706816aba3e25717850c26c9cd0d89d");
    assert_eq!(lower, Digest::of(b"abc"));
}

#[test]
fn digest_from_hex_rejects_other_text() {
    assert!(Digest::from_hex("").is_none());
    assert!(Digest::from_hex("HEAD").is_none());
    assert!(Digest::from_hex("a9993e364706816aba3e25717850c26c9cd0d89").is_none());
    assert!(Digest::from_hex("a9993e364706816aba3e25717850c26c9cd0d89d0").is_none());
    assert!(Digest::from_hex("g9993e364706816aba3e25717850c26c9cd0d89d").is_none());
    assert!(Digest::from_hex_bytes(b"a9993e364706816aba3e25717850c26c9cd0d8 d").is_none());
}

#[test]
fn hashable_up_to_the_counter_limit() {
    assert!(hashable(0));
    assert!(hashable(1 << 20));
    if usize::BITS == 64 {
        let limit: u64 = 1 << 61;
        assert!(hashable((limit - 1) as usize));
        assert!(!hashable(limit as usize));
        assert!(!hashable(usize::MAX));
    }
}

#[test]
fn hex_digit_values() {
    assert_eq!(hex_digit_to_num(b'0'), Some(0));
    assert_eq!(hex_digit_to_num(b'9'), Some(9));
    assert_eq!(hex_digit_to_num(b'a'), Some(10));
    assert_eq!(hex_digit_to_num(b'f'), Some(15));
    assert_eq!(hex_digit_to_num(b'A'), Some(10));
    assert_eq!(hex_digit_to_num(b'F'), Some(15));
    assert_eq!(hex_digit_to_num(b'g'), None);
    assert_eq!(hex_digit_to_num(b'G'), None);
    assert_eq!(hex_digit_to_num(b'/'), None);
    assert_eq!(hex_digit_to_num(b':'), None);
    assert_eq!(hex_digit_to_num(b'@'), None);
    assert_eq!(hex_digit_to_num(b'`'), None);
    assert_eq!(hex_digit_to_num(b' '), None);
    assert_eq!(hex_digit_to_num(0), None);
}

#[test]
fn hex_digits_of_values() {
    let digits: Vec<u8> = (0u8..16).map(num_to_hex_digit).collect();
    assert_eq!(digits, b"0123456789abcdef".to_vec());
}

#[test]
fn hex_of_bytes() {
    let mut out = b"x".to_vec();
    write_hex(&mut out, &[0x00, 0x0f, 0xf0, 0xbe, 0xef, 0xff]);
    assert_eq!(out, b"x000ff0beefff".to_vec());
    let mut empty = Vec::new();
    write_hex(&mut empty, &[]);
    assert!(empty.is_empty());
}

#[test]
fn bytes_of_hex() {
    assert_eq!(sha_to_bytes(b"000ff0BEefFF"), Some(vec![0x00, 0x0f, 0xf0, 0xbe, 0xef, 0xff]));
    assert_eq!(sha_to_bytes(b""), Some(vec![]));
    assert_eq!(sha_to_bytes(b"abc"), None);
    assert_eq!(sha_to_bytes(b"0x"), None);
    assert_eq!(sha_to_bytes(b"x0"), None);
}

#[test]
fn hex_round_trip_of_every_byte() {
    let bytes: Vec<u8> = (0u8..=255).collect();
    let mut text = Vec::new();
    write_hex(&mut text, &bytes);
    assert_eq!(text.len(), 512);
    assert_eq!(sha_to_bytes(&text), Some(bytes));
}

#[test]
fn ascii_string_keeps_the_characters() {
    assert_eq!(ascii_string(b"objects/ab".to_vec()), "objects/ab");
    assert_eq!(ascii_string(Vec::new()), "");
    assert_eq!(ascii_string(vec![0x7f, 0x00]), "\u{7f}\u{0}");
}

#[test]
fn compressed_bytes_inflate_to_the_input() {
    let input = b"blob 6\0hello\nhello\nhello\nhello\nhello\nhello\nhello\nhello\n".to_vec();
    let packed = wyag::codec::compress(&input).unwrap();
    assert_ne!(packed, input);
    assert_eq!(packed[0], 0x78);
    assert_eq!(wyag::codec::decompress(&packed), Ok(input));
    let nothing = wyag::codec::compress(b"").unwrap();
    assert!(!nothing.is_empty());
    assert_eq!(wyag::codec::decompress(&nothing), Ok(Vec::new()));
}

#[test]
fn compression_is_a_function_of_the_input() {
    assert_eq!(wyag::codec::compress(b"same"), wyag::codec::compress(b"same"));
}

#[test]
fn known_stream_inflates() {
    let stored: [u8; 11] = [0x78, 0x9c, 0x4b, 0x4c, 0x4a, 0x06, 0x00, 0x02, 0x4d, 0x01, 0x27];
    assert_eq!(wyag::codec::decompress(&stored), Ok(b"abc".to_vec()));
}

#[test]
fn bytes_that_are_no_stream_do_not_inflate() {
    assert_eq!(wyag::codec::decompress(b"hello"), Err(wyag::error::StoreError::Corrupt));
    assert_eq!(wyag::codec::decompress(b""), Err(wyag::error::StoreError::Corrupt));
    let packed = wyag::codec::compress(b"some bytes to pack").unwrap();
    assert_eq!(
        wyag::codec::decompress(&packed[..packed.len() - 6]),
        Err(wyag::error::StoreError::Corrupt)
    );
    let mut wrong = packed.clone();
    let last = wrong.len() - 1;
    wrong[last] ^= 0xff;
    assert_eq!(wyag::codec::decompress(&wrong), Err(wyag::error::StoreError::Corrupt));
}
