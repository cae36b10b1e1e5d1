use base64_codec::decode;
use base64_codec::decode_bytes;
use base64_codec::encode;
use base64_codec::encode_bytes;
use base64_codec::get_n_first_bit;
use base64_codec::get_n_last_bits;
use base64_codec::is_valid_base64;

const ALPHABET: &str = "ABCDEFGHIJKLMNOPQRSTUVWXYZabcdefghijklmnopqrstuvwxyz0123456789+/";

#[test]
fn b64_encode() {
    assert_eq!("Uw==", encode("S".into()));
    assert_eq!("U3U=", encode("Su".into()));
    assert_eq!("U3Vu", encode("Sun".into()));
}

#[test]
fn b64_decode() {
    assert_eq!("S", decode("Uw==".into()));
    assert_eq!("Su", decode("U3U=".into()));
    assert_eq!("Sun", decode("U3Vu".into()));
}

#[test]
fn encode_known_vectors() {
    assert_eq!("Zg==", encode("f".into()));
    assert_eq!("Zm8=", encode("fo".into()));
    assert_eq!("Zm9v", encode("foo".into()));
    assert_eq!("Zm9vYg==", encode("foob".into()));
    assert_eq!("Zm9vYmE=", encode("fooba".into()));
    assert_eq!("Zm9vYmFy", encode("foobar".into()));
    assert_eq!("aGVsbG8gd29ybGQ=", encode("hello world".into()));
}

#[test]
fn decode_known_vectors() {
    assert_eq!("f", decode("Zg==".into()));
    assert_eq!("fo", decode("Zm8=".into()));
    assert_eq!("foo", decode("Zm9v".into()));
    assert_eq!("foob", decode("Zm9vYg==".into()));
    assert_eq!("fooba", decode("Zm9vYmE=".into()));
    assert_eq!("foobar", decode("Zm9vYmFy".into()));
    assert_eq!("hello world", decode("aGVsbG8gd29ybGQ=".into()));
}

#[test]
fn empty_input() {
    assert_eq!("", encode("".into()));
    assert_eq!("", decode("".into()));
}

#[test]
fn round_trip_ascii_strings() {
    let cases = [
        "a",
        "ab",
        "abc",
        "abcd",
        "hello world",
        "The quick brown fox jumps over the lazy dog.",
        "0123456789+/=~ !@#$%^&*()",
    ];
    for case in cases {
        let s: String = case.into();
        assert_eq!(s, decode(encode(s.clone())));
    }
}

#[test]
fn round_trip_all_byte_values() {
    let mut v: Vec<u8> = Vec::new();
    for b in 0..=255u8 {
        v.push(b);
    }
    let encoded = encode_bytes(&v);
    let decoded = decode_bytes(&encoded);
    assert_eq!(v, decoded);
}

#[test]
fn round_trip_bytes_all_remainders() {
    for len in 0..30usize {
        let v: Vec<u8> = (0..len).map(|i| (i * 37 % 256) as u8).collect();
        let encoded = encode_bytes(&v);
        let decoded = decode_bytes(&encoded);
        assert_eq!(v, decoded);
    }
}

#[test]
fn encoded_length_is_multiple_of_four() {
    for len in 1..50usize {
        let s: String = std::iter::repeat('x').take(len).collect();
        let encoded = encode(s);
        assert!(encoded.len() > 0);
        assert_eq!(0, encoded.len() % 4);
        assert_eq!(4 * ((len + 2) / 3), encoded.len());
    }
}

#[test]
fn alphabet_closure() {
    for len in 0..40usize {
        let v: Vec<u8> = (0..len).map(|i| (i * 97 % 256) as u8).collect();
        let encoded = encode_bytes(&v);
        let pad = encoded.iter().filter(|&&b| b == b'=').count();
        assert!(pad <= 2);
        for (pos, &b) in encoded.iter().enumerate() {
            if pos < encoded.len() - pad {
                assert!(ALPHABET.contains(b as char));
            } else {
                assert_eq!(b'=', b);
            }
        }
    }
}

#[test]
fn decode_reads_bytes_as_characters() {
    let input = String::from_utf8(vec![0xC3, 0xA9]).unwrap();
    let encoded = encode(input);
    assert_eq!("w6k=", encoded);
    let expected: String = [0xC3u8 as char, 0xA9u8 as char].iter().collect();
    assert_eq!(expected, decode(encoded));
}

#[test]
fn bit_helpers_identities() {
    for x in 0..=255u8 {
        assert_eq!(0, get_n_first_bit(x, 0));
        assert_eq!(x, get_n_last_bits(x, 8));
    }
}

#[test]
fn bit_helpers_exact_values() {
    assert_eq!(0b10, get_n_first_bit(0b1000_0000, 2));
    assert_eq!(0b101, get_n_first_bit(0b1010_0000, 3));
    assert_eq!(0b0011, get_n_last_bits(0b1011_0011, 4));
    assert_eq!(0b1, get_n_last_bits(0b1011_0011, 1));
    assert_eq!(0, get_n_last_bits(0b1011_0000, 4));
}

#[test]
fn validity_accepts_well_formed_text() {
    for case in ["", "Uw==", "U3U=", "U3Vu", "Zm9vYg==", "AAAA", "+/+/"] {
        assert!(is_valid_base64(&case.into()));
    }
}

#[test]
fn validity_rejects_malformed_text() {
    let bad_length = ["A", "AB", "ABC", "ABCDE"];
    for case in bad_length {
        assert!(!is_valid_base64(&case.into()));
    }
    let bad_characters = ["AB!A", "=AAA", "AB=A", "A===", "====", "AA=A"];
    for case in bad_characters {
        assert!(!is_valid_base64(&case.into()));
    }
    let non_ascii = String::from_utf8(vec![0xC3, 0xA9, b'A', b'A']).unwrap();
    assert!(!is_valid_base64(&non_ascii));
}
