use std::collections::HashMap;
use xor_breaker::base64::{base64_decode, base64_encode};
use xor_breaker::cryptoutil::{
    ascii_freq_analysis, ascii_to_hex, ascii_top_freq, base64_to_bytes, base64_to_hex,
    bytes_to_base64, bytes_to_hex, hex_freq_analysis, hex_to_ascii, hex_to_base64, hex_to_bytes,
    hex_to_hex_xor, hex_top_freq,
};
use xor_breaker::error::CryptoError;
use xor_breaker::hex::{hex_decode, hex_encode};
use xor_breaker::text::{ascii_bytes, bin_string, string_of_bytes};

#[test]
fn hex_to_base64_converts_a_whole_number_of_groups() {
    let hex = "49276d206b696c6c696e6720796f757220627261696e206c696b65206120706f69736f6e6f7573206d757368726f6f6d";
    let expected = "SSdtIGtpbGxpbmcgeW91ciBicmFpbiBsaWtlIGEgcG9pc29ub3VzIG11c2hyb29t";
    assert_eq!(hex_to_base64(hex), Ok(expected.to_string()));
}

#[test]
fn hex_to_base64_pads_a_short_last_group() {
    assert_eq!(hex_to_base64("4d"), Ok("TQ==".to_string()));
    assert_eq!(hex_to_base64("4d61"), Ok("TWE=".to_string()));
    assert_eq!(hex_to_base64("4d616e"), Ok("TWFu".to_string()));
    assert_eq!(hex_to_base64("4d616e4d"), Ok("TWFuTQ==".to_string()));
}

#[test]
fn hex_to_base64_uses_the_whole_alphabet() {
    assert_eq!(hex_to_base64("fbff"), Ok("+/8=".to_string()));
    assert_eq!(hex_to_base64("FBFF"), Ok("+/8=".to_string()));
    assert_eq!(hex_to_base64("000000"), Ok("AAAA".to_string()));
    assert_eq!(hex_to_base64("ffffff"), Ok("////".to_string()));
}

#[test]
fn hex_to_base64_of_nothing_is_nothing() {
    assert_eq!(hex_to_base64(""), Ok(String::new()));
}

#[test]
fn hex_to_base64_rejects_text_that_is_not_hex() {
    assert_eq!(hex_to_base64("4"), Err(CryptoError::MalformedEncoding));
    assert_eq!(hex_to_base64("4d6"), Err(CryptoError::MalformedEncoding));
    assert_eq!(hex_to_base64("4g"), Err(CryptoError::MalformedEncoding));
    assert_eq!(hex_to_base64("+f"), Err(CryptoError::MalformedEncoding));
    assert_eq!(hex_to_base64(" 4d"), Err(CryptoError::MalformedEncoding));
    assert_eq!(hex_to_base64("\u{e9}"), Err(CryptoError::MalformedEncoding));
    assert_eq!(hex_to_base64("4d\u{20ac}"), Err(CryptoError::MalformedEncoding));
}

#[test]
fn base64_to_hex_converts_groups_and_padding() {
    assert_eq!(base64_to_hex("TWFu"), Ok("4d616e".to_string()));
    assert_eq!(base64_to_hex("TWE="), Ok("4d61".to_string()));
    assert_eq!(base64_to_hex("TQ=="), Ok("4d".to_string()));
    assert_eq!(base64_to_hex("+/8="), Ok("fbff".to_string()));
    assert_eq!(base64_to_hex(""), Ok(String::new()));
    assert_eq!(
        base64_to_hex("SSdtIGtpbGxpbmcgeW91ciBicmFpbiBsaWtlIGEgcG9pc29ub3VzIG11c2hyb29t"),
        Ok("49276d206b696c6c696e6720796f757220627261696e206c696b65206120706f69736f6e6f7573206d757368726f6f6d".to_string())
    );
}

#[test]
fn base64_to_hex_ignores_the_unused_bits_of_a_padded_group() {
    assert_eq!(base64_to_hex("TR=="), Ok("4d".to_string()));
    assert_eq!(base64_to_hex("TWF="), Ok("4d61".to_string()));
}

#[test]
fn base64_to_hex_rejects_text_that_is_not_base64() {
    assert_eq!(base64_to_hex("TQ="), Err(CryptoError::MalformedEncoding));
    assert_eq!(base64_to_hex("TWFuT"), Err(CryptoError::MalformedEncoding));
    assert_eq!(base64_to_hex("TW-u"), Err(CryptoError::MalformedEncoding));
    assert_eq!(base64_to_hex("T=Fu"), Err(CryptoError::MalformedEncoding));
    assert_eq!(base64_to_hex("TQ=u"), Err(CryptoError::MalformedEncoding));
    assert_eq!(base64_to_hex("T==="), Err(CryptoError::MalformedEncoding));
    assert_eq!(base64_to_hex("===="), Err(CryptoError::MalformedEncoding));
    assert_eq!(base64_to_hex("TQ==TWFu"), Err(CryptoError::MalformedEncoding));
    assert_eq!(base64_to_hex("TWF\u{fc}"), Err(CryptoError::MalformedEncoding));
}

#[test]
fn hex_and_base64_bytes_round_trip() {
    let mut bytes: Vec<u8> = Vec::new();
    for n in 0..=255u8 {
        bytes.push(n);
        let hex = hex_encode(&bytes);
        assert_eq!(hex.len(), 2 * bytes.len());
        assert_eq!(hex_decode(&hex), Ok(bytes.clone()));
        let b64 = base64_encode(&bytes);
        assert_eq!(b64.len(), 4 * ((bytes.len() + 2) / 3));
        assert_eq!(base64_decode(&b64), Ok(bytes.clone()));
        assert_eq!(hex_to_bytes(&bytes_to_hex(&bytes)), Ok(bytes.clone()));
        assert_eq!(base64_to_bytes(&bytes_to_base64(&bytes)), Ok(bytes.clone()));
    }
}

#[test]
fn hex_decode_reads_both_cases() {
    assert_eq!(hex_decode(b"00ff10aB"), Ok(vec![0x00, 0xff, 0x10, 0xab]));
    assert_eq!(hex_encode(&[0x00, 0xff, 0x10, 0xab]), b"00ff10ab".to_vec());
    assert_eq!(hex_decode(b"0"), Err(CryptoError::MalformedEncoding));
    assert_eq!(hex_decode(b"0x"), Err(CryptoError::MalformedEncoding));
    assert_eq!(hex_decode(&[0x30, 0xc3]), Err(CryptoError::MalformedEncoding));
}

#[test]
fn base64_encode_gives_known_text() {
    assert_eq!(base64_encode(b"Man"), b"TWFu".to_vec());
    assert_eq!(base64_encode(b"light work."), b"bGlnaHQgd29yay4=".to_vec());
    assert_eq!(base64_encode(b"light work"), b"bGlnaHQgd29yaw==".to_vec());
    assert_eq!(base64_decode(b"bGlnaHQgd29yaw=="), Ok(b"light work".to_vec()));
    assert_eq!(base64_decode(b"bGlnaHQgd29yay4="), Ok(b"light work.".to_vec()));
}

#[test]
fn hex_to_hex_xor_combines_equal_buffers() {
    assert_eq!(
        hex_to_hex_xor(
            "1c0111001f010100061a024b53535009181c",
            "686974207468652062756c6c277320657965"
        ),
        Ok("746865206b696420646f6e277420706c6179".to_string())
    );
    assert_eq!(hex_to_hex_xor("", ""), Ok(String::new()));
    assert_eq!(hex_to_hex_xor("0f", "F0"), Ok("ff".to_string()));
    assert_eq!(hex_to_hex_xor("0001", "0001"), Ok("0000".to_string()));
}

#[test]
fn hex_to_hex_xor_rejects_unequal_or_malformed_buffers() {
    assert_eq!(hex_to_hex_xor("0f0f", "0f"), Err(CryptoError::InvalidInput));
    assert_eq!(hex_to_hex_xor("", "0f"), Err(CryptoError::InvalidInput));
    assert_eq!(hex_to_hex_xor("0g", "0f"), Err(CryptoError::MalformedEncoding));
    assert_eq!(hex_to_hex_xor("0f", "f"), Err(CryptoError::MalformedEncoding));
    assert_eq!(hex_to_hex_xor("0f0f", "zz"), Err(CryptoError::MalformedEncoding));
}

#[test]
fn hex_to_ascii_gives_one_character_per_byte() {
    assert_eq!(
        hex_to_ascii("746865206b696420646f6e277420706c6179"),
        Ok("the kid don't play".to_string())
    );
    assert_eq!(hex_to_ascii(""), Ok(String::new()));
    assert_eq!(hex_to_ascii("00e9ff"), Ok("\u{0}\u{e9}\u{ff}".to_string()));
    assert_eq!(hex_to_ascii("7"), Err(CryptoError::MalformedEncoding));
    assert_eq!(hex_to_ascii("7x"), Err(CryptoError::MalformedEncoding));
}

#[test]
fn ascii_to_hex_gives_two_digits_per_character() {
    assert_eq!(
        ascii_to_hex("the kid don't play"),
        Ok("746865206b696420646f6e277420706c6179".to_string())
    );
    assert_eq!(ascii_to_hex(""), Ok(String::new()));
    assert_eq!(ascii_to_hex("\n\u{7f}"), Ok("0a7f".to_string()));
    assert_eq!(ascii_to_hex("caf\u{e9}"), Err(CryptoError::MalformedEncoding));
}

#[test]
fn ascii_bytes_and_back() {
    assert_eq!(ascii_bytes("ICE"), Some(vec![0x49, 0x43, 0x45]));
    assert_eq!(ascii_bytes(""), Some(Vec::new()));
    assert_eq!(ascii_bytes("\u{80}"), None);
    assert_eq!(string_of_bytes(&[0x49, 0x43, 0x45]), "ICE".to_string());
    assert_eq!(string_of_bytes(&[0xe9]), "\u{e9}".to_string());
    assert_eq!(string_of_bytes(&[]), String::new());
}

#[test]
fn hex_freq_analysis_counts_bytes() {
    let mut expected: HashMap<u8, usize> = HashMap::new();
    expected.insert(0xaa, 3);
    expected.insert(0xbb, 1);
    expected.insert(0x00, 2);
    assert_eq!(hex_freq_analysis("aabbAA0000aa"), Ok(expected));
    assert_eq!(hex_freq_analysis(""), Ok(HashMap::new()));
    assert_eq!(hex_freq_analysis("aab"), Err(CryptoError::MalformedEncoding));
}

#[test]
fn ascii_freq_analysis_counts_characters() {
    let mut expected: HashMap<u8, usize> = HashMap::new();
    expected.insert(b'h', 1);
    expected.insert(b'e', 1);
    expected.insert(b'l', 3);
    expected.insert(b'o', 2);
    expected.insert(b' ', 1);
    expected.insert(b'w', 1);
    expected.insert(b'r', 1);
    expected.insert(b'd', 1);
    assert_eq!(ascii_freq_analysis("hello world"), Ok(expected));
    assert_eq!(ascii_freq_analysis("na\u{ef}ve"), Err(CryptoError::MalformedEncoding));
}

#[test]
fn hex_top_freq_ranks_by_count_then_value() {
    let cipher = "1b37373331363f78151b7f2b783431333d78397828372d363c78373e783a393b3736";
    assert_eq!(hex_top_freq(cipher, 1), Ok(vec![0x78]));
    assert_eq!(hex_top_freq(cipher, 3), Ok(vec![0x78, 0x37, 0x36]));
    assert_eq!(hex_top_freq(cipher, 0), Ok(Vec::new()));
    assert_eq!(hex_top_freq("0b0a0b0a0c", 5), Ok(vec![0x0a, 0x0b, 0x0c]));
    assert_eq!(hex_top_freq("", 4), Ok(Vec::new()));
    assert_eq!(hex_top_freq("0", 4), Err(CryptoError::MalformedEncoding));
}

#[test]
fn ascii_top_freq_ranks_characters() {
    assert_eq!(ascii_top_freq("hello world", 5), Ok(vec!['l', 'o', ' ', 'd', 'e']));
    assert_eq!(ascii_top_freq("hello world", 2), Ok(vec!['l', 'o']));
    assert_eq!(ascii_top_freq("zzzz", 5), Ok(vec!['z']));
    assert_eq!(ascii_top_freq("", 5), Ok(Vec::new()));
    assert_eq!(ascii_top_freq("\u{100}", 5), Err(CryptoError::MalformedEncoding));
}

#[test]
fn bin_string_writes_eight_digits() {
    assert_eq!(bin_string(0), "00000000".to_string());
    assert_eq!(bin_string(1), "00000001".to_string());
    assert_eq!(bin_string(0x80), "10000000".to_string());
    assert_eq!(bin_string(0xa5), "10100101".to_string());
    assert_eq!(bin_string(0xff), "11111111".to_string());
}

#[test]
fn error_messages_name_the_failure() {
    assert_eq!(CryptoError::InvalidInput.message(), "invalid input".to_string());
    assert_eq!(CryptoError::MalformedEncoding.message(), "malformed encoding".to_string());
    assert_eq!(CryptoError::UnsolvableColumn.message(), "unsolvable column".to_string());
}
