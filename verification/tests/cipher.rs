use xor_breaker::error::CryptoError;
use xor_breaker::keylength::{
    count_ones, estimate, hamming_distance, is_better, KeyLengthCandidate,
};
use xor_breaker::transpose::{interleave, transpose};
use xor_breaker::xor::{decrypt, encrypt, fixed_xor, xor_with_byte};

fn pair(length: u32, distance: u64) -> KeyLengthCandidate {
    KeyLengthCandidate { length, distance }
}

#[test]
fn encrypt_repeats_the_key_along_the_text() {
    let plaintext = b"Burning 'em, if you ain't quick and nimble\nI go crazy when I hear a cymbal";
    let expected = xor_breaker::hex::hex_decode(
        b"0b3637272a2b2e63622c2e69692a23693a2a3c6324202d623d63343c2a26226324272765272a282b2f20430a652e2c652a3124333a653e2b2027630c692b20283165286326302e27282f",
    )
    .unwrap();
    assert_eq!(encrypt(plaintext, b"ICE"), Ok(expected));
}

#[test]
fn encrypt_handles_a_key_longer_than_the_text() {
    assert_eq!(encrypt(&[0x01, 0x02], &[0x10, 0x20, 0x30]), Ok(vec![0x11, 0x22]));
    assert_eq!(encrypt(&[], &[0x10]), Ok(Vec::new()));
}

#[test]
fn encrypt_and_decrypt_reject_an_empty_key() {
    assert_eq!(encrypt(b"text", &[]), Err(CryptoError::InvalidInput));
    assert_eq!(decrypt(b"text", &[]), Err(CryptoError::InvalidInput));
    assert_eq!(encrypt(&[], &[]), Err(CryptoError::InvalidInput));
}

#[test]
fn decrypt_undoes_encrypt() {
    let mut plaintext: Vec<u8> = Vec::new();
    for n in 0..300usize {
        plaintext.push((n * 7 % 256) as u8);
    }
    let keys: Vec<Vec<u8>> = vec![
        vec![0x00],
        vec![0xff],
        b"ICE".to_vec(),
        vec![0x80, 0x01, 0x7f, 0xfe, 0x00],
        plaintext.clone(),
    ];
    for key in &keys {
        for len in [0usize, 1, 2, 3, 5, 299, 300] {
            let text = &plaintext[..len];
            let cipher = encrypt(text, key).unwrap();
            assert_eq!(cipher.len(), len);
            assert_eq!(decrypt(&cipher, key), Ok(text.to_vec()));
        }
    }
}

#[test]
fn fixed_xor_combines_byte_by_byte() {
    assert_eq!(fixed_xor(&[0x0f, 0xf0, 0xaa], &[0xff, 0xff, 0xaa]), Ok(vec![0xf0, 0x0f, 0x00]));
    assert_eq!(fixed_xor(&[], &[]), Ok(Vec::new()));
    assert_eq!(fixed_xor(&[1], &[]), Err(CryptoError::InvalidInput));
    assert_eq!(fixed_xor(&[1], &[1, 2]), Err(CryptoError::InvalidInput));
}

#[test]
fn xor_with_byte_flips_every_byte() {
    assert_eq!(xor_with_byte(&[0x00, 0x58, 0xff], 0x58), vec![0x58, 0x00, 0xa7]);
    assert_eq!(xor_with_byte(&[], 0x58), Vec::<u8>::new());
    assert_eq!(encrypt(&[0x00, 0x58, 0xff], &[0x58]), Ok(xor_with_byte(&[0x00, 0x58, 0xff], 0x58)));
}

#[test]
fn count_ones_counts_set_bits() {
    assert_eq!(count_ones(0x00), 0);
    assert_eq!(count_ones(0x01), 1);
    assert_eq!(count_ones(0x80), 1);
    assert_eq!(count_ones(0xa5), 4);
    assert_eq!(count_ones(0xff), 8);
    for x in 0..=255u8 {
        assert_eq!(count_ones(x) as u32, x.count_ones());
    }
}

#[test]
fn hamming_distance_counts_differing_bits() {
    assert_eq!(hamming_distance(b"this is a test", b"wokka wokka!!!"), Ok(37));
    assert_eq!(hamming_distance(b"", b""), Ok(0));
    assert_eq!(hamming_distance(&[0xff], &[0x00]), Ok(8));
    assert_eq!(hamming_distance(b"same", b"same"), Ok(0));
}

#[test]
fn hamming_distance_rejects_unequal_buffers() {
    assert_eq!(hamming_distance(b"ab", b"abc"), Err(CryptoError::InvalidInput));
    assert_eq!(hamming_distance(b"", b"a"), Err(CryptoError::InvalidInput));
}

#[test]
fn is_better_orders_by_distance_per_byte_then_length() {
    assert!(is_better(&pair(3, 5), &pair(2, 4)));
    assert!(!is_better(&pair(2, 4), &pair(3, 5)));
    assert!(is_better(&pair(2, 2), &pair(4, 4)));
    assert!(!is_better(&pair(4, 4), &pair(2, 2)));
    assert!(!is_better(&pair(2, 2), &pair(2, 2)));
    assert!(is_better(&pair(40, 0), &pair(2, 1)));
    assert!(is_better(
        &pair(u32::MAX, u64::MAX - 1),
        &pair(u32::MAX, u64::MAX)
    ));
}

#[test]
fn estimate_ranks_every_eligible_length() {
    let cipher = xor_breaker::hex::hex_decode(
        b"1b37373331363f78151b7f2b783431333d78397828372d363c78373e783a393b3736",
    )
    .unwrap();
    let expected = vec![
        pair(3, 5),
        pair(2, 4),
        pair(4, 9),
        pair(10, 24),
        pair(12, 31),
        pair(8, 21),
        pair(16, 42),
        pair(9, 24),
        pair(11, 31),
        pair(13, 37),
        pair(15, 45),
        pair(17, 51),
        pair(7, 22),
        pair(6, 19),
        pair(5, 16),
        pair(14, 45),
    ];
    assert_eq!(estimate(&cipher, 2, 40), Ok(expected));
}

#[test]
fn estimate_puts_the_shorter_length_first_on_equal_scores() {
    let cipher = [0x00u8, 0x01, 0x02, 0x03, 0x04, 0x05, 0x06, 0x07];
    assert_eq!(estimate(&cipher, 2, 40), Ok(vec![pair(2, 2), pair(4, 4), pair(3, 7)]));
}

#[test]
fn estimate_keeps_to_the_range_and_never_goes_below_two() {
    let cipher = [0x00u8, 0x01, 0x02, 0x03, 0x04, 0x05, 0x06, 0x07];
    assert_eq!(estimate(&cipher, 1, 3), Ok(vec![pair(2, 2), pair(3, 7)]));
    assert_eq!(estimate(&cipher, 0, 2), Ok(vec![pair(2, 2)]));
    assert_eq!(estimate(&cipher, 4, 4), Ok(vec![pair(4, 4)]));
    assert_eq!(estimate(&cipher, 3, u32::MAX), Ok(vec![pair(4, 4), pair(3, 7)]));
    let other = [0xffu8, 0xff, 0x00, 0x00, 0xff, 0xff, 0x00, 0x00, 0x01, 0x02, 0x03, 0x04];
    assert_eq!(
        estimate(&other, 2, 6),
        Ok(vec![pair(4, 0), pair(5, 16), pair(6, 31), pair(3, 16), pair(2, 16)])
    );
}

#[test]
fn estimate_rejects_a_ciphertext_without_two_blocks() {
    let cipher = [0x00u8, 0x01, 0x02, 0x03, 0x04, 0x05, 0x06, 0x07];
    assert_eq!(estimate(&[], 2, 40), Err(CryptoError::InvalidInput));
    assert_eq!(estimate(&[1, 2, 3], 2, 40), Err(CryptoError::InvalidInput));
    assert_eq!(estimate(&cipher, 5, 40), Err(CryptoError::InvalidInput));
    assert_eq!(estimate(&cipher, 4, 3), Err(CryptoError::InvalidInput));
    assert_eq!(estimate(&cipher, 0, 1), Err(CryptoError::InvalidInput));
    assert_eq!(estimate(&cipher[..7], 4, 40), Err(CryptoError::InvalidInput));
}

#[test]
fn estimate_gives_the_same_ranking_every_time() {
    let mut cipher: Vec<u8> = Vec::new();
    for n in 0..200usize {
        cipher.push((n * n % 251) as u8);
    }
    let first = estimate(&cipher, 2, 40).unwrap();
    let second = estimate(&cipher, 2, 40).unwrap();
    assert_eq!(first, second);
    assert_eq!(first.len(), 39);
    for i in 1..first.len() {
        assert!(is_better(&first[i - 1], &first[i]));
    }
}

#[test]
fn transpose_deals_bytes_out_by_position() {
    let cipher = [1u8, 2, 3, 4, 5, 6, 7];
    assert_eq!(transpose(&cipher, 1), Ok(vec![vec![1, 2, 3, 4, 5, 6, 7]]));
    assert_eq!(transpose(&cipher, 2), Ok(vec![vec![1, 3, 5, 7], vec![2, 4, 6]]));
    assert_eq!(transpose(&cipher, 3), Ok(vec![vec![1, 4, 7], vec![2, 5], vec![3, 6]]));
    assert_eq!(
        transpose(&cipher, 7),
        Ok(vec![vec![1], vec![2], vec![3], vec![4], vec![5], vec![6], vec![7]])
    );
}

#[test]
fn transpose_leaves_columns_empty_past_the_end() {
    assert_eq!(transpose(&[1, 2], 4), Ok(vec![vec![1], vec![2], vec![], vec![]]));
    assert_eq!(transpose(&[], 2), Ok(vec![vec![], vec![]]));
}

#[test]
fn transpose_rejects_a_key_length_of_zero() {
    assert_eq!(transpose(&[1, 2, 3], 0), Err(CryptoError::InvalidInput));
    assert_eq!(transpose(&[], 0), Err(CryptoError::InvalidInput));
}

#[test]
fn interleave_undoes_transpose_for_every_key_length() {
    let mut cipher: Vec<u8> = Vec::new();
    for n in 0..61usize {
        cipher.push((n * 37 % 256) as u8);
    }
    for key_length in 1..=cipher.len() + 3 {
        let columns = transpose(&cipher, key_length).unwrap();
        assert_eq!(columns.len(), key_length);
        let mut held: usize = 0;
        for (i, column) in columns.iter().enumerate() {
            let expected = if i < cipher.len() {
                (cipher.len() - i + key_length - 1) / key_length
            } else {
                0
            };
            assert_eq!(column.len(), expected);
            held += column.len();
        }
        assert_eq!(held, cipher.len());
        assert_eq!(interleave(&columns, cipher.len()), Ok(cipher.clone()));
    }
}

#[test]
fn interleave_rejects_columns_of_the_wrong_lengths() {
    assert_eq!(interleave(&vec![vec![1, 3], vec![2]], 3), Ok(vec![1, 2, 3]));
    assert_eq!(interleave(&vec![vec![1, 3], vec![2]], 4), Err(CryptoError::InvalidInput));
    assert_eq!(interleave(&vec![vec![1], vec![2, 3]], 3), Err(CryptoError::InvalidInput));
    assert_eq!(interleave(&Vec::new(), 0), Err(CryptoError::InvalidInput));
    assert_eq!(interleave(&vec![vec![], vec![]], 0), Ok(Vec::new()));
}
