use qtum_address_rust::base58::{decode, encode};
use qtum_address_rust::{append_checksum, hex_from_decoded, InvalidAddress, CHECKSUM_LEN, PAYLOAD_LEN};

#[test]
fn lengths_of_the_parts() {
    assert_eq!(PAYLOAD_LEN, 20);
    assert_eq!(CHECKSUM_LEN, 4);
}

#[test]
fn hex_is_read_from_bytes_1_to_20() {
    let mut decoded = vec![0x78u8];
    decoded.extend(1..=20u8);
    assert_eq!(
        hex_from_decoded(&decoded),
        Ok("0102030405060708090a0b0c0d0e0f1011121314".to_string())
    );
    decoded.extend([0xaa, 0xbb, 0xcc, 0xdd, 0xee, 0xff]);
    assert_eq!(
        hex_from_decoded(&decoded),
        Ok("0102030405060708090a0b0c0d0e0f1011121314".to_string())
    );
}

#[test]
fn hex_digits_are_lower_case_with_the_high_half_first() {
    let mut decoded = vec![0u8];
    decoded.extend([0x00, 0x0f, 0xf0, 0xff, 0xa5, 0x5a, 0x10, 0x01, 0x9c, 0xc9]);
    decoded.extend([0xab, 0xcd, 0xef, 0x12, 0x34, 0x56, 0x78, 0x90, 0xde, 0xad]);
    assert_eq!(
        hex_from_decoded(&decoded),
        Ok("000ff0ffa55a10019cc9abcdef1234567890dead".to_string())
    );
}

#[test]
fn fewer_than_21_bytes_hold_no_hex_address() {
    assert_eq!(hex_from_decoded(&[]), Err(InvalidAddress));
    assert_eq!(hex_from_decoded(&[0x78]), Err(InvalidAddress));
    assert_eq!(hex_from_decoded(&[7u8; 20]), Err(InvalidAddress));
    assert!(hex_from_decoded(&[7u8; 21]).is_ok());
}

#[test]
fn checksum_is_the_first_four_bytes_of_the_digest() {
    let digest: Vec<u8> = (100..132u8).collect();
    assert_eq!(
        append_checksum(vec![1, 2, 3], &digest),
        Ok(vec![1, 2, 3, 100, 101, 102, 103])
    );
    assert_eq!(append_checksum(vec![], &[9, 8, 7, 6]), Ok(vec![9, 8, 7, 6]));
}

#[test]
fn digest_shorter_than_the_checksum_is_rejected() {
    assert_eq!(append_checksum(vec![1, 2, 3], &[]), Err(InvalidAddress));
    assert_eq!(append_checksum(vec![1, 2, 3], &[9, 8, 7]), Err(InvalidAddress));
}

#[test]
fn known_envelope_encodes_to_the_known_address() {
    let body = vec![
        0x78, 0x6c, 0x89, 0xa1, 0xa6, 0xca, 0x2a, 0xe7, 0xc0, 0x0b, 0x24, 0x8b, 0xb2, 0x83, 0x2d,
        0x6f, 0x48, 0x0f, 0x27, 0xda, 0x68,
    ];
    // The double SHA-256 digest of `body`.
    let digest = [
        0x24, 0x59, 0x80, 0x2b, 0x30, 0xf2, 0x3a, 0x2c, 0x83, 0x03, 0x6b, 0x81, 0xda, 0x12, 0xa4,
        0xa1, 0xca, 0x56, 0xb3, 0x0b, 0xd7, 0x35, 0xd6, 0x11, 0x54, 0xd5, 0x78, 0x37, 0x9d, 0xc5,
        0x9c, 0x8e,
    ];
    let sealed = append_checksum(body, &digest).unwrap();
    assert_eq!(sealed.len(), 25);
    assert_eq!(encode(&sealed), "qTTH1Yr2eKCuDLqfxUyBLCAjmomQ8pyrBt");
    assert_eq!(decode("qTTH1Yr2eKCuDLqfxUyBLCAjmomQ8pyrBt"), Some(sealed));
}

#[test]
fn base58_of_a_few_bytes() {
    assert_eq!(encode(&[28, 215, 33, 155]), "jkuzA");
    assert_eq!(decode("jkuzA"), Some(vec![28, 215, 33, 155]));
    assert_eq!(encode(&[57]), "z");
    assert_eq!(encode(&[58]), "21");
    assert_eq!(encode(&[255]), "5Q");
    assert_eq!(encode(&[1, 0]), "5R");
    assert_eq!(decode("z"), Some(vec![57]));
    assert_eq!(decode("21"), Some(vec![58]));
    assert_eq!(decode("5R"), Some(vec![1, 0]));
}

#[test]
fn base58_keeps_leading_zero_bytes() {
    assert_eq!(encode(&[0, 0, 1]), "112");
    assert_eq!(decode("112"), Some(vec![0, 0, 1]));
    assert_eq!(encode(&[0, 28, 215, 33, 155]), "1jkuzA");
    assert_eq!(decode("1jkuzA"), Some(vec![0, 28, 215, 33, 155]));
}

#[test]
fn base58_of_zero_bytes_only() {
    assert_eq!(encode(&[0]), "1");
    assert_eq!(encode(&[0, 0]), "11");
    assert_eq!(encode(&[0, 0, 0, 0, 0]), "11111");
    assert_eq!(decode("1"), Some(vec![0]));
    assert_eq!(decode("11"), Some(vec![0, 0]));
    assert_eq!(decode("11111"), Some(vec![0, 0, 0, 0, 0]));
}

#[test]
fn base58_of_nothing() {
    assert_eq!(encode(&[]), "");
    assert_eq!(decode(""), Some(vec![]));
}

#[test]
fn base58_rejects_characters_outside_the_alphabet() {
    for text in ["0", "O", "I", "l", "jkuz A", "jkuzA!", "-", "jk\u{e9}zA", "\u{4e2d}"] {
        assert_eq!(decode(text), None);
    }
}

#[test]
fn base58_digits_have_their_place_in_the_alphabet() {
    let alphabet = "123456789ABCDEFGHJKLMNPQRSTUVWXYZabcdefghijkmnopqrstuvwxyz";
    for (value, digit) in alphabet.chars().enumerate() {
        if value == 0 {
            continue;
        }
        assert_eq!(encode(&[value as u8]), digit.to_string());
        assert_eq!(decode(&digit.to_string()), Some(vec![value as u8]));
    }
}

#[test]
fn base58_decoding_undoes_encoding() {
    let inputs: [&[u8]; 6] = [
        &[0, 0, 0],
        &[0, 255, 0],
        &[255, 255, 255, 255, 255, 255, 255, 255],
        &[1, 2, 3, 4, 5, 6, 7, 8, 9, 10, 11, 12, 13, 14, 15, 16, 17, 18, 19, 20, 21],
        &[0x3a, 0, 0, 0, 0, 0, 0, 0, 0, 0, 0, 0, 0, 0, 0, 0, 0, 0, 0, 0, 0, 0, 0, 0, 0],
        &[0, 0, 0, 0, 0, 0, 0, 0, 0, 0, 0, 0, 0, 0, 0, 0, 0, 0, 0, 0, 0, 0, 0, 0, 1],
    ];
    for bytes in inputs.iter() {
        assert_eq!(decode(&encode(bytes)), Some(bytes.to_vec()));
    }
}
