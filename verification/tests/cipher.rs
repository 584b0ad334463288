use protohackers::cipher::{
    AddCipher, AddPosCipher, Cipher, ComposableCipher, ComposedCipher, ReverseBitsCipher,
    XorCipher, XorPosCipher,
};

#[test]
fn test_complex() {
    let mut composed_cipher =
        ComposedCipher::from_spec_slice(&[0x02, 73, 0x05, 0x04, 177]).unwrap();

    let ciphered = composed_cipher.cipher(0);

    assert_eq!(composed_cipher.decipher(ciphered), 0);
}

#[test]
fn single_operations() {
    assert_eq!(ReverseBitsCipher.cipher(0b0000_0001), 0b1000_0000);
    assert_eq!(ReverseBitsCipher.cipher(0b1100_1010), 0b0101_0011);
    assert_eq!(ReverseBitsCipher.decipher(0b0101_0011), 0b1100_1010);
    assert_eq!(XorCipher(0x0f).cipher(0xf0), 0xff);
    assert_eq!(XorCipher(0x0f).decipher(0xff), 0xf0);
    assert_eq!(AddCipher(200).cipher(100), 44);
    assert_eq!(AddCipher(200).decipher(44), 100);
    let mut xor_pos = XorPosCipher::default();
    assert_eq!(xor_pos.cipher(0xff), 0xff);
    assert_eq!(xor_pos.cipher(0xff), 0xfe);
    assert_eq!(xor_pos.cipher(0xff), 0xfd);
    assert_eq!(xor_pos.decipher(0xff), 0xff);
    assert_eq!(xor_pos.decipher(0xfe), 0xff);
    let mut add_pos = AddPosCipher::default();
    assert_eq!(add_pos.cipher(255), 255);
    assert_eq!(add_pos.cipher(255), 0);
    assert_eq!(add_pos.cipher(255), 1);
    assert_eq!(add_pos.decipher(255), 255);
    assert_eq!(add_pos.decipher(0), 255);
}

#[test]
fn reverse_bits_of_every_byte() {
    for b in 0..=255u8 {
        assert_eq!(ReverseBitsCipher.cipher(b), b.reverse_bits());
    }
}

#[test]
fn positions_wrap() {
    let mut add_pos = AddPosCipher::default();
    for _ in 0..256 {
        add_pos.cipher(0);
    }
    assert_eq!(add_pos.cipher(7), 7);
    assert_eq!(add_pos.cipher(7), 8);
}

#[test]
fn known_streams() {
    // xor(1), reversebits
    let mut cipher = ComposedCipher::from_spec_slice(&[0x02, 0x01, 0x01]).unwrap();
    let out: Vec<u8> = b"hello".iter().map(|b| cipher.cipher(*b)).collect();
    assert_eq!(out, vec![0x96, 0x26, 0xb6, 0xb6, 0x76]);
    // addpos, addpos
    let mut cipher = ComposedCipher::from_spec_slice(&[0x05, 0x05]).unwrap();
    let out: Vec<u8> = b"hello".iter().map(|b| cipher.cipher(*b)).collect();
    assert_eq!(out, vec![0x68, 0x67, 0x70, 0x72, 0x77]);
    let mut decipher = ComposedCipher::from_spec_slice(&[0x05, 0x05]).unwrap();
    let back: Vec<u8> = out.iter().map(|b| decipher.decipher(*b)).collect();
    assert_eq!(back, b"hello".to_vec());
}

#[test]
fn decipher_undoes_cipher_on_a_stream() {
    let description = [0x01, 0x02, 0xa5, 0x03, 0x04, 0x11, 0x05, 0x01];
    let mut writer = ComposedCipher::from_spec_slice(&description).unwrap();
    let mut reader = writer.duplicate();
    for i in 0..1000u32 {
        let byte = (i * 7 % 256) as u8;
        let ciphered = writer.cipher(byte);
        assert_eq!(reader.decipher(ciphered), byte);
    }
}

#[test]
fn descriptions_that_are_refused() {
    assert!(ComposedCipher::from_spec_slice(&[0x00]).is_none());
    assert!(ComposedCipher::from_spec_slice(&[0x06]).is_none());
    assert!(ComposedCipher::from_spec_slice(&[0x02]).is_none());
    assert!(ComposedCipher::from_spec_slice(&[0x01, 0x04]).is_none());
    assert!(ComposedCipher::from_spec_slice(&[0x01, 0xff]).is_none());
    assert!(ComposedCipher::from_spec_slice(&[]).is_some());
    assert!(ComposableCipher::from_spec_slice(&[]).is_none());
    assert!(ComposableCipher::from_spec_slice(&[0x04]).is_none());
}

#[test]
fn one_operation_and_the_rest() {
    let (mut cipher, rest) = ComposableCipher::from_spec_slice(&[0x02, 0x7b, 0x05, 0x01]).unwrap();
    assert_eq!(rest, &[0x05, 0x01]);
    assert_eq!(cipher.cipher(0), 0x7b);
    let (mut cipher, rest) = ComposableCipher::from_spec_slice(&[0x04, 3]).unwrap();
    assert!(rest.is_empty());
    assert_eq!(cipher.cipher(255), 2);
    assert_eq!(cipher.decipher(2), 255);
    let (mut cipher, rest) = ComposableCipher::from_spec_slice(&[0x01, 0x01]).unwrap();
    assert_eq!(rest, &[0x01]);
    assert_eq!(cipher.cipher(1), 128);
    let (mut cipher, _) = ComposableCipher::from_spec_slice(&[0x03]).unwrap();
    assert_eq!(cipher.cipher(5), 5);
    assert_eq!(cipher.cipher(5), 4);
    let (mut cipher, _) = ComposableCipher::from_spec_slice(&[0x05]).unwrap();
    assert_eq!(cipher.cipher(5), 5);
    assert_eq!(cipher.cipher(5), 6);
    assert_eq!(cipher.decipher(5), 5);
    assert_eq!(cipher.decipher(6), 5);
}

#[test]
fn noop_check() {
    assert!(ComposedCipher::from_spec_slice(&[]).unwrap().check_is_noop());
    assert!(ComposedCipher::from_spec_slice(&[0x02, 0x00]).unwrap().check_is_noop());
    assert!(ComposedCipher::from_spec_slice(&[0x02, 0xab, 0x02, 0xab]).unwrap().check_is_noop());
    assert!(ComposedCipher::from_spec_slice(&[0x01, 0x01]).unwrap().check_is_noop());
    assert!(ComposedCipher::from_spec_slice(&[0x04, 0x00]).unwrap().check_is_noop());
    assert!(!ComposedCipher::from_spec_slice(&[0x02, 0x01]).unwrap().check_is_noop());
    assert!(!ComposedCipher::from_spec_slice(&[0x05]).unwrap().check_is_noop());
    assert!(!ComposedCipher::from_spec_slice(&[0x03]).unwrap().check_is_noop());
    assert!(!ComposedCipher::from_spec_slice(&[0x04, 0x01]).unwrap().check_is_noop());
    // The check leaves the cipher where it was.
    let mut cipher = ComposedCipher::from_spec_slice(&[0x05]).unwrap();
    assert!(!cipher.check_is_noop());
    assert_eq!(cipher.cipher(9), 9);
}
