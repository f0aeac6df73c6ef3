use aes::cipher::generic_array::GenericArray;
use aes::cipher::{BlockDecrypt, BlockEncrypt, KeyInit};
use aes::{Aes128, Aes192};
use hsmtool::kwp::{kwp_check_integrity, kwp_unwrap, kwp_wrap, KwpError};

fn aes192_encrypt(key: &[u8], block: &[u8; 16]) -> [u8; 16] {
    let cipher = Aes192::new(GenericArray::from_slice(key));
    let mut b = GenericArray::clone_from_slice(block);
    cipher.encrypt_block(&mut b);
    let mut out = [0u8; 16];
    out.copy_from_slice(&b);
    out
}

fn aes192_decrypt(key: &[u8], block: &[u8; 16]) -> [u8; 16] {
    let cipher = Aes192::new(GenericArray::from_slice(key));
    let mut b = GenericArray::clone_from_slice(block);
    cipher.decrypt_block(&mut b);
    let mut out = [0u8; 16];
    out.copy_from_slice(&b);
    out
}

fn aes128_encrypt(key: &[u8], block: &[u8; 16]) -> [u8; 16] {
    let cipher = Aes128::new(GenericArray::from_slice(key));
    let mut b = GenericArray::clone_from_slice(block);
    cipher.encrypt_block(&mut b);
    let mut out = [0u8; 16];
    out.copy_from_slice(&b);
    out
}

fn aes128_decrypt(key: &[u8], block: &[u8; 16]) -> [u8; 16] {
    let cipher = Aes128::new(GenericArray::from_slice(key));
    let mut b = GenericArray::clone_from_slice(block);
    cipher.decrypt_block(&mut b);
    let mut out = [0u8; 16];
    out.copy_from_slice(&b);
    out
}

const RFC5649_KEK: &str = "5840df6e29b02af1ab493b705bf16ea1ae8338f4dcc176a8";

#[test]
fn rfc5649_wrap_twenty_octet_key() {
    let kek = hex::decode(RFC5649_KEK).unwrap();
    let key = hex::decode("c37b7e6492584340bed12207808941155068f738").unwrap();
    let expected =
        hex::decode("138bdeaa9b8fa7fc61f97742e72248ee5ae6ae5360d1ae6a5f54f373fa543b6a").unwrap();
    let wrapped = kwp_wrap(&key, |b: &[u8; 16]| -> Result<[u8; 16], ()> { Ok(aes192_encrypt(&kek, b)) })
        .unwrap();
    assert_eq!(wrapped, expected);
    let unwrapped =
        kwp_unwrap(&wrapped, |b: &[u8; 16]| -> Result<[u8; 16], ()> { Ok(aes192_decrypt(&kek, b)) })
            .unwrap();
    assert_eq!(unwrapped, key);
}

#[test]
fn rfc5649_wrap_seven_octet_key() {
    let kek = hex::decode(RFC5649_KEK).unwrap();
    let key = hex::decode("466f7250617369").unwrap();
    let expected = hex::decode("afbeb0f07dfbf5419200f2ccb50bb24f").unwrap();
    let wrapped = kwp_wrap(&key, |b: &[u8; 16]| -> Result<[u8; 16], ()> { Ok(aes192_encrypt(&kek, b)) })
        .unwrap();
    assert_eq!(wrapped, expected);
    let unwrapped =
        kwp_unwrap(&wrapped, |b: &[u8; 16]| -> Result<[u8; 16], ()> { Ok(aes192_decrypt(&kek, b)) })
            .unwrap();
    assert_eq!(unwrapped, key);
}

#[test]
fn unwrap_inverts_wrap_for_many_lengths() {
    let kek = hex::decode("000102030405060708090a0b0c0d0e0f").unwrap();
    for len in 1..=80usize {
        let msg: Vec<u8> = (0..len).map(|i| (i * 37 + 11) as u8).collect();
        let wrapped =
            kwp_wrap(&msg, |b: &[u8; 16]| -> Result<[u8; 16], ()> { Ok(aes128_encrypt(&kek, b)) })
                .unwrap();
        assert_eq!(wrapped.len(), 8 * ((len + 7) / 8) + 8);
        let unwrapped = kwp_unwrap(&wrapped, |b: &[u8; 16]| -> Result<[u8; 16], ()> {
            Ok(aes128_decrypt(&kek, b))
        })
        .unwrap();
        assert_eq!(unwrapped, msg);
    }
}

#[test]
fn wrap_rejects_empty_plaintext() {
    let r = kwp_wrap(&[], |b: &[u8; 16]| -> Result<[u8; 16], ()> { Ok(*b) });
    assert_eq!(r, Err(KwpError::EmptyPlaintext));
}

#[test]
fn wrap_passes_on_cipher_failure() {
    let r = kwp_wrap(&[1, 2, 3, 4, 5, 6, 7, 8, 9], |_b: &[u8; 16]| -> Result<[u8; 16], u32> {
        Err(42)
    });
    assert_eq!(r, Err(KwpError::Cipher(42)));
}

#[test]
fn wrap_single_semiblock_is_one_block() {
    // With the identity block function the single block is A || P || padding.
    let r = kwp_wrap(&[1, 2, 3], |b: &[u8; 16]| -> Result<[u8; 16], ()> { Ok(*b) }).unwrap();
    assert_eq!(r, vec![0xA6, 0x59, 0x59, 0xA6, 0, 0, 0, 3, 1, 2, 3, 0, 0, 0, 0, 0]);
}

#[test]
fn wrap_counts_calls() {
    // Two semiblocks take six rounds of two calls.
    let calls = std::cell::Cell::new(0usize);
    let r = kwp_wrap(&[7u8; 16], |b: &[u8; 16]| -> Result<[u8; 16], ()> {
        calls.set(calls.get() + 1);
        Ok(*b)
    })
    .unwrap();
    assert_eq!(calls.get(), 12);
    assert_eq!(r.len(), 24);
}

#[test]
fn unwrap_rejects_short_ciphertext() {
    let r = kwp_unwrap(&[0u8; 8], |b: &[u8; 16]| -> Result<[u8; 16], ()> { Ok(*b) });
    assert_eq!(r, Err(KwpError::CiphertextTooShort { len: 8 }));
}

#[test]
fn unwrap_rejects_misaligned_ciphertext() {
    let r = kwp_unwrap(&[0u8; 20], |b: &[u8; 16]| -> Result<[u8; 16], ()> { Ok(*b) });
    assert_eq!(r, Err(KwpError::CiphertextMisaligned { len: 20 }));
}

#[test]
fn unwrap_rejects_wrong_magic() {
    let c = [0xA6, 0x59, 0x59, 0xA7, 0, 0, 0, 3, 1, 2, 3, 0, 0, 0, 0, 0];
    let r = kwp_unwrap(&c, |b: &[u8; 16]| -> Result<[u8; 16], ()> { Ok(*b) });
    assert_eq!(r, Err(KwpError::IcvMismatch));
}

#[test]
fn unwrap_rejects_length_out_of_range() {
    let c = [0xA6, 0x59, 0x59, 0xA6, 0, 0, 0, 9, 1, 2, 3, 0, 0, 0, 0, 0];
    let r = kwp_unwrap(&c, |b: &[u8; 16]| -> Result<[u8; 16], ()> { Ok(*b) });
    assert_eq!(r, Err(KwpError::MliOutOfRange { mli: 9, min: 1, max: 8 }));
}

#[test]
fn unwrap_rejects_nonzero_padding() {
    let c = [0xA6, 0x59, 0x59, 0xA6, 0, 0, 0, 5, 9, 9, 9, 9, 9, 0, 1, 0];
    let r = kwp_unwrap(&c, |b: &[u8; 16]| -> Result<[u8; 16], ()> { Ok(*b) });
    assert_eq!(r, Err(KwpError::NonZeroPadding { offset: 6 }));
}

#[test]
fn unwrap_detects_tampering() {
    let kek = hex::decode(RFC5649_KEK).unwrap();
    let key = hex::decode("c37b7e6492584340bed12207808941155068f738").unwrap();
    let mut wrapped =
        kwp_wrap(&key, |b: &[u8; 16]| -> Result<[u8; 16], ()> { Ok(aes192_encrypt(&kek, b)) })
            .unwrap();
    wrapped[20] ^= 1;
    let r = kwp_unwrap(&wrapped, |b: &[u8; 16]| -> Result<[u8; 16], ()> {
        Ok(aes192_decrypt(&kek, b))
    });
    assert!(r.is_err());
    assert!(!matches!(r, Err(KwpError::Cipher(_))));
}

#[test]
fn unwrap_passes_on_cipher_failure() {
    let r = kwp_unwrap(&[0u8; 32], |_b: &[u8; 16]| -> Result<[u8; 16], &str> { Err("token") });
    assert_eq!(r, Err(KwpError::Cipher("token")));
}

#[test]
fn integrity_check_returns_plaintext() {
    let a = [0xA6, 0x59, 0x59, 0xA6, 0, 0, 0, 10];
    let padded = [1, 2, 3, 4, 5, 6, 7, 8, 9, 10, 0, 0, 0, 0, 0, 0];
    let r = kwp_check_integrity::<()>(&a, &padded, 2);
    assert_eq!(r, Ok(vec![1, 2, 3, 4, 5, 6, 7, 8, 9, 10]));
}

#[test]
fn integrity_check_rejects_short_length() {
    let a = [0xA6, 0x59, 0x59, 0xA6, 0, 0, 0, 8];
    let padded = [0u8; 16];
    let r = kwp_check_integrity::<()>(&a, &padded, 2);
    assert_eq!(r, Err(KwpError::MliOutOfRange { mli: 8, min: 9, max: 16 }));
}

#[test]
fn token_block_of_sixteen_octets() {
    let v: Vec<u8> = (0..16u8).collect();
    let r = hsmtool::session::block_result(Ok(v.clone()));
    assert_eq!(r.unwrap().to_vec(), v);
}

#[test]
fn token_block_of_wrong_length() {
    let r = hsmtool::session::block_result(Ok(vec![0u8; 32]));
    assert!(matches!(r, Err(hsmtool::session::TokenError::BlockLength { len: 32 })));
}

#[test]
fn accepted_ciphertext_is_the_wrap_of_its_plaintext() {
    let kek = hex::decode(RFC5649_KEK).unwrap();
    let c = hex::decode("138bdeaa9b8fa7fc61f97742e72248ee5ae6ae5360d1ae6a5f54f373fa543b6a").unwrap();
    let p = kwp_unwrap(&c, |b: &[u8; 16]| -> Result<[u8; 16], ()> { Ok(aes192_decrypt(&kek, b)) })
        .unwrap();
    let rewrapped =
        kwp_wrap(&p, |b: &[u8; 16]| -> Result<[u8; 16], ()> { Ok(aes192_encrypt(&kek, b)) }).unwrap();
    assert_eq!(rewrapped, c);
}
