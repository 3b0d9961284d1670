use bbx::crypto::{
    aead_decrypt, aead_encrypt, check_digest, derive_aead_key, drawn_key, frame_aad, gen_key, make_nonce,
    stream_id_tag, FileHash,
};
use bbx::wire::{hex, parse_key, read_u32, read_u64, same_bytes, write_u32, write_u64};

#[test]
fn key_roundtrip() {
    let k = gen_key().unwrap();
    let h = hex(&k);
    assert_eq!(parse_key(&h).unwrap(), k);
}

#[test]
fn fresh_keys_differ() {
    assert_ne!(gen_key().unwrap(), gen_key().unwrap());
}

#[test]
fn drawn_bytes_are_the_key() {
    let k: [u8; 32] = core::array::from_fn(|i| i as u8);
    assert_eq!(drawn_key(Ok(k)).unwrap(), k);
    assert_eq!(drawn_key(Err(getrandom::Error::UNSUPPORTED)).err().unwrap(), "getrandom");
}

#[test]
fn derive_aead_unique_per_salt() {
    let psk = [0x42u8; 32];
    let s1 = [1u8; 32];
    let s2 = [2u8; 32];
    let a = derive_aead_key(&psk, &s1);
    let b = derive_aead_key(&psk, &s2);
    let a2 = derive_aead_key(&psk, &s1);
    assert_ne!(a, b, "different salts must yield different AEAD keys");
    assert_eq!(a, a2, "same psk+salt must be deterministic");
    assert_ne!(a, psk, "derived key must not equal raw PSK");
}

#[test]
fn derived_key_is_the_keyed_hash() {
    let psk = [0x42u8; 32];
    let salt = [1u8; 32];
    assert_eq!(derive_aead_key(&psk, &salt), *blake3::keyed_hash(&psk, &salt).as_bytes());
    let mut msg = b"SID\0".to_vec();
    msg.extend(7u32.to_le_bytes());
    assert_eq!(stream_id_tag(&psk, 7), blake3::keyed_hash(&psk, &msg).as_bytes()[..16]);
}

#[test]
fn stream_id_mac_binds_psk() {
    let psk = [7u8; 32];
    let t0 = stream_id_tag(&psk, 0);
    let t1 = stream_id_tag(&psk, 1);
    let t0b = stream_id_tag(&psk, 0);
    assert_ne!(t0, t1);
    assert_eq!(t0, t0b);
    let other = stream_id_tag(&[8u8; 32], 0);
    assert_ne!(t0, other);
}

#[test]
fn aead_aad_mismatch_fails() {
    let k = derive_aead_key(&[1u8; 32], &[2u8; 32]);
    let aad_ok = frame_aad(2, 100, 4, 0, &[2u8; 32]);
    let aad_bad = frame_aad(2, 101, 4, 0, &[2u8; 32]);
    let ct = aead_encrypt(&k, 0, 0, b"hello", &aad_ok).unwrap();
    assert!(aead_decrypt(&k, 0, 0, &ct, &aad_ok).is_ok());
    assert!(aead_decrypt(&k, 0, 0, &ct, &aad_bad).is_err());
}

#[test]
fn sealed_message_opens_under_its_own_nonce_only() {
    let k = [3u8; 32];
    let ct = aead_encrypt(&k, 1, 5, b"hello", b"x").unwrap();
    assert_eq!(ct.len(), 21);
    assert_ne!(&ct[..5], b"hello");
    assert_eq!(aead_decrypt(&k, 1, 5, &ct, b"x").unwrap(), b"hello");
    for (id, n) in [(0, 5), (1, 4)] {
        assert_eq!(
            aead_decrypt(&k, id, n, &ct, b"x").err().unwrap(),
            "decrypt failed (wrong key or corrupt)"
        );
    }
    assert!(aead_decrypt(&[4u8; 32], 1, 5, &ct, b"x").is_err());
    assert!(aead_decrypt(&k, 1, 5, &ct[..20], b"x").is_err());
    assert!(aead_decrypt(&k, 1, 5, &[], b"x").is_err());
    let empty = aead_encrypt(&k, 0, u64::MAX, b"", b"").unwrap();
    assert_eq!(empty.len(), 16);
    assert_eq!(aead_decrypt(&k, 0, u64::MAX, &empty, b"").unwrap(), b"");
}

#[test]
fn nonce_and_associated_data_bytes() {
    assert_eq!(make_nonce(0x04030201, 0x0c0b0a0908070605), [1, 2, 3, 4, 5, 6, 7, 8, 9, 10, 11, 12]);
    let aad = frame_aad(1, 2, 3, 4, &[9; 32]);
    let mut want = 1u32.to_le_bytes().to_vec();
    want.extend(2u64.to_le_bytes());
    want.extend(3u32.to_le_bytes());
    want.extend(4u64.to_le_bytes());
    want.extend([9u8; 32]);
    assert_eq!(aad, want);
    assert_eq!(aad.len(), 56);
}

#[test]
fn file_hash_is_that_of_all_chunks() {
    let mut h = FileHash::start();
    assert_eq!(h.digest(), *blake3::hash(b"").as_bytes());
    h.feed(b"ab");
    h.feed(b"");
    h.feed(b"c");
    assert_eq!(h.digest(), *blake3::hash(b"abc").as_bytes());
    assert_eq!(
        hex(&h.digest()),
        "6437b3ac38465133ffb63b75273a8db548c558465d79db03fd359c6cd5bd9d85"
    );
}

#[test]
fn digests_compared() {
    assert!(check_digest(&[1; 32], &[1; 32]).is_ok());
    let mut other = [1u8; 32];
    other[31] = 2;
    let e = check_digest(&[1; 32], &other).err().unwrap();
    assert_eq!(
        e,
        format!("checksum mismatch: expected {} got {}02", "01".repeat(32), "01".repeat(31))
    );
}

#[test]
fn keys_that_cannot_be_read() {
    let long = "key must be 64 hex chars (32 bytes)";
    assert_eq!(parse_key("").err().unwrap(), long);
    assert_eq!(parse_key(&"0".repeat(63)).err().unwrap(), long);
    assert_eq!(parse_key(&"0".repeat(65)).err().unwrap(), long);
    assert_eq!(parse_key(&"g".repeat(64)).err().unwrap(), "bad key hex");
    assert_eq!(parse_key(&"é".repeat(32)).err().unwrap(), "bad key hex");
    let k = parse_key(&format!(" {}\n", "aF".repeat(32))).unwrap();
    assert_eq!(k, [0xaf; 32]);
    assert_eq!(parse_key(&"+f".repeat(32)).err().unwrap(), "bad key hex");
    assert_eq!(parse_key(&format!("{}+f", "00".repeat(31))).err().unwrap(), "bad key hex");
    assert_eq!(parse_key(&format!("{}f ", "00".repeat(31))).err().unwrap(), long);
}

#[test]
fn keys_in_any_case_between_blanks() {
    let k = sample_key();
    let t = hex(&k);
    assert_eq!(parse_key(&t).unwrap(), k);
    assert_eq!(parse_key(&t.to_uppercase()).unwrap(), k);
    let mixed = format!("{}{}", t[..33].to_uppercase(), &t[33..]);
    assert_eq!(parse_key(&format!("\t {mixed}\r\n")).unwrap(), k);
    assert_eq!(hex(&parse_key(&mixed).unwrap()), mixed.to_lowercase());
}

fn sample_key() -> [u8; 32] {
    let mut k = [0u8; 32];
    for (i, b) in k.iter_mut().enumerate() {
        *b = (i * 37 + 5) as u8;
    }
    k
}

#[test]
fn hex_notation() {
    assert_eq!(hex(&[]), "");
    assert_eq!(hex(&[0, 9, 10, 255, 0x5c]), "00090aff5c");
}

#[test]
fn little_endian_integers() {
    let mut w = vec![7u8];
    write_u32(&mut w, 0x04030201);
    write_u64(&mut w, 0x0807060504030201);
    assert_eq!(w, [7, 1, 2, 3, 4, 1, 2, 3, 4, 5, 6, 7, 8]);
    assert_eq!(read_u32(&w, 1), Some(0x04030201));
    assert_eq!(read_u64(&w, 5), Some(0x0807060504030201));
    assert_eq!(read_u64(&w, 6), None);
    assert_eq!(read_u32(&w, 10), None);
    assert_eq!(read_u32(&w, usize::MAX), None);
    assert!(same_bytes(&w[1..5], &w[5..9]));
    assert!(!same_bytes(&w[..1], &w[1..2]));
    assert!(!same_bytes(&w, &w[1..]));
}
