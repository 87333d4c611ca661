use sd_crypto::error::Error;
use sd_crypto::primitives::{AEAD_TAG_SIZE, BLOCK_SIZE};
use sd_crypto::stream::{Algorithm, StreamDecryption, StreamEncryption};

const KEY: [u8; 32] = [0u8; 32];
const XNONCE: [u8; 20] = [0u8; 20];
const ANONCE: [u8; 8] = [7u8; 8];
const FRAME: usize = BLOCK_SIZE + AEAD_TAG_SIZE;

fn sample(len: usize) -> Vec<u8> {
    (0..len).map(|i| (i * 31 % 251) as u8).collect()
}

#[test]
fn nonce_lengths() {
    assert_eq!(Algorithm::XChaCha20Poly1305.nonce_len(), 20);
    assert_eq!(Algorithm::Aes256Gcm.nonce_len(), 8);
}

#[test]
fn hello_round_trip_and_wrong_aad() {
    let c = StreamEncryption::encrypt_bytes(KEY, &XNONCE, Algorithm::XChaCha20Poly1305, b"hello", b"").unwrap();
    assert_eq!(c.len(), 5 + AEAD_TAG_SIZE);
    assert_ne!(&c[..5], b"hello");
    let p = StreamDecryption::decrypt_bytes(KEY, &XNONCE, Algorithm::XChaCha20Poly1305, &c, b"").unwrap();
    assert_eq!(p, b"hello".to_vec());
    let bad = StreamDecryption::decrypt_bytes(KEY, &XNONCE, Algorithm::XChaCha20Poly1305, &c, b"x");
    assert_eq!(bad, Err(Error::Decrypt));
}

#[test]
fn aes_round_trip_and_wrong_aad() {
    let c = StreamEncryption::encrypt_bytes(KEY, &ANONCE, Algorithm::Aes256Gcm, b"hello", b"hdr").unwrap();
    assert_eq!(c.len(), 5 + AEAD_TAG_SIZE);
    assert_ne!(&c[..5], b"hello");
    let p = StreamDecryption::decrypt_bytes(KEY, &ANONCE, Algorithm::Aes256Gcm, &c, b"hdr").unwrap();
    assert_eq!(p, b"hello".to_vec());
    let bad = StreamDecryption::decrypt_bytes(KEY, &ANONCE, Algorithm::Aes256Gcm, &c, b"hdR");
    assert_eq!(bad, Err(Error::Decrypt));
}

#[test]
fn nonce_length_mismatch() {
    let e = StreamEncryption::encrypt_bytes(KEY, &ANONCE, Algorithm::XChaCha20Poly1305, b"a", b"");
    assert_eq!(e, Err(Error::NonceLengthMismatch));
    let d = StreamDecryption::decrypt_bytes(KEY, &XNONCE, Algorithm::Aes256Gcm, b"a", b"");
    assert_eq!(d, Err(Error::NonceLengthMismatch));
    assert!(StreamEncryption::new(KEY, &[0u8; 19], Algorithm::XChaCha20Poly1305).is_err());
    assert!(StreamDecryption::new(KEY, &[0u8; 9], Algorithm::Aes256Gcm).is_err());
}

#[test]
fn empty_plaintext_is_one_tag() {
    for (alg, nonce) in [(Algorithm::XChaCha20Poly1305, &XNONCE[..]), (Algorithm::Aes256Gcm, &ANONCE[..])] {
        let c = StreamEncryption::encrypt_bytes(KEY, nonce, alg, b"", b"").unwrap();
        assert_eq!(c.len(), AEAD_TAG_SIZE);
        let p = StreamDecryption::decrypt_bytes(KEY, nonce, alg, &c, b"").unwrap();
        assert!(p.is_empty());
    }
}

#[test]
fn exact_block_gets_empty_last_block() {
    let pt = sample(BLOCK_SIZE);
    let c = StreamEncryption::encrypt_bytes(KEY, &XNONCE, Algorithm::XChaCha20Poly1305, &pt, b"a").unwrap();
    assert_eq!(c.len(), FRAME + AEAD_TAG_SIZE);
    let p = StreamDecryption::decrypt_bytes(KEY, &XNONCE, Algorithm::XChaCha20Poly1305, &c, b"a").unwrap();
    assert_eq!(p, pt);
}

#[test]
fn multi_block_round_trip() {
    let pt = sample(2 * BLOCK_SIZE + BLOCK_SIZE / 2);
    for (alg, nonce) in [(Algorithm::XChaCha20Poly1305, &XNONCE[..]), (Algorithm::Aes256Gcm, &ANONCE[..])] {
        let c = StreamEncryption::encrypt_bytes(KEY, nonce, alg, &pt, b"header").unwrap();
        assert_eq!(c.len(), pt.len() + 3 * AEAD_TAG_SIZE);
        let p = StreamDecryption::decrypt_bytes(KEY, nonce, alg, &c, b"header").unwrap();
        assert_eq!(p, pt);
    }
}

#[test]
fn truncation_is_detected() {
    let pt = sample(2 * BLOCK_SIZE + 100);
    let c = StreamEncryption::encrypt_bytes(KEY, &XNONCE, Algorithm::XChaCha20Poly1305, &pt, b"").unwrap();
    let without_last = &c[..2 * FRAME];
    let r = StreamDecryption::decrypt_bytes(KEY, &XNONCE, Algorithm::XChaCha20Poly1305, without_last, b"");
    assert_eq!(r, Err(Error::Decrypt));
    let mut without_middle = c[..FRAME].to_vec();
    without_middle.extend_from_slice(&c[2 * FRAME..]);
    let r = StreamDecryption::decrypt_bytes(KEY, &XNONCE, Algorithm::XChaCha20Poly1305, &without_middle, b"");
    assert_eq!(r, Err(Error::Decrypt));
}

#[test]
fn reordering_is_detected() {
    let pt = sample(2 * BLOCK_SIZE + 100);
    let c = StreamEncryption::encrypt_bytes(KEY, &ANONCE, Algorithm::Aes256Gcm, &pt, b"").unwrap();
    let mut swapped = c[FRAME..2 * FRAME].to_vec();
    swapped.extend_from_slice(&c[..FRAME]);
    swapped.extend_from_slice(&c[2 * FRAME..]);
    let r = StreamDecryption::decrypt_bytes(KEY, &ANONCE, Algorithm::Aes256Gcm, &swapped, b"");
    assert_eq!(r, Err(Error::Decrypt));
}

#[test]
fn changed_header_byte_fails_every_block() {
    let pt = sample(BLOCK_SIZE + 10);
    let header = sample(64);
    let c = StreamEncryption::encrypt_bytes(KEY, &XNONCE, Algorithm::XChaCha20Poly1305, &pt, &header).unwrap();
    let mut other = header.clone();
    other[63] ^= 1;
    let mut d = StreamDecryption::new(KEY, &XNONCE, Algorithm::XChaCha20Poly1305).unwrap();
    assert_eq!(d.decrypt_next(&other, &c[..FRAME]), Err(Error::Decrypt));
    assert!(d.decrypt_next(&header, &c[..FRAME]).is_ok());
    assert_eq!(d.decrypt_last(&other, &c[FRAME..]), Err(Error::Decrypt));
}

#[test]
fn flipped_ciphertext_bit_fails() {
    let mut c = StreamEncryption::encrypt_bytes(KEY, &XNONCE, Algorithm::XChaCha20Poly1305, b"some data", b"").unwrap();
    c[3] ^= 0x80;
    let r = StreamDecryption::decrypt_bytes(KEY, &XNONCE, Algorithm::XChaCha20Poly1305, &c, b"");
    assert_eq!(r, Err(Error::Decrypt));
}

#[test]
fn wrong_key_fails() {
    let c = StreamEncryption::encrypt_bytes(KEY, &ANONCE, Algorithm::Aes256Gcm, b"secret", b"").unwrap();
    let r = StreamDecryption::decrypt_bytes([1u8; 32], &ANONCE, Algorithm::Aes256Gcm, &c, b"");
    assert_eq!(r, Err(Error::Decrypt));
}

#[test]
fn same_inputs_same_ciphertext() {
    let a = StreamEncryption::encrypt_bytes(KEY, &XNONCE, Algorithm::XChaCha20Poly1305, b"abc", b"d").unwrap();
    let b = StreamEncryption::encrypt_bytes(KEY, &XNONCE, Algorithm::XChaCha20Poly1305, b"abc", b"d").unwrap();
    assert_eq!(a, b);
    let other = StreamEncryption::encrypt_bytes(KEY, &[1u8; 20], Algorithm::XChaCha20Poly1305, b"abc", b"d").unwrap();
    assert_ne!(a, other);
}

#[test]
fn block_by_block_matches_whole_stream() {
    let pt = sample(BLOCK_SIZE + 5);
    let whole = StreamEncryption::encrypt_bytes(KEY, &ANONCE, Algorithm::Aes256Gcm, &pt, b"z").unwrap();
    let mut e = StreamEncryption::new(KEY, &ANONCE, Algorithm::Aes256Gcm).unwrap();
    let mut parts = e.encrypt_next(b"z", &pt[..BLOCK_SIZE]).unwrap();
    assert_eq!(parts.len(), FRAME);
    parts.extend(e.encrypt_last(b"z", &pt[BLOCK_SIZE..]).unwrap());
    assert_eq!(parts, whole);

    let mut d = StreamDecryption::new(KEY, &ANONCE, Algorithm::Aes256Gcm).unwrap();
    let mut out = d.decrypt_next(b"z", &whole[..FRAME]).unwrap();
    out.extend(d.decrypt_last(b"z", &whole[FRAME..]).unwrap());
    assert_eq!(out, pt);
}

#[test]
fn last_block_is_not_a_middle_block() {
    let c = StreamEncryption::encrypt_bytes(KEY, &XNONCE, Algorithm::XChaCha20Poly1305, b"tail", b"").unwrap();
    let mut d = StreamDecryption::new(KEY, &XNONCE, Algorithm::XChaCha20Poly1305).unwrap();
    assert_eq!(d.decrypt_next(b"", &c), Err(Error::Decrypt));
}

#[test]
fn streams_from_existing_encryptor() {
    let e = StreamEncryption::new(KEY, &XNONCE, Algorithm::XChaCha20Poly1305).unwrap();
    let c = e.encrypt_streams(b"hello", b"").unwrap();
    let d = StreamDecryption::new(KEY, &XNONCE, Algorithm::XChaCha20Poly1305).unwrap();
    assert_eq!(d.decrypt_streams(&c, b"").unwrap(), b"hello".to_vec());
}

#[test]
fn chunk_steps_follow_block_size() {
    let pt = sample(BLOCK_SIZE + 3);
    let whole = StreamEncryption::encrypt_bytes(KEY, &XNONCE, Algorithm::XChaCha20Poly1305, &pt, b"h").unwrap();
    let e = StreamEncryption::new(KEY, &XNONCE, Algorithm::XChaCha20Poly1305).unwrap();
    let (first, next) = e.encrypt_chunk(b"h", &pt[..BLOCK_SIZE]).unwrap();
    let e = next.expect("a full block leaves the stream open");
    let (last, done) = e.encrypt_chunk(b"h", &pt[BLOCK_SIZE..]).unwrap();
    assert!(done.is_none());
    let mut joined = first;
    joined.extend(last);
    assert_eq!(joined, whole);

    let d = StreamDecryption::new(KEY, &XNONCE, Algorithm::XChaCha20Poly1305).unwrap();
    let (b0, next) = d.decrypt_chunk(b"h", &whole[..FRAME]).unwrap();
    let d = next.expect("a full frame leaves the stream open");
    let (b1, done) = d.decrypt_chunk(b"h", &whole[FRAME..]).unwrap();
    assert!(done.is_none());
    assert_eq!(b0, pt[..BLOCK_SIZE].to_vec());
    assert_eq!(b1, pt[BLOCK_SIZE..].to_vec());
}

#[test]
fn chunk_step_rejects_wrong_aad() {
    let e = StreamEncryption::new(KEY, &ANONCE, Algorithm::Aes256Gcm).unwrap();
    let (c, done) = e.encrypt_chunk(b"a", b"short").unwrap();
    assert!(done.is_none());
    let d = StreamDecryption::new(KEY, &ANONCE, Algorithm::Aes256Gcm).unwrap();
    assert!(matches!(d.decrypt_chunk(b"b", &c), Err(Error::Decrypt)));
}

#[test]
fn ciphertext_size_counts_one_tag_per_block() {
    let pt = sample(3 * BLOCK_SIZE);
    let c = StreamEncryption::encrypt_bytes(KEY, &ANONCE, Algorithm::Aes256Gcm, &pt, b"").unwrap();
    assert_eq!(c.len(), 3 * BLOCK_SIZE + 4 * AEAD_TAG_SIZE);
}
