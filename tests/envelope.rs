use steganovault::crypto::{open_envelope, seal_envelope};
use steganovault::{
    AudioSteganography, CryptoManager, ImageSteganography, KeyManager, PdfSteganography,
    PixelBuffer, SteganoError, Steganography,
};

fn from_hex(s: &str) -> Vec<u8> {
    (0..s.len() / 2).map(|i| u8::from_str_radix(&s[2 * i..2 * i + 2], 16).unwrap()).collect()
}

#[test]
fn envelope_layout() {
    let m = CryptoManager::with_key([7u8; 32]);
    let env = m.encrypt(b"attack at dawn").unwrap();
    assert_eq!(env.len(), 4 + 12 + 14 + 16);
    let total = u32::from_le_bytes([env[0], env[1], env[2], env[3]]) as usize;
    assert_eq!(total, env.len() - 4);
    assert_eq!(m.decrypt(&env).unwrap(), b"attack at dawn".to_vec());
}

#[test]
fn encryption_matches_known_vector() {
    let m = CryptoManager::with_key([0u8; 32]);
    let env = m.encrypt_with_nonce(&[0u8; 16], &[0u8; 12]).unwrap();
    let mut expected = vec![44u8, 0, 0, 0];
    expected.extend_from_slice(&[0u8; 12]);
    expected.extend(from_hex("cea7403d4d606b6e074ec5d3baf39d18"));
    expected.extend(from_hex("d0d1c8a799996bf0265b98b5d48ab919"));
    assert_eq!(env, expected);
    let empty = m.encrypt_with_nonce(&[], &[0u8; 12]).unwrap();
    assert_eq!(&empty[16..], &from_hex("530f8afbc74536b9a963b4f1c4cb738b")[..]);
}

#[test]
fn wrong_key_fails_decryption() {
    let env = CryptoManager::with_key([1u8; 32]).encrypt(b"secret").unwrap();
    let other = CryptoManager::with_key([2u8; 32]);
    assert_eq!(other.decrypt(&env), Err(SteganoError::Decryption));
}

#[test]
fn tampered_envelope_fails_decryption() {
    let m = CryptoManager::with_key([3u8; 32]);
    let mut env = m.encrypt(b"secret").unwrap();
    let last = env.len() - 1;
    env[last] ^= 0x80;
    assert_eq!(m.decrypt(&env), Err(SteganoError::Decryption));
}

#[test]
fn malformed_envelopes_are_rejected() {
    let m = CryptoManager::with_key([3u8; 32]);
    assert_eq!(m.decrypt(&[0u8; 16]), Err(SteganoError::Decryption));
    let mut env = m.encrypt(b"secret").unwrap();
    env[0] = env[0].wrapping_add(1);
    assert_eq!(m.decrypt(&env), Err(SteganoError::Decryption));
}

#[test]
fn seal_and_open_envelope() {
    let nonce = [5u8; 12];
    let env = seal_envelope(&nonce, &[9, 8, 7]).unwrap();
    assert_eq!(env, vec![15, 0, 0, 0, 5, 5, 5, 5, 5, 5, 5, 5, 5, 5, 5, 5, 9, 8, 7]);
    let (n, c) = open_envelope(&env).unwrap();
    assert_eq!(n, nonce);
    assert_eq!(c, vec![9, 8, 7]);
}

#[test]
fn fresh_nonces_differ() {
    let m = CryptoManager::new();
    let a = m.encrypt(b"same").unwrap();
    let b = m.encrypt(b"same").unwrap();
    assert_ne!(a, b);
    assert_eq!(m.decrypt(&a).unwrap(), m.decrypt(&b).unwrap());
}

#[test]
fn key_material_checks() {
    let key: Vec<u8> = (0..32).collect();
    let m = KeyManager::from_bytes(&key).unwrap();
    assert_eq!(m.get_key().to_vec(), key);
    assert!(matches!(KeyManager::from_bytes(&key[..31]), Err(SteganoError::InvalidKey)));
    assert!(matches!(KeyManager::from_bytes(&[0u8; 33]), Err(SteganoError::InvalidKey)));
    assert_eq!(CryptoManager::with_key([4u8; 32]).get_key(), [4u8; 32]);
}

#[test]
fn pipeline_through_every_carrier() {
    let m = CryptoManager::with_key([11u8; 32]);
    let secret = b"the vault combination is 7-3-9".to_vec();

    let env = m.encrypt(&secret).unwrap();
    let mut img = PixelBuffer { width: 40, height: 40, pixels: vec![128u8; 40 * 40 * 4] };
    assert_eq!(ImageSteganography::new().embed(&mut img, &env), Ok(()));
    let out = ImageSteganography::new().extract(&img).unwrap();
    assert_eq!(m.decrypt(&out).unwrap(), secret);

    let env = m.encrypt(&secret).unwrap();
    let mut wav: Vec<i16> = (0..2000).map(|i| (i * 37 % 3000) as i16 - 1500).collect();
    assert_eq!(AudioSteganography::new().embed(&mut wav, &env), Ok(()));
    let out = AudioSteganography::new().extract(&wav).unwrap();
    assert_eq!(m.decrypt(&out).unwrap(), secret);

    let env = m.encrypt(&secret).unwrap();
    let mut pdf = b"%PDF-1.5\nbody\n%%EOF\n".to_vec();
    assert_eq!(PdfSteganography::new().embed(&mut pdf, &env), Ok(()));
    let out = PdfSteganography::new().extract(&pdf).unwrap();
    assert_eq!(m.decrypt(&out).unwrap(), secret);
}
