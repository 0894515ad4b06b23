use steganovault::{AudioSteganography, SteganoError, Steganography};

fn samples(n: usize) -> Vec<i16> {
    (0..n).map(|i| ((i as i64 * 7919) % 65536 - 32768) as i16).collect()
}

fn payload(n: usize) -> Vec<u8> {
    (0..n).map(|i| (i * 17 + 3) as u8).collect()
}

#[test]
fn audio_capacity_formula() {
    assert_eq!(AudioSteganography::calculate_capacity(0), 0);
    assert_eq!(AudioSteganography::calculate_capacity(31), 0);
    assert_eq!(AudioSteganography::calculate_capacity(32), 0);
    assert_eq!(AudioSteganography::calculate_capacity(40), 1);
    assert_eq!(AudioSteganography::calculate_capacity(1000), 121);
}

#[test]
fn audio_round_trip() {
    let steg = AudioSteganography::new();
    for n in [0usize, 1, 16, 100, 121] {
        let mut s = samples(1000);
        let data = payload(n);
        assert_eq!(steg.embed(&mut s, &data), Ok(()));
        assert_eq!(steg.extract(&s).unwrap(), data);
    }
}

#[test]
fn audio_capacity_boundary() {
    let steg = AudioSteganography::new();
    let mut s = samples(1000);
    assert!(steg.can_embed(&s, 121));
    assert!(!steg.can_embed(&s, 122));
    assert_eq!(steg.embed(&mut s, &payload(121)), Ok(()));
    let mut s = samples(1000);
    let before = s.clone();
    assert_eq!(steg.embed(&mut s, &payload(122)), Err(SteganoError::Capacity));
    assert_eq!(s, before);
}

#[test]
fn audio_too_short() {
    let steg = AudioSteganography::new();
    let mut s = samples(31);
    assert_eq!(steg.embed(&mut s, &[]), Err(SteganoError::Capacity));
    assert_eq!(steg.extract(&s), Err(SteganoError::Capacity));
}

#[test]
fn audio_only_low_bits_change() {
    let steg = AudioSteganography::new();
    let original = vec![-3i16, 2, -32768, 32767, 0, -1, 5, 6];
    let mut s: Vec<i16> = original.iter().cycle().take(64).cloned().collect();
    let fresh = s.clone();
    // length 3 = 0b11, then bytes 0xFF, 0x00, 0x01
    assert_eq!(steg.embed(&mut s, &[0xFF, 0x00, 0x01]), Ok(()));
    let expected_bits: Vec<i16> = {
        let mut b = vec![1, 1];
        b.extend(vec![0; 30]);
        b.extend(vec![1; 8]);
        b.extend(vec![0; 8]);
        b.push(1);
        b.extend(vec![0; 7]);
        b
    };
    for i in 0..56 {
        assert_eq!(s[i] & 1, expected_bits[i]);
        assert_eq!(s[i] & !1, fresh[i] & !1);
    }
    assert_eq!(&s[56..], &fresh[56..]);
}

#[test]
fn audio_corrupted_length_is_detected() {
    let steg = AudioSteganography::new();
    let mut s = samples(200);
    assert_eq!(steg.embed(&mut s, &payload(10)), Ok(()));
    s[30] |= 1;
    assert_eq!(steg.extract(&s), Err(SteganoError::Corruption));
}
