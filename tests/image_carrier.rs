use steganovault::legacy::{AudioSteganography as LegacyAudio, CrytpoManager};
use steganovault::{ImageSteganography, PixelBuffer, SteganoError, Steganography};

fn blank_image(width: u32, height: u32) -> PixelBuffer {
    let mut pixels = Vec::new();
    for i in 0..(width as usize * height as usize) {
        pixels.push((i * 7 % 256) as u8);
        pixels.push((i * 13 % 256) as u8);
        pixels.push((i * 29 % 256) as u8);
        pixels.push(255);
    }
    PixelBuffer { width, height, pixels }
}

fn payload(n: usize) -> Vec<u8> {
    (0..n).map(|i| (i * 31 + 7) as u8).collect()
}

#[test]
fn image_capacity_formula() {
    assert_eq!(ImageSteganography::calculate_capacity(100, 100), 3746);
    assert_eq!(ImageSteganography::calculate_capacity(10, 10), 33);
    assert_eq!(ImageSteganography::calculate_capacity(3, 3), 0);
    assert_eq!(ImageSteganography::calculate_capacity(0, 7), 0);
}

#[test]
fn image_scenario_small_envelope_fits_large_payload_refused() {
    let steg = ImageSteganography::new();
    let mut img = blank_image(100, 100);
    let data = payload(16);
    assert!(steg.can_embed(&img, 16));
    assert_eq!(steg.embed(&mut img, &data), Ok(()));
    assert_eq!(steg.extract(&img).unwrap(), data);

    let mut img2 = blank_image(100, 100);
    let before = img2.pixels.clone();
    assert!(!steg.can_embed(&img2, 4000));
    assert_eq!(steg.embed(&mut img2, &payload(4000)), Err(SteganoError::Capacity));
    assert_eq!(img2.pixels, before);
}

#[test]
fn image_round_trip_various_lengths() {
    let steg = ImageSteganography::new();
    for n in [16usize, 17, 100, 1000, 1246, 3000, 3746] {
        let mut img = blank_image(100, 100);
        let data = payload(n);
        assert_eq!(steg.embed(&mut img, &data), Ok(()));
        assert_eq!(steg.extract(&img).unwrap(), data);
    }
}

#[test]
fn image_one_past_capacity_is_refused() {
    let steg = ImageSteganography::new();
    let mut img = blank_image(10, 10);
    assert_eq!(steg.embed(&mut img, &payload(34)), Err(SteganoError::Capacity));
}

#[test]
fn image_exact_capacity_fits() {
    let steg = ImageSteganography::new();
    let mut img = blank_image(10, 10);
    let data = payload(33);
    assert!(steg.can_embed(&img, 33));
    assert_eq!(steg.embed(&mut img, &data), Ok(()));
    assert_eq!(steg.extract(&img).unwrap(), data);
    // slot 100 starts the second round: pixel 0, channel 1; it holds bit 4 of byte 8
    assert_eq!(img.pixels[1] & 1, (data[8] >> 4) & 1);
    // slot 200 starts the third round: pixel 0, channel 2; bit 0 of byte 21
    assert_eq!(img.pixels[2] & 1, data[21] & 1);
    let mut full = blank_image(100, 100);
    assert_eq!(steg.embed(&mut full, &payload(3746)), Ok(()));
    assert_eq!(steg.extract(&full).unwrap(), payload(3746));
}

#[test]
fn image_slot_layout() {
    let steg = ImageSteganography::new();
    let mut img = blank_image(8, 8);
    let before = img.pixels.clone();
    // length 16 = 0b10000: bit 4 of the prefix is set, the others clear
    let data = vec![0xFFu8; 16];
    let mut big = blank_image(100, 100);
    assert_eq!(steg.embed(&mut big, &data), Ok(()));
    for i in 0..32usize {
        let c = big.pixels[4 * i + i % 3];
        assert_eq!(c & 1, if i == 4 { 1 } else { 0 });
    }
    for i in 32..(32 + 128usize) {
        assert_eq!(big.pixels[4 * i + i % 3] & 1, 1);
    }
    // only the low bit of the chosen channel changes
    let fresh = blank_image(100, 100);
    for k in 0..fresh.pixels.len() {
        let pix = k / 4;
        if k % 4 == pix % 3 && pix < 160 {
            assert_eq!(big.pixels[k] & 0xFE, fresh.pixels[k] & 0xFE);
        } else {
            assert_eq!(big.pixels[k], fresh.pixels[k]);
        }
    }
    // capacity of an 8x8 image is 20 bytes: 21 are refused, the image left unchanged
    assert_eq!(steg.embed(&mut img, &[0xFFu8; 21]), Err(SteganoError::Capacity));
    assert_eq!(img.pixels, before);
    assert_eq!(steg.embed(&mut img, &[0xFFu8; 20]), Ok(()));
}

#[test]
fn image_corrupted_length_is_detected() {
    let steg = ImageSteganography::new();
    let mut img = blank_image(20, 20);
    assert_eq!(steg.embed(&mut img, &payload(16)), Ok(()));
    // set bit 20 of the length prefix: claims more than the image holds
    let i = 20usize;
    img.pixels[4 * i + i % 3] |= 1;
    assert_eq!(steg.extract(&img), Err(SteganoError::Corruption));
}

#[test]
fn image_too_short_length_is_rejected() {
    let steg = ImageSteganography::new();
    let mut img = blank_image(20, 20);
    assert_eq!(steg.embed(&mut img, &payload(5)), Ok(()));
    assert_eq!(steg.extract(&img), Err(SteganoError::Corruption));
}

#[test]
fn image_malformed_buffer_is_format_error() {
    let steg = ImageSteganography::new();
    let mut img = PixelBuffer { width: 10, height: 10, pixels: vec![0u8; 399] };
    assert_eq!(steg.embed(&mut img, &payload(1)), Err(SteganoError::CarrierFormat));
    assert_eq!(steg.extract(&img), Err(SteganoError::CarrierFormat));
}

#[test]
fn image_too_small_for_prefix() {
    let steg = ImageSteganography::new();
    let mut img = blank_image(3, 3);
    assert_eq!(steg.extract(&img), Err(SteganoError::Capacity));
    assert_eq!(steg.embed(&mut img, &[]), Err(SteganoError::Capacity));
}

#[test]
fn legacy_manager_embeds_in_images() {
    let mut img = blank_image(64, 64);
    let data = payload(40);
    assert_eq!(CrytpoManager::embed_in_image(&mut img, &data), Ok(()));
    assert_eq!(CrytpoManager::extract_from_image(&img).unwrap(), data);
    let key = [9u8; 32];
    let m = CrytpoManager::with_key(key);
    assert_eq!(m.get_key(), key);
    let env = m.encrypt_aes(b"legacy").unwrap();
    assert_eq!(m.decrypt_aes(&env).unwrap(), b"legacy".to_vec());
}

#[test]
fn legacy_audio_scheme() {
    let mut samples: Vec<i16> = vec![10, -3, 7, 8, 100, -101, 6, 0];
    LegacyAudio::embed_in_audio(&mut samples, &[1, 0, 0, 0, 3, 2, 5]);
    assert_eq!(samples, vec![11, -4, 6, 8, 101, -102, 7, 0]);
    assert_eq!(LegacyAudio::extract_from_audio(&samples), Ok(vec![1]));
    assert_eq!(LegacyAudio::extract_from_audio(&samples[..3].to_vec()), Err(SteganoError::Capacity));
    let long: Vec<i16> = vec![1, 1, 0, 0, 0];
    assert_eq!(LegacyAudio::extract_from_audio(&long), Err(SteganoError::Corruption));
    let mut short = vec![4i16, 4];
    LegacyAudio::embed_in_audio(&mut short, &[1, 1, 1]);
    assert_eq!(short, vec![5, 5]);
}
