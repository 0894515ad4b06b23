use steganovault::{PdfSteganography, SteganoError, Steganography};

fn doc() -> Vec<u8> {
    b"%PDF-1.4\n1 0 obj\n<< >>\nendobj\ntrailer\n<< >>\n%%EOF\n".to_vec()
}

fn payload(n: usize) -> Vec<u8> {
    (0..n).map(|i| (i % 26) as u8 + b'a').collect()
}

#[test]
fn pdf_round_trip() {
    let steg = PdfSteganography::new();
    let mut d = doc();
    let data = payload(40);
    assert_eq!(steg.embed(&mut d, &data), Ok(()));
    assert_eq!(steg.extract(&d).unwrap(), data);
}

#[test]
fn pdf_section_layout() {
    let steg = PdfSteganography::new();
    let mut d = doc();
    let original = doc();
    assert_eq!(steg.embed(&mut d, b"hello"), Ok(()));
    let mut expected = original.clone();
    expected.push(b'\n');
    expected.extend_from_slice(&[5, 0, 0, 0]);
    expected.extend_from_slice(b"hello");
    expected.extend_from_slice(b"\n%%STEGANO%%\n");
    assert_eq!(d, expected);
}

#[test]
fn pdf_reembed_replaces_section() {
    let steg = PdfSteganography::new();
    let mut d = doc();
    assert_eq!(steg.embed(&mut d, &payload(300)), Ok(()));
    assert_eq!(steg.embed(&mut d, b"newest payload"), Ok(()));
    assert_eq!(steg.extract(&d).unwrap(), b"newest payload".to_vec());
    assert!(d.len() < doc().len() + 40);
}

#[test]
fn pdf_trailing_bytes_tolerated() {
    let steg = PdfSteganography::new();
    let mut d = doc();
    let data = payload(33);
    assert_eq!(steg.embed(&mut d, &data), Ok(()));
    d.extend_from_slice(b"foreign trailing data \x00\x01\x02");
    assert_eq!(steg.extract(&d).unwrap(), data);
}

#[test]
fn pdf_not_a_pdf_is_rejected_unchanged() {
    let steg = PdfSteganography::new();
    let mut d = b"GIF89a not a document %%EOF\n".to_vec();
    let before = d.clone();
    assert_eq!(steg.embed(&mut d, b"secret"), Err(SteganoError::CarrierFormat));
    assert_eq!(d, before);
    assert_eq!(steg.extract(&d), Err(SteganoError::CarrierFormat));
}

#[test]
fn pdf_without_marker_is_rejected() {
    let steg = PdfSteganography::new();
    let mut d = b"%PDF-1.7\nno end marker here\n".to_vec();
    let before = d.clone();
    assert_eq!(steg.embed(&mut d, b"secret"), Err(SteganoError::CarrierFormat));
    assert_eq!(d, before);
}

#[test]
fn pdf_last_marker_is_used() {
    let content = b"%PDF-1.4\nA\n%%EOF\nB\n%%EOF \r\nTAIL".to_vec();
    assert_eq!(PdfSteganography::find_eof_marker(&content), Some(27));
    let at_end = b"%PDF-1.4\n%%EOF".to_vec();
    assert_eq!(PdfSteganography::find_eof_marker(&at_end), Some(14));
    assert_eq!(PdfSteganography::find_eof_marker(b"%%EO"), None);
    assert_eq!(PdfSteganography::find_eof_marker(b""), None);
}

#[test]
fn pdf_truncation_is_detected() {
    let steg = PdfSteganography::new();
    let mut d = doc();
    assert_eq!(steg.embed(&mut d, &payload(50)), Ok(()));
    let cut = d.len() - 13 - 20;
    d.truncate(cut);
    assert_eq!(steg.extract(&d), Err(SteganoError::Corruption));
}

#[test]
fn pdf_without_hidden_data() {
    let steg = PdfSteganography::new();
    assert_eq!(steg.extract(&doc()), Err(SteganoError::Corruption));
    let mut zero = doc();
    zero.extend_from_slice(&[0, 0, 0, 0, 1, 2]);
    assert_eq!(steg.extract(&zero), Err(SteganoError::Corruption));
}

#[test]
fn pdf_capacity() {
    let steg = PdfSteganography::new();
    assert_eq!(PdfSteganography::calculate_capacity(10), 100_000_000);
    assert!(steg.can_embed(&doc(), 100_000_000));
    assert!(!steg.can_embed(&doc(), 100_000_001));
}

#[test]
fn pdf_replaced_marker_tolerated() {
    let steg = PdfSteganography::new();
    let mut d = doc();
    let data = payload(20);
    assert_eq!(steg.embed(&mut d, &data), Ok(()));
    let cut = d.len() - 13;
    d.truncate(cut);
    assert_eq!(steg.extract(&d).unwrap(), data);
    d.extend_from_slice(b"\n%%OTHER MARKER\n");
    assert_eq!(steg.extract(&d).unwrap(), data);
}

#[test]
fn pdf_cut_inside_length_is_detected() {
    let steg = PdfSteganography::new();
    let mut d = doc();
    let p = doc().len();
    assert_eq!(steg.embed(&mut d, &payload(20)), Ok(()));
    for k in (p + 1)..(p + 5 + 20) {
        assert_eq!(steg.extract(&d[..k].to_vec()), Err(SteganoError::Corruption));
    }
}

#[test]
fn pdf_forged_length_is_detected() {
    let steg = PdfSteganography::new();
    let mut d = doc();
    let p = doc().len();
    assert_eq!(steg.embed(&mut d, &payload(20)), Ok(()));
    d[p + 1..p + 5].copy_from_slice(&[0x41, 0x00, 0x01, 0x00]);
    assert_eq!(steg.extract(&d), Err(SteganoError::Corruption));
}
