use kiki::data::{hash_key, package_data, BatchIterator, BitIterator};
use kiki::errors::AppErrorKind;
use kiki::image::Image;
use kiki::lsb::{embed, extract};
use kiki::pixel::{PixelIterator, RandomPixelIterator, SequentialPixelIterator, TraversalMode};
use kiki::rng::SeededRng;
use kiki::{check_extract_method, resolve_method, supported_methods};

fn blank_image(width: u32, height: u32) -> Image {
    let data = vec![0x7fu8; (width * height * 4) as usize];
    Image::new(width, height, data).expect("buffer size matches")
}

fn patterned_image(width: u32, height: u32) -> Image {
    let n = (width * height * 4) as usize;
    let mut data = Vec::with_capacity(n);
    for i in 0..n {
        data.push((i * 37 % 251) as u8);
    }
    Image::new(width, height, data).expect("buffer size matches")
}

#[test]
fn bit_iterator_is_msb_first() {
    let data = [0b1011_0000u8];
    let mut bits = BitIterator::new(&data);
    let expected = [1, 0, 1, 1, 0, 0, 0, 0];
    for &e in expected.iter() {
        assert_eq!(bits.next(), Some(e));
    }
    assert_eq!(bits.next(), None);
}

#[test]
fn batch_iterator_pads_the_tail_with_none() {
    let data = [0b1011_0000u8];
    let bits = BitIterator::new(&data);
    let mut batches = BatchIterator::new(bits, 3);
    assert_eq!(batches.next(), Some(vec![Some(1), Some(0), Some(1)]));
    assert_eq!(batches.next(), Some(vec![Some(1), Some(0), Some(0)]));
    assert_eq!(batches.next(), Some(vec![Some(0), Some(0), None]));
    assert_eq!(batches.next(), None);
}

#[test]
fn package_data_of_empty_payload_is_eight_zero_bytes() {
    // CRC-32 of the empty input is 0, and the length field is 0.
    let framed = package_data(&[]);
    assert_eq!(framed, vec![0u8; 8]);
    assert_eq!(crc32fast::hash(&[]), 0);
}

#[test]
fn package_data_uses_the_standard_crc32() {
    // The CRC-32 check value for "123456789" is 0xCBF43926.
    let framed = package_data(b"123456789");
    assert_eq!(&framed[0..4], &[0, 0, 0, 9]);
    assert_eq!(&framed[4..13], b"123456789");
    assert_eq!(&framed[13..17], &0xCBF43926u32.to_be_bytes());
}

#[test]
fn hash_key_is_deterministic_and_absent_key_is_empty_string() {
    let key = String::from("secret");
    let a = hash_key(Some(&key));
    let b = hash_key(Some(&key));
    assert_eq!(a, b);
    let empty = String::new();
    assert_eq!(hash_key(None), hash_key(Some(&empty)));
    // SHA-256("") begins with e3b0c44298fc1c14; the seed is its first 8 bytes.
    assert_eq!(hash_key(None), 0xe3b0c44298fc1c14u64);
}

#[test]
fn sequential_iterator_walks_in_raster_order() {
    let mut it = SequentialPixelIterator::new((2, 2));
    assert_eq!(it.next(), Some((0, 0)));
    assert_eq!(it.next(), Some((1, 0)));
    assert_eq!(it.next(), Some((0, 1)));
    assert_eq!(it.next(), Some((1, 1)));
    assert_eq!(it.next(), None);
}

#[test]
fn random_iterator_never_repeats_a_coordinate() {
    let rng = SeededRng::from_seed(0xABCDEF);
    let mut it = RandomPixelIterator::new((5, 4), rng);
    let mut seen = std::collections::HashSet::new();
    for _ in 0..20 {
        let c = it.next().expect("a fresh coordinate");
        assert!(c.0 < 5 && c.1 < 4);
        assert!(seen.insert(c), "coordinate {:?} repeated", c);
    }
}

#[test]
fn random_traversal_is_reproducible() {
    let a: Vec<(u32, u32)> = {
        let rng = SeededRng::from_seed(99);
        let mut it = PixelIterator::Random(RandomPixelIterator::new((7, 7), rng));
        (0..30).map(|_| it.next().unwrap()).collect()
    };
    let b: Vec<(u32, u32)> = {
        let rng = SeededRng::from_seed(99);
        let mut it = PixelIterator::Random(RandomPixelIterator::new((7, 7), rng));
        (0..30).map(|_| it.next().unwrap()).collect()
    };
    assert_eq!(a, b);
}

#[test]
fn round_trip_sequential() {
    let mut img = patterned_image(40, 30);
    let key = String::from("a key");
    let payload = b"the quick brown fox jumps over the lazy dog";
    embed(&mut img, payload, Some(&key), TraversalMode::Sequential).expect("fits");
    let out = extract(&img, Some(&key), TraversalMode::Sequential, true).expect("round trip");
    assert_eq!(out, payload.to_vec());
}

#[test]
fn round_trip_random() {
    let mut img = patterned_image(40, 30);
    let key = String::from("another key");
    let payload = b"payload with some bytes \x00\xff\x10";
    embed(&mut img, payload, Some(&key), TraversalMode::Random).expect("fits");
    let out = extract(&img, Some(&key), TraversalMode::Random, true).expect("round trip");
    assert_eq!(out, payload.to_vec());
}

#[test]
fn round_trip_without_key() {
    let mut img = blank_image(32, 32);
    let payload = b"no key at all";
    embed(&mut img, payload, None, TraversalMode::Random).expect("fits");
    let out = extract(&img, None, TraversalMode::Random, true).expect("round trip");
    assert_eq!(out, payload.to_vec());
}

#[test]
fn round_trip_empty_payload() {
    let mut img = patterned_image(16, 16);
    let key = String::from("k");
    embed(&mut img, &[], Some(&key), TraversalMode::Sequential).expect("fits");
    let out = extract(&img, Some(&key), TraversalMode::Sequential, true).expect("round trip");
    assert_eq!(out, Vec::<u8>::new());
}

#[test]
fn capacity_boundary_exact_fit_succeeds_one_more_byte_fails() {
    // 8 x 3 pixels give 72 usable bits: a 1-byte payload frames to exactly
    // 72 bits, a 2-byte payload to 80.
    let mut img = patterned_image(8, 3);
    let snapshot = patterned_image(8, 3).into_data();
    assert!(embed(&mut img, b"x", None, TraversalMode::Sequential).is_ok());

    let mut img2 = patterned_image(8, 3);
    let err = embed(&mut img2, b"xy", None, TraversalMode::Sequential).unwrap_err();
    assert_eq!(err.get_kind(), AppErrorKind::DataOverflow);
    assert_eq!(img2.into_data(), snapshot, "a failed embed must not touch the image");
}

#[test]
fn wrong_key_in_random_mode_is_detected() {
    let mut img = patterned_image(24, 24);
    let key_a = String::from("key A");
    let key_b = String::from("key B");
    embed(&mut img, b"confidential", Some(&key_a), TraversalMode::Random).expect("fits");
    // The wrong key garbles every field, the length first of all: extraction
    // fails either on the capacity of the garbled length or on the checksum,
    // but never hands the payload back.
    let err = extract(&img, Some(&key_b), TraversalMode::Random, true).unwrap_err();
    assert!(matches!(
        err.get_kind(),
        AppErrorKind::CRCMismatch | AppErrorKind::DataOverflow
    ));
}

#[test]
fn single_bit_flips_in_the_embedded_region_are_detected() {
    let key = String::from("secret");
    let payload = b"hello world";
    let framed_bits = 8 * (payload.len() + 8);
    let mut img = patterned_image(20, 20);
    embed(&mut img, payload, Some(&key), TraversalMode::Sequential).expect("fits");
    let clean = img.into_data();
    // Flip each bit of the embedded region in turn; every flip must surface
    // as an error rather than silently wrong output.
    for p in 0..framed_bits {
        let pixel = p / 3;
        let channel = p % 3;
        let idx = pixel * 4 + channel;
        let mut tampered = clean.clone();
        tampered[idx] ^= 1;
        let img2 = Image::new(20, 20, tampered).unwrap();
        let out = extract(&img2, Some(&key), TraversalMode::Sequential, true);
        assert!(out.is_err(), "flipping bit {} went unnoticed", p);
    }
}

#[test]
fn concrete_scenario_hello_world() {
    // A 100 x 100 image holds 30000 usable bits; "hello world" with a
    // "secret" key embeds sequentially and comes back byte for byte.
    let mut img = patterned_image(100, 100);
    let key = String::from("secret");
    embed(&mut img, b"hello world", Some(&key), TraversalMode::Sequential).expect("fits");
    let out = extract(&img, Some(&key), TraversalMode::Sequential, true).expect("round trip");
    assert_eq!(out, b"hello world".to_vec());

    let wrong = String::from("wrong");
    let err = extract(&img, Some(&wrong), TraversalMode::Random, true).unwrap_err();
    assert!(matches!(
        err.get_kind(),
        AppErrorKind::CRCMismatch | AppErrorKind::DataOverflow
    ));
}

#[test]
fn large_length_field_needs_consent() {
    // Craft an image whose first 32 sequential LSBs spell a huge length.
    let mut data = vec![0u8; 100 * 100 * 4];
    let huge: u32 = 2_000_000;
    for p in 0..32 {
        let bit = (huge >> (31 - p)) & 1;
        let idx = (p / 3) * 4 + (p % 3);
        data[idx] = bit as u8;
    }
    let img = Image::new(100, 100, data).unwrap();
    let stopped = extract(&img, None, TraversalMode::Sequential, false).unwrap_err();
    assert_eq!(stopped.get_kind(), AppErrorKind::UserStopped);
    // With consent the length is read, but it cannot fit the image.
    let overflow = extract(&img, None, TraversalMode::Sequential, true).unwrap_err();
    assert_eq!(overflow.get_kind(), AppErrorKind::DataOverflow);
}

#[test]
fn tiny_images_cannot_hold_a_message() {
    let img = blank_image(2, 2);
    let err = extract(&img, None, TraversalMode::Sequential, true).unwrap_err();
    assert_eq!(err.get_kind(), AppErrorKind::DataOverflow);
}

#[test]
fn embeds_with_the_same_key_are_identical() {
    let key = String::from("same key");
    let mut a = patterned_image(30, 30);
    let mut b = patterned_image(30, 30);
    embed(&mut a, b"deterministic", Some(&key), TraversalMode::Random).expect("fits");
    embed(&mut b, b"deterministic", Some(&key), TraversalMode::Random).expect("fits");
    assert_eq!(a.into_data(), b.into_data());
}

#[test]
fn alpha_channel_is_never_touched() {
    let mut img = patterned_image(20, 20);
    let before = patterned_image(20, 20).into_data();
    let key = String::from("alpha");
    embed(&mut img, b"some payload", Some(&key), TraversalMode::Random).expect("fits");
    let after = img.into_data();
    for i in (3..before.len()).step_by(4) {
        assert_eq!(before[i], after[i], "alpha byte {} changed", i);
    }
}

#[test]
fn supported_methods_knows_lossless_formats() {
    assert_eq!(supported_methods("png").unwrap(), vec!["LSB"]);
    assert_eq!(supported_methods("bmp").unwrap(), vec!["LSB"]);
    let err = supported_methods("jpg").unwrap_err();
    assert_eq!(err.get_kind(), AppErrorKind::UnsupportedExtension);
}

#[test]
fn resolve_method_picks_lsb() {
    assert_eq!(resolve_method(Some("png"), None).unwrap(), "LSB");
    let lsb = String::from("LSB");
    assert_eq!(resolve_method(Some("bmp"), Some(&lsb)).unwrap(), "LSB");
    let other = String::from("DCT");
    let err = resolve_method(Some("png"), Some(&other)).unwrap_err();
    assert_eq!(err.get_kind(), AppErrorKind::UnsupportedMethod);
    let err = resolve_method(None, None).unwrap_err();
    assert_eq!(err.get_kind(), AppErrorKind::MissingExtension);
    let err = resolve_method(Some("gif"), None).unwrap_err();
    assert_eq!(err.get_kind(), AppErrorKind::UnsupportedExtension);
}

#[test]
fn check_extract_method_requires_an_explicit_method() {
    let err = check_extract_method(None).unwrap_err();
    assert_eq!(err.get_kind(), AppErrorKind::NotImplemented);
    let lsb = String::from("LSB");
    assert!(check_extract_method(Some(&lsb)).is_ok());
    let other = String::from("DCT");
    let err = check_extract_method(Some(&other)).unwrap_err();
    assert_eq!(err.get_kind(), AppErrorKind::UnsupportedMethod);
}
