use dedup_pictures::dhash::{compute_dhash_from_bytes, dhash_of_luma, hamming_distance};
use dedup_pictures::digest::{to_hex, FileHasher};
use image::{DynamicImage, GrayImage, ImageFormat, Luma, Rgb, RgbImage};
use std::io::Cursor;

fn png(picture: DynamicImage) -> Vec<u8> {
    let mut bytes: Vec<u8> = Vec::new();
    picture.write_to(&mut Cursor::new(&mut bytes), ImageFormat::Png).unwrap();
    bytes
}

fn levels(level: fn(u32, u32) -> u8) -> Vec<u8> {
    let mut all: Vec<u8> = Vec::new();
    for y in 0..8u32 {
        for x in 0..9u32 {
            all.push(level(x, y));
        }
    }
    all
}

fn falling(x: u32, _y: u32) -> u8 {
    (200 - 20 * x) as u8
}

fn rising(x: u32, _y: u32) -> u8 {
    (20 + 20 * x) as u8
}

fn waving(x: u32, y: u32) -> u8 {
    ((x * 37 + y * 91) % 256) as u8
}

fn expected_hash(levels: &[u8]) -> u64 {
    let mut hash = 0u64;
    for y in 0..8usize {
        for x in 0..8usize {
            hash <<= 1;
            if levels[9 * y + x] > levels[9 * y + x + 1] {
                hash |= 1;
            }
        }
    }
    hash
}

#[test]
fn hash_of_falling_levels_has_every_bit() {
    assert_eq!(dhash_of_luma(&levels(falling)), u64::MAX);
}

#[test]
fn hash_of_rising_or_even_levels_has_no_bit() {
    assert_eq!(dhash_of_luma(&levels(rising)), 0);
    assert_eq!(dhash_of_luma(&[7u8; 72]), 0);
}

#[test]
fn first_comparison_is_the_highest_bit() {
    let mut all = vec![10u8; 72];
    all[0] = 11;
    assert_eq!(dhash_of_luma(&all), 1u64 << 63);
    let mut all = vec![10u8; 72];
    all[71] = 9;
    assert_eq!(dhash_of_luma(&all), 1);
}

#[test]
fn hash_is_made_row_by_row() {
    let all = levels(waving);
    assert_eq!(dhash_of_luma(&all), expected_hash(&all));
}

#[test]
fn hash_depends_on_comparisons_only() {
    let darker: Vec<u8> = levels(falling).iter().map(|l| l / 2).collect();
    assert_eq!(dhash_of_luma(&darker), dhash_of_luma(&levels(falling)));
}

#[test]
fn picture_of_hash_size_is_hashed_as_it_is() {
    let picture = GrayImage::from_fn(9, 8, |x, y| Luma([waving(x, y)]));
    let bytes = png(DynamicImage::ImageLuma8(picture));
    assert_eq!(compute_dhash_from_bytes(&bytes), Some(expected_hash(&levels(waving))));
}

#[test]
fn larger_picture_is_shrunk_first() {
    let picture = GrayImage::from_fn(90, 80, |x, y| Luma([waving(x / 10, y / 10)]));
    let bytes = png(DynamicImage::ImageLuma8(picture));
    assert_eq!(compute_dhash_from_bytes(&bytes), Some(expected_hash(&levels(waving))));
}

#[test]
fn coloured_picture_is_hashed_by_its_levels() {
    let picture = RgbImage::from_fn(9, 8, |x, _| if x % 2 == 0 { Rgb([250, 250, 250]) } else { Rgb([5, 5, 5]) });
    let bytes = png(DynamicImage::ImageRgb8(picture));
    assert_eq!(compute_dhash_from_bytes(&bytes), Some(0xAAAA_AAAA_AAAA_AAAA));
}

#[test]
fn what_is_no_picture_has_no_hash() {
    assert_eq!(compute_dhash_from_bytes(b"not a picture"), None);
    assert_eq!(compute_dhash_from_bytes(&[]), None);
}

#[test]
fn distance_counts_differing_bits() {
    assert_eq!(hamming_distance(0b1011, 0b0110), 3);
    assert_eq!(hamming_distance(0, u64::MAX), 64);
    assert_eq!(hamming_distance(77, 77), 0);
}

#[test]
fn distance_is_symmetric_and_obeys_the_triangle() {
    let (a, b, c) = (0xF0F0u64, 0x1234_5678u64, 0xFFFF_0000_FFFFu64);
    assert_eq!(hamming_distance(a, b), hamming_distance(b, a));
    assert!(hamming_distance(a, c) <= hamming_distance(a, b) + hamming_distance(b, c));
}

#[test]
fn bytes_are_written_in_hex() {
    assert_eq!(to_hex(&[0x00, 0x0f, 0xa0, 0xff]), "000fa0ff");
    assert_eq!(to_hex(&[]), "");
}

#[test]
fn digest_of_an_empty_file() {
    assert_eq!(
        FileHasher::new().finish(),
        "e3b0c44298fc1c149afbf4c8996fb92427ae41e4649b934ca495991b7852b855"
    );
}

#[test]
fn digest_does_not_depend_on_the_pieces() {
    let abc = "ba7816bf8f01cfea414140de5dae2223b00361a396177a9cb410ff61f20015ad";
    let mut whole = FileHasher::new();
    assert!(whole.absorb(b"abc"));
    assert_eq!(whole.finish(), abc);
    let mut pieces = FileHasher::new();
    assert!(pieces.absorb(b"a"));
    assert!(pieces.absorb(b"bc"));
    assert!(!pieces.absorb(b""));
    assert_eq!(pieces.finish(), abc);
}

#[test]
fn different_bytes_are_written_differently() {
    assert_ne!(to_hex(&[0x01, 0x23]), to_hex(&[0x12, 0x03]));
    assert_ne!(to_hex(&[0x00]), to_hex(&[0x00, 0x00]));
}
