use ascii_scan::{ascii_valid_up_to, load16_unaligned, mask_ascii, validate_ascii};
use ascii_scan::{ALIGNMENT_MASK, STRIDE_SIZE};

#[test]
fn test() {
    // malloc returns an aligned pointer, so let's use Vec to guarantee
    // alignment.
    let mut v = Vec::new();
    v.extend_from_slice(
        b"1234567890ABCDEF1234567890ABCDEF1234567890\xFFaaaaaaaaaaaaaaaaaaaaaaaaaa",
    );
    assert_eq!(ascii_valid_up_to(&v[..]), 42);
    assert_eq!(ascii_valid_up_to(&v[1..]), 41);
}

#[test]
fn stride_constants() {
    assert_eq!(STRIDE_SIZE, 16);
    assert_eq!(ALIGNMENT_MASK, 15);
}

#[test]
fn empty_input_is_length_zero() {
    let v: Vec<u8> = Vec::new();
    assert_eq!(ascii_valid_up_to(&v[..]), 0);
    assert_eq!(validate_ascii(&v[..]), None);
}

#[test]
fn single_high_byte_is_offset_zero() {
    let v = vec![0x80u8];
    assert_eq!(ascii_valid_up_to(&v[..]), 0);
    assert_eq!(validate_ascii(&v[..]), Some((0x80u8, 0)));
}

#[test]
fn all_ascii_returns_full_length() {
    let v = vec![b'a'; 108];
    assert_eq!(ascii_valid_up_to(&v[..]), 108);
    // The answer tracks the contents, not where scanning begins in a larger
    // buffer: every suffix of an all-ASCII buffer is all ASCII.
    assert_eq!(ascii_valid_up_to(&v[8..]), 100);
    assert_eq!(ascii_valid_up_to(&v[1..]), 107);
    assert_eq!(ascii_valid_up_to(&v[107..]), 1);
    assert_eq!(validate_ascii(&v[..]), None);
}

#[test]
fn first_of_several_high_bytes_wins() {
    let mut v = vec![b'x'; 40];
    v[21] = 0xC2;
    v[22] = 0xA9;
    v[35] = 0xFF;
    assert_eq!(ascii_valid_up_to(&v[..]), 21);
    assert_eq!(validate_ascii(&v[..]), Some((0xC2u8, 21)));
}

#[test]
fn boundary_lengths_all_ascii() {
    // One byte short of a stride (tail only), exactly one stride, and one
    // stride plus one byte (chunk then tail).
    for len in [15usize, 16, 17] {
        let v = vec![b'z'; len];
        assert_eq!(ascii_valid_up_to(&v[..]), len);
    }
}

#[test]
fn boundary_lengths_with_high_byte() {
    // A non-ASCII byte at each position of interest around the stride edge.
    for len in [15usize, 16, 17] {
        for pos in 0..len {
            let mut v = vec![b'z'; len];
            v[pos] = 0x80;
            assert_eq!(ascii_valid_up_to(&v[..]), pos, "len {} pos {}", len, pos);
            assert_eq!(validate_ascii(&v[..]), Some((0x80u8, pos)));
        }
    }
}

#[test]
fn high_byte_in_overlapping_final_chunk() {
    // 20 bytes: the second chunked read would start at offset 4 and overlap
    // the first; the high byte sits in the tail region after one full stride.
    let mut v = vec![b'q'; 20];
    v[18] = 0x9F;
    assert_eq!(ascii_valid_up_to(&v[..]), 18);

    // 32 bytes: exactly two strides, high byte in the second.
    let mut w = vec![b'q'; 32];
    w[30] = 0x9F;
    assert_eq!(ascii_valid_up_to(&w[..]), 30);
}

#[test]
fn result_invariant_under_realignment() {
    // Scanning a slice and scanning the same contents copied to a buffer with
    // a different starting alignment give the same answer.
    let mut v = vec![b'm'; 50];
    v[33] = 0xE4;
    let direct = ascii_valid_up_to(&v[..]);
    for pad in 1..=8usize {
        let mut shifted = vec![b'p'; pad];
        shifted.extend_from_slice(&v[..]);
        assert_eq!(ascii_valid_up_to(&shifted[pad..]), direct);
    }
}

#[test]
fn repeated_calls_agree() {
    let mut v = vec![b'k'; 70];
    v[44] = 0xFF;
    let first = ascii_valid_up_to(&v[..]);
    let second = ascii_valid_up_to(&v[..]);
    assert_eq!(first, 44);
    assert_eq!(first, second);
}

#[test]
fn mask_reports_high_lanes() {
    let mut v = vec![b'a'; 32];
    v[3] = 0x80;
    v[7] = 0xC0;
    let chunk = load16_unaligned(&v[..], 0);
    assert_eq!(mask_ascii(chunk), (1u32 << 3) | (1u32 << 7));
    // The same buffer read five bytes in puts the high bytes at other lanes.
    let shifted = load16_unaligned(&v[..], 5);
    assert_eq!(mask_ascii(shifted), 1u32 << 2);
    // A chunk from the clean end of the buffer classifies as all ASCII.
    let clean = load16_unaligned(&v[..], 16);
    assert_eq!(mask_ascii(clean), 0);
}

#[test]
fn mask_covers_every_lane() {
    for lane in 0..16usize {
        let mut v = vec![0u8; 16];
        v[lane] = 0xFF;
        let chunk = load16_unaligned(&v[..], 0);
        let mask = mask_ascii(chunk);
        assert_eq!(mask, 1u32 << lane);
        assert_eq!(mask.trailing_zeros() as usize, lane);
    }
}
