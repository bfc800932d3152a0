use dilithium::{
    bits_to_bytes, bits_to_integer, bytes_to_bits, coeff_from_half_byte, coeff_from_three_bytes,
    integer_to_bits, integer_to_bytes, Q,
};

#[test]
fn integer_to_bits_test() {
    let x = 16;
    let alpha = 8;
    let result = integer_to_bits(x, alpha);
    let expected = vec![0, 0, 0, 0, 1, 0, 0, 0];

    assert_eq!(result, expected);
}

#[test]
fn bits_to_integer_test() {
    let y = vec![0, 0, 0, 0, 1, 0, 0, 0];
    let alpha = 8;
    let result = bits_to_integer(&y, alpha);
    let expected = 16;

    assert_eq!(result, expected);
}

#[test]
fn integer_to_bytes_test() {
    let x = 356;
    let alpha = 8;
    let result = integer_to_bytes(x, alpha);
    let expected = vec![100, 1, 0, 0, 0, 0, 0, 0];

    assert_eq!(result, expected);
}

#[test]
fn bits_to_bytes_test() {
    let y = [0, 1, 1, 0, 0, 1, 1, 0, 0, 1, 1, 0];
    let result = bits_to_bytes(&y);
    let expected = vec![102, 6];

    assert_eq!(result, expected);
}

#[test]
fn bytes_to_bits_test() {
    let z = vec![102, 6];
    let result = bytes_to_bits(z);
    let expected = [0, 1, 1, 0, 0, 1, 1, 0, 0, 1, 1, 0, 0, 0, 0, 0];

    assert_eq!(result, expected);
}

#[test]
fn coeff_from_three_bytes_test() {
    assert_eq!(coeff_from_three_bytes(0, 0, 0), Some(0));
    assert_eq!(coeff_from_three_bytes(1, 0, 0), Some(1));

    let result = coeff_from_three_bytes(1, 0, 128);
    assert_eq!(result, Some(1));

    // Maximum valid value
    let result = coeff_from_three_bytes(0x00, 0xE0, 0x7F);
    assert!(result.is_some());

    // z = 127*65536 + 255*256 + 255 = 8,388,607 > q
    let result = coeff_from_three_bytes(255, 255, 127);
    assert_eq!(result, None);
}

#[test]
fn coeff_from_half_byte_test() {
    // eta = 2
    assert_eq!(coeff_from_half_byte(0, 2), Some(2));
    assert_eq!(coeff_from_half_byte(1, 2), Some(1));
    assert_eq!(coeff_from_half_byte(2, 2), Some(0));
    assert_eq!(coeff_from_half_byte(3, 2), Some(-1));
    assert_eq!(coeff_from_half_byte(4, 2), Some(-2));
    assert_eq!(coeff_from_half_byte(14, 2), Some(-2));
    assert_eq!(coeff_from_half_byte(15, 2), None);

    // eta = 4
    assert_eq!(coeff_from_half_byte(0, 4), Some(4));
    assert_eq!(coeff_from_half_byte(4, 4), Some(0));
    assert_eq!(coeff_from_half_byte(8, 4), Some(-4));
    assert_eq!(coeff_from_half_byte(9, 4), None);

    // nibbles above 15
    assert_eq!(coeff_from_half_byte(16, 2), None);
    assert_eq!(coeff_from_half_byte(255, 4), None);

    // unsupported eta
    assert_eq!(coeff_from_half_byte(5, 3), None);
}

#[test]
fn modulus_value() {
    assert_eq!(Q, (1u32 << 23) - (1u32 << 13) + 1);
    assert_eq!(Q, 8380417);
}

#[test]
fn bits_round_trip_every_width() {
    for alpha in 1usize..=32 {
        let top: u64 = (1u64 << alpha) - 1;
        for x in [0u64, 1, top / 2, top / 3, top] {
            let x = x as u32;
            let bits = integer_to_bits(x, alpha);
            assert_eq!(bits.len(), alpha);
            assert_eq!(bits_to_integer(&bits, alpha), x);
        }
    }
}

#[test]
fn integer_to_bits_truncates() {
    assert_eq!(integer_to_bits(0xFF, 4), vec![1, 1, 1, 1]);
    assert_eq!(bits_to_integer(&integer_to_bits(0x1F3, 4), 4), 3);
    assert_eq!(integer_to_bits(5, 0), Vec::<u8>::new());
}

#[test]
fn integer_to_bits_wider_than_value() {
    let bits = integer_to_bits(u32::MAX, 40);
    assert_eq!(bits.len(), 40);
    assert!(bits[..32].iter().all(|&b| b == 1));
    assert!(bits[32..].iter().all(|&b| b == 0));
    assert_eq!(bits_to_integer(&bits, 40), u32::MAX);
}

#[test]
fn bits_to_integer_reads_prefix_only() {
    assert_eq!(bits_to_integer(&[1, 1, 1, 1], 2), 3);
    assert_eq!(bits_to_integer(&[1, 0, 1], 0), 0);
    assert_eq!(bits_to_integer(&[0, 1, 1], 3), 6);
}

#[test]
fn integer_to_bytes_little_endian() {
    assert_eq!(integer_to_bytes(0x0102_0304, 4), vec![4, 3, 2, 1]);
    assert_eq!(integer_to_bytes(356, 1), vec![100]);
    assert_eq!(integer_to_bytes(u32::MAX, 5), vec![255, 255, 255, 255, 0]);
    assert_eq!(integer_to_bytes(7, 0), Vec::<u8>::new());
}

#[test]
fn bits_to_bytes_edges() {
    assert_eq!(bits_to_bytes(&[]), Vec::<u8>::new());
    assert_eq!(bits_to_bytes(&[1]), vec![1]);
    assert_eq!(bits_to_bytes(&[1, 1, 1, 1, 1, 1, 1, 1]), vec![255]);
    assert_eq!(bits_to_bytes(&[0, 0, 0, 0, 0, 0, 0, 0, 1]), vec![0, 1]);
}

#[test]
fn bytes_to_bits_edges() {
    assert_eq!(bytes_to_bits(vec![]), Vec::<u8>::new());
    assert_eq!(bytes_to_bits(vec![255]), vec![1; 8]);
    assert_eq!(bytes_to_bits(vec![128]), vec![0, 0, 0, 0, 0, 0, 0, 1]);
}

#[test]
fn packing_round_trip() {
    let bits: Vec<u8> = (0..64u32).map(|i| ((i * 7 + i / 3) % 2) as u8).collect();
    assert_eq!(bytes_to_bits(bits_to_bytes(&bits)), bits);
    let bytes: Vec<u8> = vec![0, 1, 2, 127, 128, 200, 255];
    assert_eq!(bits_to_bytes(&bytes_to_bits(bytes.clone())), bytes);
}

#[test]
fn packing_partial_byte_pads_with_zeros() {
    let bits = vec![1, 0, 1];
    let back = bytes_to_bits(bits_to_bytes(&bits));
    assert_eq!(back, vec![1, 0, 1, 0, 0, 0, 0, 0]);
}

#[test]
fn three_bytes_boundary() {
    // Q - 1 = 0x7FE000 is the largest accepted candidate.
    assert_eq!(coeff_from_three_bytes(0x00, 0xE0, 0x7F), Some(Q - 1));
    assert_eq!(coeff_from_three_bytes(0x00, 0xE0, 0xFF), Some(Q - 1));
    // Q = 0x7FE001 is the smallest rejected one.
    assert_eq!(coeff_from_three_bytes(0x01, 0xE0, 0x7F), None);
    assert_eq!(coeff_from_three_bytes(0x01, 0xE0, 0xFF), None);
    assert_eq!(coeff_from_three_bytes(0xFF, 0xDF, 0x7F), Some(Q - 2));
}

#[test]
fn three_bytes_preimages_are_two() {
    for v in [0u32, 1, 12345, 0x12_3456, Q - 1] {
        let (b0, b1, hi) = ((v % 256) as u8, ((v / 256) % 256) as u8, (v / 65536) as u8);
        let hits = (0..=255u8)
            .filter(|&b2| coeff_from_three_bytes(b0, b1, b2) == Some(v))
            .count();
        assert_eq!(hits, 2);
        assert_eq!(coeff_from_three_bytes(b0, b1, hi), Some(v));
        assert_eq!(coeff_from_three_bytes(b0, b1, hi | 0x80), Some(v));
    }
}

#[test]
fn three_bytes_accepted_are_below_modulus() {
    for b2 in [0u8, 0x7F, 0x80, 0xFF] {
        for b1 in 0..=255u8 {
            for b0 in [0u8, 1, 0x7F, 0xFF] {
                if let Some(z) = coeff_from_three_bytes(b0, b1, b2) {
                    assert!(z < Q);
                    assert_eq!(z, 65536 * (b2 as u32 & 0x7F) + 256 * b1 as u32 + b0 as u32);
                }
            }
        }
    }
}

#[test]
fn half_byte_eta_two_uses_mod_five() {
    let expected = [2, 1, 0, -1, -2, 2, 1, 0, -1, -2, 2, 1, 0, -1, -2];
    for (b, e) in expected.iter().enumerate() {
        assert_eq!(coeff_from_half_byte(b as u8, 2), Some(*e));
    }
    assert_eq!(coeff_from_half_byte(10, 2), Some(2));
}

#[test]
fn half_byte_eta_four_and_bad_eta() {
    for b in 0..9u8 {
        assert_eq!(coeff_from_half_byte(b, 4), Some(4 - b as i32));
    }
    for b in 9..=255u8 {
        assert_eq!(coeff_from_half_byte(b, 4), None);
    }
    for eta in [0u32, 1, 3, 5, 8, u32::MAX] {
        for b in 0..16u8 {
            assert_eq!(coeff_from_half_byte(b, eta), None);
        }
    }
}
