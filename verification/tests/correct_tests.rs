use bardecoder::block_info::BlockInfo;
use bardecoder::correct::{calculate_syndromes, correct, correct_with_error_count, syndrome};
use bardecoder::galois::{alpha_pow, GF8};

#[test]
fn test_correct_with_no_errors() {
    // a block with no errors: all syndromes are zero
    let block = vec![0u8; 10];
    let block_info = BlockInfo {
        block_count: 1,
        total_per: 10,
        data_per: 5,
        ec_cap: 2,
    };

    let result = correct_with_error_count(block.clone(), &block_info);
    assert!(result.is_ok());
    let (corrected, error_count) = result.unwrap();
    assert_eq!(corrected, block);
    assert_eq!(error_count, 0, "Should have zero errors when no correction needed");
}

#[test]
fn test_correct_without_error_count() {
    let block = vec![0u8; 10];
    let block_info = BlockInfo {
        block_count: 1,
        total_per: 10,
        data_per: 5,
        ec_cap: 2,
    };

    let result = correct(block.clone(), &block_info);
    assert!(result.is_ok());
    let corrected = result.unwrap();
    assert_eq!(corrected, block);
}

#[test]
fn test_syndrome_calculation() {
    let block = vec![1, 2, 3, 4, 5];
    let base = GF8(1);
    let result = syndrome(&block, base);
    // the base-1 syndrome is the XOR of the codewords
    assert!(result.0 <= 255);
    assert_eq!(result.0, 1 ^ 2 ^ 3 ^ 4 ^ 5);
}

#[test]
fn test_calculate_syndromes_all_zero() {
    let block = vec![0u8; 10];
    let block_info = BlockInfo {
        block_count: 1,
        total_per: 10,
        data_per: 5,
        ec_cap: 2,
    };

    let (all_fine, syndromes) = calculate_syndromes(&block, &block_info);
    assert!(all_fine, "Should indicate all syndromes are zero");
    assert_eq!(syndromes.len(), 4); // ec_cap * 2
    for syndrome in syndromes {
        assert_eq!(syndrome, GF8(0));
    }
}

#[test]
fn test_error_count_bits() {
    // XORing with an error pattern flips exactly its set bits
    let original = 0b00000000u8;
    let error_pattern = 0b00000111u8; // 3 bits different
    let corrected = original ^ error_pattern;
    assert_eq!(corrected, 0b00000111);
    assert_eq!(error_pattern.count_ones(), 3);
}

/// Multiplies two polynomials over GF(2^8), highest coefficient first.
fn poly_mul(a: &[GF8], b: &[GF8]) -> Vec<GF8> {
    let mut out = vec![GF8(0); a.len() + b.len() - 1];
    for i in 0..a.len() {
        for j in 0..b.len() {
            out[i + j] = out[i + j].gf_add(a[i].gf_mul(b[j]));
        }
    }
    out
}

/// The remainder of a polynomial divided by a monic polynomial, both
/// highest coefficient first.
fn poly_rem(a: &[GF8], g: &[GF8]) -> Vec<GF8> {
    let mut r: Vec<GF8> = a.to_vec();
    for i in 0..(a.len() - (g.len() - 1)) {
        let coef = r[i];
        if coef.0 != 0 {
            for j in 0..g.len() {
                r[i + j] = r[i + j].gf_add(coef.gf_mul(g[j]));
            }
        }
    }
    r[(a.len() - (g.len() - 1))..].to_vec()
}

/// A systematic Reed-Solomon codeword: the message followed by the
/// remainder of message * x^nsym modulo the generator polynomial with
/// roots alpha^0 .. alpha^(nsym-1).
fn rs_encode(msg: &[u8], nsym: usize) -> Vec<u8> {
    let mut g = vec![GF8(1)];
    for i in 0..nsym {
        g = poly_mul(&g, &[GF8(1), alpha_pow(i as u32)]);
    }
    let mut padded: Vec<GF8> = msg.iter().map(|&b| GF8(b)).collect();
    padded.extend(vec![GF8(0); nsym]);
    let rem = poly_rem(&padded, &g);
    let mut out: Vec<u8> = msg.to_vec();
    out.extend(rem.iter().map(|c| c.0));
    out
}

#[test]
fn test_rs_codeword_has_zero_syndromes() {
    let codeword = rs_encode(&[17, 99, 0, 255, 7, 42], 4);
    let block_info = BlockInfo {
        block_count: 1,
        total_per: 10,
        data_per: 6,
        ec_cap: 2,
    };
    let (all_fine, _) = calculate_syndromes(&codeword, &block_info);
    assert!(all_fine, "a valid codeword has zero syndromes");
}

#[test]
fn test_rs_round_trip_one_error() {
    let codeword = rs_encode(&[17, 99, 0, 255, 7, 42], 4);
    let block_info = BlockInfo {
        block_count: 1,
        total_per: 10,
        data_per: 6,
        ec_cap: 2,
    };
    let mut corrupted = codeword.clone();
    corrupted[2] ^= 0b0010_0100;
    let (fixed, errors) = correct_with_error_count(corrupted, &block_info).unwrap();
    assert_eq!(fixed, codeword);
    assert_eq!(errors, 2);
}

#[test]
fn test_rs_round_trip_two_errors() {
    let codeword = rs_encode(&[200, 1, 2, 3, 4, 5], 4);
    let block_info = BlockInfo {
        block_count: 1,
        total_per: 10,
        data_per: 6,
        ec_cap: 2,
    };
    let mut corrupted = codeword.clone();
    corrupted[0] ^= 0b1000_0001;
    corrupted[7] ^= 0b0000_1000;
    let (fixed, errors) = correct_with_error_count(corrupted, &block_info).unwrap();
    assert_eq!(fixed, codeword);
    assert_eq!(errors, 3);
}

#[test]
fn test_galois_field_basics() {
    // alpha^8 reduces by the field polynomial to 0x1D
    assert_eq!(GF8(128).gf_mul(GF8(2)), GF8(0x1D));
    // the multiplicative group has order 255
    assert_eq!(alpha_pow(255), GF8(1));
    assert_eq!(alpha_pow(0), GF8(1));
    // division undoes multiplication
    let a = GF8(57);
    let b = GF8(170);
    assert_eq!(a.gf_mul(b).gf_div(b), a);
    // addition is XOR and its own inverse
    assert_eq!(GF8(0xF0).gf_add(GF8(0x0F)), GF8(0xFF));
    assert_eq!(GF8(99).gf_add(GF8(99)), GF8(0));
}

#[test]
fn test_no_capacity_passes_block_through() {
    // a structure without correction capacity has no syndromes to
    // check: the block passes through unchanged
    let block_info = BlockInfo {
        block_count: 1,
        total_per: 10,
        data_per: 10,
        ec_cap: 0,
    };
    let block = vec![1u8; 10];
    assert_eq!(correct(block.clone(), &block_info).unwrap(), block);
}
