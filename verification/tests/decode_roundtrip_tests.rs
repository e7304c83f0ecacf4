use bardecoder::blocks::{alignment_location, is_data, y_range};
use bardecoder::decode::{Decode, QRDecoder, QRDecoderWithInfo};
use bardecoder::format::QRMask;
use bardecoder::galois::{alpha_pow, GF8};
use bardecoder::qr::{ECLevel, QRData};

fn poly_mul(a: &[GF8], b: &[GF8]) -> Vec<GF8> {
    let mut out = vec![GF8(0); a.len() + b.len() - 1];
    for i in 0..a.len() {
        for j in 0..b.len() {
            out[i + j] = out[i + j].gf_add(a[i].gf_mul(b[j]));
        }
    }
    out
}

fn poly_rem(a: &[GF8], g: &[GF8]) -> Vec<GF8> {
    let mut r: Vec<GF8> = a.to_vec();
    for i in 0..(a.len() - (g.len() - 1)) {
        let coef = r[i];
        if coef.0 != 0 {
            for j in 0..g.len() {
                r[i + j] = r[i + j].gf_add(coef.gf_mul(g[j]));
            }
        }
    }
    r[(a.len() - (g.len() - 1))..].to_vec()
}

fn rs_encode(msg: &[u8], nsym: usize) -> Vec<u8> {
    let mut g = vec![GF8(1)];
    for i in 0..nsym {
        g = poly_mul(&g, &[GF8(1), alpha_pow(i as u32)]);
    }
    let mut padded: Vec<GF8> = msg.iter().map(|&b| GF8(b)).collect();
    padded.extend(vec![GF8(0); nsym]);
    let rem = poly_rem(&padded, &g);
    let mut out: Vec<u8> = msg.to_vec();
    out.extend(rem.iter().map(|c| c.0));
    out
}

/// Writes the masked format codeword for (level L, mask 0) into both
/// format regions of a version 1 grid.
fn place_format(grid: &mut Vec<u8>, word: u16) {
    let side = 21usize;
    let bit = |k: usize| -> u8 { ((word >> (14 - k)) & 1) as u8 };
    let copy1: [(usize, usize); 15] = [
        (0, 8), (1, 8), (2, 8), (3, 8), (4, 8), (5, 8), (7, 8), (8, 8),
        (8, 7), (8, 5), (8, 4), (8, 3), (8, 2), (8, 1), (8, 0),
    ];
    let copy2: [(usize, usize); 15] = [
        (8, side - 1), (8, side - 2), (8, side - 3), (8, side - 4),
        (8, side - 5), (8, side - 6), (8, side - 7),
        (side - 8, 8), (side - 7, 8), (side - 6, 8), (side - 5, 8),
        (side - 4, 8), (side - 3, 8), (side - 2, 8), (side - 1, 8),
    ];
    for (k, (x, y)) in copy1.iter().enumerate() {
        grid[y * side + x] = bit(k);
    }
    for (k, (x, y)) in copy2.iter().enumerate() {
        grid[y * side + x] = bit(k);
    }
}

/// Builds a version 1, level L, mask 0 symbol holding the given
/// codewords: the codeword bits are written along the zig-zag walk into
/// the data modules, each XORed with the mask.
fn build_symbol(codewords: &[u8]) -> QRData {
    let side = 21u32;
    let mut grid = vec![0u8; (side * side) as usize];
    place_format(&mut grid, 0x77C4);
    let mask = QRMask::new(0);
    let zero_grid = QRData::new(vec![0u8; (side * side) as usize], 1);
    let loc = alignment_location(1).unwrap();
    let probe = QRData::new(grid.clone(), 1);
    let mut bits: Vec<u8> = Vec::new();
    for byte in codewords {
        for k in (0..8).rev() {
            bits.push((byte >> k) & 1);
        }
    }
    let mut next = 0usize;
    let mut x = side - 1;
    loop {
        for y in y_range(x, side) {
            for xx in [x, x - 1] {
                if is_data(&probe, &loc, xx, y) {
                    let b = if next < bits.len() { bits[next] } else { 0 };
                    next += 1;
                    // the mask bit at this cell is the mask applied to a blank grid
                    let m = mask.apply(&zero_grid, xx, y);
                    grid[(y * side + xx) as usize] = b ^ m;
                }
            }
        }
        if x == 1 {
            break;
        }
        x -= 2;
        if x == 6 {
            x = 5;
        }
    }
    assert_eq!(next, 26 * 8 + 0, "version 1 carries 208 data module bits");
    QRData::new(grid, 1)
}

/// The 19 data codewords of a version 1, level L symbol holding the
/// byte-mode payload "OK", padded as the standard pads.
fn data_codewords_ok() -> Vec<u8> {
    let mut msg: Vec<u8> = vec![0b0100_0000, 0b0010_0100, 0b1111_0100, 0b1011_0000];
    let pad = [0xEC, 0x11];
    let mut k = 0;
    while msg.len() < 19 {
        msg.push(pad[k % 2]);
        k += 1;
    }
    msg
}

#[test]
fn test_clean_symbol_decodes() {
    let codewords = rs_encode(&data_codewords_ok(), 7);
    let symbol = build_symbol(&codewords);
    let decoder = QRDecoder::new();
    let payload = decoder.decode(Ok(symbol)).unwrap();
    assert_eq!(payload, "OK");
}

#[test]
fn test_clean_symbol_decodes_with_info() {
    let codewords = rs_encode(&data_codewords_ok(), 7);
    let symbol = build_symbol(&codewords);
    let decoder = QRDecoderWithInfo::new();
    let (payload, info) = decoder.decode(Ok(symbol)).unwrap();
    assert_eq!(payload, "OK");
    assert_eq!(info.version, 1);
    assert_eq!(info.ec_level, ECLevel::LOW);
    assert_eq!(info.total_data, 152);
    assert_eq!(info.errors, 0);
}

#[test]
fn test_damaged_symbol_is_corrected() {
    let codewords = rs_encode(&data_codewords_ok(), 7);
    let mut symbol = build_symbol(&codewords);
    // flip a handful of data modules
    symbol.data[(20 * 21 + 20) as usize] ^= 1;
    symbol.data[(19 * 21 + 20) as usize] ^= 1;
    let decoder = QRDecoderWithInfo::new();
    let (payload, info) = decoder.decode(Ok(symbol)).unwrap();
    assert_eq!(payload, "OK");
    assert_eq!(info.errors, 2);
}
