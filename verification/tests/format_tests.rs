use bardecoder::format::QRMask;
use bardecoder::qr::{ECLevel, QRData};

/// A blank version 1 grid.
fn blank_grid() -> Vec<u8> {
    vec![0u8; 21 * 21]
}

/// Writes one masked format codeword into both format regions of a
/// version 1 grid, most significant bit first.
fn place_format(grid: &mut Vec<u8>, word: u16) {
    let side = 21usize;
    let bit = |k: usize| -> u8 { ((word >> (14 - k)) & 1) as u8 };
    // around the top-left finder
    let copy1: [(usize, usize); 15] = [
        (0, 8), (1, 8), (2, 8), (3, 8), (4, 8), (5, 8), (7, 8), (8, 8),
        (8, 7), (8, 5), (8, 4), (8, 3), (8, 2), (8, 1), (8, 0),
    ];
    // beside the other two finders
    let copy2: [(usize, usize); 15] = [
        (8, side - 1), (8, side - 2), (8, side - 3), (8, side - 4),
        (8, side - 5), (8, side - 6), (8, side - 7),
        (side - 8, 8), (side - 7, 8), (side - 6, 8), (side - 5, 8),
        (side - 4, 8), (side - 3, 8), (side - 2, 8), (side - 1, 8),
    ];
    for (k, (x, y)) in copy1.iter().enumerate() {
        grid[y * side + x] = bit(k);
    }
    for (k, (x, y)) in copy2.iter().enumerate() {
        grid[y * side + x] = bit(k);
    }
}

#[test]
fn test_format_decodes_low_mask_zero() {
    // the masked format word for (level L, mask 0) per the standard
    let mut grid = blank_grid();
    place_format(&mut grid, 0x77C4);
    let data = QRData::new(grid, 1);
    let (level, mask) = bardecoder::format::format(&data).unwrap();
    assert_eq!(level, ECLevel::LOW);
    assert_eq!(mask, QRMask { id: 0 });
}

#[test]
fn test_format_decodes_medium_mask_five() {
    // the masked format word for (level M, mask 5)
    let mut grid = blank_grid();
    place_format(&mut grid, 0x40CE);
    let data = QRData::new(grid, 1);
    let (level, mask) = bardecoder::format::format(&data).unwrap();
    assert_eq!(level, ECLevel::MEDIUM);
    assert_eq!(mask, QRMask { id: 5 });
}

#[test]
fn test_format_corrects_up_to_three_flips() {
    // three bit flips in one copy still decode to the written word
    let mut grid = blank_grid();
    place_format(&mut grid, 0x77C4);
    let side = 21usize;
    // flip three of the first copy's cells
    grid[8 * side + 0] ^= 1;
    grid[8 * side + 2] ^= 1;
    grid[8 * side + 4] ^= 1;
    let data = QRData::new(grid, 1);
    let (level, mask) = bardecoder::format::format(&data).unwrap();
    assert_eq!(level, ECLevel::LOW);
    assert_eq!(mask, QRMask { id: 0 });
}

#[test]
fn test_mask_applies_checkerboard() {
    // mask 0 inverts every cell where row + column is even
    let grid = blank_grid();
    let data = QRData::new(grid, 1);
    let mask = QRMask::new(0);
    assert_eq!(mask.apply(&data, 0, 0), 1);
    assert_eq!(mask.apply(&data, 1, 0), 0);
    assert_eq!(mask.apply(&data, 0, 1), 0);
    assert_eq!(mask.apply(&data, 1, 1), 1);
}

#[test]
fn test_mask_involution_on_cells() {
    // applying the mask twice gives back every module of a sample grid
    let mut grid = blank_grid();
    for k in 0..grid.len() {
        grid[k] = ((k * 7) % 3 == 0) as u8;
    }
    let data = QRData::new(grid.clone(), 1);
    for id in 0..8u8 {
        let mask = QRMask::new(id);
        let mut once = blank_grid();
        for y in 0..21u32 {
            for x in 0..21u32 {
                once[(y * 21 + x) as usize] = mask.apply(&data, x, y);
            }
        }
        let masked = QRData::new(once, 1);
        for y in 0..21u32 {
            for x in 0..21u32 {
                assert_eq!(mask.apply(&masked, x, y), grid[(y * 21 + x) as usize]);
            }
        }
    }
}
