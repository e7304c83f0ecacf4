use bardecoder::block_info::{block_info, BlockInfo};
use bardecoder::qr::ECLevel;

#[test]
fn test_block_info_version1_low() {
    let bi = block_info(1, &ECLevel::LOW).unwrap();
    assert_eq!(
        bi,
        vec![BlockInfo { block_count: 1, total_per: 26, data_per: 19, ec_cap: 3 }]
    );
}

#[test]
fn test_block_info_version5_quartile_two_groups() {
    let bi = block_info(5, &ECLevel::QUARTILE).unwrap();
    assert_eq!(bi.len(), 4);
    assert_eq!(
        bi[0],
        BlockInfo { block_count: 4, total_per: 33, data_per: 15, ec_cap: 9 }
    );
    assert_eq!(
        bi[3],
        BlockInfo { block_count: 4, total_per: 34, data_per: 16, ec_cap: 9 }
    );
    let total: u32 = bi.iter().map(|b| b.total_per as u32).sum();
    let data: u32 = bi.iter().map(|b| b.data_per as u32).sum();
    assert_eq!(total, 134);
    assert_eq!(data, 62);
}

#[test]
fn test_block_info_sums_match_capacity_tables() {
    // the summed layout reproduces the standard capacity tables
    let totals: [u32; 40] = [
        26, 44, 70, 100, 134, 172, 196, 242, 292, 346, 404, 466, 532, 581, 655, 733, 815, 901,
        991, 1085, 1156, 1258, 1364, 1474, 1588, 1706, 1828, 1921, 2051, 2185, 2323, 2465, 2611,
        2761, 2876, 3034, 3196, 3362, 3532, 3706,
    ];
    for v in 1..=40u32 {
        for level in [ECLevel::LOW, ECLevel::MEDIUM, ECLevel::QUARTILE, ECLevel::HIGH] {
            let bi = block_info(v, &level).unwrap();
            let total: u32 = bi.iter().map(|b| b.total_per as u32).sum();
            assert_eq!(total, totals[(v - 1) as usize], "version {} {:?}", v, level);
            for b in &bi {
                assert!(b.total_per as u32 >= b.data_per as u32 + 2 * b.ec_cap as u32);
                assert_eq!(b.block_count as usize, bi.len());
            }
        }
    }
}

#[test]
fn test_block_info_data_capacity_samples() {
    // data codeword counts of the standard table
    let samples = [
        (1u32, ECLevel::LOW, 19u32),
        (2, ECLevel::LOW, 34),
        (3, ECLevel::LOW, 55),
        (4, ECLevel::LOW, 80),
        (5, ECLevel::LOW, 108),
        (10, ECLevel::HIGH, 122),
        (25, ECLevel::QUARTILE, 718),
        (40, ECLevel::LOW, 2956),
    ];
    for (v, level, expect) in samples {
        let bi = block_info(v, &level).unwrap();
        let data: u32 = bi.iter().map(|b| b.data_per as u32).sum();
        assert_eq!(data, expect, "version {} {:?}", v, level);
    }
}

#[test]
fn test_block_info_rejects_bad_versions() {
    assert!(block_info(0, &ECLevel::LOW).is_err());
    assert!(block_info(41, &ECLevel::HIGH).is_err());
}
