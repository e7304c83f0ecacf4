use bardecoder::blocks::{alignment_location, is_alignment_coord, y_range, Codewords};
use bardecoder::block_info::BlockInfo;

#[test]
pub fn test_alignment_locs() {
    let al = alignment_location(36).expect("Alignment location should exist for version 36");
    let side = 4 * 36 + 17;

    for x in 0..side {
        if (4..=8).contains(&x)
            || (22..=26).contains(&x)
            || (48..=52).contains(&x)
            || (74..=78).contains(&x)
            || (100..=104).contains(&x)
            || (126..=130).contains(&x)
            || (152..=156).contains(&x)
        {
            assert!(is_alignment_coord(&al, x));
        } else {
            assert!(!is_alignment_coord(&al, x));
        }
    }
}

#[test]
fn test_is_alignment_coord_edge_cases() {
    // Version 7 is the first version with repeating alignment patterns
    let al = alignment_location(7).unwrap();

    for coord in 0..4 {
        assert!(!is_alignment_coord(&al, coord), "coord {} should be false", coord);
    }

    for coord in 4..=8 {
        assert!(is_alignment_coord(&al, coord), "coord {} should be true (finder pattern)", coord);
    }

    for coord in 9..20 {
        assert!(!is_alignment_coord(&al, coord), "coord {} should be false", coord);
    }

    // Alignment pattern positions for version 7 (start=22, step=16)
    for coord in 20..=24 {
        assert!(is_alignment_coord(&al, coord), "coord {} should be true (alignment pattern)", coord);
    }
}

#[test]
fn test_is_alignment_coord_operator_precedence() {
    // The finder span must be exactly the coordinates 4..=8
    let al = alignment_location(10).unwrap();

    assert!(!is_alignment_coord(&al, 3), "coord 3 should be false");
    assert!(is_alignment_coord(&al, 4), "coord 4 should be true (start of finder)");
    assert!(is_alignment_coord(&al, 8), "coord 8 should be true (end of finder)");
    assert!(!is_alignment_coord(&al, 9), "coord 9 should be false");
    assert!(!is_alignment_coord(&al, 10), "coord 10 should be false");

    // Alignment pattern for version 10 (start=28, step=22)
    for coord in 26..=30 {
        assert!(is_alignment_coord(&al, coord), "coord {} should be true (alignment)", coord);
    }
    assert!(!is_alignment_coord(&al, 31), "coord 31 should be false");
}

#[test]
fn test_is_alignment_coord_various_versions() {
    let al1 = alignment_location(1).unwrap();
    assert!(is_alignment_coord(&al1, 4), "v1: coord 4 in finder");
    assert!(is_alignment_coord(&al1, 8), "v1: coord 8 in finder");
    assert!(!is_alignment_coord(&al1, 9), "v1: coord 9 not in pattern");

    let al10 = alignment_location(10).unwrap();
    for coord in 4..=8 {
        assert!(is_alignment_coord(&al10, coord), "v10: coord {} should be in finder", coord);
    }

    let al25 = alignment_location(25).unwrap();
    assert!(is_alignment_coord(&al25, 4), "v25: coord 4 in finder");
    assert!(is_alignment_coord(&al25, 8), "v25: coord 8 in finder");

    let al40 = alignment_location(40).unwrap();
    assert!(is_alignment_coord(&al40, 4), "v40: coord 4 in finder");
    assert!(is_alignment_coord(&al40, 8), "v40: coord 8 in finder");
}

#[test]
fn test_is_alignment_coord_pattern_spacing() {
    let al = alignment_location(20).unwrap();

    assert!(is_alignment_coord(&al, 4));
    assert!(is_alignment_coord(&al, 5));
    assert!(is_alignment_coord(&al, 6));
    assert!(is_alignment_coord(&al, 7));
    assert!(is_alignment_coord(&al, 8));

    assert!(!is_alignment_coord(&al, 9));
    assert!(!is_alignment_coord(&al, 10));
    assert!(!is_alignment_coord(&al, 11));

    let mut found_patterns = Vec::new();
    for coord in 0..100 {
        if is_alignment_coord(&al, coord) {
            found_patterns.push(coord);
        }
    }

    let mut i = 0;
    while i < found_patterns.len() {
        let start = found_patterns[i];
        for j in 0..5 {
            if i + j < found_patterns.len() {
                assert_eq!(found_patterns[i + j], start + j as u32,
                    "Pattern starting at {} should have consecutive coords", start);
            }
        }
        i += 5;
        while i < found_patterns.len() && found_patterns[i] == found_patterns[i - 1] + 1 {
            i += 1;
        }
    }
}

#[test]
fn test_alignment_location_full_table() {
    // every version has an entry; outside versions are refused
    for v in 1..=40 {
        assert!(alignment_location(v).is_ok());
    }
    assert!(alignment_location(0).is_err());
    assert!(alignment_location(41).is_err());
    // a version the repeating part of the table covers
    let al21 = alignment_location(21).unwrap();
    assert_eq!((al21.start, al21.step), (28, 22));
    let al30 = alignment_location(30).unwrap();
    assert_eq!((al30.start, al30.step), (26, 26));
}

#[test]
fn test_y_range_direction() {
    // rightmost column pair is walked bottom to top
    let ys = y_range(20, 21);
    assert_eq!(ys.len(), 21);
    assert_eq!(ys[0], 20);
    assert_eq!(ys[20], 0);
    // the next pair is walked top to bottom
    let ys2 = y_range(18, 21);
    assert_eq!(ys2[0], 0);
    assert_eq!(ys2[20], 20);
}

#[test]
fn test_codewords_deinterleave_round_robin() {
    // two blocks of 2 data + 2 EC codewords each: the stream goes to the
    // blocks round-robin, data first, then EC
    let bi = vec![
        BlockInfo { block_count: 2, total_per: 4, data_per: 2, ec_cap: 1 },
        BlockInfo { block_count: 2, total_per: 4, data_per: 2, ec_cap: 1 },
    ];
    let mut cw = Codewords::new(bi);
    for byte in 1u8..=8u8 {
        for k in (0..8).rev() {
            cw.add_bit((byte >> k) & 1);
        }
    }
    let blocks = cw.blocks();
    assert_eq!(blocks, vec![vec![1, 3, 5, 7], vec![2, 4, 6, 8]]);
}

#[test]
fn test_codewords_deinterleave_uneven_groups() {
    // two groups with data counts 2 and 3: the short block is skipped in
    // the last data round
    let bi = vec![
        BlockInfo { block_count: 2, total_per: 4, data_per: 2, ec_cap: 1 },
        BlockInfo { block_count: 2, total_per: 5, data_per: 3, ec_cap: 1 },
    ];
    let mut cw = Codewords::new(bi);
    for byte in 1u8..=9u8 {
        for k in (0..8).rev() {
            cw.add_bit((byte >> k) & 1);
        }
    }
    let blocks = cw.blocks();
    assert_eq!(blocks, vec![vec![1, 3, 6, 8], vec![2, 4, 5, 7, 9]]);
}
