use force_rs::morton::{interleave3, octant_at, octant_index, octant_upper, path_code, MAX_DEPTH};

#[test]
fn interleave_places_bits_by_axis() {
    assert_eq!(interleave3(1, 0, 0), 1);
    assert_eq!(interleave3(0, 1, 0), 2);
    assert_eq!(interleave3(0, 0, 1), 4);
    assert_eq!(interleave3(3, 0, 0), 9);
    assert_eq!(interleave3(1, 1, 1), 7);
    assert_eq!(interleave3(2, 3, 5), 0b100_011_110);
    assert_eq!(interleave3(1 << 20, 0, 0), 1u64 << 60);
    assert_eq!(interleave3(0, 0, 1 << 20), 1u64 << 62);
}

#[test]
fn interleave_keeps_21_bits() {
    assert_eq!(interleave3(1 << 21, 1 << 22, u32::MAX << 21), 0);
    let all = (1u32 << 21) - 1;
    assert_eq!(interleave3(all, all, all), (1u64 << 63) - 1);
}

#[test]
fn interleave_decodes() {
    let (x, y, z) = (0x1a2b3u32, 0x0f0f0u32, 0x15555u32);
    let key = interleave3(x, y, z);
    for b in 0..21 {
        assert_eq!((key >> (3 * b)) & 1, ((x >> b) & 1) as u64);
        assert_eq!((key >> (3 * b + 1)) & 1, ((y >> b) & 1) as u64);
        assert_eq!((key >> (3 * b + 2)) & 1, ((z >> b) & 1) as u64);
    }
}

#[test]
fn path_code_round_trip() {
    let octants: Vec<u8> = (0..MAX_DEPTH as u8).map(|d| (d * 5 + 3) % 8).collect();
    let code = path_code(&octants);
    for (d, &o) in octants.iter().enumerate() {
        assert_eq!(octant_at(code, d), o as usize);
    }
    assert_eq!(code >> (3 * MAX_DEPTH), 0);
    assert_eq!(path_code(&[]), 0);
    assert_eq!(path_code(&[7, 1]), 7 | (1 << 3));
}

#[test]
fn octant_flags_round_trip() {
    assert_eq!(octant_index(false, false, false), 0);
    assert_eq!(octant_index(true, false, false), 1);
    assert_eq!(octant_index(false, true, false), 2);
    assert_eq!(octant_index(true, true, true), 7);
    for oct in 0..8 {
        let back = octant_index(octant_upper(oct, 0), octant_upper(oct, 1), octant_upper(oct, 2));
        assert_eq!(back, oct);
    }
    assert!(octant_upper(6, 1));
    assert!(!octant_upper(6, 0));
    assert!(octant_upper(6, 2));
}

#[test]
fn distinct_cells_have_distinct_keys() {
    let mut keys = std::collections::HashSet::new();
    for x in [0u32, 1, 2, 0x1fffff, 0x100000] {
        for y in [0u32, 3, 0x0fffff] {
            for z in [0u32, 5, 0x1ffffe] {
                assert!(keys.insert(interleave3(x, y, z)));
            }
        }
    }
}

#[test]
fn keys_grow_with_each_coordinate() {
    let points: [(u32, u32, u32); 6] = [
        (0, 0, 0),
        (3, 0, 7),
        (3, 1, 7),
        (4, 1, 7),
        (4, 1, 8),
        ((1 << 21) - 1, (1 << 21) - 1, (1 << 21) - 1),
    ];
    for p in points.iter() {
        for q in points.iter() {
            if p.0 <= q.0 && p.1 <= q.1 && p.2 <= q.2 {
                assert!(interleave3(p.0, p.1, p.2) <= interleave3(q.0, q.1, q.2));
            }
        }
    }
    assert!(interleave3(1, 0, 0) < interleave3(0, 1, 0));
    assert!(interleave3(7, 7, 7) < interleave3(0, 0, 8));
}
