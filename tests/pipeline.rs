use blars::bits::{collapse, count_ones, distance, test_bit};
use blars::cmap::{gen_mask, mask_step, run_map, score_codons, CollisionMap, Entry, MapError, MAX_COLLISION_BITS};
use blars::codon::{build_codons, bytes_eq, generate_codon, slice_to_int, window_of};
use blars::feature::{
    bucket_counts, center_doubled, dot_positive, feature_vector, generate_binary_projection,
    locality_hash_vector, pack_sign_bits,
};
use blars::topk::{rank_above, top_k};

fn entry(id: u64, hash: u64, total: u64, count: u64) -> Entry {
    Entry { id, hash, total, count }
}

#[test]
fn distance_is_symmetric_and_zero_on_itself() {
    let pairs = [(0u64, 0u64), (0b1011, 0b0110), (u64::MAX, 0), (0x1234_5678, 0x8765_4321)];
    for (a, b) in pairs {
        assert_eq!(distance(a, b), distance(b, a));
        assert_eq!(distance(a, a), 0);
        assert_eq!(distance(a, b), (a ^ b).count_ones());
    }
    assert_eq!(distance(0b1011, 0b0110), 3);
    assert_eq!(distance(u64::MAX, 0), 64);
}

#[test]
fn count_ones_and_test_bit() {
    assert_eq!(count_ones(0), 0);
    assert_eq!(count_ones(0b1010_1010), 4);
    assert_eq!(count_ones(u64::MAX), 64);
    assert!(test_bit(0b100, 2));
    assert!(!test_bit(0b100, 1));
    assert!(test_bit(1u64 << 63, 63));
}

#[test]
fn collapse_repacks_masked_bits() {
    // mask selects positions 1, 3 and 4; num has bits 1 and 4 set
    assert_eq!(collapse(0b1_0010, 0b1_1010), 0b101);
    assert_eq!(collapse(u64::MAX, 0b1_1010), 0b111);
    assert_eq!(collapse(0, 0b1_1010), 0);
    assert_eq!(collapse(0xFFFF, 0), 0);
    assert_eq!(collapse(1u64 << 63, 1u64 << 63), 1);
}

#[test]
fn masks_have_exact_popcount() {
    for seed in 0..20u64 {
        for bits in [0u32, 1, 5, 11, 16, 31, 32] {
            let m = gen_mask(bits, 32, seed).expect("mask");
            assert_eq!(m.count_ones(), bits);
            assert_eq!(m >> 32, 0);
        }
    }
    let full = gen_mask(64, 64, 3).expect("mask");
    assert_eq!(full, u64::MAX);
    for seed in [0u64, 1, u64::MAX] {
        assert_eq!(gen_mask(0, 32, seed), Some(0));
        assert_eq!(gen_mask(0, 0, seed), Some(0));
    }
}

#[test]
fn mask_too_wide_is_refused() {
    assert_eq!(gen_mask(33, 32, 1), None);
    assert_eq!(gen_mask(9, 8, 1), None);
}

#[test]
fn mask_generation_is_deterministic() {
    for seed in 0..10u64 {
        assert_eq!(gen_mask(11, 32, seed), gen_mask(11, 32, seed));
    }
    let distinct: std::collections::HashSet<u64> =
        (0..10u64).map(|s| gen_mask(11, 32, s).unwrap()).collect();
    assert!(distinct.len() > 1);
}

#[test]
fn mask_step_sets_drawn_position() {
    assert_eq!(mask_step(0, 5, 32), 1 << 5);
    assert_eq!(mask_step(0, 37, 32), 1 << 5);
    assert_eq!(mask_step(1 << 5, 5, 32), 1 << 5);
    assert_eq!(mask_step(0b1, 63, 64), (1 << 63) | 1);
}

#[test]
fn projection_generation_is_deterministic() {
    let a = generate_binary_projection(8, 24, 42);
    let b = generate_binary_projection(8, 24, 42);
    assert_eq!(a, b);
    assert_eq!(a.len(), 8);
    assert!(a.iter().all(|p| p.len() == 24));
    let c = generate_binary_projection(8, 24, 43);
    assert_ne!(a, c);
    let flat: Vec<bool> = a.concat();
    assert!(flat.iter().any(|x| *x) && flat.iter().any(|x| !*x));
}

#[test]
fn centering_flat_vector_gives_zeros_and_is_idempotent() {
    let v = vec![3i64, 3, 3, 3];
    let c = center_doubled(&v);
    assert_eq!(c, vec![0, 0, 0, 0]);
    assert_eq!(center_doubled(&c), c);
    assert_eq!(center_doubled(&vec![]), Vec::<i64>::new());
}

#[test]
fn centering_doubles_around_midpoint() {
    assert_eq!(center_doubled(&vec![0, 2, 4]), vec![-4, 0, 4]);
    assert_eq!(center_doubled(&vec![0, 3, 1, 3]), vec![-3, 3, -1, 3]);
    assert_eq!(center_doubled(&vec![-5, 1]), vec![-6, 6]);
}

#[test]
fn feature_counts_and_code_of_short_block() {
    // "AAAABBBB" with n-grams of length 2: AA three times, AB once, BB three
    // times; the n-gram hashes stand for a hash that sends AA, AB and BB to
    // buckets 1, 2 and 3 of 4.
    let block = b"AAAABBBB";
    let ngrams: Vec<&[u8]> = (0..=block.len() - 2).map(|x| &block[x..x + 2]).collect();
    assert_eq!(ngrams.len(), 7);
    let hash_of = |g: &[u8]| -> u64 {
        match g {
            b"AA" => 5,
            b"AB" => 2,
            _ => 7,
        }
    };
    let hashes: Vec<u64> = ngrams.iter().map(|g| hash_of(g)).collect();
    assert_eq!(bucket_counts(&hashes, 4), vec![0, 3, 1, 3]);
    let v = feature_vector(&hashes, 4);
    assert_eq!(v, vec![-3, 3, -1, 3]);
    let projs = vec![vec![true, true, true, true], vec![true, false, true, false]];
    // dot products: 2 (positive) and -10 (not positive)
    assert!(dot_positive(&v, &projs[0]));
    assert!(!dot_positive(&v, &projs[1]));
    assert_eq!(locality_hash_vector(&Some(v), 2, &projs), 0b10);
}

#[test]
fn absent_feature_vector_gives_zero_code() {
    let projs = vec![vec![true; 4]; 8];
    assert_eq!(locality_hash_vector(&None, 8, &projs), 0);
}

#[test]
fn locality_code_fits_width() {
    let projs = generate_binary_projection(8, 6, 9);
    let vecs = vec![vec![1i64, -2, 3, -4, 5, -6], vec![7i64; 6], vec![-7i64; 6], vec![0i64; 6]];
    for v in vecs {
        for w in 0..=8usize {
            let code = locality_hash_vector(&Some(v.clone()), w, &projs);
            assert!((code as u32) < (1u32 << w));
        }
    }
    assert_eq!(locality_hash_vector(&Some(vec![7i64; 6]), 0, &projs), 0);
}

#[test]
fn pack_sign_bits_first_is_most_significant() {
    assert_eq!(pack_sign_bits(&vec![true, false, false]), 0b100);
    assert_eq!(pack_sign_bits(&vec![false, true, true]), 0b011);
    assert_eq!(pack_sign_bits(&vec![true; 8]), 0xFF);
    assert_eq!(pack_sign_bits(&vec![]), 0);
}

#[test]
fn dot_uses_common_components() {
    assert!(dot_positive(&vec![5, -1, 100], &vec![true, true]));
    assert!(!dot_positive(&vec![5, -1], &vec![false, true, true]));
    assert!(!dot_positive(&vec![], &vec![true]));
    assert!(dot_positive(&vec![i64::MAX, i64::MAX], &vec![true, true]));
}

#[test]
fn slice_to_int_is_little_endian() {
    assert_eq!(slice_to_int(&[1, 2, 3, 4], 4), Some(0x0403_0201));
    assert_eq!(slice_to_int(&[], 0), Some(0));
    assert_eq!(slice_to_int(&[0xFF; 8], 8), Some(u64::MAX));
    assert_eq!(slice_to_int(&[1, 2, 3], 4), None);
    assert_eq!(slice_to_int(&[], 1), None);
}

#[test]
fn slice_to_int_ignores_trailing_bytes() {
    let x: u32 = 0xDEAD_BEEF;
    let mut bytes = x.to_le_bytes().to_vec();
    assert_eq!(slice_to_int(&bytes, 4), Some(x as u64));
    bytes.extend_from_slice(&[9, 9, 9, 9, 9, 9]);
    assert_eq!(slice_to_int(&bytes, 4), Some(x as u64));
    let y: u64 = 0x0123_4567_89AB_CDEF;
    let mut long = y.to_le_bytes().to_vec();
    long.push(0x55);
    assert_eq!(slice_to_int(&long, 8), Some(y));
}

#[test]
fn non_overlapping_codons_drop_the_tail() {
    let genome: Vec<u8> = (1..=10).collect();
    let codons = build_codons(&genome, 4, false);
    assert_eq!(codons.len(), 2);
    assert_eq!(codons[0].id, 0);
    assert_eq!(codons[1].id, 4);
    assert_eq!(codons[0].hash, 0x0403_0201);
    assert_eq!(codons[1].hash, 0x0807_0605);
    assert!(codons.iter().all(|c| c.total == 0 && c.count == 0));
}

#[test]
fn overlapping_codons_start_everywhere() {
    let genome: Vec<u8> = (1..=10).collect();
    let codons = build_codons(&genome, 4, true);
    assert_eq!(codons.len(), 7);
    let ids: Vec<u64> = codons.iter().map(|c| c.id).collect();
    assert_eq!(ids, vec![0, 1, 2, 3, 4, 5, 6]);
    assert_eq!(codons[6].hash, 0x0A09_0807);
    assert!(build_codons(&vec![1, 2, 3], 4, true).is_empty());
    assert_eq!(build_codons(&vec![1, 2, 3, 4, 5, 6, 7, 8], 4, false).len(), 2);
}

#[test]
fn generate_codon_counts_windows() {
    let genome = vec![1u8, 2, 1, 2, 1];
    let (codons, counts) = generate_codon(&genome, 2);
    assert_eq!(codons, vec![vec![1, 2], vec![2, 1], vec![1, 2], vec![2, 1]]);
    assert_eq!(counts, vec![(vec![1, 2], 2), (vec![2, 1], 2)]);
    let (codons, counts) = generate_codon(&genome, 6);
    assert!(codons.is_empty() && counts.is_empty());
    let (codons, counts) = generate_codon(&genome, 40);
    assert!(codons.is_empty() && counts.is_empty());
    let (codons, counts) = generate_codon(&vec![], 3);
    assert!(codons.is_empty() && counts.is_empty());
    let (codons, counts) = generate_codon(&vec![7, 7, 7], 1);
    assert_eq!(codons.len(), 3);
    assert_eq!(counts, vec![(vec![7], 3)]);
}

#[test]
fn window_and_bytes_eq() {
    let g = vec![1u8, 2, 3, 4];
    assert_eq!(window_of(&g, 1, 2), vec![2, 3]);
    assert!(bytes_eq(&vec![1, 2], &vec![1, 2]));
    assert!(!bytes_eq(&vec![1, 2], &vec![1, 3]));
    assert!(!bytes_eq(&vec![1, 2], &vec![1]));
}

#[test]
fn zero_collision_bits_put_everything_in_one_bucket() {
    let mut map = CollisionMap::new(0, 32, 17).expect("map");
    assert_eq!(map.mask, 0);
    assert_eq!(map.cells.len(), 1);
    let mut entries: Vec<Entry> = (0..5u64).map(|i| entry(i, i * 0x1111, 0, 0)).collect();
    for (i, e) in entries.iter().enumerate() {
        map.insert(i, e.hash);
    }
    assert_eq!(map.len, 5);
    assert_eq!(map.cells[0].len(), 5);
    let leaders = map.score(&mut entries);
    assert_eq!(leaders, 4);
    for (i, e) in entries.iter().enumerate() {
        assert_eq!(e.count, 4);
        let expected: u64 = (0..5u64)
            .filter(|j| *j as usize != i)
            .map(|j| ((i as u64 * 0x1111) ^ (j * 0x1111)).count_ones() as u64)
            .sum();
        assert_eq!(e.total, expected);
    }
}

#[test]
fn identical_hashes_add_zero_distance() {
    let mut map = CollisionMap::new(4, 32, 5).expect("map");
    let mut entries = vec![entry(0, 0xABCD, 0, 0), entry(1, 0xABCD, 0, 0)];
    map.insert(0, 0xABCD);
    map.insert(1, 0xABCD);
    map.score(&mut entries);
    assert_eq!((entries[0].total, entries[0].count), (0, 1));
    assert_eq!((entries[1].total, entries[1].count), (0, 1));
}

#[test]
fn insert_uses_collapsed_bucket() {
    let mut map = CollisionMap::new(11, 32, 99).expect("map");
    assert_eq!(map.mask.count_ones(), 11);
    assert_eq!(map.cells.len(), 1 << 11);
    let hashes = [0u64, 0xFFFF_FFFF, 0x1234_5678, 0xDEAD_BEEF];
    for (i, h) in hashes.iter().enumerate() {
        map.insert(i, *h);
        let b = collapse(*h, map.mask) as usize;
        assert!(map.cells[b].contains(&(i, *h)));
    }
    assert_eq!(map.cells[0], vec![(0, 0)]);
    assert_eq!(map.cells[(1 << 11) - 1], vec![(1, 0xFFFF_FFFF)]);
}

#[test]
fn scores_accumulate_over_several_maps() {
    let mut entries: Vec<Entry> = [0u64, 1, 3, 0xFF00].iter().enumerate().map(|(i, h)| entry(i as u64, *h, 0, 0)).collect();
    for seed in 0..3u64 {
        let mut map = CollisionMap::new(0, 16, seed).expect("map");
        for (i, e) in entries.clone().iter().enumerate() {
            map.insert(i, e.hash);
        }
        map.score(&mut entries);
    }
    assert!(entries.iter().all(|e| e.count == 9));
    // distances of hash 0 to 1, 3 and 0xFF00: 1 + 2 + 8, three times
    assert_eq!(entries[0].total, 33);
}

#[test]
fn collision_map_refuses_bad_geometry() {
    assert!(CollisionMap::new(33, 32, 1).is_none());
    assert!(CollisionMap::new(MAX_COLLISION_BITS + 1, 64, 1).is_none());
}

#[test]
fn top_three_of_five_with_ties() {
    // scores 1, 5, 3, 5, 2 as total / count
    let entries = vec![
        entry(0, 0, 2, 2),
        entry(1, 0, 10, 2),
        entry(2, 0, 9, 3),
        entry(3, 0, 5, 1),
        entry(4, 0, 4, 2),
    ];
    assert_eq!(top_k(&entries, 3), vec![1, 3, 2]);
    assert_eq!(top_k(&entries, 10), vec![1, 3, 2, 4, 0]);
    assert_eq!(top_k(&entries, 0), Vec::<usize>::new());
}

#[test]
fn isolated_entries_score_zero() {
    let entries = vec![entry(0, 0, 0, 0), entry(1, 0, 1, 4), entry(2, 0, 0, 0)];
    assert_eq!(top_k(&entries, 3), vec![1, 0, 2]);
    assert!(rank_above(&entries, 1, 0));
    assert!(rank_above(&entries, 0, 2));
    assert!(!rank_above(&entries, 2, 0));
    assert_eq!(top_k(&Vec::new(), 3), Vec::<usize>::new());
}

#[test]
fn has_room_checks_indices_and_counters() {
    let mut map = CollisionMap::new(2, 16, 4).expect("map");
    let entries = vec![entry(0, 1, 0, 0), entry(1, 2, 0, 0)];
    map.insert_all(&entries);
    assert_eq!(map.len, 2);
    assert!(map.has_room(&entries));
    let full = vec![entry(0, 1, 0, u64::MAX - 10), entry(1, 2, 0, 0)];
    assert!(!map.has_room(&full));
    let short = vec![entry(0, 1, 0, 0)];
    assert!(!map.has_room(&short));
}

#[test]
fn insert_all_places_every_entry_once() {
    let mut map = CollisionMap::new(3, 8, 21).expect("map");
    let entries: Vec<Entry> = (0..40u64).map(|i| entry(i, i * 7 % 256, 0, 0)).collect();
    map.insert_all(&entries);
    assert_eq!(map.len, 40);
    let mut seen = vec![0usize; 40];
    for (c, bucket) in map.cells.iter().enumerate() {
        for (i, h) in bucket {
            assert_eq!(*h, entries[*i].hash);
            assert_eq!(collapse(*h, map.mask) as usize, c);
            seen[*i] += 1;
        }
    }
    assert!(seen.iter().all(|n| *n == 1));
}

#[test]
fn score_codons_runs_every_map() {
    let mut entries: Vec<Entry> = (0..6u64).map(|i| entry(i, 0xF0 | i, 0, 0)).collect();
    assert_eq!(score_codons(&mut entries, 4, 0, 8, 11), Ok(()));
    assert!(entries.iter().all(|e| e.count == 4 * 5));
    for (i, e) in entries.iter().enumerate() {
        assert_eq!(e.id, i as u64);
        assert_eq!(e.hash, 0xF0 | i as u64);
    }
}

#[test]
fn score_codons_refuses_bad_geometry() {
    let mut entries = vec![entry(0, 1, 0, 0), entry(1, 1, 0, 0)];
    assert_eq!(score_codons(&mut entries, 2, 9, 8, 1), Err(MapError::Geometry));
    assert_eq!(score_codons(&mut entries, 1, MAX_COLLISION_BITS + 1, 64, 1), Err(MapError::Geometry));
    assert!(entries.iter().all(|e| e.count == 0 && e.total == 0));
    assert_eq!(score_codons(&mut entries, 0, 9, 8, 1), Ok(()));
}

#[test]
fn score_codons_reports_full_counters() {
    let mut entries = vec![entry(0, 1, 0, u64::MAX), entry(1, 1, 0, 0)];
    assert_eq!(score_codons(&mut entries, 1, 0, 8, 1), Err(MapError::NoRoom));
}

#[test]
fn with_mask_builds_empty_table() {
    let map = CollisionMap::with_mask(0b1011);
    assert_eq!(map.mask, 0b1011);
    assert_eq!(map.len, 0);
    assert_eq!(map.cells.len(), 8);
    assert!(map.cells.iter().all(|b| b.is_empty()));
    let single = CollisionMap::with_mask(0);
    assert_eq!(single.cells.len(), 1);
}

#[test]
fn zero_bit_map_needs_no_draw() {
    for seed in [0u64, 5, u64::MAX] {
        let map = CollisionMap::new(0, 32, seed).expect("map");
        assert_eq!(map.mask, 0);
        assert_eq!(map.cells.len(), 1);
        assert!(map.cells[0].is_empty());
    }
}

#[test]
fn run_map_scores_or_reports_no_room() {
    let mut entries = vec![entry(0, 0b01, 0, 0), entry(1, 0b10, 0, 0), entry(2, 0b01, 0, 0)];
    let map = CollisionMap::with_mask(0);
    assert_eq!(run_map(map, &mut entries), Ok(()));
    let counts: Vec<u64> = entries.iter().map(|e| e.count).collect();
    let totals: Vec<u64> = entries.iter().map(|e| e.total).collect();
    assert_eq!(counts, vec![2, 2, 2]);
    assert_eq!(totals, vec![2, 4, 2]);
    let mut full = vec![entry(0, 1, u64::MAX - 3, 0), entry(1, 1, 0, 0)];
    let before: Vec<(u64, u64)> = full.iter().map(|e| (e.total, e.count)).collect();
    assert_eq!(run_map(CollisionMap::with_mask(0), &mut full), Err(MapError::NoRoom));
    let after: Vec<(u64, u64)> = full.iter().map(|e| (e.total, e.count)).collect();
    assert_eq!(before, after);
}
