use hecc::hecc_core::{lagrange_interpolate, poly_eval, poly_mul};
use hecc::{
    hecc_decode, hecc_encode, hecc_frame_blocks, hecc_recover_bytes, hecc_shred_block,
    hecc_shred_bytes, Gf256, HeccError, HeccParams, HeccPipelineError, HeccShard,
};
use rand::rngs::StdRng;
use rand::seq::SliceRandom;
use rand::{Rng, RngCore, SeedableRng};

#[test]
fn hecc_roundtrip_small() {
    let m = vec![1u8, 2, 3];
    let r = vec![9u8, 8];
    let shreds = hecc_encode(&m, &r, 8).expect("encode");
    let shards = vec![
        (shreds[0], 1),
        (shreds[2], 3),
        (shreds[4], 5),
        (shreds[5], 6),
        (shreds[7], 8),
    ];
    let (m2, r2) = hecc_decode(&shards, m.len(), r.len()).expect("decode");
    assert_eq!(m2, m);
    assert_eq!(r2, r);
}

#[test]
fn hecc_roundtrip_random() {
    let mut rng = StdRng::seed_from_u64(123);
    let k: usize = 10;
    let t: usize = 4;
    let n: usize = 20;
    for _ in 0..25 {
        let m: Vec<u8> = (0..k).map(|_| rng.gen()).collect();
        let r: Vec<u8> = (0..t).map(|_| rng.gen()).collect();
        let shreds = hecc_encode(&m, &r, n).expect("encode");

        let mut shards = Vec::new();
        let mut idxs: Vec<usize> = (1..=n).collect();
        idxs.shuffle(&mut rng);
        for idx in idxs.into_iter().take(k + t) {
            shards.push((shreds[idx - 1], idx));
        }

        let (m2, r2) = hecc_decode(&shards, k, t).expect("decode");
        assert_eq!(m2, m);
        assert_eq!(r2, r);
    }
}

#[test]
fn hecc_not_enough_shards() {
    let m = vec![1u8, 2, 3, 4];
    let r = vec![5u8, 6];
    let shreds = hecc_encode(&m, &r, 10).expect("encode");
    let shards = vec![(shreds[0], 1), (shreds[1], 2), (shreds[2], 3)];
    let err = hecc_decode(&shards, m.len(), r.len()).err();
    assert!(err.is_some());
}

#[test]
fn hecc_pipeline_roundtrip() {
    let params = HeccParams { k: 16, t: 6, n: 32 };
    let mut rng = StdRng::seed_from_u64(999);
    let message: Vec<u8> = (0..200).map(|_| rng.gen()).collect();

    let shards = hecc_shred_bytes(params, &message, &mut rng).expect("shred");

    // Keep only K+T shards per block (simulate erasures).
    let mut by_block = std::collections::BTreeMap::<u32, Vec<_>>::new();
    for shard in shards {
        by_block.entry(shard.block).or_default().push(shard);
    }
    let mut kept = Vec::new();
    for (_block, mut list) in by_block {
        list.shuffle(&mut rng);
        kept.extend(list.into_iter().take(params.k + params.t));
    }

    let recovered = hecc_recover_bytes(params, &kept).expect("recover");
    assert_eq!(recovered, message);
}

#[test]
fn hecc_invalid_params_rejected() {
    let m = vec![1u8, 2, 3];
    let r = vec![4u8];
    assert!(hecc_encode(&m, &r, 3).is_err());
    assert!(hecc_encode(&m, &r, 2).is_err());
    assert!(hecc_encode(&[], &r, 5).is_err());
}

#[test]
fn hecc_duplicate_indices_rejected() {
    let m = vec![1u8, 2, 3];
    let r = vec![9u8, 8];
    let shreds = hecc_encode(&m, &r, 8).expect("encode");
    let shards = vec![
        (shreds[0], 1),
        (shreds[1], 2),
        (shreds[2], 3),
        (shreds[2], 3),
        (shreds[3], 4),
    ];
    assert!(hecc_decode(&shards, m.len(), r.len()).is_err());
}

#[test]
fn hecc_invalid_index_rejected() {
    let m = vec![1u8, 2, 3];
    let r = vec![9u8, 8];
    let shreds = hecc_encode(&m, &r, 8).expect("encode");
    let shards = vec![
        (shreds[0], 0),
        (shreds[1], 2),
        (shreds[2], 3),
        (shreds[3], 4),
        (shreds[4], 5),
    ];
    assert!(hecc_decode(&shards, m.len(), r.len()).is_err());
}

#[test]
fn hecc_pipeline_missing_block_fails() {
    let params = HeccParams { k: 8, t: 4, n: 16 };
    let mut rng = StdRng::seed_from_u64(2024);
    let message: Vec<u8> = (0..120).map(|_| rng.gen()).collect();
    let shards = hecc_shred_bytes(params, &message, &mut rng).expect("shred");

    let mut by_block = std::collections::BTreeMap::<u32, Vec<_>>::new();
    for shard in shards {
        by_block.entry(shard.block).or_default().push(shard);
    }

    let mut kept = Vec::new();
    let mut first = true;
    for (_block, mut list) in by_block {
        list.shuffle(&mut rng);
        let take = if first { params.k + params.t - 1 } else { params.k + params.t };
        kept.extend(list.into_iter().take(take));
        first = false;
    }

    assert!(hecc_recover_bytes(params, &kept).is_err());
}

// ---------------------------------------------------------------------------
// Parameters
// ---------------------------------------------------------------------------

#[test]
fn params_validate_accepts_and_rejects() {
    assert!(HeccParams { k: 1, t: 1, n: 2 }.validate().is_ok());
    assert!(HeccParams { k: 16, t: 6, n: 32 }.validate().is_ok());
    assert!(HeccParams { k: 200, t: 55, n: 255 }.validate().is_ok());
    assert!(matches!(
        HeccParams { k: 0, t: 1, n: 5 }.validate(),
        Err(HeccError::InvalidParams)
    ));
    assert!(matches!(
        HeccParams { k: 1, t: 0, n: 5 }.validate(),
        Err(HeccError::InvalidParams)
    ));
    assert!(matches!(
        HeccParams { k: 3, t: 3, n: 5 }.validate(),
        Err(HeccError::InvalidParams)
    ));
    assert!(matches!(
        HeccParams { k: 3, t: 3, n: 256 }.validate(),
        Err(HeccError::InvalidParams)
    ));
    assert!(matches!(
        HeccParams { k: usize::MAX, t: usize::MAX, n: 255 }.validate(),
        Err(HeccError::InvalidParams)
    ));
}

// ---------------------------------------------------------------------------
// Encoding and decoding
// ---------------------------------------------------------------------------

#[test]
fn encode_gives_the_values_at_the_points() {
    let out = hecc_encode(&[1, 2, 3], &[9, 8], 8).expect("encode");
    assert_eq!(out, vec![1u8, 193, 247, 171, 31, 198, 68, 0]);
    let out = hecc_encode(&[0, 0, 0, 0], &[1, 2], 6).expect("encode");
    assert_eq!(out, vec![3u8, 80, 119, 245, 196, 81]);
}

#[test]
fn encode_rejects_bad_counts() {
    assert!(matches!(hecc_encode(&[], &[4], 5), Err(HeccError::InvalidParams)));
    assert!(matches!(hecc_encode(&[1], &[], 5), Err(HeccError::InvalidParams)));
    assert!(matches!(hecc_encode(&[1, 2, 3], &[4], 3), Err(HeccError::InvalidParams)));
    assert!(matches!(hecc_encode(&[1, 2, 3], &[4], 256), Err(HeccError::InvalidParams)));
    assert_eq!(hecc_encode(&[1, 2, 3], &[4], 4).expect("encode").len(), 4);
    assert_eq!(hecc_encode(&[1, 2, 3], &[4], 255).expect("encode").len(), 255);
}

#[test]
fn decode_five_of_eight_shards() {
    let shards: Vec<(u8, usize)> = vec![(1, 1), (247, 3), (31, 5), (198, 6), (0, 8)];
    let (m, r) = hecc_decode(&shards, 3, 2).expect("decode");
    assert_eq!(m, vec![1u8, 2, 3]);
    assert_eq!(r, vec![9u8, 8]);
}

#[test]
fn decode_does_not_depend_on_order_or_choice() {
    let m = vec![7u8, 0, 255, 19];
    let r = vec![3u8, 200, 1];
    let n: usize = 12;
    let shreds = hecc_encode(&m, &r, n).expect("encode");
    let choices: Vec<Vec<usize>> = vec![
        vec![1, 2, 3, 4, 5, 6, 7],
        vec![12, 11, 10, 9, 8, 7, 6],
        vec![3, 9, 1, 12, 5, 7, 2],
        vec![6, 4, 2, 12, 10, 8, 1],
    ];
    for points in choices {
        let shards: Vec<(u8, usize)> = points.iter().map(|&p| (shreds[p - 1], p)).collect();
        let (m2, r2) = hecc_decode(&shards, 4, 3).expect("decode");
        assert_eq!(m2, m);
        assert_eq!(r2, r);
    }
}

#[test]
fn decode_rejects_zero_counts() {
    let shards: Vec<(u8, usize)> = vec![(1, 1), (2, 2), (3, 3)];
    assert!(matches!(hecc_decode(&shards, 0, 2), Err(HeccError::InvalidParams)));
    assert!(matches!(hecc_decode(&shards, 2, 0), Err(HeccError::InvalidParams)));
    assert!(matches!(hecc_decode(&[], 0, 0), Err(HeccError::InvalidParams)));
}

#[test]
fn decode_with_too_few_entries_wants_more_shards() {
    let shards: Vec<(u8, usize)> = vec![(1, 1), (2, 2), (3, 3)];
    assert!(matches!(hecc_decode(&shards, 3, 1), Err(HeccError::NotEnoughShards)));
    assert!(matches!(hecc_decode(&[], 1, 1), Err(HeccError::NotEnoughShards)));
    // Too short an input is told before any entry is looked at.
    let bad: Vec<(u8, usize)> = vec![(1, 0), (2, 0)];
    assert!(matches!(hecc_decode(&bad, 2, 1), Err(HeccError::NotEnoughShards)));
    assert!(matches!(
        hecc_decode(&shards, usize::MAX, usize::MAX),
        Err(HeccError::NotEnoughShards)
    ));
}

#[test]
fn decode_rejects_points_out_of_range() {
    let zero: Vec<(u8, usize)> = vec![(1, 1), (2, 0), (3, 3)];
    assert!(matches!(hecc_decode(&zero, 2, 1), Err(HeccError::InvalidShardIndex)));
    let large: Vec<(u8, usize)> = vec![(1, 1), (2, 2), (3, 256)];
    assert!(matches!(hecc_decode(&large, 2, 1), Err(HeccError::InvalidShardIndex)));
    let edge: Vec<(u8, usize)> = vec![(1, 1), (2, 2), (3, 255)];
    assert!(hecc_decode(&edge, 2, 1).is_ok());
}

#[test]
fn decode_rejects_a_repeated_point() {
    let shards: Vec<(u8, usize)> = vec![(1, 1), (2, 2), (2, 2)];
    assert!(matches!(hecc_decode(&shards, 2, 1), Err(HeccError::DuplicateIndex)));
    let spread: Vec<(u8, usize)> = vec![(1, 4), (2, 2), (9, 4)];
    assert!(matches!(hecc_decode(&spread, 2, 1), Err(HeccError::DuplicateIndex)));
}

#[test]
fn decode_reports_the_first_fault_it_meets() {
    let repeat_first: Vec<(u8, usize)> = vec![(1, 1), (1, 1), (3, 0)];
    assert!(matches!(hecc_decode(&repeat_first, 2, 1), Err(HeccError::DuplicateIndex)));
    let range_first: Vec<(u8, usize)> = vec![(1, 1), (3, 0), (1, 1)];
    assert!(matches!(hecc_decode(&range_first, 2, 1), Err(HeccError::InvalidShardIndex)));
}

#[test]
fn decode_ignores_what_follows_the_first_k_plus_t() {
    let m = vec![1u8, 2, 3];
    let r = vec![9u8, 8];
    let shreds = hecc_encode(&m, &r, 8).expect("encode");
    let shards: Vec<(u8, usize)> = vec![
        (shreds[0], 1),
        (shreds[2], 3),
        (shreds[4], 5),
        (shreds[5], 6),
        (shreds[7], 8),
        (shreds[0], 1),
        (77, 0),
        (78, 1000),
    ];
    let (m2, r2) = hecc_decode(&shards, 3, 2).expect("decode");
    assert_eq!(m2, m);
    assert_eq!(r2, r);
}

#[test]
fn poly_eval_sums_the_terms() {
    let gf = Gf256::default();
    assert_eq!(poly_eval(&gf, &[], 9), 0);
    assert_eq!(poly_eval(&gf, &[5], 9), 5);
    assert_eq!(poly_eval(&gf, &[1, 2, 3, 9, 8], 1), 1);
    assert_eq!(poly_eval(&gf, &[1, 2, 3, 9, 8], 2), 193);
    assert_eq!(poly_eval(&gf, &[1, 2, 3, 9, 8], 0), 1);
    // 3 + 7 x at x = 3: 3 + 9
    assert_eq!(poly_eval(&gf, &[3, 7], 3), 3 ^ 9);
}

#[test]
fn poly_mul_multiplies() {
    let gf = Gf256::default();
    // (X + 2)(X + 3) = X^2 + (2 + 3) X + 2 * 3
    assert_eq!(poly_mul(&gf, &[2, 1], &[3, 1]), vec![6u8, 1, 1]);
    assert_eq!(poly_mul(&gf, &[1], &[5, 1]), vec![5u8, 1]);
    assert_eq!(poly_mul(&gf, &[0, 0], &[5, 1]), vec![0u8, 0, 0]);
    assert_eq!(poly_mul(&gf, &[], &[5, 1]), vec![0u8]);
    assert_eq!(poly_mul(&gf, &[7], &[]), Vec::<u8>::new());
    // (3 + 7 X)(1 + 2 X) = 3 + (6 + 7) X + 14 X^2
    assert_eq!(poly_mul(&gf, &[3, 7], &[1, 2]), vec![3u8, 1, 14]);
}

#[test]
fn lagrange_interpolate_finds_the_coefficients() {
    let gf = Gf256::default();
    let coeffs = vec![1u8, 2, 3, 9, 8];
    let xs = vec![1u8, 3, 5, 6, 8];
    let ys: Vec<u8> = xs.iter().map(|&x| poly_eval(&gf, &coeffs, x)).collect();
    assert_eq!(lagrange_interpolate(&gf, &xs, &ys, 5), coeffs);
    assert_eq!(lagrange_interpolate(&gf, &xs, &ys, 0), Vec::<u8>::new());
    // One point: the constant through it.
    assert_eq!(lagrange_interpolate(&gf, &[9], &[42], 1), vec![42u8]);
}

// ---------------------------------------------------------------------------
// The byte pipeline
// ---------------------------------------------------------------------------

fn params(k: usize, t: usize, n: usize) -> HeccParams {
    HeccParams { k, t, n }
}

fn shard(block: u32, index: u8, value: u8) -> HeccShard {
    HeccShard { block, index, value }
}

#[test]
fn frame_blocks_puts_the_length_in_front() {
    let blocks = hecc_frame_blocks(params(4, 2, 8), b"abc").expect("frame");
    assert_eq!(blocks, vec![vec![0u8, 0, 0, 3], vec![97u8, 98, 99, 0]]);
    let blocks = hecc_frame_blocks(params(4, 2, 8), b"").expect("frame");
    assert_eq!(blocks, vec![vec![0u8, 0, 0, 0]]);
    let blocks = hecc_frame_blocks(params(3, 2, 8), b"ab").expect("frame");
    assert_eq!(blocks, vec![vec![0u8, 0, 0], vec![2u8, 97, 98]]);
    let blocks = hecc_frame_blocks(params(8, 2, 10), b"x").expect("frame");
    assert_eq!(blocks, vec![vec![0u8, 0, 0, 1, 120, 0, 0, 0]]);
    let long = vec![7u8; 0x1_02_03];
    let blocks = hecc_frame_blocks(params(5, 1, 6), &long).expect("frame");
    assert_eq!(blocks[0], vec![0u8, 1, 2, 3, 7]);
    assert_eq!(blocks.len(), (4 + 0x1_02_03 + 4) / 5);
}

#[test]
fn frame_blocks_rejects_bad_params() {
    assert!(matches!(
        hecc_frame_blocks(params(0, 2, 8), b"abc"),
        Err(HeccPipelineError::InvalidParams)
    ));
    assert!(matches!(
        hecc_frame_blocks(params(4, 5, 8), b"abc"),
        Err(HeccPipelineError::InvalidParams)
    ));
}

#[test]
fn shred_block_tags_the_values() {
    let shards = hecc_shred_block(params(4, 2, 8), 7, &[0, 0, 0, 3], &[5, 6]).expect("shred");
    let values: [u8; 8] = [0, 136, 238, 140, 230, 85, 89, 68];
    assert_eq!(shards.len(), 8);
    for i in 0..8usize {
        assert_eq!(shards[i], shard(7, (i + 1) as u8, values[i]));
    }
}

#[test]
fn shred_block_rejects_wrong_lengths() {
    assert!(matches!(
        hecc_shred_block(params(4, 2, 8), 0, &[0, 0, 3], &[5, 6]),
        Err(HeccPipelineError::InvalidParams)
    ));
    assert!(matches!(
        hecc_shred_block(params(4, 2, 8), 0, &[0, 0, 0, 3], &[5]),
        Err(HeccPipelineError::InvalidParams)
    ));
    assert!(matches!(
        hecc_shred_block(params(4, 2, 5), 0, &[0, 0, 0, 3], &[5, 6]),
        Err(HeccPipelineError::InvalidParams)
    ));
}

#[test]
fn shred_draws_the_hiding_bytes_from_the_generator() {
    let p = params(4, 3, 9);
    let message = b"hiding erasure-correcting codes";
    let mut rng = StdRng::seed_from_u64(41);
    let shards = hecc_shred_bytes(p, message, &mut rng).expect("shred");

    // The same generator, asked for T bytes block after block, gives the
    // hiding bytes that the shards were made with.
    let mut same = StdRng::seed_from_u64(41);
    let blocks = hecc_frame_blocks(p, message).expect("frame");
    let mut expected: Vec<HeccShard> = Vec::new();
    let mut drawn_nonzero = false;
    for (b, block) in blocks.iter().enumerate() {
        let mut r = vec![0u8; 3];
        same.fill_bytes(&mut r);
        drawn_nonzero = drawn_nonzero || r.iter().any(|&x| x != 0);
        expected.extend(hecc_shred_block(p, b as u32, block, &r).expect("block"));
    }
    assert!(drawn_nonzero);
    assert_eq!(shards, expected);
    // Both generators have moved on alike.
    assert_eq!(rng.next_u64(), same.next_u64());

    let mut other = StdRng::seed_from_u64(42);
    let differently = hecc_shred_bytes(p, message, &mut other).expect("shred");
    assert_eq!(differently.len(), shards.len());
    assert_ne!(differently, shards);
}

#[test]
fn shred_makes_n_shards_a_block() {
    let p = params(16, 6, 32);
    let mut rng = StdRng::seed_from_u64(5);
    let message = vec![9u8; 200];
    let shards = hecc_shred_bytes(p, &message, &mut rng).expect("shred");
    // 204 bytes of payload in blocks of 16: 13 blocks.
    assert_eq!(shards.len(), 13 * 32);
    for (i, s) in shards.iter().enumerate() {
        assert_eq!(s.block as usize, i / 32);
        assert_eq!(s.index as usize, i % 32 + 1);
    }
}

#[test]
fn shred_rejects_bad_params() {
    let mut rng = StdRng::seed_from_u64(5);
    assert!(matches!(
        hecc_shred_bytes(params(0, 1, 4), b"abc", &mut rng),
        Err(HeccPipelineError::InvalidParams)
    ));
    assert!(matches!(
        hecc_shred_bytes(params(4, 4, 7), b"abc", &mut rng),
        Err(HeccPipelineError::InvalidParams)
    ));
    assert!(matches!(
        hecc_shred_bytes(params(4, 4, 256), b"abc", &mut rng),
        Err(HeccPipelineError::InvalidParams)
    ));
}

#[test]
fn pipeline_roundtrip_of_the_empty_message() {
    let p = params(8, 4, 16);
    let mut rng = StdRng::seed_from_u64(1);
    let shards = hecc_shred_bytes(p, b"", &mut rng).expect("shred");
    assert_eq!(shards.len(), 16);
    let recovered = hecc_recover_bytes(p, &shards).expect("recover");
    assert_eq!(recovered, Vec::<u8>::new());
}

#[test]
fn pipeline_roundtrip_with_all_shards() {
    let p = params(8, 4, 16);
    let mut rng = StdRng::seed_from_u64(1);
    let payload = b"hello pipeline";
    let shards = hecc_shred_bytes(p, payload, &mut rng).expect("shred");
    let recovered = hecc_recover_bytes(p, &shards).expect("recover");
    assert_eq!(recovered, payload);
}

#[test]
fn pipeline_roundtrip_in_any_order_with_extras() {
    let p = params(5, 2, 11);
    let mut rng = StdRng::seed_from_u64(77);
    for len in 0..40usize {
        let message: Vec<u8> = (0..len).map(|_| rng.gen()).collect();
        let mut shards = hecc_shred_bytes(p, &message, &mut rng).expect("shred");
        shards.shuffle(&mut rng);
        // Drop some, but leave every block more than it needs; then repeat a few.
        let mut kept: Vec<HeccShard> = Vec::new();
        let mut per_block = std::collections::BTreeMap::<u32, usize>::new();
        for s in shards.iter() {
            let have = per_block.entry(s.block).or_default();
            if *have < 9 {
                *have += 1;
                kept.push(*s);
            }
        }
        let repeats: Vec<HeccShard> = kept.iter().take(5).cloned().collect();
        kept.extend(repeats);
        kept.shuffle(&mut rng);
        let recovered = hecc_recover_bytes(p, &kept).expect("recover");
        assert_eq!(recovered, message);
    }
}

#[test]
fn pipeline_roundtrip_with_the_smallest_and_largest_codes() {
    let mut rng = StdRng::seed_from_u64(3);
    let message: Vec<u8> = (0..300).map(|_| rng.gen()).collect();
    for p in [params(1, 1, 2), params(1, 1, 255), params(200, 55, 255), params(3, 1, 4)] {
        let mut shards = hecc_shred_bytes(p, &message, &mut rng).expect("shred");
        shards.reverse();
        let recovered = hecc_recover_bytes(p, &shards).expect("recover");
        assert_eq!(recovered, message);
    }
}

#[test]
fn recover_names_the_block_that_is_short() {
    let p = params(8, 4, 16);
    let mut rng = StdRng::seed_from_u64(2024);
    let message: Vec<u8> = (0..120).map(|_| rng.gen()).collect();
    let shards = hecc_shred_bytes(p, &message, &mut rng).expect("shred");
    // Block 5 keeps eleven shards, the others all sixteen.
    let kept: Vec<HeccShard> =
        shards.iter().filter(|s| s.block != 5 || s.index <= 11).cloned().collect();
    match hecc_recover_bytes(p, &kept) {
        Err(HeccPipelineError::NotEnoughShards { block, have, need }) => {
            assert_eq!(block, 5);
            assert_eq!(have, 11);
            assert_eq!(need, 12);
        }
        other => panic!("unexpected result: {:?}", other),
    }
}

#[test]
fn recover_counts_distinct_indices_only() {
    let p = params(2, 1, 5);
    // Four shards of block 0, but two points only.
    let kept = vec![shard(0, 1, 10), shard(0, 2, 20), shard(0, 1, 10), shard(0, 2, 20)];
    match hecc_recover_bytes(p, &kept) {
        Err(HeccPipelineError::NotEnoughShards { block, have, need }) => {
            assert_eq!((block, have, need), (0, 2, 3));
        }
        other => panic!("unexpected result: {:?}", other),
    }
    // Index zero does not count.
    let kept = vec![shard(0, 1, 10), shard(0, 2, 20), shard(0, 0, 30)];
    match hecc_recover_bytes(p, &kept) {
        Err(HeccPipelineError::NotEnoughShards { block, have, need }) => {
            assert_eq!((block, have, need), (0, 2, 3));
        }
        other => panic!("unexpected result: {:?}", other),
    }
    // Fewer shards than needed: the points among them are counted as well.
    let kept = vec![shard(3, 1, 10), shard(3, 1, 10)];
    match hecc_recover_bytes(p, &kept) {
        Err(HeccPipelineError::NotEnoughShards { block, have, need }) => {
            assert_eq!((block, have, need), (3, 1, 3));
        }
        other => panic!("unexpected result: {:?}", other),
    }
}

#[test]
fn recover_reports_the_lowest_short_block() {
    let p = params(2, 1, 5);
    let kept = vec![
        shard(9, 1, 1),
        shard(4, 1, 1),
        shard(4, 2, 1),
        shard(2, 1, 1),
        shard(2, 2, 1),
        shard(2, 3, 1),
    ];
    match hecc_recover_bytes(p, &kept) {
        Err(HeccPipelineError::NotEnoughShards { block, have, need }) => {
            assert_eq!((block, have, need), (4, 2, 3));
        }
        other => panic!("unexpected result: {:?}", other),
    }
}

#[test]
fn recover_rejects_bad_params() {
    assert!(matches!(
        hecc_recover_bytes(params(0, 1, 4), &[]),
        Err(HeccPipelineError::InvalidParams)
    ));
    assert!(matches!(
        hecc_recover_bytes(params(2, 2, 3), &[shard(0, 1, 1)]),
        Err(HeccPipelineError::InvalidParams)
    ));
}

#[test]
fn recover_rejects_a_payload_without_header() {
    assert!(matches!(
        hecc_recover_bytes(params(2, 1, 5), &[]),
        Err(HeccPipelineError::InvalidHeader)
    ));
    // One block of two bytes is less than a header.
    let p = params(2, 1, 5);
    let block = hecc_shred_block(p, 0, &[0, 0], &[1]).expect("block");
    assert!(matches!(hecc_recover_bytes(p, &block), Err(HeccPipelineError::InvalidHeader)));
}

#[test]
fn recover_rejects_a_header_that_claims_too_much() {
    let p = params(4, 1, 6);
    // The header says five bytes, but one block of payload follows: four bytes.
    let mut shards = hecc_shred_block(p, 0, &[0, 0, 0, 5], &[9]).expect("block");
    shards.extend(hecc_shred_block(p, 1, &[1, 2, 3, 4], &[9]).expect("block"));
    assert!(matches!(hecc_recover_bytes(p, &shards), Err(HeccPipelineError::InvalidHeader)));
    // With one block more the five bytes are there.
    shards.extend(hecc_shred_block(p, 2, &[5, 6, 7, 8], &[9]).expect("block"));
    assert_eq!(hecc_recover_bytes(p, &shards).expect("recover"), vec![1u8, 2, 3, 4, 5]);
}

#[test]
fn recover_puts_blocks_in_ascending_order() {
    let p = params(4, 1, 6);
    let mut shards = hecc_shred_block(p, 2, &[5, 6, 7, 8], &[3]).expect("block");
    shards.extend(hecc_shred_block(p, 0, &[0, 0, 0, 8], &[1]).expect("block"));
    shards.extend(hecc_shred_block(p, 1, &[1, 2, 3, 4], &[2]).expect("block"));
    assert_eq!(
        hecc_recover_bytes(p, &shards).expect("recover"),
        vec![1u8, 2, 3, 4, 5, 6, 7, 8]
    );
}

#[test]
fn recover_reads_the_header_most_significant_byte_first() {
    let p = params(4, 1, 6);
    // 0x0000_0102 = 258 bytes follow the header.
    let mut shards = hecc_shred_block(p, 0, &[0, 0, 1, 2], &[1]).expect("block");
    for b in 0..65u32 {
        shards.extend(hecc_shred_block(p, b + 1, &[b as u8; 4], &[2]).expect("block"));
    }
    let recovered = hecc_recover_bytes(p, &shards).expect("recover");
    assert_eq!(recovered.len(), 258);
    assert_eq!(recovered[4], 1);
    assert_eq!(recovered[257], 64);
}

#[test]
fn shred_rejects_a_message_too_long_for_the_header() {
    if usize::BITS <= 32 {
        return;
    }
    let len: usize = (u32::MAX as usize) + 1;
    // Where so much memory cannot be had there is nothing to try.
    let mut probe: Vec<u8> = Vec::new();
    if probe.try_reserve_exact(len).is_err() {
        return;
    }
    drop(probe);
    let message = vec![0u8; len];
    let mut rng = StdRng::seed_from_u64(5);
    assert!(matches!(
        hecc_shred_bytes(params(16, 6, 32), &message, &mut rng),
        Err(HeccPipelineError::LengthOverflow)
    ));
    assert!(matches!(
        hecc_frame_blocks(params(16, 6, 32), &message),
        Err(HeccPipelineError::LengthOverflow)
    ));
    // Bad parameters are told first.
    assert!(matches!(
        hecc_frame_blocks(params(16, 6, 21), &message),
        Err(HeccPipelineError::InvalidParams)
    ));
}
