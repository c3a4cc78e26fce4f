use poc1to2::plot::{Plot, NONCE_SIZE};
use poc1to2::transform::swap_scoop_pair;

/// A deterministic test pattern that does not repeat with period 64.
fn pattern(len: usize) -> Vec<u8> {
    (0..len).map(|i| (i % 251) as u8).collect()
}

#[test]
fn test_swap_scoop_pair_swaps_second_halves_only() {
    // two blocks of two 64-byte records each
    let fwd0: Vec<u8> = (0..128).map(|i| i as u8).collect();
    let bwd0: Vec<u8> = (0..128).map(|i| (128 + i) as u8).collect();
    let mut fwd = fwd0.clone();
    let mut bwd = bwd0.clone();
    swap_scoop_pair(&mut fwd, &mut bwd);
    for i in 0..128 {
        if i % 64 < 32 {
            assert_eq!(fwd[i], fwd0[i]);
            assert_eq!(bwd[i], bwd0[i]);
        } else {
            assert_eq!(fwd[i], bwd0[i]);
            assert_eq!(bwd[i], fwd0[i]);
        }
    }
}

#[test]
fn test_swap_scoop_pair_twice_is_identity() {
    let fwd0 = pattern(640);
    let bwd0: Vec<u8> = pattern(640).iter().map(|b| b.wrapping_add(101)).collect();
    let mut fwd = fwd0.clone();
    let mut bwd = bwd0.clone();
    swap_scoop_pair(&mut fwd, &mut bwd);
    swap_scoop_pair(&mut fwd, &mut bwd);
    assert_eq!(fwd, fwd0);
    assert_eq!(bwd, bwd0);
}

#[test]
fn test_convert_single_nonce_exact_permutation() {
    let plot = Plot::new("1_0_1_1", NONCE_SIZE, None).unwrap();
    let input = pattern(NONCE_SIZE as usize);
    let mut data = input.clone();
    plot.convert(&mut data);
    // with one nonce each scoop block is one 64-byte record
    for i in 0..input.len() {
        let block: usize = i / 64;
        let off: usize = i % 64;
        if off < 32 {
            assert_eq!(data[i], input[i]);
        } else {
            assert_eq!(data[i], input[(4095 - block) * 64 + off]);
        }
    }
}

#[test]
fn test_convert_twice_restores_input() {
    let plot = Plot::new("1_0_3_3", 3 * NONCE_SIZE, None).unwrap();
    let input = pattern(3 * NONCE_SIZE as usize);
    let mut data = input.clone();
    plot.convert(&mut data);
    assert_ne!(data, input);
    plot.convert(&mut data);
    assert_eq!(data, input);
}

#[test]
fn test_convert_conserves_bytes_and_first_halves() {
    let plot = Plot::new("11253871103436815155_0_10_10", 10 * NONCE_SIZE, None).unwrap();
    let input = pattern(10 * NONCE_SIZE as usize);
    let mut data = input.clone();
    plot.convert(&mut data);

    // size is conserved
    assert_eq!(data.len(), input.len());

    // the multiset of bytes is conserved
    let mut before = [0u64; 256];
    let mut after = [0u64; 256];
    for &b in input.iter() {
        before[b as usize] += 1;
    }
    for &b in data.iter() {
        after[b as usize] += 1;
    }
    assert_eq!(before, after);

    // first hash halves never move; second halves come from the mirrored
    // scoop block at the same in-block offset
    let block_size: usize = 10 * 64;
    for i in 0..input.len() {
        let block: usize = i / block_size;
        let off: usize = i % block_size;
        if off % 64 < 32 {
            assert_eq!(data[i], input[i]);
        } else {
            assert_eq!(data[i], input[(4095 - block) * block_size + off]);
        }
    }
}

#[test]
fn test_copy_and_in_place_modes_agree() {
    // the same plot validated in both modes converts to identical bytes,
    // and the copy mode source stays untouched
    let inplace = Plot::new("9_4_2_2", 2 * NONCE_SIZE, None).unwrap();
    let copy = Plot::new("9_4_2_2", 2 * NONCE_SIZE, Some(true)).unwrap();
    assert!(inplace.inline);
    assert!(!copy.inline);

    let source = pattern(2 * NONCE_SIZE as usize);

    let mut in_place_result = source.clone();
    inplace.convert(&mut in_place_result);

    let mut copy_result = source.clone();
    copy.convert(&mut copy_result);

    assert_eq!(in_place_result, copy_result);
    assert_eq!(source, pattern(2 * NONCE_SIZE as usize));
}

#[test]
fn test_pair_offsets() {
    let plot = Plot::new("1_0_10_10", 10 * NONCE_SIZE, None).unwrap();
    assert_eq!(plot.block_size(), 640);
    assert_eq!(plot.pair_offsets(0), (0, 2621440 - 640));
    assert_eq!(plot.pair_offsets(1), (640, 2621440 - 2 * 640));
    // the last pair meets in the middle of the file
    assert_eq!(plot.pair_offsets(2047), (2047 * 640, 2048 * 640));
}

#[test]
fn test_zero_nonce_plot_converts_to_nothing() {
    let plot = Plot::new("1_0_0_0", 0, None).unwrap();
    let mut data: Vec<u8> = Vec::new();
    plot.convert(&mut data);
    assert!(data.is_empty());
}
