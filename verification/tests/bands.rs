use oporus::analysis::stereo_itheta;
use oporus::band_stereo::{quant_band_stereo_decode, stereo_merge};
use oporus::bands::{
    bitexact_cos, bitexact_log2tan, celt_lcg_rand, frac_mul16, hysteresis_decision,
};
use oporus::collapse::{anti_collapse, CollapseInfo};
use oporus::hadamard::{
    deinterleave_hadamard, haar1, interleave_hadamard, special_hybrid_folding,
};
use oporus::mdct::MdctLookup;
use oporus::mode::{OpusCustomMode, PulseCache};
use oporus::mode_tables::canonical_mode;
use oporus::pvq::{renormalise_vector, SPREAD_AGGRESSIVE, SPREAD_NONE, SPREAD_NORMAL};
use oporus::range_decoder::EcDec;
use oporus::range_encoder::EcEnc;
use oporus::spectrum::{compute_band_energies, denormalise_bands, normalise_bands};
use oporus::spreading::{count_bands, spreading_decision};
use oporus::stereo_encode::quant_band_stereo;
use oporus::theta::{compute_qn, compute_theta, compute_theta_decode, BandCtx};

/// Unit of normalised coefficients.
const NORM: f32 = 16384.0;

/// Unit of signals.
const SIG: f32 = 4096.0;

fn dummy_mode(e_bands: &[i16], short_mdct_size: usize) -> OpusCustomMode {
    OpusCustomMode {
        sample_rate: 48_000,
        overlap: 0,
        num_ebands: e_bands.len() - 1,
        effective_ebands: e_bands.len() - 1,
        pre_emphasis: [0; 4],
        e_bands: e_bands.to_vec(),
        max_lm: 0,
        num_short_mdcts: 1,
        short_mdct_size,
        num_alloc_vectors: 0,
        alloc_vectors: Vec::new(),
        log_n: vec![0; e_bands.len() - 1],
        window: Vec::new(),
        mdct: MdctLookup { trig: Vec::new(), factors: Vec::new(), twiddles: Vec::new() },
        cache: PulseCache { index: Vec::new(), bits: Vec::new(), caps: Vec::new() },
    }
}

fn to_norm(x: &[f32]) -> Vec<i16> {
    x.iter().map(|v| (v * NORM).round() as i16).collect()
}

#[test]
fn hysteresis_matches_reference_logic() {
    // Thresholds and values in hundredths.
    let thresholds = [20, 40, 60, 80];
    let hysteresis = [5; 4];

    fn reference(value: i32, thresholds: &[i32], hysteresis: &[i32], prev: usize) -> usize {
        let count = thresholds.len();
        let mut i = 0;
        while i < count {
            if value < thresholds[i] {
                break;
            }
            i += 1;
        }

        if i > prev && prev < count && value < thresholds[prev] + hysteresis[prev] {
            i = prev;
        }
        if i < prev && prev > 0 && value > thresholds[prev - 1] - hysteresis[prev - 1] {
            i = prev;
        }
        i
    }

    let values = [0, 15, 25, 39, 41, 59, 61, 79, 81, 95];

    for prev in 0..=thresholds.len() {
        for &value in &values {
            let expected = reference(value, &thresholds, &hysteresis, prev);
            assert_eq!(
                hysteresis_decision(value, &thresholds, &hysteresis, prev),
                expected,
                "value {value}, prev {prev}",
            );
        }
    }
}

#[test]
fn haar1_preserves_signal_when_applied_twice() {
    let values = [
        0.25_f32, -1.5, 3.5, 0.75, -2.25, 1.0, 0.5, -0.125, 2.0, -3.0, 1.5, 0.25,
    ];
    // Q12: the largest intermediate value fits a word.
    let mut data: Vec<i16> = values.iter().map(|v| (v * 4096.0) as i16).collect();
    let original = data.clone();

    haar1(&mut data, 12, 1);
    assert_ne!(data, original);
    haar1(&mut data, 12, 1);

    for (expected, observed) in original.iter().zip(data.iter()) {
        assert!(
            (i32::from(*expected) - i32::from(*observed)).abs() <= 2,
            "expected {expected}, got {observed}"
        );
    }
}

#[test]
fn lcg_rand_produces_expected_sequence() {
    let mut seed = 0xDEAD_BEEF_u32;
    let mut expected = [0_u32; 5];
    for slot in &mut expected {
        let next = ((1_664_525_u64 * u64::from(seed)) + 1_013_904_223_u64) & 0xFFFF_FFFF;
        *slot = next as u32;
        seed = next as u32;
    }

    seed = 0xDEAD_BEEF_u32;
    for &value in &expected {
        seed = celt_lcg_rand(seed);
        assert_eq!(seed, value);
    }
}

#[test]
fn compute_qn_covers_reference_cases() {
    let cases = [
        ((1, 12, 3, 8, false), 1),
        ((2, 20, 2, 16, true), 1),
        ((4, 64, 1, 24, false), 2),
        ((8, 200, 0, 32, true), 4),
        ((3, 48, 4, 12, false), 2),
    ];

    for ((n, b, offset, pulse_cap, stereo), expected) in cases {
        assert_eq!(
            compute_qn(n, b, offset, pulse_cap, stereo),
            expected,
            "compute_qn({n}, {b}, {offset}, {pulse_cap}, {stereo})",
        );
    }
}

#[test]
fn spreading_returns_aggressive_for_concentrated_energy() {
    let mode = dummy_mode(&[0i16, 16, 32], 32);
    let channels = 1;
    let m = 1;
    let end = 2;
    let spread_weight = vec![1, 1];
    let spectrum = vec![1.0f32; channels * m * mode.short_mdct_size];
    let mut average = 0;
    let mut hf_average = 0;
    let mut tapset = 1;

    let decision = spreading_decision(
        &mode,
        &to_norm(&spectrum),
        &mut average,
        SPREAD_NORMAL,
        &mut hf_average,
        &mut tapset,
        false,
        end,
        channels,
        m,
        &spread_weight,
    );

    assert_eq!(decision, SPREAD_AGGRESSIVE);
    assert_eq!(tapset, 1);
    assert_eq!(hf_average, 0);
    assert_eq!(average, 0);
}

#[test]
fn spreading_returns_normal_when_single_threshold_met() {
    let mode = dummy_mode(&[0i16, 16, 32], 32);
    let channels = 1;
    let m = 1;
    let end = 2;
    let spread_weight = vec![1, 1];
    let mut spectrum = vec![1.0f32; channels * m * mode.short_mdct_size];
    for slot in spectrum.iter_mut().take(8) {
        *slot = 0.1;
    }
    let mut average = 0;
    let mut hf_average = 0;
    let mut tapset = 1;

    let decision = spreading_decision(
        &mode,
        &to_norm(&spectrum),
        &mut average,
        SPREAD_NORMAL,
        &mut hf_average,
        &mut tapset,
        false,
        end,
        channels,
        m,
        &spread_weight,
    );

    assert_eq!(decision, SPREAD_NORMAL);
    assert_eq!(tapset, 1);
    assert_eq!(hf_average, 0);
    assert_eq!(average, 64);
}

#[test]
fn spreading_returns_none_when_all_thresholds_met() {
    let mode = dummy_mode(&[0i16, 16, 32], 32);
    let channels = 1;
    let m = 1;
    let end = 1;
    let spread_weight = vec![1];
    let mut spectrum = vec![1.0f32; channels * m * mode.short_mdct_size];
    for slot in spectrum.iter_mut().take(8) {
        *slot = 0.01;
    }
    let mut average = 0;
    let mut hf_average = 0;
    let mut tapset = 1;

    let decision = spreading_decision(
        &mode,
        &to_norm(&spectrum),
        &mut average,
        SPREAD_NONE,
        &mut hf_average,
        &mut tapset,
        false,
        end,
        channels,
        m,
        &spread_weight,
    );

    assert_eq!(decision, SPREAD_NONE);
    assert_eq!(tapset, 1);
    assert_eq!(hf_average, 0);
    assert_eq!(average, 384);
}

#[test]
fn spreading_updates_hf_tracking() {
    let e_bands: Vec<i16> = (0..=10).map(|i| (i * 24) as i16).collect();
    let mode = dummy_mode(&e_bands, 256);
    let channels = 1;
    let m = 1;
    let end = mode.num_ebands;
    let spread_weight = vec![1; end];
    let spectrum = vec![0.0f32; channels * m * mode.short_mdct_size];
    let mut average = 0;
    let mut hf_average = 0;
    let mut tapset = 1;

    let decision = spreading_decision(
        &mode,
        &to_norm(&spectrum),
        &mut average,
        SPREAD_NONE,
        &mut hf_average,
        &mut tapset,
        true,
        end,
        channels,
        m,
        &spread_weight,
    );

    assert_eq!(decision, SPREAD_NONE);
    assert_eq!(tapset, 2);
    assert_eq!(hf_average, 24);
    assert_eq!(average, 384);
}

#[test]
fn small_coefficients_are_counted() {
    let mode = dummy_mode(&[0i16, 4, 20], 20);
    let mut x = vec![0i16; 40];
    // The mean energy of sixteen coefficients is reached at 4096.
    x[4] = 2047;
    x[5] = -2048;
    x[6] = 1023;
    x[7] = 1024;
    x[8] = 511;
    x[9] = -512;
    x[10..20].fill(4096);
    let counts = count_bands(&mode, &x, 2, 2, 1);
    assert_eq!(counts.len(), 4);
    assert_eq!((counts[0].quarter, counts[0].sixteenth, counts[0].sixty_fourth), (4, 4, 4));
    assert_eq!((counts[1].quarter, counts[1].sixteenth, counts[1].sixty_fourth), (5, 3, 1));
    assert_eq!((counts[3].quarter, counts[3].sixteenth, counts[3].sixty_fourth), (16, 16, 16));
}

fn reference_stereo_merge(x: &[f32], y: &[f32], mid: f32) -> (Vec<f32>, Vec<f32>) {
    let mut left = x.to_vec();
    let mut right = y.to_vec();

    let cross: f32 = mid * x.iter().zip(y).map(|(a, b)| a * b).sum::<f32>();
    let side_energy: f32 = y.iter().map(|b| b * b).sum();
    let mid_energy = mid * mid;
    let el = mid_energy + side_energy - 2.0 * cross;
    let er = mid_energy + side_energy + 2.0 * cross;

    if er < 6e-4 || el < 6e-4 {
        right.copy_from_slice(&left);
        return (left, right);
    }

    let lgain = 1.0 / el.sqrt();
    let rgain = 1.0 / er.sqrt();

    for (l, r) in left.iter_mut().zip(right.iter_mut()) {
        let mid_scaled = mid * *l;
        let side_val = *r;
        *l = lgain * (mid_scaled - side_val);
        *r = rgain * (mid_scaled + side_val);
    }

    (left, right)
}

#[test]
fn stereo_merge_matches_reference_transform() {
    let left = [0.8, -0.25, 0.5, -0.75, 0.1, 0.3];
    let right = [-0.2, 0.4, -0.6, 0.3, -0.1, 0.2];
    let mid = 0.9;

    let (expected_left, expected_right) = reference_stereo_merge(&left, &right, mid);
    let mut x = to_norm(&left);
    let mut y = to_norm(&right);
    stereo_merge(&mut x, &mut y, (f64::from(mid) * 2147483648.0) as i32);

    for (idx, (&value, &expected)) in x.iter().zip(expected_left.iter()).enumerate() {
        let value = f32::from(value) / NORM;
        assert!(
            (value - expected).abs() <= 8.0 / NORM,
            "left[{idx}] mismatch: value={value}, expected={expected}"
        );
    }

    for (idx, (&value, &expected)) in y.iter().zip(expected_right.iter()).enumerate() {
        let value = f32::from(value) / NORM;
        assert!(
            (value - expected).abs() <= 8.0 / NORM,
            "right[{idx}] mismatch: value={value}, expected={expected}"
        );
    }
}

#[test]
fn stereo_merge_copies_mid_for_low_energy() {
    let mut left = to_norm(&[0.0f32; 4]);
    let mut right = to_norm(&[1e-3f32, -1e-3, 2e-3, -2e-3]);
    stereo_merge(&mut left, &mut right, 0);
    assert_eq!(right, left);
}

#[test]
fn special_hybrid_folding_duplicates_primary_when_needed() {
    let mode = dummy_mode(&[0i16, 1, 3, 6], 8);
    let mut norm = vec![0.1f32, 0.2, 0.3, 0.4, 0.5, 0.6];

    special_hybrid_folding(&mode, &mut norm, None, 0, 2, false);

    assert_eq!(norm, vec![0.1, 0.2, 0.1, 0.2, 0.5, 0.6]);
}

#[test]
fn special_hybrid_folding_updates_secondary_when_dual_stereo() {
    let mode = dummy_mode(&[0i16, 1, 3, 6], 8);
    let mut norm = vec![0.1f32, 0.2, 0.3, 0.4, 0.5, 0.6];
    let mut norm2 = vec![1.0f32, 2.0, 3.0, 4.0, 5.0, 6.0];

    special_hybrid_folding(&mode, &mut norm, Some(&mut norm2), 0, 2, true);

    assert_eq!(norm, vec![0.1, 0.2, 0.1, 0.2, 0.5, 0.6]);
    assert_eq!(norm2, vec![1.0, 2.0, 1.0, 2.0, 5.0, 6.0]);
}

#[test]
fn special_hybrid_folding_noops_when_second_band_not_wider() {
    let mode = dummy_mode(&[0i16, 2, 3, 5], 4);
    let mut norm = vec![0.0f32, 1.0, 2.0, 3.0];
    let mut norm2 = vec![4.0f32, 5.0, 6.0, 7.0];
    let expected_norm = norm.clone();
    let expected_norm2 = norm2.clone();

    special_hybrid_folding(&mode, &mut norm, Some(&mut norm2), 0, 1, true);

    assert_eq!(norm, expected_norm);
    assert_eq!(norm2, expected_norm2);
}

fn reference_ordery(stride: usize) -> &'static [usize] {
    match stride {
        2 => &[1, 0],
        4 => &[3, 0, 2, 1],
        8 => &[7, 0, 4, 3, 6, 1, 5, 2],
        16 => &[15, 0, 8, 7, 12, 3, 11, 4, 14, 1, 9, 6, 13, 2, 10, 5],
        _ => panic!("unsupported stride"),
    }
}

#[test]
fn hadamard_interleave_matches_reference_layout() {
    for &stride in &[2, 4, 8, 16] {
        let n0 = 4usize;
        let n = n0 * stride;
        let mut data: Vec<f32> = (0..n).map(|v| v as f32).collect();
        let mut expected = data.clone();

        let ordery = reference_ordery(stride);
        for (i, &ord) in ordery.iter().enumerate() {
            for j in 0..n0 {
                expected[j * stride + i] = data[ord * n0 + j];
            }
        }

        interleave_hadamard(&mut data, n0, stride, true);
        assert_eq!(data[..n], expected[..n]);
    }
}

#[test]
fn interleave_and_deinterleave_round_trip() {
    let cases = [
        (4usize, 2usize, false),
        (4, 2, true),
        (8, 4, false),
        (8, 4, true),
    ];

    for &(n0, stride, hadamard) in &cases {
        let n = n0 * stride;
        let data: Vec<f32> = (0..n).map(|v| (v as f32) * 0.5 - 3.0).collect();
        let mut transformed = data.clone();
        interleave_hadamard(&mut transformed, n0, stride, hadamard);
        deinterleave_hadamard(&mut transformed, n0, stride, hadamard);
        assert_eq!(transformed[..n], data[..n]);
    }
}

#[test]
fn frac_mul16_matches_c_macro() {
    fn reference(a: i32, b: i32) -> i32 {
        let a = a as i16;
        let b = b as i16;
        (16_384 + i32::from(a) * i32::from(b)) >> 15
    }

    let samples = [
        (-32_768, -32_768),
        (-32_768, 32_767),
        (-20_000, 16_000),
        (-626, 8_000),
        (8_277, -5_000),
        (7_932, 2_000),
        (32_767, 32_767),
    ];

    for &(a, b) in &samples {
        assert_eq!(frac_mul16(a, b), reference(a, b));
    }
}

#[test]
fn bitexact_cos_matches_reference() {
    let mut chk: i32 = 0;
    let mut max_d: i32 = 0;
    let mut min_d: i32 = 32_767;
    let mut last: i32 = 32_767;

    for i in 64..=16_320i16 {
        let q = i32::from(bitexact_cos(i));
        chk ^= q * i32::from(i);
        let d = last - q;
        if d > max_d {
            max_d = d;
        }
        if d < min_d {
            min_d = d;
        }
        last = q;
    }

    assert_eq!(chk, 89_408_644, "checksum mismatch");
    assert_eq!(max_d, 5, "max_d mismatch");
    assert_eq!(min_d, 0, "min_d mismatch");
    assert_eq!(bitexact_cos(64), 32_767, "bitexact_cos(64) mismatch");
    assert_eq!(bitexact_cos(16_320), 200, "bitexact_cos(16320) mismatch");
    assert_eq!(bitexact_cos(8_192), 23_171, "bitexact_cos(8192) mismatch");
}

#[test]
fn bitexact_log2tan_matches_reference() {
    let mut fail = false;
    let mut chk: i32 = 0;
    let mut max_d: i32 = 0;
    let mut min_d: i32 = 15_059;
    let mut last: i32 = 15_059;

    for i in 64..8_193i16 {
        let mid = i32::from(bitexact_cos(i));
        let side = i32::from(bitexact_cos(16_384 - i));
        let q = bitexact_log2tan(mid, side);
        chk ^= q * i32::from(i);
        let d = last - q;
        if q != -bitexact_log2tan(side, mid) {
            fail = true;
        }
        if d > max_d {
            max_d = d;
        }
        if d < min_d {
            min_d = d;
        }
        last = q;
    }

    assert_eq!(chk, 15_821_257, "checksum mismatch");
    assert_eq!(max_d, 61, "max_d mismatch");
    assert_eq!(min_d, -2, "min_d mismatch");
    assert!(!fail, "antisymmetry check failed");
    assert_eq!(
        bitexact_log2tan(32_767, 200),
        15_059,
        "bitexact_log2tan(32767,200) mismatch"
    );
    assert_eq!(
        bitexact_log2tan(30_274, 12_540),
        2_611,
        "bitexact_log2tan(30274,12540) mismatch"
    );
    assert_eq!(
        bitexact_log2tan(23_171, 23_171),
        0,
        "bitexact_log2tan(23171,23171) mismatch"
    );
}

#[test]
fn bitexact_cos_matches_reference_samples() {
    let inputs = [-16_383, -12_000, -6_000, -1, 0, 1, 6_000, 12_000, 16_383];
    let expected = [
        3, 13_371, 27_494, -32_768, -32_768, -32_768, 27_494, 13_371, 3,
    ];

    for (&input, &value) in inputs.iter().zip(expected.iter()) {
        assert_eq!(bitexact_cos(input), value);
    }
}

#[test]
fn bitexact_log2tan_matches_reference_samples() {
    let inputs = [
        (23_170, 32_767),
        (11_585, 32_767),
        (16_384, 23_170),
        (30_000, 12_345),
        (12_345, 30_000),
        (1, 32_767),
        (32_767, 1),
    ];
    let expected = [-1_025, -3_073, -993, 2_631, -2_631, -30_690, 30_690];

    for ((isin, icos), &value) in inputs.iter().zip(expected.iter()) {
        assert_eq!(bitexact_log2tan(*isin, *icos), value);
    }
}

#[test]
fn quant_band_n1_round_trips_sign_information() {
    let mode = canonical_mode();
    let bit_budget = 1_i32 << 3;

    let mut x = vec![-8192i16];
    let mut y = vec![4096i16];
    let mut enc = EcEnc::new(8);
    let mut ctx = BandCtx {
        mode: &mode,
        band: 0,
        intensity: 0,
        spread: 0,
        tf_change: 0,
        remaining_bits: 2 * bit_budget,
        seed: 0,
        theta_round: 0,
        disable_inv: false,
        avoid_split_noise: false,
        resynth: true,
    };
    let (coded, lowband) = quant_band_stereo(
        &mut enc,
        &mut ctx,
        &mut x,
        &mut y,
        1,
        2 * bit_budget,
        1,
        None,
        0,
        0,
        0,
        1,
    );
    assert_eq!(coded, 1);
    assert_eq!(ctx.remaining_bits, 0);
    assert_eq!(x[0], -16384);
    assert_eq!(y[0], 16384);
    assert_eq!(lowband[0], x[0]);
    let storage = enc.enc_done().expect("the packet has room");

    let mut dec = EcDec::new(&storage);
    let mut ctx = BandCtx {
        mode: &mode,
        band: 0,
        intensity: 0,
        spread: 0,
        tf_change: 0,
        remaining_bits: 2 * bit_budget,
        seed: 0,
        theta_round: 0,
        disable_inv: false,
        avoid_split_noise: false,
        resynth: true,
    };
    let mut x_dec = vec![0i16];
    let mut y_dec = vec![0i16];
    let (coded, lowband) = quant_band_stereo_decode(
        &mut dec,
        &mut ctx,
        &mut x_dec,
        &mut y_dec,
        1,
        2 * bit_budget,
        1,
        None,
        0,
        1,
    );
    assert_eq!(coded, 1);
    assert_eq!(ctx.remaining_bits, 0);
    assert_eq!(x_dec[0], -16384);
    assert_eq!(y_dec[0], 16384);
    assert_eq!(lowband[0], x_dec[0]);
}

#[test]
fn compute_theta_encode_decode_round_trip() {
    let mut mode = dummy_mode(&[0i16, 2, 4], 4);
    mode.log_n = vec![0, 0];
    let n = 4;
    let initial_b = 48 << 3;
    let b_current = 2;
    let b0 = 2;
    let lm = 1;
    let stereo = true;
    let initial_fill = (1u32 << (b0 as u32)) - 1;

    let x = to_norm(&[0.45_f32, -0.2, 0.05, -0.35]);
    let y = to_norm(&[0.15_f32, 0.32, -0.28, 0.4]);
    let itheta = stereo_itheta(&x, &y, stereo);

    let ctx = BandCtx {
        mode: &mode,
        band: 1,
        intensity: mode.num_ebands + 4,
        spread: SPREAD_NORMAL,
        tf_change: 0,
        remaining_bits: 160 << 3,
        seed: 0x4567_89ab,
        theta_round: 0,
        disable_inv: false,
        avoid_split_noise: false,
        resynth: false,
    };

    let mut enc = EcEnc::new(32);
    let (sctx_encode, b_encode, fill_encode) = compute_theta(
        &mut enc,
        &ctx,
        itheta,
        n,
        initial_b,
        b_current,
        b0,
        lm,
        stereo,
        initial_fill,
    );
    let storage = enc.enc_done().expect("the packet has room");

    let mut dec = EcDec::new(&storage);
    let (sctx_decode, b_decode, fill_decode) = compute_theta_decode(
        &mut dec,
        &ctx,
        n,
        initial_b,
        b_current,
        b0,
        lm,
        stereo,
        initial_fill,
    );

    assert_eq!(sctx_encode, sctx_decode);
    assert_eq!(b_encode, b_decode);
    assert_eq!(fill_encode, fill_decode);
}

#[test]
fn compute_band_energies_matches_manual_sum() {
    let mode = dummy_mode(&[0i16, 2, 4], 4);
    let channels = 2;
    let lm = 1usize;
    let n = mode.short_mdct_size << lm;

    let mut spectrum = Vec::with_capacity(channels * n);
    for idx in 0..channels * n {
        spectrum.push((idx as f32 * 0.13 - 0.5).sin());
    }
    let unit = 1_048_576.0_f32;
    let scaled: Vec<i32> = spectrum.iter().map(|v| (v * unit).round() as i32).collect();

    let mut band_e = vec![0; mode.num_ebands * channels];
    compute_band_energies(&mode, &scaled, &mut band_e, mode.num_ebands, channels, lm);

    for c in 0..channels {
        for b in 0..mode.num_ebands {
            let start = ((mode.e_bands[b] as usize) << lm) + c * n;
            let stop = ((mode.e_bands[b + 1] as usize) << lm) + c * n;
            let sum: f32 = spectrum[start..stop].iter().map(|v| v * v).sum();
            let expected = (1e-27_f32 + sum).sqrt();
            let idx = b + c * mode.num_ebands;
            assert!(
                (band_e[idx] as f32 / unit - expected).abs() <= 1e-3,
                "channel {c}, band {b}"
            );
        }
    }
}

#[test]
fn normalise_bands_scales_by_inverse_energy() {
    let mode = dummy_mode(&[0i16, 2, 4], 4);
    let channels = 1usize;
    let m = 2usize;
    let n = mode.short_mdct_size * m;

    let freq: Vec<f32> = (0..n).map(|i| (i as f32 * 0.21 - 0.4).cos()).collect();
    let mut energies = vec![0.0f32; mode.num_ebands * channels];
    for (b, value) in energies.iter_mut().enumerate() {
        let start = m * (mode.e_bands[b] as usize);
        let stop = m * (mode.e_bands[b + 1] as usize);
        let sum: f32 = freq[start..stop].iter().map(|v| v * v).sum();
        *value = (1e-27_f32 + sum).sqrt();
    }
    let unit = 1_048_576.0_f32;
    let scaled: Vec<i32> = freq.iter().map(|v| (v * unit).round() as i32).collect();
    let band_e: Vec<i32> = energies.iter().map(|v| (v * unit).round() as i32).collect();
    let mut norm = vec![0i16; n];

    normalise_bands(&mode, &scaled, &mut norm, &band_e, mode.num_ebands, channels, m);

    for b in 0..mode.num_ebands {
        let start = m * (mode.e_bands[b] as usize);
        let stop = m * (mode.e_bands[b + 1] as usize);
        let gain = 1.0 / (1e-27_f32 + energies[b]);
        for j in start..stop {
            assert!(
                (f32::from(norm[j]) / NORM - freq[j] * gain).abs() <= 4.0 / NORM,
                "band {b}, index {j}"
            );
        }
    }
}

#[test]
fn measured_bands_are_normalised_to_unit_energy() {
    let mut mode = dummy_mode(&[0i16, 4, 12], 16);
    mode.log_n = vec![16, 24];
    let channels = 2usize;
    let freq: Vec<i32> = (0..32i32).map(|i| (i * 7919 % 4001 - 2000) * 512).collect();
    let mut band_e = vec![0i32; 4];
    compute_band_energies(&mode, &freq, &mut band_e, 2, channels, 0);
    let mut norm = vec![77i16; 32];
    normalise_bands(&mode, &freq, &mut norm, &band_e, 2, channels, 1);
    for c in 0..channels {
        for b in 0..2 {
            let e = i64::from(band_e[2 * c + b]);
            let mut energy = 0.0f32;
            for k in mode.e_bands[b] as usize..mode.e_bands[b + 1] as usize {
                let v = i64::from(freq[16 * c + k]);
                let r = i64::from(norm[16 * c + k]);
                assert!((r * e - 16384 * v).abs() <= 2 * e, "channel {c}, coefficient {k}");
                energy += (r as f32 / NORM) * (r as f32 / NORM);
            }
            assert!((energy - 1.0).abs() <= 2e-3, "channel {c}, band {b}: {energy}");
        }
        assert!(norm[16 * c + 12..16 * c + 16].iter().all(|v| *v == 77));
    }
}

/// Mean log energies of the first bands.
const MEANS: [f32; 2] = [6.4375, 6.25];

#[test]
fn denormalise_bands_restores_scaled_spectrum() {
    let mode = dummy_mode(&[0i16, 2, 4], 4);
    let m = 1usize;
    let n = mode.short_mdct_size * m;

    let x: Vec<f32> = (0..n).map(|i| (i as f32 * 0.17 - 0.3).sin()).collect();
    let band_log_e = [0.5f32, -0.25];
    let logs: Vec<i32> = band_log_e.iter().map(|v| (v * 16_777_216.0) as i32).collect();
    let mut freq = vec![4096; n];

    denormalise_bands(
        &mode,
        &to_norm(&x),
        &mut freq,
        &logs,
        0,
        mode.num_ebands,
        m,
        1,
        false,
    );

    let mut idx = 0usize;
    for band in 0..mode.num_ebands {
        let band_end = m * (mode.e_bands[band + 1] as usize);
        let gain = (band_log_e[band] + MEANS[band]).min(32.0).exp2();
        while idx < band_end {
            let reference = x[idx] * gain;
            let observed = freq[idx] as f32 / SIG;
            assert!(
                (observed - reference).abs() <= 2.0 * gain / NORM,
                "index {idx}: observed={observed}, expected={reference}"
            );
            idx += 1;
        }
    }
}

#[test]
fn denormalise_bands_honours_downsample_and_silence() {
    let mode = dummy_mode(&[0i16, 2, 4], 4);
    let m = 1usize;
    let n = mode.short_mdct_size * m;

    let x = [0.5f32, -0.25, 0.125, -0.375];
    let mut freq = vec![3072; n];
    let band_log_e = vec![0, 0];

    denormalise_bands(&mode, &to_norm(&x), &mut freq, &band_log_e, 0, 1, m, 2, false);

    let gain = MEANS[0].exp2();
    assert!((freq[0] as f32 / SIG - x[0] * gain).abs() <= 2.0 * gain / NORM);
    assert!((freq[1] as f32 / SIG - x[1] * gain).abs() <= 2.0 * gain / NORM);
    assert_eq!(freq[2], 0);
    assert_eq!(freq[3], 0);

    denormalise_bands(&mode, &to_norm(&x), &mut freq, &band_log_e, 0, 1, m, 1, true);
    assert!(freq.iter().all(|v| *v == 0));
}

#[test]
fn anti_collapse_fills_collapsed_band_with_noise() {
    let e_bands = [0i16, 2];
    let mode = dummy_mode(&e_bands, 4);
    let lm = 1usize;
    let channels = 1usize;
    let size = mode.short_mdct_size << lm;
    let mut spectrum = vec![0i16; channels * size];
    let collapse_masks = vec![0u8; mode.num_ebands * channels];
    let log_e = vec![5 << 24; mode.num_ebands * channels];
    let prev1 = vec![0; mode.num_ebands * channels];
    let prev2 = vec![0; mode.num_ebands * channels];
    let pulses = vec![0i32; mode.num_ebands];

    let info = CollapseInfo {
        mode: &mode,
        masks: &collapse_masks,
        lm,
        channels,
        start: 0,
        end: mode.num_ebands,
        log_e: &log_e,
        prev1_log_e: &prev1,
        prev2_log_e: &prev2,
        pulses: &pulses,
        encode: false,
    };
    anti_collapse(&info, &mut spectrum, 0xDEAD_BEEF);

    let band_width = usize::try_from(e_bands[1] - e_bands[0]).unwrap();
    let samples = band_width << lm;
    let energy: f32 = spectrum[..samples]
        .iter()
        .map(|v| f32::from(*v) / 32_768.0)
        .map(|v| v * v)
        .sum();

    assert!(spectrum[..samples].iter().any(|v| *v != 0));
    assert!(energy > 0.0);
    let expected_energy = 0.25f32;
    assert!(
        (energy - expected_energy).abs() <= 2e-3,
        "renormalised energy {energy}"
    );
}

#[test]
fn fixed_band_energies_return_epsilon_on_silence() {
    let mode = dummy_mode(&[0i16, 4, 8], 8);
    let mut band_e = vec![0i32; mode.num_ebands];
    let spectrum = vec![0i32; mode.short_mdct_size];

    compute_band_energies(&mode, &spectrum, &mut band_e, mode.num_ebands, 1, 0);

    for value in band_e {
        assert_eq!(value, 1);
    }
}

#[test]
fn fixed_normalise_bands_preserves_silence() {
    let mode = dummy_mode(&[0i16, 4, 8], 8);
    let freq = vec![0i32; mode.short_mdct_size];
    let band_e = vec![1; mode.num_ebands];
    let mut x = vec![0i16; mode.short_mdct_size];

    normalise_bands(&mode, &freq, &mut x, &band_e, mode.num_ebands, 1, 1);

    assert!(x.iter().all(|&v| v == 0));
}

#[test]
fn fixed_normalise_bands_matches_reference() {
    let mode = dummy_mode(&[0i16, 1, 2, 4], 4);
    let freq = vec![1000i32, -2000, 3000, -4000];
    let band_e = vec![1 << 10, 1 << 20, 1 << 15];
    let mut x = vec![0i16; 4];

    normalise_bands(&mode, &freq, &mut x, &band_e, mode.num_ebands, 1, 1);

    assert_eq!(x, vec![15984, -31, 1500, -2000]);
}

#[test]
fn fixed_denormalise_bands_matches_reference() {
    let mode = dummy_mode(&[0i16, 1, 2, 4], 4);
    let x_in = vec![1234i16, -2345, 3456, -4567];
    let band_log_e = vec![-(18i32 << 24), 17i32 << 24, 10i32 << 24];

    let mut freq = vec![0i32; 4];
    denormalise_bands(&mode, &x_in, &mut freq, &band_log_e, 0, 3, 1, 1, false);
    assert_eq!(freq, vec![0, -153_681_920, 47_616_768, -62_924_126]);

    let mut freq_downsample = vec![0i32; 4];
    denormalise_bands(&mode, &x_in, &mut freq_downsample, &band_log_e, 0, 3, 1, 2, false);
    assert_eq!(freq_downsample, vec![0, -153_681_920, 0, 0]);

    let mut freq_silence = vec![1i32, -1, 2, -2];
    denormalise_bands(&mode, &x_in, &mut freq_silence, &band_log_e, 0, 3, 1, 1, true);
    assert_eq!(freq_silence, vec![0, 0, 0, 0]);
}

#[test]
fn renormalised_vector_has_unit_norm() {
    let mut x = vec![3000i16, -4000, 0, 0];
    renormalise_vector(&mut x, i32::MAX);
    let energy: i64 = x.iter().map(|v| i64::from(*v) * i64::from(*v)).sum();
    assert!((energy - 16384 * 16384).abs() < 16384 * 16);
    assert!(x[0] > 0 && x[1] < 0);
}
