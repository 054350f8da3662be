use oporus::all_bands::{quant_all_bands_decode, BandsConfig};
use oporus::analysis::{compute_channel_weights, intensity_stereo, stereo_itheta, stereo_split};
use oporus::band_encode::codes_angles;
use oporus::band_laws::has_even_bands;
use oporus::band_tf::{encode_sign, quant_band, quant_band_decode};
use oporus::bands_encode::quant_all_bands;
use oporus::laws::is_regular;
use oporus::mode::OpusCustomMode;
use oporus::mode_tables::canonical_mode;
use oporus::pvq::{alg_unquant, renormalise_vector, SPREAD_NONE, SPREAD_NORMAL};
use oporus::pvq_encode::{alg_quant, op_pvq_search};
use oporus::range_decoder::EcDec;
use oporus::range_encoder::EcEnc;
use oporus::stereo_encode::quant_band_stereo;
use oporus::theta::BandCtx;

/// Unity in Q31.
const ONE: i32 = i32::MAX;

/// Reproducible noise.
fn noise(seed: &mut u32) -> i16 {
    *seed = seed.wrapping_mul(1_664_525).wrapping_add(1_013_904_223);
    ((*seed >> 16) as i16) >> 2
}

fn unit_vector(n: usize, seed: &mut u32) -> Vec<i16> {
    let mut x: Vec<i16> = (0..n).map(|_| noise(seed)).collect();
    renormalise_vector(&mut x, ONE);
    x
}

fn spectrum(mode: &OpusCustomMode, lm: usize, len: usize, seed: &mut u32) -> Vec<i16> {
    let mut x = vec![0i16; len];
    for band in 0..mode.num_ebands {
        let from = (mode.e_bands[band] as usize) << lm;
        let to = (mode.e_bands[band + 1] as usize) << lm;
        x[from..to].copy_from_slice(&unit_vector(to - from, seed));
    }
    x
}

fn context(mode: &OpusCustomMode, band: usize, remaining_bits: i32, resynth: bool) -> BandCtx<'_> {
    BandCtx {
        mode,
        band,
        intensity: mode.num_ebands,
        spread: SPREAD_NORMAL,
        tf_change: 0,
        remaining_bits,
        seed: 7,
        theta_round: 0,
        disable_inv: false,
        avoid_split_noise: false,
        resynth,
    }
}

#[test]
fn channel_weights_match_reference_formula() {
    // Energies in twelfths.
    let cases = [(0.0, 0.0), (1.0, 4.0), (4.0, 1.0), (10.0, 10.0), (3.75, 0.25)];

    for &(ex, ey) in &cases {
        let weights = compute_channel_weights((ex * 12.0) as i32, (ey * 12.0) as i32);
        let min_energy = f32::min(ex, ey);
        let reference_ex = ex + min_energy / 3.0;
        let reference_ey = ey + min_energy / 3.0;

        assert!((weights[0] as f32 / 12.0 - reference_ex).abs() <= f32::EPSILON * 4.0);
        assert!((weights[1] as f32 / 12.0 - reference_ey).abs() <= f32::EPSILON * 4.0);
    }
}

#[test]
fn intensity_stereo_matches_reference_weights() {
    let unit = 16384.0_f32;
    let x = vec![0.5_f32, -0.75, 0.25, -0.125];
    let y = vec![0.25_f32, 0.5, -0.5, 0.75];
    let left = 1.8_f32;
    let right = 0.9_f32;

    let norm = (left * left + right * right).sqrt();
    let a1 = left / norm;
    let a2 = right / norm;
    let expected: Vec<f32> = x.iter().zip(&y).map(|(l, r)| a1 * l + a2 * r).collect();

    let mut mixed: Vec<i16> = x.iter().map(|v| (v * unit) as i16).collect();
    let side: Vec<i16> = y.iter().map(|v| (v * unit) as i16).collect();
    // Amplitudes in thousandths.
    intensity_stereo(&mut mixed, &side, (left * 1000.0) as i32, (right * 1000.0) as i32);

    // Coefficients have a resolution of 2^-14.
    for (idx, (&observed, &reference)) in mixed.iter().zip(expected.iter()).enumerate() {
        let observed = f32::from(observed) / unit;
        assert!(
            (observed - reference).abs() <= 3.0 / unit,
            "sample {idx}: observed={observed}, expected={reference}"
        );
    }
}

#[test]
fn stereo_split_matches_reference_transform() {
    let unit = 8192.0_f32;
    let mid = [1.0_f32, -1.5, 0.25, 0.0];
    let side = [0.5_f32, 2.0, -0.75, 1.25];

    let mut expected_mid = mid;
    let mut expected_side = side;
    for idx in 0..mid.len() {
        let m = core::f32::consts::FRAC_1_SQRT_2 * expected_mid[idx];
        let s = core::f32::consts::FRAC_1_SQRT_2 * expected_side[idx];
        expected_mid[idx] = m + s;
        expected_side[idx] = s - m;
    }

    let mut x: Vec<i16> = mid.iter().map(|v| (v * unit) as i16).collect();
    let mut y: Vec<i16> = side.iter().map(|v| (v * unit) as i16).collect();
    stereo_split(&mut x, &mut y);

    // Coefficients have a resolution of 2^-13 here.
    for (observed, reference) in x.iter().zip(expected_mid.iter()) {
        assert!((f32::from(*observed) / unit - reference).abs() <= 2.0 / unit);
    }
    for (observed, reference) in y.iter().zip(expected_side.iter()) {
        assert!((f32::from(*observed) / unit - reference).abs() <= 2.0 / unit);
    }
}

#[test]
fn canonical_mode_is_regular_and_codes_its_angles() {
    let mode = canonical_mode();
    assert!(mode.is_valid());
    assert!(is_regular(&mode));
    assert!(codes_angles(&mode));
    assert!(has_even_bands(&mode));
    let mut odd = canonical_mode();
    odd.e_bands[20] += 1;
    assert!(!has_even_bands(&odd));
}

#[test]
fn symbols_of_every_kind_are_read_back() {
    let mut seed = 21u32;
    for round in 0..40 {
        let count = 5 + 3 * round;
        let mut enc = EcEnc::new(1200);
        let mut dice: Vec<u32> = Vec::new();
        for _ in 0..count {
            dice.push((i32::from(noise(&mut seed)) + 8192) as u32);
        }
        let mut told = Vec::new();
        for (i, &v) in dice.iter().enumerate() {
            match i % 4 {
                0 => enc.encode(v % 7, v % 7 + 1, 7),
                1 => enc.enc_bit_logp(v % 50 == 0, 5),
                2 => enc.enc_bits(v % 512, 9),
                _ => enc.enc_uint(v * 100, 1_700_000),
            }
            told.push(enc.tell_frac());
        }
        let packet = enc.enc_done().expect("the packet has room");
        let mut dec = EcDec::new(&packet);
        for (i, &v) in dice.iter().enumerate() {
            match i % 4 {
                0 => {
                    let slot = dec.decode(7);
                    assert_eq!(slot, v % 7);
                    dec.update(slot, slot + 1, 7);
                }
                1 => assert_eq!(dec.dec_bit_logp(5), v % 50 == 0),
                2 => assert_eq!(dec.dec_bits(9), v % 512),
                _ => assert_eq!(dec.dec_uint(1_700_000), v * 100),
            }
            assert_eq!(dec.tell_frac(), told[i]);
        }
    }
}

#[test]
fn packets_without_room_are_refused() {
    let mut enc = EcEnc::new(4);
    for i in 0..20 {
        enc.enc_uint(i * 7, 200);
    }
    assert!(enc.enc_done().is_none());
}

#[test]
fn snapshots_come_back_to_the_same_point() {
    let mut enc = EcEnc::new(40);
    enc.enc_uint(300, 1000);
    let mut saved = enc.snapshot();
    enc.enc_bits(5, 4);
    enc.encode(1, 2, 3);
    saved.enc_bits(5, 4);
    saved.encode(1, 2, 3);
    assert_eq!(enc.tell_frac(), saved.tell_frac());
    assert_eq!(enc.enc_done(), saved.enc_done());
}

#[test]
fn a_mode_without_bands_is_not_regular() {
    let mut mode = canonical_mode();
    mode.effective_ebands = 0;
    assert!(!is_regular(&mode));
}

#[test]
fn splits_keep_the_energy_of_equal_channels() {
    let mut x = vec![8000i16, -8000, 0];
    let mut y = x.clone();
    stereo_split(&mut x, &mut y);
    assert_eq!(x, vec![11313, -11314, 0]);
    assert_eq!(y, vec![0, 0, 0]);
}

#[test]
fn mixing_weighs_by_amplitude() {
    let mut x = vec![8192i16, -12288, 4096, -2048];
    let y = vec![4096i16, 8192, -8192, 12288];
    intensity_stereo(&mut x, &y, 1800, 900);
    let (a1, a2) = (2.0 / 5.0f32.sqrt(), 1.0 / 5.0f32.sqrt());
    let expected = [
        a1 * 8192.0 + a2 * 4096.0,
        a1 * -12288.0 + a2 * 8192.0,
        a1 * 4096.0 - a2 * 8192.0,
        a1 * -2048.0 + a2 * 12288.0,
    ];
    for (observed, reference) in x.iter().zip(expected) {
        assert!((f32::from(*observed) - reference).abs() < 8.0, "{observed} {reference}");
    }
    assert_eq!(x, vec![9158, -7327, 0, 3663]);
}

#[test]
fn angles_are_measured() {
    let big = vec![16384i16, 0];
    let none = vec![0i16, 0];
    assert!(stereo_itheta(&big, &none, false) < 10);
    assert!(stereo_itheta(&none, &big, false) > 16374);
    let even = stereo_itheta(&big, &big, false);
    assert!((8190..=8194).contains(&even), "{even}");
    // Equal channels have no side, opposite ones no mid.
    assert!(stereo_itheta(&big, &big, true) < 10);
    let opposite = vec![-16384i16, 0];
    assert!(stereo_itheta(&big, &opposite, true) > 16374);
}

#[test]
fn search_places_all_pulses() {
    let mut seed = 1;
    for n in [2usize, 3, 8, 17, 64] {
        for k in [1i32, 2, 5, 16, 40] {
            let x = unit_vector(n, &mut seed);
            let y = op_pvq_search(&x, k);
            assert_eq!(y.iter().map(|v| v.abs()).sum::<i32>(), k);
            for (a, b) in x.iter().zip(&y) {
                assert!(i32::from(*a) * b >= 0);
            }
        }
    }
    assert_eq!(op_pvq_search(&vec![0, 16384, 0, 0], 3), vec![0, 3, 0, 0]);
    assert_eq!(op_pvq_search(&vec![-11585, 11585], 4), vec![-2, 2]);
}

#[test]
fn decoder_rebuilds_coded_vectors() {
    let mut seed = 3;
    for (n, k, blocks) in [(8usize, 5i32, 1usize), (16, 3, 2), (24, 7, 4), (6, 9, 1), (2, 30, 1)] {
        for spread in [SPREAD_NONE, SPREAD_NORMAL] {
            let mut x = unit_vector(n, &mut seed);
            let mut enc = EcEnc::new(64);
            let mask = alg_quant(&mut enc, &mut x, k, spread, blocks, ONE, true);
            let packet = enc.enc_done().expect("the packet has room");
            let mut dec = EcDec::new(&packet);
            let (decoded, decoded_mask) = alg_unquant(&mut dec, n, k, spread, blocks, ONE);
            assert_eq!(decoded, x);
            assert_eq!(decoded_mask, mask);
        }
    }
}

#[test]
fn vectors_are_left_alone_without_reconstruction() {
    let mut seed = 4;
    let x = unit_vector(12, &mut seed);
    let mut y = x.clone();
    let mut enc = EcEnc::new(16);
    let mask = alg_quant(&mut enc, &mut y, 4, SPREAD_NORMAL, 1, ONE, false);
    assert_eq!(x, y);
    assert_eq!(mask, 1);
}

#[test]
fn signs_are_coded_as_long_as_there_are_bits() {
    let mode = canonical_mode();
    let mut enc = EcEnc::new(8);
    let mut ctx = context(&mode, 0, 12, true);
    assert_eq!(encode_sign(&mut enc, &mut ctx, -5), -16384);
    assert_eq!(ctx.remaining_bits, 4);
    assert_eq!(encode_sign(&mut enc, &mut ctx, -5), 16384);
    assert_eq!(ctx.remaining_bits, 4);
    let mut quiet = context(&mode, 0, 12, false);
    assert_eq!(encode_sign(&mut enc, &mut quiet, -5), -5);
}

#[test]
fn bands_are_read_back_at_every_resolution() {
    let mode = canonical_mode();
    let mut seed = 11;
    for (lm, band, blocks, tf, b) in [
        (3i32, 10usize, 1i32, 0i32, 300i32),
        (3, 18, 1, -2, 1600),
        (3, 12, 8, 1, 500),
        (3, 16, 8, 3, 400),
        (2, 15, 4, -1, 700),
        (2, 20, 1, -3, 2500),
        (1, 13, 2, 0, 6),
        (0, 19, 1, 0, 450),
        (0, 0, 1, 0, 16),
    ] {
        let n = ((mode.e_bands[band + 1] - mode.e_bands[band]) as usize) << lm;
        let source = unit_vector(n, &mut seed);
        let low = unit_vector(n, &mut seed);
        let mut ctx = context(&mode, band, 4000, true);
        ctx.tf_change = tf;
        let mut x = source.clone();
        let mut enc = EcEnc::new(600);
        let cm = quant_band(
            &mut enc,
            &mut ctx,
            &mut x,
            n,
            b,
            blocks,
            Some(low.clone()),
            lm,
            ONE,
            (1 << blocks) - 1,
        );
        let packet = enc.enc_done().expect("the packet has room");

        let mut dec = EcDec::new(&packet);
        let mut other = context(&mode, band, 4000, true);
        other.tf_change = tf;
        let mut y = vec![0i16; n];
        let decoded = quant_band_decode(
            &mut dec,
            &mut other,
            &mut y,
            n,
            b,
            blocks,
            Some(low),
            lm,
            ONE,
            (1 << blocks) - 1,
        );
        assert_eq!(x, y, "lm {lm}, band {band}");
        assert_eq!(cm, decoded);
        assert_eq!(ctx.remaining_bits, other.remaining_bits);
        assert_eq!(ctx.seed, other.seed);
    }
}

#[test]
fn silent_channels_are_covered_by_the_other_one() {
    let mode = canonical_mode();
    let mut seed = 5;
    let source = unit_vector(8, &mut seed);
    let mut first = EcEnc::new(100);
    let mut second = EcEnc::new(100);
    let mut x = source.clone();
    let mut y = vec![0i16; 8];
    let mut ctx = context(&mode, 0, 900, true);
    let a = quant_band_stereo(
        &mut first,
        &mut ctx,
        &mut x,
        &mut y,
        8,
        300,
        1,
        None,
        3,
        50,
        0,
        1,
    );
    let mut x2 = source.clone();
    let mut y2 = source;
    let mut ctx2 = context(&mode, 0, 900, true);
    let b = quant_band_stereo(
        &mut second,
        &mut ctx2,
        &mut x2,
        &mut y2,
        8,
        300,
        1,
        None,
        3,
        50,
        0,
        1,
    );
    assert_eq!(a, b);
    assert_eq!(x, x2);
    assert_eq!(y, y2);
}

/// Settings of one frame.
struct Frame {
    stereo: bool,
    dual: bool,
    short_blocks: bool,
    intensity: usize,
    lm: i32,
    bytes: usize,
    complexity: i32,
    share: i32,
}

/// Encodes and decodes a frame; the reconstruction of both sides, if the
/// encoder has one, is compared.
fn frame_round_trip(f: &Frame, mut seed: u32) {
    let mode = canonical_mode();
    let lm = f.lm as usize;
    let len = mode.short_mdct_size << lm;
    let pulses: Vec<i32> = (0..mode.num_ebands)
        .map(|i| {
            let width = ((mode.e_bands[i + 1] - mode.e_bands[i]) as i32) << lm;
            width * f.share / 4 + 9 * (i as i32 % 3)
        })
        .collect();
    let tf_res: Vec<i32> = (0..mode.num_ebands)
        .map(|i| if f.short_blocks { (i as i32 % 3) - 1 } else { -(i as i32 % 2) })
        .collect();
    let config = BandsConfig {
        mode: &mode,
        start: 0,
        end: mode.num_ebands,
        stereo: f.stereo,
        pulses: &pulses,
        short_blocks: f.short_blocks,
        spread: SPREAD_NORMAL,
        intensity: f.intensity,
        tf_res: &tf_res,
        total_bits: (f.bytes * 64) as i32,
        lm: f.lm,
        coded_bands: mode.num_ebands,
        disable_inv: false,
    };
    let mut x = spectrum(&mode, lm, len, &mut seed);
    let mut y = if f.stereo { spectrum(&mode, lm, len, &mut seed) } else { Vec::new() };
    let band_e: Vec<i32> = (0..2 * mode.num_ebands).map(|i| 500 + 70 * (i as i32 % 11)).collect();
    let mut masks = vec![0u8; 2 * mode.num_ebands];
    let mut enc = EcEnc::new(f.bytes);
    let new_seed = quant_all_bands(
        &config,
        &mut enc,
        &mut x,
        &mut y,
        &mut masks,
        &band_e,
        99,
        0,
        f.dual,
        f.complexity,
    );
    let written = enc.tell_frac();
    let packet = enc.enc_done().expect("the packet has room");

    let mut dec = EcDec::new(&packet);
    let mut x2 = vec![0i16; len];
    let mut y2 = if f.stereo { vec![0i16; len] } else { Vec::new() };
    let mut masks2 = vec![0u8; 2 * mode.num_ebands];
    let seed2 =
        quant_all_bands_decode(&config, &mut dec, &mut x2, &mut y2, &mut masks2, 99, 0, f.dual);
    assert_eq!(dec.tell_frac(), written);
    if f.stereo && !f.dual && f.complexity >= 8 {
        assert_eq!(x, x2);
        assert_eq!(y, y2);
        assert_eq!(masks, masks2);
        assert_eq!(new_seed, seed2);
    }
}

#[test]
fn reconstruction_is_what_the_decoder_sees() {
    for (i, lm) in [3, 2, 1, 0, 3].into_iter().enumerate() {
        for short_blocks in [false, true] {
            let f = Frame {
                stereo: true,
                dual: false,
                short_blocks,
                intensity: if i == 4 { 12 } else { 21 },
                lm,
                bytes: 300,
                complexity: 8,
                share: 2 + i as i32,
            };
            frame_round_trip(&f, 17 + i as u32);
        }
    }
}

#[test]
fn frames_are_followed_without_reconstruction() {
    for (i, lm) in [3, 2, 1, 0].into_iter().enumerate() {
        for (stereo, dual) in [(false, false), (true, false), (true, true)] {
            for short_blocks in [false, true] {
                let f = Frame {
                    stereo,
                    dual,
                    short_blocks,
                    intensity: 15,
                    lm,
                    bytes: 250,
                    complexity: 5,
                    share: 3,
                };
                frame_round_trip(&f, 40 + i as u32);
            }
        }
    }
}

#[test]
fn bands_outside_the_mode_are_not_encoded() {
    let mode = canonical_mode();
    let config = BandsConfig {
        mode: &mode,
        start: 5,
        end: 5,
        stereo: false,
        pulses: &[],
        short_blocks: false,
        spread: SPREAD_NORMAL,
        intensity: 0,
        tf_res: &[],
        total_bits: 100,
        lm: 0,
        coded_bands: 0,
        disable_inv: false,
    };
    let mut enc = EcEnc::new(10);
    let mut x = vec![1i16, 2];
    let mut y = Vec::new();
    let mut masks = vec![9u8];
    let seed =
        quant_all_bands(&config, &mut enc, &mut x, &mut y, &mut masks, &[], 3, 0, false, 10);
    assert_eq!(seed, 3);
    assert_eq!(x, vec![1, 2]);
    assert_eq!(masks, vec![9]);
    assert_eq!(enc.tell_frac(), 8);
}
