use oporus::all_bands::{quant_all_bands_decode, BandsConfig};
use oporus::comb::CombParameters;
use oporus::concealment::{celt_decode_lost, celt_plc_pitch_search, prefilter_and_fold};
use oporus::decode::{celt_decode_with_ec, opus_custom_decode, opus_custom_decode24};
use oporus::decoder::{
    opus_custom_decoder_create, opus_custom_decoder_ctl, CeltDecodeError, CeltDecoderAlloc,
    CeltDecoderCtlError, DecoderCtlRequest, OpusCustomDecoder, DECODE_BUFFER_SIZE,
    PLC_PITCH_LAG_MAX,
};
use oporus::fixed::Q31_ONE;
use oporus::frame::prepare_frame;
use oporus::mdct::MdctLookup;
use oporus::mode::{OpusCustomMode, PulseCache};
use oporus::mode_tables::canonical_mode;
use oporus::pvq::renormalise_vector;
use oporus::synthesis::{deemphasise_channel, inverse_transform, Deemphasis, SynthesisInput};

/// Unit of signals.
const SIG: f32 = 4096.0;

/// Unit of window coefficients and gains.
const Q15: f32 = 32768.0;

const PI: f32 = std::f32::consts::PI;

const FRAME_SIZE: usize = 960;

fn to_sig(x: &[f32]) -> Vec<i32> {
    x.iter().map(|v| (v * SIG).round() as i32).collect()
}

fn sine(period: i32, phase: f32) -> Vec<f32> {
    (0..DECODE_BUFFER_SIZE).map(|i| (2.0 * PI * (i as f32) / period as f32 + phase).sin()).collect()
}

#[test]
fn celt_plc_pitch_search_detects_mono_period() {
    let target_period = 320i32;
    let channel = to_sig(&sine(target_period, 0.0));
    let pitch = celt_plc_pitch_search(&channel, DECODE_BUFFER_SIZE, 1);
    let doubled = target_period * 2;
    let matches = (pitch - target_period).abs() <= 2
        || (doubled <= PLC_PITCH_LAG_MAX && (pitch - doubled).abs() <= 2);
    assert!(matches, "pitch {pitch} deviates from target {target_period}");
}

#[test]
fn celt_plc_pitch_search_handles_stereo_average() {
    let target_period = 480i32;
    let mut mem = to_sig(&sine(target_period, 0.0));
    mem.extend(to_sig(&sine(target_period, PI / 3.0)));
    let pitch = celt_plc_pitch_search(&mem, DECODE_BUFFER_SIZE, 2);
    assert!((pitch - target_period).abs() <= 4, "pitch {pitch}");
}

fn periodic(len: usize, period: usize, amp: i32, phase: usize, invert: bool) -> Vec<i32> {
    let half = period / 2;
    (0..len)
        .map(|i| {
            let pos = (i + phase) % period;
            let tri = if pos < half { pos } else { period - pos };
            let centered = (tri as i32 * 2) - half as i32;
            let value = (centered * amp) / half as i32;
            if invert {
                -value
            } else {
                value
            }
        })
        .collect()
}

fn periodic_unit(amp: i32, phase: usize, invert: bool) -> Vec<i32> {
    let wave = periodic(DECODE_BUFFER_SIZE, 96, amp, phase, invert);
    let floats: Vec<f32> = wave.iter().map(|v| *v as f32 / 32768.0).collect();
    to_sig(&floats)
}

#[test]
fn celt_plc_pitch_search_matches_ctest_periodic_mono_shape() {
    let mono = periodic_unit(14_000, 0, false);
    let pitch = celt_plc_pitch_search(&mono, DECODE_BUFFER_SIZE, 1);
    let pitch_again = celt_plc_pitch_search(&mono, DECODE_BUFFER_SIZE, 1);
    assert_eq!(pitch, pitch_again, "pitch search should be deterministic");
    assert!((1..=PLC_PITCH_LAG_MAX).contains(&pitch), "out-of-range pitch {pitch}");
}

#[test]
fn celt_plc_pitch_search_matches_ctest_periodic_stereo_shape() {
    let mut mem = periodic_unit(14_000, 0, false);
    mem.extend(periodic_unit(11_500, 23, true));
    let pitch = celt_plc_pitch_search(&mem, DECODE_BUFFER_SIZE, 2);
    let pitch_again = celt_plc_pitch_search(&mem, DECODE_BUFFER_SIZE, 2);
    assert_eq!(pitch, pitch_again, "pitch search should be deterministic");
    assert!((1..=PLC_PITCH_LAG_MAX).contains(&pitch), "out-of-range pitch {pitch}");
}

const FOLD_WINDOW: [f32; 4] = [0.25, 0.5, 0.5, 0.25];

fn fold_mode() -> OpusCustomMode {
    OpusCustomMode {
        sample_rate: 48_000,
        overlap: 4,
        num_ebands: 1,
        effective_ebands: 1,
        pre_emphasis: [0; 4],
        e_bands: vec![0, 1],
        max_lm: 0,
        num_short_mdcts: 1,
        short_mdct_size: 8,
        num_alloc_vectors: 1,
        alloc_vectors: vec![0; 1],
        log_n: vec![0; 1],
        window: FOLD_WINDOW.iter().map(|v| (v * Q15) as i16).collect(),
        mdct: MdctLookup { trig: Vec::new(), factors: Vec::new(), twiddles: Vec::new() },
        cache: PulseCache { index: vec![0; 2], bits: vec![0; 2], caps: vec![0; 2] },
    }
}

fn check_folded(
    decoder: &OpusCustomDecoder<'_>,
    baseline: &[i32],
    parameters: &CombParameters,
    n: usize,
) {
    let overlap = decoder.overlap;
    let stride = DECODE_BUFFER_SIZE + overlap;
    let start = DECODE_BUFFER_SIZE - n;
    for channel in 0..decoder.channels {
        let offset = channel * stride;
        let before = baseline[offset..offset + stride].to_vec();
        let filtered = parameters.comb_filter(&before, start, overlap, &Vec::new(), 0);
        for i in 0..overlap / 2 {
            let expected = FOLD_WINDOW[i] * filtered[overlap - 1 - i] as f32
                + FOLD_WINDOW[overlap - 1 - i] * filtered[i] as f32;
            let actual = decoder.decode_mem[offset + start + i] as f32;
            assert!((expected - actual).abs() / SIG <= 2e-3, "channel {channel} fold {i}");
        }
        for i in overlap / 2..overlap {
            assert_eq!(decoder.decode_mem[offset + start + i], before[start + i]);
        }
    }
}

#[test]
fn prefilter_and_fold_rebuilds_overlap_tail() {
    let mode = fold_mode();
    let mut alloc = CeltDecoderAlloc::new(&mode, 1);
    let mut decoder = alloc.init_decoder(&mode, 1, 1).unwrap();
    let stride = DECODE_BUFFER_SIZE + mode.overlap;
    assert_eq!(decoder.decode_mem.len(), stride);
    decoder.decode_mem =
        to_sig(&(0..stride).map(|i| (i as f32) * 0.0002).collect::<Vec<f32>>());
    let baseline = decoder.decode_mem.clone();

    prefilter_and_fold(&mut decoder, 32);

    let start = DECODE_BUFFER_SIZE - 32;
    for i in 0..2 {
        let expected = FOLD_WINDOW[i] * baseline[start + 3 - i] as f32
            + FOLD_WINDOW[3 - i] * baseline[start + i] as f32;
        assert!((expected - decoder.decode_mem[start + i] as f32).abs() / SIG <= 2e-3);
    }
    for i in 2..4 {
        assert_eq!(decoder.decode_mem[start + i], baseline[start + i]);
    }
}

#[test]
fn prefilter_and_fold_filters_overlap_tail_with_gain() {
    let mode = fold_mode();
    let mut alloc = CeltDecoderAlloc::new(&mode, 1);
    let mut decoder = alloc.init_decoder(&mode, 1, 1).unwrap();
    let stride = DECODE_BUFFER_SIZE + mode.overlap;
    decoder.decode_mem =
        to_sig(&(0..stride).map(|i| (i as f32) * 0.0002).collect::<Vec<f32>>());
    let baseline = decoder.decode_mem.clone();
    decoder.postfilter_gain_old = (0.2 * Q15) as i16;
    decoder.postfilter_gain = (0.35 * Q15) as i16;
    decoder.postfilter_period_old = 24;
    decoder.postfilter_period = 32;
    decoder.postfilter_tapset_old = 0;
    decoder.postfilter_tapset = 1;

    prefilter_and_fold(&mut decoder, 64);

    let parameters = CombParameters {
        period_from: 24,
        period_to: 32,
        gain_from: -decoder.postfilter_gain_old,
        gain_to: -decoder.postfilter_gain,
        tapset_from: 0,
        tapset_to: 1,
    };
    check_folded(&decoder, &baseline, &parameters, 64);
    let start = DECODE_BUFFER_SIZE - 64;
    assert_ne!(decoder.decode_mem[start], baseline[start]);
}

#[test]
fn prefilter_and_fold_handles_stereo_channels_independently() {
    let mode = fold_mode();
    let mut alloc = CeltDecoderAlloc::new(&mode, 2);
    let mut decoder = alloc.init_decoder(&mode, 2, 2).unwrap();
    let stride = DECODE_BUFFER_SIZE + mode.overlap;
    assert_eq!(decoder.decode_mem.len(), 2 * stride);
    let mut mem = to_sig(&(0..stride).map(|i| (i as f32) * 0.0002).collect::<Vec<f32>>());
    mem.extend(to_sig(&(0..stride).map(|i| -0.3 + (i as f32) * 0.00025).collect::<Vec<f32>>()));
    decoder.decode_mem = mem.clone();
    decoder.postfilter_gain_old = (0.1 * Q15) as i16;
    decoder.postfilter_gain = (0.3 * Q15) as i16;
    decoder.postfilter_period_old = 20;
    decoder.postfilter_period = 28;
    decoder.postfilter_tapset_old = 2;
    decoder.postfilter_tapset = 1;

    prefilter_and_fold(&mut decoder, 48);

    let parameters = CombParameters {
        period_from: 20,
        period_to: 28,
        gain_from: -decoder.postfilter_gain_old,
        gain_to: -decoder.postfilter_gain,
        tapset_from: 2,
        tapset_to: 1,
    };
    check_folded(&decoder, &mem, &parameters, 48);
}

#[test]
fn comb_filter_picks_up_one_period() {
    let mut x = vec![0i32; 64];
    x[20] = 100_000;
    let parameters = CombParameters {
        period_from: 15,
        period_to: 15,
        gain_from: 16384,
        gain_to: 16384,
        tapset_from: 0,
        tapset_to: 0,
    };
    let y = parameters.comb_filter(&x, 30, 10, &Vec::new(), 0);
    // Half of the tap gains 0.3066, 0.2170 and 0.1296 around the period.
    assert_eq!(y[3..8], [6480, 10851, 15331, 10851, 6480]);
    assert_eq!(y[0], -1);
    assert_eq!(y[9], -1);
}

#[test]
fn celt_decode_lost_noise_branch_updates_state() {
    let mode = canonical_mode();
    let mut alloc = CeltDecoderAlloc::new(&mode, 1);
    let mut decoder = alloc.as_decoder(&mode, 1, 1);
    decoder.downsample = 1;
    decoder.end_band = mode.num_ebands as i32;
    decoder.loss_duration = 0;
    decoder.skip_plc = true;
    decoder.prefilter_and_fold = true;
    decoder.rng = 0x1234_5678;
    for e in &mut decoder.background_log_e {
        *e = -8 << 24;
    }
    for e in &mut decoder.old_ebands {
        *e = -4 << 24;
    }

    celt_decode_lost(&mut decoder, mode.short_mdct_size, 0);

    assert!(decoder.skip_plc);
    assert!(!decoder.prefilter_and_fold);
    assert_ne!(decoder.rng, 0x1234_5678);
    assert_eq!(decoder.loss_duration, 1);
    // The energies fall by one and a half, towards a background that is lower.
    assert_eq!(decoder.old_ebands[0], -11 << 23);
}

#[test]
fn celt_decode_lost_pitch_branch_generates_output() {
    let mode = canonical_mode();
    let mut alloc = CeltDecoderAlloc::new(&mode, 1);
    let mut decoder = alloc.as_decoder(&mode, 1, 1);
    decoder.downsample = 1;
    decoder.end_band = mode.num_ebands as i32;
    decoder.loss_duration = 2;
    decoder.skip_plc = false;
    decoder.last_pitch_index = 200;
    decoder.prefilter_and_fold = false;
    let len = decoder.decode_mem.len();
    decoder.decode_mem =
        periodic(len, 96, 14_000, 0, false).iter().map(|v| v * 4096).collect();

    let n = mode.short_mdct_size;
    celt_decode_lost(&mut decoder, n, 0);

    assert!(decoder.prefilter_and_fold);
    assert!(!decoder.skip_plc);
    assert_eq!(decoder.loss_duration, 3);
    let start = DECODE_BUFFER_SIZE - n;
    assert!(decoder.decode_mem[start..start + n].iter().any(|v| *v != 0));
}

fn fnv1a(mut hash: u32, bytes: &[u8]) -> u32 {
    for byte in bytes {
        hash = (hash ^ u32::from(*byte)).wrapping_mul(16_777_619);
    }
    hash
}

fn hash_words(data: &[i16]) -> u32 {
    let mut hash = 2_166_136_261u32;
    for v in data {
        hash = fnv1a(hash, &v.to_le_bytes());
    }
    hash
}

fn hash_sig(data: &[i32]) -> u32 {
    let mut hash = 2_166_136_261u32;
    for v in data {
        hash = fnv1a(hash, &v.to_le_bytes());
    }
    hash
}

fn tail_hash(decoder: &OpusCustomDecoder<'_>) -> u32 {
    let stride = DECODE_BUFFER_SIZE + decoder.overlap;
    let mut hash = 2_166_136_261u32;
    for channel in 0..decoder.channels {
        let base = channel * stride + DECODE_BUFFER_SIZE - FRAME_SIZE;
        hash ^= hash_sig(&decoder.decode_mem[base..base + FRAME_SIZE + decoder.overlap]);
        hash = hash.wrapping_mul(16_777_619);
    }
    hash
}

fn parse_hex(hex: &str) -> Vec<u8> {
    (0..hex.len()).step_by(2).map(|i| u8::from_str_radix(&hex[i..i + 2], 16).unwrap()).collect()
}

const MONO_PACKETS: [&str; 2] = [
    "f87b5ade71db5cb86cc9a42d87bbde1e71f2afd45d5a88bb16581b72a6ca16de9eae4b",
    "f8afe90df1a3c02ade92c45dbb015dd97f46a387235b2befcd07fe0d3f70757d6ab161",
];

const STEREO_PACKETS: [&str; 2] = [
    "fc7f06c5823a668788d0fc75ad6cc856faca7625c7fc39ac0bb9a60782cca363b2ac94cc2ead16432c2db2b60c4a1bf5d8b0db4cfb5dcecea0c7e319dc388d203aab9cada1d8fca1735f2273de589eb62975a41340011c8c8752c5848f073f0c8b4b7df18f482a9b96b4f48b988711a3c51703fcd97b59cb338539cdbc007ede6ea8ff6089adae678bb6f91ee118b045bd6b41c255a773f962f87ed3bcf22326",
    "fcb4050bfdbad3a7e0e30e26a55e15a50a352c8324108e1b086d04ea69125c1bd5c099b59cae0bf512802803d8bedc99b2ea3ae09ddcadb681924fedb949c16f5d73330cdf509498645b0dbb97b7d8ff3d51ee030b70f88d581a993441324991f4a1e31f8137687fc9b8a9c56298d8657a9437028a34c2a6c8d1a276f73df195974263dad177f3300c027683b7115ac0a91d33b4a3bdb51c79b0041d720d07a1",
];

fn prime(decoder: &mut OpusCustomDecoder<'_>, decoded: &mut [i16], packets: &[&str]) -> i32 {
    let mut pitch = 0;
    for hex in packets {
        let packet = parse_hex(hex);
        let len = opus_custom_decode(decoder, Some(&packet), decoded, FRAME_SIZE).unwrap();
        assert_eq!(len, FRAME_SIZE);
        opus_custom_decoder_ctl(decoder, DecoderCtlRequest::GetPitch(&mut pitch)).unwrap();
        if pitch > 0 {
            return pitch;
        }
    }
    panic!("failed to prime decoder pitch after {} frames", packets.len());
}

#[test]
fn decoder_plc_iir_matches_ctest_vectors() {
    let mode = canonical_mode();
    {
        let mut owned = opus_custom_decoder_create(&mode, 1).unwrap();
        let decoder = owned.decoder();
        assert_eq!(
            opus_custom_decoder_ctl(decoder, DecoderCtlRequest::SetComplexity(11)).unwrap_err(),
            CeltDecoderCtlError::InvalidArgument
        );
        let mut decoded = vec![0i16; FRAME_SIZE];
        assert!(prime(decoder, &mut decoded, &MONO_PACKETS) > 0);

        let baseline_lpc = hash_words(&decoder.lpc);
        let baseline_tail = tail_hash(decoder);
        assert!(opus_custom_decode(decoder, Some(&[0u8]), &mut decoded, FRAME_SIZE).is_err());
        assert_eq!(hash_words(&decoder.lpc), baseline_lpc);
        assert_eq!(tail_hash(decoder), baseline_tail);
        assert!(opus_custom_decode(decoder, None, &mut decoded, FRAME_SIZE - 1).is_err());
        assert_eq!(hash_words(&decoder.lpc), baseline_lpc);
        assert_eq!(tail_hash(decoder), baseline_tail);

        let mut lpc = [0u32; 2];
        let mut tail = [0u32; 2];
        let mut pcm = [0u32; 2];
        for loss in 0..2 {
            let len = opus_custom_decode(decoder, None, &mut decoded, FRAME_SIZE).unwrap();
            assert_eq!(len, FRAME_SIZE);
            lpc[loss] = hash_words(&decoder.lpc);
            tail[loss] = tail_hash(decoder);
            pcm[loss] = hash_words(&decoded);
            assert!(decoded.iter().any(|v| *v != 0));
        }
        assert_eq!(lpc, [0x5159_7095u32, 0x5159_7095]);
        assert_eq!(tail, [0xdfaa_14e9u32, 0xefd8_0164]);
        assert_eq!(pcm, [0xc1b6_b08du32, 0xc2a4_65ed]);

        opus_custom_decoder_ctl(decoder, DecoderCtlRequest::ResetState).unwrap();
        opus_custom_decoder_ctl(decoder, DecoderCtlRequest::SetStartBand(17)).unwrap();
        let len = opus_custom_decode(decoder, None, &mut decoded, FRAME_SIZE).unwrap();
        assert_eq!(len, FRAME_SIZE);
        assert!(decoded.iter().any(|v| *v != 0));
        assert_eq!(hash_words(&decoder.lpc), 0xc655_ff85);
        assert_eq!(tail_hash(decoder), 0x05e4_dd21);
    }
    {
        let mut owned = opus_custom_decoder_create(&mode, 2).unwrap();
        let decoder = owned.decoder();
        let mut decoded = vec![0i16; FRAME_SIZE * 2];
        assert!(opus_custom_decode(decoder, Some(&[0u8]), &mut decoded, FRAME_SIZE - 1).is_err());
        assert!(prime(decoder, &mut decoded, &STEREO_PACKETS) > 0);

        let baseline_lpc = hash_words(&decoder.lpc);
        let baseline_tail = tail_hash(decoder);
        assert!(opus_custom_decode(decoder, Some(&[0u8]), &mut decoded, FRAME_SIZE).is_err());
        assert_eq!(hash_words(&decoder.lpc), baseline_lpc);
        assert_eq!(tail_hash(decoder), baseline_tail);

        let mut lpc = [0u32; 2];
        let mut tail = [0u32; 2];
        let mut pcm = [0u32; 2];
        for loss in 0..2 {
            let len = opus_custom_decode(decoder, None, &mut decoded, FRAME_SIZE).unwrap();
            assert_eq!(len, FRAME_SIZE);
            lpc[loss] = hash_words(&decoder.lpc);
            tail[loss] = tail_hash(decoder);
            pcm[loss] = hash_words(&decoded);
            assert!(decoded.iter().any(|v| *v != 0));
        }
        assert_eq!(lpc, [0xd31a_6449u32, 0xd31a_6449]);
        assert_eq!(tail, [0x7bf7_ff22u32, 0xa5d2_03d2]);
        assert_eq!(pcm, [0x03cb_2a69u32, 0x16d3_9455]);
    }
}

#[test]
fn debug_single_packet_actual_decode_trace() {
    let mode = canonical_mode();
    let packet = parse_hex(MONO_PACKETS[0]);
    let mut owned = opus_custom_decoder_create(&mode, 1).unwrap();
    let decoder = owned.decoder();
    let mut pcm = vec![0i16; FRAME_SIZE];
    let decoded = opus_custom_decode(decoder, Some(&packet), &mut pcm, FRAME_SIZE).unwrap();
    assert_eq!(decoded, FRAME_SIZE);
    assert_eq!(decoder.rng, 0x7035_4c00);
}

#[test]
fn debug_single_stereo_packet_actual_decode_trace() {
    let mode = canonical_mode();
    let packet = parse_hex(STEREO_PACKETS[0]);
    {
        let mut owned = opus_custom_decoder_create(&mode, 2).unwrap();
        let decoder = owned.decoder();
        let seed = decoder.rng;
        let frame = prepare_frame(decoder, &packet, FRAME_SIZE, None).unwrap();
        let body = frame.body.unwrap();
        let config = BandsConfig {
            mode: &mode,
            start: 0,
            end: frame.end,
            stereo: true,
            pulses: &body.allocation.pulses,
            short_blocks: body.is_transient,
            spread: body.spread_decision,
            intensity: body.allocation.intensity,
            tf_res: &body.tf_res,
            total_bits: (frame.payload.len() * 64) as i32 - body.anti_collapse_rsv,
            lm: frame.lm as i32,
            coded_bands: body.allocation.coded,
            disable_inv: false,
        };
        let mut dec = body.range_decoder;
        let mut x = vec![0i16; frame.n];
        let mut y = vec![0i16; frame.n];
        let mut masks = vec![0u8; 2 * mode.num_ebands];
        quant_all_bands_decode(
            &config,
            &mut dec,
            &mut x,
            &mut y,
            &mut masks,
            seed,
            body.allocation.balance,
            body.allocation.dual,
        );
        let energy: i64 = x.iter().map(|v| i64::from(*v) * i64::from(*v)).sum();
        assert!(energy > 0);
        assert!(y.iter().any(|v| *v != 0));
    }
    let mut owned = opus_custom_decoder_create(&mode, 2).unwrap();
    let decoder = owned.decoder();
    let mut pcm = vec![0i16; FRAME_SIZE * 2];
    let decoded = opus_custom_decode(decoder, Some(&packet), &mut pcm, FRAME_SIZE).unwrap();
    assert_eq!(decoded, FRAME_SIZE);
    assert!(pcm.iter().any(|v| *v != 0));
}

#[test]
fn decoder_noise_renorm_runtime_matches_ctest_vectors() {
    let mut zeros = vec![0i16; 8];
    renormalise_vector(&mut zeros, Q31_ONE);
    assert_eq!(zeros, [0; 8]);

    let mut mixed = vec![1000i16, -2000, 3000, -4000, 500, -600, 700, -800];
    renormalise_vector(&mut mixed, Q31_ONE);
    assert_eq!(mixed, [2908, -5816, 8724, -11632, 1454, -1745, 2036, -2326]);

    let mut large = vec![30000i16, -30000, 20000, -10000];
    renormalise_vector(&mut large, Q31_ONE);
    assert_eq!(large, [10248, -10248, 6832, -3416]);

    let mut half_gain = vec![30000i16, -30000, 20000, -10000];
    renormalise_vector(&mut half_gain, 1 << 30);
    assert_eq!(half_gain, [5124, -5124, 3416, -1708]);
}

/// Unit of the samples in the de-emphasis tests.
const FINE: f32 = 16_777_216.0;

fn to_fine(x: &[f32]) -> Vec<i32> {
    x.iter().map(|v| (v * FINE).round() as i32).collect()
}

fn reference_deemphasis(samples: &[f32], coef: f32, mem: f32) -> (Vec<f32>, f32) {
    let mut m = mem;
    let mut out = Vec::new();
    for sample in samples {
        let tmp = sample + m + 1.0e-30;
        out.push(tmp);
        m = coef * tmp;
    }
    (out, m)
}

#[test]
fn deemphasis_stereo_simple_matches_reference() {
    let left = [0.25_f32, -0.5, 0.75];
    let right = [-0.125_f32, 0.5, -0.25];
    let mem = [0.1_f32, -0.2];
    let filter = Deemphasis { coef0: 16384, coef1: 0, coef3: 0 };
    for (samples, m) in [(left, mem[0]), (right, mem[1])] {
        let (out, last) =
            deemphasise_channel(&filter, &to_fine(&samples), (m * FINE).round() as i32, 1);
        let (expected, expected_last) = reference_deemphasis(&samples, 0.5, m);
        assert_eq!(out.len(), 3);
        for (v, e) in out.iter().zip(expected.iter()) {
            assert!((*v as f32 / FINE / Q15 - e / Q15).abs() < 1e-6);
        }
        assert!((last as f32 / FINE - expected_last).abs() < 1e-6);
    }
}

#[test]
fn deemphasis_downsamples_with_accumulation() {
    let samples = [0.5_f32, -0.25, 0.75, -0.5];
    let filter = Deemphasis { coef0: 8192, coef1: 0, coef3: 0 };
    let (out, last) = deemphasise_channel(&filter, &to_fine(&samples), 0, 2);
    let (scratch, m) = reference_deemphasis(&samples, 0.25, 0.0);
    let pcm = [0.1_f32, -0.2];
    let expected = [0.1_f32 + scratch[0] / Q15, -0.2 + scratch[2] / Q15];
    assert_eq!(out.len(), 2);
    for i in 0..2 {
        let actual = pcm[i] + out[i] as f32 / FINE / Q15;
        assert!((actual - expected[i]).abs() < 1e-6);
    }
    assert!((last as f32 / FINE - m).abs() < 1e-6);
}

#[test]
fn deemphasis_of_the_full_filter() {
    // With feed-forward the output is scaled by the third coefficient, in Q13.
    let filter = Deemphasis { coef0: 16384, coef1: 8192, coef3: 8192 };
    let (out, last) = deemphasise_channel(&filter, &vec![4096, 8192], 0, 1);
    assert_eq!(out, [4096, 8192 + 1024]);
    assert_eq!(last, (8192 + 1024) / 2 - 2048);
}

#[test]
fn celt_synthesis_compare_output() {
    let mode = canonical_mode();
    let n = mode.short_mdct_size;
    let x: Vec<i16> = (0..n).map(|i| ((i as f32 * 0.01 - 0.5) * 16384.0) as i16).collect();
    let old_band_e: Vec<i32> =
        (0..mode.num_ebands).map(|i| ((0.5 + i as f32 * 0.01) * 16_777_216.0) as i32).collect();
    let input = SynthesisInput {
        mode: &mode,
        x: &x,
        old_band_e: &old_band_e,
        start: 0,
        eff_end: mode.effective_ebands,
        coded_channels: 1,
        lm: 0,
        downsample: 1,
        silence: false,
    };
    let freq = input.find_output(1, 0);
    assert_eq!(freq.len(), n);
    let mut mem = vec![0i32; n + mode.overlap];
    inverse_transform(&mode, &freq, &mut mem, 0, 1, n, mode.max_lm);
    assert!(mem[..mode.overlap / 2 + n].iter().any(|v| *v != 0));
    assert!(mem[mode.overlap / 2 + n..].iter().all(|v| *v == 0));
}

#[test]
fn a_decoder_refuses_short_buffers_and_long_packets() {
    let mode = canonical_mode();
    let mut owned = opus_custom_decoder_create(&mode, 1).unwrap();
    let decoder = owned.decoder();
    let packet = parse_hex(MONO_PACKETS[0]);
    let mut short = vec![7i16; FRAME_SIZE - 1];
    assert_eq!(
        opus_custom_decode(decoder, Some(&packet), &mut short, FRAME_SIZE),
        Err(CeltDecodeError::BadArgument)
    );
    assert!(short.iter().all(|v| *v == 7));
    let mut pcm = vec![0i16; FRAME_SIZE];
    let oversize = vec![0u8; 1277];
    assert!(opus_custom_decode(decoder, Some(&oversize), &mut pcm, FRAME_SIZE).is_err());
}

#[test]
fn losses_are_counted_until_a_frame_arrives() {
    let mode = canonical_mode();
    let mut owned = opus_custom_decoder_create(&mode, 1).unwrap();
    let decoder = owned.decoder();
    let mut pcm = vec![0i16; FRAME_SIZE];
    let packet = parse_hex(MONO_PACKETS[0]);
    opus_custom_decode(decoder, Some(&packet), &mut pcm, FRAME_SIZE).unwrap();
    assert_eq!(decoder.loss_duration, 0);
    for lost in 1..7 {
        opus_custom_decode(decoder, None, &mut pcm, FRAME_SIZE).unwrap();
        assert_eq!(decoder.loss_duration, 8 * lost);
        // From the sixth lost frame on there is noise.
        assert_eq!(decoder.skip_plc, lost > 5);
    }
    opus_custom_decode(decoder, Some(&packet), &mut pcm, FRAME_SIZE).unwrap();
    assert_eq!(decoder.loss_duration, 0);
}

#[test]
fn words_of_24_bits_hold_eight_more_bits() {
    let mode = canonical_mode();
    let packet = parse_hex(MONO_PACKETS[0]);
    let mut first = opus_custom_decoder_create(&mode, 1).unwrap();
    let mut second = opus_custom_decoder_create(&mode, 1).unwrap();
    let mut pcm16 = vec![0i16; FRAME_SIZE];
    let mut pcm24 = vec![0i32; FRAME_SIZE];
    opus_custom_decode(first.decoder(), Some(&packet), &mut pcm16, FRAME_SIZE).unwrap();
    opus_custom_decode24(second.decoder(), Some(&packet), &mut pcm24, FRAME_SIZE).unwrap();
    for i in 0..FRAME_SIZE {
        assert!((pcm24[i] - 256 * i32::from(pcm16[i])).abs() <= 128);
    }
    assert_eq!(first.decoder().decode_mem, second.decoder().decode_mem);
}

#[test]
fn samples_can_be_added_to_a_buffer() {
    let mode = canonical_mode();
    let packet = parse_hex(MONO_PACKETS[0]);
    let mut first = opus_custom_decoder_create(&mode, 1).unwrap();
    let mut second = opus_custom_decoder_create(&mode, 1).unwrap();
    let mut plain = vec![0i32; FRAME_SIZE];
    let mut added = vec![1000i32; FRAME_SIZE];
    celt_decode_with_ec(first.decoder(), Some(&packet), &mut plain, FRAME_SIZE, &mut None, false)
        .unwrap();
    celt_decode_with_ec(second.decoder(), Some(&packet), &mut added, FRAME_SIZE, &mut None, true)
        .unwrap();
    for i in 0..FRAME_SIZE {
        assert_eq!(added[i], plain[i] + 1000);
    }
}
