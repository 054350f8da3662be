use oporus::decoder::{
    celt_decoder_get_size, celt_decoder_init, opus_custom_decoder_create,
    opus_custom_decoder_ctl, opus_custom_decoder_destroy, opus_custom_decoder_get_size,
    opus_custom_decoder_init, validate_celt_decoder, validate_channel_layout, CeltDecodeError,
    CeltDecoderAlloc, CeltDecoderCtlError, CeltDecoderInitError, DecoderCtlRequest,
    OwnedCeltDecoder, DECODE_BUFFER_SIZE, LPC_ORDER, MAX_CHANNELS, SILENCE_LOG_E,
};
use oporus::frame::{prepare_frame, tf_decode};
use oporus::mdct::MdctLookup;
use oporus::mode::{OpusCustomMode, PulseCache};
use oporus::mode_tables::canonical_mode;
use oporus::plc::{plc_decay_terms, plc_ratio_terms};
use oporus::range_decoder::EcDec;

fn test_mode(sample_rate: i32) -> OpusCustomMode {
    OpusCustomMode {
        sample_rate,
        overlap: 4,
        num_ebands: 2,
        effective_ebands: 2,
        pre_emphasis: [0; 4],
        e_bands: vec![0, 2, 5],
        max_lm: 0,
        num_short_mdcts: 1,
        short_mdct_size: 8,
        num_alloc_vectors: 2,
        alloc_vectors: vec![0; 4],
        log_n: vec![0; 2],
        window: vec![0; 4],
        mdct: MdctLookup { trig: Vec::new(), factors: Vec::new(), twiddles: Vec::new() },
        cache: PulseCache { index: vec![0; 6], bits: vec![0; 6], caps: vec![0; 6] },
    }
}

#[test]
fn tf_decode_returns_default_table_entries() {
    let mut range = EcDec::new(&[0u8]);
    let mut tf_res = vec![0; 4];
    tf_decode(0, tf_res.len(), false, &mut tf_res, 0, &mut range);
    assert!(tf_res.iter().all(|&v| v == 0));
}

fn periodic_sig(len: usize, period: usize, amp: i32, phase: usize, invert: bool) -> Vec<i32> {
    let half = period / 2;
    (0..len)
        .map(|i| {
            let pos = (i + phase) % period;
            let tri = if pos < half { pos } else { period - pos };
            let centered = (tri as i32 * 2) - half as i32;
            let value = (centered * amp) / half as i32;
            if invert {
                -value
            } else {
                value
            }
        })
        .collect()
}

fn words(sig: &[i32]) -> Vec<i16> {
    sig.iter().map(|v| *v as i16).collect()
}

fn q12(sig: &[i32]) -> Vec<i32> {
    sig.iter().map(|v| v * 4096).collect()
}

#[test]
fn decoder_plc_decay_terms_match_ctest_vectors() {
    let mut exc = periodic_sig(320, 96, 14_000, 0, false);
    let (e1_a, e2_a, decay_a) = plc_decay_terms(&words(&exc), exc.len());
    assert_eq!(e1_a, 148_945_491);
    assert_eq!(e2_a, 172_083_276);
    assert_eq!(decay_a, 30_486);

    let half = exc.len() / 2;
    for sample in &mut exc[half..] {
        *sample /= 4;
    }
    let (e1_b, e2_b, decay_b) = plc_decay_terms(&words(&exc), exc.len());
    assert_eq!(e1_b, 9_306_492);
    assert_eq!(e2_b, 172_083_276);
    assert_eq!(decay_b, 7_620);
    assert!(decay_b < decay_a);

    let mut exc = periodic_sig(320, 64, 3_000, 7, true);
    let third = exc.len() / 3;
    for sample in &mut exc[..third] {
        *sample = 0;
    }
    let (e1_c, e2_c, decay_c) = plc_decay_terms(&words(&exc), exc.len());
    assert_eq!(e1_c, 45_578_035);
    assert_eq!(e2_c, 45_578_035);
    assert_eq!(decay_c, 32_767);
}

#[test]
fn decoder_plc_ratio_terms_match_ctest_vectors() {
    let old_sig = q12(&periodic_sig(144, 72, 7_000, 0, false));
    let new_sig = q12(&periodic_sig(144, 72, 12_000, 11, true));
    let (s1_a, s2_a, ratio_a) = plc_ratio_terms(&old_sig, &new_sig);
    assert_eq!(s1_a, 2_299_964);
    assert_eq!(s2_a, 6_759_820);
    assert_eq!(ratio_a, 19_113);

    let (s1_b, s2_b, ratio_b) = plc_ratio_terms(&new_sig, &old_sig);
    assert_eq!(s1_b, 6_759_820);
    assert_eq!(s2_b, 2_299_964);
    assert_eq!(ratio_b, 32_767);

    let silence = vec![0; 144];
    let (s1_c, s2_c, ratio_c) = plc_ratio_terms(&silence, &silence);
    assert_eq!(s1_c, 0);
    assert_eq!(s2_c, 0);
    assert_eq!(ratio_c, 32_767);
}

#[test]
fn allocates_expected_band_buffers() {
    let mode = test_mode(48_000);

    let mut alloc = CeltDecoderAlloc::new(&mode, 2);
    assert_eq!(alloc.decode_mem.len(), 2 * (DECODE_BUFFER_SIZE + mode.overlap));
    assert_eq!(alloc.lpc.len(), LPC_ORDER * 2);
    assert_eq!(alloc.old_ebands.len(), 2 * mode.num_ebands);
    assert_eq!(alloc.old_log_e.len(), 2 * mode.num_ebands);
    assert_eq!(alloc.old_log_e2.len(), 2 * mode.num_ebands);
    assert_eq!(alloc.background_log_e.len(), 2 * mode.num_ebands);

    alloc.decode_mem.fill(7);
    alloc.lpc.fill(7);
    alloc.old_ebands.fill(7);
    alloc.old_log_e.fill(7);
    alloc.old_log_e2.fill(7);
    alloc.background_log_e.fill(7);
    alloc.reset();

    assert!(alloc.decode_mem.iter().all(|&v| v == 0));
    assert!(alloc.lpc.iter().all(|&v| v == 0));
    assert!(alloc.old_ebands.iter().all(|&v| v == 0));
    assert!(alloc.old_log_e.iter().all(|&v| v == 0));
    assert!(alloc.old_log_e2.iter().all(|&v| v == 0));
    assert!(alloc.background_log_e.iter().all(|&v| v == 0));

    let expected_size = opus_custom_decoder_get_size(&mode, 2).expect("decoder size");
    assert_eq!(alloc.size_in_bytes(), expected_size);
}

#[test]
fn celt_decoder_get_size_honours_channel_limits() {
    assert!(celt_decoder_get_size(0).is_none());
    assert!(celt_decoder_get_size(3).is_none());
    assert!(celt_decoder_get_size(1).is_some());
    assert!(celt_decoder_get_size(2).is_some());
}

#[test]
fn celt_decoder_init_sets_downsampling_factor() {
    let mode = canonical_mode();
    let mut alloc = CeltDecoderAlloc::new(&mode, 1);
    let decoder = celt_decoder_init(&mut alloc, Some(&mode), 16_000, 1).ok().expect("decoder");
    assert_eq!(decoder.downsample, 3);
}

#[test]
fn celt_decoder_init_rejects_unsupported_rate() {
    let mode = canonical_mode();
    let mut alloc = CeltDecoderAlloc::new(&mode, 1);
    let err = celt_decoder_init(&mut alloc, Some(&mode), 44_100, 1).err().unwrap();
    assert_eq!(err, CeltDecoderInitError::UnsupportedSampleRate);
}

#[test]
fn celt_decoder_init_needs_a_canonical_mode() {
    let mode = canonical_mode();
    let mut alloc = CeltDecoderAlloc::new(&mode, 1);
    let err = celt_decoder_init(&mut alloc, None, 48_000, 1).err().unwrap();
    assert_eq!(err, CeltDecoderInitError::CanonicalModeUnavailable);
}

#[test]
fn opus_custom_decoder_create_initialises_state() {
    let mode = canonical_mode();

    let mut owned = opus_custom_decoder_create(&mode, 2).ok().expect("decoder");
    let decoder = owned.decoder();

    assert_eq!(decoder.channels, 2);
    assert_eq!(decoder.stream_channels, 2);
    assert_eq!(decoder.downsample, 1);
    assert_eq!(decoder.start_band, 0);
    assert_eq!(decoder.end_band, mode.effective_ebands as i32);
    assert_eq!(decoder.signalling, 1);
    assert!(!decoder.disable_inv);
    assert_eq!(decoder.arch, 0);
    opus_custom_decoder_destroy(owned);
}

#[test]
fn opus_custom_decoder_create_rejects_invalid_channel_layouts() {
    let mode = canonical_mode();

    assert!(opus_custom_decoder_create(&mode, 0).is_err());
    assert!(opus_custom_decoder_create(&mode, 3).is_err());
}

#[test]
fn validate_celt_decoder_accepts_default_configuration() {
    let mode = test_mode(48_000);
    let mut alloc = CeltDecoderAlloc::new(&mode, 1);
    let decoder = alloc.as_decoder(&mode, 1, 1);

    assert!(validate_celt_decoder(&decoder));
}

#[test]
fn one_allocation_serves_several_decoders() {
    let mode = test_mode(48_000);
    let mut alloc = CeltDecoderAlloc::new(&mode, 1);
    let size = alloc.size_in_bytes();
    let mut first = alloc.as_decoder(&mode, 1, 1);
    first.decode_mem.fill(7);
    drop(first);

    let second = alloc.as_decoder(&mode, 1, 1);
    assert_eq!(second.decode_mem.len(), DECODE_BUFFER_SIZE + mode.overlap);
    assert_eq!(second.lpc.len(), LPC_ORDER);
    assert_eq!(second.old_ebands.len(), 2 * mode.num_ebands);
    assert_eq!(second.old_log_e.len(), 2 * mode.num_ebands);
    assert_eq!(second.old_log_e2.len(), 2 * mode.num_ebands);
    assert_eq!(second.background_log_e.len(), 2 * mode.num_ebands);
    assert!(validate_celt_decoder(&second));

    let third = alloc.init_decoder(&mode, 1, 1).ok().unwrap();
    assert_eq!(third.decode_mem.len(), DECODE_BUFFER_SIZE + mode.overlap);
    assert!(third.decode_mem.iter().all(|v| *v == 0));
    assert_eq!(alloc.size_in_bytes(), size);
}

#[test]
fn a_refused_rate_keeps_the_buffers() {
    let mode = test_mode(44_100);
    let mut alloc = CeltDecoderAlloc::new(&mode, 2);
    let size = alloc.size_in_bytes();
    assert_eq!(
        alloc.init_decoder(&mode, 2, 2).err(),
        Some(CeltDecoderInitError::UnsupportedSampleRate)
    );
    assert_eq!(alloc.size_in_bytes(), size);
    let decoder = alloc.as_decoder(&mode, 2, 2);
    assert_eq!(decoder.lpc.len(), 2 * LPC_ORDER);
}

#[test]
fn a_second_channel_takes_a_history_and_a_predictor() {
    let mode = canonical_mode();
    let mono = opus_custom_decoder_get_size(&mode, 1).unwrap();
    let stereo = opus_custom_decoder_get_size(&mode, 2).unwrap();
    assert_eq!(stereo - mono, 8 * (DECODE_BUFFER_SIZE + mode.overlap) + 6 * LPC_ORDER);
    assert_eq!(stereo, CeltDecoderAlloc::new(&mode, 2).size_in_bytes());
}

#[test]
fn a_reset_erases_the_history() {
    let mode = canonical_mode();
    let mut used = opus_custom_decoder_create(&mode, 1).ok().unwrap();
    let mut fresh = opus_custom_decoder_create(&mode, 1).ok().unwrap();
    let used = used.decoder();
    let fresh = fresh.decoder();
    used.decode_mem.fill(5);
    used.old_ebands.fill(6);
    used.old_log_e.fill(7);
    used.rng = 8;
    used.loss_duration = 9;
    used.postfilter_period = 100;
    assert!(opus_custom_decoder_ctl(used, DecoderCtlRequest::ResetState).is_ok());
    assert!(opus_custom_decoder_ctl(fresh, DecoderCtlRequest::ResetState).is_ok());
    assert_eq!(used.decode_mem, fresh.decode_mem);
    assert_eq!(used.old_ebands, fresh.old_ebands);
    assert_eq!(used.old_log_e, fresh.old_log_e);
    assert_eq!(used.rng, fresh.rng);
    assert_eq!(used.loss_duration, fresh.loss_duration);
    assert_eq!(used.postfilter_period, fresh.postfilter_period);
}

#[test]
fn validate_celt_decoder_refuses_three_channels() {
    let mode = test_mode(48_000);
    let mut alloc = CeltDecoderAlloc::new(&mode, 1);
    let mut decoder = alloc.as_decoder(&mode, 1, 1);
    decoder.channels = 3;

    assert!(!validate_celt_decoder(&decoder));
}

#[test]
fn validate_channel_layout_rejects_invalid_configurations() {
    assert_eq!(
        validate_channel_layout(0, 0),
        Err(CeltDecoderInitError::InvalidChannelCount)
    );
    assert_eq!(
        validate_channel_layout(MAX_CHANNELS + 1, 1),
        Err(CeltDecoderInitError::InvalidChannelCount)
    );
    assert_eq!(
        validate_channel_layout(1, 0),
        Err(CeltDecoderInitError::InvalidStreamChannels)
    );
    assert_eq!(
        validate_channel_layout(1, 2),
        Err(CeltDecoderInitError::InvalidStreamChannels)
    );
}

#[test]
fn init_decoder_populates_expected_defaults() {
    let mode = test_mode(48_000);
    let mut alloc = CeltDecoderAlloc::new(&mode, 1);
    let decoder = alloc
        .init_decoder(&mode, 1, 1)
        .ok()
        .expect("initialisation should succeed");

    assert_eq!(decoder.overlap, mode.overlap);
    assert_eq!(decoder.downsample, 1);
    assert_eq!(decoder.end_band, mode.effective_ebands as i32);
    assert_eq!(decoder.arch, 0);
    assert_eq!(decoder.rng, 0);
    assert_eq!(decoder.loss_duration, 0);
    assert_eq!(decoder.postfilter_period, 0);
    assert_eq!(decoder.postfilter_gain, 0);
    assert_eq!(decoder.postfilter_tapset, 0);
    assert!(decoder.skip_plc);
}

#[test]
fn opus_custom_decoder_init_matches_reference_defaults() {
    let mode = test_mode(12_000);
    let mut alloc = CeltDecoderAlloc::new(&mode, 1);
    let decoder = opus_custom_decoder_init(&mut alloc, &mode, 1)
        .ok()
        .expect("custom decoder initialisation should succeed");

    assert_eq!(decoder.downsample, 1);
    assert_eq!(decoder.start_band, 0);
    assert_eq!(decoder.end_band, mode.effective_ebands as i32);
    assert_eq!(decoder.signalling, 1);
    assert!(decoder.disable_inv);
    assert!(decoder.skip_plc);
    assert_eq!(decoder.arch, 0);
}

#[test]
fn decoder_ctl_handles_configuration_requests() {
    let mode = test_mode(48_000);
    let mut alloc = CeltDecoderAlloc::new(&mode, 2);
    let mut decoder = alloc
        .init_decoder(&mode, 2, 2)
        .ok()
        .expect("decoder initialisation should succeed");

    let err = opus_custom_decoder_ctl(&mut decoder, DecoderCtlRequest::SetComplexity(11))
        .unwrap_err();
    assert_eq!(err, CeltDecoderCtlError::InvalidArgument);
    opus_custom_decoder_ctl(&mut decoder, DecoderCtlRequest::SetComplexity(7)).unwrap();
    let mut complexity = 0;
    opus_custom_decoder_ctl(
        &mut decoder,
        DecoderCtlRequest::GetComplexity(&mut complexity),
    )
    .unwrap();
    assert_eq!(complexity, 7);

    let max = mode.num_ebands as i32;
    opus_custom_decoder_ctl(&mut decoder, DecoderCtlRequest::SetStartBand(1)).unwrap();
    assert_eq!(decoder.start_band, 1);
    let err =
        opus_custom_decoder_ctl(&mut decoder, DecoderCtlRequest::SetStartBand(max)).unwrap_err();
    assert_eq!(err, CeltDecoderCtlError::InvalidArgument);

    opus_custom_decoder_ctl(&mut decoder, DecoderCtlRequest::SetEndBand(max)).unwrap();
    assert_eq!(decoder.end_band, max);
    let err = opus_custom_decoder_ctl(&mut decoder, DecoderCtlRequest::SetEndBand(0)).unwrap_err();
    assert_eq!(err, CeltDecoderCtlError::InvalidArgument);

    let err =
        opus_custom_decoder_ctl(&mut decoder, DecoderCtlRequest::SetChannels(3)).unwrap_err();
    assert_eq!(err, CeltDecoderCtlError::InvalidArgument);
    opus_custom_decoder_ctl(&mut decoder, DecoderCtlRequest::SetChannels(1)).unwrap();
    assert_eq!(decoder.stream_channels, 1);
    opus_custom_decoder_ctl(&mut decoder, DecoderCtlRequest::SetChannels(2)).unwrap();
    assert_eq!(decoder.stream_channels, 2);

    decoder.error = -57;
    let mut reported_error = 0;
    opus_custom_decoder_ctl(
        &mut decoder,
        DecoderCtlRequest::GetAndClearError(&mut reported_error),
    )
    .unwrap();
    assert_eq!(reported_error, -57);
    assert_eq!(decoder.error, 0);

    decoder.overlap = 6;
    decoder.downsample = 2;
    let mut lookahead = 0;
    opus_custom_decoder_ctl(
        &mut decoder,
        DecoderCtlRequest::GetLookahead(&mut lookahead),
    )
    .unwrap();
    assert_eq!(lookahead, 3);

    decoder.postfilter_period = 321;
    let mut pitch = 0;
    opus_custom_decoder_ctl(&mut decoder, DecoderCtlRequest::GetPitch(&mut pitch)).unwrap();
    assert_eq!(pitch, 321);

    opus_custom_decoder_ctl(&mut decoder, DecoderCtlRequest::SetSignalling(5)).unwrap();
    assert_eq!(decoder.signalling, 5);

    decoder.rng = 0xDEADBEEF;
    let mut rng = 0;
    opus_custom_decoder_ctl(&mut decoder, DecoderCtlRequest::GetFinalRange(&mut rng)).unwrap();
    assert_eq!(rng, 0xDEADBEEF);

    opus_custom_decoder_ctl(
        &mut decoder,
        DecoderCtlRequest::SetPhaseInversionDisabled(true),
    )
    .unwrap();
    assert!(decoder.disable_inv);
    let mut disabled = false;
    opus_custom_decoder_ctl(
        &mut decoder,
        DecoderCtlRequest::GetPhaseInversionDisabled(&mut disabled),
    )
    .unwrap();
    assert!(disabled);

    let mut mode_slot = None;
    opus_custom_decoder_ctl(&mut decoder, DecoderCtlRequest::GetMode(&mut mode_slot)).unwrap();
    let mode_ref = mode_slot.expect("mode reference");
    assert!(std::ptr::eq(mode_ref, &mode));
}

#[test]
fn decoder_ctl_reset_state_matches_reference() {
    let mode = test_mode(48_000);
    let mut alloc = CeltDecoderAlloc::new(&mode, 1);
    let mut decoder = alloc
        .init_decoder(&mode, 1, 1)
        .ok()
        .expect("decoder initialisation should succeed");

    decoder.rng = 1234;
    decoder.error = -1;
    decoder.last_pitch_index = 77;
    decoder.loss_duration = 99;
    decoder.skip_plc = false;
    decoder.postfilter_period = 12;
    decoder.postfilter_period_old = 34;
    decoder.postfilter_gain = 16384;
    decoder.postfilter_gain_old = 8192;
    decoder.postfilter_tapset = 2;
    decoder.postfilter_tapset_old = 1;
    decoder.prefilter_and_fold = true;
    decoder.preemph_mem_decoder = [410, -819];
    decoder.decode_mem.fill(7);
    decoder.lpc.fill(7);
    decoder.old_ebands.fill(7);
    decoder.old_log_e.fill(7);
    decoder.old_log_e2.fill(7);
    decoder.background_log_e.fill(7);

    opus_custom_decoder_ctl(&mut decoder, DecoderCtlRequest::ResetState).unwrap();

    assert_eq!(decoder.rng, 0);
    assert_eq!(decoder.error, 0);
    assert_eq!(decoder.last_pitch_index, 0);
    assert_eq!(decoder.loss_duration, 0);
    assert!(decoder.skip_plc);
    assert_eq!(decoder.postfilter_period, 0);
    assert_eq!(decoder.postfilter_period_old, 0);
    assert_eq!(decoder.postfilter_gain, 0);
    assert_eq!(decoder.postfilter_gain_old, 0);
    assert_eq!(decoder.postfilter_tapset, 0);
    assert_eq!(decoder.postfilter_tapset_old, 0);
    assert!(!decoder.prefilter_and_fold);
    assert_eq!(decoder.preemph_mem_decoder, [0, 0]);
    assert!(decoder.decode_mem.iter().all(|&v| v == 0));
    assert!(decoder.lpc.iter().all(|&v| v == 0));
    assert!(decoder.old_ebands.iter().all(|&v| v == 0));
    assert_eq!(SILENCE_LOG_E, -28 * (1 << 24));
    assert!(decoder.old_log_e.iter().all(|&v| v == SILENCE_LOG_E));
    assert!(decoder.old_log_e2.iter().all(|&v| v == SILENCE_LOG_E));
    assert!(decoder.background_log_e.iter().all(|&v| v == 0));
}

#[test]
fn prepare_frame_handles_packet_loss() {
    let mut mode = test_mode(48_000);
    mode.short_mdct_size = 2;
    mode.max_lm = 2;

    let mut alloc = CeltDecoderAlloc::new(&mode, 1);
    let mut decoder = alloc
        .init_decoder(&mode, 1, 1)
        .ok()
        .expect("decoder initialisation should succeed");

    let frame = prepare_frame(&mut decoder, &[], mode.short_mdct_size, None)
        .ok()
        .expect("packet loss preparation should succeed");
    assert!(frame.packet_loss);
}

#[test]
fn prepare_frame_rejects_mismatched_frame_size() {
    let mut mode = test_mode(48_000);
    mode.short_mdct_size = 2;
    mode.max_lm = 2;

    let mut alloc = CeltDecoderAlloc::new(&mode, 1);
    let mut decoder = alloc
        .init_decoder(&mode, 1, 1)
        .ok()
        .expect("decoder initialisation should succeed");
    decoder.signalling = 0;

    let err = prepare_frame(&mut decoder, &[0u8; 2], mode.short_mdct_size + 1, None)
        .err()
        .expect("invalid frame size must be rejected");
    assert_eq!(err, CeltDecodeError::BadArgument);
}

#[test]
fn owned_decoder_is_the_created_one() {
    let mode = canonical_mode();
    let mut a = OwnedCeltDecoder::new(&mode, 1).ok().unwrap();
    let mut b = opus_custom_decoder_create(&mode, 1).ok().unwrap();
    assert_eq!(a.decoder().decode_mem, b.decoder().decode_mem);
    assert_eq!(a.decoder().end_band, b.decoder().end_band);
    assert!(OwnedCeltDecoder::new(&mode, 3).is_err());
}
