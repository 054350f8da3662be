use oporus::bench_args::{
    frame_count, frame_limit, ApplicationArg, ArgumentError, BitrateMode, Command,
    DecodeBenchArgs, EncodeBenchArgs, EncodeConfig, Flag, OutputFormat, PacketCorpusArgs,
};
use oporus::corpus::{
    corpus_header, encoder_requests, header_config, pcm_samples, percentile, sort_measurements,
    words32, CorpusError, EncoderRequest, PacketCorpus, PacketHeader,
};
use oporus::text::{read_i32, read_usize};
use oporus::vectors::{
    audio_frames, feature_frames, longest_packet, parse_args, read_records, read_u32_be,
    synthesis_steps, PathSource, Record, RecordKind, ShapeError, SynthesisStep, VectorArgs,
    VectorArgsError,
};

fn words(args: &[&str]) -> Vec<String> {
    args.iter().map(|a| a.to_string()).collect()
}

#[test]
fn numbers_are_read_like_integers() {
    assert_eq!(read_i32("0"), Some(0));
    assert_eq!(read_i32("+12"), Some(12));
    assert_eq!(read_i32("-12"), Some(-12));
    assert_eq!(read_i32("-2147483648"), Some(i32::MIN));
    assert_eq!(read_i32("2147483647"), Some(i32::MAX));
    assert_eq!(read_i32("2147483648"), None);
    assert_eq!(read_i32("-2147483649"), None);
    assert_eq!(read_i32("99999999999999999999999999999999999999999"), None);
    for text in ["", "+", "-", "1 ", " 1", "1x", "--1", "+-1", "\u{661}"] {
        assert_eq!(read_i32(text), None);
        assert_eq!(read_i32(text), text.parse::<i32>().ok());
        assert_eq!(read_usize(text), text.parse::<usize>().ok());
    }
    assert_eq!(read_usize("000000000000000000000000000000000042"), Some(42));
    assert_eq!(read_usize("18446744073709551616"), None);
    assert_eq!(read_usize("-1"), None);
}

#[test]
fn names_of_modes_and_applications() {
    for mode in [BitrateMode::Vbr, BitrateMode::Cvbr, BitrateMode::Cbr] {
        assert_eq!(BitrateMode::parse(mode.as_str()), Some(mode));
    }
    assert_eq!(BitrateMode::parse("abr"), None);
    for (application, code) in [
        (ApplicationArg::Voip, 2048),
        (ApplicationArg::Audio, 2049),
        (ApplicationArg::RestrictedLowDelay, 2051),
    ] {
        assert_eq!(ApplicationArg::parse(application.as_str()), Some(application));
        assert_eq!(application.to_opus_int(), code);
    }
    assert_eq!(ApplicationArg::parse("lowdelay"), Some(ApplicationArg::RestrictedLowDelay));
    assert_eq!(
        ApplicationArg::parse("restricted_lowdelay"),
        Some(ApplicationArg::RestrictedLowDelay)
    );
    assert_eq!(ApplicationArg::parse("music"), None);
    assert_eq!(Command::parse("packets"), Some(Command::Packets));
    assert_eq!(Command::parse("encode"), Some(Command::Encode));
    assert_eq!(Command::parse("decode"), Some(Command::Decode));
    assert_eq!(Command::parse("play"), None);
}

#[test]
fn packet_arguments_have_defaults() {
    let a = PacketCorpusArgs::parse(&words(&["--input", "a.pcm", "--output", "b"])).ok().unwrap();
    assert_eq!(a.input, "a.pcm");
    assert_eq!(a.output, "b");
    assert_eq!(a.max_frames, None);
    assert_eq!(
        a.encode,
        EncodeConfig {
            sample_rate: 48_000,
            channels: 2,
            frame_size: 960,
            application: ApplicationArg::Audio,
            bitrate: 64_000,
            complexity: 10,
            bitrate_mode: BitrateMode::Cvbr,
        }
    );
    assert_eq!(a.encode.max_frame_size(), 5760);
}

#[test]
fn encode_arguments_are_all_read() {
    let args = words(&[
        "--input",
        "first",
        "--sample-rate",
        "16000",
        "--channels",
        "1",
        "--frame-size",
        "320",
        "--application",
        "voip",
        "--bitrate",
        "24000",
        "--complexity",
        "5",
        "--bitrate-mode",
        "cbr",
        "--warmup",
        "1",
        "--measure",
        "4",
        "--max-frames",
        "7",
        "--format",
        "csv",
        "--no-header",
        "--input",
        "second",
    ]);
    let a = EncodeBenchArgs::parse(&args).ok().unwrap();
    assert_eq!(a.input, "second");
    assert_eq!(
        a.encode,
        EncodeConfig {
            sample_rate: 16_000,
            channels: 1,
            frame_size: 320,
            application: ApplicationArg::Voip,
            bitrate: 24_000,
            complexity: 5,
            bitrate_mode: BitrateMode::Cbr,
        }
    );
    assert_eq!((a.warmup, a.measure, a.max_frames), (1, 4, Some(7)));
    assert_eq!(a.output.format, OutputFormat::Csv);
    assert!(!a.output.header);
}

#[test]
fn decode_arguments_have_defaults() {
    let a = DecodeBenchArgs::parse(&words(&["--packets", "p"])).ok().unwrap();
    assert_eq!(a.packets, "p");
    assert_eq!((a.warmup, a.measure, a.max_frames), (3, 10, None));
    assert_eq!(a.output.format, OutputFormat::Text);
    assert!(a.output.header);
}

fn refused(args: &[&str]) -> (ArgumentError, String) {
    let args = words(args);
    let e = EncodeBenchArgs::parse(&args).err().unwrap();
    (e, e.message(&args))
}

#[test]
fn refused_arguments_are_explained() {
    assert_eq!(
        refused(&["--output", "x"]),
        (ArgumentError::Unknown(0), "unknown argument '--output'".to_string())
    );
    assert_eq!(
        refused(&["--input", "x", "--loud"]),
        (ArgumentError::Unknown(2), "unknown argument '--loud'".to_string())
    );
    assert_eq!(
        refused(&["--bitrate"]),
        (
            ArgumentError::MissingValue(Flag::Bitrate),
            "missing value for --bitrate".to_string()
        )
    );
    assert_eq!(
        refused(&["--bitrate", "fast"]),
        (
            ArgumentError::InvalidInteger(Flag::Bitrate),
            "invalid integer for --bitrate".to_string()
        )
    );
    assert_eq!(
        refused(&["--application", "tv"]),
        (
            ArgumentError::InvalidApplication(1),
            "invalid --application 'tv', expected voip|audio|restricted-lowdelay".to_string()
        )
    );
    assert_eq!(
        refused(&["--bitrate-mode", "abr"]),
        (
            ArgumentError::InvalidBitrateMode(1),
            "invalid --bitrate-mode 'abr', expected vbr|cvbr|cbr".to_string()
        )
    );
    assert_eq!(
        refused(&["--format", "json"]),
        (
            ArgumentError::InvalidFormat(1),
            "invalid --format 'json', expected text|csv".to_string()
        )
    );
    assert_eq!(
        refused(&["--no-header"]),
        (ArgumentError::MissingFlag(Flag::Input), "missing --input".to_string())
    );
    let missing = PacketCorpusArgs::parse(&words(&["--input", "x"])).err().unwrap();
    assert_eq!(missing, ArgumentError::MissingFlag(Flag::Output));
    let missing = DecodeBenchArgs::parse(&words(&[])).err().unwrap();
    assert_eq!(missing, ArgumentError::MissingFlag(Flag::Packets));
}

#[test]
fn frames_are_counted() {
    let config = EncodeConfig::default();
    assert_eq!(frame_count(1920 * 3 + 1919, config), Ok(3));
    assert_eq!(
        frame_count(10, EncodeConfig { channels: -1, ..config }),
        Err(ArgumentError::ChannelsOutOfRange)
    );
    assert_eq!(
        frame_count(10, EncodeConfig { frame_size: 0, ..config }),
        Err(ArgumentError::ZeroFrameSize)
    );
    assert_eq!(frame_limit(None, 5, Command::Encode), Ok(5));
    assert_eq!(frame_limit(Some(3), 5, Command::Encode), Ok(3));
    assert_eq!(frame_limit(Some(9), 5, Command::Encode), Ok(5));
    for (command, message) in [
        (Command::Packets, "packet corpus would contain zero frames"),
        (Command::Encode, "encode benchmark would process zero frames"),
        (Command::Decode, "decode benchmark would process zero frames"),
    ] {
        let e = frame_limit(Some(0), 5, command).unwrap_err();
        assert_eq!(e, ArgumentError::ZeroFrames(command));
        assert_eq!(e.message(&Vec::new()), message);
    }
}

fn header() -> PacketHeader {
    PacketHeader {
        sample_rate: 48_000,
        channels: 2,
        frame_size: 960,
        application: 2049,
        bitrate: -1000,
        complexity: 10,
        bitrate_mode: BitrateMode::Cvbr,
    }
}

#[test]
fn headers_are_little_endian() {
    let mut bytes = Vec::new();
    header().write(&mut bytes);
    assert_eq!(&bytes[..8], b"OPUSBEN1");
    assert_eq!(
        &bytes[8..],
        [0x80, 0xbb, 0, 0, 2, 0, 0xc0, 3, 1, 8, 0, 0, 0x18, 0xfc, 0xff, 0xff, 10, 1, 0, 0]
    );
    assert_eq!(PacketHeader::read(&bytes), Ok(header()));
    bytes[26] = 9;
    assert_eq!(PacketHeader::read(&bytes), Ok(header()));
    bytes[25] = 3;
    assert_eq!(PacketHeader::read(&bytes), Err(CorpusError::InvalidBitrateMode(3)));
    assert_eq!(PacketHeader::read(&bytes[..26]), Err(CorpusError::InvalidBitrateMode(3)));
    assert_eq!(PacketHeader::read(&bytes[..25]), Err(CorpusError::UnexpectedEnd));
    assert_eq!(PacketHeader::read(&bytes[..7]), Err(CorpusError::UnexpectedEnd));
    bytes[0] = b'o';
    assert_eq!(PacketHeader::read(&bytes), Err(CorpusError::InvalidMagic));
    assert_eq!(PacketHeader::read(&bytes[..8]), Err(CorpusError::InvalidMagic));
}

#[test]
fn files_are_read_back() {
    let corpus = PacketCorpus {
        header: header(),
        packets: vec![vec![1, 2, 3], Vec::new(), vec![9; 300]],
    };
    let bytes = corpus.write().unwrap();
    assert_eq!(bytes.len(), 28 + 2 + 3 + 2 + 2 + 300);
    let read = PacketCorpus::read(&bytes).ok().unwrap();
    assert_eq!(read.header, header());
    assert_eq!(read.packets, corpus.packets);
    assert_eq!(
        PacketCorpus::read(&bytes[..29]).err(),
        Some(CorpusError::TruncatedLength)
    );
    assert_eq!(
        PacketCorpus::read(&bytes[..32]).err(),
        Some(CorpusError::TruncatedPacket)
    );
    assert!(PacketCorpus::read(&bytes[..28]).ok().unwrap().packets.is_empty());
    let large = PacketCorpus { header: header(), packets: vec![vec![0; 65_536]] };
    assert_eq!(large.write(), Err(CorpusError::PacketTooLarge(65_536)));
}

#[test]
fn configurations_survive_headers() {
    let config = EncodeConfig::default();
    let h = corpus_header(config).unwrap();
    assert_eq!(header_config(h), Ok(config));
    assert_eq!(
        corpus_header(EncodeConfig { sample_rate: -1, ..config }),
        Err(ArgumentError::SampleRateOutOfRange)
    );
    assert_eq!(
        corpus_header(EncodeConfig { channels: 70_000, ..config }),
        Err(ArgumentError::ChannelsOutOfRange)
    );
    assert_eq!(
        corpus_header(EncodeConfig { frame_size: 65_536, ..config }),
        Err(ArgumentError::FrameSizeOutOfRange)
    );
    assert_eq!(
        corpus_header(EncodeConfig { complexity: 256, ..config }),
        Err(ArgumentError::ComplexityOutOfRange)
    );
    assert_eq!(
        header_config(PacketHeader { sample_rate: u32::MAX, ..h }),
        Err(CorpusError::SampleRateOutOfRange)
    );
    assert_eq!(
        header_config(PacketHeader { application: 2050, ..h }),
        Err(CorpusError::InvalidApplication(2050))
    );
}

#[test]
fn bitrate_modes_set_up_the_encoder() {
    for (mode, vbr, constraint) in [
        (BitrateMode::Vbr, true, false),
        (BitrateMode::Cvbr, true, true),
        (BitrateMode::Cbr, false, true),
    ] {
        let config = EncodeConfig { bitrate_mode: mode, ..EncodeConfig::default() };
        assert_eq!(
            encoder_requests(config),
            [
                EncoderRequest::SetBitrate(64_000),
                EncoderRequest::SetComplexity(10),
                EncoderRequest::SetVbr(vbr),
                EncoderRequest::SetVbrConstraint(constraint),
            ]
        );
    }
}

#[test]
fn recordings_are_little_endian() {
    assert_eq!(pcm_samples(&[1, 0, 0xff, 0xff, 0, 0x80]), Some(vec![1, -1, -32768]));
    assert_eq!(pcm_samples(&[1, 0, 3]), None);
    assert_eq!(words32(&[0, 0, 0x80, 0x3f]), Some(vec![1.0f32.to_bits()]));
    assert_eq!(words32(&[0, 0, 0]), None);
}

#[test]
fn percentiles_of_sorted_measurements() {
    let mut values: Vec<u128> = vec![7, 3, 9, 1, 5, 8, 2, 6, 4, 0];
    sort_measurements(&mut values);
    assert_eq!(values, [0, 1, 2, 3, 4, 5, 6, 7, 8, 9]);
    assert_eq!(percentile(&values, 50), 4);
    assert_eq!(percentile(&values, 95), 8);
    assert_eq!(percentile(&values, 100), 9);
    assert_eq!(percentile(&vec![42], 95), 42);
}

#[test]
fn vector_arguments() {
    let two = VectorArgs {
        vector_path: PathSource::Argument(3),
        dnn_blob: Some(PathSource::Argument(1)),
    };
    let args = words(&["--dnn-blob", "weights", "exec", "path"]);
    assert_eq!(parse_args(&args, false, true, false), Ok(two));
    let args = words(&["path"]);
    assert_eq!(
        parse_args(&args, true, true, false),
        Ok(VectorArgs {
            vector_path: PathSource::Argument(0),
            dnn_blob: Some(PathSource::Environment),
        })
    );
    assert_eq!(parse_args(&args, true, false, false), Err(VectorArgsError::MissingBlob));
    assert_eq!(
        parse_args(&args, true, false, true),
        Ok(VectorArgs { vector_path: PathSource::Argument(0), dnn_blob: None })
    );
    assert_eq!(
        parse_args(&words(&[]), true, false, true),
        Ok(VectorArgs { vector_path: PathSource::Environment, dnn_blob: None })
    );
    for bad in [&[][..], &["-h"], &["--help", "x"], &["x", "--dnn-blob"], &["a", "b", "c"]] {
        assert_eq!(parse_args(&words(bad), false, true, true), Err(VectorArgsError::Usage));
    }
}

#[test]
fn records_of_vector_files() {
    let mut dred = Vec::new();
    for v in [6u32, 2, 3] {
        dred.extend(v.to_be_bytes());
    }
    dred.extend([1u8, 2, 3]);
    let first = Record { first: 6, second: 2, from: 12, len: 3 };
    let whole = read_records(RecordKind::Dred, &dred);
    assert_eq!((whole.records, whole.truncated), (vec![first], false));
    let cut = read_records(RecordKind::Dred, &dred[..14]);
    assert_eq!((cut.records, cut.truncated), (Vec::new(), false));
    let cut = read_records(RecordKind::Dred, &dred[..11]);
    assert_eq!((cut.records, cut.truncated), (Vec::new(), true));
    let cut = read_records(RecordKind::Dred, &dred[..3]);
    assert_eq!((cut.records, cut.truncated), (Vec::new(), false));

    let mut opus = Vec::new();
    for v in [2u32, 77] {
        opus.extend(v.to_be_bytes());
    }
    opus.extend([8u8, 9]);
    for v in [0u32, 78] {
        opus.extend(v.to_be_bytes());
    }
    let both = read_records(RecordKind::Opus, &opus);
    assert_eq!(
        both.records,
        [
            Record { first: 2, second: 77, from: 8, len: 2 },
            Record { first: 0, second: 78, from: 18, len: 0 },
        ]
    );
    assert!(read_records(RecordKind::Opus, &opus[..16]).truncated);
    assert_eq!(read_u32_be(&opus, 4), Some(77));
    assert_eq!(read_u32_be(&opus, 15), None);
}

#[test]
fn shapes_of_what_is_compared() {
    assert_eq!(feature_frames(60, 60), Ok(3));
    assert_eq!(feature_frames(61, 60), Err(ShapeError::PartialFrame));
    assert_eq!(feature_frames(60, 40), Err(ShapeError::LengthMismatch));
    assert_eq!(feature_frames(0, 0), Err(ShapeError::Empty));
    assert_eq!(audio_frames(640, 700), Ok(1));
    assert_eq!(audio_frames(960, 960), Ok(3));
    assert_eq!(audio_frames(640, 639), Err(ShapeError::LengthMismatch));
    assert_eq!(audio_frames(639, 639), Err(ShapeError::TooShort));
    assert_eq!(longest_packet(16_000), 1920);
}

#[test]
fn steps_of_a_synthesis() {
    assert_eq!(
        synthesis_steps(40).unwrap(),
        [
            SynthesisStep { frame: 1, from: 80, to: 160 },
            SynthesisStep { frame: 1, from: 0, to: 160 },
            SynthesisStep { frame: 1, from: 0, to: 80 },
        ]
    );
    assert_eq!(synthesis_steps(0), Err(ShapeError::Empty));
    assert_eq!(synthesis_steps(21), Err(ShapeError::PartialFrame));
    let kept: usize = synthesis_steps(200).unwrap().iter().map(|s| s.to - s.from).sum();
    assert_eq!(kept, 1600);
}
