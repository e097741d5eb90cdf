use media_api::audio::{AudioChunk, AudioFormat};
use media_api::opus_benchmark::{
    compare_pcm, decode_source_track, decode_with_soundkit, differences_fit, encode_failed,
    encode_with_soundkit, frame_size, is_mp3_extension, parse_args, pcm_bytes, run_engine,
    source_bytes, summarize, ArgNotice, Backend, EngineResult, PcmComparison, Request,
    SourceError, SourceTrack, Summary, Totals,
};
use media_api::opus_codec::{encoder_supports, SoundkitDecoder, SoundkitEncoder};
use media_api::packets::{
    append_packet, append_samples, padded_frame, NextPacket, PacketReader, StreamDecoder,
    TrackEncoder,
};

fn args(list: &[&str]) -> Vec<String> {
    std::iter::once("opus_benchmark")
        .chain(list.iter().copied())
        .map(str::to_string)
        .collect()
}

fn packets_of(stream: &[u8]) -> (Vec<Vec<u8>>, bool) {
    let mut reader = PacketReader::new(stream);
    let mut packets = Vec::new();
    loop {
        match reader.next_packet() {
            NextPacket::End => return (packets, false),
            NextPacket::Truncated => return (packets, true),
            NextPacket::Packet(packet) => packets.push(packet),
        }
    }
}

fn tone(samples: usize) -> Vec<i16> {
    (0..samples)
        .map(|i| ((i as f64 * 0.05).sin() * 8000.0) as i16)
        .collect()
}

fn track(pcm: Vec<i16>) -> SourceTrack {
    SourceTrack { name: "tone".to_string(), pcm }
}

fn chunk(bits: u8, data: &[u8]) -> Result<AudioChunk, String> {
    Ok(AudioChunk {
        sample_rate: 48000,
        channels: 1,
        bits_per_sample: bits,
        format: AudioFormat::PcmSigned,
        data: data.to_vec(),
    })
}

#[test]
fn backends_have_labels() {
    assert_eq!(Backend::SoundKit.label(), "soundkit-opus");
    assert_eq!(Backend::LibOpusRust.label(), "libopus-rs");
}

#[test]
fn frames_cover_the_recording() {
    let pcm: Vec<i16> = (1..=5).collect();
    assert_eq!(padded_frame(&pcm, 0, 2), vec![1, 2]);
    assert_eq!(padded_frame(&pcm, 4, 2), vec![5, 0]);
    assert_eq!(padded_frame(&pcm, 5, 2), vec![0, 0]);
    let mut encoder = TrackEncoder::new(&pcm, 2);
    let mut seen = Vec::new();
    while let Some(frame) = encoder.next_frame() {
        seen.extend(frame);
        encoder.accept(&[9]);
    }
    assert_eq!(seen, vec![1, 2, 3, 4, 5, 0]);
    assert_eq!(encoder.finish(), [1, 0, 0, 0, 9].repeat(3));
    assert!(TrackEncoder::new(&[], 4).next_frame().is_none());
    assert_eq!(TrackEncoder::new(&pcm, 5).next_frame(), Some(pcm.clone()));
}

#[test]
fn packets_are_read_back() {
    let mut stream = Vec::new();
    append_packet(&mut stream, b"one");
    append_packet(&mut stream, b"");
    append_packet(&mut stream, &[7; 300]);
    assert_eq!(&stream[..7], &[3, 0, 0, 0, b'o', b'n', b'e']);
    assert_eq!(&stream[7..11], &[44, 1, 0, 0]);
    assert_eq!(packets_of(&stream), (vec![b"one".to_vec(), vec![7; 300]], false));
}

#[test]
fn odd_packet_streams() {
    assert_eq!(packets_of(&[]), (vec![], false));
    assert_eq!(packets_of(&[1, 0, 0]), (vec![], false));
    assert_eq!(packets_of(&[0, 0, 0, 0, 1, 0, 0, 0, 5, 9, 9]), (vec![vec![5]], false));
    assert_eq!(packets_of(&[1, 0, 0, 0, 5, 2, 0, 0, 0, 5]), (vec![vec![5]], true));
    assert_eq!(packets_of(&[0, 0, 0, 255]), (vec![], true));
}

#[test]
fn samples_are_appended() {
    let mut samples = vec![1];
    append_samples(&mut samples, &[2, 3, 4, 5, 6, 7], 2, 2);
    assert_eq!(samples, vec![1, 2, 3, 4, 5]);
    append_samples(&mut samples, &[8, 9], usize::MAX, 2);
    assert_eq!(samples, vec![1, 2, 3, 4, 5, 8, 9]);
    append_samples(&mut samples, &[8, 9], 0, 2);
    assert_eq!(samples.len(), 7);
}

#[test]
fn command_line_defaults() {
    let (notices, request) = parse_args(&args(&[]));
    assert!(notices.is_empty());
    match request {
        Request::Run(config) => {
            assert_eq!(
                config.source_dir,
                "/Users/jamie/Downloads/Lori Asha - Lori Asha Album Premix"
            );
            assert_eq!(config.sample_rate, 48000);
            assert_eq!(config.channels, 2);
            assert_eq!(config.bitrate, 96000);
        }
        _ => panic!("no run"),
    }
    assert!(matches!(parse_args(&vec![]).1, Request::Run(_)));
}

#[test]
fn command_line_options() {
    let (notices, request) = parse_args(&args(&[
        "--source-dir", "/music", "--sample-rate", "24000", "--channels", "1", "--bitrate",
        "64000", "--bitrate", "32000",
    ]));
    assert!(notices.is_empty());
    match request {
        Request::Run(config) => {
            assert_eq!(config.source_dir, "/music");
            assert_eq!(config.sample_rate, 24000);
            assert_eq!(config.channels, 1);
            assert_eq!(config.bitrate, 32000);
        }
        _ => panic!("no run"),
    }
}

#[test]
fn command_line_mistakes() {
    let (notices, request) = parse_args(&args(&[
        "--channels", "256", "--sample-rate", "fast", "--verbose", "file", "-v", "--bitrate", "x",
        "--bitrate",
    ]));
    let texts: Vec<String> = notices.iter().map(ArgNotice::message).collect();
    assert_eq!(
        texts,
        vec![
            "invalid --channels value '256', expected 1-255",
            "invalid --sample-rate value 'fast', expected integer Hz",
            "warning: unknown arg --verbose",
            "invalid --bitrate value 'x', expected integer",
            "--bitrate requires a value, using default 96000",
        ]
    );
    match request {
        Request::Run(config) => {
            assert_eq!(config.channels, 2);
            assert_eq!(config.sample_rate, 48000);
            assert_eq!(config.bitrate, 96000);
        }
        _ => panic!("no run"),
    }
    let (notices, _) = parse_args(&args(&["--sample-rate"]));
    assert_eq!(notices[0].message(), "--sample-rate requires a value, using default 48000");
    let (notices, _) = parse_args(&args(&["--channels"]));
    assert_eq!(notices[0].message(), "--channels requires a value, using default 2");
}

#[test]
fn command_line_stops() {
    let (notices, request) = parse_args(&args(&["--what", "--help", "--who"]));
    assert_eq!(notices.len(), 1);
    assert!(matches!(request, Request::Help));
    assert!(matches!(parse_args(&args(&["-h"])).1, Request::Help));
    assert!(matches!(parse_args(&args(&["--source-dir"])).1, Request::MissingSourceDir));
}

#[test]
fn extensions_are_recognised() {
    assert!(is_mp3_extension("mp3"));
    assert!(is_mp3_extension("Mp3"));
    assert!(!is_mp3_extension("mp4"));
    assert!(!is_mp3_extension(""));
}

#[test]
fn recordings_are_collected() {
    let items = vec![chunk(16, &[1, 0, 255]), chunk(16, &[255, 0, 128, 7])];
    let track = decode_source_track(items, "a.mp3".to_string()).unwrap();
    assert_eq!(track.name, "a.mp3");
    assert_eq!(track.pcm, vec![1, -1, -32768]);
}

#[test]
fn unusable_recordings_are_refused() {
    let e = decode_source_track(vec![], "a".to_string()).unwrap_err();
    assert!(matches!(e, SourceError::NoAudio));
    assert_eq!(e.message("a.mp3"), "a.mp3: decode produced no audio");
    let e = decode_source_track(vec![chunk(16, &[]), chunk(24, &[1])], "a".to_string()).unwrap_err();
    assert_eq!(e.message("a.mp3"), "a.mp3: unsupported bit depth 24");
    let items = vec![chunk(16, &[1, 2]), Err("Broken".to_string()), chunk(24, &[])];
    let e = decode_source_track(items, "a".to_string()).unwrap_err();
    assert_eq!(e.message("a.mp3"), "a.mp3: decode error: Broken");
}

#[test]
fn comparison_has_its_figures() {
    let c = compare_pcm(&[1, -3, 10, 4], &[2, -1, 10]).unwrap();
    assert_eq!(
        c,
        PcmComparison {
            sample_count: 3,
            max_len: 4,
            squared_error: 5,
            absolute_error: 3,
            signal_energy: 110,
            max_abs: 2,
        }
    );
    assert_eq!(compare_pcm(&[], &[1]), None);
    assert_eq!(compare_pcm(&[1], &[]), None);
}

#[test]
fn equal_recordings_do_not_differ() {
    let pcm = tone(1000);
    let c = compare_pcm(&pcm, &pcm).unwrap();
    assert_eq!((c.squared_error, c.absolute_error, c.max_abs), (0, 0, 0));
}

#[test]
fn comparison_is_symmetric_in_its_errors() {
    let (a, b) = (tone(500), vec![100; 500]);
    let x = compare_pcm(&a, &b).unwrap();
    let y = compare_pcm(&b, &a).unwrap();
    assert_eq!(x.squared_error, y.squared_error);
    assert_eq!(x.absolute_error, y.absolute_error);
    assert_eq!(x.max_abs, y.max_abs);
    assert!(x.absolute_error <= 500 * x.max_abs as u128);
}

#[test]
fn great_differences_are_noticed() {
    assert!(differences_fit(&[32767], &[0]));
    assert!(!differences_fit(&[32767], &[-1]));
    assert!(!differences_fit(&[0], &[-32768]));
    assert!(differences_fit(&[1], &[]));
    assert!(!differences_fit(&[0, -32768], &[0, 0, 1]));
}

#[test]
fn encoder_settings_are_tested() {
    assert!(encoder_supports(48000, 2, 960, 96000));
    assert!(encoder_supports(8000, 1, 160, 500));
    assert!(!encoder_supports(44100, 2, 880, 96000));
    assert!(!encoder_supports(48000, 3, 960, 96000));
    assert!(!encoder_supports(48000, 0, 960, 96000));
    assert!(!encoder_supports(48000, 2, 960, 499));
    assert!(!encoder_supports(48000, 2, 960, 512001));
    assert!(!encoder_supports(48000, 2, 96001, 96000));
}

#[test]
fn frame_size_is_twenty_milliseconds() {
    assert_eq!(frame_size(48000), 960);
    assert_eq!(frame_size(44100), 880);
    assert_eq!(frame_size(999), 0);
}

#[test]
fn soundkit_encodes_and_decodes() {
    let source = track(tone(4 * 960 + 100));
    let stream = encode_with_soundkit(&source, 48000, 1, 960, 64000).0.unwrap();
    let (packets, truncated) = packets_of(&stream);
    assert!(!truncated);
    assert_eq!(packets.len(), 5);
    // 64000 bit/s for 20 ms
    assert!(packets.iter().all(|packet| packet.len() == 160));
    let decoded = decode_with_soundkit(&stream, 48000, 1).unwrap();
    assert_eq!(decoded.len(), 5 * 960);
    assert!(decoded.iter().any(|s| *s != 0));
    let c = compare_pcm(&source.pcm, &decoded).unwrap();
    assert_eq!(c.sample_count, source.pcm.len());
    assert!(c.signal_energy > 0);
}

#[test]
fn soundkit_works_in_stereo() {
    let source = track(tone(2 * 960 * 2));
    let stream = encode_with_soundkit(&source, 48000, 2, 960, 96000).0.unwrap();
    assert_eq!(packets_of(&stream).0.len(), 2);
    assert_eq!(decode_with_soundkit(&stream, 48000, 2).unwrap().len(), 2 * 960 * 2);
}

#[test]
fn encoder_comes_back_for_more() {
    let (first, mut encoder) = encode_with_soundkit(&track(tone(960)), 48000, 1, 960, 64000);
    let more = encoder.encode_track(&tone(2 * 960), 960).unwrap();
    assert_eq!(packets_of(&first.unwrap()).0.len(), 1);
    assert_eq!(packets_of(&more).0.len(), 2);
}

#[test]
fn nothing_encodes_to_nothing() {
    assert_eq!(encode_with_soundkit(&track(vec![]), 48000, 1, 960, 64000).0, Ok(vec![]));
    assert_eq!(decode_with_soundkit(&[], 48000, 1), Ok(vec![]));
}

#[test]
fn encoder_refuses_other_rates() {
    assert_eq!(
        encode_with_soundkit(&track(tone(500)), 24000, 1, 480, 64000).0,
        Err("request not implemented".to_string())
    );
    assert_eq!(
        encode_with_soundkit(&track(tone(500)), 48000, 1, 100, 64000).0,
        Err("invalid argument".to_string())
    );
    assert_eq!(encode_with_soundkit(&track(vec![]), 24000, 1, 480, 64000).0, Ok(vec![]));
    let mut session = SoundkitEncoder::new(48000, 2, 960, 64000).unwrap_or_else(|e| panic!("{e}"));
    assert_eq!(
        session.encode_frame(&[0; 10]),
        Err("opus input too small: 10 < 1920".to_string())
    );
    assert!(session.encode_frame(&[0; 1920]).is_ok());
}

#[test]
fn packets_have_a_constant_size() {
    for (frame_size, bitrate, size) in
        [(960, 64000, 160), (960, 96000, 240), (120, 500, 3), (960, 512000, 1275), (480, 6000, 8)]
    {
        for pcm in [vec![0; frame_size], tone(frame_size)] {
            let mut session = SoundkitEncoder::new(48000, 1, frame_size, bitrate)
                .unwrap_or_else(|e| panic!("{e}"));
            assert_eq!(session.encode_frame(&pcm).unwrap().len(), size);
        }
    }
}

#[test]
fn decoder_refuses_settings() {
    assert_eq!(
        decode_with_soundkit(&[], 44100, 2),
        Err("unsupported Opus decode sample rate 44100 Hz; expected 8000, 12000, 16000, 24000, \
             or 48000 Hz"
            .to_string())
    );
    assert_eq!(
        decode_with_soundkit(&[], 48000, 0),
        Err("Opus decode channel count must be 1 or 2".to_string())
    );
    assert_eq!(
        decode_with_soundkit(&[], 48000, 3),
        Err("unsupported Opus channel mapping for 3 channels; the single-stream decoder supports \
             mono or stereo"
            .to_string())
    );
}

#[test]
fn decoder_reports_broken_streams() {
    let stream = encode_with_soundkit(&track(tone(960)), 48000, 1, 960, 64000).0.unwrap();
    assert_eq!(
        decode_with_soundkit(&stream[..stream.len() - 1], 48000, 1),
        Err("truncated soundkit packet stream".to_string())
    );
    let mut long = stream.clone();
    long.extend([0, 0, 0, 0, 1, 2]);
    assert_eq!(decode_with_soundkit(&long, 48000, 1), decode_with_soundkit(&stream, 48000, 1));
    // A packet that promises more frames than it can hold
    assert!(decode_with_soundkit(&[2, 0, 0, 0, 0xff, 0x3f], 48000, 1).is_err());
    let mut session = SoundkitDecoder::new(48000, 1).unwrap_or_else(|e| panic!("{e}"));
    assert_eq!(session.decode_packet(&stream[4..]).unwrap().len(), 960);
}

#[test]
fn decoding_goes_on_where_it_was() {
    let source = track(tone(3 * 960));
    let stream = encode_with_soundkit(&source, 48000, 1, 960, 64000).0.unwrap();
    let (packets, _) = packets_of(&stream);
    let mut session = SoundkitDecoder::new(48000, 1).unwrap_or_else(|e| panic!("{e}"));
    let mut pieces = Vec::new();
    for packet in &packets {
        pieces.extend(session.decode_packet(packet).unwrap());
    }
    assert_eq!(Ok(pieces), decode_with_soundkit(&stream, 48000, 1));
}

#[test]
fn replies_are_collected() {
    let stream = [1, 0, 0, 0, 7, 0, 0, 0, 0, 2, 0, 0, 0, 8, 9];
    let mut run = StreamDecoder::new(&stream, "cut".to_string());
    assert_eq!(run.next_packet(), Some(vec![7]));
    run.accept(Ok(vec![1, 2]));
    assert_eq!(run.next_packet(), Some(vec![8, 9]));
    run.accept(Ok(vec![3]));
    assert_eq!(run.next_packet(), None);
    assert_eq!(run.finish(), Ok(vec![1, 2, 3]));

    let mut run = StreamDecoder::new(&stream, "cut".to_string());
    assert_eq!(run.next_packet(), Some(vec![7]));
    run.accept(Err("refused".to_string()));
    assert_eq!(run.next_packet(), None);
    run.accept(Ok(vec![1]));
    assert_eq!(run.finish(), Err("refused".to_string()));

    let mut run = StreamDecoder::new(&stream[..14], "cut".to_string());
    assert_eq!(run.next_packet(), Some(vec![7]));
    run.accept(Ok(vec![1, 2]));
    assert_eq!(run.next_packet(), None);
    assert_eq!(run.finish(), Err("cut".to_string()));
}

#[test]
fn runs_are_reported() {
    let source = track(vec![10, 20, 30]);
    let r = run_engine(Backend::SoundKit, &source, &vec![1, 2], Ok(vec![10, 20]), 5, 6);
    assert_eq!(r.track, "tone");
    assert_eq!(r.backend, Backend::SoundKit);
    assert_eq!((r.encode_nanos, r.decode_nanos), (5, 6));
    assert_eq!((r.encoded_bytes, r.decoded_bytes), (2, 4));
    assert_eq!(r.source_samples, 3);
    assert_eq!(r.output_len_match, -1);
    assert_eq!(r.quality, compare_pcm(&[10, 20, 30], &[10, 20]));
    assert!(r.is_success());

    let r = run_engine(Backend::LibOpusRust, &source, &vec![1], Err("no".to_string()), 5, 6);
    assert_eq!(r.decode_error, Some("no".to_string()));
    assert_eq!((r.encoded_bytes, r.decoded_bytes, r.output_len_match), (1, 0, -3));
    assert_eq!(r.quality, None);
    assert!(!r.is_success());

    let r = encode_failed(Backend::LibOpusRust, &source, "bad".to_string(), 9);
    assert_eq!(r.encode_error, Some("bad".to_string()));
    assert_eq!((r.encode_nanos, r.decode_nanos, r.source_samples), (9, 0, 0));
    assert!(!r.is_success());
}

#[test]
fn summary_counts_successes() {
    let source = track(vec![10, 20, 30]);
    let good =
        |n: u64| run_engine(Backend::SoundKit, &source, &vec![0; 7], Ok(vec![1, 2]), n, 2 * n);
    let bad = || encode_failed(Backend::SoundKit, &source, "bad".to_string(), 1000);
    let results: Vec<EngineResult> = vec![good(1), bad(), good(10)];
    let expected = Summary::Totals(Totals {
        good: 2,
        encode_nanos: 11,
        decode_nanos: 22,
        encoded_bytes: 14,
        decoded_bytes: 8,
    });
    assert_eq!(summarize(&results), expected);
    assert_eq!(summarize(&vec![good(1), good(10)]), expected);
    assert_eq!(summarize(&vec![]), Summary::Nothing);
    assert_eq!(summarize(&vec![bad(), bad()]), Summary::NoSuccess);
}

#[test]
fn bytes_are_counted() {
    assert_eq!(pcm_bytes(3), 6);
    assert_eq!(pcm_bytes(usize::MAX), usize::MAX);
    assert_eq!(source_bytes(&vec![track(vec![1, 2]), track(vec![]), track(vec![3])]), 6);
}

#[test]
fn reader_stays_at_the_end() {
    let mut reader = PacketReader::new(&[1, 0, 0, 0, 7, 0, 0, 0, 0]);
    assert!(matches!(reader.next_packet(), NextPacket::Packet(p) if p == vec![7]));
    for _ in 0..3 {
        assert!(matches!(reader.next_packet(), NextPacket::End));
    }

    let mut reader = PacketReader::new(&[1, 0, 0, 0, 7, 2, 0, 0, 0, 9]);
    assert!(matches!(reader.next_packet(), NextPacket::Packet(p) if p == vec![7]));
    for _ in 0..3 {
        assert!(matches!(reader.next_packet(), NextPacket::Truncated));
    }
}
