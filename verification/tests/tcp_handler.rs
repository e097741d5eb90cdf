use media_api::audio::{AudioChunk, AudioFormat, DecoderOutput};
use media_api::decode::DecodeOptions;
use media_api::tcp_handler::{
    decode_meta, encode_meta, Frame, PcmEncoding, Phase, Tag, TcpAction, TcpEvent, TcpSession,
};
use tcp_changes::framing::tags;

fn chunk(format: AudioFormat, data: &[u8]) -> DecoderOutput {
    DecoderOutput::Audio(AudioChunk {
        sample_rate: 16000,
        channels: 1,
        bits_per_sample: 16,
        format,
        data: data.to_vec(),
    })
}

fn frame(tag: Tag, data: &[u8]) -> TcpEvent {
    TcpEvent::Frame(Frame { tag: tag.bytes(), data: data.to_vec() })
}

fn options() -> DecodeOptions {
    DecodeOptions {
        output_sample_rate: Some(16000),
        output_bits_per_sample: None,
        output_channels: Some(1),
    }
}

const ACQUIRE: &str = "[Acquire(DecodeOptions { output_sample_rate: Some(16000), \
                       output_bits_per_sample: None, output_channels: Some(1) })]";

fn shown(actions: Vec<TcpAction<Vec<u8>>>) -> String {
    format!("{actions:?}")
}

#[test]
fn tags_are_those_of_the_wire() {
    assert_eq!(&Tag::Dcod.bytes(), tags::DCOD);
    assert_eq!(&Tag::Pcms.bytes(), tags::PCMS);
    assert_eq!(&Tag::Done.bytes(), tags::DONE);
    assert_eq!(&Tag::Eror.bytes(), tags::EROR);
    assert_eq!(&Tag::Meta.bytes(), tags::META);
    let f = Frame { tag: *b"DONE", data: vec![] };
    assert!(f.tag_matches(Tag::Done));
    assert!(!f.tag_matches(Tag::Dcod));
}

#[test]
fn metadata_has_its_bytes() {
    assert_eq!(encode_meta(16000, 1, 16, PcmEncoding::Signed), [0, 0, 0x3e, 0x80, 1, 16, 0]);
    assert_eq!(encode_meta(48000, 2, 32, PcmEncoding::Float), [0, 0, 0xbb, 0x80, 2, 32, 1]);
}

#[test]
fn metadata_is_read_back() {
    for rate in [0u32, 8000, 44100, u32::MAX] {
        for encoding in [PcmEncoding::Signed, PcmEncoding::Float] {
            let bytes = encode_meta(rate, 2, 24, encoding);
            assert_eq!(decode_meta(&bytes), Some((rate, 2, 24, encoding)));
        }
    }
}

#[test]
fn metadata_reading_is_lenient_where_it_can_be() {
    assert_eq!(decode_meta(&[]), None);
    assert_eq!(decode_meta(&[0, 0, 0x3e, 0x80, 1]), None);
    let mut long = encode_meta(16000, 1, 16, PcmEncoding::Float).to_vec();
    long.push(9);
    assert_eq!(decode_meta(&long), Some((16000, 1, 16, PcmEncoding::Float)));
}

#[test]
fn session_streams_audio() {
    let mut session = TcpSession::new(options());
    assert_eq!(session.phase(), Phase::Idle);
    assert_eq!(shown(session.step(frame(Tag::Dcod, b"abc"))), ACQUIRE);
    assert_eq!(shown(session.step(TcpEvent::Acquired)), "[Feed([97, 98, 99])]");
    assert_eq!(shown(session.step(TcpEvent::Fed(true))), "[Poll]");
    assert_eq!(
        shown(session.step(TcpEvent::Output(chunk(AudioFormat::PcmSigned, &[1, 2])))),
        "[Write(Meta, [0, 0, 62, 128, 1, 16, 0]), Write(Pcms, [1, 2]), Poll]"
    );
    assert_eq!(
        shown(session.step(TcpEvent::Output(chunk(AudioFormat::PcmSigned, &[3])))),
        "[Write(Pcms, [3]), Poll]"
    );
    assert_eq!(
        shown(session.step(TcpEvent::Output(DecoderOutput::Failed("bad frame".to_string())))),
        "[Poll]"
    );
    assert_eq!(shown(session.step(TcpEvent::Output(DecoderOutput::Pending))), "[ReadFrame]");
    assert_eq!(shown(session.step(frame(Tag::Dcod, b""))), "[SignalEnd, Receive]");
    assert_eq!(
        shown(session.step(TcpEvent::Output(chunk(AudioFormat::PcmFloat, &[4])))),
        "[Write(Pcms, [4]), Receive]"
    );
    assert_eq!(
        shown(session.step(TcpEvent::Output(DecoderOutput::Closed))),
        "[Write(Done, []), ReadFrame]"
    );
    assert_eq!(session.phase(), Phase::Idle);
}

#[test]
fn connection_serves_session_after_session() {
    let mut session = TcpSession::new(options());
    for _ in 0..3 {
        assert_eq!(shown(session.step(frame(Tag::Dcod, b"x"))), ACQUIRE);
        assert_eq!(shown(session.step(TcpEvent::Acquired)), "[Feed([120])]");
        assert_eq!(shown(session.step(TcpEvent::Fed(true))), "[Poll]");
        assert_eq!(shown(session.step(TcpEvent::Output(DecoderOutput::Pending))), "[ReadFrame]");
        assert_eq!(shown(session.step(frame(Tag::Done, b""))), "[SignalEnd, Receive]");
        assert_eq!(
            shown(session.step(TcpEvent::Output(chunk(AudioFormat::PcmFloat, &[9])))),
            "[Write(Meta, [0, 0, 62, 128, 1, 16, 1]), Write(Pcms, [9]), Receive]"
        );
        assert_eq!(
            shown(session.step(TcpEvent::Output(DecoderOutput::Closed))),
            "[Write(Done, []), ReadFrame]"
        );
    }
    assert_eq!(shown(session.step(TcpEvent::EndOfStream)), "[Close]");
    assert_eq!(session.phase(), Phase::Closed);
}

#[test]
fn only_audio_opens_a_session() {
    let mut session = TcpSession::new(options());
    for tag in [Tag::Done, Tag::Meta, Tag::Pcms, Tag::Eror] {
        assert_eq!(shown(session.step(frame(tag, b"zz"))), "[ReadFrame]");
        assert_eq!(session.phase(), Phase::Idle);
    }
    assert_eq!(shown(session.step(frame(Tag::Dcod, b""))), ACQUIRE);
    assert_eq!(shown(session.step(TcpEvent::Acquired)), "[SignalEnd, Receive]");
}

#[test]
fn failures_end_what_they_should() {
    let mut session = TcpSession::new(options());
    session.step(frame(Tag::Dcod, b"x"));
    assert_eq!(shown(session.step(TcpEvent::AcquireFailed)), "[Fail]");
    assert_eq!(session.phase(), Phase::Failed);
    assert_eq!(shown(session.step(frame(Tag::Dcod, b"x"))), "[]");

    let mut session = TcpSession::new(options());
    session.step(frame(Tag::Dcod, b"x"));
    session.step(TcpEvent::Acquired);
    assert_eq!(shown(session.step(TcpEvent::Fed(false))), "[Receive]");
    assert_eq!(
        shown(session.step(TcpEvent::Output(DecoderOutput::Closed))),
        "[Write(Done, []), ReadFrame]"
    );
}

#[test]
fn other_frames_in_a_session_are_passed_over() {
    let mut session = TcpSession::new(options());
    session.step(frame(Tag::Dcod, b"x"));
    session.step(TcpEvent::Acquired);
    session.step(TcpEvent::Fed(true));
    session.step(TcpEvent::Output(DecoderOutput::Closed));
    assert_eq!(session.phase(), Phase::Reading);
    assert_eq!(shown(session.step(frame(Tag::Meta, b"x"))), "[Poll]");
    session.step(TcpEvent::Output(DecoderOutput::Pending));
    assert_eq!(shown(session.step(TcpEvent::EndOfStream)), "[SignalEnd, Receive]");
}

#[test]
fn end_of_input_is_signalled_once() {
    let mut session = TcpSession::new(options());
    let mut log = String::new();
    for event in [
        frame(Tag::Dcod, b"x"),
        TcpEvent::Acquired,
        TcpEvent::Fed(true),
        TcpEvent::Output(DecoderOutput::Pending),
        frame(Tag::Dcod, b"y"),
        TcpEvent::Fed(true),
        TcpEvent::Output(DecoderOutput::Pending),
        frame(Tag::Done, b""),
        TcpEvent::Output(chunk(AudioFormat::PcmSigned, &[1])),
        TcpEvent::Output(DecoderOutput::Closed),
    ] {
        log.push_str(&shown(session.step(event)));
    }
    assert_eq!(log.matches("SignalEnd").count(), 1);
    assert_eq!(session.phase(), Phase::Idle);
}

#[test]
fn metadata_is_written_back_as_it_was() {
    let data = [1, 2, 3, 4, 5, 6, 1, 99, 98];
    let (rate, channels, bits, encoding) = decode_meta(&data).unwrap();
    assert_eq!(encode_meta(rate, channels, bits, encoding), data[..7]);
}
