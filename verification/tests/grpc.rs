use media_api::audio::{AudioChunk, AudioFormat, DecoderOutput};
use media_api::decode::DecodeOptions;
use media_api::grpc::{
    acquire_failure_message, resolve_options, DecodeRequest, DecodeStream, Phase, RequestOptions,
    StreamAction, StreamEvent,
};

fn defaults() -> DecodeOptions {
    DecodeOptions {
        output_sample_rate: Some(16000),
        output_bits_per_sample: Some(16),
        output_channels: None,
    }
}

fn message(data: &[u8], new_segment: bool) -> StreamEvent {
    StreamEvent::Message(DecodeRequest { data: data.to_vec(), options: None, new_segment })
}

fn audio(data: &[u8]) -> StreamEvent {
    StreamEvent::Output(DecoderOutput::Audio(AudioChunk {
        sample_rate: 16000,
        channels: 1,
        bits_per_sample: 16,
        format: AudioFormat::PcmSigned,
        data: data.to_vec(),
    }))
}

fn pending() -> StreamEvent {
    StreamEvent::Output(DecoderOutput::Pending)
}

fn closed() -> StreamEvent {
    StreamEvent::Output(DecoderOutput::Closed)
}

fn shown(actions: Vec<StreamAction<Vec<u8>>>) -> String {
    format!("{actions:?}")
}

const META: &str =
    "Respond(Metadata { sample_rate: 16000, channels: 1, bits_per_sample: 16 })";

#[test]
fn zero_stands_for_the_default() {
    let asked = RequestOptions {
        output_sample_rate: 0,
        output_bits_per_sample: 0,
        output_channels: 0,
    };
    assert_eq!(resolve_options(defaults(), asked), defaults());
    let asked = RequestOptions {
        output_sample_rate: 48000,
        output_bits_per_sample: 24,
        output_channels: 258,
    };
    assert_eq!(
        resolve_options(defaults(), asked),
        DecodeOptions {
            output_sample_rate: Some(48000),
            output_bits_per_sample: Some(24),
            output_channels: Some(2),
        }
    );
}

#[test]
fn refusal_names_its_reason() {
    assert_eq!(
        acquire_failure_message("Decoder pool shutdown"),
        "Failed to acquire decoder: Decoder pool shutdown"
    );
}

#[test]
fn stream_announces_then_sends_audio() {
    let mut stream = DecodeStream::new(defaults());
    assert_eq!(
        shown(stream.step(message(b"ab", false))),
        "[Acquire(DecodeOptions { output_sample_rate: Some(16000), \
         output_bits_per_sample: Some(16), output_channels: None })]"
    );
    assert_eq!(shown(stream.step(StreamEvent::Acquired)), "[Feed([97, 98])]");
    assert_eq!(shown(stream.step(StreamEvent::Fed(true))), "[Poll]");
    assert_eq!(shown(stream.step(audio(&[1, 2]))), "[Poll]");
    assert_eq!(shown(stream.step(audio(&[3]))), "[Poll]");
    assert_eq!(
        shown(stream.step(pending())),
        format!("[{META}, Respond(PcmData([1, 2])), Respond(PcmData([3])), NextMessage]")
    );
    assert_eq!(shown(stream.step(message(b"", false))), "[Poll]");
    assert_eq!(shown(stream.step(pending())), "[NextMessage]");
    assert_eq!(shown(stream.step(StreamEvent::InputEnded)), "[SignalEnd, Poll]");
    assert_eq!(shown(stream.step(audio(&[4]))), "[Poll]");
    assert_eq!(shown(stream.step(closed())), "[Respond(PcmData([4])), Release, Stop]");
    assert_eq!(stream.phase(), Phase::Ended);
}

#[test]
fn new_segment_drains_and_announces_again() {
    let mut stream = DecodeStream::new(defaults());
    stream.step(message(b"a", false));
    stream.step(StreamEvent::Acquired);
    stream.step(StreamEvent::Fed(true));
    stream.step(audio(&[1]));
    stream.step(pending());
    let asked = RequestOptions {
        output_sample_rate: 8000,
        output_bits_per_sample: 0,
        output_channels: 1,
    };
    assert_eq!(
        shown(stream.step(StreamEvent::Message(DecodeRequest {
            data: b"b".to_vec(),
            options: Some(asked),
            new_segment: true,
        }))),
        "[SignalEnd, Poll]"
    );
    assert_eq!(shown(stream.step(audio(&[2]))), "[Poll]");
    assert_eq!(
        shown(stream.step(closed())),
        "[Release, Respond(PcmData([2])), Acquire(DecodeOptions { output_sample_rate: \
         Some(8000), output_bits_per_sample: Some(16), output_channels: Some(1) })]"
    );
    assert_eq!(shown(stream.step(StreamEvent::Acquired)), "[Feed([98])]");
    stream.step(StreamEvent::Fed(true));
    stream.step(audio(&[3]));
    assert_eq!(
        shown(stream.step(pending())),
        format!("[{META}, Respond(PcmData([3])), NextMessage]")
    );
}

#[test]
fn late_audio_is_not_lost() {
    let mut stream = DecodeStream::new(defaults());
    stream.step(message(b"a", false));
    stream.step(StreamEvent::Acquired);
    stream.step(StreamEvent::Fed(true));
    stream.step(pending());
    assert_eq!(shown(stream.step(StreamEvent::InputFailed)), "[SignalEnd, Poll]");
    for _ in 0..100 {
        assert_eq!(shown(stream.step(pending())), "[PauseAndPoll]");
    }
    assert_eq!(shown(stream.step(audio(&[1]))), "[Poll]");
    for _ in 0..11 {
        assert_eq!(shown(stream.step(pending())), "[PauseAndPoll]");
    }
    assert_eq!(
        shown(stream.step(StreamEvent::Output(DecoderOutput::Failed("bad".to_string())))),
        "[Poll]"
    );
    assert_eq!(shown(stream.step(audio(&[2]))), "[Poll]");
    assert_eq!(
        shown(stream.step(closed())),
        format!("[{META}, Respond(PcmData([1])), Respond(PcmData([2])), Release, Stop]")
    );
    assert_eq!(stream.phase(), Phase::Ended);
}

#[test]
fn late_audio_of_an_earlier_segment_is_not_lost() {
    let mut stream = DecodeStream::new(defaults());
    stream.step(message(b"a", false));
    stream.step(StreamEvent::Acquired);
    stream.step(StreamEvent::Fed(true));
    stream.step(pending());
    assert_eq!(shown(stream.step(message(b"b", true))), "[SignalEnd, Poll]");
    for _ in 0..20 {
        assert_eq!(shown(stream.step(pending())), "[PauseAndPoll]");
    }
    assert_eq!(shown(stream.step(audio(&[1]))), "[Poll]");
    assert!(shown(stream.step(closed()))
        .starts_with(&format!("[Release, {META}, Respond(PcmData([1])), Acquire(")));
}

#[test]
fn broken_decoder_is_replaced() {
    let mut stream = DecodeStream::new(defaults());
    stream.step(message(b"a", false));
    stream.step(StreamEvent::Acquired);
    assert_eq!(shown(stream.step(StreamEvent::Fed(false))), "[Release, NextMessage]");
    assert!(shown(stream.step(message(b"b", false))).starts_with("[Acquire("));
    assert_eq!(shown(stream.step(StreamEvent::Acquired)), "[Feed([98])]");
    stream.step(StreamEvent::Fed(true));
    assert_eq!(shown(stream.step(closed())), "[Release, NextMessage]");
    assert_eq!(shown(stream.step(StreamEvent::InputEnded)), "[Stop]");
}

#[test]
fn stream_ends_when_it_has_to() {
    let mut stream = DecodeStream::new(defaults());
    assert_eq!(shown(stream.step(StreamEvent::Shutdown)), "[Stop]");
    assert_eq!(shown(stream.step(message(b"a", false))), "[]");

    let mut stream = DecodeStream::new(defaults());
    stream.step(message(b"a", false));
    assert_eq!(shown(stream.step(StreamEvent::AcquireFailed)), "[Reject, Stop]");

    let mut stream = DecodeStream::new(defaults());
    stream.step(message(b"a", false));
    assert_eq!(shown(stream.step(StreamEvent::ClientGone)), "[Stop]");
}
