//! The raw TCP protocol: framed requests on a persistent connection.
//!
//! Every frame carries a four-byte tag. A client opens a session with a `DCOD`
//! frame and goes on sending `DCOD` frames of encoded audio; an empty `DCOD`
//! frame, a `DONE` frame or the end of the connection ends the input. The
//! server answers with one `META` frame, then `PCMS` frames of decoded audio,
//! and closes the session with a `DONE` frame.

use crate::audio::{encoding_of, pcm_encoding, AudioChunk, AudioFormat, DecoderOutput};
use crate::decode::DecodeOptions;
use vstd::prelude::*;

pub use crate::audio::PcmEncoding;

verus! {

/// The tags of the protocol.
#[derive(Debug, Clone, Copy, PartialEq, Eq, Structural)]
pub enum Tag {
    /// Encoded audio from the client.
    Dcod,
    /// Decoded audio from the server.
    Pcms,
    /// End of a session.
    Done,
    /// An error report.
    Eror,
    /// The format of the decoded audio.
    Meta,
}

/// The four bytes that stand for a tag on the wire.
pub open spec fn tag_bytes(tag: Tag) -> Seq<u8> {
    match tag {
        Tag::Dcod => seq![68u8, 67u8, 79u8, 68u8],
        Tag::Pcms => seq![80u8, 67u8, 77u8, 83u8],
        Tag::Done => seq![68u8, 79u8, 78u8, 69u8],
        Tag::Eror => seq![69u8, 82u8, 79u8, 82u8],
        Tag::Meta => seq![77u8, 69u8, 84u8, 65u8],
    }
}

impl Tag {
    /// The four bytes of this tag.
    pub fn bytes(self) -> (r: [u8; 4])
        ensures
            r@ == tag_bytes(self),
    {
        let r: [u8; 4] = match self {
            Tag::Dcod => [68u8, 67u8, 79u8, 68u8],
            Tag::Pcms => [80u8, 67u8, 77u8, 83u8],
            Tag::Done => [68u8, 79u8, 78u8, 69u8],
            Tag::Eror => [69u8, 82u8, 79u8, 82u8],
            Tag::Meta => [77u8, 69u8, 84u8, 65u8],
        };
        assert(r@ =~= tag_bytes(self));
        r
    }
}

/// A frame as it was read from a connection.
#[derive(Debug)]
pub struct Frame {
    pub tag: [u8; 4],
    pub data: Vec<u8>,
}

impl Frame {
    /// Whether this frame carries `tag`.
    pub open spec fn has_tag(self, tag: Tag) -> bool {
        self.tag@ == tag_bytes(tag)
    }

    /// Whether this frame carries `tag`.
    pub fn tag_matches(&self, tag: Tag) -> (r: bool)
        ensures
            r == self.has_tag(tag),
    {
        let other: [u8; 4] = tag.bytes();
        let r: bool = self.tag[0] == other[0] && self.tag[1] == other[1] && self.tag[2] == other[2]
            && self.tag[3] == other[3];
        proof {
            if r {
                assert(self.tag@ =~= other@);
            }
        }
        r
    }
}

// ---------------------------------------------------------------------------
// Audio metadata
// ---------------------------------------------------------------------------

/// Byte `k` of `v`, counted from the least significant one.
pub open spec fn byte_of(v: u32, k: nat) -> u8 {
    if k == 0 {
        (v % 256) as u8
    } else if k == 1 {
        (v / 256 % 256) as u8
    } else if k == 2 {
        (v / 65536 % 256) as u8
    } else {
        (v / 16777216) as u8
    }
}

/// The byte that stands for an encoding on the wire.
pub open spec fn encoding_byte(encoding: PcmEncoding) -> u8 {
    match encoding {
        PcmEncoding::Signed => 0,
        PcmEncoding::Float => 1,
    }
}

/// Audio metadata on the wire: the sample rate in four bytes, most significant
/// first, then one byte each for channels, bits per sample and encoding.
pub open spec fn meta_bytes(sample_rate: u32, channels: u8, bits: u8, encoding: PcmEncoding) -> Seq<
    u8,
> {
    seq![
        byte_of(sample_rate, 3),
        byte_of(sample_rate, 2),
        byte_of(sample_rate, 1),
        byte_of(sample_rate, 0),
        channels,
        bits,
        encoding_byte(encoding),
    ]
}

/// What a client learns from metadata bytes: nothing where there are fewer than
/// seven, else the four values; an unknown encoding byte counts as signed, and
/// what follows the seventh byte is not looked at.
pub open spec fn meta_of(data: Seq<u8>) -> Option<(u32, u8, u8, PcmEncoding)> {
    if data.len() < 7 {
        None
    } else {
        Some(
            (
                (data[0] * 16777216 + data[1] * 65536 + data[2] * 256 + data[3]) as u32,
                data[4],
                data[5],
                if data[6] == 1 {
                    PcmEncoding::Float
                } else {
                    PcmEncoding::Signed
                },
            ),
        )
    }
}

/// Encodes audio metadata.
pub fn encode_meta(sample_rate: u32, channels: u8, bits: u8, encoding: PcmEncoding) -> (r: [u8; 7])
    ensures
        r@ == meta_bytes(sample_rate, channels, bits, encoding),
{
    let code: u8 = match encoding {
        PcmEncoding::Signed => 0,
        PcmEncoding::Float => 1,
    };
    let r: [u8; 7] = [
        (sample_rate / 16777216) as u8,
        (sample_rate / 65536 % 256) as u8,
        (sample_rate / 256 % 256) as u8,
        (sample_rate % 256) as u8,
        channels,
        bits,
        code,
    ];
    assert(r@ =~= meta_bytes(sample_rate, channels, bits, encoding));
    r
}

/// Decodes audio metadata.
pub fn decode_meta(data: &[u8]) -> (r: Option<(u32, u8, u8, PcmEncoding)>)
    ensures
        r == meta_of(data@),
{
    if data.len() < 7 {
        return None;
    }
    let sample_rate: u32 = (data[0] as u32) * 16777216 + (data[1] as u32) * 65536 + (data[2] as u32)
        * 256 + (data[3] as u32);
    let encoding: PcmEncoding = match data[6] {
        0 => PcmEncoding::Signed,
        1 => PcmEncoding::Float,
        _ => PcmEncoding::Signed,
    };
    Some((sample_rate, data[4], data[5], encoding))
}

/// Metadata survives the wire: decoding what was encoded gives the values back,
/// whatever follows it.
pub proof fn law_meta_roundtrip(
    sample_rate: u32,
    channels: u8,
    bits: u8,
    encoding: PcmEncoding,
    rest: Seq<u8>,
)
    ensures
        meta_of(meta_bytes(sample_rate, channels, bits, encoding) + rest) == Some(
            (sample_rate, channels, bits, encoding),
        ),
{
    let b = meta_bytes(sample_rate, channels, bits, encoding) + rest;
    assert(b[0] == byte_of(sample_rate, 3) && b[1] == byte_of(sample_rate, 2) && b[2] == byte_of(
        sample_rate,
        1,
    ) && b[3] == byte_of(sample_rate, 0));
    assert(b[0] * 16777216 + b[1] * 65536 + b[2] * 256 + b[3] == sample_rate);
}

/// The bytes of a number that was put together from four bytes.
proof fn lemma_big_endian(v: u32, a: u8, b: u8, c: u8, d: u8)
    requires
        v == a * 16777216 + b * 65536 + c * 256 + d,
    ensures
        byte_of(v, 3) == a,
        byte_of(v, 2) == b,
        byte_of(v, 1) == c,
        byte_of(v, 0) == d,
{
    assert(v / 16777216 == a);
    assert(v / 65536 == a * 256 + b);
    assert(v / 256 == a * 65536 + b * 256 + c);
}

/// The first seven bytes of metadata with a known encoding byte are what the
/// decoded values encode to.
pub proof fn law_meta_canonical(data: Seq<u8>)
    requires
        data.len() >= 7,
        data[6] <= 1,
    ensures
        meta_of(data) matches Some((sample_rate, channels, bits, encoding)) && meta_bytes(
            sample_rate,
            channels,
            bits,
            encoding,
        ) == data.take(7),
{
    let m = meta_of(data)->0;
    let v = m.0;
    lemma_big_endian(v, data[0], data[1], data[2], data[3]);
    assert(meta_bytes(m.0, m.1, m.2, m.3) =~= data.take(7));
}

// ---------------------------------------------------------------------------
// Sessions on a connection
// ---------------------------------------------------------------------------

/// Where a connection stands: which answer it is waiting for.
#[derive(Debug, Clone, Copy, PartialEq, Eq, Structural)]
pub enum Phase {
    /// Between sessions, waiting for a frame.
    Idle,
    /// A session was asked for, waiting for a decoder.
    Opening,
    /// Input was handed to the decoder, waiting for its acceptance.
    Feeding,
    /// Collecting the output that is ready.
    Draining,
    /// In a session, waiting for a frame.
    Reading,
    /// The input has ended, waiting for the remaining output.
    Flushing,
    /// The client has gone.
    Closed,
    /// No decoder could be had.
    Failed,
}

/// What happened in answer to the last action.
#[derive(Debug)]
pub enum TcpEvent {
    /// A frame was read.
    Frame(Frame),
    /// The client closed the connection.
    EndOfStream,
    /// A decoder was acquired.
    Acquired,
    /// No decoder could be acquired.
    AcquireFailed,
    /// Whether the decoder took its input.
    Fed(bool),
    /// What the decoder had ready.
    Output(DecoderOutput),
}

/// What is to be done on a connection. `B` is a run of bytes.
#[derive(Debug)]
pub enum TcpAction<B> {
    /// Read the next frame.
    ReadFrame,
    /// Acquire a decoder with these options for a new session.
    Acquire(DecodeOptions),
    /// Hand input to the decoder.
    Feed(B),
    /// Tell the decoder that its input has ended.
    SignalEnd,
    /// Ask the decoder for output without waiting.
    Poll,
    /// Wait for output of the decoder.
    Receive,
    /// Write a frame to the client.
    Write(Tag, B),
    /// End the connection in good order.
    Close,
    /// End the connection with the error of the pool.
    Fail,
}

impl TcpAction<Vec<u8>> {
    /// This action with its bytes as a sequence.
    pub open spec fn model(self) -> TcpAction<Seq<u8>> {
        match self {
            TcpAction::ReadFrame => TcpAction::ReadFrame,
            TcpAction::Acquire(options) => TcpAction::Acquire(options),
            TcpAction::Feed(b) => TcpAction::Feed(b@),
            TcpAction::SignalEnd => TcpAction::SignalEnd,
            TcpAction::Poll => TcpAction::Poll,
            TcpAction::Receive => TcpAction::Receive,
            TcpAction::Write(tag, b) => TcpAction::Write(tag, b@),
            TcpAction::Close => TcpAction::Close,
            TcpAction::Fail => TcpAction::Fail,
        }
    }
}

/// A list of actions with their bytes as sequences.
pub open spec fn actions_model(actions: Seq<TcpAction<Vec<u8>>>) -> Seq<TcpAction<Seq<u8>>> {
    actions.map_values(|a: TcpAction<Vec<u8>>| a.model())
}

/// The state of a connection as a value.
pub struct SessionModel {
    pub phase: Phase,
    /// The options with which the decoders are acquired.
    pub options: DecodeOptions,
    /// Whether the current session has announced its audio format.
    pub meta_sent: bool,
    /// The data of the frame that opened the session, while a decoder is awaited.
    pub first: Seq<u8>,
}

/// The state between sessions.
pub open spec fn idle_session(options: DecodeOptions) -> SessionModel {
    SessionModel { phase: Phase::Idle, options, meta_sent: false, first: Seq::empty() }
}

/// The metadata that announces a chunk.
pub open spec fn chunk_meta(chunk: AudioChunk) -> Seq<u8> {
    meta_bytes(
        chunk.sample_rate,
        chunk.channels,
        chunk.bits_per_sample,
        encoding_of(chunk.format),
    )
}

/// What is written for a chunk: its audio, after the metadata if it is the first.
pub open spec fn chunk_writes(meta_sent: bool, chunk: AudioChunk) -> Seq<TcpAction<Seq<u8>>> {
    if meta_sent {
        seq![TcpAction::Write(Tag::Pcms, chunk.data@)]
    } else {
        seq![
            TcpAction::Write(Tag::Meta, chunk_meta(chunk)),
            TcpAction::Write(Tag::Pcms, chunk.data@),
        ]
    }
}

/// Whether an event is an answer to what a connection in this phase waits for.
pub open spec fn answers(phase: Phase, event: TcpEvent) -> bool {
    match phase {
        Phase::Idle | Phase::Reading => event is Frame || event is EndOfStream,
        Phase::Opening => event is Acquired || event is AcquireFailed,
        Phase::Feeding => event is Fed,
        Phase::Draining => event is Output,
        Phase::Flushing => event matches TcpEvent::Output(out) && !(out is Pending),
        Phase::Closed | Phase::Failed => false,
    }
}

/// A frame read between sessions: only `DCOD` opens one.
pub open spec fn open_session(options: DecodeOptions, frame: Frame) -> (SessionModel, Seq<TcpAction<Seq<u8>>>) {
    if frame.has_tag(Tag::Dcod) {
        (
            SessionModel { phase: Phase::Opening, first: frame.data@, ..idle_session(options) },
            seq![TcpAction::Acquire(options)],
        )
    } else {
        (idle_session(options), seq![TcpAction::ReadFrame])
    }
}

/// The input of a session has ended.
pub open spec fn end_input(m: SessionModel) -> (SessionModel, Seq<TcpAction<Seq<u8>>>) {
    (
        SessionModel { phase: Phase::Flushing, first: Seq::empty(), ..m },
        seq![TcpAction::SignalEnd, TcpAction::Receive],
    )
}

/// Input for the decoder; an empty run of bytes ends the input.
pub open spec fn take_input(m: SessionModel, data: Seq<u8>) -> (
    SessionModel,
    Seq<TcpAction<Seq<u8>>>,
) {
    if data.len() == 0 {
        end_input(m)
    } else {
        (
            SessionModel { phase: Phase::Feeding, first: Seq::empty(), ..m },
            seq![TcpAction::Feed(data)],
        )
    }
}

/// A frame read in a session: `DCOD` is input, `DONE` ends the input, any other
/// tag is passed over.
pub open spec fn continue_session(m: SessionModel, frame: Frame) -> (
    SessionModel,
    Seq<TcpAction<Seq<u8>>>,
) {
    if frame.has_tag(Tag::Dcod) {
        take_input(m, frame.data@)
    } else if frame.has_tag(Tag::Done) {
        end_input(m)
    } else {
        (
            SessionModel { phase: Phase::Draining, first: Seq::empty(), ..m },
            seq![TcpAction::Poll],
        )
    }
}

/// Output of the decoder while the session still reads frames.
pub open spec fn drain_output(m: SessionModel, output: DecoderOutput) -> (
    SessionModel,
    Seq<TcpAction<Seq<u8>>>,
) {
    match output {
        DecoderOutput::Audio(chunk) => (
            SessionModel { phase: Phase::Draining, meta_sent: true, first: Seq::empty(), ..m },
            chunk_writes(m.meta_sent, chunk).push(TcpAction::Poll),
        ),
        DecoderOutput::Failed(_) => (
            SessionModel { phase: Phase::Draining, first: Seq::empty(), ..m },
            seq![TcpAction::Poll],
        ),
        DecoderOutput::Pending | DecoderOutput::Closed => (
            SessionModel { phase: Phase::Reading, first: Seq::empty(), ..m },
            seq![TcpAction::ReadFrame],
        ),
    }
}

/// Output of the decoder once the input has ended. When the decoder has
/// finished, the session is closed and the connection is as before it.
pub open spec fn flush_output(m: SessionModel, output: DecoderOutput) -> (
    SessionModel,
    Seq<TcpAction<Seq<u8>>>,
) {
    match output {
        DecoderOutput::Audio(chunk) => (
            SessionModel { phase: Phase::Flushing, meta_sent: true, first: Seq::empty(), ..m },
            chunk_writes(m.meta_sent, chunk).push(TcpAction::Receive),
        ),
        DecoderOutput::Failed(_) | DecoderOutput::Pending => (
            SessionModel { phase: Phase::Flushing, first: Seq::empty(), ..m },
            seq![TcpAction::Receive],
        ),
        DecoderOutput::Closed => (
            idle_session(m.options),
            seq![TcpAction::Write(Tag::Done, Seq::empty()), TcpAction::ReadFrame],
        ),
    }
}

/// One step of a connection: the next state and what is to be done. An event
/// that is no answer to what the connection waits for changes nothing.
pub open spec fn session_step(m: SessionModel, event: TcpEvent) -> (
    SessionModel,
    Seq<TcpAction<Seq<u8>>>,
) {
    match (m.phase, event) {
        (Phase::Idle, TcpEvent::Frame(frame)) => open_session(m.options, frame),
        (Phase::Idle, TcpEvent::EndOfStream) => (
            SessionModel { phase: Phase::Closed, ..m },
            seq![TcpAction::Close],
        ),
        (Phase::Opening, TcpEvent::Acquired) => take_input(m, m.first),
        (Phase::Opening, TcpEvent::AcquireFailed) => (
            SessionModel { phase: Phase::Failed, first: Seq::empty(), ..m },
            seq![TcpAction::Fail],
        ),
        (Phase::Feeding, TcpEvent::Fed(taken)) => if taken {
            (SessionModel { phase: Phase::Draining, ..m }, seq![TcpAction::Poll])
        } else {
            (SessionModel { phase: Phase::Flushing, ..m }, seq![TcpAction::Receive])
        },
        (Phase::Draining, TcpEvent::Output(output)) => drain_output(m, output),
        (Phase::Reading, TcpEvent::Frame(frame)) => continue_session(m, frame),
        (Phase::Reading, TcpEvent::EndOfStream) => end_input(m),
        (Phase::Flushing, TcpEvent::Output(output)) => flush_output(m, output),
        _ => (m, seq![]),
    }
}

/// The state of one connection of the decode server.
#[derive(Debug)]
pub struct TcpSession {
    phase: Phase,
    options: DecodeOptions,
    meta_sent: bool,
    first: Vec<u8>,
}

impl View for TcpSession {
    type V = SessionModel;

    closed spec fn view(&self) -> SessionModel {
        SessionModel {
            phase: self.phase,
            options: self.options,
            meta_sent: self.meta_sent,
            first: self.first@,
        }
    }
}

impl TcpSession {
    /// A connection before its first session, whose decoders are acquired with
    /// these options. The first thing to do on it is to read a frame.
    pub fn new(options: DecodeOptions) -> (r: Self)
        ensures
            r@ == idle_session(options),
    {
        let r = TcpSession { phase: Phase::Idle, options, meta_sent: false, first: Vec::new() };
        assert(r@.first =~= Seq::empty());
        r
    }

    /// Where this connection stands.
    pub fn phase(&self) -> (r: Phase)
        ensures
            r == self@.phase,
    {
        self.phase
    }

    /// Takes the answer to the last action and says what to do next, in order.
    pub fn step(&mut self, event: TcpEvent) -> (r: Vec<TcpAction<Vec<u8>>>)
        ensures
            (final(self)@, actions_model(r@)) == session_step(old(self)@, event),
    {
        let mut actions: Vec<TcpAction<Vec<u8>>> = Vec::new();
        match self.phase {
            Phase::Idle => {
                match event {
                    TcpEvent::Frame(frame) => {
                        self.meta_sent = false;
                        if frame.tag_matches(Tag::Dcod) {
                            self.first = frame.data;
                            self.phase = Phase::Opening;
                            actions.push(TcpAction::Acquire(self.options));
                        } else {
                            self.first = Vec::new();
                            actions.push(TcpAction::ReadFrame);
                        }
                    },
                    TcpEvent::EndOfStream => {
                        self.phase = Phase::Closed;
                        actions.push(TcpAction::Close);
                    },
                    _ => {},
                }
            },
            Phase::Opening => {
                match event {
                    TcpEvent::Acquired => {
                        let mut data: Vec<u8> = Vec::new();
                        std::mem::swap(&mut data, &mut self.first);
                        self.take_input(data, &mut actions);
                    },
                    TcpEvent::AcquireFailed => {
                        self.first = Vec::new();
                        self.phase = Phase::Failed;
                        actions.push(TcpAction::Fail);
                    },
                    _ => {},
                }
            },
            Phase::Feeding => {
                if let TcpEvent::Fed(taken) = event {
                    if taken {
                        self.phase = Phase::Draining;
                        actions.push(TcpAction::Poll);
                    } else {
                        self.phase = Phase::Flushing;
                        actions.push(TcpAction::Receive);
                    }
                }
            },
            Phase::Draining => {
                if let TcpEvent::Output(output) = event {
                    self.first = Vec::new();
                    match output {
                        DecoderOutput::Audio(chunk) => {
                            self.write_chunk(chunk, &mut actions);
                            actions.push(TcpAction::Poll);
                        },
                        DecoderOutput::Failed(_) => {
                            actions.push(TcpAction::Poll);
                        },
                        _ => {
                            self.phase = Phase::Reading;
                            actions.push(TcpAction::ReadFrame);
                        },
                    }
                }
            },
            Phase::Reading => {
                match event {
                    TcpEvent::Frame(frame) => {
                        self.first = Vec::new();
                        if frame.tag_matches(Tag::Dcod) {
                            self.take_input(frame.data, &mut actions);
                        } else if frame.tag_matches(Tag::Done) {
                            self.end_input(&mut actions);
                        } else {
                            self.phase = Phase::Draining;
                            actions.push(TcpAction::Poll);
                        }
                    },
                    TcpEvent::EndOfStream => {
                        self.first = Vec::new();
                        self.end_input(&mut actions);
                    },
                    _ => {},
                }
            },
            Phase::Flushing => {
                if let TcpEvent::Output(output) = event {
                    self.first = Vec::new();
                    match output {
                        DecoderOutput::Audio(chunk) => {
                            self.write_chunk(chunk, &mut actions);
                            actions.push(TcpAction::Receive);
                        },
                        DecoderOutput::Closed => {
                            self.phase = Phase::Idle;
                            self.meta_sent = false;
                            actions.push(TcpAction::Write(Tag::Done, Vec::new()));
                            actions.push(TcpAction::ReadFrame);
                        },
                        _ => {
                            actions.push(TcpAction::Receive);
                        },
                    }
                }
            },
            _ => {},
        }
        proof {
            let expected = session_step(old(self)@, event);
            assert(self@.first =~= expected.0.first);
            assert(actions_model(actions@) =~= expected.1);
        }
        actions
    }

    fn end_input(&mut self, actions: &mut Vec<TcpAction<Vec<u8>>>)
        requires
            old(self)@.first == Seq::<u8>::empty(),
        ensures
            final(self)@ == end_input(old(self)@).0,
            actions_model(final(actions)@) == actions_model(old(actions)@) + end_input(
                old(self)@,
            ).1,
    {
        self.phase = Phase::Flushing;
        actions.push(TcpAction::SignalEnd);
        actions.push(TcpAction::Receive);
        assert(actions_model(actions@) =~= actions_model(old(actions)@) + end_input(
            old(self)@,
        ).1);
    }

    fn take_input(&mut self, data: Vec<u8>, actions: &mut Vec<TcpAction<Vec<u8>>>)
        requires
            old(self)@.first == Seq::<u8>::empty(),
        ensures
            final(self)@ == take_input(old(self)@, data@).0,
            actions_model(final(actions)@) == actions_model(old(actions)@) + take_input(
                old(self)@,
                data@,
            ).1,
    {
        if data.is_empty() {
            self.end_input(actions);
        } else {
            self.phase = Phase::Feeding;
            actions.push(TcpAction::Feed(data));
            assert(actions_model(actions@) =~= actions_model(old(actions)@) + take_input(
                old(self)@,
                data@,
            ).1);
        }
    }

    fn write_chunk(&mut self, chunk: AudioChunk, actions: &mut Vec<TcpAction<Vec<u8>>>)
        ensures
            final(self)@ == (SessionModel { meta_sent: true, ..old(self)@ }),
            actions_model(final(actions)@) == actions_model(old(actions)@) + chunk_writes(
                old(self)@.meta_sent,
                chunk,
            ),
    {
        if !self.meta_sent {
            let meta: [u8; 7] = encode_meta(
                chunk.sample_rate,
                chunk.channels,
                chunk.bits_per_sample,
                pcm_encoding(chunk.format),
            );
            let mut bytes: Vec<u8> = Vec::new();
            let mut i: usize = 0;
            while i < 7
                invariant
                    i <= 7,
                    bytes@ == meta@.take(i as int),
                decreases 7 - i,
            {
                bytes.push(meta[i]);
                i += 1;
                assert(bytes@ =~= meta@.take(i as int));
            }
            assert(bytes@ =~= meta@);
            actions.push(TcpAction::Write(Tag::Meta, bytes));
            self.meta_sent = true;
        }
        actions.push(TcpAction::Write(Tag::Pcms, chunk.data));
        assert(actions_model(actions@) =~= actions_model(old(actions)@) + chunk_writes(
            old(self)@.meta_sent,
            chunk,
        ));
    }
}

// ---------------------------------------------------------------------------
// What holds of whole sessions
// ---------------------------------------------------------------------------

/// The state that a run of events leads to, and all that was to be done on the way.
pub open spec fn run(m: SessionModel, events: Seq<TcpEvent>) -> (
    SessionModel,
    Seq<TcpAction<Seq<u8>>>,
)
    decreases events.len(),
{
    if events.len() == 0 {
        (m, seq![])
    } else {
        let before = run(m, events.drop_last());
        let step = session_step(before.0, events.last());
        (step.0, before.1 + step.1)
    }
}

/// The phases between the opening of a session and its end.
pub open spec fn in_session(phase: Phase) -> bool {
    phase is Opening || phase is Feeding || phase is Draining || phase is Reading
        || phase is Flushing
}

/// A run of events that stays within one session: it starts where the session
/// was just opened, each event is an answer, and only the last one may end it.
pub open spec fn session_run(m: SessionModel, events: Seq<TcpEvent>) -> bool
    decreases events.len(),
{
    if events.len() == 0 {
        m.phase is Opening && !m.meta_sent
    } else {
        let before = run(m, events.drop_last()).0;
        session_run(m, events.drop_last()) && in_session(before.phase) && answers(
            before.phase,
            events.last(),
        )
    }
}

/// The chunks of audio that the decoder handed out, in order.
pub open spec fn chunks_of(events: Seq<TcpEvent>) -> Seq<AudioChunk>
    decreases events.len(),
{
    if events.len() == 0 {
        seq![]
    } else {
        match events.last() {
            TcpEvent::Output(DecoderOutput::Audio(chunk)) => chunks_of(events.drop_last()).push(
                chunk,
            ),
            _ => chunks_of(events.drop_last()),
        }
    }
}

/// The encoded audio that the client sent, in order.
pub open spec fn inputs_of(events: Seq<TcpEvent>) -> Seq<Seq<u8>>
    decreases events.len(),
{
    if events.len() == 0 {
        seq![]
    } else {
        let before = inputs_of(events.drop_last());
        match events.last() {
            TcpEvent::Frame(frame) => if frame.has_tag(Tag::Dcod) && frame.data@.len() > 0 {
                before.push(frame.data@)
            } else {
                before
            },
            _ => before,
        }
    }
}

/// The frames that were written, in order.
pub open spec fn writes_of(actions: Seq<TcpAction<Seq<u8>>>) -> Seq<(Tag, Seq<u8>)>
    decreases actions.len(),
{
    if actions.len() == 0 {
        seq![]
    } else {
        match actions.last() {
            TcpAction::Write(tag, data) => writes_of(actions.drop_last()).push((tag, data)),
            _ => writes_of(actions.drop_last()),
        }
    }
}

/// The input that was handed to the decoder, in order.
pub open spec fn feeds_of(actions: Seq<TcpAction<Seq<u8>>>) -> Seq<Seq<u8>>
    decreases actions.len(),
{
    if actions.len() == 0 {
        seq![]
    } else {
        match actions.last() {
            TcpAction::Feed(data) => feeds_of(actions.drop_last()).push(data),
            _ => feeds_of(actions.drop_last()),
        }
    }
}

/// The frames that tell a client about these chunks: the format of the first
/// one, then the audio of each.
pub open spec fn session_frames(chunks: Seq<AudioChunk>) -> Seq<(Tag, Seq<u8>)> {
    if chunks.len() == 0 {
        seq![]
    } else {
        seq![(Tag::Meta, chunk_meta(chunks[0]))] + chunks.map_values(
            |c: AudioChunk| (Tag::Pcms, c.data@),
        )
    }
}

proof fn lemma_writes_concat(a: Seq<TcpAction<Seq<u8>>>, b: Seq<TcpAction<Seq<u8>>>)
    ensures
        writes_of(a + b) == writes_of(a) + writes_of(b),
        feeds_of(a + b) == feeds_of(a) + feeds_of(b),
    decreases b.len(),
{
    if b.len() == 0 {
        assert(a + b =~= a);
    } else {
        lemma_writes_concat(a, b.drop_last());
        assert((a + b).drop_last() =~= a + b.drop_last());
        assert((a + b).last() == b.last());
        assert(writes_of(a + b) =~= writes_of(a) + writes_of(b));
        assert(feeds_of(a + b) =~= feeds_of(a) + feeds_of(b));
    }
}

/// What one step writes and feeds.
proof fn lemma_step_effects(m: SessionModel, event: TcpEvent)
    requires
        in_session(m.phase),
        answers(m.phase, event),
    ensures
        ({
            let (end, actions) = session_step(m, event);
            &&& match event {
                TcpEvent::Output(DecoderOutput::Audio(chunk)) => {
                    &&& end.meta_sent
                    &&& in_session(end.phase)
                    &&& writes_of(actions) == (if m.meta_sent {
                        seq![(Tag::Pcms, chunk.data@)]
                    } else {
                        seq![(Tag::Meta, chunk_meta(chunk)), (Tag::Pcms, chunk.data@)]
                    })
                },
                _ => {
                    &&& in_session(end.phase) ==> end.meta_sent == m.meta_sent && writes_of(actions)
                        == Seq::<(Tag, Seq<u8>)>::empty()
                    &&& end.phase is Idle ==> writes_of(actions) == seq![
                        (Tag::Done, Seq::<u8>::empty()),
                    ]
                    &&& end.phase is Failed ==> m.phase is Opening && writes_of(actions) == Seq::<
                        (Tag, Seq<u8>),
                    >::empty()
                },
            }
            &&& end.phase is Idle || end.phase is Failed || in_session(end.phase)
            &&& feeds_of(actions) == match event {
                TcpEvent::Frame(frame) => if frame.has_tag(Tag::Dcod) && frame.data@.len() > 0 {
                    seq![frame.data@]
                } else {
                    seq![]
                },
                TcpEvent::Acquired => if m.first.len() > 0 {
                    seq![m.first]
                } else {
                    seq![]
                },
                _ => seq![],
            }
        }),
{
    reveal_with_fuel(writes_of, 4);
    reveal_with_fuel(feeds_of, 4);
    let (end, actions) = session_step(m, event);
    let none = Seq::<(Tag, Seq<u8>)>::empty();
    match event {
        TcpEvent::Output(DecoderOutput::Audio(chunk)) => {
            let w = chunk_writes(m.meta_sent, chunk);
            assert(actions.drop_last() =~= w);
            if m.meta_sent {
                assert(w.drop_last() =~= seq![]);
                assert(writes_of(actions) =~= seq![(Tag::Pcms, chunk.data@)]);
            } else {
                assert(w.drop_last() =~= seq![TcpAction::Write(Tag::Meta, chunk_meta(chunk))]);
                assert(w.drop_last().drop_last() =~= seq![]);
                assert(writes_of(actions) =~= seq![
                    (Tag::Meta, chunk_meta(chunk)),
                    (Tag::Pcms, chunk.data@),
                ]);
            }
        },
        _ => {
            if actions.len() == 1 {
                assert(actions.drop_last() =~= seq![]);
                assert(writes_of(actions) =~= none);
            } else {
                assert(actions.len() == 2);
                assert(actions.drop_last() =~= seq![actions[0]]);
                assert(actions.drop_last().drop_last() =~= seq![]);
            }
        },
    }
}

/// What a client receives in a session is decided by the chunks that the decoder
/// handed out: nothing where there is none yet, else one `META` frame with the
/// format of the first chunk, then one `PCMS` frame for each chunk, unchanged
/// and in order. When the session ends, exactly one `DONE` frame follows; where
/// no decoder could be had, nothing is written at all.
pub proof fn law_session_output(m: SessionModel, events: Seq<TcpEvent>)
    requires
        session_run(m, events),
    ensures
        ({
            let (end, actions) = run(m, events);
            let frames = session_frames(chunks_of(events));
            &&& end.options == m.options
            &&& in_session(end.phase) || end.phase is Idle || end.phase is Failed
            &&& in_session(end.phase) ==> writes_of(actions) == frames && end.meta_sent == (
            chunks_of(events).len() > 0)
            &&& end.phase is Idle ==> end == idle_session(m.options) && writes_of(actions) == frames.push(
                (Tag::Done, Seq::empty()),
            )
            &&& end.phase is Failed ==> writes_of(actions) == Seq::<(Tag, Seq<u8>)>::empty()
            &&& end.phase is Opening ==> chunks_of(events).len() == 0
        }),
    decreases events.len(),
{
    if events.len() > 0 {
        let prior = events.drop_last();
        let before = run(m, prior);
        let event = events.last();
        law_session_output(m, prior);
        lemma_step_effects(before.0, event);
        lemma_writes_concat(before.1, session_step(before.0, event).1);
        let chunks = chunks_of(prior);
        match event {
            TcpEvent::Output(DecoderOutput::Audio(chunk)) => {
                assert(chunks_of(events) == chunks.push(chunk));
                if chunks.len() == 0 {
                    assert(chunks.push(chunk).map_values(|c: AudioChunk| (Tag::Pcms, c.data@))
                        =~= seq![(Tag::Pcms, chunk.data@)]);
                    assert(session_frames(chunks.push(chunk)) =~= seq![
                        (Tag::Meta, chunk_meta(chunk)),
                        (Tag::Pcms, chunk.data@),
                    ]);
                    assert(writes_of(run(m, events).1) =~= session_frames(chunks.push(chunk)));
                } else {
                    assert(session_frames(chunks.push(chunk)) =~= session_frames(chunks).push(
                        (Tag::Pcms, chunk.data@),
                    ));
                    assert(writes_of(run(m, events).1) =~= session_frames(chunks.push(chunk)));
                }
            },
            _ => {
                assert(chunks_of(events) == chunks);
                let end = run(m, events).0;
                if in_session(end.phase) {
                    assert(writes_of(run(m, events).1) =~= session_frames(chunks));
                } else if end.phase is Idle {
                    assert(writes_of(run(m, events).1) =~= session_frames(chunks).push(
                        (Tag::Done, Seq::empty()),
                    ));
                } else {
                    assert(writes_of(run(m, events).1) =~= Seq::<(Tag, Seq<u8>)>::empty());
                }
            },
        }
    } else {
        assert(session_frames(chunks_of(events)) =~= seq![]);
    }
}

/// What a decoder is fed in a session is what the client sent: the data of the
/// opening frame, once a decoder is there, then that of every further `DCOD`
/// frame that holds any, unchanged and in order.
pub proof fn law_session_input(m: SessionModel, events: Seq<TcpEvent>)
    requires
        session_run(m, events),
    ensures
        ({
            let (end, actions) = run(m, events);
            let opened = if m.first.len() > 0 {
                seq![m.first]
            } else {
                seq![]
            };
            &&& end.phase is Opening ==> end == m && feeds_of(actions) == Seq::<Seq<u8>>::empty()
                && inputs_of(events) == Seq::<Seq<u8>>::empty()
            &&& end.phase is Failed ==> feeds_of(actions) == Seq::<Seq<u8>>::empty()
            &&& !(end.phase is Opening) && !(end.phase is Failed) ==> feeds_of(actions) == opened
                + inputs_of(events)
        }),
    decreases events.len(),
{
    if events.len() > 0 {
        let prior = events.drop_last();
        let before = run(m, prior);
        let event = events.last();
        law_session_input(m, prior);
        law_session_output(m, prior);
        lemma_step_effects(before.0, event);
        lemma_writes_concat(before.1, session_step(before.0, event).1);
        let opened = if m.first.len() > 0 {
            seq![m.first]
        } else {
            seq![]
        };
        let now = feeds_of(run(m, events).1);
        if before.0.phase is Opening {
            if event is Acquired {
                assert(now =~= opened + inputs_of(events));
            } else {
                assert(now =~= Seq::<Seq<u8>>::empty());
            }
        } else {
            assert(now =~= opened + inputs_of(events));
        }
    }
}

/// How often the decoder was told that its input has ended.
pub open spec fn end_signals(actions: Seq<TcpAction<Seq<u8>>>) -> nat
    decreases actions.len(),
{
    if actions.len() == 0 {
        0
    } else {
        end_signals(actions.drop_last()) + (if actions.last() is SignalEnd {
            1nat
        } else {
            0nat
        })
    }
}

/// Whether the decoder of a session refused its input.
pub open spec fn refused_input(events: Seq<TcpEvent>) -> bool
    decreases events.len(),
{
    events.len() > 0 && (events.last() == TcpEvent::Fed(false) || refused_input(
        events.drop_last(),
    ))
}

/// The decoder of a session is told once that its input has ended, before the
/// session ends, and never while frames are still read. A decoder that refused
/// its input has ended by itself and is not told.
pub proof fn law_session_end_of_input(m: SessionModel, events: Seq<TcpEvent>)
    requires
        session_run(m, events),
    ensures
        ({
            let (end, actions) = run(m, events);
            &&& end_signals(actions) == (if (end.phase is Flushing || end.phase is Idle)
                && !refused_input(events) {
                1nat
            } else {
                0nat
            })
            &&& refused_input(events) ==> end.phase is Flushing || end.phase is Idle
        }),
    decreases events.len(),
{
    if events.len() > 0 {
        let prior = events.drop_last();
        law_session_end_of_input(m, prior);
        let before = run(m, prior);
        let step = session_step(before.0, events.last()).1;
        lemma_signals_concat(before.1, step);
        lemma_step_signals(before.0, events.last());
    }
}

/// What one step signals.
proof fn lemma_step_signals(m: SessionModel, event: TcpEvent)
    requires
        in_session(m.phase),
        answers(m.phase, event),
    ensures
        ({
            let (end, step) = session_step(m, event);
            end_signals(step) == (if end.phase is Flushing && !(m.phase is Flushing) && event
                != TcpEvent::Fed(false) {
                1nat
            } else {
                0nat
            })
        }),
{
    let step = session_step(m, event).1;
    reveal_with_fuel(end_signals, 4);
    if step.len() > 0 {
        assert(step.drop_last() =~= step.take(step.len() - 1));
        if step.len() > 1 {
            assert(step.drop_last().drop_last() =~= step.take(step.len() - 2));
            if step.len() > 2 {
                assert(step.drop_last().drop_last().drop_last() =~= seq![]);
            }
        }
    }
}

proof fn lemma_signals_concat(a: Seq<TcpAction<Seq<u8>>>, b: Seq<TcpAction<Seq<u8>>>)
    ensures
        end_signals(a + b) == end_signals(a) + end_signals(b),
    decreases b.len(),
{
    if b.len() == 0 {
        assert(a + b =~= a);
    } else {
        lemma_signals_concat(a, b.drop_last());
        assert((a + b).drop_last() =~= a + b.drop_last());
    }
}

/// The end of a session leaves a connection as it was before the session, so
/// that a further session on it behaves as the first one did.
pub proof fn law_session_reusable(m: SessionModel, event: TcpEvent)
    requires
        in_session(m.phase),
        session_step(m, event).0.phase is Idle,
    ensures
        session_step(m, event).0 == idle_session(m.options),
        session_step(m, event).1 == seq![
            TcpAction::Write(Tag::Done, Seq::<u8>::empty()),
            TcpAction::ReadFrame,
        ],
{
}

/// Only a `DCOD` frame opens a session: any other frame that comes between
/// sessions is passed over without a trace.
pub proof fn law_only_dcod_opens(options: DecodeOptions, frame: Frame)
    ensures
        frame.has_tag(Tag::Dcod) <==> session_step(
            idle_session(options),
            TcpEvent::Frame(frame),
        ).0.phase is Opening,
        !frame.has_tag(Tag::Dcod) ==> session_step(idle_session(options), TcpEvent::Frame(frame)) == (
            idle_session(options),
            seq![TcpAction::<Seq<u8>>::ReadFrame],
        ),
{
}

/// A run of events on a connection from its beginning, each of which is an answer
/// to what the connection waits for.
pub open spec fn connection_run(options: DecodeOptions, events: Seq<TcpEvent>) -> bool
    decreases events.len(),
{
    events.len() == 0 || (connection_run(options, events.drop_last()) && answers(
        run(idle_session(options), events.drop_last()).0.phase,
        events.last(),
    ))
}

/// The sessions of a connection, in order: for each the chunks that its decoder
/// handed out. A session starts where a frame opens it.
pub open spec fn sessions_of(options: DecodeOptions, events: Seq<TcpEvent>) -> Seq<Seq<AudioChunk>>
    decreases events.len(),
{
    if events.len() == 0 {
        seq![]
    } else {
        let prior = events.drop_last();
        let sessions = sessions_of(options, prior);
        match events.last() {
            TcpEvent::Frame(frame) => if run(idle_session(options), prior).0.phase is Idle
                && frame.has_tag(Tag::Dcod) {
                sessions.push(seq![])
            } else {
                sessions
            },
            TcpEvent::Output(DecoderOutput::Audio(chunk)) => sessions.drop_last().push(
                sessions.last().push(chunk),
            ),
            _ => sessions,
        }
    }
}

/// What a client receives for whole sessions: for each the frames of its chunks,
/// then one `DONE` frame.
pub open spec fn session_blocks(sessions: Seq<Seq<AudioChunk>>) -> Seq<(Tag, Seq<u8>)>
    decreases sessions.len(),
{
    if sessions.len() == 0 {
        seq![]
    } else {
        session_blocks(sessions.drop_last()) + session_frames(sessions.last()).push(
            (Tag::Done, Seq::empty()),
        )
    }
}

/// What a client receives on a connection are its sessions, one after the other:
/// each ended session as one block that a `DONE` frame closes, then what the
/// session that is under way has to send so far. Nothing is written between
/// sessions, nor for a session for which no decoder could be had.
pub proof fn law_connection_output(options: DecodeOptions, events: Seq<TcpEvent>)
    requires
        connection_run(options, events),
    ensures
        ({
            let (end, actions) = run(idle_session(options), events);
            let sessions = sessions_of(options, events);
            &&& in_session(end.phase) ==> sessions.len() > 0 && writes_of(actions)
                == session_blocks(sessions.drop_last()) + session_frames(sessions.last())
            &&& end.phase is Idle || end.phase is Closed ==> writes_of(actions) == session_blocks(
                sessions,
            )
            &&& end.phase is Failed ==> sessions.len() > 0 && writes_of(actions) == session_blocks(
                sessions.drop_last(),
            )
        }),
{
    lemma_connection(options, events);
}

/// The options with which decoders were acquired, in order.
pub open spec fn acquires_of(actions: Seq<TcpAction<Seq<u8>>>) -> Seq<DecodeOptions>
    decreases actions.len(),
{
    if actions.len() == 0 {
        seq![]
    } else {
        match actions.last() {
            TcpAction::Acquire(options) => acquires_of(actions.drop_last()).push(options),
            _ => acquires_of(actions.drop_last()),
        }
    }
}

/// Every session of a connection acquires one decoder, with the options of the
/// server, and no decoder is acquired otherwise.
pub proof fn law_connection_acquires(options: DecodeOptions, events: Seq<TcpEvent>)
    requires
        connection_run(options, events),
    ensures
        ({
            let (end, actions) = run(idle_session(options), events);
            &&& end.options == options
            &&& acquires_of(actions) == Seq::new(
                sessions_of(options, events).len(),
                |i: int| options,
            )
        }),
    decreases events.len(),
{
    let m = idle_session(options);
    if events.len() == 0 {
        assert(acquires_of(run(m, events).1) =~= Seq::new(0, |i: int| options));
    } else {
        let prior = events.drop_last();
        law_connection_acquires(options, prior);
        lemma_connection(options, prior);
        let before = run(m, prior);
        let step = session_step(before.0, events.last()).1;
        lemma_acquires_concat(before.1, step);
        lemma_step_acquires(before.0, events.last());
        assert(acquires_of(before.1 + step) =~= Seq::new(
            sessions_of(options, events).len(),
            |i: int| options,
        ));
    }
}

/// What one step acquires.
proof fn lemma_step_acquires(m: SessionModel, event: TcpEvent)
    requires
        answers(m.phase, event),
    ensures
        acquires_of(session_step(m, event).1) == (match event {
            TcpEvent::Frame(frame) => if m.phase is Idle && frame.has_tag(Tag::Dcod) {
                seq![m.options]
            } else {
                seq![]
            },
            _ => seq![],
        }),
{
    reveal_with_fuel(acquires_of, 4);
    let step = session_step(m, event).1;
    let none = Seq::<DecodeOptions>::empty();
    match event {
        TcpEvent::Output(DecoderOutput::Audio(chunk)) => {
            let w = chunk_writes(m.meta_sent, chunk);
            assert(step.drop_last() =~= w);
            if m.meta_sent {
                assert(w.drop_last() =~= seq![]);
            } else {
                assert(w.drop_last() =~= seq![TcpAction::Write(Tag::Meta, chunk_meta(chunk))]);
                assert(w.drop_last().drop_last() =~= seq![]);
            }
            assert(acquires_of(step) =~= none);
        },
        _ => {
            if step.len() == 1 {
                assert(step.drop_last() =~= seq![]);
                assert(acquires_of(step) =~= (if step[0] is Acquire {
                    seq![m.options]
                } else {
                    none
                }));
            } else {
                assert(step.len() == 2);
                assert(step.drop_last() =~= seq![step[0]]);
                assert(step.drop_last().drop_last() =~= seq![]);
                assert(acquires_of(step) =~= none);
            }
        },
    }
}

proof fn lemma_acquires_concat(a: Seq<TcpAction<Seq<u8>>>, b: Seq<TcpAction<Seq<u8>>>)
    ensures
        acquires_of(a + b) == acquires_of(a) + acquires_of(b),
    decreases b.len(),
{
    if b.len() == 0 {
        assert(a + b =~= a);
    } else {
        lemma_acquires_concat(a, b.drop_last());
        assert((a + b).drop_last() =~= a + b.drop_last());
        assert(acquires_of(a + b) =~= acquires_of(a) + acquires_of(b));
    }
}

/// What decoders are fed on a connection is what the client sent: the data of
/// every `DCOD` frame that holds any, unchanged and in order, but for that of a
/// frame whose session has no decoder yet.
pub proof fn law_connection_input(options: DecodeOptions, events: Seq<TcpEvent>)
    requires
        connection_run(options, events),
        !(run(idle_session(options), events).0.phase is Failed),
    ensures
        ({
            let (end, actions) = run(idle_session(options), events);
            feeds_of(actions) + held_input(end) == inputs_of(events)
        }),
{
    lemma_connection(options, events);
}

/// The data of the frame that opened a session, until a decoder is there.
pub open spec fn held_input(m: SessionModel) -> Seq<Seq<u8>> {
    if m.phase is Opening && m.first.len() > 0 {
        seq![m.first]
    } else {
        seq![]
    }
}

proof fn lemma_connection(options: DecodeOptions, events: Seq<TcpEvent>)
    requires
        connection_run(options, events),
    ensures
        ({
            let (end, actions) = run(idle_session(options), events);
            let sessions = sessions_of(options, events);
            &&& end.options == options
            &&& in_session(end.phase) ==> sessions.len() > 0 && writes_of(actions)
                == session_blocks(sessions.drop_last()) + session_frames(sessions.last())
                && end.meta_sent == (sessions.last().len() > 0)
            &&& end.phase is Opening ==> sessions.last().len() == 0
            &&& end.phase is Idle ==> end == idle_session(options)
            &&& end.phase is Idle || end.phase is Closed ==> writes_of(actions) == session_blocks(
                sessions,
            )
            &&& end.phase is Failed ==> sessions.len() > 0 && writes_of(actions) == session_blocks(
                sessions.drop_last(),
            )
            &&& !(end.phase is Failed) ==> feeds_of(actions) + held_input(end) == inputs_of(events)
        }),
    decreases events.len(),
{
    let m = idle_session(options);
    let none = Seq::<(Tag, Seq<u8>)>::empty();
    let unfed = Seq::<Seq<u8>>::empty();
    if events.len() == 0 {
        assert(writes_of(run(m, events).1) =~= session_blocks(seq![]));
        assert(feeds_of(run(m, events).1) + held_input(m) =~= inputs_of(events));
    } else {
        let prior = events.drop_last();
        let event = events.last();
        lemma_connection(options, prior);
        let before = run(m, prior);
        let step = session_step(before.0, event);
        let (end, actions) = run(m, events);
        let earlier = sessions_of(options, prior);
        let sessions = sessions_of(options, events);
        lemma_writes_concat(before.1, step.1);
        if in_session(before.0.phase) {
            lemma_step_effects(before.0, event);
            match event {
                TcpEvent::Output(DecoderOutput::Audio(chunk)) => {
                    let current = earlier.last();
                    assert(sessions.drop_last() =~= earlier.drop_last());
                    assert(sessions.last() == current.push(chunk));
                    assert(session_frames(current.push(chunk)) =~= session_frames(current)
                        + writes_of(step.1));
                    assert(writes_of(actions) =~= session_blocks(sessions.drop_last())
                        + session_frames(sessions.last()));
                },
                _ => {
                    assert(sessions == earlier);
                    if end.phase is Idle {
                        assert(writes_of(actions) =~= session_blocks(sessions));
                    } else if end.phase is Failed {
                        assert(session_frames(sessions.last()) =~= none);
                        assert(writes_of(actions) =~= session_blocks(sessions.drop_last()));
                    } else {
                        assert(writes_of(actions) =~= session_blocks(sessions.drop_last())
                            + session_frames(sessions.last()));
                    }
                },
            }
            if !(end.phase is Failed) {
                assert(feeds_of(actions) + held_input(end) =~= inputs_of(events));
            }
        } else {
            reveal_with_fuel(writes_of, 2);
            reveal_with_fuel(feeds_of, 2);
            assert(step.1.drop_last() =~= seq![]);
            assert(writes_of(step.1) =~= none);
            assert(feeds_of(step.1) =~= unfed);
            if end.phase is Opening {
                assert(sessions.drop_last() =~= earlier);
                assert(session_frames(sessions.last()) =~= none);
                assert(writes_of(actions) =~= session_blocks(sessions.drop_last())
                    + session_frames(sessions.last()));
            } else {
                assert(sessions == earlier);
                assert(writes_of(actions) =~= session_blocks(sessions));
            }
            assert(feeds_of(actions) + held_input(end) =~= inputs_of(events));
        }
    }
}

// ---------------------------------------------------------------------------
// What is done next on a connection
// ---------------------------------------------------------------------------

/// How many `DONE` frames were written.
pub open spec fn dones_of(actions: Seq<TcpAction<Seq<u8>>>) -> nat
    decreases actions.len(),
{
    if actions.len() == 0 {
        0
    } else {
        dones_of(actions.drop_last()) + (if actions.last() matches TcpAction::Write(tag, _) && tag
            is Done {
            1nat
        } else {
            0nat
        })
    }
}

/// Whether a session is under way: a decoder was asked for, and no `DONE` frame has
/// closed the session yet.
pub open spec fn under_way(actions: Seq<TcpAction<Seq<u8>>>) -> bool {
    acquires_of(actions).len() > dones_of(actions)
}

/// The data of the frame that was read last.
pub open spec fn last_data(events: Seq<TcpEvent>) -> Seq<u8>
    decreases events.len(),
{
    if events.len() == 0 {
        seq![]
    } else {
        match events.last() {
            TcpEvent::Frame(frame) => frame.data@,
            _ => last_data(events.drop_last()),
        }
    }
}

/// Whether the session that is under way has been given a cause to end its input:
/// an empty `DCOD` frame, be it the one that opened the session or a later one, a
/// `DONE` frame, the end of the connection, or a refusal of the decoder. A new
/// decoder has none yet but an empty opening frame.
pub open spec fn input_over(events: Seq<TcpEvent>) -> bool
    decreases events.len(),
{
    if events.len() == 0 {
        false
    } else {
        match events.last() {
            TcpEvent::Acquired => last_data(events).len() == 0,
            TcpEvent::Frame(frame) => input_over(events.drop_last()) || (frame.has_tag(Tag::Dcod)
                && frame.data@.len() == 0) || frame.has_tag(Tag::Done),
            TcpEvent::EndOfStream | TcpEvent::Fed(false) => true,
            _ => input_over(events.drop_last()),
        }
    }
}

/// Whether the decoder that was acquired last has handed out audio.
pub open spec fn announced(events: Seq<TcpEvent>) -> bool
    decreases events.len(),
{
    if events.len() == 0 {
        false
    } else {
        match events.last() {
            TcpEvent::Acquired => false,
            TcpEvent::Output(DecoderOutput::Audio(_)) => true,
            _ => announced(events.drop_last()),
        }
    }
}

/// Whether an event tells what came of an action.
pub open spec fn replies_to(action: TcpAction<Seq<u8>>, event: TcpEvent) -> bool {
    match action {
        TcpAction::ReadFrame => event is Frame || event is EndOfStream,
        TcpAction::Acquire(_) => event is Acquired || event is AcquireFailed,
        TcpAction::Feed(_) => event is Fed,
        TcpAction::Poll => event is Output,
        TcpAction::Receive => event matches TcpEvent::Output(out) && !(out is Pending),
        _ => false,
    }
}

/// What was to be done last. A connection begins with reading a frame.
pub open spec fn last_told(actions: Seq<TcpAction<Seq<u8>>>) -> TcpAction<Seq<u8>> {
    if actions.len() == 0 {
        TcpAction::ReadFrame
    } else {
        actions.last()
    }
}

proof fn lemma_dones_concat(a: Seq<TcpAction<Seq<u8>>>, b: Seq<TcpAction<Seq<u8>>>)
    ensures
        dones_of(a + b) == dones_of(a) + dones_of(b),
    decreases b.len(),
{
    if b.len() == 0 {
        assert(a + b =~= a);
    } else {
        lemma_dones_concat(a, b.drop_last());
        assert((a + b).drop_last() =~= a + b.drop_last());
    }
}

/// What one step closes.
proof fn lemma_step_dones(m: SessionModel, event: TcpEvent)
    requires
        answers(m.phase, event),
    ensures
        dones_of(session_step(m, event).1) == (if m.phase is Flushing && event == TcpEvent::Output(
            DecoderOutput::Closed,
        ) {
            1nat
        } else {
            0nat
        }),
{
    reveal_with_fuel(dones_of, 4);
    let step = session_step(m, event).1;
    match event {
        TcpEvent::Output(DecoderOutput::Audio(chunk)) => {
            let w = chunk_writes(m.meta_sent, chunk);
            assert(step.drop_last() =~= w);
            if m.meta_sent {
                assert(w.drop_last() =~= seq![]);
            } else {
                assert(w.drop_last() =~= seq![TcpAction::Write(Tag::Meta, chunk_meta(chunk))]);
                assert(w.drop_last().drop_last() =~= seq![]);
            }
        },
        _ => {
            if step.len() == 1 {
                assert(step.drop_last() =~= seq![]);
            } else {
                assert(step.len() == 2);
                assert(step.drop_last() =~= seq![step[0]]);
                assert(step.drop_last().drop_last() =~= seq![]);
            }
        },
    }
}

/// How a connection stands, as whoever serves it can see it.
#[verifier::spinoff_prover]
proof fn lemma_connection_stands(options: DecodeOptions, events: Seq<TcpEvent>)
    requires
        connection_run(options, events),
    ensures
        ({
            let (end, actions) = run(idle_session(options), events);
            let told = last_told(actions);
            &&& end.options == options
            &&& match end.phase {
                Phase::Idle => told is ReadFrame && !under_way(actions),
                Phase::Opening => told is Acquire && under_way(actions) && end.first == last_data(
                    events,
                ) && !end.meta_sent,
                Phase::Feeding => told is Feed && under_way(actions),
                Phase::Draining => told is Poll && under_way(actions),
                Phase::Reading => told is ReadFrame && under_way(actions),
                Phase::Flushing => told is Receive && under_way(actions),
                Phase::Closed => told is Close,
                Phase::Failed => told is Fail,
            }
            &&& acquires_of(actions).len() == dones_of(actions) + (if in_session(end.phase)
                || end.phase is Failed {
                1nat
            } else {
                0nat
            })
            &&& end.phase is Feeding || end.phase is Draining || end.phase is Reading
                || end.phase is Flushing ==> input_over(events) == (end.phase is Flushing)
                && end.meta_sent == announced(events)
        }),
    decreases events.len(),
{
    let m = idle_session(options);
    if events.len() > 0 {
        let prior = events.drop_last();
        let event = events.last();
        lemma_connection_stands(options, prior);
        lemma_connection(options, prior);
        let before = run(m, prior);
        let step = session_step(before.0, event).1;
        lemma_acquires_concat(before.1, step);
        lemma_dones_concat(before.1, step);
        lemma_step_acquires(before.0, event);
        lemma_step_dones(before.0, event);
        assert(step.len() > 0);
        assert((before.1 + step).last() == step.last());
        if let TcpEvent::Frame(frame) = event {
            lemma_tags_differ(frame);
        }
    }
}

/// No frame carries two tags.
proof fn lemma_tags_differ(frame: Frame)
    ensures
        !(frame.has_tag(Tag::Dcod) && frame.has_tag(Tag::Done)),
{
    assert(tag_bytes(Tag::Dcod)[1] == 67);
    assert(tag_bytes(Tag::Done)[1] == 79);
}

/// A connection always waits for what came of its last action, and for nothing
/// else, so that it is never stuck; it is over exactly when it was to be closed or
/// to fail.
pub proof fn law_connection_waits(options: DecodeOptions, events: Seq<TcpEvent>, event: TcpEvent)
    requires
        connection_run(options, events),
    ensures
        ({
            let (end, actions) = run(idle_session(options), events);
            let told = last_told(actions);
            &&& answers(end.phase, event) <==> replies_to(told, event)
            &&& (end.phase is Closed <==> told is Close)
            &&& (end.phase is Failed <==> told is Fail)
            &&& in_session(end.phase) || end.phase is Failed <==> under_way(actions)
        }),
{
    lemma_connection_stands(options, events);
}

/// An event that a connection does not wait for changes nothing, but that output is
/// waited for again where none was ready.
pub proof fn law_connection_strays(options: DecodeOptions, events: Seq<TcpEvent>, event: TcpEvent)
    requires
        connection_run(options, events),
        !replies_to(last_told(run(idle_session(options), events).1), event),
    ensures
        ({
            let (end, actions) = run(idle_session(options), events);
            let (after, now) = run(idle_session(options), events.push(event));
            if last_told(actions) is Receive && event == TcpEvent::Output(DecoderOutput::Pending) {
                after.phase == end.phase && now == actions.push(TcpAction::Receive)
            } else {
                after == end && now == actions
            }
        }),
{
    lemma_connection_stands(options, events);
    let m = idle_session(options);
    assert(events.push(event).drop_last() =~= events);
    let (end, actions) = run(m, events);
    if last_told(actions) is Receive && event == TcpEvent::Output(DecoderOutput::Pending) {
        assert(run(m, events.push(event)).1 =~= actions.push(TcpAction::Receive));
    } else {
        assert(run(m, events.push(event)).1 =~= actions);
    }
}

/// What is done next on a connection follows from what happened so far. Between
/// sessions a `DCOD` frame has a decoder acquired with the options of the server, any
/// other frame is passed over, and the end of the connection closes it. In a session
/// every `DCOD` frame that holds data, from the opening one on, is handed to the same
/// decoder; once the decoder took it, and after a frame with a foreign tag, the output
/// that is ready is written before the next frame is read. The input ends for cause
/// only; then the output is written until the decoder has finished, and a `DONE` frame
/// closes the session. The first audio of a session is preceded by its format.
#[verifier::spinoff_prover]
pub proof fn law_connection_next(options: DecodeOptions, events: Seq<TcpEvent>, event: TcpEvent)
    requires
        connection_run(options, events),
        replies_to(last_told(run(idle_session(options), events).1), event),
    ensures
        ({
            let done = run(idle_session(options), events).1;
            let now = run(idle_session(options), events.push(event)).1;
            let go_on = if input_over(events) {
                seq![TcpAction::<Seq<u8>>::Receive]
            } else {
                seq![TcpAction::<Seq<u8>>::Poll]
            };
            let over = seq![TcpAction::<Seq<u8>>::SignalEnd, TcpAction::Receive];
            now == done + (match event {
                TcpEvent::Frame(frame) => if !under_way(done) {
                    if frame.has_tag(Tag::Dcod) {
                        seq![TcpAction::Acquire(options)]
                    } else {
                        seq![TcpAction::ReadFrame]
                    }
                } else if frame.has_tag(Tag::Dcod) && frame.data@.len() > 0 {
                    seq![TcpAction::Feed(frame.data@)]
                } else if frame.has_tag(Tag::Dcod) || frame.has_tag(Tag::Done) {
                    over
                } else {
                    seq![TcpAction::Poll]
                },
                TcpEvent::EndOfStream => if under_way(done) {
                    over
                } else {
                    seq![TcpAction::Close]
                },
                TcpEvent::Acquired => if last_data(events).len() > 0 {
                    seq![TcpAction::Feed(last_data(events))]
                } else {
                    over
                },
                TcpEvent::AcquireFailed => seq![TcpAction::Fail],
                TcpEvent::Fed(true) => seq![TcpAction::Poll],
                TcpEvent::Fed(false) => seq![TcpAction::Receive],
                TcpEvent::Output(DecoderOutput::Audio(chunk)) => (if announced(events) {
                    seq![]
                } else {
                    seq![
                        TcpAction::Write(
                            Tag::Meta,
                            meta_bytes(
                                chunk.sample_rate,
                                chunk.channels,
                                chunk.bits_per_sample,
                                if chunk.format == AudioFormat::PcmFloat {
                                    PcmEncoding::Float
                                } else {
                                    PcmEncoding::Signed
                                },
                            ),
                        ),
                    ]
                }) + seq![TcpAction::Write(Tag::Pcms, chunk.data@)] + go_on,
                TcpEvent::Output(DecoderOutput::Failed(_)) => go_on,
                TcpEvent::Output(DecoderOutput::Pending) => seq![TcpAction::ReadFrame],
                TcpEvent::Output(DecoderOutput::Closed) => if input_over(events) {
                    seq![TcpAction::Write(Tag::Done, seq![]), TcpAction::ReadFrame]
                } else {
                    seq![TcpAction::ReadFrame]
                },
            })
        }),
{
    lemma_connection_stands(options, events);
    let m = idle_session(options);
    let all = events.push(event);
    assert(all.drop_last() =~= events);
    let before = run(m, events).0;
    let step = session_step(before, event).1;
    let go_on = if input_over(events) {
        seq![TcpAction::<Seq<u8>>::Receive]
    } else {
        seq![TcpAction::<Seq<u8>>::Poll]
    };
    match event {
        TcpEvent::Output(DecoderOutput::Audio(chunk)) => {
            let pcm = seq![TcpAction::Write(Tag::Pcms, chunk.data@)];
            let meta = seq![TcpAction::Write(Tag::Meta, chunk_meta(chunk))];
            if announced(events) {
                assert(step =~= Seq::<TcpAction<Seq<u8>>>::empty() + pcm + go_on);
            } else {
                assert(step =~= meta + pcm + go_on);
            }
        },
        TcpEvent::Output(DecoderOutput::Closed) => {
            assert(Seq::<u8>::empty() =~= seq![]);
        },
        _ => {},
    }
}

/// Whether these events hold a cause to end the input of a session.
pub open spec fn has_cause(events: Seq<TcpEvent>) -> bool {
    exists|i: int| 0 <= i < events.len() && #[trigger] ends_input(events[i])
}

/// Whether an event is a cause to end the input of a session: an empty `DCOD` frame,
/// a `DONE` frame, the end of the connection, or a refusal of the decoder.
pub open spec fn ends_input(event: TcpEvent) -> bool {
    match event {
        TcpEvent::Frame(frame) => (frame.has_tag(Tag::Dcod) && frame.data@.len() == 0)
            || frame.has_tag(Tag::Done),
        TcpEvent::EndOfStream => true,
        TcpEvent::Fed(taken) => !taken,
        _ => false,
    }
}

/// The input of a session ends for cause only, and then at once: once there is a
/// decoder, the session is past its input exactly if the frame that opened it was
/// empty or a cause came since.
#[verifier::spinoff_prover]
pub proof fn law_session_ends_for_cause(m: SessionModel, events: Seq<TcpEvent>)
    requires
        session_run(m, events),
        events.len() > 0,
        !(run(m, events).0.phase is Failed),
    ensures
        ({
            let end = run(m, events).0;
            end.phase is Flushing || end.phase is Idle <==> m.first.len() == 0 || has_cause(events)
        }),
    decreases events.len(),
{
    let prior = events.drop_last();
    let event = events.last();
    law_session_output(m, prior);
    law_session_output(m, events);
    law_session_input(m, prior);
    assert(has_cause(events) == (has_cause(prior) || ends_input(event))) by {
        if has_cause(prior) {
            let i = choose|i: int| 0 <= i < prior.len() && #[trigger] ends_input(prior[i]);
            assert(ends_input(events[i]));
        }
        if ends_input(event) {
            assert(ends_input(events[events.len() - 1]));
        }
        if has_cause(events) {
            let i = choose|i: int| 0 <= i < events.len() && #[trigger] ends_input(events[i]);
            if i < prior.len() {
                assert(ends_input(prior[i]));
            }
        }
    }
    if let TcpEvent::Frame(frame) = event {
        lemma_tags_differ(frame);
    }
    if prior.len() > 0 {
        law_session_ends_for_cause(m, prior);
        lemma_opens_once(m, prior);
    } else {
        reveal_with_fuel(session_run, 2);
        assert(run(m, prior).0 == m);
        assert(!has_cause(prior));
    }
}

/// A session waits for its decoder only at its beginning.
proof fn lemma_opens_once(m: SessionModel, events: Seq<TcpEvent>)
    requires
        session_run(m, events),
        events.len() > 0,
    ensures
        !(run(m, events).0.phase is Opening),
{
    let prior = events.drop_last();
    let before = run(m, prior).0;
    assert(in_session(before.phase));
}

// ---------------------------------------------------------------------------
// The wire
// ---------------------------------------------------------------------------

/// A tag stands on the wire as its four capital letters.
pub proof fn law_tags_are_text()
    ensures
        tag_bytes(Tag::Dcod).map_values(|b: u8| b as char) == "DCOD"@,
        tag_bytes(Tag::Pcms).map_values(|b: u8| b as char) == "PCMS"@,
        tag_bytes(Tag::Done).map_values(|b: u8| b as char) == "DONE"@,
        tag_bytes(Tag::Eror).map_values(|b: u8| b as char) == "EROR"@,
        tag_bytes(Tag::Meta).map_values(|b: u8| b as char) == "META"@,
{
    reveal_strlit("DCOD");
    reveal_strlit("PCMS");
    reveal_strlit("DONE");
    reveal_strlit("EROR");
    reveal_strlit("META");
    assert(tag_bytes(Tag::Dcod).map_values(|b: u8| b as char) =~= "DCOD"@);
    assert(tag_bytes(Tag::Pcms).map_values(|b: u8| b as char) =~= "PCMS"@);
    assert(tag_bytes(Tag::Done).map_values(|b: u8| b as char) =~= "DONE"@);
    assert(tag_bytes(Tag::Eror).map_values(|b: u8| b as char) =~= "EROR"@);
    assert(tag_bytes(Tag::Meta).map_values(|b: u8| b as char) =~= "META"@);
}

/// Metadata takes seven bytes: the sample rate in the first four, the most
/// significant one first, then the channels, the bits per sample and the encoding,
/// which is one for float and zero for signed samples.
pub proof fn law_meta_layout(sample_rate: u32, channels: u8, bits: u8, encoding: PcmEncoding)
    ensures
        ({
            let b = meta_bytes(sample_rate, channels, bits, encoding);
            &&& b.len() == 7
            &&& b[0] * 16777216 + b[1] * 65536 + b[2] * 256 + b[3] == sample_rate
            &&& b[4] == channels
            &&& b[5] == bits
            &&& b[6] == (if encoding is Float {
                1u8
            } else {
                0u8
            })
        }),
{
}

/// Metadata is read where there are at least seven bytes, and only there. The first
/// four are the sample rate, the most significant one first, the next two the
/// channels and the bits per sample. Samples are float exactly if the seventh byte is
/// one, whatever follows it.
pub proof fn law_meta_reading(data: Seq<u8>)
    ensures
        data.len() < 7 <==> meta_of(data) is None,
        meta_of(data) matches Some((sample_rate, channels, bits, encoding)) ==> {
            &&& sample_rate == data[0] * 16777216 + data[1] * 65536 + data[2] * 256 + data[3]
            &&& channels == data[4]
            &&& bits == data[5]
            &&& (encoding is Float <==> data[6] == 1)
        },
{
}

} // verus!
