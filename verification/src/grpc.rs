//! The bidirectional gRPC decode stream.
//!
//! A client sends messages of encoded audio. The first message, and every later
//! one that says so, starts a new segment: the decoder of the segment before is
//! drained and a new one is acquired. For every segment the client receives the
//! format of its audio, then the audio.

use crate::audio::{AudioChunk, DecoderOutput};
use crate::decode::DecodeOptions;
use vstd::prelude::*;
use vstd::string::StringExecFns;

verus! {

/// Options as they come in a message; zero stands for a value that is not given.
#[derive(Debug, Clone, Copy, PartialEq, Eq)]
pub struct RequestOptions {
    pub output_sample_rate: u32,
    pub output_bits_per_sample: u32,
    pub output_channels: u32,
}

/// A message of the client.
#[derive(Debug)]
pub struct DecodeRequest {
    pub data: Vec<u8>,
    pub options: Option<RequestOptions>,
    pub new_segment: bool,
}

/// A message to the client. `B` is a run of bytes.
#[derive(Debug)]
pub enum Content<B> {
    /// The format of the audio of a segment.
    Metadata { sample_rate: u32, channels: u32, bits_per_sample: u32 },
    /// A chunk of decoded audio.
    PcmData(B),
}

/// The options that a message asks for: each value that it gives, narrowed to
/// the width of the option, and the default for each that it does not give.
pub open spec fn options_for(default: DecodeOptions, asked: RequestOptions) -> DecodeOptions {
    DecodeOptions {
        output_sample_rate: if asked.output_sample_rate > 0 {
            Some(asked.output_sample_rate)
        } else {
            default.output_sample_rate
        },
        output_bits_per_sample: if asked.output_bits_per_sample > 0 {
            Some((asked.output_bits_per_sample % 256) as u8)
        } else {
            default.output_bits_per_sample
        },
        output_channels: if asked.output_channels > 0 {
            Some((asked.output_channels % 256) as u8)
        } else {
            default.output_channels
        },
    }
}

/// The options that a message asks for.
pub fn resolve_options(default: DecodeOptions, asked: RequestOptions) -> (r: DecodeOptions)
    ensures
        r == options_for(default, asked),
{
    DecodeOptions {
        output_sample_rate: if asked.output_sample_rate > 0 {
            Some(asked.output_sample_rate)
        } else {
            default.output_sample_rate
        },
        output_bits_per_sample: if asked.output_bits_per_sample > 0 {
            Some((asked.output_bits_per_sample % 256) as u8)
        } else {
            default.output_bits_per_sample
        },
        output_channels: if asked.output_channels > 0 {
            Some((asked.output_channels % 256) as u8)
        } else {
            default.output_channels
        },
    }
}

/// What a client is told when no decoder could be acquired.
pub fn acquire_failure_message(reason: &str) -> (r: String)
    ensures
        r@ == "Failed to acquire decoder: "@ + reason@,
{
    let prefix: String = "Failed to acquire decoder: ".to_owned();
    prefix.concat(reason)
}

/// Where a stream stands: which answer it is waiting for.
#[derive(Debug, Clone, Copy, PartialEq, Eq, Structural)]
pub enum Phase {
    /// Waiting for a message.
    Receiving,
    /// Draining the decoder of the segment before.
    Draining,
    /// Waiting for a decoder for a new segment.
    Acquiring,
    /// Input was handed to the decoder, waiting for its acceptance.
    Feeding,
    /// Collecting the output that is ready.
    Collecting,
    /// The input has ended, draining the last decoder.
    Finishing,
    /// Over.
    Ended,
}

/// What happened in answer to the last action.
#[derive(Debug)]
pub enum StreamEvent {
    /// A message came in.
    Message(DecodeRequest),
    /// The input broke off with an error.
    InputFailed,
    /// The input ended.
    InputEnded,
    /// The server shuts down.
    Shutdown,
    /// A decoder was acquired.
    Acquired,
    /// No decoder could be acquired.
    AcquireFailed,
    /// Whether the decoder took its input.
    Fed(bool),
    /// What the decoder had ready.
    Output(DecoderOutput),
    /// The client takes no more messages.
    ClientGone,
}

/// What is to be done on a stream. `B` is a run of bytes.
#[derive(Debug)]
pub enum StreamAction<B> {
    /// Wait for the next message, or for the shutdown of the server.
    NextMessage,
    /// Tell the decoder that its input has ended.
    SignalEnd,
    /// Ask the decoder for output without waiting.
    Poll,
    /// Pause briefly, then ask the decoder for output without waiting.
    PauseAndPoll,
    /// Acquire a decoder with these options.
    Acquire(DecodeOptions),
    /// Hand input to the decoder.
    Feed(B),
    /// Send a message to the client.
    Respond(Content<B>),
    /// Let the decoder go.
    Release,
    /// Tell the client that no decoder could be acquired.
    Reject,
    /// End the stream.
    Stop,
}

impl Content<Vec<u8>> {
    /// This message with its bytes as a sequence.
    pub open spec fn model(self) -> Content<Seq<u8>> {
        match self {
            Content::Metadata { sample_rate, channels, bits_per_sample } => Content::Metadata {
                sample_rate,
                channels,
                bits_per_sample,
            },
            Content::PcmData(b) => Content::PcmData(b@),
        }
    }
}

impl StreamAction<Vec<u8>> {
    /// This action with its bytes as a sequence.
    pub open spec fn model(self) -> StreamAction<Seq<u8>> {
        match self {
            StreamAction::NextMessage => StreamAction::NextMessage,
            StreamAction::SignalEnd => StreamAction::SignalEnd,
            StreamAction::Poll => StreamAction::Poll,
            StreamAction::PauseAndPoll => StreamAction::PauseAndPoll,
            StreamAction::Acquire(options) => StreamAction::Acquire(options),
            StreamAction::Feed(b) => StreamAction::Feed(b@),
            StreamAction::Respond(content) => StreamAction::Respond(content.model()),
            StreamAction::Release => StreamAction::Release,
            StreamAction::Reject => StreamAction::Reject,
            StreamAction::Stop => StreamAction::Stop,
        }
    }
}

/// A list of actions with their bytes as sequences.
pub open spec fn actions_model(actions: Seq<StreamAction<Vec<u8>>>) -> Seq<StreamAction<Seq<u8>>> {
    actions.map_values(|a: StreamAction<Vec<u8>>| a.model())
}

/// The state of a stream as a value.
pub struct StreamModel {
    pub phase: Phase,
    /// The options that hold where a message gives none.
    pub default: DecodeOptions,
    /// The options with which the next decoder is acquired.
    pub current: DecodeOptions,
    /// Whether there is a decoder.
    pub decoder: bool,
    /// Whether the current segment has announced its audio format.
    pub meta_sent: bool,
    /// The data of the message that is being worked on.
    pub data: Seq<u8>,
    /// The answers that were collected and not yet sent.
    pub collected: Seq<StreamAction<Seq<u8>>>,
}

/// A stream before its first message.
pub open spec fn fresh_stream(default: DecodeOptions) -> StreamModel {
    StreamModel {
        phase: Phase::Receiving,
        default,
        current: default,
        decoder: false,
        meta_sent: false,
        data: Seq::empty(),
        collected: Seq::empty(),
    }
}

/// The message that announces the format of a chunk.
pub open spec fn chunk_format(chunk: AudioChunk) -> Content<Seq<u8>> {
    Content::Metadata {
        sample_rate: chunk.sample_rate,
        channels: chunk.channels as u32,
        bits_per_sample: chunk.bits_per_sample as u32,
    }
}

/// What is sent for a chunk: its audio, after its format if it is the first of
/// its segment.
pub open spec fn chunk_contents(meta_sent: bool, chunk: AudioChunk) -> Seq<Content<Seq<u8>>> {
    if meta_sent {
        seq![Content::PcmData(chunk.data@)]
    } else {
        seq![chunk_format(chunk), Content::PcmData(chunk.data@)]
    }
}

/// The actions that send these messages.
pub open spec fn responses(contents: Seq<Content<Seq<u8>>>) -> Seq<StreamAction<Seq<u8>>> {
    contents.map_values(|c: Content<Seq<u8>>| StreamAction::Respond(c))
}

/// Whether an event is an answer to what a stream in this phase waits for. That
/// the client is gone may turn out at any time before the end.
pub open spec fn answers(phase: Phase, event: StreamEvent) -> bool {
    match phase {
        Phase::Receiving => event is Message || event is InputFailed || event is InputEnded
            || event is Shutdown || event is ClientGone,
        Phase::Draining | Phase::Collecting | Phase::Finishing => event is Output
            || event is ClientGone,
        Phase::Acquiring => event is Acquired || event is AcquireFailed || event is ClientGone,
        Phase::Feeding => event is Fed || event is ClientGone,
        Phase::Ended => false,
    }
}

/// Input for the decoder: an empty run of bytes is not handed over.
pub open spec fn take_input(m: StreamModel) -> (StreamModel, Seq<StreamAction<Seq<u8>>>) {
    if m.data.len() > 0 {
        (
            StreamModel { phase: Phase::Feeding, data: Seq::empty(), ..m },
            seq![StreamAction::Feed(m.data)],
        )
    } else {
        (StreamModel { phase: Phase::Collecting, ..m }, seq![StreamAction::Poll])
    }
}

/// A message starts a new segment if it says so or if there is no decoder. Its
/// options, if it has any, hold from this segment on.
pub open spec fn take_message(m: StreamModel, request: DecodeRequest) -> (
    StreamModel,
    Seq<StreamAction<Seq<u8>>>,
) {
    let current = match request.options {
        Some(asked) => options_for(m.default, asked),
        None => m.current,
    };
    if m.decoder && request.new_segment {
        (
            StreamModel { phase: Phase::Draining, current, data: request.data@, ..m },
            seq![StreamAction::SignalEnd, StreamAction::Poll],
        )
    } else if m.decoder {
        take_input(StreamModel { data: request.data@, ..m })
    } else {
        (
            StreamModel { phase: Phase::Acquiring, current, data: request.data@, ..m },
            seq![StreamAction::Acquire(current)],
        )
    }
}

/// What follows once a decoder has been drained.
pub open spec fn after_drain(m: StreamModel) -> (StreamModel, Seq<StreamAction<Seq<u8>>>) {
    if m.phase is Draining {
        (
            StreamModel {
                phase: Phase::Acquiring,
                decoder: false,
                collected: Seq::empty(),
                ..m
            },
            seq![StreamAction::Release] + m.collected + seq![StreamAction::Acquire(m.current)],
        )
    } else {
        (
            StreamModel { phase: Phase::Ended, decoder: false, collected: Seq::empty(), ..m },
            m.collected + seq![StreamAction::Release, StreamAction::Stop],
        )
    }
}

/// Output of a decoder that is being drained. The decoder is drained when it has
/// finished, and only then: as long as it has nothing ready it is asked again.
pub open spec fn drain_output(m: StreamModel, output: DecoderOutput) -> (
    StreamModel,
    Seq<StreamAction<Seq<u8>>>,
) {
    match output {
        DecoderOutput::Audio(chunk) => (
            StreamModel {
                meta_sent: true,
                collected: m.collected + responses(chunk_contents(m.meta_sent, chunk)),
                ..m
            },
            seq![StreamAction::Poll],
        ),
        DecoderOutput::Failed(_) => (m, seq![StreamAction::Poll]),
        DecoderOutput::Pending => (m, seq![StreamAction::PauseAndPoll]),
        DecoderOutput::Closed => after_drain(m),
    }
}

/// Output of the decoder behind a message: what is ready is sent, then the next
/// message is awaited. A decoder that has finished is let go.
pub open spec fn collect_output(m: StreamModel, output: DecoderOutput) -> (
    StreamModel,
    Seq<StreamAction<Seq<u8>>>,
) {
    match output {
        DecoderOutput::Audio(chunk) => (
            StreamModel {
                meta_sent: true,
                collected: m.collected + responses(chunk_contents(m.meta_sent, chunk)),
                ..m
            },
            seq![StreamAction::Poll],
        ),
        DecoderOutput::Failed(_) => (m, seq![StreamAction::Poll]),
        DecoderOutput::Pending => (
            StreamModel { phase: Phase::Receiving, collected: Seq::empty(), ..m },
            m.collected + seq![StreamAction::NextMessage],
        ),
        DecoderOutput::Closed => (
            StreamModel {
                phase: Phase::Receiving,
                decoder: false,
                collected: Seq::empty(),
                ..m
            },
            m.collected + seq![StreamAction::Release, StreamAction::NextMessage],
        ),
    }
}

/// One step of a stream: the next state and what is to be done. An event that
/// is no answer to what the stream waits for changes nothing.
pub open spec fn stream_step(m: StreamModel, event: StreamEvent) -> (
    StreamModel,
    Seq<StreamAction<Seq<u8>>>,
) {
    match (m.phase, event) {
        (Phase::Ended, _) => (m, seq![]),
        (_, StreamEvent::ClientGone) => (
            StreamModel { phase: Phase::Ended, ..m },
            seq![StreamAction::Stop],
        ),
        (Phase::Receiving, StreamEvent::Message(request)) => take_message(m, request),
        (Phase::Receiving, StreamEvent::InputFailed) | (
            Phase::Receiving,
            StreamEvent::InputEnded,
        ) => if m.decoder {
            (
                StreamModel { phase: Phase::Finishing, ..m },
                seq![StreamAction::SignalEnd, StreamAction::Poll],
            )
        } else {
            (StreamModel { phase: Phase::Ended, ..m }, seq![StreamAction::Stop])
        },
        (Phase::Receiving, StreamEvent::Shutdown) => (
            StreamModel { phase: Phase::Ended, ..m },
            seq![StreamAction::Stop],
        ),
        (Phase::Draining, StreamEvent::Output(output)) => drain_output(m, output),
        (Phase::Finishing, StreamEvent::Output(output)) => drain_output(m, output),
        (Phase::Acquiring, StreamEvent::Acquired) => take_input(
            StreamModel { decoder: true, meta_sent: false, ..m },
        ),
        (Phase::Acquiring, StreamEvent::AcquireFailed) => (
            StreamModel { phase: Phase::Ended, ..m },
            seq![StreamAction::Reject, StreamAction::Stop],
        ),
        (Phase::Feeding, StreamEvent::Fed(taken)) => if taken {
            (StreamModel { phase: Phase::Collecting, ..m }, seq![StreamAction::Poll])
        } else {
            (
                StreamModel { phase: Phase::Receiving, decoder: false, ..m },
                seq![StreamAction::Release, StreamAction::NextMessage],
            )
        },
        (Phase::Collecting, StreamEvent::Output(output)) => collect_output(m, output),
        _ => (m, seq![]),
    }
}

/// The state of one gRPC decode stream.
#[derive(Debug)]
pub struct DecodeStream {
    phase: Phase,
    default: DecodeOptions,
    current: DecodeOptions,
    decoder: bool,
    meta_sent: bool,
    data: Vec<u8>,
    collected: Vec<StreamAction<Vec<u8>>>,
}

impl View for DecodeStream {
    type V = StreamModel;

    closed spec fn view(&self) -> StreamModel {
        StreamModel {
            phase: self.phase,
            default: self.default,
            current: self.current,
            decoder: self.decoder,
            meta_sent: self.meta_sent,
            data: self.data@,
            collected: actions_model(self.collected@),
        }
    }
}

impl DecodeStream {
    /// A stream before its first message. The first thing to do on it is to wait
    /// for a message.
    pub fn new(default: DecodeOptions) -> (r: Self)
        ensures
            r@ == fresh_stream(default),
    {
        let r = DecodeStream {
            phase: Phase::Receiving,
            default,
            current: default,
            decoder: false,
            meta_sent: false,
            data: Vec::new(),
            collected: Vec::new(),
        };
        assert(r@.data =~= Seq::empty());
        assert(r@.collected =~= Seq::empty());
        r
    }

    /// Where this stream stands.
    pub fn phase(&self) -> (r: Phase)
        ensures
            r == self@.phase,
    {
        self.phase
    }

    /// Takes the answer to the last action and says what to do next, in order.
    pub fn step(&mut self, event: StreamEvent) -> (r: Vec<StreamAction<Vec<u8>>>)
        ensures
            (final(self)@, actions_model(r@)) == stream_step(old(self)@, event),
    {
        let mut actions: Vec<StreamAction<Vec<u8>>> = Vec::new();
        assert(actions_model(actions@) =~= seq![]);
        match event {
            StreamEvent::ClientGone => {
                match self.phase {
                    Phase::Ended => {},
                    _ => {
                        self.phase = Phase::Ended;
                        actions.push(StreamAction::Stop);
                    },
                }
            },
            StreamEvent::Message(request) => {
                if let Phase::Receiving = self.phase {
                    self.take_message(request, &mut actions);
                }
            },
            StreamEvent::InputFailed | StreamEvent::InputEnded => {
                if let Phase::Receiving = self.phase {
                    if self.decoder {
                        self.phase = Phase::Finishing;
                        actions.push(StreamAction::SignalEnd);
                        actions.push(StreamAction::Poll);
                    } else {
                        self.phase = Phase::Ended;
                        actions.push(StreamAction::Stop);
                    }
                }
            },
            StreamEvent::Shutdown => {
                if let Phase::Receiving = self.phase {
                    self.phase = Phase::Ended;
                    actions.push(StreamAction::Stop);
                }
            },
            StreamEvent::Acquired => {
                if let Phase::Acquiring = self.phase {
                    self.decoder = true;
                    self.meta_sent = false;
                    self.take_input(&mut actions);
                }
            },
            StreamEvent::AcquireFailed => {
                if let Phase::Acquiring = self.phase {
                    self.phase = Phase::Ended;
                    actions.push(StreamAction::Reject);
                    actions.push(StreamAction::Stop);
                }
            },
            StreamEvent::Fed(taken) => {
                if let Phase::Feeding = self.phase {
                    if taken {
                        self.phase = Phase::Collecting;
                        actions.push(StreamAction::Poll);
                    } else {
                        self.phase = Phase::Receiving;
                        self.decoder = false;
                        actions.push(StreamAction::Release);
                        actions.push(StreamAction::NextMessage);
                    }
                }
            },
            StreamEvent::Output(output) => {
                match self.phase {
                    Phase::Draining | Phase::Finishing => {
                        self.drain_output(output, &mut actions);
                    },
                    Phase::Collecting => {
                        self.collect_output(output, &mut actions);
                    },
                    _ => {},
                }
            },
        }
        proof {
            let expected = stream_step(old(self)@, event);
            assert(actions_model(actions@) =~= expected.1);
            assert(self@.data =~= expected.0.data);
            assert(self@.collected =~= expected.0.collected);
        }
        actions
    }

    fn take_input(&mut self, actions: &mut Vec<StreamAction<Vec<u8>>>)
        requires
            old(actions)@.len() == 0,
        ensures
            (final(self)@, actions_model(final(actions)@)) == take_input(old(self)@),
    {
        if self.data.is_empty() {
            self.phase = Phase::Collecting;
            actions.push(StreamAction::Poll);
        } else {
            let mut data: Vec<u8> = Vec::new();
            std::mem::swap(&mut data, &mut self.data);
            self.phase = Phase::Feeding;
            actions.push(StreamAction::Feed(data));
            assert(self@.data =~= Seq::empty());
        }
        assert(actions_model(actions@) =~= take_input(old(self)@).1);
    }

    fn take_message(&mut self, request: DecodeRequest, actions: &mut Vec<StreamAction<Vec<u8>>>)
        requires
            old(actions)@.len() == 0,
        ensures
            (final(self)@, actions_model(final(actions)@)) == take_message(old(self)@, request),
    {
        self.data = request.data;
        if self.decoder && !request.new_segment {
            self.take_input(actions);
        } else {
            if let Some(asked) = request.options {
                self.current = resolve_options(self.default, asked);
            }
            if self.decoder {
                self.phase = Phase::Draining;
                actions.push(StreamAction::SignalEnd);
                actions.push(StreamAction::Poll);
            } else {
                self.phase = Phase::Acquiring;
                actions.push(StreamAction::Acquire(self.current));
            }
            assert(actions_model(actions@) =~= take_message(old(self)@, request).1);
        }
    }

    /// Adds what is sent for a chunk to the answers collected so far.
    fn collect_chunk(&mut self, chunk: AudioChunk)
        ensures
            final(self)@ == (StreamModel {
                meta_sent: true,
                collected: old(self)@.collected + responses(
                    chunk_contents(old(self)@.meta_sent, chunk),
                ),
                ..old(self)@
            }),
    {
        if !self.meta_sent {
            self.collected.push(
                StreamAction::Respond(
                    Content::Metadata {
                        sample_rate: chunk.sample_rate,
                        channels: chunk.channels as u32,
                        bits_per_sample: chunk.bits_per_sample as u32,
                    },
                ),
            );
            self.meta_sent = true;
        }
        self.collected.push(StreamAction::Respond(Content::PcmData(chunk.data)));
        assert(self@.collected =~= old(self)@.collected + responses(
            chunk_contents(old(self)@.meta_sent, chunk),
        ));
    }

    /// Hands out the answers collected so far.
    fn send_collected(&mut self, actions: &mut Vec<StreamAction<Vec<u8>>>)
        ensures
            actions_model(final(actions)@) == actions_model(old(actions)@) + old(self)@.collected,
            final(self)@ == (StreamModel { collected: Seq::empty(), ..old(self)@ }),
    {
        actions.append(&mut self.collected);
        assert(actions_model(actions@) =~= actions_model(old(actions)@) + old(self)@.collected);
        assert(self@.collected =~= Seq::empty());
    }

    fn after_drain(&mut self, actions: &mut Vec<StreamAction<Vec<u8>>>)
        requires
            old(actions)@.len() == 0,
        ensures
            (final(self)@, actions_model(final(actions)@)) == after_drain(old(self)@),
    {
        self.decoder = false;
        if let Phase::Draining = self.phase {
            actions.push(StreamAction::Release);
            assert(actions_model(actions@) =~= seq![StreamAction::Release]);
            self.send_collected(actions);
            self.phase = Phase::Acquiring;
            actions.push(StreamAction::Acquire(self.current));
        } else {
            assert(actions_model(actions@) =~= seq![]);
            self.send_collected(actions);
            self.phase = Phase::Ended;
            actions.push(StreamAction::Release);
            actions.push(StreamAction::Stop);
        }
        assert(actions_model(actions@) =~= after_drain(old(self)@).1);
    }

    fn drain_output(&mut self, output: DecoderOutput, actions: &mut Vec<StreamAction<Vec<u8>>>)
        requires
            old(actions)@.len() == 0,
        ensures
            (final(self)@, actions_model(final(actions)@)) == drain_output(old(self)@, output),
    {
        match output {
            DecoderOutput::Audio(chunk) => {
                self.collect_chunk(chunk);
                actions.push(StreamAction::Poll);
            },
            DecoderOutput::Failed(_) => {
                actions.push(StreamAction::Poll);
            },
            DecoderOutput::Pending => {
                actions.push(StreamAction::PauseAndPoll);
            },
            DecoderOutput::Closed => {
                self.after_drain(actions);
            },
        }
        assert(actions_model(actions@) =~= drain_output(old(self)@, output).1);
    }

    fn collect_output(&mut self, output: DecoderOutput, actions: &mut Vec<StreamAction<Vec<u8>>>)
        requires
            old(actions)@.len() == 0,
        ensures
            (final(self)@, actions_model(final(actions)@)) == collect_output(old(self)@, output),
    {
        match output {
            DecoderOutput::Audio(chunk) => {
                self.collect_chunk(chunk);
                actions.push(StreamAction::Poll);
            },
            DecoderOutput::Failed(_) => {
                actions.push(StreamAction::Poll);
            },
            DecoderOutput::Pending => {
                self.send_collected(actions);
                self.phase = Phase::Receiving;
                actions.push(StreamAction::NextMessage);
            },
            DecoderOutput::Closed => {
                self.send_collected(actions);
                self.phase = Phase::Receiving;
                self.decoder = false;
                actions.push(StreamAction::Release);
                actions.push(StreamAction::NextMessage);
            },
        }
        assert(actions_model(actions@) =~= collect_output(old(self)@, output).1);
    }
}

// ---------------------------------------------------------------------------
// What holds of whole streams
// ---------------------------------------------------------------------------

/// The state that a run of events leads to, and all that was to be done on the way.
pub open spec fn run(m: StreamModel, events: Seq<StreamEvent>) -> (
    StreamModel,
    Seq<StreamAction<Seq<u8>>>,
)
    decreases events.len(),
{
    if events.len() == 0 {
        (m, seq![])
    } else {
        let before = run(m, events.drop_last());
        let step = stream_step(before.0, events.last());
        (step.0, before.1 + step.1)
    }
}

/// A run of events on a stream from its beginning, each of which is an answer to
/// what the stream waits for.
pub open spec fn answered_run(default: DecodeOptions, events: Seq<StreamEvent>) -> bool
    decreases events.len(),
{
    events.len() == 0 || (answered_run(default, events.drop_last()) && answers(
        run(fresh_stream(default), events.drop_last()).0.phase,
        events.last(),
    ))
}

/// Whether the current segment has handed out audio.
pub open spec fn announced(events: Seq<StreamEvent>) -> bool
    decreases events.len(),
{
    if events.len() == 0 {
        false
    } else {
        match events.last() {
            StreamEvent::Acquired => false,
            StreamEvent::Output(DecoderOutput::Audio(_)) => true,
            _ => announced(events.drop_last()),
        }
    }
}

/// The messages that tell a client about the audio in these events: the audio of
/// every chunk, unchanged and in order, and before the first chunk of every
/// segment the format of that chunk.
pub open spec fn contents_of(events: Seq<StreamEvent>) -> Seq<Content<Seq<u8>>>
    decreases events.len(),
{
    if events.len() == 0 {
        seq![]
    } else {
        let before = contents_of(events.drop_last());
        match events.last() {
            StreamEvent::Output(DecoderOutput::Audio(chunk)) => before + chunk_contents(
                announced(events.drop_last()),
                chunk,
            ),
            _ => before,
        }
    }
}

/// The encoded audio that the client sent, in order.
pub open spec fn inputs_of(events: Seq<StreamEvent>) -> Seq<Seq<u8>>
    decreases events.len(),
{
    if events.len() == 0 {
        seq![]
    } else {
        let before = inputs_of(events.drop_last());
        match events.last() {
            StreamEvent::Message(request) => if request.data@.len() > 0 {
                before.push(request.data@)
            } else {
                before
            },
            _ => before,
        }
    }
}

/// The messages that were sent to the client, in order.
pub open spec fn sent_of(actions: Seq<StreamAction<Seq<u8>>>) -> Seq<Content<Seq<u8>>>
    decreases actions.len(),
{
    if actions.len() == 0 {
        seq![]
    } else {
        match actions.last() {
            StreamAction::Respond(content) => sent_of(actions.drop_last()).push(content),
            _ => sent_of(actions.drop_last()),
        }
    }
}

/// The input that was handed to decoders, in order.
pub open spec fn feeds_of(actions: Seq<StreamAction<Seq<u8>>>) -> Seq<Seq<u8>>
    decreases actions.len(),
{
    if actions.len() == 0 {
        seq![]
    } else {
        match actions.last() {
            StreamAction::Feed(data) => feeds_of(actions.drop_last()).push(data),
            _ => feeds_of(actions.drop_last()),
        }
    }
}

/// The input of the message that is being worked on, until it is handed over.
pub open spec fn held_input(m: StreamModel) -> Seq<Seq<u8>> {
    if (m.phase is Draining || m.phase is Acquiring) && m.data.len() > 0 {
        seq![m.data]
    } else {
        seq![]
    }
}

proof fn lemma_effects_concat(a: Seq<StreamAction<Seq<u8>>>, b: Seq<StreamAction<Seq<u8>>>)
    ensures
        sent_of(a + b) == sent_of(a) + sent_of(b),
        feeds_of(a + b) == feeds_of(a) + feeds_of(b),
    decreases b.len(),
{
    if b.len() == 0 {
        assert(a + b =~= a);
    } else {
        lemma_effects_concat(a, b.drop_last());
        assert((a + b).drop_last() =~= a + b.drop_last());
        assert(sent_of(a + b) =~= sent_of(a) + sent_of(b));
        assert(feeds_of(a + b) =~= feeds_of(a) + feeds_of(b));
    }
}

proof fn lemma_effects_of_one(action: StreamAction<Seq<u8>>)
    ensures
        sent_of(seq![action]) == (match action {
            StreamAction::Respond(content) => seq![content],
            _ => seq![],
        }),
        feeds_of(seq![action]) == (match action {
            StreamAction::Feed(data) => seq![data],
            _ => seq![],
        }),
{
    reveal_with_fuel(sent_of, 2);
    reveal_with_fuel(feeds_of, 2);
    assert(seq![action].drop_last() =~= seq![]);
    assert(sent_of(seq![action]) =~= (match action {
        StreamAction::Respond(content) => seq![content],
        _ => seq![],
    }));
    assert(feeds_of(seq![action]) =~= (match action {
        StreamAction::Feed(data) => seq![data],
        _ => seq![],
    }));
}

proof fn lemma_effects_of_two(a: StreamAction<Seq<u8>>, b: StreamAction<Seq<u8>>)
    requires
        !(a is Respond) && !(a is Feed) && !(b is Respond) && !(b is Feed),
    ensures
        sent_of(seq![a, b]) == Seq::<Content<Seq<u8>>>::empty(),
        feeds_of(seq![a, b]) == Seq::<Seq<u8>>::empty(),
{
    assert(seq![a, b] =~= seq![a] + seq![b]);
    lemma_effects_concat(seq![a], seq![b]);
    lemma_effects_of_one(a);
    lemma_effects_of_one(b);
}

proof fn lemma_sent_of_responses(contents: Seq<Content<Seq<u8>>>)
    ensures
        sent_of(responses(contents)) == contents,
        feeds_of(responses(contents)) == Seq::<Seq<u8>>::empty(),
    decreases contents.len(),
{
    let actions = responses(contents);
    if contents.len() > 0 {
        lemma_sent_of_responses(contents.drop_last());
        assert(actions.drop_last() =~= responses(contents.drop_last()));
        assert(actions.last() == StreamAction::Respond(contents.last()));
        assert(sent_of(actions) =~= contents);
    } else {
        assert(sent_of(actions) =~= contents);
    }
}

/// What is collected holds answers only.
spec fn only_answers(m: StreamModel) -> bool {
    feeds_of(m.collected) == Seq::<Seq<u8>>::empty()
}

/// What one step sends, collects and feeds.
proof fn lemma_step_effects(m: StreamModel, event: StreamEvent)
    requires
        answers(m.phase, event),
        only_answers(m),
        m.phase is Receiving || m.phase is Acquiring || m.phase is Feeding ==> m.collected
            == Seq::<StreamAction<Seq<u8>>>::empty(),
        !(m.phase is Draining) && !(m.phase is Acquiring) ==> m.data.len() == 0,
    ensures
        ({
            let (end, actions) = stream_step(m, event);
            &&& only_answers(end)
            &&& end.phase is Receiving || end.phase is Acquiring || end.phase is Feeding ||
                (end.phase is Ended && !(event is ClientGone)) ==> end.collected == Seq::<
                StreamAction<Seq<u8>>,
            >::empty()
            &&& !(end.phase is Draining) && !(end.phase is Acquiring) && !(end.phase is Ended)
                ==> end.data.len() == 0
            &&& end.meta_sent == (match event {
                StreamEvent::Acquired => false,
                StreamEvent::Output(DecoderOutput::Audio(_)) => true,
                _ => m.meta_sent,
            })
            &&& sent_of(actions) + sent_of(end.collected) == sent_of(m.collected) + (match event {
                StreamEvent::Output(DecoderOutput::Audio(chunk)) => chunk_contents(
                    m.meta_sent,
                    chunk,
                ),
                _ => seq![],
            })
            &&& !(event is AcquireFailed) && !(event is ClientGone) ==> feeds_of(actions)
                + held_input(end) == held_input(m) + (match event {
                StreamEvent::Message(request) => if request.data@.len() > 0 {
                    seq![request.data@]
                } else {
                    seq![]
                },
                _ => seq![],
            })
        }),
{
    let (end, actions) = stream_step(m, event);
    let no_content = Seq::<Content<Seq<u8>>>::empty();
    let no_input = Seq::<Seq<u8>>::empty();
    assert(sent_of(Seq::<StreamAction<Seq<u8>>>::empty()) =~= no_content);
    let c = m.collected;
    match event {
        StreamEvent::Output(DecoderOutput::Audio(chunk)) => {
            let more = chunk_contents(m.meta_sent, chunk);
            lemma_sent_of_responses(more);
            lemma_effects_concat(c, responses(more));
            lemma_effects_of_one(StreamAction::Poll);
            assert(feeds_of(end.collected) =~= no_input);
            assert(sent_of(actions) + sent_of(end.collected) =~= sent_of(c) + more);
        },
        StreamEvent::Output(output) => {
            lemma_effects_of_one(StreamAction::Poll);
            lemma_effects_of_one(StreamAction::PauseAndPoll);
            lemma_effects_of_one(StreamAction::NextMessage);
            lemma_effects_of_one(StreamAction::Release);
            lemma_effects_of_one(StreamAction::Acquire(m.current));
            lemma_effects_of_two(StreamAction::Release, StreamAction::NextMessage);
            lemma_effects_of_two(StreamAction::Release, StreamAction::Stop);
            lemma_effects_concat(c, seq![StreamAction::NextMessage]);
            lemma_effects_concat(c, seq![StreamAction::Release, StreamAction::NextMessage]);
            lemma_effects_concat(c, seq![StreamAction::Release, StreamAction::Stop]);
            lemma_effects_concat(seq![StreamAction::Release], c);
            lemma_effects_concat(
                seq![StreamAction::Release] + c,
                seq![StreamAction::Acquire(m.current)],
            );
            assert(sent_of(actions) + sent_of(end.collected) =~= sent_of(c));
            assert(feeds_of(actions) =~= no_input);
        },
        StreamEvent::Message(request) => {
            lemma_effects_of_two(StreamAction::SignalEnd, StreamAction::Poll);
            lemma_effects_of_one(StreamAction::Feed(request.data@));
            lemma_effects_of_one(StreamAction::Poll);
            lemma_effects_of_one(StreamAction::Acquire(end.current));
            assert(sent_of(actions) =~= no_content);
            if m.decoder && !request.new_segment && request.data@.len() > 0 {
                assert(feeds_of(actions) =~= seq![request.data@]);
            } else {
                assert(feeds_of(actions) =~= no_input);
            }
        },
        StreamEvent::Acquired => {
            lemma_effects_of_one(StreamAction::Feed(m.data));
            lemma_effects_of_one(StreamAction::Poll);
            assert(sent_of(actions) =~= no_content);
        },
        _ => {
            lemma_effects_of_two(StreamAction::SignalEnd, StreamAction::Poll);
            lemma_effects_of_two(StreamAction::Release, StreamAction::NextMessage);
            lemma_effects_of_two(StreamAction::Reject, StreamAction::Stop);
            lemma_effects_of_one(StreamAction::Poll);
            lemma_effects_of_one(StreamAction::Stop);
            assert(sent_of(actions) =~= no_content);
            assert(feeds_of(actions) =~= no_input);
        },
    }
    if !(end.phase is Ended) {
        assert(feeds_of(actions) + held_input(end) =~= held_input(m) + (match event {
            StreamEvent::Message(request) => if request.data@.len() > 0 {
                seq![request.data@]
            } else {
                seq![]
            },
            _ => seq![],
        }));
    }
    assert(sent_of(actions) + sent_of(end.collected) =~= sent_of(m.collected) + (match event {
        StreamEvent::Output(DecoderOutput::Audio(chunk)) => chunk_contents(m.meta_sent, chunk),
        _ => seq![],
    }));
}

/// Whether the client was found to be gone.
pub open spec fn client_gone(events: Seq<StreamEvent>) -> bool {
    events.len() > 0 && events.last() is ClientGone
}

/// What a client receives, together with what is collected for it, is decided by
/// the audio that the decoders handed out: for every segment the format of its
/// first chunk, then the audio of each chunk, unchanged and in order. Whenever a
/// message or a decoder is awaited, and at the end unless the client is gone,
/// nothing is left behind.
pub proof fn law_stream_output(default: DecodeOptions, events: Seq<StreamEvent>)
    requires
        answered_run(default, events),
    ensures
        ({
            let (end, actions) = run(fresh_stream(default), events);
            &&& sent_of(actions) + sent_of(end.collected) == contents_of(events)
            &&& end.phase is Receiving || end.phase is Acquiring || end.phase is Feeding || (
            end.phase is Ended && !client_gone(events)) ==> sent_of(actions) == contents_of(events)
        }),
{
    lemma_stream_invariant(default, events);
    let (end, actions) = run(fresh_stream(default), events);
    assert(sent_of(Seq::<StreamAction<Seq<u8>>>::empty()) =~= Seq::<Content<Seq<u8>>>::empty());
    assert(sent_of(actions) + Seq::<Content<Seq<u8>>>::empty() =~= sent_of(actions));
}

/// Whether the stream broke off: no decoder could be had, or the client is gone.
pub open spec fn cut_short(events: Seq<StreamEvent>) -> bool {
    events.len() > 0 && (events.last() is AcquireFailed || events.last() is ClientGone)
}

/// What decoders are fed is what the client sent: the data of every message that
/// holds any, unchanged and in order, but for that of a message whose decoder is
/// still awaited.
pub proof fn law_stream_input(default: DecodeOptions, events: Seq<StreamEvent>)
    requires
        answered_run(default, events),
        !cut_short(events),
    ensures
        ({
            let (end, actions) = run(fresh_stream(default), events);
            feeds_of(actions) + held_input(end) == inputs_of(events)
        }),
{
    lemma_stream_invariant(default, events);
}

proof fn lemma_stream_invariant(default: DecodeOptions, events: Seq<StreamEvent>)
    requires
        answered_run(default, events),
    ensures
        ({
            let (end, actions) = run(fresh_stream(default), events);
            &&& only_answers(end)
            &&& end.meta_sent == announced(events)
            &&& end.phase is Receiving || end.phase is Acquiring || end.phase is Feeding || (
            end.phase is Ended && !client_gone(events)) ==> end.collected == Seq::<
                StreamAction<Seq<u8>>,
            >::empty()
            &&& !(end.phase is Draining) && !(end.phase is Acquiring) && !(end.phase is Ended)
                ==> end.data.len() == 0
            &&& sent_of(actions) + sent_of(end.collected) == contents_of(events)
            &&& cut_short(events) ==> end.phase is Ended
            &&& !cut_short(events) ==> feeds_of(actions) + held_input(end) == inputs_of(events)
        }),
    decreases events.len(),
{
    let m = fresh_stream(default);
    if events.len() > 0 {
        let prior = events.drop_last();
        let event = events.last();
        lemma_stream_invariant(default, prior);
        let before = run(m, prior);
        let step = stream_step(before.0, event);
        lemma_step_effects(before.0, event);
        lemma_effects_concat(before.1, step.1);
        let (end, actions) = run(m, events);
        assert(sent_of(actions) + sent_of(end.collected) =~= sent_of(before.1) + (sent_of(step.1)
            + sent_of(end.collected)));
        let added = match event {
            StreamEvent::Output(DecoderOutput::Audio(chunk)) => chunk_contents(
                before.0.meta_sent,
                chunk,
            ),
            _ => seq![],
        };
        assert(sent_of(before.1) + (sent_of(before.0.collected) + added) =~= (sent_of(before.1)
            + sent_of(before.0.collected)) + added);
        assert(contents_of(events) =~= contents_of(prior) + added);
        if !cut_short(events) {
            let given = match event {
                StreamEvent::Message(request) => if request.data@.len() > 0 {
                    seq![request.data@]
                } else {
                    seq![]
                },
                _ => seq![],
            };
            assert(feeds_of(actions) + held_input(end) =~= feeds_of(before.1) + (feeds_of(step.1)
                + held_input(end)));
            assert(feeds_of(before.1) + (held_input(before.0) + given) =~= (feeds_of(before.1)
                + held_input(before.0)) + given);
            assert(inputs_of(events) =~= inputs_of(prior) + given);
        }
    } else {
        assert(m.collected =~= seq![]);
        assert(sent_of(Seq::<StreamAction<Seq<u8>>>::empty()) + sent_of(m.collected)
            =~= contents_of(events));
        assert(feeds_of(Seq::<StreamAction<Seq<u8>>>::empty()) + held_input(m) =~= inputs_of(
            events,
        ));
    }
}

/// The chunks of audio among what a decoder handed out, in order.
pub open spec fn chunks_among(outputs: Seq<DecoderOutput>) -> Seq<AudioChunk>
    decreases outputs.len(),
{
    if outputs.len() == 0 {
        seq![]
    } else {
        match outputs.last() {
            DecoderOutput::Audio(chunk) => chunks_among(outputs.drop_last()).push(chunk),
            _ => chunks_among(outputs.drop_last()),
        }
    }
}

/// What a client is sent for these chunks of a segment: the audio of each, and
/// before it the format of the first one, unless the segment has announced it.
pub open spec fn segment_contents(meta_sent: bool, chunks: Seq<AudioChunk>) -> Seq<
    Content<Seq<u8>>,
> {
    let audio = chunks.map_values(|c: AudioChunk| Content::PcmData(c.data@));
    if meta_sent || chunks.len() == 0 {
        audio
    } else {
        seq![chunk_format(chunks[0])] + audio
    }
}

/// How often a decoder was told that its input has ended.
pub open spec fn end_signals(actions: Seq<StreamAction<Seq<u8>>>) -> nat
    decreases actions.len(),
{
    if actions.len() == 0 {
        0
    } else {
        end_signals(actions.drop_last()) + (if actions.last() is SignalEnd {
            1nat
        } else {
            0nat
        })
    }
}

/// Whether an event has the decoder of a segment drained: the input is over, or
/// a message starts a new segment.
pub open spec fn starts_drain(event: StreamEvent) -> bool {
    event is InputEnded || event is InputFailed || (event matches StreamEvent::Message(request)
        && request.new_segment)
}

/// An event, and then what a decoder answered.
pub open spec fn drain_events(start: StreamEvent, outputs: Seq<DecoderOutput>) -> Seq<StreamEvent> {
    seq![start] + outputs.map_values(|o: DecoderOutput| StreamEvent::Output(o))
}

/// A decoder that is being drained is told once, before it is asked for anything,
/// that its input has ended, and is asked for output until it has finished,
/// however often it has nothing ready. The client is then sent all the audio that
/// it handed out, unchanged and in order.
pub proof fn law_drain_is_complete(
    m: StreamModel,
    start: StreamEvent,
    outputs: Seq<DecoderOutput>,
)
    requires
        m.phase is Receiving,
        m.decoder,
        m.collected.len() == 0,
        starts_drain(start),
        forall|i: int| 0 <= i < outputs.len() ==> !(#[trigger] outputs[i] is Closed),
    ensures
        ({
            let (before, so_far) = run(m, drain_events(start, outputs));
            let (after, actions) = run(
                m,
                drain_events(start, outputs.push(DecoderOutput::Closed)),
            );
            &&& before.phase is Draining || before.phase is Finishing
            &&& before.phase == run(m, seq![start]).0.phase
            &&& before.decoder
            &&& after.phase == (if before.phase is Draining {
                Phase::Acquiring
            } else {
                Phase::Ended
            })
            &&& !after.decoder
            &&& actions.len() > 0 && actions[0] is SignalEnd
            &&& end_signals(actions) == 1
            &&& sent_of(so_far) == Seq::<Content<Seq<u8>>>::empty()
            &&& sent_of(actions) == segment_contents(m.meta_sent, chunks_among(outputs))
        }),
{
    lemma_draining(m, start, outputs);
    let events = drain_events(start, outputs);
    let all = drain_events(start, outputs.push(DecoderOutput::Closed));
    assert(all.drop_last() =~= events);
    assert(all.last() == StreamEvent::Output(DecoderOutput::Closed));
    let (before, so_far) = run(m, events);
    let contents = segment_contents(m.meta_sent, chunks_among(outputs));
    let step = after_drain(before).1;
    let c = before.collected;
    lemma_sent_of_responses(contents);
    lemma_effects_concat(so_far, step);
    lemma_signals_concat(so_far, step);
    lemma_no_signals(contents);
    reveal_with_fuel(end_signals, 3);
    if before.phase is Draining {
        let acquire = StreamAction::<Seq<u8>>::Acquire(before.current);
        lemma_effects_of_one(StreamAction::Release);
        lemma_effects_of_one(acquire);
        lemma_effects_concat(seq![StreamAction::Release], c);
        lemma_effects_concat(seq![StreamAction::Release] + c, seq![acquire]);
        lemma_signals_concat(seq![StreamAction::Release], c);
        lemma_signals_concat(seq![StreamAction::Release] + c, seq![acquire]);
        assert(seq![acquire].drop_last() =~= seq![]);
        assert(seq![StreamAction::<Seq<u8>>::Release].drop_last() =~= seq![]);
        assert(sent_of(step) =~= contents);
    } else {
        let tail = seq![StreamAction::<Seq<u8>>::Release, StreamAction::Stop];
        lemma_effects_of_two(StreamAction::Release, StreamAction::Stop);
        lemma_effects_concat(c, tail);
        lemma_signals_concat(c, tail);
        assert(tail.drop_last() =~= seq![StreamAction::Release]);
        assert(tail.drop_last().drop_last() =~= seq![]);
        assert(sent_of(step) =~= contents);
    }
    assert(sent_of(so_far + step) =~= contents);
    assert((so_far + step)[0] == so_far[0]);
}

/// A decoder that is being drained and has not finished.
proof fn lemma_draining(m: StreamModel, start: StreamEvent, outputs: Seq<DecoderOutput>)
    requires
        m.phase is Receiving,
        m.decoder,
        m.collected.len() == 0,
        starts_drain(start),
        forall|i: int| 0 <= i < outputs.len() ==> !(#[trigger] outputs[i] is Closed),
    ensures
        ({
            let (end, actions) = run(m, drain_events(start, outputs));
            let chunks = chunks_among(outputs);
            &&& end.phase is Draining || end.phase is Finishing
            &&& end.phase == run(m, seq![start]).0.phase
            &&& end.decoder
            &&& end.meta_sent == (m.meta_sent || chunks.len() > 0)
            &&& end.collected == responses(segment_contents(m.meta_sent, chunks))
            &&& actions.len() > 0 && actions[0] is SignalEnd
            &&& end_signals(actions) == 1
            &&& sent_of(actions) == Seq::<Content<Seq<u8>>>::empty()
        }),
    decreases outputs.len(),
{
    let events = drain_events(start, outputs);
    reveal_with_fuel(end_signals, 3);
    if outputs.len() == 0 {
        assert(events =~= seq![start]);
        assert(events.drop_last() =~= seq![]);
        reveal_with_fuel(run, 2);
        let (end, actions) = run(m, events);
        assert(actions =~= seq![StreamAction::SignalEnd, StreamAction::Poll]);
        assert(actions.drop_last() =~= seq![StreamAction::SignalEnd]);
        assert(actions.drop_last().drop_last() =~= seq![]);
        lemma_effects_of_two(StreamAction::SignalEnd, StreamAction::Poll);
        assert(end.collected =~= responses(segment_contents(m.meta_sent, seq![])));
        assert(chunks_among(outputs) =~= seq![]);
    } else {
        let prior = outputs.drop_last();
        let output = outputs.last();
        assert(!(outputs[outputs.len() - 1] is Closed));
        lemma_draining(m, start, prior);
        assert(events.drop_last() =~= drain_events(start, prior));
        assert(events.last() == StreamEvent::Output(output));
        let before = run(m, drain_events(start, prior));
        let step = drain_output(before.0, output).1;
        lemma_effects_concat(before.1, step);
        lemma_signals_concat(before.1, step);
        lemma_effects_of_one(StreamAction::Poll);
        lemma_effects_of_one(StreamAction::PauseAndPoll);
        assert(step.drop_last() =~= seq![]);
        let chunks = chunks_among(prior);
        let (end, actions) = run(m, events);
        assert(sent_of(actions) =~= Seq::<Content<Seq<u8>>>::empty());
        assert((before.1 + step)[0] == before.1[0]);
        if let DecoderOutput::Audio(chunk) = output {
            assert(chunks_among(outputs) == chunks.push(chunk));
            let contents = segment_contents(m.meta_sent, chunks);
            let added = chunk_contents(before.0.meta_sent, chunk);
            assert(segment_contents(m.meta_sent, chunks.push(chunk)) =~= contents + added);
            assert(end.collected =~= responses(contents + added));
        }
    }
}

proof fn lemma_signals_concat(a: Seq<StreamAction<Seq<u8>>>, b: Seq<StreamAction<Seq<u8>>>)
    ensures
        end_signals(a + b) == end_signals(a) + end_signals(b),
    decreases b.len(),
{
    if b.len() == 0 {
        assert(a + b =~= a);
    } else {
        lemma_signals_concat(a, b.drop_last());
        assert((a + b).drop_last() =~= a + b.drop_last());
    }
}

/// Sending messages tells no decoder anything.
proof fn lemma_no_signals(contents: Seq<Content<Seq<u8>>>)
    ensures
        end_signals(responses(contents)) == 0,
    decreases contents.len(),
{
    if contents.len() > 0 {
        lemma_no_signals(contents.drop_last());
        assert(responses(contents).drop_last() =~= responses(contents.drop_last()));
    }
}

/// A message that gives no value for an option leaves it at the default, and one
/// that gives none at all asks for the defaults.
pub proof fn law_zero_means_default(default: DecodeOptions, asked: RequestOptions)
    ensures
        asked.output_sample_rate == 0 ==> options_for(default, asked).output_sample_rate
            == default.output_sample_rate,
        asked.output_bits_per_sample == 0 ==> options_for(default, asked).output_bits_per_sample
            == default.output_bits_per_sample,
        asked.output_channels == 0 ==> options_for(default, asked).output_channels
            == default.output_channels,
        asked.output_sample_rate == 0 && asked.output_bits_per_sample == 0
            && asked.output_channels == 0 ==> options_for(default, asked) == default,
{
}

// ---------------------------------------------------------------------------
// What is done next on a stream
// ---------------------------------------------------------------------------

/// Whether there is a decoder: one was acquired, and it has neither finished nor
/// refused its input since.
pub open spec fn has_decoder(events: Seq<StreamEvent>) -> bool
    decreases events.len(),
{
    if events.len() == 0 {
        false
    } else {
        match events.last() {
            StreamEvent::Acquired => true,
            StreamEvent::Fed(false) | StreamEvent::Output(DecoderOutput::Closed) => false,
            _ => has_decoder(events.drop_last()),
        }
    }
}

/// Whether a message that comes after these events starts a segment: it says so, or
/// it finds no decoder.
pub open spec fn starts_segment(events: Seq<StreamEvent>, request: DecodeRequest) -> bool {
    request.new_segment || !has_decoder(events)
}

/// The options of the current segment: those that were given last by a message that
/// started a segment, else the default.
pub open spec fn segment_options(default: DecodeOptions, events: Seq<StreamEvent>) -> DecodeOptions
    decreases events.len(),
{
    if events.len() == 0 {
        default
    } else {
        match events.last() {
            StreamEvent::Message(request) => match request.options {
                Some(asked) => if starts_segment(events.drop_last(), request) {
                    options_for(default, asked)
                } else {
                    segment_options(default, events.drop_last())
                },
                None => segment_options(default, events.drop_last()),
            },
            _ => segment_options(default, events.drop_last()),
        }
    }
}

/// The data of the last message.
pub open spec fn last_data(events: Seq<StreamEvent>) -> Seq<u8>
    decreases events.len(),
{
    if events.len() == 0 {
        seq![]
    } else {
        match events.last() {
            StreamEvent::Message(request) => request.data@,
            _ => last_data(events.drop_last()),
        }
    }
}

/// Why the decoder is asked for output.
pub enum Purpose {
    /// To send what is ready behind a message.
    Collect,
    /// To drain it, since a message starts a new segment.
    NewSegment,
    /// To drain it, since the input is over.
    EndOfInput,
}

/// Why the decoder was asked for output last.
pub open spec fn purpose(events: Seq<StreamEvent>) -> Purpose
    decreases events.len(),
{
    if events.len() == 0 {
        Purpose::Collect
    } else {
        match events.last() {
            StreamEvent::Message(request) => if request.new_segment {
                Purpose::NewSegment
            } else {
                Purpose::Collect
            },
            StreamEvent::InputEnded | StreamEvent::InputFailed => Purpose::EndOfInput,
            StreamEvent::Acquired | StreamEvent::Fed(_) => Purpose::Collect,
            _ => purpose(events.drop_last()),
        }
    }
}

/// The messages for the client that were not sent yet.
pub open spec fn unsent(events: Seq<StreamEvent>, actions: Seq<StreamAction<Seq<u8>>>) -> Seq<
    StreamAction<Seq<u8>>,
> {
    responses(contents_of(events).skip(sent_of(actions).len() as int))
}

/// Whether an event tells what came of an action. That the client is gone may turn
/// out at any time before the end.
pub open spec fn replies_to(action: StreamAction<Seq<u8>>, event: StreamEvent) -> bool {
    match action {
        StreamAction::NextMessage => event is Message || event is InputFailed
            || event is InputEnded || event is Shutdown || event is ClientGone,
        StreamAction::Poll | StreamAction::PauseAndPoll => event is Output || event is ClientGone,
        StreamAction::Acquire(_) => event is Acquired || event is AcquireFailed
            || event is ClientGone,
        StreamAction::Feed(_) => event is Fed || event is ClientGone,
        _ => false,
    }
}

/// What was to be done last. A stream begins with waiting for a message.
pub open spec fn last_told(actions: Seq<StreamAction<Seq<u8>>>) -> StreamAction<Seq<u8>> {
    if actions.len() == 0 {
        StreamAction::NextMessage
    } else {
        actions.last()
    }
}

/// What is collected consists of messages to the client.
proof fn lemma_collected_responses(default: DecodeOptions, events: Seq<StreamEvent>)
    requires
        answered_run(default, events),
    ensures
        ({
            let end = run(fresh_stream(default), events).0;
            end.collected == responses(sent_of(end.collected))
        }),
    decreases events.len(),
{
    let m = fresh_stream(default);
    let none = Seq::<StreamAction<Seq<u8>>>::empty();
    assert(responses(sent_of(none)) =~= none);
    if events.len() > 0 {
        let prior = events.drop_last();
        lemma_collected_responses(default, prior);
        let before = run(m, prior).0;
        let end = run(m, events).0;
        if let StreamEvent::Output(DecoderOutput::Audio(chunk)) = events.last() {
            let more = chunk_contents(before.meta_sent, chunk);
            lemma_effects_concat(before.collected, responses(more));
            lemma_sent_of_responses(more);
            assert(responses(sent_of(before.collected) + more) =~= responses(
                sent_of(before.collected),
            ) + responses(more));
        }
    }
}

/// What is collected is what was not sent yet.
proof fn lemma_unsent(default: DecodeOptions, events: Seq<StreamEvent>)
    requires
        answered_run(default, events),
    ensures
        ({
            let (end, actions) = run(fresh_stream(default), events);
            end.collected == unsent(events, actions)
        }),
{
    lemma_collected_responses(default, events);
    law_stream_output(default, events);
    let (end, actions) = run(fresh_stream(default), events);
    assert(contents_of(events).skip(sent_of(actions).len() as int) =~= sent_of(end.collected));
}

/// How a stream stands, as whoever serves it can see it.
#[verifier::spinoff_prover]
proof fn lemma_stream_stands(default: DecodeOptions, events: Seq<StreamEvent>)
    requires
        answered_run(default, events),
    ensures
        ({
            let (end, actions) = run(fresh_stream(default), events);
            let told = last_told(actions);
            let asks = told is Poll || told is PauseAndPoll;
            &&& end.default == default
            &&& end.current == segment_options(default, events)
            &&& !(end.phase is Ended) ==> end.decoder == has_decoder(events)
            &&& match end.phase {
                Phase::Receiving => told is NextMessage,
                Phase::Draining => asks && purpose(events) is NewSegment && end.decoder && end.data
                    == last_data(events),
                Phase::Acquiring => told is Acquire && !end.decoder && end.data == last_data(
                    events,
                ),
                Phase::Feeding => told is Feed && end.decoder,
                Phase::Collecting => asks && purpose(events) is Collect && end.decoder,
                Phase::Finishing => asks && purpose(events) is EndOfInput && end.decoder,
                Phase::Ended => told is Stop,
            }
        }),
    decreases events.len(),
{
    let m = fresh_stream(default);
    if events.len() > 0 {
        let prior = events.drop_last();
        lemma_stream_stands(default, prior);
        lemma_stream_invariant(default, prior);
        let before = run(m, prior);
        let step = stream_step(before.0, events.last()).1;
        assert(step.len() > 0);
        assert((before.1 + step).last() == step.last());
    }
}

/// A stream always waits for what came of its last action, and for nothing else, so
/// that it is never stuck; it is over exactly when it was to stop.
pub proof fn law_stream_waits(
    default: DecodeOptions,
    events: Seq<StreamEvent>,
    event: StreamEvent,
)
    requires
        answered_run(default, events),
    ensures
        ({
            let (end, actions) = run(fresh_stream(default), events);
            &&& answers(end.phase, event) <==> replies_to(last_told(actions), event)
            &&& (end.phase is Ended <==> last_told(actions) is Stop)
        }),
{
    lemma_stream_stands(default, events);
}

/// An event that a stream does not wait for changes nothing.
pub proof fn law_stream_strays(
    default: DecodeOptions,
    events: Seq<StreamEvent>,
    event: StreamEvent,
)
    requires
        answered_run(default, events),
        !replies_to(last_told(run(fresh_stream(default), events).1), event),
    ensures
        run(fresh_stream(default), events.push(event)) == run(fresh_stream(default), events),
{
    lemma_stream_stands(default, events);
    let m = fresh_stream(default);
    assert(events.push(event).drop_last() =~= events);
    assert(run(m, events.push(event)).1 =~= run(m, events).1);
}

/// What is done next on a stream follows from what happened so far. A message that
/// starts a segment has a decoder acquired with the options of the segment, after the
/// decoder of the segment before was drained; any other message goes to the decoder
/// that is there. Data is handed over once there is a decoder; once the decoder took
/// it, its output is collected and sent before the next message is awaited. When the
/// input is over, the decoder is drained and the stream ends. A decoder that refuses
/// its input or has finished is let go. All that was collected is sent before
/// anything else is waited for.
#[verifier::spinoff_prover]
pub proof fn law_stream_next(default: DecodeOptions, events: Seq<StreamEvent>, event: StreamEvent)
    requires
        answered_run(default, events),
        replies_to(last_told(run(fresh_stream(default), events).1), event),
    ensures
        ({
            let done = run(fresh_stream(default), events).1;
            let all = events.push(event);
            let now = run(fresh_stream(default), all).1;
            let left = unsent(events, done);
            now == done + (match event {
                StreamEvent::Message(request) => if starts_segment(events, request) {
                    if has_decoder(events) {
                        seq![StreamAction::SignalEnd, StreamAction::Poll]
                    } else {
                        seq![StreamAction::Acquire(segment_options(default, all))]
                    }
                } else if request.data@.len() > 0 {
                    seq![StreamAction::Feed(request.data@)]
                } else {
                    seq![StreamAction::Poll]
                },
                StreamEvent::InputFailed | StreamEvent::InputEnded => if has_decoder(events) {
                    seq![StreamAction::SignalEnd, StreamAction::Poll]
                } else {
                    seq![StreamAction::Stop]
                },
                StreamEvent::Shutdown | StreamEvent::ClientGone => seq![StreamAction::Stop],
                StreamEvent::Acquired => if last_data(events).len() > 0 {
                    seq![StreamAction::Feed(last_data(events))]
                } else {
                    seq![StreamAction::Poll]
                },
                StreamEvent::AcquireFailed => seq![StreamAction::Reject, StreamAction::Stop],
                StreamEvent::Fed(true) => seq![StreamAction::Poll],
                StreamEvent::Fed(false) => seq![StreamAction::Release, StreamAction::NextMessage],
                StreamEvent::Output(DecoderOutput::Audio(_)) | StreamEvent::Output(
                    DecoderOutput::Failed(_),
                ) => seq![StreamAction::Poll],
                StreamEvent::Output(DecoderOutput::Pending) => if purpose(events) is Collect {
                    left + seq![StreamAction::NextMessage]
                } else {
                    seq![StreamAction::PauseAndPoll]
                },
                StreamEvent::Output(DecoderOutput::Closed) => match purpose(events) {
                    Purpose::Collect => left + seq![
                        StreamAction::Release,
                        StreamAction::NextMessage,
                    ],
                    Purpose::NewSegment => seq![StreamAction::Release] + left + seq![
                        StreamAction::Acquire(segment_options(default, all)),
                    ],
                    Purpose::EndOfInput => left + seq![StreamAction::Release, StreamAction::Stop],
                },
            })
        }),
{
    lemma_stream_stands(default, events);
    lemma_unsent(default, events);
    lemma_stream_invariant(default, events);
    let all = events.push(event);
    assert(all.drop_last() =~= events);
    assert(all.last() == event);
}

/// What a chunk adds to what a client is told: its audio, unchanged, and before it,
/// if it is the first of its segment, its format.
pub proof fn law_chunk_is_told(events: Seq<StreamEvent>, chunk: AudioChunk)
    ensures
        ({
            let all = events.push(StreamEvent::Output(DecoderOutput::Audio(chunk)));
            &&& contents_of(all) == contents_of(events) + (if announced(events) {
                seq![]
            } else {
                seq![
                    Content::Metadata {
                        sample_rate: chunk.sample_rate,
                        channels: chunk.channels as u32,
                        bits_per_sample: chunk.bits_per_sample as u32,
                    },
                ]
            }) + seq![Content::PcmData(chunk.data@)]
            &&& announced(all)
        }),
{
    let all = events.push(StreamEvent::Output(DecoderOutput::Audio(chunk)));
    assert(all.drop_last() =~= events);
    let none = Seq::<Content<Seq<u8>>>::empty();
    let pcm = seq![Content::PcmData(chunk.data@)];
    if announced(events) {
        assert(contents_of(all) =~= contents_of(events) + none + pcm);
    } else {
        assert(contents_of(all) =~= contents_of(events) + seq![chunk_format(chunk)] + pcm);
    }
}

/// The options with which decoders were acquired, in order.
pub open spec fn acquires_of(actions: Seq<StreamAction<Seq<u8>>>) -> Seq<DecodeOptions>
    decreases actions.len(),
{
    if actions.len() == 0 {
        seq![]
    } else {
        match actions.last() {
            StreamAction::Acquire(options) => acquires_of(actions.drop_last()).push(options),
            _ => acquires_of(actions.drop_last()),
        }
    }
}

/// The options that messages asked for when they started a segment, one entry for
/// each such message, in order.
pub open spec fn segments_of(default: DecodeOptions, events: Seq<StreamEvent>) -> Seq<DecodeOptions>
    decreases events.len(),
{
    if events.len() == 0 {
        seq![]
    } else {
        let before = segments_of(default, events.drop_last());
        match events.last() {
            StreamEvent::Message(request) => if starts_segment(events.drop_last(), request) {
                before.push(segment_options(default, events))
            } else {
                before
            },
            _ => before,
        }
    }
}

proof fn lemma_acquires_concat(a: Seq<StreamAction<Seq<u8>>>, b: Seq<StreamAction<Seq<u8>>>)
    ensures
        acquires_of(a + b) == acquires_of(a) + acquires_of(b),
    decreases b.len(),
{
    if b.len() == 0 {
        assert(a + b =~= a);
    } else {
        lemma_acquires_concat(a, b.drop_last());
        assert((a + b).drop_last() =~= a + b.drop_last());
        assert(acquires_of(a + b) =~= acquires_of(a) + acquires_of(b));
    }
}

proof fn lemma_acquires_of_one(action: StreamAction<Seq<u8>>)
    ensures
        acquires_of(seq![action]) == (match action {
            StreamAction::Acquire(options) => seq![options],
            _ => seq![],
        }),
{
    reveal_with_fuel(acquires_of, 2);
    assert(seq![action].drop_last() =~= seq![]);
    assert(acquires_of(seq![action]) =~= (match action {
        StreamAction::Acquire(options) => seq![options],
        _ => seq![],
    }));
}

proof fn lemma_acquires_of_responses(contents: Seq<Content<Seq<u8>>>)
    ensures
        acquires_of(responses(contents)) == Seq::<DecodeOptions>::empty(),
    decreases contents.len(),
{
    if contents.len() > 0 {
        lemma_acquires_of_responses(contents.drop_last());
        assert(responses(contents).drop_last() =~= responses(contents.drop_last()));
    }
}

/// What one step acquires.
#[verifier::spinoff_prover]
proof fn lemma_step_acquires(default: DecodeOptions, events: Seq<StreamEvent>)
    requires
        answered_run(default, events),
        events.len() > 0,
    ensures
        ({
            let before = run(fresh_stream(default), events.drop_last()).0;
            let (end, step) = stream_step(before, events.last());
            acquires_of(step) == (if end.phase is Acquiring {
                seq![segment_options(default, events)]
            } else {
                seq![]
            })
        }),
{
    let prior = events.drop_last();
    let event = events.last();
    lemma_stream_stands(default, prior);
    lemma_stream_stands(default, events);
    lemma_collected_responses(default, prior);
    let before = run(fresh_stream(default), prior).0;
    let (end, step) = stream_step(before, event);
    let c = before.collected;
    lemma_acquires_of_responses(sent_of(c));
    let none = Seq::<DecodeOptions>::empty();
    if step.len() == 1 {
        assert(step =~= seq![step[0]]);
        lemma_acquires_of_one(step[0]);
    } else if !(event is Output) {
        assert(step.len() == 2);
        assert(step =~= seq![step[0]] + seq![step[1]]);
        lemma_acquires_concat(seq![step[0]], seq![step[1]]);
        lemma_acquires_of_one(step[0]);
        lemma_acquires_of_one(step[1]);
        assert(acquires_of(step) =~= none);
    } else {
        let next = StreamAction::<Seq<u8>>::NextMessage;
        let release = StreamAction::<Seq<u8>>::Release;
        let stop = StreamAction::<Seq<u8>>::Stop;
        let acquire = StreamAction::<Seq<u8>>::Acquire(before.current);
        lemma_acquires_of_one(next);
        lemma_acquires_of_one(release);
        lemma_acquires_of_one(stop);
        lemma_acquires_of_one(acquire);
        lemma_acquires_concat(c, seq![next]);
        assert(seq![release, next] =~= seq![release] + seq![next]);
        assert(seq![release, stop] =~= seq![release] + seq![stop]);
        lemma_acquires_concat(seq![release], seq![next]);
        lemma_acquires_concat(seq![release], seq![stop]);
        lemma_acquires_concat(c, seq![release, next]);
        lemma_acquires_concat(c, seq![release, stop]);
        lemma_acquires_concat(seq![release], c);
        lemma_acquires_concat(seq![release] + c, seq![acquire]);
        if end.phase is Acquiring {
            assert(acquires_of(step) =~= seq![before.current]);
        } else {
            assert(acquires_of(step) =~= none);
        }
    }
}

/// Every message that starts a segment has one decoder acquired, with the options
/// that were given last by it or by a message before it that started a segment, and no
/// decoder is acquired otherwise. The last one may still be to come, while the decoder
/// before it is drained, or may never be, if the client is gone.
#[verifier::spinoff_prover]
pub proof fn law_stream_acquires(default: DecodeOptions, events: Seq<StreamEvent>)
    requires
        answered_run(default, events),
    ensures
        ({
            let (end, actions) = run(fresh_stream(default), events);
            let acquired = acquires_of(actions);
            let segments = segments_of(default, events);
            &&& end.phase is Draining ==> segments.len() > 0 && acquired == segments.drop_last()
            &&& !(end.phase is Draining) && !(end.phase is Ended) ==> acquired == segments
            &&& end.phase is Ended ==> acquired == segments || (client_gone(events)
                && segments.len() > 0 && acquired == segments.drop_last())
            &&& segments.len() > 0 ==> segments.last() == segment_options(default, events)
        }),
    decreases events.len(),
{
    let m = fresh_stream(default);
    if events.len() > 0 {
        let prior = events.drop_last();
        let event = events.last();
        law_stream_acquires(default, prior);
        lemma_stream_stands(default, prior);
        lemma_stream_stands(default, events);
        lemma_step_acquires(default, events);
        let before = run(m, prior);
        let (end, step) = stream_step(before.0, event);
        lemma_acquires_concat(before.1, step);
        let acquired = acquires_of(before.1 + step);
        let segments = segments_of(default, events);
        if event is Message {
            if segments.len() > segments_of(default, prior).len() {
                assert(segments.drop_last() =~= segments_of(default, prior));
            }
        }
        if end.phase is Acquiring {
            assert(acquired =~= acquires_of(before.1).push(segment_options(default, events)));
            assert(acquired =~= segments);
        } else {
            assert(acquired =~= acquires_of(before.1));
        }
    }
}

/// A stream whose first message gives options has its first decoder acquired with
/// them, each value that is not given being the default of the server; a first
/// message without options has the defaults.
pub proof fn law_first_message_options(default: DecodeOptions, request: DecodeRequest)
    ensures
        ({
            let first = run(fresh_stream(default), seq![StreamEvent::Message(request)]).1;
            &&& first.len() == 1
            &&& first[0] matches StreamAction::Acquire(options) && match request.options {
                Some(asked) => {
                    &&& options.output_sample_rate == (if asked.output_sample_rate > 0 {
                        Some(asked.output_sample_rate)
                    } else {
                        default.output_sample_rate
                    })
                    &&& asked.output_bits_per_sample == 0 ==> options.output_bits_per_sample
                        == default.output_bits_per_sample
                    &&& 0 < asked.output_bits_per_sample < 256 ==> options.output_bits_per_sample
                        == Some(asked.output_bits_per_sample as u8)
                    &&& asked.output_channels == 0 ==> options.output_channels
                        == default.output_channels
                    &&& 0 < asked.output_channels < 256 ==> options.output_channels == Some(
                        asked.output_channels as u8,
                    )
                },
                None => options == default,
            }
        }),
{
    reveal_with_fuel(run, 2);
    let events = seq![StreamEvent::Message(request)];
    assert(events.drop_last() =~= seq![]);
}

/// A value that a message gives is taken as it is, as far as the option is wide
/// enough; of a wider one the lowest eight bits are taken.
pub proof fn law_given_options(default: DecodeOptions, asked: RequestOptions)
    ensures
        ({
            let options = options_for(default, asked);
            &&& asked.output_sample_rate > 0 ==> options.output_sample_rate == Some(
                asked.output_sample_rate,
            )
            &&& asked.output_bits_per_sample > 0 ==> (options.output_bits_per_sample matches Some(
                bits,
            ) && (asked.output_bits_per_sample - bits) % 256 == 0)
            &&& asked.output_channels > 0 ==> (options.output_channels matches Some(channels) && (
            asked.output_channels - channels) % 256 == 0)
        }),
{
}

} // verus!
