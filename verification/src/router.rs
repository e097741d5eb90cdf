//! HTTP routing and the streaming decode request.
//!
//! `POST /decode` takes encoded audio as its body and answers with raw PCM. The
//! format of the PCM stands in the response headers, so that the response is
//! started by the first chunk of decoded audio.

use crate::audio::{
    encoding_of, pcm_encoding, AudioChunk, AudioFormat, DecoderOutput, PcmEncoding,
};
use crate::config::MediaApiConfig;
use crate::decode::{no_options, options_of_query, parse_decode_options, DecodeOptions};
use crate::stats::{Stats, StatsModel, StatsReport};
use crate::text::{
    decimal_text, law_number_roundtrip, number_text, parse_unsigned, text_equal,
};
use vstd::prelude::*;

verus! {

/// The bits per sample of a decode request that neither the request nor the
/// configuration decides.
pub const DEFAULT_BITS: u8 = 16;

// ---------------------------------------------------------------------------
// Options of a decode request
// ---------------------------------------------------------------------------

/// The first of two options that is given.
pub open spec fn first_given<T>(a: Option<T>, b: Option<T>) -> Option<T> {
    if a is Some {
        a
    } else {
        b
    }
}

/// Options of a request, completed by the defaults of the configuration.
pub open spec fn merged_options(config: MediaApiConfig, asked: DecodeOptions) -> DecodeOptions {
    DecodeOptions {
        output_sample_rate: first_given(
            asked.output_sample_rate,
            config.default_output_sample_rate,
        ),
        output_bits_per_sample: first_given(
            asked.output_bits_per_sample,
            config.default_output_bits,
        ),
        output_channels: first_given(asked.output_channels, config.default_output_channels),
    }
}

/// The options with which a request is decoded: those it asks for, else those of
/// the configuration; where neither decides, the bits per sample are
/// `DEFAULT_BITS` and the rest is as in the source.
pub open spec fn effective_options(config: MediaApiConfig, query: Option<Seq<char>>) -> DecodeOptions {
    let asked = match query {
        Some(q) => options_of_query(q),
        None => no_options(),
    };
    let merged = merged_options(config, asked);
    DecodeOptions {
        output_bits_per_sample: first_given(merged.output_bits_per_sample, Some(DEFAULT_BITS)),
        ..merged
    }
}

// ---------------------------------------------------------------------------
// Routes
// ---------------------------------------------------------------------------

/// The body of a JSON reply.
#[derive(Debug)]
pub enum ReplyBody {
    /// The service is up.
    Health { status: String, service: String, version: String },
    /// The load figures.
    Stats(StatsReport),
    /// The request could not be served.
    Error { error: String },
}

/// A complete reply to a request without a body.
#[derive(Debug)]
pub struct HandlerReply {
    pub status: u16,
    pub content_type: String,
    pub body: ReplyBody,
}

impl HandlerReply {
    /// A reply that says that the service is up.
    pub open spec fn says_healthy(self, version: Seq<char>) -> bool {
        &&& self.status == 200
        &&& self.content_type@ == "application/json"@
        &&& self.body matches ReplyBody::Health { status, service, version: v }
        &&& status@ == "ok"@
        &&& service@ == "media-api"@
        &&& v@ == version
    }

    /// A reply with these load figures.
    pub open spec fn says_load(self, report: StatsReport) -> bool {
        &&& self.status == 200
        &&& self.content_type@ == "application/json"@
        &&& self.body == ReplyBody::Stats(report)
    }

    /// A reply that says that there is no such path.
    pub open spec fn says_not_found(self) -> bool {
        &&& self.status == 404
        &&& self.content_type@ == "application/json"@
        &&& self.body matches ReplyBody::Error { error }
        &&& error@ == "Not found"@
    }
}

/// Why a streaming request is refused.
#[derive(Debug, Clone, Copy, PartialEq, Eq, Structural)]
pub enum RouteError {
    /// There is no such path.
    NotFound,
    /// This kind of request is not supported.
    Unsupported,
}

impl RouteError {
    /// The text of this error.
    pub fn message(self) -> (r: String)
        ensures
            r@ == (match self {
                RouteError::NotFound => "Not found"@,
                RouteError::Unsupported => "Streaming not supported"@,
            }),
    {
        match self {
            RouteError::NotFound => "Not found".to_owned(),
            RouteError::Unsupported => "Streaming not supported".to_owned(),
        }
    }
}

/// Routes requests of the HTTP servers.
#[derive(Debug)]
pub struct MediaRouter {
    pub config: MediaApiConfig,
    /// Connection statistics for monitoring.
    pub stats: Stats,
    /// How many decoder workers serve the requests.
    pub pool_size: usize,
}

impl MediaRouter {
    /// What holds of a router at all times: its statistics are sound, and there
    /// are two workers for every processor.
    pub open spec fn wf(self) -> bool {
        &&& self.stats@.wf()
        &&& self.pool_size == 2 * self.stats@.num_cpus
    }

    /// A router for the processors of this machine.
    pub fn new(config: MediaApiConfig) -> (r: Self)
        ensures
            r.wf(),
            r.config == config,
            r.stats@.active == 0,
            r.stats@.samples == Seq::<crate::stats::Sample>::empty(),
    {
        MediaRouter::with_stats(config, Stats::new())
    }

    /// A router with these statistics.
    pub fn with_stats(config: MediaApiConfig, stats: Stats) -> (r: Self)
        requires
            stats@.wf(),
        ensures
            r.wf(),
            r.config == config,
            r.stats == stats,
            r.pool_size == 2 * stats@.num_cpus,
    {
        let pool_size: usize = stats.num_cpus() * 2;
        MediaRouter { config, stats, pool_size }
    }

    /// Completes the options of a request by the defaults of the configuration.
    pub fn merge_options(&self, query_options: DecodeOptions) -> (r: DecodeOptions)
        ensures
            r == merged_options(self.config, query_options),
    {
        DecodeOptions {
            output_sample_rate: if query_options.output_sample_rate.is_some() {
                query_options.output_sample_rate
            } else {
                self.config.default_output_sample_rate
            },
            output_bits_per_sample: if query_options.output_bits_per_sample.is_some() {
                query_options.output_bits_per_sample
            } else {
                self.config.default_output_bits
            },
            output_channels: if query_options.output_channels.is_some() {
                query_options.output_channels
            } else {
                self.config.default_output_channels
            },
        }
    }

    /// The options with which a request with this query is decoded.
    pub fn request_options(&self, query: Option<&str>) -> (r: DecodeOptions)
        ensures
            r == effective_options(
                self.config,
                match query {
                    Some(q) => Some(q@),
                    None => None,
                },
            ),
    {
        let mut options: DecodeOptions = self.merge_options(parse_decode_options(query));
        if options.output_bits_per_sample.is_none() {
            options.output_bits_per_sample = Some(DEFAULT_BITS);
        }
        options
    }

    /// Says that the service is up.
    pub fn handle_status(&self, version: &str) -> (r: HandlerReply)
        ensures
            r.says_healthy(version@),
    {
        HandlerReply {
            status: 200,
            content_type: "application/json".to_owned(),
            body: ReplyBody::Health {
                status: "ok".to_owned(),
                service: "media-api".to_owned(),
                version: version.to_owned(),
            },
        }
    }

    /// Gives the load figures.
    pub fn handle_stats(&self, now: u64) -> (r: HandlerReply)
        requires
            self.wf(),
        ensures
            r.says_load(self.stats@.report(now)),
    {
        HandlerReply {
            status: 200,
            content_type: "application/json".to_owned(),
            body: ReplyBody::Stats(self.stats.report(now)),
        }
    }

    /// Answers a request without a body.
    pub fn route(&self, path: &str, version: &str, now: u64) -> (r: HandlerReply)
        requires
            self.wf(),
        ensures
            path@ == "/status"@ || path@ == "/health"@ ==> r.says_healthy(version@),
            path@ == "/stats"@ ==> r.says_load(self.stats@.report(now)),
            path@ != "/status"@ && path@ != "/health"@ && path@ != "/stats"@
                ==> r.says_not_found(),
    {
        proof {
            reveal_strlit("/status");
            reveal_strlit("/health");
            reveal_strlit("/stats");
            assert("/stats"@.len() < "/status"@.len());
            assert("/stats"@.len() < "/health"@.len());
        }
        if text_equal(path, "/status") || text_equal(path, "/health") {
            self.handle_status(version)
        } else if text_equal(path, "/stats") {
            self.handle_stats(now)
        } else {
            HandlerReply {
                status: 404,
                content_type: "application/json".to_owned(),
                body: ReplyBody::Error { error: "Not found".to_owned() },
            }
        }
    }

    /// No path takes a body as a whole.
    pub fn has_body_handler(&self, _path: &str) -> (r: bool)
        ensures
            !r,
    {
        false
    }

    /// No path streams a response without taking a body.
    pub fn is_streaming(&self, _path: &str) -> (r: bool)
        ensures
            !r,
    {
        false
    }

    /// Only `/decode` streams both ways.
    pub fn is_body_streaming(&self, path: &str) -> (r: bool)
        ensures
            r == (path@ == "/decode"@),
    {
        text_equal(path, "/decode")
    }

    /// Whether a request that streams both ways is served: only at `/decode`.
    pub fn route_body_stream(&self, path: &str) -> (r: Result<(), RouteError>)
        ensures
            r == (if path@ == "/decode"@ {
                Ok::<(), RouteError>(())
            } else {
                Err(RouteError::NotFound)
            }),
    {
        if text_equal(path, "/decode") {
            Ok(())
        } else {
            Err(RouteError::NotFound)
        }
    }

    /// A decode request begins. It counts as an active connection from here until
    /// it is answered in full, refused or abandoned.
    pub fn begin_decode(&mut self, now: u64) -> (r: DecodeExchange)
        requires
            old(self).wf(),
            old(self).stats@.active < usize::MAX,
        ensures
            final(self).wf(),
            final(self).config == old(self).config,
            final(self).pool_size == old(self).pool_size,
            final(self).stats@ == count_begin(old(self).stats@, now),
            r == fresh_exchange(),
    {
        self.stats.connection_start(now);
        DecodeExchange::new()
    }

    /// Takes the answer to the last action for a decode request and says what to do
    /// next, in order. A request that is over no longer counts.
    pub fn decode_step(
        &mut self,
        exchange: &mut DecodeExchange,
        event: ExchangeEvent,
        now: u64,
    ) -> (r: Vec<ExchangeAction<Vec<u8>>>)
        requires
            old(self).wf(),
            is_live(old(exchange).phase) ==> old(self).stats@.active > 0,
        ensures
            final(self).wf(),
            final(self).config == old(self).config,
            final(self).pool_size == old(self).pool_size,
            (*final(exchange), actions_model(r@)) == exchange_step(*old(exchange), event),
            final(self).stats@ == count_step(old(self).stats@, *old(exchange), event, now),
    {
        let was_live: bool = exchange.live();
        let actions: Vec<ExchangeAction<Vec<u8>>> = exchange.step(event);
        if was_live && !exchange.live() {
            self.stats.connection_end(now);
        }
        actions
    }

    /// A request that only streams a response is never served.
    pub fn route_stream(&self) -> (r: Result<(), RouteError>)
        ensures
            r == Err::<(), RouteError>(RouteError::Unsupported),
    {
        Err(RouteError::Unsupported)
    }
}

// ---------------------------------------------------------------------------
// The streaming decode request
// ---------------------------------------------------------------------------

/// The format of decoded audio as the response headers give it.
#[derive(Debug, Clone, Copy, PartialEq, Eq, Structural)]
pub struct AudioHead {
    pub sample_rate: u32,
    pub channels: u8,
    pub bits_per_sample: u8,
    pub encoding: PcmEncoding,
}

/// The text that names an encoding in the response headers.
pub open spec fn encoding_text(encoding: PcmEncoding) -> Seq<char> {
    match encoding {
        PcmEncoding::Signed => "pcm-signed"@,
        PcmEncoding::Float => "pcm-float"@,
    }
}

/// The response headers that give the format of the audio.
pub open spec fn header_list(head: AudioHead) -> Seq<(Seq<char>, Seq<char>)> {
    seq![
        ("X-Sample-Rate"@, decimal_text(head.sample_rate as nat)),
        ("X-Channels"@, decimal_text(head.channels as nat)),
        ("X-Bits-Per-Sample"@, decimal_text(head.bits_per_sample as nat)),
        ("X-Encoding"@, encoding_text(head.encoding)),
    ]
}

/// Headers with their texts as sequences.
pub open spec fn headers_model(headers: Seq<(String, String)>) -> Seq<(Seq<char>, Seq<char>)> {
    headers.map_values(|h: (String, String)| (h.0@, h.1@))
}

impl AudioHead {
    /// The response headers that give this format.
    pub fn headers(&self) -> (r: Vec<(String, String)>)
        ensures
            headers_model(r@) == header_list(*self),
    {
        let encoding: String = match self.encoding {
            PcmEncoding::Signed => "pcm-signed".to_owned(),
            PcmEncoding::Float => "pcm-float".to_owned(),
        };
        let mut r: Vec<(String, String)> = Vec::new();
        r.push(("X-Sample-Rate".to_owned(), number_text(self.sample_rate as u64)));
        r.push(("X-Channels".to_owned(), number_text(self.channels as u64)));
        r.push(("X-Bits-Per-Sample".to_owned(), number_text(self.bits_per_sample as u64)));
        r.push(("X-Encoding".to_owned(), encoding));
        assert(headers_model(r@) =~= header_list(*self));
        r
    }
}

/// Where a request stands: which answer it is waiting for.
#[derive(Debug, Clone, Copy, PartialEq, Eq, Structural)]
pub enum Phase {
    /// Waiting for a decoder.
    Acquiring,
    /// Waiting for a part of the request body.
    Reading,
    /// Input was handed to the decoder, waiting for its acceptance.
    Feeding,
    /// Collecting the output that is ready.
    Draining,
    /// The input has ended, waiting for the remaining output.
    Flushing,
    /// The response is complete, waiting for it to be ended.
    Closing,
    /// Answered in full.
    Finished,
    /// No decoder could be had.
    Failed,
    /// Given up before it was answered in full.
    Abandoned,
}

/// What happened in answer to the last action.
#[derive(Debug)]
pub enum ExchangeEvent {
    /// A decoder was acquired.
    Acquired,
    /// No decoder could be acquired.
    AcquireFailed,
    /// A part of the request body came in.
    Chunk(Vec<u8>),
    /// The request body broke off with an error.
    BodyFailed,
    /// The request body ended.
    BodyEnded,
    /// Whether the decoder took its input.
    Fed(bool),
    /// What the decoder had ready.
    Output(DecoderOutput),
    /// The response was ended.
    ResponseEnded,
    /// The response could not be sent, or nobody waits for it any longer.
    Abandoned,
}

/// What is to be done for a request. `B` is a run of bytes.
#[derive(Debug)]
pub enum ExchangeAction<B> {
    /// Wait for the next part of the request body.
    NextChunk,
    /// Hand input to the decoder.
    Feed(B),
    /// Tell the decoder that its input has ended.
    SignalEnd,
    /// Ask the decoder for output without waiting.
    Poll,
    /// Let other work run, then ask the decoder for output without waiting.
    YieldAndPoll,
    /// Start a successful response, with the headers of this format if there is one.
    SendHead(Option<AudioHead>),
    /// Send a part of the response body.
    SendData(B),
    /// End the response.
    Finish,
    /// Answer with the error of the pool.
    Fail,
}

impl ExchangeAction<Vec<u8>> {
    /// This action with its bytes as a sequence.
    pub open spec fn model(self) -> ExchangeAction<Seq<u8>> {
        match self {
            ExchangeAction::NextChunk => ExchangeAction::NextChunk,
            ExchangeAction::Feed(b) => ExchangeAction::Feed(b@),
            ExchangeAction::SignalEnd => ExchangeAction::SignalEnd,
            ExchangeAction::Poll => ExchangeAction::Poll,
            ExchangeAction::YieldAndPoll => ExchangeAction::YieldAndPoll,
            ExchangeAction::SendHead(head) => ExchangeAction::SendHead(head),
            ExchangeAction::SendData(b) => ExchangeAction::SendData(b@),
            ExchangeAction::Finish => ExchangeAction::Finish,
            ExchangeAction::Fail => ExchangeAction::Fail,
        }
    }
}

/// A list of actions with their bytes as sequences.
pub open spec fn actions_model(actions: Seq<ExchangeAction<Vec<u8>>>) -> Seq<
    ExchangeAction<Seq<u8>>,
> {
    actions.map_values(|a: ExchangeAction<Vec<u8>>| a.model())
}

/// The format that announces a chunk.
pub open spec fn chunk_head(chunk: AudioChunk) -> AudioHead {
    AudioHead {
        sample_rate: chunk.sample_rate,
        channels: chunk.channels,
        bits_per_sample: chunk.bits_per_sample,
        encoding: encoding_of(chunk.format),
    }
}

/// What is sent for a chunk: its audio, after the head of the response if the
/// response has not started.
pub open spec fn chunk_sends(responded: bool, chunk: AudioChunk) -> Seq<ExchangeAction<Seq<u8>>> {
    if responded {
        seq![ExchangeAction::SendData(chunk.data@)]
    } else {
        seq![
            ExchangeAction::SendHead(Some(chunk_head(chunk))),
            ExchangeAction::SendData(chunk.data@),
        ]
    }
}

/// Whether a request in this phase is still being served.
pub open spec fn is_live(phase: Phase) -> bool {
    !(phase is Finished) && !(phase is Failed) && !(phase is Abandoned)
}

/// Whether an event is an answer to what a request in this phase waits for. Any
/// request that is still being served may be abandoned.
pub open spec fn answers(phase: Phase, event: ExchangeEvent) -> bool {
    match phase {
        Phase::Acquiring => event is Acquired || event is AcquireFailed || event is Abandoned,
        Phase::Reading => event is Chunk || event is BodyFailed || event is BodyEnded
            || event is Abandoned,
        Phase::Feeding => event is Fed || event is Abandoned,
        Phase::Draining | Phase::Flushing => event is Output || event is Abandoned,
        Phase::Closing => event is ResponseEnded || event is Abandoned,
        Phase::Finished | Phase::Failed | Phase::Abandoned => false,
    }
}

/// A decode request and its response.
#[derive(Debug, Clone, Copy, PartialEq, Eq, Structural)]
pub struct DecodeExchange {
    pub phase: Phase,
    /// Whether the response has started.
    pub responded: bool,
}

/// A request that waits for its decoder.
pub open spec fn fresh_exchange() -> DecodeExchange {
    DecodeExchange { phase: Phase::Acquiring, responded: false }
}

/// The input of a request has ended.
pub open spec fn end_input(responded: bool) -> (DecodeExchange, Seq<ExchangeAction<Seq<u8>>>) {
    (
        DecodeExchange { phase: Phase::Flushing, responded },
        seq![ExchangeAction::SignalEnd, ExchangeAction::Poll],
    )
}

/// Output of the decoder while the request body is still read.
pub open spec fn drain_output(responded: bool, output: DecoderOutput) -> (
    DecodeExchange,
    Seq<ExchangeAction<Seq<u8>>>,
) {
    match output {
        DecoderOutput::Audio(chunk) => (
            DecodeExchange { phase: Phase::Draining, responded: true },
            chunk_sends(responded, chunk).push(ExchangeAction::Poll),
        ),
        DecoderOutput::Failed(_) => (
            DecodeExchange { phase: Phase::Draining, responded },
            seq![ExchangeAction::Poll],
        ),
        DecoderOutput::Pending | DecoderOutput::Closed => (
            DecodeExchange { phase: Phase::Reading, responded },
            seq![ExchangeAction::NextChunk],
        ),
    }
}

/// Output of the decoder once the input has ended. The response ends when the
/// decoder has finished; without any audio it is started only then.
pub open spec fn flush_output(responded: bool, output: DecoderOutput) -> (
    DecodeExchange,
    Seq<ExchangeAction<Seq<u8>>>,
) {
    match output {
        DecoderOutput::Audio(chunk) => (
            DecodeExchange { phase: Phase::Flushing, responded: true },
            chunk_sends(responded, chunk).push(ExchangeAction::Poll),
        ),
        DecoderOutput::Failed(_) => (
            DecodeExchange { phase: Phase::Flushing, responded },
            seq![ExchangeAction::Poll],
        ),
        DecoderOutput::Pending => (
            DecodeExchange { phase: Phase::Flushing, responded },
            seq![ExchangeAction::YieldAndPoll],
        ),
        DecoderOutput::Closed => (
            DecodeExchange { phase: Phase::Closing, responded: true },
            if responded {
                seq![ExchangeAction::Finish]
            } else {
                seq![ExchangeAction::SendHead(None), ExchangeAction::Finish]
            },
        ),
    }
}

/// One step of a request: the next state and what is to be done. An event that
/// is no answer to what the request waits for changes nothing.
pub open spec fn exchange_step(m: DecodeExchange, event: ExchangeEvent) -> (
    DecodeExchange,
    Seq<ExchangeAction<Seq<u8>>>,
) {
    match (m.phase, event) {
        (Phase::Acquiring, ExchangeEvent::Acquired) => (
            DecodeExchange { phase: Phase::Reading, ..m },
            seq![ExchangeAction::NextChunk],
        ),
        (Phase::Acquiring, ExchangeEvent::AcquireFailed) => (
            DecodeExchange { phase: Phase::Failed, ..m },
            seq![ExchangeAction::Fail],
        ),
        (Phase::Reading, ExchangeEvent::Chunk(data)) => if data@.len() == 0 {
            (m, seq![ExchangeAction::NextChunk])
        } else {
            (DecodeExchange { phase: Phase::Feeding, ..m }, seq![ExchangeAction::Feed(data@)])
        },
        (Phase::Reading, ExchangeEvent::BodyFailed) => end_input(m.responded),
        (Phase::Reading, ExchangeEvent::BodyEnded) => end_input(m.responded),
        (Phase::Feeding, ExchangeEvent::Fed(taken)) => if taken {
            (DecodeExchange { phase: Phase::Draining, ..m }, seq![ExchangeAction::Poll])
        } else {
            end_input(m.responded)
        },
        (Phase::Draining, ExchangeEvent::Output(output)) => drain_output(m.responded, output),
        (Phase::Flushing, ExchangeEvent::Output(output)) => flush_output(m.responded, output),
        (Phase::Closing, ExchangeEvent::ResponseEnded) => (
            DecodeExchange { phase: Phase::Finished, ..m },
            seq![],
        ),
        (phase, ExchangeEvent::Abandoned) => if is_live(phase) {
            (DecodeExchange { phase: Phase::Abandoned, ..m }, seq![])
        } else {
            (m, seq![])
        },
        _ => (m, seq![]),
    }
}

/// The statistics once a request has begun: one more connection.
pub open spec fn count_begin(stats: StatsModel, now: u64) -> StatsModel {
    stats.changed(stats.active + 1, now)
}

/// The statistics after a step of a request: one connection less where the step
/// is the last, else as they were.
pub open spec fn count_step(
    stats: StatsModel,
    m: DecodeExchange,
    event: ExchangeEvent,
    now: u64,
) -> StatsModel {
    if is_live(m.phase) && !is_live(exchange_step(m, event).0.phase) {
        stats.changed((stats.active - 1) as nat, now)
    } else {
        stats
    }
}

impl DecodeExchange {
    /// A new request. The first thing to do for it is to acquire a decoder.
    pub fn new() -> (r: Self)
        ensures
            r == fresh_exchange(),
    {
        DecodeExchange { phase: Phase::Acquiring, responded: false }
    }

    /// Whether this request is still being served.
    pub fn live(&self) -> (r: bool)
        ensures
            r == is_live(self.phase),
    {
        match self.phase {
            Phase::Finished | Phase::Failed | Phase::Abandoned => false,
            _ => true,
        }
    }

    /// Takes the answer to the last action and says what to do next, in order.
    pub fn step(&mut self, event: ExchangeEvent) -> (r: Vec<ExchangeAction<Vec<u8>>>)
        ensures
            (*final(self), actions_model(r@)) == exchange_step(*old(self), event),
    {
        let mut actions: Vec<ExchangeAction<Vec<u8>>> = Vec::new();
        if let ExchangeEvent::Abandoned = event {
            if self.live() {
                self.phase = Phase::Abandoned;
            }
            assert(actions_model(actions@) =~= exchange_step(*old(self), event).1);
            return actions;
        }
        match self.phase {
            Phase::Acquiring => {
                match event {
                    ExchangeEvent::Acquired => {
                        self.phase = Phase::Reading;
                        actions.push(ExchangeAction::NextChunk);
                    },
                    ExchangeEvent::AcquireFailed => {
                        self.phase = Phase::Failed;
                        actions.push(ExchangeAction::Fail);
                    },
                    _ => {},
                }
            },
            Phase::Reading => {
                match event {
                    ExchangeEvent::Chunk(data) => {
                        if data.is_empty() {
                            actions.push(ExchangeAction::NextChunk);
                        } else {
                            self.phase = Phase::Feeding;
                            actions.push(ExchangeAction::Feed(data));
                        }
                    },
                    ExchangeEvent::BodyFailed | ExchangeEvent::BodyEnded => {
                        self.phase = Phase::Flushing;
                        actions.push(ExchangeAction::SignalEnd);
                        actions.push(ExchangeAction::Poll);
                    },
                    _ => {},
                }
            },
            Phase::Feeding => {
                if let ExchangeEvent::Fed(taken) = event {
                    if taken {
                        self.phase = Phase::Draining;
                    } else {
                        self.phase = Phase::Flushing;
                        actions.push(ExchangeAction::SignalEnd);
                    }
                    actions.push(ExchangeAction::Poll);
                }
            },
            Phase::Draining => {
                if let ExchangeEvent::Output(output) = event {
                    match output {
                        DecoderOutput::Audio(chunk) => {
                            self.send_chunk(chunk, &mut actions);
                            actions.push(ExchangeAction::Poll);
                        },
                        DecoderOutput::Failed(_) => {
                            actions.push(ExchangeAction::Poll);
                        },
                        _ => {
                            self.phase = Phase::Reading;
                            actions.push(ExchangeAction::NextChunk);
                        },
                    }
                }
            },
            Phase::Flushing => {
                if let ExchangeEvent::Output(output) = event {
                    match output {
                        DecoderOutput::Audio(chunk) => {
                            self.send_chunk(chunk, &mut actions);
                            actions.push(ExchangeAction::Poll);
                        },
                        DecoderOutput::Failed(_) => {
                            actions.push(ExchangeAction::Poll);
                        },
                        DecoderOutput::Pending => {
                            actions.push(ExchangeAction::YieldAndPoll);
                        },
                        DecoderOutput::Closed => {
                            if !self.responded {
                                actions.push(ExchangeAction::SendHead(None));
                                self.responded = true;
                            }
                            self.phase = Phase::Closing;
                            actions.push(ExchangeAction::Finish);
                        },
                    }
                }
            },
            Phase::Closing => {
                if let ExchangeEvent::ResponseEnded = event {
                    self.phase = Phase::Finished;
                }
            },
            _ => {},
        }
        assert(actions_model(actions@) =~= exchange_step(*old(self), event).1);
        actions
    }

    fn send_chunk(&mut self, chunk: AudioChunk, actions: &mut Vec<ExchangeAction<Vec<u8>>>)
        ensures
            *final(self) == (DecodeExchange { responded: true, ..*old(self) }),
            actions_model(final(actions)@) == actions_model(old(actions)@) + chunk_sends(
                old(self).responded,
                chunk,
            ),
    {
        if !self.responded {
            let head = AudioHead {
                sample_rate: chunk.sample_rate,
                channels: chunk.channels,
                bits_per_sample: chunk.bits_per_sample,
                encoding: pcm_encoding(chunk.format),
            };
            actions.push(ExchangeAction::SendHead(Some(head)));
            self.responded = true;
        }
        actions.push(ExchangeAction::SendData(chunk.data));
        assert(actions_model(actions@) =~= actions_model(old(actions)@) + chunk_sends(
            old(self).responded,
            chunk,
        ));
    }
}

// ---------------------------------------------------------------------------
// What holds of whole requests
// ---------------------------------------------------------------------------

/// The state that a run of events leads to, and all that was to be done on the way.
pub open spec fn run(m: DecodeExchange, events: Seq<ExchangeEvent>) -> (
    DecodeExchange,
    Seq<ExchangeAction<Seq<u8>>>,
)
    decreases events.len(),
{
    if events.len() == 0 {
        (m, seq![])
    } else {
        let before = run(m, events.drop_last());
        let step = exchange_step(before.0, events.last());
        (step.0, before.1 + step.1)
    }
}

/// A run of events for a request from its beginning, each of which is an answer
/// to what the request waits for.
pub open spec fn answered_run(events: Seq<ExchangeEvent>) -> bool
    decreases events.len(),
{
    events.len() == 0 || (answered_run(events.drop_last()) && answers(
        run(fresh_exchange(), events.drop_last()).0.phase,
        events.last(),
    ))
}

/// The chunks of audio that the decoder handed out, in order.
pub open spec fn chunks_of(events: Seq<ExchangeEvent>) -> Seq<AudioChunk>
    decreases events.len(),
{
    if events.len() == 0 {
        seq![]
    } else {
        match events.last() {
            ExchangeEvent::Output(DecoderOutput::Audio(chunk)) => chunks_of(
                events.drop_last(),
            ).push(chunk),
            _ => chunks_of(events.drop_last()),
        }
    }
}

/// The encoded audio that came in, in order.
pub open spec fn inputs_of(events: Seq<ExchangeEvent>) -> Seq<Seq<u8>>
    decreases events.len(),
{
    if events.len() == 0 {
        seq![]
    } else {
        let before = inputs_of(events.drop_last());
        match events.last() {
            ExchangeEvent::Chunk(data) => if data@.len() > 0 {
                before.push(data@)
            } else {
                before
            },
            _ => before,
        }
    }
}

/// Whether an action is a part of the response.
pub open spec fn is_response(action: ExchangeAction<Seq<u8>>) -> bool {
    action is SendHead || action is SendData || action is Finish || action is Fail
}

/// The response, part by part.
pub open spec fn response_of(actions: Seq<ExchangeAction<Seq<u8>>>) -> Seq<
    ExchangeAction<Seq<u8>>,
>
    decreases actions.len(),
{
    if actions.len() == 0 {
        seq![]
    } else if is_response(actions.last()) {
        response_of(actions.drop_last()).push(actions.last())
    } else {
        response_of(actions.drop_last())
    }
}

/// The input that was handed to the decoder, in order.
pub open spec fn feeds_of(actions: Seq<ExchangeAction<Seq<u8>>>) -> Seq<Seq<u8>>
    decreases actions.len(),
{
    if actions.len() == 0 {
        seq![]
    } else {
        match actions.last() {
            ExchangeAction::Feed(data) => feeds_of(actions.drop_last()).push(data),
            _ => feeds_of(actions.drop_last()),
        }
    }
}

/// The response to these chunks so far: nothing where there is none yet, else a
/// head with the format of the first one, then the audio of each.
pub open spec fn audio_response(chunks: Seq<AudioChunk>) -> Seq<ExchangeAction<Seq<u8>>> {
    if chunks.len() == 0 {
        seq![]
    } else {
        seq![ExchangeAction::SendHead(Some(chunk_head(chunks[0])))] + chunks.map_values(
            |c: AudioChunk| ExchangeAction::SendData(c.data@),
        )
    }
}

/// The whole response to these chunks.
pub open spec fn full_response(chunks: Seq<AudioChunk>) -> Seq<ExchangeAction<Seq<u8>>> {
    if chunks.len() == 0 {
        seq![ExchangeAction::SendHead(None), ExchangeAction::Finish]
    } else {
        audio_response(chunks).push(ExchangeAction::Finish)
    }
}

proof fn lemma_effects_concat(a: Seq<ExchangeAction<Seq<u8>>>, b: Seq<ExchangeAction<Seq<u8>>>)
    ensures
        response_of(a + b) == response_of(a) + response_of(b),
        feeds_of(a + b) == feeds_of(a) + feeds_of(b),
    decreases b.len(),
{
    if b.len() == 0 {
        assert(a + b =~= a);
    } else {
        lemma_effects_concat(a, b.drop_last());
        assert((a + b).drop_last() =~= a + b.drop_last());
        assert(response_of(a + b) =~= response_of(a) + response_of(b));
        assert(feeds_of(a + b) =~= feeds_of(a) + feeds_of(b));
    }
}

/// What one step sends and feeds.
proof fn lemma_step_effects(m: DecodeExchange, event: ExchangeEvent)
    requires
        answers(m.phase, event),
    ensures
        ({
            let (end, actions) = exchange_step(m, event);
            &&& response_of(actions) == (match event {
                ExchangeEvent::Output(DecoderOutput::Audio(chunk)) => chunk_sends(
                    m.responded,
                    chunk,
                ),
                ExchangeEvent::AcquireFailed => seq![ExchangeAction::Fail],
                _ => if end.phase is Closing {
                    if m.responded {
                        seq![ExchangeAction::Finish]
                    } else {
                        seq![ExchangeAction::SendHead(None), ExchangeAction::Finish]
                    }
                } else {
                    seq![]
                },
            })
            &&& feeds_of(actions) == (match event {
                ExchangeEvent::Chunk(data) => if data@.len() > 0 {
                    seq![data@]
                } else {
                    seq![]
                },
                _ => seq![],
            })
            &&& end.responded == (m.responded || end.phase is Closing || (event matches
                ExchangeEvent::Output(output) && output is Audio))
        }),
{
    reveal_with_fuel(response_of, 4);
    reveal_with_fuel(feeds_of, 4);
    let (end, actions) = exchange_step(m, event);
    match event {
        ExchangeEvent::Output(DecoderOutput::Audio(chunk)) => {
            let w = chunk_sends(m.responded, chunk);
            assert(actions.drop_last() =~= w);
            if m.responded {
                assert(w.drop_last() =~= seq![]);
            } else {
                assert(w.drop_last() =~= seq![ExchangeAction::SendHead(Some(chunk_head(chunk)))]);
                assert(w.drop_last().drop_last() =~= seq![]);
            }
            assert(response_of(actions) =~= w);
        },
        _ => {
            if actions.len() == 1 {
                assert(actions.drop_last() =~= seq![]);
            } else if actions.len() > 1 {
                assert(actions.len() == 2);
                assert(actions.drop_last() =~= seq![actions[0]]);
                assert(actions.drop_last().drop_last() =~= seq![]);
                if end.phase is Closing {
                    assert(response_of(actions) =~= actions);
                }
            }
        },
    }
}

/// The response is decided by the chunks that the decoder handed out: it starts
/// with the format of the first one, carries the audio of each, unchanged and in
/// order, and ends when the decoder has finished. Without any audio it is an
/// empty response. Where no decoder could be had, it is an error and nothing else.
/// Of a request that is abandoned, nothing more is sent from then on.
pub proof fn law_response(events: Seq<ExchangeEvent>)
    requires
        answered_run(events),
    ensures
        ({
            let (end, actions) = run(fresh_exchange(), events);
            let chunks = chunks_of(events);
            &&& end.phase is Failed ==> response_of(actions) == seq![
                ExchangeAction::<Seq<u8>>::Fail,
            ] && chunks.len() == 0
            &&& end.phase is Closing || end.phase is Finished ==> response_of(actions)
                == full_response(chunks)
            &&& end.phase is Abandoned ==> response_of(actions) == audio_response(chunks)
                || response_of(actions) == full_response(chunks)
            &&& is_live(end.phase) && !(end.phase is Closing) ==> response_of(actions)
                == audio_response(chunks) && end.responded == (chunks.len() > 0)
            &&& end.phase is Acquiring ==> chunks.len() == 0
        }),
    decreases events.len(),
{
    let m = fresh_exchange();
    if events.len() > 0 {
        let prior = events.drop_last();
        let event = events.last();
        law_response(prior);
        let before = run(m, prior);
        let step = exchange_step(before.0, event);
        lemma_step_effects(before.0, event);
        lemma_effects_concat(before.1, step.1);
        let (end, actions) = run(m, events);
        let chunks = chunks_of(prior);
        match event {
            ExchangeEvent::Output(DecoderOutput::Audio(chunk)) => {
                let now = chunks.push(chunk);
                assert(chunks_of(events) == now);
                assert(response_of(actions) =~= audio_response(chunks) + chunk_sends(
                    chunks.len() > 0,
                    chunk,
                ));
                assert(audio_response(now) =~= audio_response(chunks) + chunk_sends(
                    chunks.len() > 0,
                    chunk,
                ));
            },
            _ => {
                assert(chunks_of(events) == chunks);
                if end.phase is Closing {
                    assert(response_of(actions) =~= full_response(chunks));
                } else if end.phase is Failed {
                    assert(response_of(actions) =~= seq![ExchangeAction::<Seq<u8>>::Fail]);
                } else if end.phase is Finished || end.phase is Abandoned {
                    assert(response_of(actions) =~= response_of(before.1));
                } else {
                    assert(response_of(actions) =~= audio_response(chunks));
                }
            },
        }
    }
}

/// How often the decoder was told that its input has ended.
pub open spec fn end_signals(actions: Seq<ExchangeAction<Seq<u8>>>) -> nat
    decreases actions.len(),
{
    if actions.len() == 0 {
        0
    } else {
        end_signals(actions.drop_last()) + (if actions.last() is SignalEnd {
            1nat
        } else {
            0nat
        })
    }
}

proof fn lemma_signals_concat(a: Seq<ExchangeAction<Seq<u8>>>, b: Seq<ExchangeAction<Seq<u8>>>)
    ensures
        end_signals(a + b) == end_signals(a) + end_signals(b),
    decreases b.len(),
{
    if b.len() == 0 {
        assert(a + b =~= a);
    } else {
        lemma_signals_concat(a, b.drop_last());
        assert((a + b).drop_last() =~= a + b.drop_last());
    }
}

/// The decoder is told once that its input has ended, before the response ends,
/// and never while the request body is still read. For a request that is abandoned
/// it is told at most once.
pub proof fn law_end_of_input(events: Seq<ExchangeEvent>)
    requires
        answered_run(events),
    ensures
        ({
            let (end, actions) = run(fresh_exchange(), events);
            if end.phase is Abandoned {
                end_signals(actions) <= 1
            } else {
                end_signals(actions) == (if end.phase is Flushing || end.phase is Closing
                    || end.phase is Finished {
                    1nat
                } else {
                    0nat
                })
            }
        }),
    decreases events.len(),
{
    if events.len() > 0 {
        let prior = events.drop_last();
        law_end_of_input(prior);
        let before = run(fresh_exchange(), prior);
        let step = exchange_step(before.0, events.last()).1;
        lemma_signals_concat(before.1, step);
        lemma_step_signals(before.0, events.last());
    }
}

/// What one step signals.
proof fn lemma_step_signals(m: DecodeExchange, event: ExchangeEvent)
    requires
        answers(m.phase, event),
    ensures
        end_signals(exchange_step(m, event).1) == (if event is BodyEnded || event is BodyFailed
            || event == ExchangeEvent::Fed(false) {
            1nat
        } else {
            0nat
        }),
{
    let step = exchange_step(m, event).1;
    reveal_with_fuel(end_signals, 4);
    if step.len() > 0 {
        assert(step.drop_last() =~= step.take(step.len() - 1));
        if step.len() > 1 {
            assert(step.drop_last().drop_last() =~= step.take(step.len() - 2));
            if step.len() > 2 {
                assert(step.drop_last().drop_last().drop_last() =~= seq![]);
            }
        }
    }
}

/// What the decoder is fed is the request body: every part that holds any data,
/// unchanged and in order.
pub proof fn law_input(events: Seq<ExchangeEvent>)
    requires
        answered_run(events),
    ensures
        feeds_of(run(fresh_exchange(), events).1) == inputs_of(events),
    decreases events.len(),
{
    let m = fresh_exchange();
    if events.len() > 0 {
        let prior = events.drop_last();
        law_input(prior);
        let before = run(m, prior);
        lemma_step_effects(before.0, events.last());
        lemma_effects_concat(before.1, exchange_step(before.0, events.last()).1);
        assert(feeds_of(run(m, events).1) =~= inputs_of(events));
    }
}

/// Something that happens at a server: a request begins, or something happened for
/// one of those that have begun, each with its time.
pub enum ServerEvent {
    Begin(u64),
    Step(nat, ExchangeEvent, u64),
}

/// All requests after a run of events, and the statistics.
pub open spec fn served(stats: StatsModel, events: Seq<ServerEvent>) -> (
    Seq<DecodeExchange>,
    StatsModel,
)
    decreases events.len(),
{
    if events.len() == 0 {
        (seq![], stats)
    } else {
        let (requests, before) = served(stats, events.drop_last());
        match events.last() {
            ServerEvent::Begin(now) => (
                requests.push(fresh_exchange()),
                count_begin(before, now),
            ),
            ServerEvent::Step(i, event, now) => if i < requests.len() {
                (
                    requests.update(i as int, exchange_step(requests[i as int], event).0),
                    count_step(before, requests[i as int], event, now),
                )
            } else {
                (requests, before)
            },
        }
    }
}

/// How many of some requests are still being served.
pub open spec fn live_requests(requests: Seq<DecodeExchange>) -> nat
    decreases requests.len(),
{
    if requests.len() == 0 {
        0
    } else {
        live_requests(requests.drop_last()) + (if is_live(requests.last().phase) {
            1nat
        } else {
            0nat
        })
    }
}

proof fn lemma_live_update(requests: Seq<DecodeExchange>, i: int, m: DecodeExchange)
    requires
        0 <= i < requests.len(),
    ensures
        live_requests(requests.update(i, m)) == live_requests(requests) + (if is_live(m.phase) {
            1int
        } else {
            0int
        }) - (if is_live(requests[i].phase) {
            1int
        } else {
            0int
        }),
    decreases requests.len(),
{
    let changed = requests.update(i, m);
    if i == requests.len() - 1 {
        assert(changed.drop_last() =~= requests.drop_last());
    } else {
        assert(changed.drop_last() =~= requests.drop_last().update(i, m));
        lemma_live_update(requests.drop_last(), i, m);
    }
}

/// However many requests are served at a time and however each of them ends, the
/// number of active connections is what it was before plus the number of requests
/// that are still being served.
pub proof fn law_active_requests(stats: StatsModel, events: Seq<ServerEvent>)
    requires
        stats.wf(),
        stats.active + events.len() <= usize::MAX,
    ensures
        ({
            let (requests, after) = served(stats, events);
            &&& after.wf()
            &&& after.num_cpus == stats.num_cpus
            &&& after.active == stats.active + live_requests(requests)
            &&& requests.len() <= events.len()
        }),
    decreases events.len(),
{
    if events.len() > 0 {
        let prior = events.drop_last();
        law_active_requests(stats, prior);
        let (requests, before) = served(stats, prior);
        lemma_live_bound(requests);
        match events.last() {
            ServerEvent::Begin(_) => {
                assert(requests.push(fresh_exchange()).drop_last() =~= requests);
            },
            ServerEvent::Step(i, event, _) => {
                if i < requests.len() {
                    lemma_live_update(
                        requests,
                        i as int,
                        exchange_step(requests[i as int], event).0,
                    );
                }
            },
        }
    }
}

proof fn lemma_live_bound(requests: Seq<DecodeExchange>)
    ensures
        live_requests(requests) <= requests.len(),
    decreases requests.len(),
{
    if requests.len() > 0 {
        lemma_live_bound(requests.drop_last());
    }
}

/// One request after a run of events, each with its time, and the statistics.
pub open spec fn counted_run(
    stats: StatsModel,
    started: u64,
    events: Seq<(ExchangeEvent, u64)>,
) -> (DecodeExchange, StatsModel)
    decreases events.len(),
{
    if events.len() == 0 {
        (fresh_exchange(), count_begin(stats, started))
    } else {
        let (m, before) = counted_run(stats, started, events.drop_last());
        let (event, now) = events.last();
        (exchange_step(m, event).0, count_step(before, m, event, now))
    }
}

/// Whether an action is a use of the response writer.
pub open spec fn is_sent(action: ExchangeAction<Seq<u8>>) -> bool {
    action is SendHead || action is SendData || action is Finish
}

/// A request counts as one active connection from its beginning to its end: at
/// every use of the response writer there is one connection more than before the
/// request, and once it is over, whether it was answered, refused or abandoned,
/// there are as many as before.
pub proof fn law_request_counts_once(
    stats: StatsModel,
    started: u64,
    events: Seq<(ExchangeEvent, u64)>,
)
    requires
        stats.wf(),
        stats.active < usize::MAX,
    ensures
        ({
            let (end, after) = counted_run(stats, started, events);
            &&& after.wf()
            &&& after.active == stats.active + (if is_live(end.phase) {
                1nat
            } else {
                0nat
            })
            &&& events.len() > 0 ==> ({
                let actions = exchange_step(
                    counted_run(stats, started, events.drop_last()).0,
                    events.last().0,
                ).1;
                (exists|i: int| 0 <= i < actions.len() && is_sent(#[trigger] actions[i]))
                    ==> after.active == stats.active + 1
            })
        }),
    decreases events.len(),
{
    if events.len() > 0 {
        law_request_counts_once(stats, started, events.drop_last());
    }
}

/// What a request asks for wins over the configuration, and every decode request
/// ends up with a number of bits per sample.
pub proof fn law_request_wins(config: MediaApiConfig, query: Seq<char>)
    ensures
        ({
            let asked = options_of_query(query);
            let used = effective_options(config, Some(query));
            &&& asked.output_sample_rate is Some ==> used.output_sample_rate
                == asked.output_sample_rate
            &&& asked.output_bits_per_sample is Some ==> used.output_bits_per_sample
                == asked.output_bits_per_sample
            &&& asked.output_channels is Some ==> used.output_channels == asked.output_channels
            &&& asked.output_sample_rate is None ==> used.output_sample_rate
                == config.default_output_sample_rate
            &&& asked.output_channels is None ==> used.output_channels
                == config.default_output_channels
            &&& used.output_bits_per_sample is Some
            &&& asked.output_bits_per_sample is None && config.default_output_bits is None
                ==> used.output_bits_per_sample == Some(DEFAULT_BITS)
        }),
{
}

/// Whether an event is a cause to end the input of the decoder: the request body
/// ended or broke off, or the decoder refused some of it.
pub open spec fn ends_input(event: ExchangeEvent) -> bool {
    event is BodyEnded || event is BodyFailed || event == ExchangeEvent::Fed(false)
}

/// Whether there was a cause to end the input of the decoder.
pub open spec fn input_ended(events: Seq<ExchangeEvent>) -> bool {
    exists|i: int| 0 <= i < events.len() && #[trigger] ends_input(events[i])
}

proof fn lemma_input_ended(events: Seq<ExchangeEvent>)
    requires
        events.len() > 0,
    ensures
        input_ended(events) == (input_ended(events.drop_last()) || ends_input(events.last())),
{
    let prior = events.drop_last();
    if input_ended(prior) {
        let i = choose|i: int| 0 <= i < prior.len() && #[trigger] ends_input(prior[i]);
        assert(ends_input(events[i]));
    }
    if ends_input(events.last()) {
        assert(ends_input(events[events.len() - 1]));
    }
    if input_ended(events) {
        let i = choose|i: int| 0 <= i < events.len() && #[trigger] ends_input(events[i]);
        if i < prior.len() {
            assert(ends_input(prior[i]));
        }
    }
}

/// Whether an event tells what came of an action. That nobody waits for the
/// response any longer may turn out at any time before the end.
pub open spec fn replies_to(action: ExchangeAction<Seq<u8>>, event: ExchangeEvent) -> bool {
    match action {
        ExchangeAction::NextChunk => event is Chunk || event is BodyFailed || event is BodyEnded
            || event is Abandoned,
        ExchangeAction::Feed(_) => event is Fed || event is Abandoned,
        ExchangeAction::Poll | ExchangeAction::YieldAndPoll => event is Output
            || event is Abandoned,
        ExchangeAction::Finish => event is ResponseEnded || event is Abandoned,
        _ => false,
    }
}

/// Whether a request that was told these actions, in answer to these events, waits
/// for an event: at first for a decoder, then for what came of the last action.
pub open spec fn awaits(
    events: Seq<ExchangeEvent>,
    actions: Seq<ExchangeAction<Seq<u8>>>,
    event: ExchangeEvent,
) -> bool {
    if events.len() == 0 {
        event is Acquired || event is AcquireFailed || event is Abandoned
    } else if events.last() is ResponseEnded || events.last() is Abandoned {
        false
    } else {
        replies_to(actions.last(), event)
    }
}

/// How a request stands, as whoever serves it can see it.
#[verifier::spinoff_prover]
proof fn lemma_exchange_stands(events: Seq<ExchangeEvent>)
    requires
        answered_run(events),
    ensures
        ({
            let (end, actions) = run(fresh_exchange(), events);
            let over = events.len() > 0 && (events.last() is ResponseEnded
                || events.last() is Abandoned);
            &&& end.phase is Finished <==> events.len() > 0 && events.last() is ResponseEnded
            &&& end.phase is Abandoned <==> events.len() > 0 && events.last() is Abandoned
            &&& end.phase is Acquiring <==> events.len() == 0
            &&& events.len() > 0 && !over ==> actions.len() > 0 && match actions.last() {
                ExchangeAction::NextChunk => end.phase is Reading,
                ExchangeAction::Feed(_) => end.phase is Feeding,
                ExchangeAction::Poll => end.phase is Draining || end.phase is Flushing,
                ExchangeAction::YieldAndPoll => end.phase is Flushing,
                ExchangeAction::Finish => end.phase is Closing,
                ExchangeAction::Fail => end.phase is Failed,
                _ => false,
            }
            &&& is_live(end.phase) || end.phase is Failed ==> input_ended(events) == (
            end.phase is Flushing || end.phase is Closing)
            &&& end_signals(actions) == (if input_ended(events) {
                1nat
            } else {
                0nat
            })
            &&& is_live(end.phase) && !(end.phase is Closing) ==> end.responded == (chunks_of(
                events,
            ).len() > 0)
        }),
    decreases events.len(),
{
    law_end_of_input(events);
    if events.len() > 0 {
        let prior = events.drop_last();
        let event = events.last();
        lemma_exchange_stands(prior);
        law_response(prior);
        law_response(events);
        lemma_input_ended(events);
        let before = run(fresh_exchange(), prior);
        let step = exchange_step(before.0, event).1;
        lemma_signals_concat(before.1, step);
        lemma_step_signals(before.0, event);
        if step.len() > 0 {
            assert((before.1 + step).last() == step.last());
        } else {
            assert(before.1 + step =~= before.1);
        }
    } else {
        assert(!input_ended(events));
    }
}

/// A request always waits for what came of its last action, and for nothing else,
/// so that it is never stuck before its end.
pub proof fn law_exchange_waits(events: Seq<ExchangeEvent>, event: ExchangeEvent)
    requires
        answered_run(events),
    ensures
        ({
            let (end, actions) = run(fresh_exchange(), events);
            &&& answers(end.phase, event) <==> awaits(events, actions, event)
            &&& is_live(end.phase) <==> awaits(events, actions, ExchangeEvent::Abandoned)
        }),
{
    lemma_exchange_stands(events);
}

/// An event that a request does not wait for changes nothing.
pub proof fn law_exchange_strays(events: Seq<ExchangeEvent>, event: ExchangeEvent)
    requires
        answered_run(events),
        !awaits(events, run(fresh_exchange(), events).1, event),
    ensures
        run(fresh_exchange(), events.push(event)) == run(fresh_exchange(), events),
{
    lemma_exchange_stands(events);
    assert(events.push(event).drop_last() =~= events);
    assert(run(fresh_exchange(), events.push(event)).1 =~= run(fresh_exchange(), events).1);
}

/// The input of the decoder is ended for cause only, and then at once and never
/// again: the decoder was told that its input has ended exactly if the request body
/// ended or broke off, or the decoder refused some of it.
pub proof fn law_input_ends_for_cause(events: Seq<ExchangeEvent>)
    requires
        answered_run(events),
    ensures
        end_signals(run(fresh_exchange(), events).1) == (if input_ended(events) {
            1nat
        } else {
            0nat
        }),
{
    lemma_exchange_stands(events);
}

/// What is done next for a request follows from what happened so far. The body is
/// read part by part; each part that holds data is handed to the decoder, and once
/// the decoder took it, all output that is ready is sent before the next part is
/// read. When there is a cause to end the input, the decoder is told, and its output
/// is sent until it has finished; then the response ends. The first audio is
/// preceded by the head of the response with its format; a response without audio has
/// a head without one. A part that cannot be decoded is passed over.
#[verifier::spinoff_prover]
pub proof fn law_exchange_next(events: Seq<ExchangeEvent>, event: ExchangeEvent)
    requires
        answered_run(events),
        awaits(events, run(fresh_exchange(), events).1, event),
    ensures
        ({
            let done = run(fresh_exchange(), events).1;
            let now = run(fresh_exchange(), events.push(event)).1;
            let silent = chunks_of(events).len() == 0;
            now == done + (match event {
                ExchangeEvent::Acquired => seq![ExchangeAction::NextChunk],
                ExchangeEvent::AcquireFailed => seq![ExchangeAction::Fail],
                ExchangeEvent::Chunk(data) => if data@.len() > 0 {
                    seq![ExchangeAction::Feed(data@)]
                } else {
                    seq![ExchangeAction::NextChunk]
                },
                ExchangeEvent::BodyEnded | ExchangeEvent::BodyFailed | ExchangeEvent::Fed(
                    false,
                ) => seq![ExchangeAction::SignalEnd, ExchangeAction::Poll],
                ExchangeEvent::Fed(true) => seq![ExchangeAction::Poll],
                ExchangeEvent::Output(DecoderOutput::Audio(chunk)) => (if silent {
                    seq![
                        ExchangeAction::SendHead(
                            Some(
                                AudioHead {
                                    sample_rate: chunk.sample_rate,
                                    channels: chunk.channels,
                                    bits_per_sample: chunk.bits_per_sample,
                                    encoding: if chunk.format == AudioFormat::PcmFloat {
                                        PcmEncoding::Float
                                    } else {
                                        PcmEncoding::Signed
                                    },
                                },
                            ),
                        ),
                    ]
                } else {
                    seq![]
                }) + seq![ExchangeAction::SendData(chunk.data@), ExchangeAction::Poll],
                ExchangeEvent::Output(DecoderOutput::Failed(_)) => seq![ExchangeAction::Poll],
                ExchangeEvent::Output(DecoderOutput::Pending) => if input_ended(events) {
                    seq![ExchangeAction::YieldAndPoll]
                } else {
                    seq![ExchangeAction::NextChunk]
                },
                ExchangeEvent::Output(DecoderOutput::Closed) => if !input_ended(events) {
                    seq![ExchangeAction::NextChunk]
                } else if silent {
                    seq![ExchangeAction::SendHead(None), ExchangeAction::Finish]
                } else {
                    seq![ExchangeAction::Finish]
                },
                ExchangeEvent::ResponseEnded | ExchangeEvent::Abandoned => seq![],
            })
        }),
{
    lemma_exchange_stands(events);
    let m = fresh_exchange();
    let all = events.push(event);
    assert(all.drop_last() =~= events);
    if let ExchangeEvent::Output(DecoderOutput::Audio(chunk)) = event {
        let step = exchange_step(run(m, events).0, event).1;
        let head = AudioHead {
            sample_rate: chunk.sample_rate,
            channels: chunk.channels,
            bits_per_sample: chunk.bits_per_sample,
            encoding: if chunk.format == AudioFormat::PcmFloat {
                PcmEncoding::Float
            } else {
                PcmEncoding::Signed
            },
        };
        if chunks_of(events).len() == 0 {
            assert(step =~= seq![ExchangeAction::SendHead(Some(head))] + seq![
                ExchangeAction::SendData(chunk.data@),
                ExchangeAction::Poll,
            ]);
        } else {
            assert(step =~= Seq::<ExchangeAction<Seq<u8>>>::empty() + seq![
                ExchangeAction::SendData(chunk.data@),
                ExchangeAction::Poll,
            ]);
        }
    }
}

/// The value of the header with this name, if there is one.
pub open spec fn header_value(headers: Seq<(Seq<char>, Seq<char>)>, name: Seq<char>) -> Option<
    Seq<char>,
>
    decreases headers.len(),
{
    if headers.len() == 0 {
        None
    } else if headers.last().0 == name {
        Some(headers.last().1)
    } else {
        header_value(headers.drop_last(), name)
    }
}

/// A client can read the format of the audio off the response headers: each figure
/// stands, as a decimal number, under the name that is its own, and the encoding is
/// named.
pub proof fn law_headers_tell_format(head: AudioHead)
    ensures
        ({
            let headers = header_list(head);
            &&& headers.len() == 4
            &&& header_value(headers, "X-Sample-Rate"@) matches Some(text) && parse_unsigned(
                text,
                u32::MAX as nat,
            ) == Some(head.sample_rate as nat)
            &&& header_value(headers, "X-Channels"@) matches Some(text) && parse_unsigned(
                text,
                u8::MAX as nat,
            ) == Some(head.channels as nat)
            &&& header_value(headers, "X-Bits-Per-Sample"@) matches Some(text) && parse_unsigned(
                text,
                u8::MAX as nat,
            ) == Some(head.bits_per_sample as nat)
            &&& header_value(headers, "X-Encoding"@) == Some(
                if head.encoding is Float {
                    "pcm-float"@
                } else {
                    "pcm-signed"@
                },
            )
        }),
{
    reveal_strlit("X-Sample-Rate");
    reveal_strlit("X-Channels");
    reveal_strlit("X-Bits-Per-Sample");
    reveal_strlit("X-Encoding");
    assert("X-Channels"@[2] == 'C');
    assert("X-Encoding"@[2] == 'E');
    law_number_roundtrip(head.sample_rate as nat, u32::MAX as nat);
    law_number_roundtrip(head.channels as nat, u8::MAX as nat);
    law_number_roundtrip(head.bits_per_sample as nat, u8::MAX as nat);
    let headers = header_list(head);
    let (rate, channels, bits, encoding) = (
        "X-Sample-Rate"@,
        "X-Channels"@,
        "X-Bits-Per-Sample"@,
        "X-Encoding"@,
    );
    assert(rate.len() == 13 && channels.len() == 10 && bits.len() == 17 && encoding.len() == 10);
    assert(channels != encoding);
    assert(headers[0].0 == rate && headers[1].0 == channels && headers[2].0 == bits
        && headers[3].0 == encoding);
    assert(headers.drop_last() =~= headers.take(3));
    assert(headers.take(3).drop_last() =~= headers.take(2));
    assert(headers.take(2).drop_last() =~= headers.take(1));
    assert(header_value(headers, encoding) == Some(headers[3].1));
    assert(header_value(headers.take(3), bits) == Some(headers[2].1));
    assert(header_value(headers.take(2), channels) == Some(headers[1].1));
    assert(header_value(headers.take(1), rate) == Some(headers[0].1));
    assert(header_value(headers.take(3), channels) == Some(headers[1].1));
    assert(header_value(headers.take(2), rate) == Some(headers[0].1));
    assert(header_value(headers.take(3), rate) == Some(headers[0].1));
}

/// The options of a request without a query are those of the configuration, and a
/// query decides exactly the options that it asks for. Where neither decides the
/// bits per sample, they are sixteen.
pub proof fn law_effective_options(config: MediaApiConfig, query: Option<Seq<char>>)
    ensures
        ({
            let asked = match query {
                Some(q) => options_of_query(q),
                None => no_options(),
            };
            let used = effective_options(config, query);
            &&& used.output_sample_rate == (match asked.output_sample_rate {
                Some(rate) => Some(rate),
                None => config.default_output_sample_rate,
            })
            &&& used.output_channels == (match asked.output_channels {
                Some(channels) => Some(channels),
                None => config.default_output_channels,
            })
            &&& used.output_bits_per_sample == (match (
                asked.output_bits_per_sample,
                config.default_output_bits,
            ) {
                (Some(bits), _) => Some(bits),
                (None, Some(bits)) => Some(bits),
                (None, None) => Some(16u8),
            })
        }),
{
}

} // verus!
