use media_api::audio::{AudioChunk, AudioFormat, DecoderOutput, PcmEncoding};
use media_api::config::ServerConfig;
use media_api::decode::DecodeOptions;
use media_api::router::{
    AudioHead, DecodeExchange, ExchangeAction, ExchangeEvent, Phase, ReplyBody, RouteError,
};
use media_api::{MediaApiConfig, MediaRouter, Stats};

fn config() -> MediaApiConfig {
    MediaApiConfig {
        server: ServerConfig {
            cert_pem_base64: String::new(),
            privkey_pem_base64: String::new(),
            port: 8443,
            enable_h2: true,
            enable_h3: true,
            enable_webtransport: false,
            enable_websocket: false,
            enable_raw_tcp: false,
            raw_tcp_port: 9000,
            raw_tcp_tls: false,
        },
        default_output_sample_rate: Some(44100),
        default_output_bits: None,
        default_output_channels: Some(2),
    }
}

fn router() -> MediaRouter {
    MediaRouter::with_stats(config(), Stats::with_cpus(4))
}

fn shown(actions: Vec<ExchangeAction<Vec<u8>>>) -> String {
    format!("{actions:?}")
}

fn audio(data: &[u8]) -> ExchangeEvent {
    ExchangeEvent::Output(DecoderOutput::Audio(AudioChunk {
        sample_rate: 16000,
        channels: 1,
        bits_per_sample: 16,
        format: AudioFormat::PcmSigned,
        data: data.to_vec(),
    }))
}

fn pending() -> ExchangeEvent {
    ExchangeEvent::Output(DecoderOutput::Pending)
}

fn closed() -> ExchangeEvent {
    ExchangeEvent::Output(DecoderOutput::Closed)
}

const HEAD: &str = "SendHead(Some(AudioHead { sample_rate: 16000, channels: 1, \
                    bits_per_sample: 16, encoding: Signed }))";

#[test]
fn health_is_reported() {
    for path in ["/health", "/status"] {
        let reply = router().route(path, "1.2.3", 0);
        assert_eq!(reply.status, 200);
        assert_eq!(reply.content_type, "application/json");
        match reply.body {
            ReplyBody::Health { status, service, version } => {
                assert_eq!(status, "ok");
                assert_eq!(service, "media-api");
                assert_eq!(version, "1.2.3");
            }
            _ => panic!("no health reply"),
        }
    }
}

#[test]
fn load_is_reported() {
    let mut router = router();
    router.stats.connection_start(1);
    let reply = router.route("/stats", "1.2.3", 2);
    assert_eq!(reply.status, 200);
    match reply.body {
        ReplyBody::Stats(report) => {
            assert_eq!(report.current_connections, 1);
            assert_eq!(report.pool_size, 8);
            assert_eq!(report, router.stats.report(2));
        }
        _ => panic!("no load figures"),
    }
}

#[test]
fn other_paths_are_not_found() {
    for path in ["/", "/decode", "/stats/", "/statu", ""] {
        let reply = router().route(path, "1.2.3", 0);
        assert_eq!(reply.status, 404);
        assert_eq!(reply.content_type, "application/json");
        match reply.body {
            ReplyBody::Error { error } => assert_eq!(error, "Not found"),
            _ => panic!("no error reply"),
        }
    }
}

#[test]
fn only_decode_streams_both_ways() {
    let router = router();
    assert!(router.is_body_streaming("/decode"));
    assert!(!router.is_body_streaming("/health"));
    assert!(!router.is_streaming("/decode"));
    assert!(!router.has_body_handler("/decode"));
    assert_eq!(router.route_body_stream("/decode"), Ok(()));
    assert_eq!(router.route_body_stream("/other"), Err(RouteError::NotFound));
    assert_eq!(router.route_stream(), Err(RouteError::Unsupported));
    assert_eq!(RouteError::NotFound.message(), "Not found");
    assert_eq!(RouteError::Unsupported.message(), "Streaming not supported");
}

#[test]
fn two_workers_for_each_processor() {
    assert_eq!(router().pool_size, 8);
    assert_eq!(MediaRouter::new(config()).pool_size, 2 * num_cpus::get());
}

#[test]
fn request_wins_over_configuration() {
    let router = router();
    assert_eq!(
        router.request_options(Some("sample_rate=16000&bits=24")),
        DecodeOptions {
            output_sample_rate: Some(16000),
            output_bits_per_sample: Some(24),
            output_channels: Some(2),
        }
    );
    assert_eq!(
        router.request_options(None),
        DecodeOptions {
            output_sample_rate: Some(44100),
            output_bits_per_sample: Some(16),
            output_channels: Some(2),
        }
    );
    assert_eq!(
        router.merge_options(DecodeOptions::default()),
        DecodeOptions {
            output_sample_rate: Some(44100),
            output_bits_per_sample: None,
            output_channels: Some(2),
        }
    );
}

#[test]
fn headers_give_the_format() {
    let head = AudioHead {
        sample_rate: 48000,
        channels: 2,
        bits_per_sample: 32,
        encoding: PcmEncoding::Float,
    };
    let expected = [
        ("X-Sample-Rate", "48000"),
        ("X-Channels", "2"),
        ("X-Bits-Per-Sample", "32"),
        ("X-Encoding", "pcm-float"),
    ];
    let headers = head.headers();
    assert_eq!(headers.len(), expected.len());
    for (header, (name, value)) in headers.iter().zip(expected) {
        assert_eq!(header.0, name);
        assert_eq!(header.1, value);
    }
    let signed = AudioHead { encoding: PcmEncoding::Signed, ..head };
    assert_eq!(signed.headers()[3].1, "pcm-signed");
}

#[test]
fn exchange_streams_audio() {
    let mut exchange = DecodeExchange::new();
    assert_eq!(shown(exchange.step(ExchangeEvent::Acquired)), "[NextChunk]");
    assert_eq!(shown(exchange.step(ExchangeEvent::Chunk(vec![]))), "[NextChunk]");
    assert_eq!(shown(exchange.step(ExchangeEvent::Chunk(vec![7]))), "[Feed([7])]");
    assert_eq!(shown(exchange.step(ExchangeEvent::Fed(true))), "[Poll]");
    assert_eq!(shown(exchange.step(audio(&[1]))), format!("[{HEAD}, SendData([1]), Poll]"));
    assert_eq!(shown(exchange.step(audio(&[2]))), "[SendData([2]), Poll]");
    assert_eq!(
        shown(exchange.step(ExchangeEvent::Output(DecoderOutput::Failed("bad".to_string())))),
        "[Poll]"
    );
    assert_eq!(shown(exchange.step(pending())), "[NextChunk]");
    assert_eq!(shown(exchange.step(ExchangeEvent::BodyEnded)), "[SignalEnd, Poll]");
    assert_eq!(shown(exchange.step(pending())), "[YieldAndPoll]");
    assert_eq!(shown(exchange.step(audio(&[3]))), "[SendData([3]), Poll]");
    assert_eq!(shown(exchange.step(closed())), "[Finish]");
    assert_eq!(exchange.phase, Phase::Closing);
    assert!(exchange.live());
    assert_eq!(shown(exchange.step(ExchangeEvent::ResponseEnded)), "[]");
    assert_eq!(exchange.phase, Phase::Finished);
    assert!(!exchange.live());
}

#[test]
fn exchange_without_audio_is_an_empty_response() {
    let mut exchange = DecodeExchange::new();
    exchange.step(ExchangeEvent::Acquired);
    assert_eq!(shown(exchange.step(ExchangeEvent::BodyFailed)), "[SignalEnd, Poll]");
    assert_eq!(shown(exchange.step(closed())), "[SendHead(None), Finish]");
}

#[test]
fn exchange_copes_with_failures() {
    let mut exchange = DecodeExchange::new();
    assert_eq!(shown(exchange.step(ExchangeEvent::AcquireFailed)), "[Fail]");
    assert_eq!(exchange.phase, Phase::Failed);
    assert_eq!(shown(exchange.step(ExchangeEvent::Acquired)), "[]");

    let mut exchange = DecodeExchange::new();
    exchange.step(ExchangeEvent::Acquired);
    exchange.step(ExchangeEvent::Chunk(vec![7]));
    assert_eq!(shown(exchange.step(ExchangeEvent::Fed(false))), "[SignalEnd, Poll]");
    assert_eq!(shown(exchange.step(audio(&[1]))), format!("[{HEAD}, SendData([1]), Poll]"));
    assert_eq!(shown(exchange.step(closed())), "[Finish]");
}

/// A request that has sent its first chunk, at a router with one other connection.
fn responding() -> (MediaRouter, DecodeExchange) {
    let mut router = router();
    router.stats.connection_start(1);
    let mut exchange = router.begin_decode(2);
    assert_eq!(router.stats.current(), 2);
    router.decode_step(&mut exchange, ExchangeEvent::Acquired, 3);
    router.decode_step(&mut exchange, ExchangeEvent::Chunk(vec![7]), 4);
    router.decode_step(&mut exchange, ExchangeEvent::Fed(true), 5);
    let actions = router.decode_step(&mut exchange, audio(&[1]), 6);
    assert_eq!(shown(actions), format!("[{HEAD}, SendData([1]), Poll]"));
    assert_eq!(router.stats.current(), 2);
    (router, exchange)
}

#[test]
fn answered_request_counts_until_its_response_has_ended() {
    let (mut router, mut exchange) = responding();
    router.decode_step(&mut exchange, pending(), 7);
    router.decode_step(&mut exchange, ExchangeEvent::BodyEnded, 8);
    let actions = router.decode_step(&mut exchange, closed(), 9);
    assert_eq!(shown(actions), "[Finish]");
    assert_eq!(router.stats.current(), 2);
    let actions = router.decode_step(&mut exchange, ExchangeEvent::ResponseEnded, 10);
    assert_eq!(shown(actions), "[]");
    assert_eq!(exchange.phase, Phase::Finished);
    assert_eq!(router.stats.current(), 1);
    router.decode_step(&mut exchange, ExchangeEvent::Abandoned, 11);
    assert_eq!(exchange.phase, Phase::Finished);
    assert_eq!(router.stats.current(), 1);
}

#[test]
fn failing_writer_ends_the_count() {
    let (mut router, mut exchange) = responding();
    let actions = router.decode_step(&mut exchange, ExchangeEvent::Abandoned, 7);
    assert_eq!(shown(actions), "[]");
    assert_eq!(exchange.phase, Phase::Abandoned);
    assert_eq!(router.stats.current(), 1);
    router.decode_step(&mut exchange, ExchangeEvent::Abandoned, 8);
    assert_eq!(router.stats.current(), 1);

    let (mut router, mut exchange) = responding();
    router.decode_step(&mut exchange, pending(), 7);
    router.decode_step(&mut exchange, ExchangeEvent::BodyEnded, 8);
    router.decode_step(&mut exchange, closed(), 9);
    router.decode_step(&mut exchange, ExchangeEvent::Abandoned, 10);
    assert_eq!(exchange.phase, Phase::Abandoned);
    assert_eq!(router.stats.current(), 1);
}

#[test]
fn refused_request_ends_the_count() {
    let mut router = router();
    let mut exchange = router.begin_decode(1);
    assert_eq!(router.stats.current(), 1);
    let actions = router.decode_step(&mut exchange, ExchangeEvent::AcquireFailed, 2);
    assert_eq!(shown(actions), "[Fail]");
    assert_eq!(router.stats.current(), 0);
}

#[test]
fn requests_count_side_by_side() {
    let mut router = router();
    let mut first = router.begin_decode(1);
    let mut second = router.begin_decode(2);
    assert_eq!(router.stats.current(), 2);
    router.decode_step(&mut second, ExchangeEvent::AcquireFailed, 3);
    assert_eq!(router.stats.current(), 1);
    router.decode_step(&mut first, ExchangeEvent::Acquired, 4);
    assert_eq!(router.stats.current(), 1);
    router.decode_step(&mut first, ExchangeEvent::Abandoned, 5);
    assert_eq!(router.stats.current(), 0);
}
