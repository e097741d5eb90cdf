//! Verified logic of a streaming audio decode service.
//!
//! The service takes encoded audio over HTTP, raw TCP and gRPC and answers with
//! PCM. Here is what it decides: configuration and request options, the protocols
//! as state machines, the work of a decoder pool, load statistics, and a benchmark
//! of Opus codecs. Sockets, threads and clocks are the caller's.

pub mod audio;
pub mod config;
pub mod decode;
pub mod grpc;
pub mod opus_benchmark;
pub mod opus_calls;
pub mod opus_codec;
pub mod packets;
pub mod pool;
pub mod router;
pub mod stats;
pub mod tcp_handler;
pub mod text;

pub use config::MediaApiConfig;
pub use router::MediaRouter;
pub use stats::Stats;
