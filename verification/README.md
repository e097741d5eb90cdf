# media-api

The logic of a streaming audio decode service, verified with Verus, and the
service around it.

- `src/` is the verified library. Each function states in its contract what it
  returns; what holds of whole connections, requests and jobs stands in the
  proof functions named `law_...`.
  - `decode`, `config`: options of a request and configuration of the service
  - `router`, `tcp_handler`, `grpc`: the three protocols, as state machines that
    take what happened and say what to do next
  - `pool`: the work of one job of a decoder pool
  - `stats`: connection counts, rolling means and the overload alarm
  - `packets`, `opus_calls`, `opus_codec`, `opus_benchmark`: a benchmark of Opus
    codecs; `opus_calls` holds all calls into the codec
  - `text`, `audio`: texts, numbers and decoded audio as plain values
- `app/` is the service: sockets, threads, clocks, printing and floating point.
- `tests/` runs the library.

The calls into other crates that the library makes are `num_cpus::get`, the
encoder and decoder of `soundkit_opus`, and `soundkit::audio_bytes::s16le_to_i16`.
Each stands in a function of its own whose contract is taken on trust and whose
comment says what is claimed.
