//! A benchmark of Opus codecs: it encodes and decodes recordings and compares
//! what comes out with what went in.

use crate::audio::AudioChunk;
use crate::opus_calls::{celt_frame, coder_error, decoder_refusal, encoder_accepts};
use crate::opus_codec::{
    bytes_outcome, call_fits, decoded_stream, encode_outcome, law_encoded_recording, replies_of,
    samples_outcome, settings_for, DecoderModel, SoundkitDecoder, SoundkitEncoder,
};
use crate::packets::{frame_count, frames_of, law_frames_cover, split_packets};
use crate::text::{
    decimal_text, law_number_roundtrip, number_text, parse_text, parse_unsigned, same_ignoring_ascii_case, text_equal,
    text_equal_ignoring_ascii_case, to_chars,
};
use vstd::prelude::*;
use vstd::string::StringExecFns;

verus! {

pub const DEFAULT_SAMPLE_RATE: u32 = 48000;

pub const DEFAULT_CHANNELS: u8 = 2;

pub const DEFAULT_BITRATE: u32 = 96000;

/// The length of a frame in milliseconds.
pub const FRAME_MS: usize = 20;

/// The bits per sample of the recordings that are benchmarked.
pub const SOURCE_BITS: u8 = 16;

/// The codecs that are compared.
#[derive(Debug, Clone, Copy, PartialEq, Eq, Structural)]
pub enum Backend {
    SoundKit,
    LibOpusRust,
}

/// The name of a codec.
pub open spec fn backend_label(backend: Backend) -> Seq<char> {
    match backend {
        Backend::SoundKit => "soundkit-opus"@,
        Backend::LibOpusRust => "libopus-rs"@,
    }
}

impl Backend {
    /// The name of this codec.
    pub fn label(&self) -> (r: &'static str)
        ensures
            r@ == backend_label(*self),
    {
        match self {
            Backend::SoundKit => "soundkit-opus",
            Backend::LibOpusRust => "libopus-rs",
        }
    }
}

// ---------------------------------------------------------------------------
// Command line
// ---------------------------------------------------------------------------

/// What the benchmark is run with. `S` is a text.
#[derive(Debug)]
pub struct Config<S> {
    /// The directory of the recordings.
    pub source_dir: S,
    pub sample_rate: u32,
    pub channels: u8,
    pub bitrate: u32,
}

impl Config<String> {
    /// These settings with their text as a sequence.
    pub open spec fn model(self) -> Config<Seq<char>> {
        Config {
            source_dir: self.source_dir@,
            sample_rate: self.sample_rate,
            channels: self.channels,
            bitrate: self.bitrate,
        }
    }
}

/// The directory that is read where none is given.
pub open spec fn default_source_dir() -> Seq<char> {
    "/Users/jamie/Downloads/Lori Asha - Lori Asha Album Premix"@
}

/// The settings that hold where nothing is given.
pub open spec fn default_config() -> Config<Seq<char>> {
    Config {
        source_dir: default_source_dir(),
        sample_rate: DEFAULT_SAMPLE_RATE,
        channels: DEFAULT_CHANNELS,
        bitrate: DEFAULT_BITRATE,
    }
}

/// The options that take a number.
#[derive(Debug, Clone, Copy, PartialEq, Eq, Structural)]
pub enum NumberOption {
    SampleRate,
    Channels,
    Bitrate,
}

/// Something to tell the user about the command line. `S` is a text.
#[derive(Debug)]
pub enum ArgNotice<S> {
    /// An option stands at the end, without its number.
    MissingValue(NumberOption),
    /// An option has something else in place of its number.
    InvalidValue(NumberOption, S),
    /// An option that does not exist.
    Unknown(S),
}

impl ArgNotice<String> {
    /// This notice with its text as a sequence.
    pub open spec fn model(self) -> ArgNotice<Seq<char>> {
        match self {
            ArgNotice::MissingValue(option) => ArgNotice::MissingValue(option),
            ArgNotice::InvalidValue(option, value) => ArgNotice::InvalidValue(option, value@),
            ArgNotice::Unknown(arg) => ArgNotice::Unknown(arg@),
        }
    }

    /// The text of this notice.
    pub fn message(&self) -> (r: String)
        ensures
            r@ == notice_text(self.model()),
    {
        match self {
            ArgNotice::MissingValue(option) => {
                match option {
                    NumberOption::SampleRate => "--sample-rate requires a value, using default 48000".to_owned(),
                    NumberOption::Channels => "--channels requires a value, using default 2".to_owned(),
                    NumberOption::Bitrate => "--bitrate requires a value, using default 96000".to_owned(),
                }
            },
            ArgNotice::InvalidValue(option, value) => {
                match option {
                    NumberOption::SampleRate => "invalid --sample-rate value '".to_owned().concat(
                        value.as_str(),
                    ).concat("', expected integer Hz"),
                    NumberOption::Channels => "invalid --channels value '".to_owned().concat(
                        value.as_str(),
                    ).concat("', expected 1-255"),
                    NumberOption::Bitrate => "invalid --bitrate value '".to_owned().concat(
                        value.as_str(),
                    ).concat("', expected integer"),
                }
            },
            ArgNotice::Unknown(arg) => "warning: unknown arg ".to_owned().concat(arg.as_str()),
        }
    }
}

/// The text of a notice.
pub open spec fn notice_text(notice: ArgNotice<Seq<char>>) -> Seq<char> {
    match notice {
        ArgNotice::MissingValue(option) => match option {
            NumberOption::SampleRate => "--sample-rate requires a value, using default 48000"@,
            NumberOption::Channels => "--channels requires a value, using default 2"@,
            NumberOption::Bitrate => "--bitrate requires a value, using default 96000"@,
        },
        ArgNotice::InvalidValue(option, value) => match option {
            NumberOption::SampleRate => "invalid --sample-rate value '"@ + value
                + "', expected integer Hz"@,
            NumberOption::Channels => "invalid --channels value '"@ + value
                + "', expected 1-255"@,
            NumberOption::Bitrate => "invalid --bitrate value '"@ + value + "', expected integer"@,
        },
        ArgNotice::Unknown(arg) => "warning: unknown arg "@ + arg,
    }
}

/// A list of notices with their texts as sequences.
pub open spec fn notices_model(notices: Seq<ArgNotice<String>>) -> Seq<ArgNotice<Seq<char>>> {
    notices.map_values(|n: ArgNotice<String>| n.model())
}

/// What the command line asks for. `S` is a text.
#[derive(Debug)]
pub enum Request<S> {
    /// Run with these settings.
    Run(Config<S>),
    /// Show the help.
    Help,
    /// The option for the directory stands at the end, without a directory.
    MissingSourceDir,
}

impl Request<String> {
    /// This request with its texts as sequences.
    pub open spec fn model(self) -> Request<Seq<char>> {
        match self {
            Request::Run(config) => Request::Run(config.model()),
            Request::Help => Request::Help,
            Request::MissingSourceDir => Request::MissingSourceDir,
        }
    }
}

/// What an argument is.
#[derive(Debug, Clone, Copy, PartialEq, Eq, Structural)]
pub enum ArgKind {
    Help,
    SourceDir,
    Number(NumberOption),
    /// Starts like an option, but is none.
    Unknown,
    /// Anything else, which is ignored.
    Other,
}

/// What an argument is.
pub open spec fn arg_kind(arg: Seq<char>) -> ArgKind {
    if arg == "-h"@ || arg == "--help"@ {
        ArgKind::Help
    } else if arg == "--source-dir"@ {
        ArgKind::SourceDir
    } else if arg == "--sample-rate"@ {
        ArgKind::Number(NumberOption::SampleRate)
    } else if arg == "--channels"@ {
        ArgKind::Number(NumberOption::Channels)
    } else if arg == "--bitrate"@ {
        ArgKind::Number(NumberOption::Bitrate)
    } else if arg.len() >= 2 && arg[0] == '-' && arg[1] == '-' {
        ArgKind::Unknown
    } else {
        ArgKind::Other
    }
}

/// The greatest number that an option takes.
pub open spec fn option_max(option: NumberOption) -> nat {
    match option {
        NumberOption::SampleRate | NumberOption::Bitrate => u32::MAX as nat,
        NumberOption::Channels => u8::MAX as nat,
    }
}

/// The settings with a number option set: to the value, or to its default where
/// the value is no number in range.
pub open spec fn with_number(
    config: Config<Seq<char>>,
    option: NumberOption,
    value: Option<nat>,
) -> Config<Seq<char>> {
    match option {
        NumberOption::SampleRate => Config {
            sample_rate: match value {
                Some(v) => v as u32,
                None => DEFAULT_SAMPLE_RATE,
            },
            ..config
        },
        NumberOption::Channels => Config {
            channels: match value {
                Some(v) => v as u8,
                None => DEFAULT_CHANNELS,
            },
            ..config
        },
        NumberOption::Bitrate => Config {
            bitrate: match value {
                Some(v) => v as u32,
                None => DEFAULT_BITRATE,
            },
            ..config
        },
    }
}

/// What the arguments from `i` on ask for, with these settings so far: the
/// notices and the request. The first request for help, and a missing directory,
/// end the reading. A later option overrides an earlier one.
pub open spec fn request_of(args: Seq<Seq<char>>, i: int, config: Config<Seq<char>>) -> (
    Seq<ArgNotice<Seq<char>>>,
    Request<Seq<char>>,
)
    decreases args.len() - i,
{
    if i >= args.len() {
        (seq![], Request::Run(config))
    } else {
        match arg_kind(args[i]) {
            ArgKind::Help => (seq![], Request::Help),
            ArgKind::SourceDir => if i + 1 < args.len() {
                request_of(args, i + 2, Config { source_dir: args[i + 1], ..config })
            } else {
                (seq![], Request::MissingSourceDir)
            },
            ArgKind::Number(option) => if i + 1 >= args.len() {
                (seq![ArgNotice::MissingValue(option)], Request::Run(config))
            } else {
                let value = parse_unsigned(args[i + 1], option_max(option));
                let rest = request_of(args, i + 2, with_number(config, option, value));
                if value is None {
                    (seq![ArgNotice::InvalidValue(option, args[i + 1])] + rest.0, rest.1)
                } else {
                    rest
                }
            },
            ArgKind::Unknown => {
                let rest = request_of(args, i + 1, config);
                (seq![ArgNotice::Unknown(args[i])] + rest.0, rest.1)
            },
            ArgKind::Other => request_of(args, i + 1, config),
        }
    }
}

/// A list of arguments as sequences.
pub open spec fn args_model(args: Seq<String>) -> Seq<Seq<char>> {
    args.map_values(|a: String| a@)
}

fn classify(arg: &str) -> (r: ArgKind)
    ensures
        r == arg_kind(arg@),
{
    proof {
        reveal_strlit("-h");
        reveal_strlit("--help");
        reveal_strlit("--source-dir");
        reveal_strlit("--sample-rate");
        reveal_strlit("--channels");
        reveal_strlit("--bitrate");
    }
    if text_equal(arg, "-h") || text_equal(arg, "--help") {
        return ArgKind::Help;
    }
    if text_equal(arg, "--source-dir") {
        return ArgKind::SourceDir;
    }
    if text_equal(arg, "--sample-rate") {
        return ArgKind::Number(NumberOption::SampleRate);
    }
    if text_equal(arg, "--channels") {
        return ArgKind::Number(NumberOption::Channels);
    }
    if text_equal(arg, "--bitrate") {
        return ArgKind::Number(NumberOption::Bitrate);
    }
    let chars: Vec<char> = to_chars(arg);
    if chars.len() >= 2 && chars[0] == '-' && chars[1] == '-' {
        ArgKind::Unknown
    } else {
        ArgKind::Other
    }
}

/// Reads the command line. The first argument is the name of the program.
pub fn parse_args(args: &Vec<String>) -> (r: (Vec<ArgNotice<String>>, Request<String>))
    ensures
        (notices_model(r.0@), r.1.model()) == request_of(args_model(args@), 1, default_config()),
{
    let mut config: Config<String> = Config {
        source_dir: "/Users/jamie/Downloads/Lori Asha - Lori Asha Album Premix".to_owned(),
        sample_rate: DEFAULT_SAMPLE_RATE,
        channels: DEFAULT_CHANNELS,
        bitrate: DEFAULT_BITRATE,
    };
    let mut notices: Vec<ArgNotice<String>> = Vec::new();
    let ghost all = request_of(args_model(args@), 1, default_config());
    let mut i: usize = 1;
    assert(notices_model(notices@) + all.0 =~= all.0);
    while i < args.len()
        invariant
            i >= 1,
            ({
                let rest = request_of(args_model(args@), i as int, config.model());
                all == (notices_model(notices@) + rest.0, rest.1)
            }),
            all == request_of(args_model(args@), 1, default_config()),
        decreases args.len() + 1 - i,
    {
        let ghost before = notices_model(notices@);
        let ghost rest = request_of(args_model(args@), i as int, config.model());
        assert(args_model(args@)[i as int] == args@[i as int]@);
        match classify(args[i].as_str()) {
            ArgKind::Help => {
                assert(before + rest.0 =~= before);
                return (notices, Request::Help);
            },
            ArgKind::SourceDir => {
                if args.len() - i < 2 {
                    assert(before + rest.0 =~= before);
                    return (notices, Request::MissingSourceDir);
                }
                assert(args_model(args@)[i + 1] == args@[i + 1]@);
                config.source_dir = args[i + 1].as_str().to_owned();
                i = i + 2;
            },
            ArgKind::Number(option) => {
                if args.len() - i < 2 {
                    notices.push(ArgNotice::MissingValue(option));
                    assert(notices_model(notices@) =~= before + rest.0);
                    return (notices, Request::Run(config));
                }
                assert(args_model(args@)[i + 1] == args@[i + 1]@);
                let max: u64 = match option {
                    NumberOption::SampleRate | NumberOption::Bitrate => u32::MAX as u64,
                    NumberOption::Channels => u8::MAX as u64,
                };
                let value: Option<u64> = parse_text(args[i + 1].as_str(), max);
                if value.is_none() {
                    notices.push(
                        ArgNotice::InvalidValue(option, args[i + 1].as_str().to_owned()),
                    );
                    assert(notices_model(notices@) =~= before.push(
                        ArgNotice::InvalidValue(option, args@[i + 1]@),
                    ));
                }
                match option {
                    NumberOption::SampleRate => {
                        config.sample_rate = match value {
                            Some(v) => v as u32,
                            None => DEFAULT_SAMPLE_RATE,
                        };
                    },
                    NumberOption::Channels => {
                        config.channels = match value {
                            Some(v) => v as u8,
                            None => DEFAULT_CHANNELS,
                        };
                    },
                    NumberOption::Bitrate => {
                        config.bitrate = match value {
                            Some(v) => v as u32,
                            None => DEFAULT_BITRATE,
                        };
                    },
                }
                i = i + 2;
                proof {
                    let next = request_of(args_model(args@), i as int, config.model());
                    assert(notices_model(notices@) + next.0 =~= before + rest.0);
                }
            },
            ArgKind::Unknown => {
                notices.push(ArgNotice::Unknown(args[i].as_str().to_owned()));
                i = i + 1;
                proof {
                    let next = request_of(args_model(args@), i as int, config.model());
                    assert(notices_model(notices@) + next.0 =~= before + rest.0);
                }
            },
            ArgKind::Other => {
                i = i + 1;
            },
        }
    }
    assert(notices_model(notices@) + Seq::<ArgNotice<Seq<char>>>::empty() =~= notices_model(
        notices@,
    ));
    (notices, Request::Run(config))
}

/// Arguments that are no options the benchmark knows leave the settings as they
/// are; those that look like options are reported, in order.
pub proof fn law_foreign_args_ignored(args: Seq<Seq<char>>, i: int, config: Config<Seq<char>>)
    requires
        0 <= i,
        forall|j: int|
            i <= j < args.len() ==> arg_kind(#[trigger] args[j]) is Unknown || arg_kind(
                args[j],
            ) is Other,
    ensures
        request_of(args, i, config).1 == Request::Run(config),
        request_of(args, i, config).0 == unknown_from(args, i),
    decreases args.len() - i,
{
    if i < args.len() {
        assert(arg_kind(args[i]) is Unknown || arg_kind(args[i]) is Other);
        law_foreign_args_ignored(args, i + 1, config);
    }
}

/// A notice for every argument from `i` on that looks like an option but is none.
pub open spec fn unknown_from(args: Seq<Seq<char>>, i: int) -> Seq<ArgNotice<Seq<char>>>
    decreases args.len() - i,
{
    if i >= args.len() {
        seq![]
    } else if arg_kind(args[i]) is Unknown {
        seq![ArgNotice::Unknown(args[i])] + unknown_from(args, i + 1)
    } else {
        unknown_from(args, i + 1)
    }
}

/// An option with its number sets that setting and leaves the others to the
/// arguments behind it.
pub proof fn law_number_option(
    option: NumberOption,
    name: Seq<char>,
    value: nat,
    config: Config<Seq<char>>,
    args: Seq<Seq<char>>,
    i: int,
)
    requires
        0 <= i && i + 1 < args.len(),
        args[i] == name,
        arg_kind(name) == ArgKind::Number(option),
        value <= option_max(option),
        args[i + 1] == decimal_text(value),
    ensures
        request_of(args, i, config) == request_of(
            args,
            i + 2,
            with_number(config, option, Some(value)),
        ),
{
    law_number_roundtrip(value, option_max(option));
}

// ---------------------------------------------------------------------------
// Recordings
// ---------------------------------------------------------------------------

/// Whether a file name extension is that of an MP3 file.
pub fn is_mp3_extension(extension: &str) -> (r: bool)
    ensures
        r == same_ignoring_ascii_case(extension@, "mp3"@),
{
    text_equal_ignoring_ascii_case(extension, "mp3")
}

/// A recording.
#[derive(Debug)]
pub struct SourceTrack {
    pub name: String,
    pub pcm: Vec<i16>,
}

/// The signed 16-bit sample in two bytes, the less significant one first.
pub open spec fn sample_value(low: u8, high: u8) -> i16 {
    let v = low + 256 * high;
    if v < 32768 {
        v as i16
    } else {
        (v - 65536) as i16
    }
}

/// The samples in a run of bytes. A single byte at the end is ignored.
pub open spec fn samples_in(data: Seq<u8>) -> Seq<i16> {
    Seq::new(data.len() / 2, |i: int| sample_value(data[2 * i], data[2 * i + 1]))
}

/// `soundkit::audio_bytes::s16le_to_i16`. It reads each two bytes as one
/// little-endian signed sample and ignores a single byte at the end.
#[verifier::external_body]
fn s16le_to_i16(data: &[u8]) -> (r: Vec<i16>)
    ensures
        r@ == samples_in(data@),
{
    soundkit::audio_bytes::s16le_to_i16(data)
}

/// Why a recording cannot be used. `S` is a text.
#[derive(Debug)]
pub enum SourceError<S> {
    /// The samples have this many bits.
    UnsupportedBitDepth(u8),
    /// The decoder failed.
    DecodeFailed(S),
    /// Nothing was decoded.
    NoAudio,
}

impl SourceError<String> {
    /// This error with its text as a sequence.
    pub open spec fn model(self) -> SourceError<Seq<char>> {
        match self {
            SourceError::UnsupportedBitDepth(bits) => SourceError::UnsupportedBitDepth(bits),
            SourceError::DecodeFailed(e) => SourceError::DecodeFailed(e@),
            SourceError::NoAudio => SourceError::NoAudio,
        }
    }

    /// The text of this error for the file at `path`.
    pub fn message(&self, path: &str) -> (r: String)
        ensures
            r@ == path@ + (match self.model() {
                SourceError::UnsupportedBitDepth(bits) => ": unsupported bit depth "@
                    + decimal_text(bits as nat),
                SourceError::DecodeFailed(e) => ": decode error: "@ + e,
                SourceError::NoAudio => ": decode produced no audio"@,
            }),
    {
        let r: String = path.to_owned();
        let r: String = match self {
            SourceError::UnsupportedBitDepth(bits) => r.concat(": unsupported bit depth ").concat(
                number_text(*bits as u64).as_str(),
            ),
            SourceError::DecodeFailed(e) => r.concat(": decode error: ").concat(e.as_str()),
            SourceError::NoAudio => r.concat(": decode produced no audio"),
        };
        assert(r@ =~= path@ + (match self.model() {
            SourceError::UnsupportedBitDepth(bits) => ": unsupported bit depth "@ + decimal_text(
                bits as nat,
            ),
            SourceError::DecodeFailed(e) => ": decode error: "@ + e,
            SourceError::NoAudio => ": decode produced no audio"@,
        }));
        r
    }
}

/// Collects the decoded audio of a recording.
#[derive(Debug)]
pub struct SourceCollector {
    data: Vec<u8>,
}

impl View for SourceCollector {
    type V = Seq<u8>;

    closed spec fn view(&self) -> Seq<u8> {
        self.data@
    }
}

/// What is wrong with an item that a decoder handed out, if anything.
pub open spec fn item_error(item: Result<AudioChunk, String>) -> Option<SourceError<Seq<char>>> {
    match item {
        Ok(chunk) => if chunk.bits_per_sample == SOURCE_BITS {
            None
        } else {
            Some(SourceError::UnsupportedBitDepth(chunk.bits_per_sample))
        },
        Err(e) => Some(SourceError::DecodeFailed(e@)),
    }
}

impl SourceCollector {
    /// Starts without any audio.
    pub fn new() -> (r: SourceCollector)
        ensures
            r@ == Seq::<u8>::empty(),
    {
        SourceCollector { data: Vec::new() }
    }

    /// Takes an item that the decoder handed out.
    pub fn accept(&mut self, item: Result<AudioChunk, String>) -> (r: Result<
        (),
        SourceError<String>,
    >)
        ensures
            match r {
                Ok(_) => item_error(item) is None && final(self)@ == old(self)@
                    + item->Ok_0.data@,
                Err(e) => item_error(item) == Some(e.model()) && final(self)@ == old(self)@,
            },
    {
        match item {
            Ok(chunk) => {
                if chunk.bits_per_sample != SOURCE_BITS {
                    return Err(SourceError::UnsupportedBitDepth(chunk.bits_per_sample));
                }
                self.data.extend_from_slice(chunk.data.as_slice());
                assert(self.data@ =~= old(self).data@ + chunk.data@);
                Ok(())
            },
            Err(e) => Err(SourceError::DecodeFailed(e)),
        }
    }

    /// The recording, once the decoder has finished.
    pub fn finish(self, name: String) -> (r: Result<SourceTrack, SourceError<String>>)
        ensures
            match r {
                Ok(track) => self@.len() > 0 && track.name == name && track.pcm@ == samples_in(
                    self@,
                ),
                Err(e) => self@.len() == 0 && e is NoAudio,
            },
    {
        if self.data.is_empty() {
            return Err(SourceError::NoAudio);
        }
        Ok(SourceTrack { name, pcm: s16le_to_i16(self.data.as_slice()) })
    }
}

/// What the items of a decoder come to: the samples of all chunks in order, or
/// the first thing that is wrong.
pub open spec fn collected(items: Seq<Result<AudioChunk, String>>) -> Result<
    Seq<u8>,
    SourceError<Seq<char>>,
>
    decreases items.len(),
{
    if items.len() == 0 {
        Ok(seq![])
    } else {
        match collected(items.drop_last()) {
            Err(e) => Err(e),
            Ok(data) => match item_error(items.last()) {
                Some(e) => Err(e),
                None => Ok(data + items.last()->Ok_0.data@),
            },
        }
    }
}

/// Makes a recording of all the items that a decoder handed out, in order.
pub fn decode_source_track(items: Vec<Result<AudioChunk, String>>, name: String) -> (r: Result<
    SourceTrack,
    SourceError<String>,
>)
    ensures
        match collected(items@) {
            Err(e) => r is Err && r->Err_0.model() == e,
            Ok(data) => if data.len() == 0 {
                r is Err && r->Err_0 is NoAudio
            } else {
                r matches Ok(track) && track.name == name && track.pcm@ == samples_in(data)
            },
        },
{
    let ghost all = items@;
    let mut collector: SourceCollector = SourceCollector::new();
    assert(all.take(0) =~= seq![]);
    for item in it: items.into_iter()
        invariant
            it.seq() == all,
            collected(all.take(it.index())) == Ok::<Seq<u8>, SourceError<Seq<char>>>(collector@),
    {
        let ghost k = it.index();
        assert(all.take(k + 1).drop_last() =~= all.take(k));
        assert(all.take(k + 1).last() == item);
        match collector.accept(item) {
            Ok(_) => {},
            Err(e) => {
                proof {
                    lemma_collected_error(all, k + 1);
                }
                return Err(e);
            },
        }
    }
    assert(all.take(all.len() as int) =~= all);
    collector.finish(name)
}

/// The first thing that is wrong decides.
proof fn lemma_collected_error(items: Seq<Result<AudioChunk, String>>, k: int)
    requires
        0 <= k <= items.len(),
        collected(items.take(k)) is Err,
    ensures
        collected(items) == collected(items.take(k)),
    decreases items.len(),
{
    if k == items.len() {
        assert(items.take(k) =~= items);
    } else {
        assert(items.drop_last().take(k) =~= items.take(k));
        lemma_collected_error(items.drop_last(), k);
    }
}

// ---------------------------------------------------------------------------
// Comparing recordings
// ---------------------------------------------------------------------------

/// How far two recordings are apart, over the samples that both have.
#[derive(Debug, Clone, Copy, PartialEq, Eq, Structural)]
pub struct PcmComparison {
    /// How many samples were compared.
    pub sample_count: usize,
    /// The length of the longer recording.
    pub max_len: usize,
    /// The sum of the squared differences.
    pub squared_error: u128,
    /// The sum of the absolute differences.
    pub absolute_error: u128,
    /// The sum of the squared samples of the reference.
    pub signal_energy: u128,
    /// The greatest absolute difference.
    pub max_abs: i16,
}

/// The smaller of two lengths.
pub open spec fn common_len(a: Seq<i16>, b: Seq<i16>) -> nat {
    if a.len() < b.len() {
        a.len()
    } else {
        b.len()
    }
}

/// The absolute value.
pub open spec fn magnitude(x: int) -> nat {
    if x < 0 {
        (-x) as nat
    } else {
        x as nat
    }
}

/// The sum of the squared differences of the first `n` samples.
pub open spec fn squared_error(a: Seq<i16>, b: Seq<i16>, n: nat) -> nat
    decreases n,
{
    if n == 0 {
        0
    } else {
        let d = magnitude(a[n - 1] - b[n - 1]);
        squared_error(a, b, (n - 1) as nat) + d * d
    }
}

/// The sum of the absolute differences of the first `n` samples.
pub open spec fn absolute_error(a: Seq<i16>, b: Seq<i16>, n: nat) -> nat
    decreases n,
{
    if n == 0 {
        0
    } else {
        absolute_error(a, b, (n - 1) as nat) + magnitude(a[n - 1] - b[n - 1])
    }
}

/// The sum of the squares of the first `n` samples.
pub open spec fn signal_energy(a: Seq<i16>, n: nat) -> nat
    decreases n,
{
    if n == 0 {
        0
    } else {
        let v = magnitude(a[n - 1] as int);
        signal_energy(a, (n - 1) as nat) + v * v
    }
}

/// The greatest absolute difference of the first `n` samples.
pub open spec fn peak_error(a: Seq<i16>, b: Seq<i16>, n: nat) -> nat
    decreases n,
{
    if n == 0 {
        0
    } else {
        let before = peak_error(a, b, (n - 1) as nat);
        let d = magnitude(a[n - 1] - b[n - 1]);
        if d > before {
            d
        } else {
            before
        }
    }
}

/// No difference of two samples is too great for a 16-bit number.
pub open spec fn errors_fit(a: Seq<i16>, b: Seq<i16>) -> bool {
    forall|i: int| 0 <= i < common_len(a, b) ==> magnitude(#[trigger] a[i] - b[i]) <= i16::MAX
}

/// Whether all differences of two recordings fit into a 16-bit number.
pub fn differences_fit(reference: &[i16], decoded: &[i16]) -> (r: bool)
    ensures
        r == errors_fit(reference@, decoded@),
{
    let n: usize = if reference.len() < decoded.len() {
        reference.len()
    } else {
        decoded.len()
    };
    let mut i: usize = 0;
    while i < n
        invariant
            i <= n,
            n == common_len(reference@, decoded@),
            forall|j: int|
                0 <= j < i ==> magnitude(#[trigger] reference@[j] - decoded@[j]) <= i16::MAX,
        decreases n - i,
    {
        let d: i32 = reference[i] as i32 - decoded[i] as i32;
        if d > 32767 || d < -32767 {
            assert(magnitude(reference@[i as int] - decoded@[i as int]) > i16::MAX);
            return false;
        }
        i = i + 1;
    }
    true
}

/// The figures of a comparison.
pub open spec fn is_comparison(c: PcmComparison, a: Seq<i16>, b: Seq<i16>) -> bool {
    let n = common_len(a, b);
    &&& c.sample_count == n
    &&& c.max_len == (if a.len() < b.len() {
        b.len()
    } else {
        a.len()
    })
    &&& c.squared_error == squared_error(a, b, n)
    &&& c.absolute_error == absolute_error(a, b, n)
    &&& c.signal_energy == signal_energy(a, n)
    &&& c.max_abs == peak_error(a, b, n)
}

/// Compares a decoded recording with its reference, sample by sample. There is
/// nothing to compare where one of them is empty.
pub fn compare_pcm(reference: &[i16], decoded: &[i16]) -> (r: Option<PcmComparison>)
    requires
        errors_fit(reference@, decoded@),
    ensures
        match r {
            Some(c) => common_len(reference@, decoded@) > 0 && is_comparison(
                c,
                reference@,
                decoded@,
            ),
            None => common_len(reference@, decoded@) == 0,
        },
{
    let (n, max_len): (usize, usize) = if reference.len() < decoded.len() {
        (reference.len(), decoded.len())
    } else {
        (decoded.len(), reference.len())
    };
    if n == 0 {
        return None;
    }
    let mut squared: u128 = 0;
    let mut absolute: u128 = 0;
    let mut energy: u128 = 0;
    let mut peak: i16 = 0;
    let mut i: usize = 0;
    while i < n
        invariant
            i <= n,
            n == common_len(reference@, decoded@),
            errors_fit(reference@, decoded@),
            squared == squared_error(reference@, decoded@, i as nat),
            absolute == absolute_error(reference@, decoded@, i as nat),
            energy == signal_energy(reference@, i as nat),
            peak == peak_error(reference@, decoded@, i as nat),
            squared <= i * 0x4000_0000,
            absolute <= i * 0x4000_0000,
            energy <= i * 0x4000_0000,
        decreases n - i,
    {
        let a: i32 = reference[i] as i32;
        let d: i32 = a - decoded[i] as i32;
        assert(magnitude(reference@[i as int] - decoded@[i as int]) <= i16::MAX);
        let size: u32 = if d < 0 {
            (-d) as u32
        } else {
            d as u32
        };
        let level: u32 = if a < 0 {
            (-a) as u32
        } else {
            a as u32
        };
        assert(size * size <= 32767 * 32767) by (nonlinear_arith)
            requires
                size <= 32767,
        ;
        assert(level * level <= 32768 * 32768) by (nonlinear_arith)
            requires
                level <= 32768,
        ;
        squared = squared + (size * size) as u128;
        absolute = absolute + size as u128;
        energy = energy + (level * level) as u128;
        if size > peak as u32 {
            peak = size as i16;
        }
        i = i + 1;
    }
    Some(
        PcmComparison {
            sample_count: n,
            max_len,
            squared_error: squared,
            absolute_error: absolute,
            signal_energy: energy,
            max_abs: peak,
        },
    )
}

/// Two recordings that agree where both have samples are no distance apart, and
/// only those.
pub proof fn law_comparison_of_equals(a: Seq<i16>, b: Seq<i16>, n: nat)
    requires
        n <= common_len(a, b),
    ensures
        peak_error(a, b, n) == 0 <==> a.take(n as int) == b.take(n as int),
        squared_error(a, b, n) == 0 <==> a.take(n as int) == b.take(n as int),
        absolute_error(a, b, n) == 0 <==> a.take(n as int) == b.take(n as int),
    decreases n,
{
    if n == 0 {
        assert(a.take(0) =~= b.take(0));
    } else {
        let m = (n - 1) as nat;
        law_comparison_of_equals(a, b, m);
        let d = magnitude(a[n - 1] - b[n - 1]);
        assert(d * d == 0 <==> d == 0) by (nonlinear_arith);
        assert(a.take(n as int) == b.take(n as int) <==> (a.take(m as int) == b.take(m as int) && a[n
            - 1] == b[n - 1])) by {
            assert(a.take(n as int) =~= a.take(m as int).push(a[n - 1]));
            assert(b.take(n as int) =~= b.take(m as int).push(b[n - 1]));
            assert(a.take(n as int).last() == a[n - 1]);
            assert(b.take(n as int).last() == b[n - 1]);
            assert(a.take(n as int).drop_last() =~= a.take(m as int));
            assert(b.take(n as int).drop_last() =~= b.take(m as int));
        }
    }
}

/// It does not matter which of two recordings is the reference, as far as their
/// differences go.
pub proof fn law_comparison_symmetric(a: Seq<i16>, b: Seq<i16>, n: nat)
    ensures
        squared_error(a, b, n) == squared_error(b, a, n),
        absolute_error(a, b, n) == absolute_error(b, a, n),
        peak_error(a, b, n) == peak_error(b, a, n),
    decreases n,
{
    if n > 0 {
        law_comparison_symmetric(a, b, (n - 1) as nat);
    }
}

/// The greatest difference is reached by some sample and exceeded by none; the
/// mean difference is at most the greatest one.
pub proof fn law_peak_bounds(a: Seq<i16>, b: Seq<i16>, n: nat)
    ensures
        forall|i: int|
            0 <= i < n ==> magnitude(#[trigger] a[i] - b[i]) <= peak_error(a, b, n),
        n > 0 ==> exists|i: int|
            0 <= i < n && magnitude(#[trigger] a[i] - b[i]) == peak_error(a, b, n),
        absolute_error(a, b, n) <= n * peak_error(a, b, n),
    decreases n,
{
    if n > 0 {
        let m = (n - 1) as nat;
        law_peak_bounds(a, b, m);
        let before = peak_error(a, b, m);
        let now = peak_error(a, b, n);
        assert(m * before <= m * now) by (nonlinear_arith)
            requires
                before <= now,
        ;
        assert(n * now == m * now + now) by (nonlinear_arith)
            requires
                n == m + 1,
        ;
        assert(magnitude(a[n - 1] - b[n - 1]) <= now);
        if now == before && m > 0 {
            let i = choose|i: int| 0 <= i < m && magnitude(#[trigger] a[i] - b[i]) == before;
            assert(magnitude(a[i] - b[i]) == now);
        } else if m == 0 {
            assert(magnitude(a[0] - b[0]) == now);
        } else {
            assert(magnitude(a[n - 1] - b[n - 1]) == now);
        }
    }
}

// ---------------------------------------------------------------------------
// Running a codec
// ---------------------------------------------------------------------------

/// The samples per channel of a frame at this sample rate.
pub fn frame_size(sample_rate: u32) -> (r: usize)
    ensures
        r == (sample_rate / 1000) * FRAME_MS,
{
    (sample_rate as usize / 1000) * FRAME_MS
}

/// Encodes a recording with `soundkit_opus`: its frames are handed to a fresh
/// encoder in order, and the packets, one for every frame, make up the result; the
/// first refusal is returned instead. The encoder comes back beside the result,
/// with the record of its calls.
pub fn encode_with_soundkit(
    track: &SourceTrack,
    sample_rate: u32,
    channels: usize,
    frame_size: usize,
    bitrate: u32,
) -> (r: (Result<Vec<u8>, String>, SoundkitEncoder))
    requires
        encoder_accepts(sample_rate, channels as nat, frame_size as nat, bitrate),
        frame_size > 0,
    ensures
        r.1.wf(),
        r.1@.settings == settings_for(sample_rate, channels, frame_size, bitrate),
        encode_outcome(
            r.1@.settings,
            frames_of(track.pcm@, (frame_size * channels) as nat),
            r.1@.calls,
            bytes_outcome(r.0),
        ),
        track.pcm@.len() == 0 ==> bytes_outcome(r.0) == Ok::<Seq<u8>, Seq<char>>(seq![]),
        track.pcm@.len() > 0 && sample_rate != 48000 ==> bytes_outcome(r.0) == Err::<
            Seq<u8>,
            Seq<char>,
        >("request not implemented"@),
        track.pcm@.len() > 0 && sample_rate == 48000 && !celt_frame(frame_size as nat)
            ==> bytes_outcome(r.0) == Err::<Seq<u8>, Seq<char>>("invalid argument"@),
        sample_rate == 48000 && celt_frame(frame_size as nat) ==> (r.0 matches Err(e) ==> e@
            == coder_error()),
        r.0 matches Ok(stream) ==> {
            let (packets, broken) = split_packets(stream@);
            &&& !broken
            &&& packets == replies_of(r.1@.calls)
            &&& packets.len() == frame_count(track.pcm@.len(), (frame_size * channels) as nat)
            &&& forall|i: int|
                0 <= i < packets.len() ==> (#[trigger] packets[i]).len()
                    == r.1@.settings.packet_size()
        },
{
    let mut session: SoundkitEncoder = SoundkitEncoder::new(
        sample_rate,
        channels,
        frame_size,
        bitrate,
    ).unwrap();
    let frame_samples: usize = frame_size * channels;
    let r: Result<Vec<u8>, String> = session.encode_track(track.pcm.as_slice(), frame_samples);
    proof {
        let settings = session@.settings;
        let samples = (frame_size * channels) as nat;
        let frames = frames_of(track.pcm@, samples);
        let calls = session@.calls;
        assert(frame_samples as nat == samples);
        assert(calls.skip(0) =~= calls);
        law_encoded_recording(settings, frames, calls, bytes_outcome(r));
        law_frames_cover(track.pcm@, samples);
        if track.pcm@.len() == 0 {
            assert(frames.len() == 0) by (nonlinear_arith)
                requires
                    frames.len() * samples < samples,
            ;
            assert(replies_of(calls) =~= seq![]);
        } else {
            assert(frames.len() > 0) by (nonlinear_arith)
                requires
                    frames.len() * samples > 0,
            ;
            assert(frames[0].len() == samples);
            if r is Err {
                let last = calls.len() - 1;
                assert(call_fits(settings, calls[last]));
                assert(calls[last].frame == frames[last]);
            }
            assert((settings.frame_size * settings.channels) as nat == samples);
        }
    }
    (r, session)
}

/// Decodes a packet stream with `soundkit_opus`: its packets are handed to a
/// fresh decoder in order, and the samples make up the result; the first refusal,
/// or that the stream breaks off, is returned instead.
pub fn decode_with_soundkit(packets: &[u8], sample_rate: u32, channels: usize) -> (r: Result<
    Vec<i16>,
    String,
>)
    ensures
        samples_outcome(r) == (match decoder_refusal(sample_rate as nat, channels as nat) {
            Some(e) => Err(e),
            None => decoded_stream(
                DecoderModel {
                    sample_rate: sample_rate as nat,
                    channels: channels as nat,
                    given: seq![],
                },
                packets@,
            ),
        }),
{
    match SoundkitDecoder::new(sample_rate as usize, channels) {
        Ok(session) => {
            let mut session: SoundkitDecoder = session;
            session.decode_stream(packets)
        },
        Err(e) => Err(e),
    }
}

/// What encoding a recording and decoding it again came to.
#[derive(Debug)]
pub struct EngineResult {
    /// The name of the recording.
    pub track: String,
    pub backend: Backend,
    pub encode_nanos: u64,
    pub decode_nanos: u64,
    pub encoded_bytes: usize,
    pub decoded_bytes: usize,
    /// How many samples were encoded.
    pub source_samples: usize,
    pub quality: Option<PcmComparison>,
    /// How many samples more came out than went in.
    pub output_len_match: isize,
    pub encode_error: Option<String>,
    pub decode_error: Option<String>,
}

impl EngineResult {
    /// Both encoding and decoding worked.
    pub open spec fn succeeded(self) -> bool {
        self.encode_error is None && self.decode_error is None
    }

    /// Whether both encoding and decoding worked.
    pub fn is_success(&self) -> (r: bool)
        ensures
            r == self.succeeded(),
    {
        self.encode_error.is_none() && self.decode_error.is_none()
    }
}

/// The bytes that so many 16-bit samples take, as far as the number can say.
pub open spec fn byte_count(samples: nat) -> usize {
    if samples * 2 <= usize::MAX {
        (samples * 2) as usize
    } else {
        usize::MAX
    }
}

/// The bytes that so many 16-bit samples take, as far as the number can say.
pub fn pcm_bytes(samples: usize) -> (r: usize)
    ensures
        r == byte_count(samples as nat),
{
    match samples.checked_mul(2) {
        Some(n) => n,
        None => usize::MAX,
    }
}

/// The result of a run whose encoding failed.
pub fn encode_failed(backend: Backend, track: &SourceTrack, error: String, encode_nanos: u64) -> (r:
    EngineResult)
    ensures
        r.track@ == track.name@,
        r.backend == backend,
        r.encode_nanos == encode_nanos,
        r.decode_nanos == 0,
        r.encoded_bytes == 0,
        r.decoded_bytes == 0,
        r.source_samples == 0,
        r.quality is None,
        r.output_len_match == 0,
        r.encode_error == Some(error),
        r.decode_error is None,
{
    EngineResult {
        track: track.name.as_str().to_owned(),
        backend,
        encode_nanos,
        decode_nanos: 0,
        encoded_bytes: 0,
        decoded_bytes: 0,
        source_samples: 0,
        quality: None,
        output_len_match: 0,
        encode_error: Some(error),
        decode_error: None,
    }
}

/// The result of a run whose encoding worked: what was decoded is compared with
/// the recording. Where decoding failed, nothing was decoded.
pub fn run_engine(
    backend: Backend,
    track: &SourceTrack,
    encoded: &Vec<u8>,
    decoded: Result<Vec<i16>, String>,
    encode_nanos: u64,
    decode_nanos: u64,
) -> (r: EngineResult)
    requires
        track.pcm@.len() <= isize::MAX,
        decoded matches Ok(samples) ==> samples@.len() <= isize::MAX && errors_fit(
            track.pcm@,
            samples@,
        ),
    ensures
        r.track@ == track.name@,
        r.backend == backend,
        r.encode_nanos == encode_nanos,
        r.decode_nanos == decode_nanos,
        r.encoded_bytes == encoded@.len(),
        r.source_samples == track.pcm@.len(),
        r.encode_error is None,
        match decoded {
            Ok(samples) => {
                &&& r.decode_error is None
                &&& r.decoded_bytes == byte_count(samples@.len())
                &&& r.output_len_match == samples@.len() - track.pcm@.len()
                &&& match r.quality {
                    Some(c) => common_len(track.pcm@, samples@) > 0 && is_comparison(
                        c,
                        track.pcm@,
                        samples@,
                    ),
                    None => common_len(track.pcm@, samples@) == 0,
                }
            },
            Err(e) => {
                &&& r.decode_error == Some(e)
                &&& r.decoded_bytes == 0
                &&& r.output_len_match == -track.pcm@.len()
                &&& r.quality is None
            },
        },
{
    let (samples, decode_error): (Vec<i16>, Option<String>) = match decoded {
        Ok(samples) => (samples, None),
        Err(e) => (Vec::new(), Some(e)),
    };
    let quality: Option<PcmComparison> = if decode_error.is_none() {
        compare_pcm(track.pcm.as_slice(), samples.as_slice())
    } else {
        None
    };
    EngineResult {
        track: track.name.as_str().to_owned(),
        backend,
        encode_nanos,
        decode_nanos,
        encoded_bytes: encoded.len(),
        decoded_bytes: pcm_bytes(samples.len()),
        source_samples: track.pcm.len(),
        quality,
        output_len_match: samples.len() as isize - track.pcm.len() as isize,
        encode_error: None,
        decode_error,
    }
}

// ---------------------------------------------------------------------------
// Summary
// ---------------------------------------------------------------------------

/// The totals of the runs that worked.
#[derive(Debug, Clone, Copy, PartialEq, Eq, Structural)]
pub struct Totals {
    /// How many runs worked.
    pub good: usize,
    pub encode_nanos: u128,
    pub decode_nanos: u128,
    pub encoded_bytes: u128,
    pub decoded_bytes: u128,
}

/// The sum of a figure over the runs that worked.
pub open spec fn total(results: Seq<EngineResult>, figure: spec_fn(EngineResult) -> nat) -> nat
    decreases results.len(),
{
    if results.len() == 0 {
        0
    } else {
        total(results.drop_last(), figure) + (if results.last().succeeded() {
            figure(results.last())
        } else {
            0
        })
    }
}

/// The totals of these runs.
pub open spec fn are_totals(t: Totals, results: Seq<EngineResult>) -> bool {
    &&& t.good == total(results, |r: EngineResult| 1)
    &&& t.encode_nanos == total(results, |r: EngineResult| r.encode_nanos as nat)
    &&& t.decode_nanos == total(results, |r: EngineResult| r.decode_nanos as nat)
    &&& t.encoded_bytes == total(results, |r: EngineResult| r.encoded_bytes as nat)
    &&& t.decoded_bytes == total(results, |r: EngineResult| r.decoded_bytes as nat)
}

/// What there is to say about the runs of a codec.
#[derive(Debug, Clone, Copy, PartialEq, Eq, Structural)]
pub enum Summary {
    /// There were none.
    Nothing,
    /// None of them worked.
    NoSuccess,
    /// The totals of those that worked.
    Totals(Totals),
}

/// Sums up the runs of a codec.
pub fn summarize(results: &Vec<EngineResult>) -> (r: Summary)
    ensures
        match r {
            Summary::Nothing => results@.len() == 0,
            Summary::NoSuccess => results@.len() > 0 && forall|i: int|
                0 <= i < results@.len() ==> !(#[trigger] results@[i]).succeeded(),
            Summary::Totals(t) => t.good > 0 && are_totals(t, results@),
        },
{
    if results.len() == 0 {
        return Summary::Nothing;
    }
    let mut t: Totals = Totals {
        good: 0,
        encode_nanos: 0,
        decode_nanos: 0,
        encoded_bytes: 0,
        decoded_bytes: 0,
    };
    let mut i: usize = 0;
    assert(results@.take(0) =~= seq![]);
    while i < results.len()
        invariant
            i <= results@.len(),
            are_totals(t, results@.take(i as int)),
            t.good <= i,
            t.encode_nanos <= i * 0xffff_ffff_ffff_ffff,
            t.decode_nanos <= i * 0xffff_ffff_ffff_ffff,
            t.encoded_bytes <= i * 0xffff_ffff_ffff_ffff,
            t.decoded_bytes <= i * 0xffff_ffff_ffff_ffff,
            t.good == 0 ==> forall|j: int|
                0 <= j < i ==> !(#[trigger] results@[j]).succeeded(),
        decreases results@.len() - i,
    {
        let result: &EngineResult = &results[i];
        assert(results@.take(i + 1).drop_last() =~= results@.take(i as int));
        assert(results@.take(i + 1).last() == result);
        if result.is_success() {
            t.good = t.good + 1;
            t.encode_nanos = t.encode_nanos + result.encode_nanos as u128;
            t.decode_nanos = t.decode_nanos + result.decode_nanos as u128;
            t.encoded_bytes = t.encoded_bytes + result.encoded_bytes as u128;
            t.decoded_bytes = t.decoded_bytes + result.decoded_bytes as u128;
        }
        i = i + 1;
    }
    assert(results@.take(results@.len() as int) =~= results@);
    if t.good == 0 {
        Summary::NoSuccess
    } else {
        Summary::Totals(t)
    }
}

/// Runs that failed do not count: a summary is the same without them.
pub proof fn law_failures_do_not_count(
    results: Seq<EngineResult>,
    figure: spec_fn(EngineResult) -> nat,
)
    ensures
        total(results, figure) == total(
            results.filter(|r: EngineResult| r.succeeded()),
            figure,
        ),
    decreases results.len(),
{
    reveal(Seq::filter);
    let keep = |r: EngineResult| r.succeeded();
    if results.len() > 0 {
        law_failures_do_not_count(results.drop_last(), figure);
        if results.last().succeeded() {
            let kept = results.drop_last().filter(keep);
            assert(results.filter(keep) =~= kept.push(results.last()));
            assert(kept.push(results.last()).drop_last() =~= kept);
        }
    }
}

/// The bytes of all recordings together.
pub open spec fn source_total(tracks: Seq<SourceTrack>) -> nat
    decreases tracks.len(),
{
    if tracks.len() == 0 {
        0
    } else {
        source_total(tracks.drop_last()) + byte_count(tracks.last().pcm@.len()) as nat
    }
}

/// The bytes of all recordings together.
pub fn source_bytes(tracks: &Vec<SourceTrack>) -> (r: u128)
    ensures
        r == source_total(tracks@),
{
    let mut sum: u128 = 0;
    let mut i: usize = 0;
    assert(tracks@.take(0) =~= seq![]);
    while i < tracks.len()
        invariant
            i <= tracks@.len(),
            sum == source_total(tracks@.take(i as int)),
            sum <= i * 0xffff_ffff_ffff_ffff,
        decreases tracks@.len() - i,
    {
        assert(tracks@.take(i + 1).drop_last() =~= tracks@.take(i as int));
        sum = sum + pcm_bytes(tracks[i].pcm.len()) as u128;
        i = i + 1;
    }
    assert(tracks@.take(tracks@.len() as int) =~= tracks@);
    sum
}

// ---------------------------------------------------------------------------
// What holds of the benchmark
// ---------------------------------------------------------------------------

/// The settings that hold where nothing is given: 48 kHz, two channels and 96000 bits
/// per second.
pub proof fn law_default_settings()
    ensures
        default_config().sample_rate == 48000,
        default_config().channels == 2,
        default_config().bitrate == 96000,
{
}

/// How a command line is read, argument by argument. A request for help ends the
/// reading. The option for the directory takes the argument behind it, whatever that
/// is, and ends the reading where there is none.
pub proof fn law_reading_arguments(args: Seq<Seq<char>>, i: int, config: Config<Seq<char>>)
    requires
        0 <= i,
    ensures
        i >= args.len() ==> request_of(args, i, config) == (
            Seq::<ArgNotice<Seq<char>>>::empty(),
            Request::Run(config),
        ),
        i < args.len() ==> {
            let arg = args[i];
            let now = request_of(args, i, config);
            &&& arg == "-h"@ || arg == "--help"@ ==> now == (
                Seq::<ArgNotice<Seq<char>>>::empty(),
                Request::<Seq<char>>::Help,
            )
            &&& arg == "--source-dir"@ ==> now == (if i + 1 < args.len() {
                request_of(args, i + 2, Config { source_dir: args[i + 1], ..config })
            } else {
                (Seq::<ArgNotice<Seq<char>>>::empty(), Request::<Seq<char>>::MissingSourceDir)
            })
            &&& arg.len() < 2 || arg[0] != '-' ==> now == request_of(args, i + 1, config)
            &&& arg.len() >= 2 && arg[0] == '-' && arg[1] == '-' && arg != "--help"@ && arg
                != "--source-dir"@ && arg != "--sample-rate"@ && arg != "--channels"@ && arg
                != "--bitrate"@ ==> {
                let rest = request_of(args, i + 1, config);
                now == (seq![ArgNotice::Unknown(arg)] + rest.0, rest.1)
            }
            &&& arg.len() >= 2 && arg[0] == '-' && arg[1] != '-' && arg != "-h"@ ==> now
                == request_of(args, i + 1, config)
        },
{
    reveal_strlit("-h");
    reveal_strlit("--help");
    reveal_strlit("--source-dir");
    reveal_strlit("--sample-rate");
    reveal_strlit("--channels");
    reveal_strlit("--bitrate");
    if i < args.len() {
        let arg = args[i];
        assert("--source-dir"@.len() == 12 && "--help"@.len() == 6 && "-h"@.len() == 2);
        assert("-h"@[0] == '-' && "-h"@[1] == 'h');
        assert("--help"@[0] == '-' && "--help"@[1] == '-');
        assert("--source-dir"@[0] == '-' && "--source-dir"@[1] == '-');
        assert("--sample-rate"@[0] == '-' && "--sample-rate"@[1] == '-');
        assert("--channels"@[0] == '-' && "--channels"@[1] == '-');
        assert("--bitrate"@[0] == '-' && "--bitrate"@[1] == '-');
    }
}

/// How an option that takes a number is read: the number behind it becomes the setting
/// of that name and no other; something else in its place is reported, and the setting
/// is the default; where nothing stands behind it, that is reported and the settings
/// hold as they are. Channels are at most 255, the others any number of 32 bits.
pub proof fn law_reading_numbers(args: Seq<Seq<char>>, i: int, config: Config<Seq<char>>)
    requires
        0 <= i < args.len(),
    ensures
        args[i] == "--sample-rate"@ ==> request_of(args, i, config) == (if i + 1 >= args.len() {
            (
                seq![ArgNotice::<Seq<char>>::MissingValue(NumberOption::SampleRate)],
                Request::Run(config),
            )
        } else {
            match parse_unsigned(args[i + 1], 4294967295) {
                Some(v) => request_of(args, i + 2, Config { sample_rate: v as u32, ..config }),
                None => {
                    let rest = request_of(args, i + 2, Config { sample_rate: 48000, ..config });
                    (
                        seq![ArgNotice::InvalidValue(NumberOption::SampleRate, args[i + 1])]
                            + rest.0,
                        rest.1,
                    )
                },
            }
        }),
        args[i] == "--channels"@ ==> request_of(args, i, config) == (if i + 1 >= args.len() {
            (
                seq![ArgNotice::<Seq<char>>::MissingValue(NumberOption::Channels)],
                Request::Run(config),
            )
        } else {
            match parse_unsigned(args[i + 1], 255) {
                Some(v) => request_of(args, i + 2, Config { channels: v as u8, ..config }),
                None => {
                    let rest = request_of(args, i + 2, Config { channels: 2, ..config });
                    (
                        seq![ArgNotice::InvalidValue(NumberOption::Channels, args[i + 1])] + rest.0,
                        rest.1,
                    )
                },
            }
        }),
        args[i] == "--bitrate"@ ==> request_of(args, i, config) == (if i + 1 >= args.len() {
            (
                seq![ArgNotice::<Seq<char>>::MissingValue(NumberOption::Bitrate)],
                Request::Run(config),
            )
        } else {
            match parse_unsigned(args[i + 1], 4294967295) {
                Some(v) => request_of(args, i + 2, Config { bitrate: v as u32, ..config }),
                None => {
                    let rest = request_of(args, i + 2, Config { bitrate: 96000, ..config });
                    (
                        seq![ArgNotice::InvalidValue(NumberOption::Bitrate, args[i + 1])] + rest.0,
                        rest.1,
                    )
                },
            }
        }),
{
    reveal_strlit("-h");
    reveal_strlit("--help");
    reveal_strlit("--source-dir");
    reveal_strlit("--sample-rate");
    reveal_strlit("--channels");
    reveal_strlit("--bitrate");
    assert("--help"@.len() == 6 && "-h"@.len() == 2 && "--source-dir"@.len() == 12);
    assert("--sample-rate"@.len() == 13 && "--channels"@.len() == 10 && "--bitrate"@.len() == 9);
}

/// A recording is made of the audio of every chunk, unchanged and in order, as long as
/// all chunks have 16 bits per sample; the first chunk with another depth, or the first
/// failure of the decoder, decides, whatever follows.
pub proof fn law_collecting(items: Seq<Result<AudioChunk, String>>, item: Result<AudioChunk, String>)
    ensures
        collected(Seq::<Result<AudioChunk, String>>::empty()) == Ok::<
            Seq<u8>,
            SourceError<Seq<char>>,
        >(seq![]),
        collected(items.push(item)) == (match (collected(items), item) {
            (Err(e), _) => Err(e),
            (Ok(data), Ok(chunk)) => if chunk.bits_per_sample == 16 {
                Ok(data + chunk.data@)
            } else {
                Err(SourceError::UnsupportedBitDepth(chunk.bits_per_sample))
            },
            (Ok(_), Err(e)) => Err(SourceError::DecodeFailed(e@)),
        }),
{
    assert(items.push(item).drop_last() =~= items);
}

/// Every compared sample adds its squared and its absolute difference, and the square
/// of the reference, to the sums of those before it; without samples there is nothing.
pub proof fn law_errors_add_up(a: Seq<i16>, b: Seq<i16>, n: nat)
    ensures
        squared_error(a, b, n + 1) == squared_error(a, b, n) + (a[n as int] - b[n as int]) * (
        a[n as int] - b[n as int]),
        absolute_error(a, b, n + 1) == absolute_error(a, b, n) + (if a[n as int] < b[n as int] {
            b[n as int] - a[n as int]
        } else {
            a[n as int] - b[n as int]
        }),
        signal_energy(a, n + 1) == signal_energy(a, n) + a[n as int] * a[n as int],
        squared_error(a, b, 0) == 0 && absolute_error(a, b, 0) == 0 && signal_energy(a, 0) == 0
            && peak_error(a, b, 0) == 0,
{
    let d = a[n as int] - b[n as int];
    let v = a[n as int] as int;
    assert((-d) * (-d) == d * d) by (nonlinear_arith);
    assert((-v) * (-v) == v * v) by (nonlinear_arith);
}

/// A comparison covers the samples that both recordings have, all of them, and knows
/// the length of the longer one; its figures are the errors over those samples.
pub proof fn law_comparison_figures(c: PcmComparison, a: Seq<i16>, b: Seq<i16>)
    requires
        is_comparison(c, a, b),
    ensures
        c.sample_count <= a.len() && c.sample_count <= b.len(),
        c.sample_count == a.len() || c.sample_count == b.len(),
        c.max_len >= a.len() && c.max_len >= b.len(),
        c.max_len == a.len() || c.max_len == b.len(),
        c.squared_error == squared_error(a, b, c.sample_count as nat),
        c.absolute_error == absolute_error(a, b, c.sample_count as nat),
        c.signal_energy == signal_energy(a, c.sample_count as nat),
        c.max_abs == peak_error(a, b, c.sample_count as nat),
{
}

/// A 16-bit sample takes two bytes, as far as the number can say.
pub proof fn law_sample_bytes(samples: nat)
    ensures
        samples * 2 <= usize::MAX ==> byte_count(samples) == 2 * samples,
        samples * 2 > usize::MAX ==> byte_count(samples) == usize::MAX,
{
}

/// A run adds its own figures to the totals of those before it if both its encoding
/// and its decoding worked, and nothing otherwise.
pub proof fn law_totals_add_up(
    before: Totals,
    after: Totals,
    results: Seq<EngineResult>,
    result: EngineResult,
)
    requires
        are_totals(before, results),
        are_totals(after, results.push(result)),
    ensures
        result.encode_error is None && result.decode_error is None ==> {
            &&& after.good == before.good + 1
            &&& after.encode_nanos == before.encode_nanos + result.encode_nanos
            &&& after.decode_nanos == before.decode_nanos + result.decode_nanos
            &&& after.encoded_bytes == before.encoded_bytes + result.encoded_bytes
            &&& after.decoded_bytes == before.decoded_bytes + result.decoded_bytes
        },
        result.encode_error is Some || result.decode_error is Some ==> after == before,
        results.len() == 0 ==> before == (Totals {
            good: 0,
            encode_nanos: 0,
            decode_nanos: 0,
            encoded_bytes: 0,
            decoded_bytes: 0,
        }),
{
    let all = results.push(result);
    assert(all.drop_last() =~= results);
    assert(all.last() == result);
}

/// Every recording adds two bytes for each of its samples.
pub proof fn law_source_bytes_add_up(tracks: Seq<SourceTrack>, track: SourceTrack)
    ensures
        source_total(Seq::<SourceTrack>::empty()) == 0,
        track.pcm@.len() * 2 <= usize::MAX ==> source_total(tracks.push(track)) == source_total(
            tracks,
        ) + 2 * track.pcm@.len(),
{
    assert(tracks.push(track).drop_last() =~= tracks);
}

} // verus!
