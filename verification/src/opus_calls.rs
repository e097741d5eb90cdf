//! The calls into the Opus codec of `soundkit_opus`.
//!
//! What the codec answers depends on what it was made with and on all it was given
//! before. `CodecEncoder` and `CodecDecoder` hold a codec together with a ghost
//! record of both. Only the functions of this module can write the record: each
//! makes one call of the codec, and its contract says what the call adds.

use crate::text::decimal_text;
use soundkit::audio_packet::{Decoder, Encoder};
use soundkit_opus::{OpusDecoder, OpusEncoder};
use vstd::prelude::*;

verus! {

/// The most samples per channel that one packet decodes to: 120 ms at 48 kHz.
pub const MAX_FRAME_SAMPLES: usize = 5760;

/// The longest frame, in samples per channel, that an encoder is made for.
pub const MAX_ENCODER_FRAME: usize = 96000;

/// The longest packet that an encoder makes.
pub const MAX_PACKET_BYTES: usize = 1275;

#[verifier::external_type_specification]
#[verifier::external_body]
pub struct ExOpusEncoder(OpusEncoder);

#[verifier::external_type_specification]
#[verifier::external_body]
pub struct ExOpusDecoder(OpusDecoder);

/// The sample rates of Opus.
pub open spec fn opus_rate(sample_rate: nat) -> bool {
    sample_rate == 8000 || sample_rate == 12000 || sample_rate == 16000 || sample_rate == 24000
        || sample_rate == 48000
}

// ---------------------------------------------------------------------------
// Encoder
// ---------------------------------------------------------------------------

/// What an encoder is made with. The frame size is in samples per channel.
pub struct EncoderSettings {
    pub sample_rate: u32,
    pub bits_per_sample: u32,
    pub channels: u32,
    pub frame_size: u32,
    pub bitrate: u32,
}

impl EncoderSettings {
    /// Why an encoder with these settings refuses a frame of `len` samples, if it
    /// is bound to: the frame is too short, or the encoder is made for another
    /// sample rate than 48 kHz or for a frame that CELT does not have.
    pub open spec fn refusal(self, len: nat) -> Option<Seq<char>> {
        let required = (self.frame_size * self.channels) as nat;
        if len < required {
            Some(
                "opus input too small: "@ + decimal_text(len) + " < "@ + decimal_text(required),
            )
        } else if self.sample_rate != 48000 {
            Some("request not implemented"@)
        } else if !celt_frame(self.frame_size as nat) {
            Some("invalid argument"@)
        } else {
            None
        }
    }

    /// The size of every packet: the bit rate over the length of a frame, rounded
    /// to whole bytes, but at least 3 and at most `MAX_PACKET_BYTES` bytes.
    pub open spec fn packet_size(self) -> nat {
        let bytes = (self.bitrate * self.frame_size + self.sample_rate * 4) / (self.sample_rate * 8);
        if bytes < 3 {
            3
        } else if bytes > MAX_PACKET_BYTES {
            MAX_PACKET_BYTES as nat
        } else {
            bytes as nat
        }
    }
}

/// The settings that an encoder can be made with.
pub open spec fn encoder_accepts(
    sample_rate: u32,
    channels: nat,
    frame_size: nat,
    bitrate: u32,
) -> bool {
    &&& opus_rate(sample_rate as nat)
    &&& channels == 1 || channels == 2
    &&& 500 <= bitrate <= 512000
    &&& frame_size <= MAX_ENCODER_FRAME
}

/// The frame sizes of CELT at 48 kHz.
pub open spec fn celt_frame(frame_size: nat) -> bool {
    frame_size == 120 || frame_size == 240 || frame_size == 480 || frame_size == 960
}

/// The error of an encoder whose range coder runs out of the packet's bytes.
pub open spec fn coder_error() -> Seq<char> {
    "buffer too small"@
}

/// One call of an encoder: the frame that was handed over and the answer.
pub struct EncodeCall {
    pub frame: Seq<i16>,
    pub reply: Result<Seq<u8>, Seq<char>>,
}

/// An encoder with the record of what it was made with and of its calls.
pub struct CodecEncoder {
    encoder: OpusEncoder,
    settings: Ghost<EncoderSettings>,
    calls: Ghost<Seq<EncodeCall>>,
}

impl CodecEncoder {
    /// What the encoder was made with.
    pub closed spec fn settings(self) -> EncoderSettings {
        self.settings@
    }

    /// All calls since the encoder was last started.
    pub closed spec fn calls(self) -> Seq<EncodeCall> {
        self.calls@
    }
}

/// `OpusEncoder::new`, the constructor of `soundkit`'s trait `Encoder`. It panics
/// on a sample rate, channel count or bit rate that Opus does not have, and its
/// encoder can panic on frames of more than two seconds. The encoder has the
/// settings that are passed on.
#[verifier::external_body]
pub(crate) fn make_encoder(
    sample_rate: u32,
    bits_per_sample: u32,
    channels: u32,
    frame_size: u32,
    bitrate: u32,
) -> (r: CodecEncoder)
    requires
        encoder_accepts(sample_rate, channels as nat, frame_size as nat, bitrate),
    ensures
        r.settings() == (EncoderSettings {
            sample_rate,
            bits_per_sample,
            channels,
            frame_size,
            bitrate,
        }),
        r.calls() == Seq::<EncodeCall>::empty(),
{
    CodecEncoder {
        encoder: OpusEncoder::new(sample_rate, bits_per_sample, channels, frame_size, bitrate),
        settings: Ghost(
            EncoderSettings { sample_rate, bits_per_sample, channels, frame_size, bitrate },
        ),
        calls: Ghost(Seq::empty()),
    }
}

/// `OpusEncoder::init`, of `soundkit`'s trait `Encoder`. It starts the encoder
/// afresh with the settings it was made with, which succeeds.
#[verifier::external_body]
pub(crate) fn init_encoder(encoder: &mut CodecEncoder) -> (r: Result<(), String>)
    ensures
        r is Ok,
        final(encoder).settings() == old(encoder).settings(),
        final(encoder).calls() == Seq::<EncodeCall>::empty(),
{
    encoder.encoder.init()
}

/// `OpusEncoder::encode_i16`, of `soundkit`'s trait `Encoder`, with room for any
/// packet. The packet is written to the beginning of the buffer, whose rest stays
/// as it was; a failure leaves all of it as it was. A frame that is too short, a
/// sample rate other than 48 kHz and a frame size that CELT does not have are
/// refused, with the texts of `refusal`. Any other frame is encoded, unless its
/// range coder runs out of the packet's bytes, which is an error with the text
/// `coder_error`. The bit rate is constant, so that every packet has the size that
/// the settings give. The record takes the frame and the answer. The bytes of a
/// packet, and whether the range coder runs out, depend on the frames before and
/// on the instructions that the processor offers, and are not said.
#[verifier::external_body]
pub(crate) fn encode_i16(encoder: &mut CodecEncoder, input: &[i16], output: &mut Vec<u8>) -> (r:
    Result<usize, String>)
    requires
        old(output)@.len() >= MAX_PACKET_BYTES,
    ensures
        final(output)@.len() == old(output)@.len(),
        final(encoder).settings() == old(encoder).settings(),
        match r {
            Ok(n) => {
                &&& n <= old(output)@.len()
                &&& n == old(encoder).settings().packet_size()
                &&& final(output)@.skip(n as int) == old(output)@.skip(n as int)
                &&& final(encoder).calls() == old(encoder).calls().push(
                    EncodeCall { frame: input@, reply: Ok(final(output)@.take(n as int)) },
                )
            },
            Err(e) => {
                &&& final(output)@ == old(output)@
                &&& final(encoder).calls() == old(encoder).calls().push(
                    EncodeCall { frame: input@, reply: Err(e@) },
                )
            },
        },
        match old(encoder).settings().refusal(input@.len()) {
            Some(e) => r is Err && r->Err_0@ == e,
            None => r matches Err(e) ==> e@ == coder_error(),
        },
{
    encoder.encoder.encode_i16(input, output.as_mut_slice())
}

// ---------------------------------------------------------------------------
// Decoder
// ---------------------------------------------------------------------------

/// Why no decoder can be made with these settings, if so.
pub open spec fn decoder_refusal(sample_rate: nat, channels: nat) -> Option<Seq<char>> {
    if !opus_rate(sample_rate) {
        Some(
            "unsupported Opus decode sample rate "@ + decimal_text(sample_rate)
                + " Hz; expected 8000, 12000, 16000, 24000, or 48000 Hz"@,
        )
    } else if channels == 0 {
        Some("Opus decode channel count must be 1 or 2"@)
    } else if channels > 2 {
        Some(
            "unsupported Opus channel mapping for "@ + decimal_text(channels)
                + " channels; the single-stream decoder supports mono or stereo"@,
        )
    } else {
        None
    }
}

/// What `OpusDecoder::decode_i16` makes of a packet: the samples of all channels,
/// or the text of the refusal. It depends on what the decoder was made with and
/// on all packets that it was given before, those that it refused included.
pub uninterp spec fn decoder_reply(
    sample_rate: nat,
    channels: nat,
    before: Seq<Seq<u8>>,
    packet: Seq<u8>,
) -> Result<Seq<i16>, Seq<char>>;

/// A decoder with the record of what it was made with and of the packets that it
/// was given.
pub struct CodecDecoder {
    decoder: OpusDecoder,
    sample_rate: Ghost<nat>,
    channels: Ghost<nat>,
    given: Ghost<Seq<Seq<u8>>>,
}

impl CodecDecoder {
    /// The sample rate that the decoder was made with.
    pub closed spec fn sample_rate(self) -> nat {
        self.sample_rate@
    }

    /// The number of channels that the decoder was made with.
    pub closed spec fn channels(self) -> nat {
        self.channels@
    }

    /// All packets that the decoder was given.
    pub closed spec fn given(self) -> Seq<Seq<u8>> {
        self.given@
    }
}

/// `OpusDecoder::new`. It refuses sample rates and channel counts that Opus does
/// not have, with the text given by `decoder_refusal`, and succeeds otherwise.
#[verifier::external_body]
pub(crate) fn make_decoder(sample_rate: usize, channels: usize) -> (r: Result<
    CodecDecoder,
    String,
>)
    ensures
        match r {
            Ok(decoder) => {
                &&& decoder_refusal(sample_rate as nat, channels as nat) is None
                &&& decoder.sample_rate() == sample_rate
                &&& decoder.channels() == channels
                &&& decoder.given() == Seq::<Seq<u8>>::empty()
            },
            Err(e) => decoder_refusal(sample_rate as nat, channels as nat) == Some(e@),
        },
{
    Ok(
        CodecDecoder {
            decoder: OpusDecoder::new(sample_rate, channels)?,
            sample_rate: Ghost(sample_rate as nat),
            channels: Ghost(channels as nat),
            given: Ghost(Seq::empty()),
        },
    )
}

/// `OpusDecoder::init`, which has nothing to do and succeeds.
#[verifier::external_body]
pub(crate) fn init_decoder(decoder: &mut CodecDecoder) -> (r: Result<(), String>)
    ensures
        r is Ok,
        *final(decoder) == *old(decoder),
{
    decoder.decoder.init()
}

/// `OpusDecoder::decode_i16`, of `soundkit`'s trait `Decoder`, for a packet that
/// is there, without error correction, and with room for the longest frame. The
/// samples stand at the beginning of the buffer, so many for each channel as it
/// reports, and are those that `decoder_reply` names; a refusal is that name's
/// too. The record takes the packet.
#[verifier::external_body]
pub(crate) fn decode_i16(
    decoder: &mut CodecDecoder,
    input: &[u8],
    output: &mut Vec<i16>,
    fec: bool,
) -> (r: Result<usize, String>)
    requires
        input@.len() > 0,
        old(output)@.len() == MAX_FRAME_SAMPLES * old(decoder).channels(),
        !fec,
    ensures
        final(output)@.len() == old(output)@.len(),
        final(decoder).sample_rate() == old(decoder).sample_rate(),
        final(decoder).channels() == old(decoder).channels(),
        final(decoder).given() == old(decoder).given().push(input@),
        match r {
            Ok(n) => {
                &&& n * old(decoder).channels() <= old(output)@.len()
                &&& decoder_reply(
                    old(decoder).sample_rate(),
                    old(decoder).channels(),
                    old(decoder).given(),
                    input@,
                ) == Ok::<Seq<i16>, Seq<char>>(
                    final(output)@.take(n * old(decoder).channels()),
                )
            },
            Err(e) => decoder_reply(
                old(decoder).sample_rate(),
                old(decoder).channels(),
                old(decoder).given(),
                input@,
            ) == Err::<Seq<i16>, Seq<char>>(e@),
        },
{
    decoder.decoder.decode_i16(input, output.as_mut_slice(), fec)
}

} // verus!
