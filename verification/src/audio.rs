//! Decoded audio as plain values.

use vstd::prelude::*;

verus! {

/// How the samples of a chunk of decoded audio are encoded.
#[derive(Debug, Clone, Copy, PartialEq, Eq, Structural)]
pub enum AudioFormat {
    PcmSigned,
    PcmFloat,
    Opus,
    Flac,
    Aac,
    H264,
}

/// A chunk of audio as a decoder hands it out.
#[derive(Debug)]
pub struct AudioChunk {
    pub sample_rate: u32,
    pub channels: u8,
    pub bits_per_sample: u8,
    pub format: AudioFormat,
    pub data: Vec<u8>,
}

/// What a decoder had to say when it was asked for output.
#[derive(Debug)]
pub enum DecoderOutput {
    /// A chunk of decoded audio.
    Audio(AudioChunk),
    /// The decoder could not decode some of its input.
    Failed(String),
    /// Nothing is ready yet.
    Pending,
    /// The decoder has finished: nothing more will come.
    Closed,
}

/// The sample encodings that clients are told about.
#[derive(Debug, Clone, Copy, PartialEq, Eq, Structural)]
pub enum PcmEncoding {
    Signed,
    Float,
}

/// Float PCM is announced as such, everything else as signed PCM.
pub open spec fn encoding_of(format: AudioFormat) -> PcmEncoding {
    if format == AudioFormat::PcmFloat {
        PcmEncoding::Float
    } else {
        PcmEncoding::Signed
    }
}

/// The encoding that clients are told for a chunk of this format.
pub fn pcm_encoding(format: AudioFormat) -> (r: PcmEncoding)
    ensures
        r == encoding_of(format),
{
    match format {
        AudioFormat::PcmFloat => PcmEncoding::Float,
        _ => PcmEncoding::Signed,
    }
}

} // verus!
