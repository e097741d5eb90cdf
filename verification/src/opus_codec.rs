//! Encoding recordings and decoding packet streams with `soundkit_opus`.
//!
//! The decoder's answers have a name, so that what comes out of a stream is said
//! exactly. The packets of the encoder depend on the processor: what is said of
//! them is their number, their order and their size, which frames they are made
//! of, and that the stream holds them as the encoder handed them out.

use crate::opus_calls::{
    coder_error, decode_i16, decoder_refusal, decoder_reply, encode_i16, encoder_accepts, init_decoder,
    init_encoder, make_decoder, make_encoder, CodecDecoder, CodecEncoder, EncodeCall,
    EncoderSettings, MAX_ENCODER_FRAME, MAX_FRAME_SAMPLES,
};
use crate::packets::{
    append_samples, frames_of, join_outcomes, law_frames_cover, law_packet_roundtrip, packet_stream,
    split_packets, StreamDecoder, TrackEncoder, TrackModel,
};
use vstd::prelude::*;
use vstd::slice::slice_subrange;

verus! {

/// The size of the buffer for one encoded packet.
pub const PACKET_BUFFER_BYTES: usize = 1500;

/// The bits per sample that an encoder is made for.
pub const ENCODER_BITS: u32 = 16;

/// Whether an encoder can be made with these settings.
pub fn encoder_supports(sample_rate: u32, channels: usize, frame_size: usize, bitrate: u32) -> (r:
    bool)
    ensures
        r == encoder_accepts(sample_rate, channels as nat, frame_size as nat, bitrate),
{
    (sample_rate == 8000 || sample_rate == 12000 || sample_rate == 16000 || sample_rate == 24000
        || sample_rate == 48000) && (channels == 1 || channels == 2) && 500 <= bitrate && bitrate
        <= 512000 && frame_size <= MAX_ENCODER_FRAME
}

// ---------------------------------------------------------------------------
// Encoding
// ---------------------------------------------------------------------------

/// A run of bytes or an error, as sequences.
pub open spec fn bytes_outcome(r: Result<Vec<u8>, String>) -> Result<Seq<u8>, Seq<char>> {
    match r {
        Ok(bytes) => Ok(bytes@),
        Err(e) => Err(e@),
    }
}

/// An encoder in the abstract: what it was made with and all its calls.
pub struct EncoderModel {
    pub settings: EncoderSettings,
    pub calls: Seq<EncodeCall>,
}

/// A `soundkit_opus` encoder and the buffer for its packets.
pub struct SoundkitEncoder {
    encoder: CodecEncoder,
    buffer: Vec<u8>,
}

impl View for SoundkitEncoder {
    type V = EncoderModel;

    closed spec fn view(&self) -> EncoderModel {
        EncoderModel { settings: self.encoder.settings(), calls: self.encoder.calls() }
    }
}

/// What holds of every call of an encoder with these settings: what it is bound
/// to refuse it refuses, anything else it encodes unless its range coder fails, and
/// its packets have the size that the settings give.
pub open spec fn call_fits(settings: EncoderSettings, call: EncodeCall) -> bool {
    match settings.refusal(call.frame.len()) {
        Some(refusal) => call.reply == Err::<Seq<u8>, Seq<char>>(refusal),
        None => match call.reply {
            Ok(packet) => packet.len() == settings.packet_size(),
            Err(e) => e == coder_error(),
        },
    }
}

/// What encoding some frames comes to: the frames are handed over in order until
/// one is refused; the result is the stream of the packets, or the refusal.
pub open spec fn encode_outcome(
    settings: EncoderSettings,
    frames: Seq<Seq<i16>>,
    calls: Seq<EncodeCall>,
    r: Result<Seq<u8>, Seq<char>>,
) -> bool {
    &&& calls.len() <= frames.len()
    &&& forall|i: int| 0 <= i < calls.len() ==> (#[trigger] calls[i]).frame == frames[i]
    &&& forall|i: int| 0 <= i < calls.len() ==> call_fits(settings, #[trigger] calls[i])
    &&& forall|i: int| 0 <= i < calls.len() - 1 ==> (#[trigger] calls[i]).reply is Ok
    &&& match r {
        Ok(stream) => {
            &&& calls.len() == frames.len()
            &&& forall|i: int| 0 <= i < calls.len() ==> (#[trigger] calls[i]).reply is Ok
            &&& stream == packet_stream(replies_of(calls))
        },
        Err(e) => calls.len() > 0 && calls.last().reply == Err::<Seq<u8>, Seq<char>>(e),
    }
}

/// The packets of successful calls.
pub open spec fn replies_of(calls: Seq<EncodeCall>) -> Seq<Seq<u8>> {
    calls.map_values(|c: EncodeCall| c.reply->Ok_0)
}

/// The settings of an encoder for frames of `frame_size` samples per channel.
pub open spec fn settings_for(
    sample_rate: u32,
    channels: usize,
    frame_size: usize,
    bitrate: u32,
) -> EncoderSettings {
    EncoderSettings {
        sample_rate,
        bits_per_sample: ENCODER_BITS,
        channels: channels as u32,
        frame_size: frame_size as u32,
        bitrate,
    }
}

impl SoundkitEncoder {
    /// The buffer has its size.
    pub closed spec fn wf(self) -> bool {
        self.buffer@.len() == PACKET_BUFFER_BYTES
    }

    /// Makes an encoder for frames of `frame_size` samples per channel.
    pub fn new(sample_rate: u32, channels: usize, frame_size: usize, bitrate: u32) -> (r: Result<
        SoundkitEncoder,
        String,
    >)
        requires
            encoder_accepts(sample_rate, channels as nat, frame_size as nat, bitrate),
        ensures
            r matches Ok(session) && session.wf() && session@ == (EncoderModel {
                settings: settings_for(sample_rate, channels, frame_size, bitrate),
                calls: seq![],
            }),
    {
        let mut encoder: CodecEncoder = make_encoder(
            sample_rate,
            ENCODER_BITS,
            channels as u32,
            frame_size as u32,
            bitrate,
        );
        match init_encoder(&mut encoder) {
            Ok(_) => Ok(SoundkitEncoder { encoder, buffer: vec![0u8; PACKET_BUFFER_BYTES] }),
            Err(e) => Err(e),
        }
    }

    /// Encodes one frame.
    pub fn encode_frame(&mut self, frame: &[i16]) -> (r: Result<Vec<u8>, String>)
        requires
            old(self).wf(),
        ensures
            final(self).wf(),
            final(self)@ == (EncoderModel {
                settings: old(self)@.settings,
                calls: old(self)@.calls.push(
                    EncodeCall { frame: frame@, reply: bytes_outcome(r) },
                ),
            }),
            call_fits(
                old(self)@.settings,
                EncodeCall { frame: frame@, reply: bytes_outcome(r) },
            ),
    {
        match encode_i16(&mut self.encoder, frame, &mut self.buffer) {
            Ok(n) => {
                let mut packet: Vec<u8> = Vec::new();
                packet.extend_from_slice(slice_subrange(self.buffer.as_slice(), 0, n));
                assert(packet@ =~= self.buffer@.take(n as int));
                Ok(packet)
            },
            Err(e) => Err(e),
        }
    }

    /// Encodes a recording frame by frame and gives the stream of the packets.
    pub fn encode_track(&mut self, pcm: &[i16], frame_samples: usize) -> (r: Result<
        Vec<u8>,
        String,
    >)
        requires
            old(self).wf(),
            frame_samples > 0,
        ensures
            final(self).wf(),
            final(self)@.settings == old(self)@.settings,
            final(self)@.calls.len() >= old(self)@.calls.len(),
            final(self)@.calls.take(old(self)@.calls.len() as int) == old(self)@.calls,
            encode_outcome(
                old(self)@.settings,
                frames_of(pcm@, frame_samples as nat),
                final(self)@.calls.skip(old(self)@.calls.len() as int),
                bytes_outcome(r),
            ),
    {
        let ghost start = self@.calls;
        let ghost settings = self@.settings;
        let ghost frames = frames_of(pcm@, frame_samples as nat);
        let ghost mut made: Seq<EncodeCall> = Seq::empty();
        let mut track: TrackEncoder = TrackEncoder::new(pcm, frame_samples);
        assert(self@.calls =~= start + made);
        assert(replies_of(made) =~= seq![]);
        loop
            invariant
                self.wf(),
                self@.settings == settings,
                settings == old(self)@.settings,
                start == old(self)@.calls,
                self@.calls == start + made,
                track.wf(),
                track@ == (TrackModel { frames, packets: replies_of(made) }),
                made.len() <= frames.len(),
                forall|i: int| 0 <= i < made.len() ==> (#[trigger] made[i]).frame == frames[i],
                forall|i: int| 0 <= i < made.len() ==> (#[trigger] made[i]).reply is Ok,
                forall|i: int| 0 <= i < made.len() ==> call_fits(settings, #[trigger] made[i]),
                frames == frames_of(pcm@, frame_samples as nat),
            ensures
                made.len() == frames.len(),
            decreases frames.len() - made.len(),
        {
            match track.next_frame() {
                None => {
                    break;
                },
                Some(frame) => {
                    let reply: Result<Vec<u8>, String> = self.encode_frame(frame.as_slice());
                    let ghost call = EncodeCall { frame: frame@, reply: bytes_outcome(reply) };
                    let ghost before = made;
                    proof {
                        made = made.push(call);
                        assert(self@.calls =~= start + made);
                        assert((start + made).skip(start.len() as int) =~= made);
                        assert((start + made).take(start.len() as int) =~= start);
                    }
                    match reply {
                        Ok(packet) => {
                            track.accept(packet.as_slice());
                            assert(replies_of(made) =~= replies_of(before).push(packet@));
                        },
                        Err(e) => {
                            assert(made.last() == call);
                            return Err(e);
                        },
                    }
                },
            }
        }
        assert((start + made).skip(start.len() as int) =~= made);
        assert((start + made).take(start.len() as int) =~= start);
        Ok(track.finish())
    }
}

/// A recording that was encoded is one packet for every frame, all of the same
/// size; and where the encoder is bound to refuse a frame, encoding fails with
/// that refusal.
pub proof fn law_encoded_recording(
    settings: EncoderSettings,
    frames: Seq<Seq<i16>>,
    calls: Seq<EncodeCall>,
    r: Result<Seq<u8>, Seq<char>>,
)
    requires
        encode_outcome(settings, frames, calls, r),
    ensures
        r matches Ok(stream) ==> {
            let (packets, broken) = split_packets(stream);
            &&& !broken
            &&& packets == replies_of(calls)
            &&& packets.len() == frames.len()
            &&& forall|i: int|
                0 <= i < packets.len() ==> (#[trigger] packets[i]).len() == settings.packet_size()
        },
        frames.len() > 0 ==> (settings.refusal(frames[0].len()) matches Some(e) ==> r == Err::<
            Seq<u8>,
            Seq<char>,
        >(e)),
{
    if frames.len() > 0 && settings.refusal(frames[0].len()) is Some {
        if calls.len() > 0 {
            assert(call_fits(settings, calls[0]));
            assert(calls[0].frame == frames[0]);
        }
    }
    if r is Ok {
        let packets = replies_of(calls);
        assert forall|i: int| 0 <= i < packets.len() implies (#[trigger] packets[i]).len()
            == settings.packet_size() by {
            assert(call_fits(settings, calls[i]));
            assert(packets[i] == calls[i].reply->Ok_0);
        }
        law_packet_roundtrip(packets);
        lemma_all_kept(packets);
    }
}

/// Leaving out empty packets leaves out nothing where there are none.
proof fn lemma_all_kept(packets: Seq<Seq<u8>>)
    requires
        forall|i: int| 0 <= i < packets.len() ==> (#[trigger] packets[i]).len() > 0,
    ensures
        packets.filter(|p: Seq<u8>| p.len() > 0) == packets,
    decreases packets.len(),
{
    reveal(Seq::filter);
    if packets.len() > 0 {
        let prior = packets.drop_last();
        assert forall|i: int| 0 <= i < prior.len() implies (#[trigger] prior[i]).len() > 0 by {
            assert(prior[i] == packets[i]);
        }
        lemma_all_kept(prior);
        assert(packets[packets.len() - 1].len() > 0);
        assert(prior.push(packets.last()) =~= packets);
    }
}

// ---------------------------------------------------------------------------
// Decoding
// ---------------------------------------------------------------------------

/// Samples or an error, as sequences.
pub open spec fn samples_outcome(r: Result<Vec<i16>, String>) -> Result<Seq<i16>, Seq<char>> {
    match r {
        Ok(samples) => Ok(samples@),
        Err(e) => Err(e@),
    }
}

/// A decoder in the abstract: what it was made with and all packets that it was
/// given.
pub struct DecoderModel {
    pub sample_rate: nat,
    pub channels: nat,
    pub given: Seq<Seq<u8>>,
}

/// A `soundkit_opus` decoder and the buffer for its samples.
pub struct SoundkitDecoder {
    decoder: CodecDecoder,
    channels: usize,
    scratch: Vec<i16>,
}

impl View for SoundkitDecoder {
    type V = DecoderModel;

    closed spec fn view(&self) -> DecoderModel {
        DecoderModel {
            sample_rate: self.decoder.sample_rate(),
            channels: self.decoder.channels(),
            given: self.decoder.given(),
        }
    }
}

/// What a decoder makes of some packets, handed over in order: all their samples,
/// or the first refusal.
pub open spec fn decoded_packets(m: DecoderModel, packets: Seq<Seq<u8>>) -> Result<
    Seq<i16>,
    Seq<char>,
>
    decreases packets.len(),
{
    if packets.len() == 0 {
        Ok(seq![])
    } else {
        let reply = decoder_reply(m.sample_rate, m.channels, m.given, packets[0]);
        let next = DecoderModel { given: m.given.push(packets[0]), ..m };
        join_outcomes(reply, decoded_packets(next, packets.skip(1)))
    }
}

/// The packets of these that are handed over: up to the first one that is refused.
pub open spec fn packets_taken(m: DecoderModel, packets: Seq<Seq<u8>>) -> Seq<Seq<u8>>
    decreases packets.len(),
{
    if packets.len() == 0 {
        seq![]
    } else if decoder_reply(m.sample_rate, m.channels, m.given, packets[0]) is Err {
        seq![packets[0]]
    } else {
        let next = DecoderModel { given: m.given.push(packets[0]), ..m };
        seq![packets[0]] + packets_taken(next, packets.skip(1))
    }
}

/// What a decoder makes of a packet stream: what it makes of its packets, but
/// where it refuses none and the stream breaks off inside a packet, the error
/// that says so.
pub open spec fn decoded_stream(m: DecoderModel, stream: Seq<u8>) -> Result<Seq<i16>, Seq<char>> {
    let (packets, broken) = split_packets(stream);
    let decoded = decoded_packets(m, packets);
    if decoded is Ok && broken {
        Err(truncated_text())
    } else {
        decoded
    }
}

/// The text of the error for a packet stream that breaks off inside a packet.
pub open spec fn truncated_text() -> Seq<char> {
    "truncated soundkit packet stream"@
}

impl SoundkitDecoder {
    /// The number of channels is the decoder's, and the buffer has its size.
    pub closed spec fn wf(self) -> bool {
        &&& self.channels == self.decoder.channels()
        &&& self.scratch@.len() == MAX_FRAME_SAMPLES * self.channels
    }

    /// Makes a decoder.
    pub fn new(sample_rate: usize, channels: usize) -> (r: Result<SoundkitDecoder, String>)
        ensures
            match r {
                Ok(session) => {
                    &&& decoder_refusal(sample_rate as nat, channels as nat) is None
                    &&& session.wf()
                    &&& session@ == (DecoderModel {
                        sample_rate: sample_rate as nat,
                        channels: channels as nat,
                        given: seq![],
                    })
                },
                Err(e) => decoder_refusal(sample_rate as nat, channels as nat) == Some(e@),
            },
    {
        let mut decoder: CodecDecoder = match make_decoder(sample_rate, channels) {
            Ok(decoder) => decoder,
            Err(e) => {
                return Err(e);
            },
        };
        match init_decoder(&mut decoder) {
            Ok(_) => {
                let scratch: Vec<i16> = vec![0i16; MAX_FRAME_SAMPLES * channels];
                Ok(SoundkitDecoder { decoder, channels, scratch })
            },
            Err(e) => Err(e),
        }
    }

    /// Decodes one packet.
    pub fn decode_packet(&mut self, packet: &[u8]) -> (r: Result<Vec<i16>, String>)
        requires
            old(self).wf(),
            packet@.len() > 0,
        ensures
            final(self).wf(),
            samples_outcome(r) == decoder_reply(
                old(self)@.sample_rate,
                old(self)@.channels,
                old(self)@.given,
                packet@,
            ),
            final(self)@ == (DecoderModel {
                given: old(self)@.given.push(packet@),
                ..old(self)@
            }),
    {
        match decode_i16(&mut self.decoder, packet, &mut self.scratch, false) {
            Ok(n) => {
                let mut samples: Vec<i16> = Vec::new();
                append_samples(&mut samples, self.scratch.as_slice(), n, self.channels);
                assert(samples@ =~= self.scratch@.take(n * self.channels));
                Ok(samples)
            },
            Err(e) => Err(e),
        }
    }

    /// Decodes a packet stream and gives all its samples.
    pub fn decode_stream(&mut self, stream: &[u8]) -> (r: Result<Vec<i16>, String>)
        requires
            old(self).wf(),
        ensures
            final(self).wf(),
            samples_outcome(r) == decoded_stream(old(self)@, stream@),
            final(self)@ == (DecoderModel {
                given: old(self)@.given + packets_taken(old(self)@, split_packets(stream@).0),
                ..old(self)@
            }),
    {
        let ghost start = self@;
        let ghost packets = split_packets(stream@).0;
        let ghost broken = split_packets(stream@).1;
        let mut run: StreamDecoder = StreamDecoder::new(
            stream,
            "truncated soundkit packet stream".to_owned(),
        );
        proof {
            let all = decoded_packets(start, packets);
            if all is Ok {
                assert(Seq::<i16>::empty() + all->Ok_0 =~= all->Ok_0);
            }
        }
        loop
            invariant
                self.wf(),
                run.wf(),
                start == old(self)@,
                (packets, broken) == split_packets(stream@),
                self@.sample_rate == start.sample_rate,
                self@.channels == start.channels,
                run@.broken == broken,
                run@.truncated == truncated_text(),
                forall|i: int| 0 <= i < run@.left.len() ==> (#[trigger] run@.left[i]).len() > 0,
                join_outcomes(run@.outcome, decoded_packets(self@, run@.left)) == decoded_packets(
                    start,
                    packets,
                ),
                run@.outcome is Ok ==> self@.given + packets_taken(self@, run@.left) == start.given
                    + packets_taken(start, packets),
                run@.outcome is Err ==> self@.given == start.given + packets_taken(start, packets),
            ensures
                run@.outcome is Err || run@.left.len() == 0,
            decreases run@.left.len() + (if run@.outcome is Ok { 1nat } else { 0nat }),
        {
            let ghost before = run@;
            let ghost model = self@;
            match run.next_packet() {
                None => {
                    break;
                },
                Some(packet) => {
                    let reply: Result<Vec<i16>, String> = self.decode_packet(packet.as_slice());
                    let ghost answer = samples_outcome(reply);
                    run.accept(reply);
                    proof {
                        let left = before.left;
                        let rest = left.skip(1);
                        let next = self@;
                        assert(left[0] == packet@);
                        assert forall|i: int| 0 <= i < rest.len() implies (#[trigger] rest[i]).len()
                            > 0 by {
                            assert(rest[i] == left[i + 1]);
                        }
                        let tail = decoded_packets(next, rest);
                        if answer is Ok && tail is Ok {
                            let done = before.outcome->Ok_0;
                            assert(done + (answer->Ok_0 + tail->Ok_0) =~= (done + answer->Ok_0)
                                + tail->Ok_0);
                        }
                        if answer is Ok {
                            assert(model.given + (seq![left[0]] + packets_taken(next, rest))
                                =~= next.given + packets_taken(next, rest));
                        } else {
                            assert(model.given + seq![left[0]] =~= next.given);
                        }
                    }
                },
            }
        }
        proof {
            if run@.outcome is Ok {
                assert(run@.outcome->Ok_0 + Seq::<i16>::empty() =~= run@.outcome->Ok_0);
                assert(self@.given + Seq::<Seq<u8>>::empty() =~= self@.given);
            }
        }
        run.finish()
    }
}

/// A decoder of an encoded recording is handed the packets that the encoder made,
/// and the stream never breaks off.
pub proof fn law_decoder_gets_encoded_packets(
    settings: EncoderSettings,
    frames: Seq<Seq<i16>>,
    calls: Seq<EncodeCall>,
    stream: Seq<u8>,
    decoder: DecoderModel,
)
    requires
        encode_outcome(settings, frames, calls, Ok(stream)),
    ensures
        decoded_stream(decoder, stream) == decoded_packets(decoder, replies_of(calls)),
{
    law_encoded_recording(settings, frames, calls, Ok(stream));
}

/// Packets can be decoded in two goes: a decoder that was given the first of them
/// makes of the others what it would have made of them in one go.
pub proof fn law_decoding_continues(
    m: DecoderModel,
    first: Seq<Seq<u8>>,
    second: Seq<Seq<u8>>,
)
    requires
        decoded_packets(m, first) is Ok,
    ensures
        decoded_packets(m, first + second) == join_outcomes(
            decoded_packets(m, first),
            decoded_packets(DecoderModel { given: m.given + first, ..m }, second),
        ),
    decreases first.len(),
{
    let after = DecoderModel { given: m.given + first, ..m };
    let tail = decoded_packets(after, second);
    if first.len() == 0 {
        assert(first + second =~= second);
        assert(m.given + first =~= m.given);
        if tail is Ok {
            assert(Seq::<i16>::empty() + tail->Ok_0 =~= tail->Ok_0);
        }
    } else {
        let all = first + second;
        let next = DecoderModel { given: m.given.push(first[0]), ..m };
        let rest = first.skip(1);
        assert(all[0] == first[0]);
        assert(all.skip(1) =~= rest + second);
        assert(next.given + rest =~= m.given + first);
        law_decoding_continues(next, rest, second);
        if tail is Ok {
            let a = decoder_reply(m.sample_rate, m.channels, m.given, first[0])->Ok_0;
            let b = decoded_packets(next, rest)->Ok_0;
            assert(a + (b + tail->Ok_0) =~= (a + b) + tail->Ok_0);
        }
    }
}

/// A packet behind others is decoded by a decoder that was given the others, and its
/// samples follow theirs. The first refusal is final.
pub proof fn law_decoded_in_order(m: DecoderModel, packets: Seq<Seq<u8>>, packet: Seq<u8>)
    ensures
        decoded_packets(m, Seq::<Seq<u8>>::empty()) == Ok::<Seq<i16>, Seq<char>>(seq![]),
        decoded_packets(m, packets.push(packet)) == (match decoded_packets(m, packets) {
            Err(e) => Err(e),
            Ok(samples) => match decoder_reply(
                m.sample_rate,
                m.channels,
                m.given + packets,
                packet,
            ) {
                Err(e) => Err(e),
                Ok(more) => Ok(samples + more),
            },
        }),
    decreases packets.len(),
{
    let all = packets.push(packet);
    let reply = decoder_reply(m.sample_rate, m.channels, m.given + packets, packet);
    if packets.len() == 0 {
        assert(m.given + packets =~= m.given);
        assert(all.skip(1) =~= Seq::<Seq<u8>>::empty());
        let next = DecoderModel { given: m.given.push(packet), ..m };
        assert(decoded_packets(next, all.skip(1)) == Ok::<Seq<i16>, Seq<char>>(seq![]));
        if reply is Ok {
            assert(reply->Ok_0 + Seq::<i16>::empty() =~= reply->Ok_0);
            assert(Seq::<i16>::empty() + reply->Ok_0 =~= reply->Ok_0);
        }
    } else {
        let next = DecoderModel { given: m.given.push(packets[0]), ..m };
        let rest = packets.skip(1);
        law_decoded_in_order(next, rest, packet);
        assert(all.skip(1) =~= rest.push(packet));
        assert(next.given + rest =~= m.given + packets);
        let first = decoder_reply(m.sample_rate, m.channels, m.given, packets[0]);
        let tail = decoded_packets(next, rest);
        if first is Ok && tail is Ok && reply is Ok {
            assert(first->Ok_0 + (tail->Ok_0 + reply->Ok_0) =~= (first->Ok_0 + tail->Ok_0)
                + reply->Ok_0);
        }
    }
}

/// The packets that a decoder is handed are the first ones of the stream: all of them
/// where none is refused, else up to the first one that is refused, and no further.
pub proof fn law_packets_taken(m: DecoderModel, packets: Seq<Seq<u8>>)
    ensures
        ({
            let taken = packets_taken(m, packets);
            let k = taken.len() as int;
            &&& k <= packets.len()
            &&& taken == packets.take(k)
            &&& decoded_packets(m, packets) is Ok ==> taken == packets
            &&& decoded_packets(m, packets) matches Err(e) ==> k > 0 && decoded_packets(
                m,
                packets.take(k - 1),
            ) is Ok && decoder_reply(
                m.sample_rate,
                m.channels,
                m.given + packets.take(k - 1),
                packets[k - 1],
            ) == Err::<Seq<i16>, Seq<char>>(e)
        }),
    decreases packets.len(),
{
    let taken = packets_taken(m, packets);
    let k = taken.len() as int;
    if packets.len() == 0 {
        assert(taken =~= packets.take(k));
        assert(taken =~= packets);
    } else {
        let first = decoder_reply(m.sample_rate, m.channels, m.given, packets[0]);
        let next = DecoderModel { given: m.given.push(packets[0]), ..m };
        let rest = packets.skip(1);
        if first is Err {
            assert(taken =~= packets.take(1));
            assert(packets.take(0) =~= seq![]);
            assert(m.given + packets.take(0) =~= m.given);
        } else {
            law_packets_taken(next, rest);
            assert(taken =~= packets.take(k));
            if decoded_packets(m, packets) is Ok {
                assert(taken =~= packets);
            } else {
                let before = packets.take(k - 1);
                assert(before.skip(1) =~= rest.take(k - 2));
                assert(before[0] == packets[0]);
                assert(next.given + rest.take(k - 2) =~= m.given + before);
                assert(rest[k - 2] == packets[k - 1]);
            }
        }
    }
}

/// A stream that breaks off inside a packet is an error, but a refusal of one of its
/// packets comes first; any other stream is what its packets come to.
pub proof fn law_broken_stream(m: DecoderModel, stream: Seq<u8>)
    ensures
        ({
            let (packets, broken) = split_packets(stream);
            &&& decoded_packets(m, packets) matches Err(e) ==> decoded_stream(m, stream) == Err::<
                Seq<i16>,
                Seq<char>,
            >(e)
            &&& decoded_packets(m, packets) matches Ok(samples) ==> decoded_stream(m, stream) == (
            if broken {
                Err::<Seq<i16>, Seq<char>>("truncated soundkit packet stream"@)
            } else {
                Ok(samples)
            })
        }),
{
}

/// When a recording was encoded, the encoder was handed every sample of it: sample `i`
/// stands in the frame and at the place where it belongs, and the packet of that frame
/// stands in the stream at the same position.
pub proof fn law_whole_recording_encoded(
    settings: EncoderSettings,
    pcm: Seq<i16>,
    frame_samples: nat,
    calls: Seq<EncodeCall>,
    stream: Seq<u8>,
    i: int,
)
    requires
        frame_samples > 0,
        encode_outcome(settings, frames_of(pcm, frame_samples), calls, Ok(stream)),
        0 <= i < pcm.len(),
    ensures
        ({
            let k = i / frame_samples as int;
            let packets = split_packets(stream).0;
            &&& 0 <= k < calls.len()
            &&& calls[k].frame.len() == frame_samples
            &&& calls[k].frame[i % frame_samples as int] == pcm[i]
            &&& packets.len() == calls.len()
            &&& calls[k].reply == Ok::<Seq<u8>, Seq<char>>(packets[k])
        }),
{
    let frames = frames_of(pcm, frame_samples);
    let n = frame_samples as int;
    let k = i / n;
    law_frames_cover(pcm, frame_samples);
    law_encoded_recording(settings, frames, calls, Ok(stream));
    assert(0 <= k && k * n <= i && i == k * n + i % n && 0 <= i % n < n) by (nonlinear_arith)
        requires
            n > 0,
            i >= 0,
            k == i / n,
    ;
    assert(k < frames.len()) by (nonlinear_arith)
        requires
            n > 0,
            k * n <= i,
            i < pcm.len(),
            pcm.len() <= frames.len() * n,
    ;
    assert(frames[k][i % n] == pcm[i]);
    assert(calls[k].frame == frames[k]);
    assert(calls[k].reply is Ok);
    assert(replies_of(calls)[k] == calls[k].reply->Ok_0);
}

/// Where encoding fails, the failure is the answer to the frame that was handed over
/// last, and all frames before it were encoded.
pub proof fn law_encoding_failure(
    settings: EncoderSettings,
    frames: Seq<Seq<i16>>,
    calls: Seq<EncodeCall>,
    e: Seq<char>,
    i: int,
)
    requires
        encode_outcome(settings, frames, calls, Err(e)),
        0 <= i < calls.len(),
    ensures
        calls[i].frame == frames[i],
        i == calls.len() - 1 ==> calls[i].reply == Err::<Seq<u8>, Seq<char>>(e),
        i < calls.len() - 1 ==> calls[i].reply is Ok,
{
}

/// An encoder is made for 16-bit samples and for what it is asked for.
pub proof fn law_encoder_settings(
    sample_rate: u32,
    channels: usize,
    frame_size: usize,
    bitrate: u32,
)
    requires
        encoder_accepts(sample_rate, channels as nat, frame_size as nat, bitrate),
    ensures
        ({
            let settings = settings_for(sample_rate, channels, frame_size, bitrate);
            &&& settings.sample_rate == sample_rate
            &&& settings.bits_per_sample == 16
            &&& settings.channels == channels
            &&& settings.frame_size == frame_size
            &&& settings.bitrate == bitrate
        }),
{
}

/// The encoders that can be made: for the rates that divide 48 kHz by one, two, three,
/// four or six, for one or two channels, from 500 to 512000 bits per second, and for
/// frames of up to two seconds at 48 kHz.
pub proof fn law_encoder_range(sample_rate: u32, channels: nat, frame_size: nat, bitrate: u32)
    ensures
        encoder_accepts(sample_rate, channels, frame_size, bitrate) <==> {
            &&& exists|k: int|
                (k == 1 || k == 2 || k == 3 || k == 4 || k == 6) && #[trigger] (sample_rate * k)
                    == 48000
            &&& 1 <= channels <= 2
            &&& 500 <= bitrate <= 512000
            &&& frame_size <= 96000
        },
{
    assert(sample_rate == 48000 <==> sample_rate * 1 == 48000);
    assert(sample_rate == 24000 <==> sample_rate * 2 == 48000);
    assert(sample_rate == 16000 <==> sample_rate * 3 == 48000);
    assert(sample_rate == 12000 <==> sample_rate * 4 == 48000);
    assert(sample_rate == 8000 <==> sample_rate * 6 == 48000);
}

} // verus!
