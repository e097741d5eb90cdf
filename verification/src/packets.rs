//! Fixed-size frames of PCM and streams of length-prefixed packets.
//!
//! An encoder is fed frames of equal length, the last one padded with silence.
//! Its packets are kept in one stream, each behind its length in four bytes,
//! least significant byte first. Empty packets are left out of the stream, and
//! an empty packet in a stream is skipped.

use vstd::arithmetic::div_mod::lemma_fundamental_div_mod_converse;
use vstd::prelude::*;
use vstd::slice::slice_subrange;

verus! {

/// How many bytes stand before a packet.
pub const PACKET_PREFIX_BYTES: usize = 4;

// ---------------------------------------------------------------------------
// Frames
// ---------------------------------------------------------------------------

/// How many frames of `frame_samples` samples hold `len` samples.
pub open spec fn frame_count(len: nat, frame_samples: nat) -> nat {
    ((len + frame_samples - 1) / frame_samples as int) as nat
}

/// The frame that starts at `start`: the samples from there on, and silence
/// behind the last one.
pub open spec fn frame_at(pcm: Seq<i16>, start: int, frame_samples: nat) -> Seq<i16> {
    Seq::new(
        frame_samples,
        |i: int|
            if start + i < pcm.len() {
                pcm[start + i]
            } else {
                0i16
            },
    )
}

/// All frames of a recording.
pub open spec fn frames_of(pcm: Seq<i16>, frame_samples: nat) -> Seq<Seq<i16>> {
    Seq::new(
        frame_count(pcm.len(), frame_samples),
        |k: int| frame_at(pcm, k * frame_samples, frame_samples),
    )
}

proof fn lemma_frame_count(len: nat, frame_samples: nat, k: nat)
    requires
        frame_samples > 0,
        k > 0 ==> (k - 1) * frame_samples < len,
        len <= k * frame_samples,
    ensures
        frame_count(len, frame_samples) == k,
{
    let x = len + frame_samples - 1;
    let r = x - k * frame_samples;
    assert(k * frame_samples == (k - 1) * frame_samples + frame_samples) by (nonlinear_arith);
    if k == 0 {
        assert((0 - 1) * frame_samples == -frame_samples) by (nonlinear_arith);
    }
    assert(0 <= r < frame_samples);
    lemma_fundamental_div_mod_converse(x as int, frame_samples as int, k as int, r);
}

proof fn lemma_frame_before(len: nat, frame_samples: nat, k: nat)
    requires
        frame_samples > 0,
        k * frame_samples < len,
    ensures
        k < frame_count(len, frame_samples),
{
    let x = len + frame_samples - 1;
    assert(x / frame_samples as int >= k + 1) by (nonlinear_arith)
        requires
            frame_samples > 0,
            k * frame_samples < len,
            x == len + frame_samples - 1,
    ;
}

/// The frame that starts at `start`.
pub fn padded_frame(pcm: &[i16], start: usize, frame_samples: usize) -> (r: Vec<i16>)
    requires
        start <= pcm@.len(),
    ensures
        r@ == frame_at(pcm@, start as int, frame_samples as nat),
{
    let available: usize = pcm.len() - start;
    let given: usize = if available < frame_samples {
        available
    } else {
        frame_samples
    };
    let mut r: Vec<i16> = Vec::new();
    let mut i: usize = 0;
    while i < given
        invariant
            start + given <= pcm@.len(),
            start + given <= usize::MAX,
            i <= given,
            r@ == pcm@.subrange(start as int, start + i),
        decreases given - i,
    {
        r.push(pcm[start + i]);
        i = i + 1;
        assert(r@ =~= pcm@.subrange(start as int, start + i));
    }
    while i < frame_samples
        invariant
            given <= i <= frame_samples,
            start + given <= pcm@.len(),
            given < frame_samples ==> start + given == pcm@.len(),
            r@.len() == i,
            forall|j: int| 0 <= j < given ==> r@[j] == pcm@[start + j],
            forall|j: int| given <= j < i ==> r@[j] == 0,
        decreases frame_samples - i,
    {
        r.push(0);
        i = i + 1;
    }
    assert(r@ =~= frame_at(pcm@, start as int, frame_samples as nat));
    r
}

/// The frames hold the whole recording in order, followed by less than one frame
/// of silence.
pub proof fn law_frames_cover(pcm: Seq<i16>, frame_samples: nat)
    requires
        frame_samples > 0,
    ensures
        ({
            let frames = frames_of(pcm, frame_samples);
            &&& pcm.len() <= frames.len() * frame_samples < pcm.len() + frame_samples
            &&& forall|k: int| 0 <= k < frames.len() ==> (#[trigger] frames[k]).len()
                == frame_samples
            &&& forall|k: int, i: int|
                0 <= k < frames.len() && 0 <= i < frame_samples ==> #[trigger] frames[k][i] == (if k
                    * frame_samples + i < pcm.len() {
                    pcm[k * frame_samples + i]
                } else {
                    0i16
                })
        }),
{
    let len = pcm.len();
    let x = len + frame_samples - 1;
    let count = x / frame_samples as int;
    assert(count >= 0 && count * frame_samples <= x < count * frame_samples + frame_samples)
        by (nonlinear_arith)
        requires
            frame_samples > 0,
            x >= 0,
            count == x / frame_samples as int,
    ;
}

// ---------------------------------------------------------------------------
// Packet streams
// ---------------------------------------------------------------------------

/// A number below 2^32 in four bytes, least significant byte first.
pub open spec fn prefix_bytes(n: nat) -> Seq<u8> {
    seq![
        (n % 256) as u8,
        (n / 256 % 256) as u8,
        (n / 65536 % 256) as u8,
        (n / 16777216 % 256) as u8,
    ]
}

/// The number that the first four bytes give, least significant byte first.
pub open spec fn prefix_value(bytes: Seq<u8>) -> nat {
    (bytes[0] + 256 * bytes[1] + 65536 * bytes[2] + 16777216 * bytes[3]) as nat
}

/// A packet as it stands in a stream: behind its length, or not at all where it
/// is empty.
pub open spec fn framed(packet: Seq<u8>) -> Seq<u8> {
    if packet.len() == 0 {
        seq![]
    } else {
        prefix_bytes(packet.len()) + packet
    }
}

/// The stream of these packets.
pub open spec fn packet_stream(packets: Seq<Seq<u8>>) -> Seq<u8>
    decreases packets.len(),
{
    if packets.len() == 0 {
        seq![]
    } else {
        packet_stream(packets.drop_last()) + framed(packets.last())
    }
}

/// The packets of a stream, and whether it breaks off inside a packet. Less than
/// four bytes at the end are ignored.
pub open spec fn split_packets(stream: Seq<u8>) -> (Seq<Seq<u8>>, bool)
    decreases stream.len(),
{
    if stream.len() < 4 {
        (seq![], false)
    } else {
        let size = prefix_value(stream);
        let rest = stream.skip(4);
        if size == 0 {
            split_packets(rest)
        } else if size > rest.len() {
            (seq![], true)
        } else {
            let after = split_packets(rest.skip(size as int));
            (seq![rest.take(size as int)] + after.0, after.1)
        }
    }
}

/// Appends a packet to a stream.
pub fn append_packet(stream: &mut Vec<u8>, packet: &[u8])
    requires
        packet@.len() <= u32::MAX,
    ensures
        final(stream)@ == old(stream)@ + framed(packet@),
{
    if packet.len() == 0 {
        assert(stream@ =~= stream@ + framed(packet@));
        return;
    }
    let n: u32 = packet.len() as u32;
    stream.push((n % 256) as u8);
    stream.push((n / 256 % 256) as u8);
    stream.push((n / 65536 % 256) as u8);
    stream.push((n / 16777216 % 256) as u8);
    assert(stream@ =~= old(stream)@ + prefix_bytes(packet@.len()));
    stream.extend_from_slice(packet);
    assert(stream@ =~= old(stream)@ + framed(packet@));
}

/// What comes next in a stream.
#[derive(Debug)]
pub enum NextPacket {
    /// Nothing.
    End,
    /// A packet whose end is missing.
    Truncated,
    /// A packet.
    Packet(Vec<u8>),
}

/// Reads a stream packet by packet.
#[derive(Debug, Clone, Copy)]
pub struct PacketReader<'a> {
    stream: &'a [u8],
    cursor: usize,
}

impl<'a> PacketReader<'a> {
    /// What is left of the stream.
    pub closed spec fn rest(self) -> Seq<u8> {
        self.stream@.skip(self.cursor as int)
    }

    /// The reader stands inside its stream.
    pub closed spec fn wf(self) -> bool {
        self.cursor <= self.stream@.len()
    }

    /// A reader at the beginning of a stream.
    pub fn new(stream: &'a [u8]) -> (r: PacketReader<'a>)
        ensures
            r.wf(),
            r.rest() == stream@,
    {
        let r = PacketReader { stream, cursor: 0 };
        assert(r.rest() =~= stream@);
        r
    }

    /// Takes the next packet off the stream. Where there is none, asking again gives
    /// the same answer.
    pub fn next_packet(&mut self) -> (r: NextPacket)
        requires
            old(self).wf(),
        ensures
            final(self).wf(),
            match r {
                NextPacket::End => split_packets(old(self).rest()) == (
                    Seq::<Seq<u8>>::empty(),
                    false,
                ) && split_packets(final(self).rest()) == split_packets(old(self).rest()),
                NextPacket::Truncated => split_packets(old(self).rest()) == (
                    Seq::<Seq<u8>>::empty(),
                    true,
                ) && split_packets(final(self).rest()) == split_packets(old(self).rest()),
                NextPacket::Packet(packet) => packet@.len() > 0 && split_packets(old(self).rest())
                    == (
                    seq![packet@] + split_packets(final(self).rest()).0,
                    split_packets(final(self).rest()).1,
                ) && final(self).rest().len() < old(self).rest().len(),
            },
    {
        while self.stream.len() - self.cursor >= PACKET_PREFIX_BYTES
            invariant
                self.wf(),
                split_packets(self.rest()) == split_packets(old(self).rest()),
                self.rest().len() <= old(self).rest().len(),
            decreases self.stream@.len() - self.cursor,
        {
            let ghost before = self.rest();
            let c: usize = self.cursor;
            assert(before =~= self.stream@.skip(c as int));
            let size: u32 = self.stream[c] as u32 + 256 * (self.stream[c + 1] as u32) + 65536 * (
            self.stream[c + 2] as u32) + 16777216 * (self.stream[c + 3] as u32);
            assert(size == prefix_value(before));
            self.cursor = c + PACKET_PREFIX_BYTES;
            assert(self.rest() =~= before.skip(4));
            if size != 0 {
                let start: usize = self.cursor;
                let len: usize = size as usize;
                if len > self.stream.len() - start {
                    self.cursor = c;
                    assert(self.rest() =~= before);
                    return NextPacket::Truncated;
                }
                let mut packet: Vec<u8> = Vec::new();
                packet.extend_from_slice(slice_subrange(self.stream, start, start + len));
                self.cursor = start + len;
                assert(packet@ =~= before.skip(4).take(size as int));
                assert(self.rest() =~= before.skip(4).skip(size as int));
                return NextPacket::Packet(packet);
            }
        }
        NextPacket::End
    }
}

proof fn lemma_prefix(n: nat, rest: Seq<u8>)
    requires
        n <= u32::MAX,
    ensures
        prefix_value(prefix_bytes(n) + rest) == n,
{
    let s = prefix_bytes(n) + rest;
    assert(s[0] == n % 256 && s[1] == n / 256 % 256 && s[2] == n / 65536 % 256 && s[3] == n
        / 16777216 % 256);
    assert(n / 65536 == n / 256 / 256);
    assert(n / 16777216 == n / 65536 / 256);
    assert(n / 16777216 < 256);
}

/// Reading back the stream of some packets gives the packets that are not empty.
pub proof fn law_packet_roundtrip(packets: Seq<Seq<u8>>)
    requires
        forall|i: int| 0 <= i < packets.len() ==> (#[trigger] packets[i]).len() <= u32::MAX,
    ensures
        split_packets(packet_stream(packets)) == (packets.filter(|p: Seq<u8>| p.len() > 0), false),
{
    reveal(Seq::filter);
    lemma_roundtrip_before(packets, seq![]);
    assert(packet_stream(packets) + Seq::<u8>::empty() =~= packet_stream(packets));
    let kept = packets.filter(|p: Seq<u8>| p.len() > 0);
    assert(kept + Seq::<Seq<u8>>::empty() =~= kept);
}

/// The packets of a stream come before those of what follows it.
proof fn lemma_roundtrip_before(packets: Seq<Seq<u8>>, tail: Seq<u8>)
    requires
        forall|i: int| 0 <= i < packets.len() ==> (#[trigger] packets[i]).len() <= u32::MAX,
    ensures
        split_packets(packet_stream(packets) + tail) == (
            packets.filter(|p: Seq<u8>| p.len() > 0) + split_packets(tail).0,
            split_packets(tail).1,
        ),
    decreases packets.len(),
{
    reveal(Seq::filter);
    let keep = |p: Seq<u8>| p.len() > 0;
    if packets.len() == 0 {
        assert(packet_stream(packets) + tail =~= tail);
        assert(packets.filter(keep) + split_packets(tail).0 =~= split_packets(tail).0);
    } else {
        let prior = packets.drop_last();
        let last = packets.last();
        assert forall|i: int| 0 <= i < prior.len() implies (#[trigger] prior[i]).len()
            <= u32::MAX by {
            assert(prior[i] == packets[i]);
        }
        lemma_roundtrip_before(prior, framed(last) + tail);
        assert(packet_stream(packets) + tail =~= packet_stream(prior) + (framed(last) + tail));
        if last.len() == 0 {
            assert(framed(last) + tail =~= tail);
        } else {
            let s = framed(last) + tail;
            assert(s =~= prefix_bytes(last.len()) + (last + tail));
            assert(last == packets[packets.len() - 1]);
            lemma_prefix(last.len(), last + tail);
            assert(s.skip(4) =~= last + tail);
            assert((last + tail).take(last.len() as int) =~= last);
            assert((last + tail).skip(last.len() as int) =~= tail);
            assert(packets.filter(keep) =~= prior.filter(keep).push(last));
            assert(prior.filter(keep) + (seq![last] + split_packets(tail).0) =~= packets.filter(
                keep,
            ) + split_packets(tail).0);
        }
    }
}

// ---------------------------------------------------------------------------
// Encoding a recording frame by frame
// ---------------------------------------------------------------------------

/// A recording that is being encoded, in the abstract.
pub struct TrackModel {
    /// All frames of the recording.
    pub frames: Seq<Seq<i16>>,
    /// What the encoder made of the first of them.
    pub packets: Seq<Seq<u8>>,
}

/// Hands out the frames of a recording and collects the packets that an encoder
/// makes of them.
pub struct TrackEncoder<'a> {
    pcm: &'a [i16],
    frame_samples: usize,
    next: usize,
    stream: Vec<u8>,
    packets: Ghost<Seq<Seq<u8>>>,
}

impl<'a> TrackEncoder<'a> {
    /// The frames are those of the recording, the stream is that of the packets,
    /// and the next frame is the one behind those that were encoded.
    pub closed spec fn wf(self) -> bool {
        let k = self.packets@.len();
        &&& self.frame_samples > 0
        &&& k <= frame_count(self.pcm@.len(), self.frame_samples as nat)
        &&& self.next <= self.pcm@.len()
        &&& self.next < self.pcm@.len() ==> self.next == k * self.frame_samples
        &&& self.next == self.pcm@.len() ==> k == frame_count(
            self.pcm@.len(),
            self.frame_samples as nat,
        )
        &&& self.stream@ == packet_stream(self.packets@)
    }

    /// Starts with the first frame.
    pub fn new(pcm: &'a [i16], frame_samples: usize) -> (r: TrackEncoder<'a>)
        requires
            frame_samples > 0,
        ensures
            r.wf(),
            r@ == (TrackModel { frames: frames_of(pcm@, frame_samples as nat), packets: seq![] }),
    {
        proof {
            if pcm@.len() == 0 {
                lemma_frame_count(0, frame_samples as nat, 0);
            }
        }
        TrackEncoder { pcm, frame_samples, next: 0, stream: Vec::new(), packets: Ghost(Seq::empty()) }
    }

    /// The frame to encode next, if there is one.
    pub fn next_frame(&self) -> (r: Option<Vec<i16>>)
        requires
            self.wf(),
        ensures
            match r {
                Some(frame) => self@.packets.len() < self@.frames.len() && frame@
                    == self@.frames[self@.packets.len() as int],
                None => self@.packets.len() == self@.frames.len(),
            },
    {
        if self.next < self.pcm.len() {
            proof {
                lemma_frame_before(
                    self.pcm@.len(),
                    self.frame_samples as nat,
                    self.packets@.len(),
                );
            }
            Some(padded_frame(self.pcm, self.next, self.frame_samples))
        } else {
            None
        }
    }

    /// Takes the packet that the encoder made of the next frame.
    pub fn accept(&mut self, packet: &[u8])
        requires
            old(self).wf(),
            old(self)@.packets.len() < old(self)@.frames.len(),
            packet@.len() <= u32::MAX,
        ensures
            final(self).wf(),
            final(self)@ == (TrackModel {
                frames: old(self)@.frames,
                packets: old(self)@.packets.push(packet@),
            }),
    {
        let ghost k = self.packets@.len();
        append_packet(&mut self.stream, packet);
        self.packets = Ghost(self.packets@.push(packet@));
        assert(self.packets@.drop_last() =~= old(self).packets@);
        let left: usize = self.pcm.len() - self.next;
        assert((k + 1) * self.frame_samples == k * self.frame_samples + self.frame_samples)
            by (nonlinear_arith);
        if left > self.frame_samples {
            self.next = self.next + self.frame_samples;
            proof {
                lemma_frame_before(self.pcm@.len(), self.frame_samples as nat, k + 1);
            }
        } else {
            self.next = self.pcm.len();
            proof {
                lemma_frame_count(self.pcm@.len(), self.frame_samples as nat, k + 1);
            }
        }
    }

    /// The stream of all packets.
    pub fn finish(self) -> (r: Vec<u8>)
        requires
            self.wf(),
        ensures
            r@ == packet_stream(self@.packets),
    {
        self.stream
    }
}

impl<'a> View for TrackEncoder<'a> {
    type V = TrackModel;

    closed spec fn view(&self) -> TrackModel {
        TrackModel {
            frames: frames_of(self.pcm@, self.frame_samples as nat),
            packets: self.packets@,
        }
    }
}

// ---------------------------------------------------------------------------
// Collecting decoded samples
// ---------------------------------------------------------------------------

/// Appends the samples that a decoder wrote at the beginning of `scratch`: so
/// many for each channel, but no more than `scratch` holds.
pub fn append_samples(samples: &mut Vec<i16>, scratch: &[i16], per_channel: usize, channels: usize)
    ensures
        final(samples)@ == old(samples)@ + written(scratch@, per_channel as nat, channels as nat),
{
    let count: usize = match per_channel.checked_mul(channels) {
        Some(n) => if n < scratch.len() {
            n
        } else {
            scratch.len()
        },
        None => scratch.len(),
    };
    samples.extend_from_slice(slice_subrange(scratch, 0, count));
    assert(samples@ =~= old(samples)@ + scratch@.take(count as int));
}

/// The samples that a decoder wrote at the beginning of a buffer.
pub open spec fn written(scratch: Seq<i16>, per_channel: nat, channels: nat) -> Seq<i16> {
    if per_channel * channels <= scratch.len() {
        scratch.take((per_channel * channels) as int)
    } else {
        scratch
    }
}

/// Two results in a row: all samples, or the first error.
pub open spec fn join_outcomes(
    first: Result<Seq<i16>, Seq<char>>,
    second: Result<Seq<i16>, Seq<char>>,
) -> Result<Seq<i16>, Seq<char>> {
    match (first, second) {
        (Err(e), _) => Err(e),
        (Ok(_), Err(e)) => Err(e),
        (Ok(a), Ok(b)) => Ok(a + b),
    }
}

/// A packet stream that is being decoded, in the abstract.
pub struct StreamModel {
    /// The packets that were not handed out yet.
    pub left: Seq<Seq<u8>>,
    /// Whether the stream breaks off inside a packet.
    pub broken: bool,
    /// The samples so far, or the first refusal.
    pub outcome: Result<Seq<i16>, Seq<char>>,
    /// The text of the error for a stream that breaks off.
    pub truncated: Seq<char>,
}

/// Hands out the packets of a stream and collects the samples that a decoder
/// makes of them.
#[derive(Debug)]
pub struct StreamDecoder<'a> {
    reader: PacketReader<'a>,
    samples: Vec<i16>,
    refusal: Option<String>,
    truncated: String,
}

impl<'a> View for StreamDecoder<'a> {
    type V = StreamModel;

    closed spec fn view(&self) -> StreamModel {
        StreamModel {
            left: split_packets(self.reader.rest()).0,
            broken: split_packets(self.reader.rest()).1,
            outcome: match self.refusal {
                Some(e) => Err(e@),
                None => Ok(self.samples@),
            },
            truncated: self.truncated@,
        }
    }
}

impl<'a> StreamDecoder<'a> {
    /// The reader stands inside its stream.
    pub closed spec fn wf(self) -> bool {
        self.reader.wf()
    }

    /// Starts with the first packet. `truncated` is the text of the error for a
    /// stream that breaks off inside a packet.
    pub fn new(stream: &'a [u8], truncated: String) -> (r: StreamDecoder<'a>)
        ensures
            r.wf(),
            r@ == (StreamModel {
                left: split_packets(stream@).0,
                broken: split_packets(stream@).1,
                outcome: Ok(seq![]),
                truncated: truncated@,
            }),
            forall|i: int| 0 <= i < r@.left.len() ==> (#[trigger] r@.left[i]).len() > 0,
    {
        let r = StreamDecoder {
            reader: PacketReader::new(stream),
            samples: Vec::new(),
            refusal: None,
            truncated,
        };
        proof {
            lemma_packets_not_empty(stream@);
            assert(r.samples@ =~= seq![]);
        }
        r
    }

    /// The packet to decode next, if there is one and none was refused.
    pub fn next_packet(&mut self) -> (r: Option<Vec<u8>>)
        requires
            old(self).wf(),
        ensures
            final(self).wf(),
            match r {
                Some(packet) => {
                    &&& old(self)@.outcome is Ok
                    &&& old(self)@.left.len() > 0
                    &&& packet@ == old(self)@.left[0]
                    &&& packet@.len() > 0
                    &&& final(self)@ == (StreamModel {
                        left: old(self)@.left.skip(1),
                        ..old(self)@
                    })
                },
                None => {
                    &&& old(self)@.outcome is Err || old(self)@.left.len() == 0
                    &&& final(self)@ == old(self)@
                },
            },
    {
        if self.refusal.is_some() {
            return None;
        }
        let mut ahead: PacketReader = self.reader;
        match ahead.next_packet() {
            NextPacket::Packet(packet) => {
                proof {
                    let tail = split_packets(ahead.rest()).0;
                    assert(old(self)@.left == seq![packet@] + tail);
                    assert(old(self)@.left[0] == packet@);
                    assert(tail =~= old(self)@.left.skip(1));
                }
                self.reader = ahead;
                Some(packet)
            },
            _ => None,
        }
    }

    /// Takes what the decoder made of the packet that was handed out last. A
    /// refusal is final.
    pub fn accept(&mut self, reply: Result<Vec<i16>, String>)
        requires
            old(self).wf(),
        ensures
            final(self).wf(),
            final(self)@ == (StreamModel {
                outcome: join_outcomes(
                    old(self)@.outcome,
                    match reply {
                        Ok(samples) => Ok(samples@),
                        Err(e) => Err(e@),
                    },
                ),
                ..old(self)@
            }),
    {
        if self.refusal.is_none() {
            match reply {
                Ok(samples) => {
                    self.samples.extend_from_slice(samples.as_slice());
                    assert(self.samples@ =~= old(self).samples@ + samples@);
                },
                Err(e) => {
                    self.refusal = Some(e);
                },
            }
        }
    }

    /// The result: the refusal, or all samples unless the stream breaks off behind
    /// the packets that were handed out.
    pub fn finish(self) -> (r: Result<Vec<i16>, String>)
        requires
            self.wf(),
        ensures
            (match r {
                Ok(samples) => Ok::<Seq<i16>, Seq<char>>(samples@),
                Err(e) => Err(e@),
            }) == (if self@.outcome is Ok && self@.left.len() == 0 && self@.broken {
                Err(self@.truncated)
            } else {
                self@.outcome
            }),
    {
        let mut reader: PacketReader = self.reader;
        match self.refusal {
            Some(e) => Err(e),
            None => match reader.next_packet() {
                NextPacket::Truncated => Err(self.truncated),
                _ => Ok(self.samples),
            },
        }
    }
}

/// No packet that is read from a stream is empty.
proof fn lemma_packets_not_empty(stream: Seq<u8>)
    ensures
        forall|i: int|
            0 <= i < split_packets(stream).0.len() ==> (#[trigger] split_packets(
                stream,
            ).0[i]).len() > 0,
    decreases stream.len(),
{
    let all = split_packets(stream).0;
    if stream.len() >= 4 {
        let size = prefix_value(stream);
        let rest = stream.skip(4);
        if size == 0 {
            lemma_packets_not_empty(rest);
            assert(all == split_packets(rest).0);
        } else if size <= rest.len() {
            lemma_packets_not_empty(rest.skip(size as int));
            let after = split_packets(rest.skip(size as int)).0;
            assert(all == seq![rest.take(size as int)] + after);
            assert forall|i: int| 0 <= i < all.len() implies (#[trigger] all[i]).len() > 0 by {
                if i > 0 {
                    assert(all[i] == after[i - 1]);
                } else {
                    assert(all[0] == rest.take(size as int));
                }
            }
        } else {
            assert(all.len() == 0);
        }
    } else {
        assert(all.len() == 0);
    }
}

/// A packet that holds anything stands in a stream behind its length, which takes
/// four bytes, the least significant one first; an empty packet is left out. A stream
/// grows at its end.
pub proof fn law_packet_layout(packets: Seq<Seq<u8>>, packet: Seq<u8>)
    requires
        packet.len() <= u32::MAX,
    ensures
        ({
            let before = packet_stream(packets);
            let stream = packet_stream(packets.push(packet));
            &&& packet.len() == 0 ==> stream == before
            &&& packet.len() > 0 ==> {
                let k = before.len() as int;
                &&& stream.len() == k + 4 + packet.len()
                &&& stream.take(k) == before
                &&& stream[k] + 256 * stream[k + 1] + 65536 * stream[k + 2] + 16777216 * stream[k
                    + 3] == packet.len()
                &&& stream.skip(k + 4) == packet
            }
        }),
        packet_stream(Seq::<Seq<u8>>::empty()).len() == 0,
{
    let before = packet_stream(packets);
    let stream = packet_stream(packets.push(packet));
    assert(packets.push(packet).drop_last() =~= packets);
    let k = before.len() as int;
    if packet.len() == 0 {
        assert(stream =~= before);
    } else {
        lemma_prefix(packet.len(), packet);
        let frame = framed(packet);
        assert(frame =~= prefix_bytes(packet.len()) + packet);
        assert(stream[k] == frame[0] && stream[k + 1] == frame[1] && stream[k + 2] == frame[2]
            && stream[k + 3] == frame[3]);
        assert(stream.take(k) =~= before);
        assert(stream.skip(k + 4) =~= packet);
    }
}

/// How a stream is read: fewer than four bytes hold no packet; a length of zero is
/// passed over; a length behind which there are fewer bytes is where the stream breaks
/// off; else so many bytes are the next packet, and the rest is read in the same way.
pub proof fn law_stream_reading(stream: Seq<u8>)
    ensures
        stream.len() < 4 ==> split_packets(stream) == (Seq::<Seq<u8>>::empty(), false),
        stream.len() >= 4 ==> {
            let size = stream[0] + 256 * stream[1] + 65536 * stream[2] + 16777216 * stream[3];
            &&& size == 0 ==> split_packets(stream) == split_packets(stream.skip(4))
            &&& size > stream.len() - 4 ==> split_packets(stream) == (
                Seq::<Seq<u8>>::empty(),
                true,
            )
            &&& 0 < size <= stream.len() - 4 ==> {
                let rest = split_packets(stream.skip(4 + size));
                split_packets(stream) == (seq![stream.subrange(4, 4 + size)] + rest.0, rest.1)
            }
        },
{
    if stream.len() >= 4 {
        let size = prefix_value(stream) as int;
        let rest = stream.skip(4);
        if 0 < size <= rest.len() {
            assert(rest.take(size) =~= stream.subrange(4, 4 + size));
            assert(rest.skip(size) =~= stream.skip(4 + size));
        }
    }
}

/// The samples that a decoder wrote are the beginning of its buffer: so many for each
/// channel, or the whole buffer where that is less.
pub proof fn law_written_samples(scratch: Seq<i16>, per_channel: nat, channels: nat)
    ensures
        ({
            let w = written(scratch, per_channel, channels);
            &&& w.len() <= scratch.len()
            &&& w.len() <= per_channel * channels
            &&& w.len() == scratch.len() || w.len() == per_channel * channels
            &&& forall|i: int| 0 <= i < w.len() ==> #[trigger] w[i] == scratch[i]
        }),
{
}

} // verus!
