//! Encode every frame of a recording and decode it straight back.
//!
//! The codec is not called from here. A [`Session`] decides what is asked of it next, and is
//! told what came of it: which frames go in, what becomes of each packet, when to stop, and
//! how the samples that come out line up with the recording.

use crate::ogg;
use crate::wav::Wav;
use vstd::prelude::*;
use vstd::slice::slice_subrange;
use vstd::string::*;

verus! {

/// The duration of a frame.
pub const FRAME_MS: u32 = 20;

/// The most bytes that a packet may have.
pub const PACKET_LIMIT: usize = 4000;

/// The complexity that the encoder is set to.
pub const COMPLEXITY: i32 = 10;

/// What the codec takes: one channel or two.
#[derive(Clone, Copy, Debug, PartialEq, Eq, Structural)]
pub enum Channels {
    Mono,
    Stereo,
}

/// The samples in a frame, on one channel.
pub open spec fn frame_size(rate: u32) -> nat {
    (rate / 1000) as nat * FRAME_MS as nat
}

/// The samples in a frame, on one channel.
pub fn frame_len(rate: u32) -> (n: usize)
    ensures
        n == frame_size(rate),
{
    (rate / 1000 * FRAME_MS) as usize
}

/// How the codec treats a recording: as stereo if it has two channels, else as mono.
pub open spec fn layout(channels: u16) -> Channels {
    if channels == 2 {
        Channels::Stereo
    } else {
        Channels::Mono
    }
}

/// How the codec treats a recording.
pub fn layout_of(channels: u16) -> (c: Channels)
    ensures
        c == layout(channels),
{
    if channels == 2 {
        Channels::Stereo
    } else {
        Channels::Mono
    }
}

/// What comes of a recording: the compressed stream, and that stream decoded again.
pub struct Trip {
    pub decoded: Wav,
    /// The compressed stream, one entry per 20 ms frame: what goes into the `.opus` file.
    pub packets: Vec<Vec<u8>>,
    /// Encoder delay at the input rate.
    pub lookahead: usize,
}

/// What a trip holds.
#[verifier::ext_equal]
pub struct TripData {
    pub decoded: crate::wav::WavData,
    pub packets: Seq<Seq<u8>>,
    pub lookahead: nat,
}

impl View for Trip {
    type V = TripData;

    open spec fn view(&self) -> TripData {
        TripData {
            decoded: self.decoded@,
            packets: ogg::contents(self.packets@),
            lookahead: self.lookahead as nat,
        }
    }
}

impl Trip {
    /// How many bytes the compressed stream has.
    pub fn bytes(&self) -> (n: usize)
        requires
            ogg::joined(self@.packets).len() <= usize::MAX,
        ensures
            n == ogg::joined(self@.packets).len(),
    {
        let ghost ps = self@.packets;
        let k: usize = self.packets.len();
        let mut n: usize = 0;
        let mut i: usize = 0;
        assert(ps.take(0) =~= Seq::empty());
        while i < k
            invariant
                k == self.packets@.len(),
                ps == self@.packets,
                i <= k,
                n == ogg::joined(ps.take(i as int)).len(),
                ogg::joined(ps).len() <= usize::MAX,
            decreases k - i,
        {
            proof {
                assert(ps.take(i + 1) =~= ps.take(i as int).push(ps[i as int]));
                ogg::lemma_lacing_push(ps.take(i as int), ps[i as int]);
                ogg::lemma_joined_grows(ps, i + 1);
            }
            n = n + self.packets[i].len();
            i = i + 1;
        }
        assert(ps.take(k as int) =~= ps);
        n
    }
}

/// Samples that are all zero.
pub open spec fn silence(n: nat) -> Seq<i16> {
    Seq::new(n, |i: int| 0i16)
}

/// The samples missing from `len` to whole blocks.
pub open spec fn padding(len: nat, block: nat) -> nat {
    if len % block == 0 {
        0
    } else {
        (block - len % block) as nat
    }
}

/// How many blocks the samples fill, the last one padded.
pub open spec fn block_count(len: nat, block: nat) -> nat {
    (len + padding(len, block)) / block
}

/// What the encoder is given: the samples, padded with silence to a whole block, for the codec
/// has no notion of a partial frame, and one more silent block, so the tail still inside the
/// decoder comes out.
pub open spec fn framed(samples: Seq<i16>, block: nat) -> Seq<i16> {
    samples + silence(padding(samples.len(), block)) + silence(block)
}

/// One block of what the encoder is given.
pub open spec fn block_at(samples: Seq<i16>, block: nat, i: nat) -> Seq<i16> {
    framed(samples, block).subrange((i * block) as int, ((i + 1) * block) as int)
}

/// Whether a recording can be cut into frames: they are not empty, and what goes into the
/// encoder and comes out of the decoder fits the memory.
pub open spec fn can_frame(source: crate::wav::WavData, delay: nat) -> bool {
    let block = frame_size(source.rate) * source.channels as nat;
    &&& block > 0
    &&& framed(source.samples, block).len() + delay * source.channels as nat <= usize::MAX
}

/// Whether a recording can be cut into frames, given the codec delay.
pub fn frames_fit(source: &Wav, delay: usize) -> (yes: bool)
    ensures
        yes == can_frame(source@, delay as nat),
{
    let channels: u128 = source.channels as u128;
    let frame: u128 = frame_len(source.rate) as u128;
    let len: u128 = source.samples.len() as u128;
    let ghost (c, f, d) = (channels as nat, frame as nat, delay as nat);
    assert(f * c <= 0xFFFF_FFFF * 0xFFFF && d * c <= 0xFFFF_FFFF_FFFF_FFFF * 0xFFFF) by (nonlinear_arith)
        requires
            f <= 0xFFFF_FFFF,
            c <= 0xFFFF,
            d <= 0xFFFF_FFFF_FFFF_FFFF,
    ;
    let block: u128 = frame * channels;
    if block == 0 {
        return false;
    }
    let over: u128 = len % block;
    let missing: u128 = if over == 0 {
        0
    } else {
        block - over
    };
    len + missing + block + delay as u128 * channels <= usize::MAX as u128
}

/// The decoder's output lined up with the recording: without the codec delay at the front,
/// and exactly `len` samples, silence where the output is too short.
pub open spec fn aligned(output: Seq<i16>, delay: nat, len: nat) -> Seq<i16> {
    Seq::new(
        len,
        |i: int|
            if delay + i < output.len() {
                output[delay + i]
            } else {
                0i16
            },
    )
}

pub proof fn lemma_blocks(len: nat, block: nat)
    requires
        block > 0,
    ensures
        padding(len, block) < block,
        len + padding(len, block) == block_count(len, block) * block,
{
    let total = len + padding(len, block);
    vstd::arithmetic::div_mod::lemma_fundamental_div_mod(len as int, block as int);
    vstd::arithmetic::div_mod::lemma_fundamental_div_mod(total as int, block as int);
    let q = len / block;
    if len % block == 0 {
        assert(total % block == 0);
    } else {
        assert(total == block * q + block);
        assert(block * q + block == block * (q + 1)) by (nonlinear_arith);
        vstd::arithmetic::div_mod::lemma_mod_multiples_basic((q + 1) as int, block as int);
        assert(block * (q + 1) == (q + 1) * block) by (nonlinear_arith);
        assert(total % block == 0);
    }
    assert(block * (total / block) == (total / block) * block) by (nonlinear_arith);
}

/// A block lies inside what the encoder is given.
pub proof fn lemma_block_inside(len: nat, block: nat, i: nat)
    requires
        block > 0,
        i <= block_count(len, block),
    ensures
        i * block + block <= len + padding(len, block) + block,
        (i + 1) * block == i * block + block,
{
    lemma_blocks(len, block);
    let n = block_count(len, block);
    assert(i * block <= n * block) by (nonlinear_arith)
        requires
            i <= n,
    ;
    assert((i + 1) * block == i * block + block) by (nonlinear_arith);
}

/// Lines the decoder's output up with the recording.
pub fn align(output: &[i16], delay: usize, len: usize) -> (samples: Vec<i16>)
    ensures
        samples@ == aligned(output@, delay as nat, len as nat),
{
    let n: usize = output.len();
    let mut samples: Vec<i16> = Vec::with_capacity(len);
    let mut i: usize = 0;
    while i < len
        invariant
            n == output@.len(),
            i <= len,
            samples@ == aligned(output@, delay as nat, len as nat).take(i as int),
        decreases len - i,
    {
        let s: i16 = if i < n && delay < n - i {
            output[delay + i]
        } else {
            0
        };
        samples.push(s);
        i = i + 1;
        assert(samples@ =~= aligned(output@, delay as nat, len as nat).take(i as int));
    }
    assert(samples@ =~= aligned(output@, delay as nat, len as nat));
    samples
}

/// Appends silence.
fn put_silence(samples: &mut Vec<i16>, n: usize)
    ensures
        final(samples)@ == old(samples)@ + silence(n as nat),
{
    let mut i: usize = 0;
    assert(samples@ =~= old(samples)@ + silence(0));
    while i < n
        invariant
            i <= n,
            samples@ == old(samples)@ + silence(i as nat),
        decreases n - i,
    {
        samples.push(0);
        i = i + 1;
        assert(samples@ =~= old(samples)@ + silence(i as nat));
    }
}

/// How far a session has come: what it is waiting for.
#[derive(Clone, Copy, Debug, PartialEq, Eq, Structural)]
pub enum Stage {
    Encoder,
    Bitrate,
    Complexity,
    Lookahead,
    Decoder,
    Packet,
    Pcm,
    Over,
}

/// What a session asks for next.
pub enum Step {
    CreateEncoder { rate: u32, channels: Channels },
    SetBitrate(i32),
    SetComplexity(i32),
    ReadLookahead,
    CreateDecoder { rate: u32, channels: Channels },
    Encode { pcm: Vec<i16>, limit: usize },
    Decode(Vec<u8>),
    Done(Trip),
    Fail(String),
}

/// What came of the last step.
pub enum Reply {
    Ready,
    Lookahead(i32),
    Packet(Vec<u8>),
    /// A buffer, and how many samples per channel of it were decoded.
    Pcm { buffer: Vec<i16>, got: usize },
    Failed(String),
}

/// What a step asks for.
#[verifier::ext_equal]
pub enum StepData {
    CreateEncoder { rate: u32, channels: Channels },
    SetBitrate(i32),
    SetComplexity(i32),
    ReadLookahead,
    CreateDecoder { rate: u32, channels: Channels },
    Encode { pcm: Seq<i16>, limit: usize },
    Decode(Seq<u8>),
    Done(TripData),
    Fail(Seq<char>),
}

/// What a reply says.
#[verifier::ext_equal]
pub enum ReplyData {
    Ready,
    Lookahead(int),
    Packet(Seq<u8>),
    Pcm(Seq<i16>),
    Failed(Seq<char>),
}

impl View for Step {
    type V = StepData;

    open spec fn view(&self) -> StepData {
        match *self {
            Step::CreateEncoder { rate, channels } => StepData::CreateEncoder { rate, channels },
            Step::SetBitrate(b) => StepData::SetBitrate(b),
            Step::SetComplexity(c) => StepData::SetComplexity(c),
            Step::ReadLookahead => StepData::ReadLookahead,
            Step::CreateDecoder { rate, channels } => StepData::CreateDecoder { rate, channels },
            Step::Encode { pcm, limit } => StepData::Encode { pcm: pcm@, limit },
            Step::Decode(p) => StepData::Decode(p@),
            Step::Done(t) => StepData::Done(t@),
            Step::Fail(e) => StepData::Fail(e@),
        }
    }
}

impl Reply {
    /// What a reply says, for a recording with some number of channels.
    pub open spec fn said(self, channels: u16) -> ReplyData {
        match self {
            Reply::Ready => ReplyData::Ready,
            Reply::Lookahead(n) => ReplyData::Lookahead(n as int),
            Reply::Packet(p) => ReplyData::Packet(p@),
            Reply::Pcm { buffer, got } => ReplyData::Pcm(buffer@.take(got * channels)),
            Reply::Failed(e) => ReplyData::Failed(e@),
        }
    }
}

/// Where a session stands.
#[verifier::ext_equal]
pub struct SessionData {
    pub stage: Stage,
    pub source: crate::wav::WavData,
    pub kbps: i32,
    pub lookahead: nat,
    pub packets: Seq<Seq<u8>>,
    pub output: Seq<i16>,
}

impl SessionData {
    /// The samples in a frame, on all channels.
    pub open spec fn block(self) -> nat {
        frame_size(self.source.rate) * self.source.channels as nat
    }

    /// How many frames the recording fills.
    pub open spec fn frames(self) -> nat {
        block_count(self.source.samples.len(), self.block())
    }

    pub open spec fn at(self, stage: Stage) -> SessionData {
        SessionData { stage, ..self }
    }

    /// The frame that comes next.
    pub open spec fn next_frame(self) -> StepData {
        StepData::Encode {
            pcm: block_at(self.source.samples, self.block(), self.packets.len()),
            limit: PACKET_LIMIT,
        }
    }

    /// The result of a session whose frames have all been through.
    pub open spec fn result(self) -> TripData {
        TripData {
            decoded: crate::wav::WavData {
                rate: self.source.rate,
                channels: self.source.channels,
                samples: aligned(
                    self.output,
                    self.lookahead * self.source.channels as nat,
                    self.source.samples.len(),
                ),
            },
            packets: self.packets,
            lookahead: self.lookahead,
        }
    }

    /// After a frame went through: the next one, or the end after the silent one.
    pub open spec fn onward(self) -> (SessionData, StepData) {
        if self.packets.len() <= self.frames() {
            (self.at(Stage::Packet), self.next_frame())
        } else {
            (self.at(Stage::Over), StepData::Done(self.result()))
        }
    }

    /// What a session does when told of a failure. A failure to decode the last packet, the
    /// silent one, is no failure of the session.
    pub open spec fn failed(self, e: Seq<char>) -> (SessionData, StepData) {
        let over = self.at(Stage::Over);
        match self.stage {
            Stage::Encoder => (over, StepData::Fail("cannot create the encoder: "@ + e)),
            Stage::Packet => if self.packets.len() < self.frames() {
                (over, StepData::Fail("encode failed: "@ + e))
            } else {
                (over, StepData::Fail(e))
            },
            Stage::Pcm => if self.packets.len() <= self.frames() {
                (over, StepData::Fail("decode failed: "@ + e))
            } else {
                self.onward()
            },
            _ => (over, StepData::Fail(e)),
        }
    }

    /// What a session does with a reply.
    pub open spec fn next(self, reply: ReplyData) -> (SessionData, StepData) {
        match reply {
            ReplyData::Failed(e) => self.failed(e),
            ReplyData::Lookahead(n) => (
                SessionData { stage: Stage::Decoder, lookahead: n as nat, ..self },
                StepData::CreateDecoder {
                    rate: self.source.rate,
                    channels: layout(self.source.channels),
                },
            ),
            ReplyData::Packet(p) => (
                SessionData { stage: Stage::Pcm, packets: self.packets.push(p), ..self },
                StepData::Decode(p),
            ),
            ReplyData::Pcm(pcm) => SessionData { output: self.output + pcm, ..self }.onward(),
            ReplyData::Ready => match self.stage {
                Stage::Encoder => (
                    self.at(Stage::Bitrate),
                    StepData::SetBitrate((self.kbps * 1000) as i32),
                ),
                Stage::Bitrate => (
                    self.at(Stage::Complexity),
                    StepData::SetComplexity(COMPLEXITY),
                ),
                Stage::Complexity => (self.at(Stage::Lookahead), StepData::ReadLookahead),
                _ => (self.at(Stage::Packet), self.next_frame()),
            },
        }
    }

    /// Whether a reply answers what was asked, and the session can go on from it: the bitrate
    /// fits its field, the delay is not negative, and the frames can be made.
    pub open spec fn answered(self, reply: ReplyData) -> bool {
        match reply {
            ReplyData::Failed(_) => self.stage != Stage::Over,
            ReplyData::Lookahead(n) => self.stage == Stage::Lookahead && n >= 0,
            ReplyData::Packet(_) => self.stage == Stage::Packet,
            ReplyData::Pcm(_) => self.stage == Stage::Pcm,
            ReplyData::Ready => match self.stage {
                Stage::Encoder => i32::MIN <= self.kbps * 1000 <= i32::MAX,
                Stage::Bitrate | Stage::Complexity => true,
                Stage::Decoder => can_frame(self.source, self.lookahead),
                _ => false,
            },
        }
    }
}

/// The encoding and decoding of one recording at one bitrate.
pub struct Session {
    stage: Stage,
    rate: u32,
    channels: u16,
    kbps: i32,
    /// How many samples of `input` are the recording.
    total: usize,
    /// The recording; once the codec is set up, all that the encoder is given.
    input: Vec<i16>,
    block: usize,
    lookahead: usize,
    packets: Vec<Vec<u8>>,
    output: Vec<i16>,
}

impl View for Session {
    type V = SessionData;

    closed spec fn view(&self) -> SessionData {
        SessionData {
            stage: self.stage,
            source: crate::wav::WavData {
                rate: self.rate,
                channels: self.channels,
                samples: self.input@.take(self.total as int),
            },
            kbps: self.kbps,
            lookahead: self.lookahead as nat,
            packets: ogg::contents(self.packets@),
            output: self.output@,
        }
    }
}

impl Session {
    /// Whether the parts of a session agree.
    pub closed spec fn wf(&self) -> bool {
        &&& self.total <= self.input@.len()
        &&& match self.stage {
            Stage::Over => true,
            Stage::Packet | Stage::Pcm => {
                &&& self.block > 0
                &&& self.block == self@.block()
                &&& self.input@ == framed(self@.source.samples, self.block as nat)
                &&& self.lookahead * self.channels <= usize::MAX
                &&& if self.stage == Stage::Packet {
                    self.packets@.len() <= self@.frames()
                } else {
                    0 < self.packets@.len() <= self@.frames() + 1
                }
            },
            _ => self.total == self.input@.len() && self.packets@.len() == 0,
        }
    }

    /// Opens a session: the first thing asked for is an encoder.
    pub fn start(source: &Wav, kbps: i32) -> (r: (Session, Step))
        ensures
            r.0.wf(),
            r.0@ == (SessionData {
                stage: Stage::Encoder,
                source: source@,
                kbps,
                lookahead: 0,
                packets: Seq::empty(),
                output: Seq::empty(),
            }),
            r.1@ == (StepData::CreateEncoder {
                rate: source.rate,
                channels: layout(source.channels),
            }),
    {
        let input: Vec<i16> = source.samples.clone();
        assert(input@ =~= source.samples@);
        let session = Session {
            stage: Stage::Encoder,
            rate: source.rate,
            channels: source.channels,
            kbps,
            total: input.len(),
            input,
            block: 0,
            lookahead: 0,
            packets: Vec::new(),
            output: Vec::new(),
        };
        proof {
            assert(session@.source.samples =~= source.samples@);
            assert(session@.packets =~= Seq::empty());
        }
        (
            session,
            Step::CreateEncoder { rate: source.rate, channels: layout_of(source.channels) },
        )
    }

    /// The frame that comes next.
    fn next_frame(&self) -> (s: Step)
        requires
            self.wf(),
            self.stage == Stage::Packet,
        ensures
            s@ == self@.next_frame(),
    {
        proof {
            lemma_block_inside(self.total as nat, self.block as nat, self.packets@.len());
            assert(self.input.len() == self.input@.len());
        }
        let from: usize = self.packets.len() * self.block;
        let part: &[i16] = slice_subrange(self.input.as_slice(), from, from + self.block);
        let pcm: Vec<i16> = vstd::slice::slice_to_vec(part);
        Step::Encode { pcm, limit: PACKET_LIMIT }
    }

    /// After a frame went through.
    fn onward(&mut self) -> (s: Step)
        requires
            old(self).wf(),
            old(self).stage == Stage::Pcm,
        ensures
            final(self).wf(),
            (final(self)@, s@) == old(self)@.onward(),
    {
        proof {
            lemma_blocks(self.total as nat, self.block as nat);
            lemma_block_inside(self.total as nat, self.block as nat, self@.frames());
        }
        // The silent frame is the last one in the input.
        let n: usize = self.input.len() / self.block;
        assert(n == self@.frames() + 1) by {
            let (b, f) = (self.block as int, self@.frames() as int);
            assert(self.input@.len() == (f + 1) * b);
            vstd::arithmetic::div_mod::lemma_div_by_multiple(f + 1, b);
        }
        if self.packets.len() < n {
            self.stage = Stage::Packet;
            self.next_frame()
        } else {
            self.stage = Stage::Over;
            let decoded = Wav {
                rate: self.rate,
                channels: self.channels,
                samples: align(
                    self.output.as_slice(),
                    self.lookahead * self.channels as usize,
                    self.total,
                ),
            };
            let mut packets: Vec<Vec<u8>> = Vec::new();
            copy_packets(&self.packets, &mut packets);
            Step::Done(Trip { decoded, packets, lookahead: self.lookahead })
        }
    }

    /// Goes on from what came of the last step.
    pub fn step(&mut self, reply: Reply) -> (s: Step)
        requires
            old(self).wf(),
            old(self)@.answered(reply.said(old(self)@.source.channels)),
            reply matches Reply::Pcm { buffer, got } ==> got * old(self)@.source.channels
                <= buffer@.len(),
        ensures
            final(self).wf(),
            (final(self)@, s@) == old(self)@.next(reply.said(old(self)@.source.channels)),
    {
        match reply {
            Reply::Failed(e) => self.fail(e),
            Reply::Lookahead(n) => {
                self.stage = Stage::Decoder;
                self.lookahead = n as usize;
                Step::CreateDecoder { rate: self.rate, channels: layout_of(self.channels) }
            },
            Reply::Packet(p) => {
                self.stage = Stage::Pcm;
                let ghost before = self@.packets;
                let copy: Vec<u8> = vstd::slice::slice_to_vec(p.as_slice());
                self.packets.push(p);
                assert(self@.packets =~= before.push(p@));
                Step::Decode(copy)
            },
            Reply::Pcm { buffer, got } => {
                let ghost before = self.output@;
                assert(buffer.len() == buffer@.len());
                let n: usize = got * self.channels as usize;
                self.output.extend_from_slice(slice_subrange(buffer.as_slice(), 0, n));
                proof {
                    assert(buffer@.subrange(0, n as int) =~= buffer@.take(n as int));
                    assert(self.output@ =~= before + buffer@.take(n as int));
                }
                self.onward()
            },
            Reply::Ready => match self.stage {
                Stage::Encoder => {
                    self.stage = Stage::Bitrate;
                    Step::SetBitrate(self.kbps * 1000)
                },
                Stage::Bitrate => {
                    self.stage = Stage::Complexity;
                    Step::SetComplexity(COMPLEXITY)
                },
                Stage::Complexity => {
                    self.stage = Stage::Lookahead;
                    Step::ReadLookahead
                },
                _ => {
                    self.frame();
                    self.next_frame()
                },
            },
        }
    }

    /// Pads the recording to whole frames and adds the silent one.
    fn frame(&mut self)
        requires
            old(self).wf(),
            old(self).stage == Stage::Decoder,
            can_frame(old(self)@.source, old(self)@.lookahead),
        ensures
            final(self).wf(),
            final(self)@ == old(self)@.at(Stage::Packet),
    {
        let ghost before = self@;
        let ghost samples = self.input@;
        proof {
            assert(self.input@.take(self.total as int) =~= samples);
            lemma_blocks(samples.len(), before.block());
        }
        let block: usize = frame_len(self.rate) * self.channels as usize;
        let over: usize = self.total % block;
        let missing: usize = if over == 0 {
            0
        } else {
            block - over
        };
        put_silence(&mut self.input, missing);
        put_silence(&mut self.input, block);
        self.block = block;
        self.stage = Stage::Packet;
        proof {
            assert(self.input@ =~= framed(samples, block as nat));
            assert(self.input@.take(self.total as int) =~= samples);
        }
    }

    /// What a failure means at this point.
    fn fail(&mut self, e: String) -> (s: Step)
        requires
            old(self).wf(),
            old(self).stage != Stage::Over,
        ensures
            final(self).wf(),
            (final(self)@, s@) == old(self)@.failed(e@),
    {
        match self.stage {
            Stage::Encoder => {
                self.stage = Stage::Over;
                Step::Fail("cannot create the encoder: ".to_owned().concat(e.as_str()))
            },
            Stage::Packet => {
                let last: bool = self.flushing();
                self.stage = Stage::Over;
                if last {
                    Step::Fail(e)
                } else {
                    Step::Fail("encode failed: ".to_owned().concat(e.as_str()))
                }
            },
            Stage::Pcm => if self.flushing() {
                self.onward()
            } else {
                self.stage = Stage::Over;
                Step::Fail("decode failed: ".to_owned().concat(e.as_str()))
            },
            _ => {
                self.stage = Stage::Over;
                Step::Fail(e)
            },
        }
    }

    /// Whether the frame in hand is the silent one.
    fn flushing(&self) -> (yes: bool)
        requires
            self.wf(),
            self.stage == Stage::Packet || self.stage == Stage::Pcm,
        ensures
            yes == (if self.stage == Stage::Packet {
                self.packets@.len() == self@.frames()
            } else {
                self.packets@.len() == self@.frames() + 1
            }),
    {
        proof {
            lemma_blocks(self.total as nat, self.block as nat);
            let (b, f) = (self.block as int, self@.frames() as int);
            assert((f + 1) * b == f * b + b) by (nonlinear_arith);
            vstd::arithmetic::div_mod::lemma_div_by_multiple(f + 1, b);
        }
        let n: usize = self.input.len() / self.block;
        match self.stage {
            Stage::Packet => self.packets.len() + 1 == n,
            _ => self.packets.len() == n,
        }
    }
}

/// Copies packets.
fn copy_packets(from: &Vec<Vec<u8>>, to: &mut Vec<Vec<u8>>)
    requires
        old(to)@.len() == 0,
    ensures
        ogg::contents(final(to)@) == ogg::contents(from@),
{
    let n: usize = from.len();
    let mut i: usize = 0;
    while i < n
        invariant
            n == from@.len(),
            i <= n,
            to@.len() == i,
            forall|k: int| 0 <= k < i ==> (#[trigger] to@[k])@ == from@[k]@,
        decreases n - i,
    {
        to.push(vstd::slice::slice_to_vec(from[i].as_slice()));
        i = i + 1;
    }
    assert(ogg::contents(to@) =~= ogg::contents(from@));
}

} // verus!
