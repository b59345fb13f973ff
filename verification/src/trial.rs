//! Encode, inspect, decode, compare: the trial of a codec in one configuration.
//!
//! The codec is not called from here. A [`Trial`] decides what is asked of it next, is told
//! what came of it, and makes its claims on the way.

use crate::report::Claim;
use crate::trip::{Channels, PACKET_LIMIT};
use crate::{compare, report, text};
use vstd::prelude::*;
use vstd::slice::slice_to_vec;
use vstd::string::*;

verus! {

/// How many frames go through. The first carry encoder lookahead and decoder warm-up, so only
/// the steady state is worth comparing with the input.
pub const ROUNDS: usize = 10;

/// The bitrate that the encoder is set to.
pub const BITRATE: i32 = 64_000;

/// The complexity that the encoder is set to.
pub const COMPLEXITY: i32 = 8;

/// The packet loss, in percent, that the encoder is told to expect.
pub const PACKET_LOSS: i32 = 10;

/// What the encoder is tuned for.
#[derive(Clone, Copy, Debug, PartialEq, Eq, Structural)]
pub enum Application {
    Voip,
    Audio,
}

/// A bitrate as an encoder reports it.
#[derive(Clone, Copy, Debug, PartialEq, Eq, Structural)]
pub enum Bitrate {
    Bits(i32),
    Max,
    Auto,
}

/// One setting of the encoder.
#[derive(Clone, Copy, Debug, PartialEq, Eq, Structural)]
pub enum Setting {
    Bitrate(i32),
    Complexity(i32),
    Vbr(bool),
    InbandFec(bool),
    PacketLoss(i32),
}

/// What a packet says of itself, read without decoding it. Nothing where it cannot be read.
#[derive(Clone, Copy, Debug, PartialEq, Eq, Structural)]
pub struct Metadata {
    pub samples: Option<usize>,
    pub channels: Option<Channels>,
    pub frames: Option<usize>,
    /// The number of samples that the decoder expects of the packet.
    pub expected: Option<usize>,
}

/// How far a trial has come: what it is waiting for.
#[derive(Clone, Copy, Debug, PartialEq, Eq, Structural)]
pub enum Stage {
    Encoder,
    Bitrate,
    Complexity,
    Vbr,
    InbandFec,
    PacketLoss,
    BitrateBack,
    ComplexityBack,
    RateBack,
    Decoder,
    Packet,
    Metadata,
    Pcm,
    Bandwidth,
    Told,
    Over,
}

/// What a trial asks for next.
pub enum Ask {
    CreateEncoder { rate: u32, channels: Channels, application: Application },
    Configure(Setting),
    ReadBitrate,
    ReadComplexity,
    ReadRate,
    CreateDecoder { rate: u32, channels: Channels },
    Encode { pcm: Vec<i16>, limit: usize },
    Inspect(Vec<u8>),
    Decode(Vec<u8>),
    ReadBandwidth,
    /// Tell the user how many packets there were, and the sizes of the smallest and the
    /// largest.
    Tell { packets: usize, least: usize, most: usize },
    Done,
}

/// What came of the last question.
pub enum Answer {
    /// The encoder or the decoder is there, or the user was told.
    Ready,
    /// There is no encoder or decoder, or encoding or decoding failed.
    Failed(String),
    /// Whether the setting was accepted.
    Configured(bool),
    Bitrate(Option<Bitrate>),
    Complexity(Option<i32>),
    Rate(Option<u32>),
    Packet(Vec<u8>),
    Metadata(Metadata),
    /// The decoder's buffer, and how many samples per channel of it were decoded.
    Pcm { buffer: Vec<i16>, got: usize },
    /// Whether a bandwidth is reported.
    Bandwidth(bool),
}

/// What a question asks for.
#[verifier::ext_equal]
pub enum AskData {
    CreateEncoder { rate: u32, channels: Channels, application: Application },
    Configure(Setting),
    ReadBitrate,
    ReadComplexity,
    ReadRate,
    CreateDecoder { rate: u32, channels: Channels },
    Encode { pcm: Seq<i16>, limit: usize },
    Inspect(Seq<u8>),
    Decode(Seq<u8>),
    ReadBandwidth,
    Tell { packets: nat, least: nat, most: nat },
    Done,
}

/// What an answer says.
#[verifier::ext_equal]
pub enum AnswerData {
    Ready,
    Failed(Seq<char>),
    Configured(bool),
    Bitrate(Option<Bitrate>),
    Complexity(Option<i32>),
    Rate(Option<u32>),
    Packet(Seq<u8>),
    Metadata(Metadata),
    Pcm { buffer: Seq<i16>, got: nat },
    Bandwidth(bool),
}

impl View for Ask {
    type V = AskData;

    open spec fn view(&self) -> AskData {
        match *self {
            Ask::CreateEncoder { rate, channels, application } => AskData::CreateEncoder {
                rate,
                channels,
                application,
            },
            Ask::Configure(s) => AskData::Configure(s),
            Ask::ReadBitrate => AskData::ReadBitrate,
            Ask::ReadComplexity => AskData::ReadComplexity,
            Ask::ReadRate => AskData::ReadRate,
            Ask::CreateDecoder { rate, channels } => AskData::CreateDecoder { rate, channels },
            Ask::Encode { pcm, limit } => AskData::Encode { pcm: pcm@, limit },
            Ask::Inspect(p) => AskData::Inspect(p@),
            Ask::Decode(p) => AskData::Decode(p@),
            Ask::ReadBandwidth => AskData::ReadBandwidth,
            Ask::Tell { packets, least, most } => AskData::Tell {
                packets: packets as nat,
                least: least as nat,
                most: most as nat,
            },
            Ask::Done => AskData::Done,
        }
    }
}

impl View for Answer {
    type V = AnswerData;

    open spec fn view(&self) -> AnswerData {
        match *self {
            Answer::Ready => AnswerData::Ready,
            Answer::Failed(e) => AnswerData::Failed(e@),
            Answer::Configured(ok) => AnswerData::Configured(ok),
            Answer::Bitrate(b) => AnswerData::Bitrate(b),
            Answer::Complexity(c) => AnswerData::Complexity(c),
            Answer::Rate(r) => AnswerData::Rate(r),
            Answer::Packet(p) => AnswerData::Packet(p@),
            Answer::Metadata(m) => AnswerData::Metadata(m),
            Answer::Pcm { buffer, got } => AnswerData::Pcm { buffer: buffer@, got: got as nat },
            Answer::Bandwidth(ok) => AnswerData::Bandwidth(ok),
        }
    }
}

/// How many channels there are.
pub open spec fn count(channels: Channels) -> nat {
    match channels {
        Channels::Mono => 1,
        Channels::Stereo => 2,
    }
}

/// How many channels there are.
pub fn channel_count(channels: Channels) -> (n: usize)
    ensures
        n == count(channels),
{
    match channels {
        Channels::Mono => 1,
        Channels::Stereo => 2,
    }
}

/// The name of a configuration.
pub open spec fn name(rate: u32, channels: Channels) -> Seq<char> {
    text::decimal(rate as nat) + " Hz "@ + match channels {
        Channels::Stereo => "stereo"@,
        Channels::Mono => "mono"@,
    }
}

/// The name of a configuration.
pub fn label(rate: u32, channels: Channels) -> (l: String)
    ensures
        l@ == name(rate, channels),
{
    let mut l: String = String::new();
    text::put_decimal(&mut l, rate as u64);
    l.append(" Hz ");
    match channels {
        Channels::Stereo => {
            l.append("stereo");
        },
        Channels::Mono => {
            l.append("mono");
        },
    }
    assert(l@ =~= name(rate, channels));
    l
}

/// What a codec is tried with.
#[derive(Clone, Copy, Debug, PartialEq, Eq, Structural)]
pub struct Configuration {
    pub rate: u32,
    pub channels: Channels,
    pub application: Application,
}

/// All that a codec is tried with. The lower rates and the two channel counts lead to different
/// parts of it.
pub open spec fn all_configurations() -> Seq<Configuration> {
    seq![
        Configuration {
            rate: 48_000,
            channels: Channels::Stereo,
            application: Application::Audio,
        },
        Configuration { rate: 48_000, channels: Channels::Mono, application: Application::Voip },
        Configuration { rate: 16_000, channels: Channels::Mono, application: Application::Voip },
        Configuration { rate: 8_000, channels: Channels::Mono, application: Application::Voip },
    ]
}

/// All that a codec is tried with.
pub fn configurations() -> (cs: Vec<Configuration>)
    ensures
        cs@ == all_configurations(),
{
    let cs: Vec<Configuration> = vec![
        Configuration {
            rate: 48_000,
            channels: Channels::Stereo,
            application: Application::Audio,
        },
        Configuration { rate: 48_000, channels: Channels::Mono, application: Application::Voip },
        Configuration { rate: 16_000, channels: Channels::Mono, application: Application::Voip },
        Configuration { rate: 8_000, channels: Channels::Mono, application: Application::Voip },
    ];
    assert(cs@ =~= all_configurations());
    cs
}

/// The smallest of some sizes; 0 if there are none.
pub open spec fn least(sizes: Seq<usize>) -> nat
    decreases sizes.len(),
{
    if sizes.len() == 0 {
        0
    } else if sizes.len() == 1 || sizes.last() < least(sizes.drop_last()) {
        sizes.last() as nat
    } else {
        least(sizes.drop_last())
    }
}

/// The largest of some sizes; 0 if there are none.
pub open spec fn most(sizes: Seq<usize>) -> nat
    decreases sizes.len(),
{
    if sizes.len() == 0 {
        0
    } else if sizes.last() > most(sizes.drop_last()) {
        sizes.last() as nat
    } else {
        most(sizes.drop_last())
    }
}

/// Whether no packet was empty.
pub open spec fn none_empty(sizes: Seq<usize>) -> bool {
    forall|i: int| 0 <= i < sizes.len() ==> #[trigger] sizes[i] > 0
}

/// Where a trial stands.
#[verifier::ext_equal]
pub struct TrialData {
    pub stage: Stage,
    pub rate: u32,
    pub channels: Channels,
    pub application: Application,
    pub input: Seq<i16>,
    /// Whether every setting so far was accepted.
    pub configured: bool,
    /// Whether every packet so far says what it should.
    pub agreed: bool,
    /// The sizes of the packets so far.
    pub sizes: Seq<usize>,
    pub packet: Seq<u8>,
    pub decoded: Seq<i16>,
}

/// What a trial does with an answer: where it stands then, what it claims, what it asks.
#[verifier::ext_equal]
pub struct Move {
    pub state: TrialData,
    pub claims: Seq<report::ClaimData>,
    pub ask: AskData,
}

impl TrialData {
    pub open spec fn at(self, stage: Stage) -> TrialData {
        TrialData { stage, ..self }
    }

    /// The samples in a frame, on one channel.
    pub open spec fn frame(self) -> nat {
        self.input.len() / count(self.channels)
    }

    pub open spec fn claim(self, what: Seq<char>, ok: bool) -> report::ClaimData {
        report::ClaimData { what: name(self.rate, self.channels) + what, ok }
    }

    pub open spec fn quiet(self, stage: Stage, ask: AskData) -> Move {
        Move { state: self.at(stage), claims: Seq::empty(), ask }
    }

    pub open spec fn said(self, stage: Stage, what: Seq<char>, ok: bool, ask: AskData) -> Move {
        Move { state: self.at(stage), claims: seq![self.claim(what, ok)], ask }
    }

    /// A trial that cannot go on ends with a claim that is false.
    pub open spec fn broken(self, what: Seq<char>, e: Seq<char>) -> Move {
        self.said(Stage::Over, what + e + ")"@, false, AskData::Done)
    }

    pub open spec fn encode(self) -> Move {
        self.quiet(
            Stage::Packet,
            AskData::Encode { pcm: self.input, limit: PACKET_LIMIT },
        )
    }

    /// Whether a packet says what it should: one frame, with the samples and channels that went
    /// in.
    pub open spec fn as_sent(self, m: Metadata) -> bool {
        &&& m.samples matches Some(n) && n == self.frame()
        &&& m.channels == Some(self.channels)
        &&& m.frames == Some(1usize)
        &&& m.expected matches Some(n) && n == self.frame()
    }

    /// After a frame was decoded: the next one, or the claims about all of them.
    pub open spec fn onward(self) -> Move {
        if self.sizes.len() < ROUNDS {
            self.encode()
        } else {
            Move {
                state: self.at(Stage::Bandwidth),
                claims: seq![
                    self.claim(": encodes to packets"@, none_empty(self.sizes)),
                    self.claim(": packet metadata agrees"@, self.agreed),
                ],
                ask: AskData::ReadBandwidth,
            }
        }
    }

    /// What a trial does with an answer.
    pub open spec fn next(self, answer: AnswerData) -> Move {
        match answer {
            AnswerData::Failed(e) => match self.stage {
                Stage::Encoder => self.broken(": create encoder ("@, e),
                Stage::Decoder => self.broken(": create decoder ("@, e),
                Stage::Packet => self.broken(": encode ("@, e),
                _ => self.broken(": decode ("@, e),
            },
            AnswerData::Configured(ok) => {
                let now = TrialData { configured: self.configured && ok, ..self };
                match self.stage {
                    Stage::Bitrate => now.quiet(
                        Stage::Complexity,
                        AskData::Configure(Setting::Complexity(COMPLEXITY)),
                    ),
                    Stage::Complexity => now.quiet(Stage::Vbr, AskData::Configure(Setting::Vbr(true))),
                    Stage::Vbr => now.quiet(
                        Stage::InbandFec,
                        AskData::Configure(Setting::InbandFec(true)),
                    ),
                    Stage::InbandFec => now.quiet(
                        Stage::PacketLoss,
                        AskData::Configure(Setting::PacketLoss(PACKET_LOSS)),
                    ),
                    _ => now.said(
                        Stage::BitrateBack,
                        ": encoder configures"@,
                        now.configured,
                        AskData::ReadBitrate,
                    ),
                }
            },
            AnswerData::Bitrate(b) => self.said(
                Stage::ComplexityBack,
                ": bitrate reads back"@,
                b == Some(Bitrate::Bits(BITRATE)),
                AskData::ReadComplexity,
            ),
            AnswerData::Complexity(c) => self.said(
                Stage::RateBack,
                ": complexity reads back"@,
                c == Some(COMPLEXITY),
                AskData::ReadRate,
            ),
            AnswerData::Rate(r) => self.said(
                Stage::Decoder,
                ": sample rate reads back"@,
                r == Some(self.rate),
                AskData::CreateDecoder { rate: self.rate, channels: self.channels },
            ),
            AnswerData::Packet(p) => TrialData {
                sizes: self.sizes.push(p.len() as usize),
                packet: p,
                ..self
            }.quiet(Stage::Metadata, AskData::Inspect(p)),
            AnswerData::Metadata(m) => TrialData {
                agreed: self.agreed && self.as_sent(m),
                ..self
            }.quiet(Stage::Pcm, AskData::Decode(self.packet)),
            AnswerData::Pcm { buffer, got } => TrialData {
                agreed: self.agreed && got == self.frame(),
                decoded: buffer,
                ..self
            }.onward(),
            AnswerData::Bandwidth(ok) => self.said(
                Stage::Told,
                ": bandwidth is reported"@,
                ok,
                AskData::Tell {
                    packets: self.sizes.len(),
                    least: least(self.sizes),
                    most: most(self.sizes),
                },
            ),
            AnswerData::Ready => match self.stage {
                Stage::Encoder => self.quiet(
                    Stage::Bitrate,
                    AskData::Configure(Setting::Bitrate(BITRATE)),
                ),
                Stage::Decoder => self.encode(),
                _ => self.said(
                    Stage::Over,
                    ": signal survives the round trip"@,
                    compare::alike(
                        compare::energy(compare::values(self.decoded)),
                        compare::energy(compare::values(self.input)),
                    ),
                    AskData::Done,
                ),
            },
        }
    }

    /// Whether an answer answers what was asked.
    pub open spec fn answered(self, answer: AnswerData) -> bool {
        match answer {
            AnswerData::Ready => self.stage == Stage::Encoder || self.stage == Stage::Decoder
                || self.stage == Stage::Told,
            AnswerData::Failed(_) => self.stage == Stage::Encoder || self.stage == Stage::Decoder
                || self.stage == Stage::Packet || self.stage == Stage::Pcm,
            AnswerData::Configured(_) => self.stage == Stage::Bitrate || self.stage == Stage::Complexity
                || self.stage == Stage::Vbr || self.stage == Stage::InbandFec || self.stage
                == Stage::PacketLoss,
            AnswerData::Bitrate(_) => self.stage == Stage::BitrateBack,
            AnswerData::Complexity(_) => self.stage == Stage::ComplexityBack,
            AnswerData::Rate(_) => self.stage == Stage::RateBack,
            AnswerData::Packet(_) => self.stage == Stage::Packet,
            AnswerData::Metadata(_) => self.stage == Stage::Metadata,
            AnswerData::Pcm { .. } => self.stage == Stage::Pcm,
            AnswerData::Bandwidth(_) => self.stage == Stage::Bandwidth,
        }
    }
}

/// A trial that has just begun.
pub open spec fn opened(
    rate: u32,
    channels: Channels,
    application: Application,
    input: Seq<i16>,
) -> TrialData {
    TrialData {
        stage: Stage::Encoder,
        rate,
        channels,
        application,
        input,
        configured: true,
        agreed: true,
        sizes: Seq::empty(),
        packet: Seq::empty(),
        decoded: Seq::empty(),
    }
}

/// The trial of a codec in one configuration.
pub struct Trial {
    stage: Stage,
    rate: u32,
    channels: Channels,
    application: Application,
    input: Vec<i16>,
    configured: bool,
    agreed: bool,
    sizes: Vec<usize>,
    packet: Vec<u8>,
    decoded: Vec<i16>,
}

impl View for Trial {
    type V = TrialData;

    closed spec fn view(&self) -> TrialData {
        TrialData {
            stage: self.stage,
            rate: self.rate,
            channels: self.channels,
            application: self.application,
            input: self.input@,
            configured: self.configured,
            agreed: self.agreed,
            sizes: self.sizes@,
            packet: self.packet@,
            decoded: self.decoded@,
        }
    }
}

/// What a trial says and asks.
pub struct Turn {
    pub claims: Vec<Claim>,
    pub ask: Ask,
}

impl Turn {
    /// Whether this is what a move calls for.
    pub open spec fn of(self, m: Move) -> bool {
        report::claims(self.claims@) == m.claims && self.ask@ == m.ask
    }
}

fn silent(ask: Ask) -> (t: Turn)
    ensures
        report::claims(t.claims@) == Seq::<report::ClaimData>::empty(),
        t.ask == ask,
{
    let claims: Vec<Claim> = Vec::new();
    assert(report::claims(claims@) =~= Seq::empty());
    Turn { claims, ask }
}

/// Whether no packet was empty.
fn no_empty(sizes: &Vec<usize>) -> (yes: bool)
    ensures
        yes == none_empty(sizes@),
{
    let n: usize = sizes.len();
    let mut i: usize = 0;
    while i < n
        invariant
            n == sizes@.len(),
            i <= n,
            forall|k: int| 0 <= k < i ==> #[trigger] sizes@[k] > 0,
        decreases n - i,
    {
        if sizes[i] == 0 {
            return false;
        }
        i = i + 1;
    }
    true
}

/// The smallest and the largest of some sizes.
fn extremes(sizes: &Vec<usize>) -> (r: (usize, usize))
    ensures
        r.0 == least(sizes@),
        r.1 == most(sizes@),
{
    let n: usize = sizes.len();
    let mut lo: usize = 0;
    let mut hi: usize = 0;
    let mut i: usize = 0;
    assert(sizes@.take(0) =~= Seq::empty());
    while i < n
        invariant
            n == sizes@.len(),
            i <= n,
            lo == least(sizes@.take(i as int)),
            hi == most(sizes@.take(i as int)),
        decreases n - i,
    {
        assert(sizes@.take(i + 1).drop_last() =~= sizes@.take(i as int));
        let s: usize = sizes[i];
        if i == 0 || s < lo {
            lo = s;
        }
        if s > hi {
            hi = s;
        }
        i = i + 1;
    }
    assert(sizes@.take(n as int) =~= sizes@);
    (lo, hi)
}

impl Trial {
    /// Begins a trial: the first thing asked for is an encoder.
    pub fn start(
        rate: u32,
        channels: Channels,
        application: Application,
        input: Vec<i16>,
    ) -> (r: (Trial, Ask))
        ensures
            r.0@ == opened(rate, channels, application, input@),
            r.1@ == (AskData::CreateEncoder { rate, channels, application }),
    {
        let trial = Trial {
            stage: Stage::Encoder,
            rate,
            channels,
            application,
            input,
            configured: true,
            agreed: true,
            sizes: Vec::new(),
            packet: Vec::new(),
            decoded: Vec::new(),
        };
        assert(trial@ =~= opened(rate, channels, application, trial.input@));
        (trial, Ask::CreateEncoder { rate, channels, application })
    }

    fn claim(&self, what: &str, ok: bool) -> (c: Claim)
        ensures
            c@ == self@.claim(what@, ok),
    {
        Claim { what: label(self.rate, self.channels).concat(what), ok }
    }

    fn say(&self, what: &str, ok: bool, ask: Ask) -> (t: Turn)
        ensures
            report::claims(t.claims@) == seq![self@.claim(what@, ok)],
            t.ask == ask,
    {
        let mut claims: Vec<Claim> = Vec::new();
        claims.push(self.claim(what, ok));
        assert(report::claims(claims@) =~= seq![self@.claim(what@, ok)]);
        Turn { claims, ask }
    }

    /// Ends the trial with a claim that is false.
    fn give_up(&mut self, what: &str, e: &str) -> (t: Turn)
        ensures
            final(self)@ == old(self)@.broken(what@, e@).state,
            t.of(old(self)@.broken(what@, e@)),
    {
        self.stage = Stage::Over;
        let mut reason: String = what.to_owned();
        reason.append(e);
        reason.append(")");
        self.say(reason.as_str(), false, Ask::Done)
    }

    fn encode(&mut self) -> (t: Turn)
        ensures
            final(self)@ == old(self)@.encode().state,
            t.of(old(self)@.encode()),
    {
        self.stage = Stage::Packet;
        silent(
            Ask::Encode { pcm: slice_to_vec(self.input.as_slice()), limit: PACKET_LIMIT },
        )
    }

    /// The samples in a frame, on one channel.
    fn frame(&self) -> (n: usize)
        ensures
            n == self@.frame(),
    {
        self.input.len() / channel_count(self.channels)
    }

    /// Whether a packet says what it should.
    fn as_sent(&self, m: Metadata) -> (yes: bool)
        ensures
            yes == self@.as_sent(m),
    {
        let frame: usize = self.frame();
        let samples: bool = match m.samples {
            Some(n) => n == frame,
            None => false,
        };
        let channels: bool = match m.channels {
            Some(c) => c == self.channels,
            None => false,
        };
        let frames: bool = match m.frames {
            Some(n) => n == 1,
            None => false,
        };
        let expected: bool = match m.expected {
            Some(n) => n == frame,
            None => false,
        };
        samples && channels && frames && expected
    }

    fn onward(&mut self) -> (t: Turn)
        ensures
            final(self)@ == old(self)@.onward().state,
            t.of(old(self)@.onward()),
    {
        if self.sizes.len() < ROUNDS {
            self.encode()
        } else {
            self.stage = Stage::Bandwidth;
            let mut claims: Vec<Claim> = Vec::new();
            claims.push(self.claim(": encodes to packets", no_empty(&self.sizes)));
            claims.push(self.claim(": packet metadata agrees", self.agreed));
            assert(report::claims(claims@) =~= old(self)@.onward().claims);
            Turn { claims, ask: Ask::ReadBandwidth }
        }
    }

    /// One more setting.
    fn set(&mut self, ok: bool) -> (t: Turn)
        ensures
            final(self)@ == old(self)@.next(AnswerData::Configured(ok)).state,
            t.of(old(self)@.next(AnswerData::Configured(ok))),
    {
        self.configured = self.configured && ok;
        match self.stage {
            Stage::Bitrate => {
                self.stage = Stage::Complexity;
                silent(Ask::Configure(Setting::Complexity(COMPLEXITY)))
            },
            Stage::Complexity => {
                self.stage = Stage::Vbr;
                silent(Ask::Configure(Setting::Vbr(true)))
            },
            Stage::Vbr => {
                self.stage = Stage::InbandFec;
                silent(Ask::Configure(Setting::InbandFec(true)))
            },
            Stage::InbandFec => {
                self.stage = Stage::PacketLoss;
                silent(Ask::Configure(Setting::PacketLoss(PACKET_LOSS)))
            },
            _ => {
                self.stage = Stage::BitrateBack;
                self.say(": encoder configures", self.configured, Ask::ReadBitrate)
            },
        }
    }

    /// Goes on from an answer.
    pub fn step(&mut self, answer: Answer) -> (t: Turn)
        requires
            old(self)@.answered(answer@),
        ensures
            final(self)@ == old(self)@.next(answer@).state,
            t.of(old(self)@.next(answer@)),
    {
        match answer {
            Answer::Failed(e) => match self.stage {
                Stage::Encoder => self.give_up(": create encoder (", e.as_str()),
                Stage::Decoder => self.give_up(": create decoder (", e.as_str()),
                Stage::Packet => self.give_up(": encode (", e.as_str()),
                _ => self.give_up(": decode (", e.as_str()),
            },
            Answer::Configured(ok) => self.set(ok),
            Answer::Bitrate(b) => {
                self.stage = Stage::ComplexityBack;
                let ok: bool = match b {
                    Some(Bitrate::Bits(n)) => n == BITRATE,
                    _ => false,
                };
                self.say(": bitrate reads back", ok, Ask::ReadComplexity)
            },
            Answer::Complexity(c) => {
                self.stage = Stage::RateBack;
                let ok: bool = match c {
                    Some(n) => n == COMPLEXITY,
                    None => false,
                };
                self.say(": complexity reads back", ok, Ask::ReadRate)
            },
            Answer::Rate(r) => {
                self.stage = Stage::Decoder;
                let ok: bool = match r {
                    Some(n) => n == self.rate,
                    None => false,
                };
                self.say(
                    ": sample rate reads back",
                    ok,
                    Ask::CreateDecoder { rate: self.rate, channels: self.channels },
                )
            },
            Answer::Packet(p) => {
                self.stage = Stage::Metadata;
                let copy: Vec<u8> = slice_to_vec(p.as_slice());
                self.sizes.push(p.len());
                self.packet = p;
                silent(Ask::Inspect(copy))
            },
            Answer::Metadata(m) => {
                self.agreed = self.agreed && self.as_sent(m);
                self.stage = Stage::Pcm;
                silent(Ask::Decode(slice_to_vec(self.packet.as_slice())))
            },
            Answer::Pcm { buffer, got } => {
                self.agreed = self.agreed && got == self.frame();
                self.decoded = buffer;
                self.onward()
            },
            Answer::Bandwidth(ok) => {
                self.stage = Stage::Told;
                let (least, most) = extremes(&self.sizes);
                self.say(
                    ": bandwidth is reported",
                    ok,
                    Ask::Tell { packets: self.sizes.len(), least, most },
                )
            },
            Answer::Ready => match self.stage {
                Stage::Encoder => {
                    self.stage = Stage::Bitrate;
                    silent(Ask::Configure(Setting::Bitrate(BITRATE)))
                },
                Stage::Decoder => self.encode(),
                _ => {
                    self.stage = Stage::Over;
                    let ok: bool = compare::survives(
                        self.decoded.as_slice(),
                        self.input.as_slice(),
                    );
                    self.say(": signal survives the round trip", ok, Ask::Done)
                },
            },
        }
    }

    /// The signal that goes in.
    pub fn input(&self) -> (pcm: &Vec<i16>)
        ensures
            pcm@ == self@.input,
    {
        &self.input
    }

    /// The signal that came out last.
    pub fn decoded(&self) -> (pcm: &Vec<i16>)
        ensures
            pcm@ == self@.decoded,
    {
        &self.decoded
    }
}

} // verus!
