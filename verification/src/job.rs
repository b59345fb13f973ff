//! The whole job: from the command line to the last file.
//!
//! Files are not touched from here, and the codec is not called. A [`Job`] decides what is
//! done next, and is told what came of it: what is read, when the input is refused, which
//! files are written, with what in them and in which order.

use crate::args::Options;
use crate::ogg::Stream;
use crate::plan::OutFile;
use crate::trip::Trip;
use crate::wav::Wav;
use crate::{args, ogg, plan, trip, wav};
use vstd::prelude::*;
use vstd::string::*;

verus! {

/// How far a job has come: what it is waiting for.
#[derive(Clone, Copy, Debug, PartialEq, Eq, Structural)]
pub enum Phase {
    Folder,
    Input,
    Clip,
    Copy,
    Trip,
    Compressed,
    Decoded,
    Difference,
    Discarded,
    Over,
}

/// What a job asks for next.
pub enum Order {
    /// Make the folder that everything is written to.
    MakeFolder,
    /// Read the file with this name.
    Read(String),
    /// Synthesise a clip to work on.
    MakeClip,
    /// Write a file to the folder.
    Write(OutFile),
    /// Send the recording through the codec, at this many kbps.
    RunTrip(i32),
    /// Compare the recording with what came back.
    Compare,
    /// All is done, and this is what the user is told.
    Done(String),
    /// The job ends here, and this is why.
    Fail(String),
}

/// What came of the last order.
pub enum Outcome {
    /// The folder was made, or the file written.
    Ready,
    /// What the input file holds.
    Bytes(Vec<u8>),
    Clip(Wav),
    Trip(Trip),
    /// What the codec threw away, gained up.
    Difference(Wav),
    /// What failed, at which place, and why.
    Failed { place: String, cause: String },
}

/// A file to write.
#[verifier::ext_equal]
pub struct OutFileData {
    pub name: Seq<char>,
    pub bytes: Seq<u8>,
}

/// What an order asks for.
#[verifier::ext_equal]
pub enum OrderData {
    MakeFolder,
    Read(Seq<char>),
    MakeClip,
    Write(OutFileData),
    RunTrip(i32),
    Compare,
    Done(Seq<char>),
    Fail(Seq<char>),
}

/// What an outcome says.
#[verifier::ext_equal]
pub enum OutcomeData {
    Ready,
    Bytes(Seq<u8>),
    Clip(wav::WavData),
    Trip(trip::TripData),
    Difference(wav::WavData),
    Failed { place: Seq<char>, cause: Seq<char> },
}

impl View for Order {
    type V = OrderData;

    open spec fn view(&self) -> OrderData {
        match *self {
            Order::MakeFolder => OrderData::MakeFolder,
            Order::Read(p) => OrderData::Read(p@),
            Order::MakeClip => OrderData::MakeClip,
            Order::Write(f) => OrderData::Write(
                OutFileData { name: f.name@, bytes: f.bytes@ },
            ),
            Order::RunTrip(k) => OrderData::RunTrip(k),
            Order::Compare => OrderData::Compare,
            Order::Done(m) => OrderData::Done(m@),
            Order::Fail(m) => OrderData::Fail(m@),
        }
    }
}

impl View for Outcome {
    type V = OutcomeData;

    open spec fn view(&self) -> OutcomeData {
        match *self {
            Outcome::Ready => OutcomeData::Ready,
            Outcome::Bytes(b) => OutcomeData::Bytes(b@),
            Outcome::Clip(w) => OutcomeData::Clip(w@),
            Outcome::Trip(t) => OutcomeData::Trip(t@),
            Outcome::Difference(w) => OutcomeData::Difference(w@),
            Outcome::Failed { place, cause } => OutcomeData::Failed {
                place: place@,
                cause: cause@,
            },
        }
    }
}

/// Where a job stands.
#[verifier::ext_equal]
pub struct JobData {
    pub phase: Phase,
    pub input: Option<Seq<char>>,
    /// What the names of all files begin with.
    pub stem: Seq<char>,
    pub bitrates: Seq<i32>,
    /// The name of the codec library.
    pub vendor: Seq<u8>,
    /// How many bitrates are done.
    pub done: nat,
    /// The recording, once it is there.
    pub source: wav::WavData,
    /// What became of it at the bitrate in hand.
    pub trip: trip::TripData,
}

impl JobData {
    pub open spec fn at(self, phase: Phase) -> JobData {
        JobData { phase, ..self }
    }

    pub open spec fn fail(self, why: Seq<char>) -> (JobData, OrderData) {
        (self.at(Phase::Over), OrderData::Fail(why))
    }

    pub open spec fn write(
        self,
        phase: Phase,
        name: Seq<char>,
        bytes: Seq<u8>,
    ) -> (JobData, OrderData) {
        (self.at(phase), OrderData::Write(OutFileData { name, bytes }))
    }

    /// The bitrate in hand.
    pub open spec fn kbps(self) -> i32 {
        self.bitrates[self.done as int]
    }

    /// Once there is a recording: its copy is written, if the codec accepts its rate.
    pub open spec fn begun(self, source: wav::WavData) -> (JobData, OrderData) {
        let now = JobData { source, ..self };
        if plan::opus_rate(source.rate) {
            now.write(Phase::Copy, self.stem + "-original.wav"@, wav::file_bytes(source))
        } else {
            now.fail(plan::rate_refused(source.rate))
        }
    }

    /// The next bitrate, or the end after the last one.
    pub open spec fn onward(self) -> (JobData, OrderData) {
        if self.done < self.bitrates.len() {
            (self.at(Phase::Trip), OrderData::RunTrip(self.kbps()))
        } else {
            (
                self.at(Phase::Over),
                OrderData::Done(plan::listening(self.stem, plan::lowest_of(self.bitrates))),
            )
        }
    }

    /// What the user is told of a failure.
    pub open spec fn told(self, place: Seq<char>, cause: Seq<char>) -> Seq<char> {
        match self.phase {
            Phase::Folder => "cannot create out/: "@ + cause,
            Phase::Input => "cannot read "@ + place + ": "@ + cause,
            Phase::Copy | Phase::Compressed | Phase::Decoded | Phase::Discarded =>
                "cannot write "@ + place + ": "@ + cause,
            _ => cause,
        }
    }

    /// The stream that the recording becomes at the bitrate in hand.
    pub open spec fn stream(self) -> Stream {
        plan::stream_of(self.source, self.trip.lookahead)
    }

    /// What a job does with an outcome.
    pub open spec fn next(self, outcome: OutcomeData) -> (JobData, OrderData) {
        match outcome {
            OutcomeData::Failed { place, cause } => self.fail(self.told(place, cause)),
            OutcomeData::Bytes(b) => match wav::parsed(b) {
                Err(e) => self.fail(e.told(self.input->0)),
                Ok(source) => self.begun(source),
            },
            OutcomeData::Clip(source) => self.begun(source),
            OutcomeData::Trip(trip) => {
                let now = JobData { trip, ..self };
                now.write(
                    Phase::Compressed,
                    plan::rated(self.stem, self.kbps(), "k.opus"@),
                    ogg::pages_bytes(ogg::file_pages(trip.packets, now.stream(), self.vendor)),
                )
            },
            OutcomeData::Difference(d) => self.write(
                Phase::Discarded,
                plan::rated(self.stem, self.kbps(), "k-diff.wav"@),
                wav::file_bytes(d),
            ),
            OutcomeData::Ready => match self.phase {
                Phase::Folder => match self.input {
                    Some(path) => (self.at(Phase::Input), OrderData::Read(path)),
                    None => (self.at(Phase::Clip), OrderData::MakeClip),
                },
                Phase::Copy => self.onward(),
                Phase::Compressed => self.write(
                    Phase::Decoded,
                    plan::rated(self.stem, self.kbps(), "k.wav"@),
                    wav::file_bytes(self.trip.decoded),
                ),
                Phase::Decoded => (self.at(Phase::Difference), OrderData::Compare),
                _ => JobData { done: self.done + 1, ..self }.onward(),
            },
        }
    }

    /// How many packets the recording becomes: one per frame, and the silent one.
    pub open spec fn packet_count(self) -> nat {
        trip::block_count(
            self.source.samples.len(),
            trip::frame_size(self.source.rate) * self.source.channels as nat,
        ) + 1
    }

    /// Whether an outcome answers what was asked, and what it brings fits the files that are
    /// made of it. What comes back from the codec, and what it threw away, have the shape of the
    /// recording, and there is a packet for every frame.
    pub open spec fn answered(self, outcome: OutcomeData) -> bool {
        match outcome {
            OutcomeData::Failed { .. } => self.phase != Phase::Over,
            OutcomeData::Bytes(b) => {
                &&& self.phase == Phase::Input
                &&& wav::parsed(b) matches Ok(w) ==> plan::opus_rate(w.rate) ==> plan::wav_fits(w)
            },
            OutcomeData::Clip(w) => {
                &&& self.phase == Phase::Clip
                &&& plan::opus_rate(w.rate) ==> plan::wav_fits(w)
            },
            OutcomeData::Trip(t) => {
                let now = JobData { trip: t, ..self };
                &&& self.phase == Phase::Trip
                &&& plan::countable(self.source, t.lookahead)
                &&& ogg::writable(t.packets, now.stream(), self.vendor)
                &&& same_shape(t.decoded, self.source)
                &&& t.packets.len() == self.packet_count()
            },
            OutcomeData::Difference(d) => self.phase == Phase::Difference && same_shape(
                d,
                self.source,
            ),
            OutcomeData::Ready => match self.phase {
                Phase::Folder | Phase::Copy | Phase::Compressed | Phase::Decoded
                | Phase::Discarded => true,
                _ => false,
            },
        }
    }
}

/// Whether two recordings have the same rate, the same channels and the same length.
pub open spec fn same_shape(a: wav::WavData, b: wav::WavData) -> bool {
    &&& a.rate == b.rate
    &&& a.channels == b.channels
    &&& a.samples.len() == b.samples.len()
}

/// A recording with nothing in it.
pub open spec fn nothing() -> wav::WavData {
    wav::WavData { rate: 0, channels: 0, samples: Seq::empty() }
}

/// A job that has just begun.
pub open spec fn opened(
    input: Option<Seq<char>>,
    stem: Seq<char>,
    bitrates: Seq<i32>,
    vendor: Seq<u8>,
) -> JobData {
    JobData {
        phase: Phase::Folder,
        input,
        stem,
        bitrates,
        vendor,
        done: 0,
        source: nothing(),
        trip: trip::TripData { decoded: nothing(), packets: Seq::empty(), lookahead: 0 },
    }
}

/// One run of the program.
pub struct Job {
    phase: Phase,
    options: Options,
    stem: String,
    vendor: String,
    done: usize,
    source: Wav,
    trip: Trip,
}

impl View for Job {
    type V = JobData;

    closed spec fn view(&self) -> JobData {
        JobData {
            phase: self.phase,
            input: args::text_of(self.options.input),
            stem: self.stem@,
            bitrates: self.options.bitrates@,
            vendor: vstd::utf8::encode_utf8(self.vendor@),
            done: self.done as nat,
            source: self.source@,
            trip: self.trip@,
        }
    }
}

impl Job {
    /// Whether the parts of a job agree.
    pub closed spec fn wf(&self) -> bool {
        &&& self.done <= self.options.bitrates@.len()
        &&& self.phase == Phase::Input ==> self.options.input is Some
        &&& match self.phase {
            Phase::Copy => plan::wav_fits(self.source@),
            Phase::Trip | Phase::Difference | Phase::Discarded => {
                &&& self.done < self.options.bitrates@.len()
                &&& plan::wav_fits(self.source@)
            },
            Phase::Compressed | Phase::Decoded => {
                &&& self.done < self.options.bitrates@.len()
                &&& plan::wav_fits(self.source@)
                &&& same_shape(self.trip@.decoded, self.source@)
            },
            _ => true,
        }
    }

    /// Begins a job: the first thing asked for is the folder. The names of all files begin with
    /// `stem`; `vendor` is the name of the codec library.
    pub fn start(options: Options, stem: String, vendor: String) -> (r: (Job, Order))
        ensures
            r.0.wf(),
            r.0@ == opened(
                args::text_of(options.input),
                stem@,
                options.bitrates@,
                vstd::utf8::encode_utf8(vendor@),
            ),
            r.1@ == OrderData::MakeFolder,
    {
        let source = Wav { rate: 0, channels: 0, samples: Vec::new() };
        let trip = Trip {
            decoded: Wav { rate: 0, channels: 0, samples: Vec::new() },
            packets: Vec::new(),
            lookahead: 0,
        };
        let job = Job { phase: Phase::Folder, options, stem, vendor, done: 0, source, trip };
        assert(job@ =~= opened(
            args::text_of(job.options.input),
            job.stem@,
            job.options.bitrates@,
            vstd::utf8::encode_utf8(job.vendor@),
        ));
        (job, Order::MakeFolder)
    }

    /// The recording that the job works on.
    pub fn source(&self) -> (w: &Wav)
        ensures
            w@ == self@.source,
    {
        &self.source
    }

    /// What became of the recording at the bitrate in hand.
    pub fn trip(&self) -> (t: &Trip)
        ensures
            t@ == self@.trip,
    {
        &self.trip
    }

    /// Once there is a recording.
    fn begin(&mut self, source: Wav) -> (o: Order)
        requires
            old(self).wf(),
            plan::opus_rate(source.rate) ==> plan::wav_fits(source@),
        ensures
            final(self).wf(),
            (final(self)@, o@) == old(self)@.begun(source@),
    {
        let rate: u32 = source.rate;
        self.source = source;
        if plan::accepts(rate) {
            self.phase = Phase::Copy;
            Order::Write(plan::source_file(self.stem.as_str(), &self.source))
        } else {
            self.phase = Phase::Over;
            Order::Fail(plan::rate_message(rate))
        }
    }

    /// The next bitrate, or the end.
    fn onward(&mut self) -> (o: Order)
        requires
            old(self).wf(),
            old(self).phase == Phase::Copy,
        ensures
            final(self).wf(),
            (final(self)@, o@) == old(self)@.onward(),
    {
        if self.done < self.options.bitrates.len() {
            self.phase = Phase::Trip;
            Order::RunTrip(self.options.bitrates[self.done])
        } else {
            self.phase = Phase::Over;
            Order::Done(plan::listen_message(self.stem.as_str(), &self.options.bitrates))
        }
    }

    /// What a failure means at this point.
    fn fail(&mut self, place: String, cause: String) -> (o: Order)
        requires
            old(self).wf(),
        ensures
            final(self).wf(),
            (final(self)@, o@) == old(self)@.fail(old(self)@.told(place@, cause@)),
    {
        let phase: Phase = self.phase;
        self.phase = Phase::Over;
        let mut m: String = String::new();
        match phase {
            Phase::Folder => {
                m.append("cannot create out/: ");
            },
            Phase::Input => {
                m.append("cannot read ");
                m.append(place.as_str());
                m.append(": ");
            },
            Phase::Copy | Phase::Compressed | Phase::Decoded | Phase::Discarded => {
                m.append("cannot write ");
                m.append(place.as_str());
                m.append(": ");
            },
            _ => {},
        }
        m.append(cause.as_str());
        assert(m@ =~= old(self)@.told(place@, cause@));
        Order::Fail(m)
    }

    /// Goes on from what came of the last order.
    pub fn step(&mut self, outcome: Outcome) -> (o: Order)
        requires
            old(self).wf(),
            old(self)@.answered(outcome@),
        ensures
            final(self).wf(),
            (final(self)@, o@) == old(self)@.next(outcome@),
    {
        match outcome {
            Outcome::Failed { place, cause } => self.fail(place, cause),
            Outcome::Bytes(b) => match wav::read(b.as_slice()) {
                Ok(source) => self.begin(source),
                Err(e) => {
                    self.phase = Phase::Over;
                    match &self.options.input {
                        Some(path) => Order::Fail(e.message(path.as_str())),
                        None => Order::Fail(e.message("")),
                    }
                },
            },
            Outcome::Clip(source) => self.begin(source),
            Outcome::Trip(trip) => {
                self.trip = trip;
                self.phase = Phase::Compressed;
                Order::Write(
                    plan::opus_file(
                        self.stem.as_str(),
                        self.options.bitrates[self.done],
                        &self.source,
                        &self.trip,
                        self.vendor.as_str(),
                    ),
                )
            },
            Outcome::Difference(d) => {
                self.phase = Phase::Discarded;
                Order::Write(
                    plan::diff_file(self.stem.as_str(), self.options.bitrates[self.done], &d),
                )
            },
            Outcome::Ready => match self.phase {
                Phase::Folder => match &self.options.input {
                    Some(path) => {
                        self.phase = Phase::Input;
                        Order::Read(path.as_str().to_owned())
                    },
                    None => {
                        self.phase = Phase::Clip;
                        Order::MakeClip
                    },
                },
                Phase::Copy => self.onward(),
                Phase::Compressed => {
                    self.phase = Phase::Decoded;
                    Order::Write(
                        plan::wav_file(
                            self.stem.as_str(),
                            self.options.bitrates[self.done],
                            &self.trip,
                        ),
                    )
                },
                Phase::Decoded => {
                    self.phase = Phase::Difference;
                    Order::Compare
                },
                _ => {
                    assert(self.options.bitrates.len() == self.options.bitrates@.len());
                    self.done = self.done + 1;
                    self.phase = Phase::Copy;
                    self.onward()
                },
            },
        }
    }
}

} // verus!
