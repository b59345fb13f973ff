//! What holds of a whole job, from the command line to the last file, whatever the codec makes
//! of the recording.

use crate::job::{JobData, Order, OrderData, OutFileData, Outcome, OutcomeData, Phase};
use crate::plan::OutFile;
use crate::trip::Trip;
use crate::wav::Wav;
use crate::{demux, job, ogg, plan, report, text, trip, trip_laws, wav};
use vstd::prelude::*;
use vstd::string::*;

verus! {

/// A job takes no outcome once it is over.
pub proof fn law_over_is_final(job: JobData, outcome: OutcomeData)
    requires
        job.phase == Phase::Over,
    ensures
        !job.answered(outcome),
{
}

/// Whatever fails ends the job with a message, and nothing more is written.
pub proof fn law_failure_ends_the_job(job: JobData, place: Seq<char>, cause: Seq<char>)
    ensures
        job.next(OutcomeData::Failed { place, cause }).0.phase == Phase::Over,
        job.next(OutcomeData::Failed { place, cause }).1 == OrderData::Fail(
            job.told(place, cause),
        ),
{
}

/// A recording at a rate that the codec does not accept is refused before anything is written.
pub proof fn law_other_rates_are_refused(job: JobData, b: Seq<u8>, source: wav::WavData)
    requires
        job.phase == Phase::Input,
        wav::parsed(b) == Ok::<wav::WavData, wav::ReadError>(source),
        !plan::opus_rate(source.rate),
    ensures
        job.next(OutcomeData::Bytes(b)).0.phase == Phase::Over,
        job.next(OutcomeData::Bytes(b)).1 == OrderData::Fail(plan::rate_refused(source.rate)),
{
}

/// The copy of the input holds the very recording that was read, as long as its length fits
/// the field for it.
pub proof fn law_copy_holds_the_input(job: JobData, b: Seq<u8>, source: wav::WavData)
    requires
        job.phase == Phase::Input,
        wav::parsed(b) == Ok::<wav::WavData, wav::ReadError>(source),
        plan::opus_rate(source.rate),
        36 + 2 * source.samples.len() <= u32::MAX,
    ensures
        job.next(OutcomeData::Bytes(b)).1 matches OrderData::Write(f) && f.name == job.stem
            + "-original.wav"@ && wav::parsed(f.bytes) == wav::parsed(b),
{
    wav::law_file_reads_back(source);
}

/// Where a job stands after some outcomes.
#[verifier::opaque]
pub open spec fn after(job: JobData, outcomes: Seq<OutcomeData>) -> JobData
    decreases outcomes.len(),
{
    if outcomes.len() == 0 {
        job
    } else {
        after(job, outcomes.drop_last()).next(outcomes.last()).0
    }
}

/// All that a job asked for in answer to some outcomes.
#[verifier::opaque]
pub open spec fn orders(job: JobData, outcomes: Seq<OutcomeData>) -> Seq<OrderData>
    decreases outcomes.len(),
{
    if outcomes.len() == 0 {
        Seq::empty()
    } else {
        orders(job, outcomes.drop_last()).push(
            after(job, outcomes.drop_last()).next(outcomes.last()).1,
        )
    }
}

/// Whether every outcome answers what was asked.
#[verifier::opaque]
pub open spec fn all_answered(job: JobData, outcomes: Seq<OutcomeData>) -> bool
    decreases outcomes.len(),
{
    outcomes.len() == 0 || (all_answered(job, outcomes.drop_last()) && after(
        job,
        outcomes.drop_last(),
    ).answered(outcomes.last()))
}

proof fn lemma_none(job: JobData)
    ensures
        after(job, Seq::empty()) == job,
        orders(job, Seq::empty()) == Seq::<OrderData>::empty(),
        all_answered(job, Seq::empty()),
{
    reveal(after);
    reveal(orders);
    reveal(all_answered);
}

proof fn lemma_step(job: JobData, os: Seq<OutcomeData>, o: OutcomeData)
    ensures
        after(job, os.push(o)) == after(job, os).next(o).0,
        orders(job, os.push(o)) == orders(job, os).push(after(job, os).next(o).1),
        all_answered(job, os.push(o)) == (all_answered(job, os) && after(job, os).answered(o)),
{
    reveal(after);
    reveal(orders);
    reveal(all_answered);
    assert(os.push(o).drop_last() =~= os);
}

/// A job goes on from where it stands, however it came there.
proof fn lemma_append(job: JobData, a: Seq<OutcomeData>, b: Seq<OutcomeData>)
    ensures
        after(job, a + b) == after(after(job, a), b),
        orders(job, a + b) == orders(job, a) + orders(after(job, a), b),
        all_answered(job, a + b) == (all_answered(job, a) && all_answered(after(job, a), b)),
    decreases b.len(),
{
    let mid = after(job, a);
    if b.len() == 0 {
        lemma_none(mid);
        assert(a + b =~= a);
        assert(b =~= Seq::empty());
        assert(orders(job, a) + orders(mid, b) =~= orders(job, a));
    } else {
        let c = b.drop_last();
        lemma_append(job, a, c);
        lemma_step(job, a + c, b.last());
        lemma_step(mid, c, b.last());
        assert((a + c).push(b.last()) =~= a + b);
        assert(c.push(b.last()) =~= b);
        assert(orders(job, a + b) =~= orders(job, a) + orders(mid, b));
    }
}

/// The outcomes of one bitrate that goes through.
pub open spec fn one_bitrate(
    before: Seq<OutcomeData>,
    t: trip::TripData,
    d: wav::WavData,
) -> Seq<OutcomeData> {
    before.push(OutcomeData::Trip(t)).push(OutcomeData::Ready).push(OutcomeData::Ready).push(
        OutcomeData::Difference(d),
    ).push(OutcomeData::Ready)
}

/// The outcomes of a run in which nothing fails, once the input is there: its copy is written,
/// and then `k` bitrates go through.
pub open spec fn outcomes(
    trips: Seq<trip::TripData>,
    differences: Seq<wav::WavData>,
    k: nat,
) -> Seq<OutcomeData>
    decreases k,
{
    if k == 0 {
        seq![OutcomeData::Ready]
    } else {
        one_bitrate(
            outcomes(trips, differences, (k - 1) as nat),
            trips[k - 1],
            differences[k - 1],
        )
    }
}

/// The compressed file of a bitrate.
pub open spec fn opus_out(job: JobData, kbps: i32, t: trip::TripData) -> OutFileData {
    OutFileData {
        name: plan::rated(job.stem, kbps, "k.opus"@),
        bytes: ogg::pages_bytes(
            ogg::file_pages(t.packets, plan::stream_of(job.source, t.lookahead), job.vendor),
        ),
    }
}

/// The decoded file of a bitrate.
pub open spec fn wav_out(job: JobData, kbps: i32, t: trip::TripData) -> OutFileData {
    OutFileData {
        name: plan::rated(job.stem, kbps, "k.wav"@),
        bytes: wav::file_bytes(t.decoded),
    }
}

/// The file with the difference of a bitrate.
pub open spec fn diff_out(job: JobData, kbps: i32, d: wav::WavData) -> OutFileData {
    OutFileData { name: plan::rated(job.stem, kbps, "k-diff.wav"@), bytes: wav::file_bytes(d) }
}

/// The copy of the input.
pub open spec fn copy_out(stem: Seq<char>, source: wav::WavData) -> OutFileData {
    OutFileData { name: stem + "-original.wav"@, bytes: wav::file_bytes(source) }
}

/// What is asked for when `k` bitrates are done.
pub open spec fn continued(job: JobData, k: nat) -> OrderData {
    if k < job.bitrates.len() {
        OrderData::RunTrip(job.bitrates[k as int])
    } else {
        OrderData::Done(plan::listening(job.stem, plan::lowest_of(job.bitrates)))
    }
}

/// What is asked for on the way: for each bitrate the trip, the compressed file, the decoded
/// file, the comparison and the file with the difference, and what the user is told at the end.
pub open spec fn expected(
    job: JobData,
    trips: Seq<trip::TripData>,
    differences: Seq<wav::WavData>,
    k: nat,
) -> Seq<OrderData>
    decreases k,
{
    if k == 0 {
        seq![continued(job, 0)]
    } else {
        let j = k - 1;
        expected(job, trips, differences, j as nat).push(
            OrderData::Write(opus_out(job, job.bitrates[j], trips[j])),
        ).push(OrderData::Write(wav_out(job, job.bitrates[j], trips[j]))).push(
            OrderData::Compare,
        ).push(OrderData::Write(diff_out(job, job.bitrates[j], differences[j]))).push(
            continued(job, k),
        )
    }
}

/// Where a job stands when `k` bitrates are done.
pub open spec fn underway(job: JobData, trips: Seq<trip::TripData>, k: nat) -> JobData {
    JobData {
        phase: if k < job.bitrates.len() {
            Phase::Trip
        } else {
            Phase::Over
        },
        done: k,
        trip: if k == 0 {
            job.trip
        } else {
            trips[k - 1]
        },
        ..job
    }
}

/// One bitrate.
proof fn lemma_one_bitrate(
    job: JobData,
    os: Seq<OutcomeData>,
    t: trip::TripData,
    d: wav::WavData,
)
    requires
        after(job, os).phase == Phase::Trip,
    ensures
        ({
            let now = after(job, os);
            let more = one_bitrate(os, t, d);
            let (state, order) = JobData {
                phase: Phase::Discarded,
                trip: t,
                done: now.done + 1,
                ..now
            }.onward();
            &&& after(job, more) == state
            &&& orders(job, more) == orders(job, os).push(
                OrderData::Write(opus_out(now, now.kbps(), t)),
            ).push(OrderData::Write(wav_out(now, now.kbps(), t))).push(OrderData::Compare).push(
                OrderData::Write(diff_out(now, now.kbps(), d)),
            ).push(order)
            &&& all_answered(job, more) == (all_answered(job, os) && now.answered(
                OutcomeData::Trip(t),
            ) && job::same_shape(d, now.source))
        }),
{
    let now = after(job, os);
    let b = os.push(OutcomeData::Trip(t));
    let c = b.push(OutcomeData::Ready);
    let e = c.push(OutcomeData::Ready);
    let f = e.push(OutcomeData::Difference(d));
    lemma_step(job, os, OutcomeData::Trip(t));
    assert(after(job, b) == JobData { phase: Phase::Compressed, trip: t, ..now });
    lemma_step(job, b, OutcomeData::Ready);
    assert(after(job, c) == JobData { phase: Phase::Decoded, trip: t, ..now });
    lemma_step(job, c, OutcomeData::Ready);
    assert(after(job, e) == JobData { phase: Phase::Difference, trip: t, ..now });
    lemma_step(job, e, OutcomeData::Difference(d));
    assert(after(job, f) == JobData { phase: Phase::Discarded, trip: t, ..now });
    lemma_step(job, f, OutcomeData::Ready);
}

/// What a run does from the moment the copy of the input is to be written: each bitrate is gone
/// through in the order given, and exactly the files that belong to it are written, with the
/// contents that belong in them.
#[verifier::spinoff_prover]
pub proof fn law_bitrates_in_order(
    job: JobData,
    trips: Seq<trip::TripData>,
    differences: Seq<wav::WavData>,
    k: nat,
)
    requires
        job.phase == Phase::Copy,
        job.done == 0,
        k <= job.bitrates.len(),
    ensures
        orders(job, outcomes(trips, differences, k)) == expected(job, trips, differences, k),
        after(job, outcomes(trips, differences, k)) == underway(job, trips, k),
    decreases k,
{
    if k == 0 {
        let e = Seq::<OutcomeData>::empty();
        lemma_none(job);
        lemma_step(job, e, OutcomeData::Ready);
        assert(e.push(OutcomeData::Ready) =~= outcomes(trips, differences, 0));
        assert(orders(job, e).push(continued(job, 0)) =~= seq![continued(job, 0)]);
    } else {
        let j = (k - 1) as nat;
        law_bitrates_in_order(job, trips, differences, j);
        lemma_one_bitrate(
            job,
            outcomes(trips, differences, j),
            trips[j as int],
            differences[j as int],
        );
    }
}

/// Whether what comes of a bitrate is what a job takes: the numbers fit their fields, there is
/// a packet for every frame, and the decoded recording and the difference have the shape of the
/// input.
pub open spec fn taken(job: JobData, t: trip::TripData, d: wav::WavData) -> bool {
    &&& plan::countable(job.source, t.lookahead)
    &&& ogg::writable(t.packets, plan::stream_of(job.source, t.lookahead), job.vendor)
    &&& t.packets.len() == job.packet_count()
    &&& job::same_shape(t.decoded, job.source)
    &&& job::same_shape(d, job.source)
}

/// A run goes through its bitrates exactly where each brings what a job takes; above all, what
/// is decoded and what was discarded have the rate, the channels and the length of the input.
#[verifier::spinoff_prover]
pub proof fn law_what_a_run_takes(
    job: JobData,
    trips: Seq<trip::TripData>,
    differences: Seq<wav::WavData>,
    k: nat,
)
    requires
        job.phase == Phase::Copy,
        job.done == 0,
        k <= job.bitrates.len(),
    ensures
        all_answered(job, outcomes(trips, differences, k)) <==> forall|i: int|
            0 <= i < k ==> taken(job, #[trigger] trips[i], differences[i]),
    decreases k,
{
    if k == 0 {
        let e = Seq::<OutcomeData>::empty();
        lemma_none(job);
        lemma_step(job, e, OutcomeData::Ready);
        assert(e.push(OutcomeData::Ready) =~= outcomes(trips, differences, 0));
    } else {
        let j = (k - 1) as nat;
        law_what_a_run_takes(job, trips, differences, j);
        law_bitrates_in_order(job, trips, differences, j);
        let (t, d) = (trips[j as int], differences[j as int]);
        lemma_one_bitrate(job, outcomes(trips, differences, j), t, d);
        let now = underway(job, trips, j);
        assert((now.answered(OutcomeData::Trip(t)) && job::same_shape(d, now.source)) == taken(
            job,
            t,
            d,
        ));
        if all_answered(job, outcomes(trips, differences, k)) {
            assert forall|i: int| 0 <= i < k implies taken(
                job,
                #[trigger] trips[i],
                differences[i],
            ) by {
                if i == j {
                    assert(taken(job, t, d));
                }
            }
        }
    }
}

/// The files that are written, in order.
pub open spec fn written(os: Seq<OrderData>) -> Seq<OutFileData>
    decreases os.len(),
{
    if os.len() == 0 {
        Seq::empty()
    } else {
        match os.last() {
            OrderData::Write(f) => written(os.drop_last()).push(f),
            _ => written(os.drop_last()),
        }
    }
}

/// The files of the first `k` bitrates: three for each.
pub open spec fn files(
    job: JobData,
    trips: Seq<trip::TripData>,
    differences: Seq<wav::WavData>,
    k: nat,
) -> Seq<OutFileData>
    decreases k,
{
    if k == 0 {
        Seq::empty()
    } else {
        let j = k - 1;
        files(job, trips, differences, j as nat).push(
            opus_out(job, job.bitrates[j], trips[j]),
        ).push(wav_out(job, job.bitrates[j], trips[j])).push(
            diff_out(job, job.bitrates[j], differences[j]),
        )
    }
}

proof fn lemma_written_push(os: Seq<OrderData>, o: OrderData)
    ensures
        written(os.push(o)) == (match o {
            OrderData::Write(f) => written(os).push(f),
            _ => written(os),
        }),
{
    assert(os.push(o).drop_last() =~= os);
}

proof fn lemma_written(
    front: Seq<OrderData>,
    job: JobData,
    trips: Seq<trip::TripData>,
    differences: Seq<wav::WavData>,
    k: nat,
)
    ensures
        written(front + expected(job, trips, differences, k)) == written(front) + files(
            job,
            trips,
            differences,
            k,
        ),
    decreases k,
{
    if k == 0 {
        lemma_written_push(front, continued(job, 0));
        assert(front + expected(job, trips, differences, 0) =~= front.push(continued(job, 0)));
        assert(written(front) + files(job, trips, differences, 0) =~= written(front));
    } else {
        let j = k - 1;
        lemma_written(front, job, trips, differences, j as nat);
        let a = front + expected(job, trips, differences, j as nat);
        let w1 = OrderData::Write(opus_out(job, job.bitrates[j], trips[j]));
        let w2 = OrderData::Write(wav_out(job, job.bitrates[j], trips[j]));
        let w3 = OrderData::Write(diff_out(job, job.bitrates[j], differences[j]));
        lemma_written_push(a, w1);
        lemma_written_push(a.push(w1), w2);
        lemma_written_push(a.push(w1).push(w2), OrderData::Compare);
        lemma_written_push(a.push(w1).push(w2).push(OrderData::Compare), w3);
        lemma_written_push(
            a.push(w1).push(w2).push(OrderData::Compare).push(w3),
            continued(job, k),
        );
        assert(front + expected(job, trips, differences, k) =~= a.push(w1).push(w2).push(
            OrderData::Compare,
        ).push(w3).push(continued(job, k)));
        assert(written(front) + files(job, trips, differences, k) =~= (written(front) + files(
            job,
            trips,
            differences,
            j as nat,
        )).push(opus_out(job, job.bitrates[j], trips[j])).push(
            wav_out(job, job.bitrates[j], trips[j]),
        ).push(diff_out(job, job.bitrates[j], differences[j])));
    }
}

/// Whether an outcome brings the recording to work on: the file that was named, or else the
/// clip.
pub open spec fn brings(
    input: Option<Seq<char>>,
    outcome: OutcomeData,
    source: wav::WavData,
) -> bool {
    match outcome {
        OutcomeData::Bytes(b) => input is Some && wav::parsed(b) == Ok::<
            wav::WavData,
            wav::ReadError,
        >(source),
        OutcomeData::Clip(w) => input is None && w == source,
        _ => false,
    }
}

/// The outcomes of a whole run in which nothing fails: the folder is made, the recording is
/// there, its copy is written, and every bitrate goes through.
pub open spec fn whole_run(
    brought: OutcomeData,
    trips: Seq<trip::TripData>,
    differences: Seq<wav::WavData>,
) -> Seq<OutcomeData> {
    seq![OutcomeData::Ready, brought] + outcomes(trips, differences, trips.len())
}

/// A job whose recording is there, and whose copy is to be written.
pub open spec fn supplied(job: JobData, source: wav::WavData) -> JobData {
    JobData { phase: Phase::Copy, source, ..job }
}

/// What is asked for first.
pub open spec fn first_order(input: Option<Seq<char>>) -> OrderData {
    match input {
        Some(path) => OrderData::Read(path),
        None => OrderData::MakeClip,
    }
}

proof fn lemma_supplied(job: JobData, brought: OutcomeData, source: wav::WavData)
    requires
        job.phase == Phase::Folder,
        brings(job.input, brought, source),
        plan::opus_rate(source.rate),
    ensures
        after(job, seq![OutcomeData::Ready, brought]) == supplied(job, source),
        orders(job, seq![OutcomeData::Ready, brought]) == seq![
            first_order(job.input),
            OrderData::Write(copy_out(job.stem, source)),
        ],
        all_answered(job, seq![OutcomeData::Ready, brought]) == plan::wav_fits(source),
{
    let e = Seq::<OutcomeData>::empty();
    lemma_none(job);
    lemma_step(job, e, OutcomeData::Ready);
    lemma_step(job, e.push(OutcomeData::Ready), brought);
    assert(e.push(OutcomeData::Ready).push(brought) =~= seq![OutcomeData::Ready, brought]);
    assert(orders(job, seq![OutcomeData::Ready, brought]) =~= seq![
        first_order(job.input),
        OrderData::Write(copy_out(job.stem, source)),
    ]);
}

/// A whole run, from the command line to the last file. The recording is read from the file
/// that was named, or synthesised where none was. Exactly these files are written: the copy of
/// the input, and for each bitrate in turn the compressed, the decoded and the difference file.
/// The run ends with the advice on what to listen to.
#[verifier::spinoff_prover]
pub proof fn law_whole_run(
    input: Option<Seq<char>>,
    stem: Seq<char>,
    bitrates: Seq<i32>,
    vendor: Seq<u8>,
    brought: OutcomeData,
    source: wav::WavData,
    trips: Seq<trip::TripData>,
    differences: Seq<wav::WavData>,
)
    requires
        brings(input, brought, source),
        plan::opus_rate(source.rate),
        trips.len() == bitrates.len(),
        differences.len() == bitrates.len(),
    ensures
        ({
            let job = job::opened(input, stem, bitrates, vendor);
            let now = supplied(job, source);
            let asked = orders(job, whole_run(brought, trips, differences));
            &&& asked == seq![first_order(input), OrderData::Write(copy_out(stem, source))]
                + expected(now, trips, differences, bitrates.len())
            &&& asked.last() == OrderData::Done(plan::listening(stem, plan::lowest_of(bitrates)))
            &&& written(asked) == seq![copy_out(stem, source)] + files(
                now,
                trips,
                differences,
                bitrates.len(),
            )
            &&& after(job, whole_run(brought, trips, differences)).phase == Phase::Over
        }),
{
    let job = job::opened(input, stem, bitrates, vendor);
    let now = supplied(job, source);
    let n = bitrates.len();
    let front = seq![OutcomeData::Ready, brought];
    let start = seq![first_order(input), OrderData::Write(copy_out(stem, source))];
    lemma_supplied(job, brought, source);
    lemma_append(job, front, outcomes(trips, differences, n));
    law_bitrates_in_order(now, trips, differences, n);
    lemma_written(start, now, trips, differences, n);
    let e = Seq::<OrderData>::empty();
    lemma_written_push(e, start[0]);
    lemma_written_push(e.push(start[0]), start[1]);
    assert(e.push(start[0]).push(start[1]) =~= start);
    assert(written(e) =~= Seq::empty());
    assert(written(start) =~= seq![copy_out(stem, source)]);
    assert(expected(now, trips, differences, n).last() == continued(now, n));
    assert((start + expected(now, trips, differences, n)).last() == continued(now, n));
}

/// Whether a file holds a recording with the shape of another.
pub open spec fn holds_shape(f: OutFileData, source: wav::WavData) -> bool {
    wav::parsed(f.bytes) matches Ok(w) && job::same_shape(w, source)
}

/// Whether a player takes a file apart into these packets, after the two header packets, and
/// plays it for as long as a recording lasts.
pub open spec fn plays(f: OutFileData, packets: Seq<Seq<u8>>, source: wav::WavData) -> bool {
    demux::read_pages(f.bytes) matches Some(pages) && demux::page_packets(pages).skip(2) == packets
        && demux::played(pages) == source.samples.len() / (source.channels as nat)
        * plan::per_sample(source.rate)
}

/// What the files of a whole run hold, read back: the copy is the input, each decoded file is
/// what came back from the codec, each difference file is the difference, and all of them have
/// the rate, the channels and the length of the input. A player takes each compressed file
/// apart into the packets of that bitrate and plays it for as long as the input lasts, where the
/// codec delay fits its field. The length of the input has to fit the field for it, and a clip
/// has one or two channels, as every file has that is read.
#[verifier::spinoff_prover]
pub proof fn law_files_have_the_shape_of_the_input(
    input: Option<Seq<char>>,
    stem: Seq<char>,
    bitrates: Seq<i32>,
    vendor: Seq<u8>,
    brought: OutcomeData,
    source: wav::WavData,
    trips: Seq<trip::TripData>,
    differences: Seq<wav::WavData>,
    i: int,
)
    requires
        brings(input, brought, source),
        plan::opus_rate(source.rate),
        brought is Clip ==> source.channels == 1 || source.channels == 2,
        36 + 2 * source.samples.len() <= u32::MAX,
        trips.len() == bitrates.len(),
        differences.len() == bitrates.len(),
        all_answered(
            job::opened(input, stem, bitrates, vendor),
            whole_run(brought, trips, differences),
        ),
        0 <= i < bitrates.len(),
    ensures
        ({
            let now = supplied(job::opened(input, stem, bitrates, vendor), source);
            let decoded = wav_out(now, bitrates[i], trips[i]);
            let difference = diff_out(now, bitrates[i], differences[i]);
            &&& wav::parsed(copy_out(stem, source).bytes) == Ok::<wav::WavData, wav::ReadError>(
                source,
            )
            &&& wav::parsed(decoded.bytes) == Ok::<wav::WavData, wav::ReadError>(trips[i].decoded)
            &&& wav::parsed(difference.bytes) == Ok::<wav::WavData, wav::ReadError>(
                differences[i],
            )
            &&& holds_shape(decoded, source)
            &&& holds_shape(difference, source)
            &&& trips[i].packets.len() == now.packet_count()
            &&& plan::ticks(trips[i].lookahead, source.rate) <= u16::MAX ==> plays(
                opus_out(now, bitrates[i], trips[i]),
                trips[i].packets,
                source,
            )
        }),
{
    let job = job::opened(input, stem, bitrates, vendor);
    let now = supplied(job, source);
    let n = bitrates.len();
    lemma_supplied(job, brought, source);
    lemma_append(
        job,
        seq![OutcomeData::Ready, brought],
        outcomes(trips, differences, n),
    );
    law_what_a_run_takes(now, trips, differences, n);
    assert(taken(now, trips[i], differences[i]));
    wav::law_file_reads_back(source);
    wav::law_file_reads_back(trips[i].decoded);
    wav::law_file_reads_back(differences[i]);
    if plan::ticks(trips[i].lookahead, source.rate) <= u16::MAX {
        plan::law_opus_file_plays(source, trips[i].lookahead, trips[i].packets, vendor);
    }
}

/// Whether a session ends with what a job takes: the rate, the channels and the length of the
/// recording, and a packet for every frame.
pub open spec fn brings_back(job: JobData, step: trip::StepData) -> bool {
    step matches trip::StepData::Done(t) && job::same_shape(t.decoded, job.source)
        && t.packets.len() == job.packet_count()
}

/// A recording that goes through the codec comes back in the shape that a job takes, whether or
/// not the silent frame at the end can be decoded.
pub proof fn law_sessions_bring_what_a_job_takes(
    job: JobData,
    kbps: i32,
    delay: nat,
    packets: Seq<Seq<u8>>,
    pcm: Seq<Seq<i16>>,
    e: Seq<char>,
)
    requires
        packets.len() == trip_laws::opened(job.source, kbps).frames() + 1,
        pcm.len() == packets.len(),
    ensures
        brings_back(
            job,
            trip_laws::asked(
                trip_laws::opened(job.source, kbps),
                trip_laws::replies(delay, packets, pcm, packets.len()),
            ),
        ),
        brings_back(
            job,
            trip_laws::asked(
                trip_laws::opened(job.source, kbps),
                trip_laws::replies(
                    delay,
                    packets,
                    pcm.drop_last(),
                    pcm.drop_last().len(),
                ).push(trip::ReplyData::Packet(packets.last())).push(trip::ReplyData::Failed(e)),
            ),
        ),
{
    trip_laws::law_session_result(job.source, kbps, delay, packets, pcm);
    trip_laws::law_silent_frame_may_fail(
        job.source,
        kbps,
        delay,
        packets,
        pcm.drop_last(),
        e,
    );
}

/// Two texts that agree, each made of a part without the letter k and a part that begins with
/// it, agree in both parts.
proof fn lemma_split_at_k(a: Seq<char>, x: Seq<char>, b: Seq<char>, y: Seq<char>)
    requires
        a + x == b + y,
        !a.contains('k'),
        !b.contains('k'),
        x.len() > 0,
        y.len() > 0,
        x[0] == 'k',
        y[0] == 'k',
    ensures
        a == b,
        x == y,
{
    let s = a + x;
    assert(s[a.len() as int] == 'k');
    assert((b + y)[b.len() as int] == 'k');
    if a.len() < b.len() {
        assert(b[a.len() as int] == s[a.len() as int]);
        assert(b.contains('k'));
    }
    if b.len() < a.len() {
        assert(a[b.len() as int] == s[b.len() as int]);
        assert(a.contains('k'));
    }
    assert(a =~= s.take(a.len() as int));
    assert(b =~= s.take(a.len() as int));
    assert(x =~= s.skip(a.len() as int));
    assert(y =~= s.skip(a.len() as int));
}

/// The ends that the names of the files have after the bitrate.
pub open spec fn file_end(end: Seq<char>) -> bool {
    end == "k.opus"@ || end == "k.wav"@ || end == "k-diff.wav"@
}

/// No file of a run overwrites another: the names differ for different bitrates and for the
/// different files of one bitrate, and none is that of the copy of the input.
pub proof fn law_names_differ(
    stem: Seq<char>,
    kbps1: i32,
    end1: Seq<char>,
    kbps2: i32,
    end2: Seq<char>,
)
    requires
        file_end(end1),
        file_end(end2),
        kbps1 != kbps2 || end1 != end2,
    ensures
        plan::rated(stem, kbps1, end1) != plan::rated(stem, kbps2, end2),
        plan::rated(stem, kbps1, end1) != stem + "-original.wav"@,
{
    reveal_strlit("-");
    reveal_strlit("-original.wav");
    reveal_strlit("k.opus");
    reveal_strlit("k.wav");
    reveal_strlit("k-diff.wav");
    let (n1, n2) = (text::signed(kbps1 as int), text::signed(kbps2 as int));
    let (r1, r2) = (plan::rated(stem, kbps1, end1), plan::rated(stem, kbps2, end2));
    text::lemma_signed(kbps1 as int);
    text::lemma_signed(kbps2 as int);
    if r1 == r2 {
        let m = stem.len() as int + 1;
        assert(r1.skip(m) =~= n1 + end1);
        assert(r2.skip(m) =~= n2 + end2);
        lemma_split_at_k(n1, end1, n2, end2);
        text::law_number_reads_back(kbps1);
        text::law_number_reads_back(kbps2);
    }
    let copy = stem + "-original.wav"@;
    if r1 == copy {
        assert(r1[stem.len() as int + 1] == n1[0]);
        assert(copy[stem.len() as int + 1] == 'o');
    }
}

/// A job begins with what it was given, and nothing done.
pub proof fn law_beginning(
    input: Option<Seq<char>>,
    stem: Seq<char>,
    bitrates: Seq<i32>,
    vendor: Seq<u8>,
)
    ensures
        ({
            let job = job::opened(input, stem, bitrates, vendor);
            &&& job.phase == Phase::Folder
            &&& job.input == input
            &&& job.stem == stem
            &&& job.bitrates == bitrates
            &&& job.vendor == vendor
            &&& job.done == 0
        }),
{
}

/// Once there is a folder, the file that was named is read; where none was named, a clip is made.
pub proof fn law_input_is_sought(job: JobData)
    requires
        job.phase == Phase::Folder,
    ensures
        job.answered(OutcomeData::Ready),
        job.next(OutcomeData::Ready).0.phase == (if job.input is Some {
            Phase::Input
        } else {
            Phase::Clip
        }),
        job.next(OutcomeData::Ready).1 == (match job.input {
            Some(path) => OrderData::Read(path),
            None => OrderData::MakeClip,
        }),
{
}

/// What a job was given it keeps, whatever happens; the recording changes only when one is
/// brought, and what became of it only when it has been through the codec.
pub proof fn law_what_a_job_keeps(job: JobData, outcome: OutcomeData)
    ensures
        ({
            let now = job.next(outcome).0;
            &&& now.input == job.input
            &&& now.stem == job.stem
            &&& now.bitrates == job.bitrates
            &&& now.vendor == job.vendor
            &&& !(outcome is Bytes || outcome is Clip) ==> now.source == job.source
            &&& outcome matches OutcomeData::Clip(w) ==> now.source == w
            &&& outcome !is Trip ==> now.trip == job.trip
            &&& outcome matches OutcomeData::Trip(t) ==> now.trip == t
            &&& now.done == job.done || now.done == job.done + 1
            &&& now.done != job.done ==> outcome is Ready
        }),
{
}

/// A clip at a rate that the codec accepts is copied to a file that holds it; at another rate it
/// is refused.
pub proof fn law_copy_holds_the_clip(job: JobData, source: wav::WavData)
    requires
        job.phase == Phase::Clip,
        source.channels == 1 || source.channels == 2,
        36 + 2 * source.samples.len() <= u32::MAX,
    ensures
        job.answered(OutcomeData::Clip(source)),
        ({
            let (now, order) = job.next(OutcomeData::Clip(source));
            if source.rate == 8_000 || source.rate == 12_000 || source.rate == 16_000
                || source.rate == 24_000 || source.rate == 48_000 {
                &&& now.phase == Phase::Copy
                &&& order matches OrderData::Write(f)
                &&& f.name == job.stem + "-original.wav"@
                &&& wav::parsed(f.bytes) == Ok::<wav::WavData, wav::ReadError>(source)
            } else {
                &&& now.phase == Phase::Over
                &&& order is Fail
            }
        }),
{
    wav::law_file_reads_back(source);
    if plan::opus_rate(source.rate) {
        plan::law_ordinary_recordings_fit(source, 0);
    }
}

/// A file that cannot be read as a recording ends the job, whatever is wrong with it.
pub proof fn law_bad_files_end_the_job(job: JobData, b: Seq<u8>)
    requires
        job.phase == Phase::Input,
        wav::parsed(b) is Err,
    ensures
        job.answered(OutcomeData::Bytes(b)),
        job.next(OutcomeData::Bytes(b)).0.phase == Phase::Over,
        job.next(OutcomeData::Bytes(b)).1 is Fail,
{
}

/// Any file below four gigabytes that can be read as a recording is taken.
pub proof fn law_good_files_are_worked_on(job: JobData, b: Seq<u8>, source: wav::WavData)
    requires
        job.phase == Phase::Input,
        wav::parsed(b) == Ok::<wav::WavData, wav::ReadError>(source),
        source.channels == 1 || source.channels == 2,
        36 + 2 * source.samples.len() <= u32::MAX,
    ensures
        job.answered(OutcomeData::Bytes(b)),
        job.next(OutcomeData::Bytes(b)).0.source == source,
{
    if plan::opus_rate(source.rate) {
        plan::law_ordinary_recordings_fit(source, 0);
    }
}

/// Every bitrate has its turn: the first after the copy is written, and after each the next in
/// the list; after the last one the job is over.
pub proof fn law_next_bitrate(job: JobData)
    requires
        job.phase == Phase::Copy || job.phase == Phase::Discarded,
    ensures
        job.answered(OutcomeData::Ready),
        ({
            let (now, order) = job.next(OutcomeData::Ready);
            let done = if job.phase == Phase::Copy {
                job.done as int
            } else {
                job.done as int + 1
            };
            &&& now.done == done
            &&& if done < job.bitrates.len() {
                &&& now.phase == Phase::Trip
                &&& order == OrderData::RunTrip(job.bitrates[done])
            } else {
                &&& now.phase == Phase::Over
                &&& order is Done
            }
        }),
{
}

/// What came back from the codec is written under the bitrate in hand: first the packets, in a
/// file that a player takes apart into them.
pub proof fn law_packets_are_written(job: JobData, t: trip::TripData)
    requires
        job.answered(OutcomeData::Trip(t)),
        plan::opus_rate(job.source.rate),
        job.source.channels > 0,
        plan::ticks(t.lookahead, job.source.rate) <= u16::MAX,
    ensures
        ({
            let (now, order) = job.next(OutcomeData::Trip(t));
            &&& now.phase == Phase::Compressed
            &&& order matches OrderData::Write(f)
            &&& f.name == plan::rated(job.stem, job.bitrates[job.done as int], "k.opus"@)
            &&& demux::read_pages(f.bytes) matches Some(pages)
            &&& demux::page_packets(pages).skip(2) == t.packets
            &&& demux::played(pages) * job.source.rate == job.source.samples.len() / (
            job.source.channels as nat) * 48_000
        }),
{
    plan::law_opus_file_plays(job.source, t.lookahead, t.packets, job.vendor);
}

/// Then what was decoded, in a file that reads back as it; then the comparison is made.
pub proof fn law_decoded_is_written(job: JobData)
    requires
        job.phase == Phase::Compressed,
        job.trip.decoded.channels == 1 || job.trip.decoded.channels == 2,
        36 + 2 * job.trip.decoded.samples.len() <= u32::MAX,
    ensures
        job.answered(OutcomeData::Ready),
        ({
            let (now, order) = job.next(OutcomeData::Ready);
            &&& now.phase == Phase::Decoded
            &&& order matches OrderData::Write(f)
            &&& f.name == plan::rated(job.stem, job.bitrates[job.done as int], "k.wav"@)
            &&& wav::parsed(f.bytes) == Ok::<wav::WavData, wav::ReadError>(job.trip.decoded)
            &&& now.answered(OutcomeData::Ready)
            &&& now.next(OutcomeData::Ready).0.phase == Phase::Difference
            &&& now.next(OutcomeData::Ready).1 == OrderData::Compare
        }),
{
    wav::law_file_reads_back(job.trip.decoded);
}

/// Last the difference, in a file that reads back as it.
pub proof fn law_difference_is_written(job: JobData, d: wav::WavData)
    requires
        job.phase == Phase::Difference,
        d.rate == job.source.rate,
        d.channels == job.source.channels,
        d.samples.len() == job.source.samples.len(),
        d.channels == 1 || d.channels == 2,
        36 + 2 * d.samples.len() <= u32::MAX,
    ensures
        job.answered(OutcomeData::Difference(d)),
        ({
            let (now, order) = job.next(OutcomeData::Difference(d));
            &&& now.phase == Phase::Discarded
            &&& order matches OrderData::Write(f)
            &&& f.name == plan::rated(job.stem, job.bitrates[job.done as int], "k-diff.wav"@)
            &&& wav::parsed(f.bytes) == Ok::<wav::WavData, wav::ReadError>(d)
        }),
{
    wav::law_file_reads_back(d);
}

/// What the user is told of a failure ends with its cause. Where a file could not be read or
/// written, its place is named before that.
pub proof fn law_failure_names_its_cause(job: JobData, place: Seq<char>, cause: Seq<char>)
    requires
        job.phase != Phase::Over,
    ensures
        job.answered(OutcomeData::Failed { place, cause }),
        ({
            let told = job.next(OutcomeData::Failed { place, cause }).1;
            &&& told matches OrderData::Fail(m)
            &&& m.len() >= cause.len()
            &&& m.skip(m.len() - cause.len()) == cause
            &&& job.phase == Phase::Input || job.phase == Phase::Copy || job.phase
                == Phase::Compressed || job.phase == Phase::Decoded || job.phase
                == Phase::Discarded ==> report::says(m.take(m.len() - cause.len()), place)
        }),
{
    let m = job.told(place, cause);
    assert(m.skip(m.len() - cause.len()) =~= cause);
    let front = m.take(m.len() - cause.len());
    match job.phase {
        Phase::Input => {
            let at = "cannot read "@.len() as int;
            assert(front.subrange(at, at + place.len()) =~= place);
        },
        Phase::Copy | Phase::Compressed | Phase::Decoded | Phase::Discarded => {
            let at = "cannot write "@.len() as int;
            assert(front.subrange(at, at + place.len()) =~= place);
        },
        _ => {},
    }
}

/// What an order says is what is in it.
pub proof fn law_orders_say_what_is_in_them(s: String, f: OutFile, k: i32)
    ensures
        Order::MakeFolder@ == OrderData::MakeFolder,
        Order::Read(s)@ == OrderData::Read(s@),
        Order::MakeClip@ == OrderData::MakeClip,
        Order::Write(f)@ matches OrderData::Write(g) && g.name == f.name@ && g.bytes == f.bytes@,
        Order::RunTrip(k)@ == OrderData::RunTrip(k),
        Order::Compare@ == OrderData::Compare,
        Order::Done(s)@ == OrderData::Done(s@),
        Order::Fail(s)@ == OrderData::Fail(s@),
{
}

/// An outcome is taken for what is in it.
pub proof fn law_outcomes_are_taken_as_they_are(b: Vec<u8>, w: Wav, t: Trip, p: String, c: String)
    ensures
        Outcome::Ready@ == OutcomeData::Ready,
        Outcome::Bytes(b)@ == OutcomeData::Bytes(b@),
        Outcome::Clip(w)@ == OutcomeData::Clip(w@),
        Outcome::Trip(t)@ == OutcomeData::Trip(t@),
        Outcome::Difference(w)@ == OutcomeData::Difference(w@),
        (Outcome::Failed { place: p, cause: c })@ matches OutcomeData::Failed { place, cause }
            && place == p@ && cause == c@,
{
}

} // verus!
