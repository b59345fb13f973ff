//! What holds of a whole trial, from its first question to its last claim.

use crate::trial::{AnswerData, AskData, Bitrate, Metadata, Stage, TrialData};
use crate::trip::Channels;
use crate::{compare, report, text, trial};
use vstd::prelude::*;

verus! {

/// Where a trial stands after some answers.
#[verifier::opaque]
pub open spec fn after(t: TrialData, answers: Seq<AnswerData>) -> TrialData
    decreases answers.len(),
{
    if answers.len() == 0 {
        t
    } else {
        after(t, answers.drop_last()).next(answers.last()).state
    }
}

/// All that a trial claims on the way.
#[verifier::opaque]
pub open spec fn claimed(t: TrialData, answers: Seq<AnswerData>) -> Seq<report::ClaimData>
    decreases answers.len(),
{
    if answers.len() == 0 {
        Seq::empty()
    } else {
        claimed(t, answers.drop_last()) + after(t, answers.drop_last()).next(answers.last()).claims
    }
}

/// What a codec does with one frame.
pub struct Round {
    pub packet: Seq<u8>,
    pub metadata: Metadata,
    pub buffer: Seq<i16>,
    pub got: nat,
}

/// What a codec answers that does not fail.
pub struct Story {
    /// Whether it accepts each setting.
    pub accepted: Seq<bool>,
    pub bitrate: Option<Bitrate>,
    pub complexity: Option<i32>,
    pub rate: Option<u32>,
    pub rounds: Seq<Round>,
    pub bandwidth: bool,
}

/// The answers up to the first frame.
pub open spec fn prelude(s: Story) -> Seq<AnswerData> {
    seq![
        AnswerData::Ready,
        AnswerData::Configured(s.accepted[0]),
        AnswerData::Configured(s.accepted[1]),
        AnswerData::Configured(s.accepted[2]),
        AnswerData::Configured(s.accepted[3]),
        AnswerData::Configured(s.accepted[4]),
        AnswerData::Bitrate(s.bitrate),
        AnswerData::Complexity(s.complexity),
        AnswerData::Rate(s.rate),
        AnswerData::Ready,
    ]
}

/// The answers up to the end of `k` frames.
pub open spec fn rounds(s: Story, k: nat) -> Seq<AnswerData>
    decreases k,
{
    if k == 0 {
        prelude(s)
    } else {
        let r = s.rounds[k - 1];
        rounds(s, (k - 1) as nat).push(AnswerData::Packet(r.packet)).push(
            AnswerData::Metadata(r.metadata),
        ).push(AnswerData::Pcm { buffer: r.buffer, got: r.got })
    }
}

/// All answers.
pub open spec fn answers(s: Story) -> Seq<AnswerData> {
    rounds(s, s.rounds.len()).push(AnswerData::Bandwidth(s.bandwidth)).push(AnswerData::Ready)
}

/// The sizes of the packets.
pub open spec fn sizes(rs: Seq<Round>) -> Seq<usize> {
    Seq::new(rs.len(), |i: int| rs[i].packet.len() as usize)
}

/// Whether every packet says what it should and decodes to as much.
pub open spec fn agree(t: TrialData, rs: Seq<Round>) -> bool {
    forall|i: int|
        0 <= i < rs.len() ==> t.as_sent((#[trigger] rs[i]).metadata) && rs[i].got == t.frame()
}

/// Whether every setting is accepted.
pub open spec fn all_accepted(s: Story) -> bool {
    s.accepted[0] && s.accepted[1] && s.accepted[2] && s.accepted[3] && s.accepted[4]
}

/// The four claims about the settings.
pub open spec fn settings_claims(t: TrialData, s: Story) -> Seq<report::ClaimData> {
    seq![
        t.claim(": encoder configures"@, all_accepted(s)),
        t.claim(": bitrate reads back"@, s.bitrate == Some(Bitrate::Bits(trial::BITRATE))),
        t.claim(": complexity reads back"@, s.complexity == Some(trial::COMPLEXITY)),
        t.claim(": sample rate reads back"@, s.rate == Some(t.rate)),
    ]
}

/// The four claims about the frames.
pub open spec fn signal_claims(t: TrialData, s: Story) -> Seq<report::ClaimData> {
    seq![
        t.claim(": encodes to packets"@, trial::none_empty(sizes(s.rounds))),
        t.claim(": packet metadata agrees"@, agree(t, s.rounds)),
        t.claim(": bandwidth is reported"@, s.bandwidth),
        t.claim(
            ": signal survives the round trip"@,
            compare::alike(
                compare::energy(compare::values(s.rounds.last().buffer)),
                compare::energy(compare::values(t.input)),
            ),
        ),
    ]
}

proof fn lemma_step(t: TrialData, before: Seq<AnswerData>, a: AnswerData)
    ensures
        after(t, before.push(a)) == after(t, before).next(a).state,
        claimed(t, before.push(a)) == claimed(t, before) + after(t, before).next(a).claims,
{
    reveal(after);
    reveal(claimed);
    assert(before.push(a).drop_last() =~= before);
}

proof fn lemma_none(t: TrialData)
    ensures
        after(t, Seq::empty()) == t,
        claimed(t, Seq::empty()) == Seq::<report::ClaimData>::empty(),
{
    reveal(after);
    reveal(claimed);
}

/// A trial after the prelude.
pub open spec fn configured(t: TrialData, s: Story) -> TrialData {
    TrialData { stage: Stage::Packet, configured: all_accepted(s), ..t }
}

/// The answers while the encoder is configured.
spec fn opening(s: Story) -> Seq<AnswerData> {
    Seq::empty().push(AnswerData::Ready).push(AnswerData::Configured(s.accepted[0])).push(
        AnswerData::Configured(s.accepted[1]),
    ).push(AnswerData::Configured(s.accepted[2])).push(
        AnswerData::Configured(s.accepted[3]),
    ).push(AnswerData::Configured(s.accepted[4]))
}

proof fn lemma_quiet(t: TrialData, before: Seq<AnswerData>, a: AnswerData)
    requires
        after(t, before).next(a).claims == Seq::<report::ClaimData>::empty(),
        claimed(t, before) == Seq::<report::ClaimData>::empty(),
    ensures
        after(t, before.push(a)) == after(t, before).next(a).state,
        claimed(t, before.push(a)) == Seq::<report::ClaimData>::empty(),
{
    lemma_step(t, before, a);
    assert(claimed(t, before.push(a)) =~= Seq::empty());
}

proof fn lemma_opening(t: TrialData, s: Story)
    requires
        t.stage == Stage::Encoder,
        t.configured,
    ensures
        after(t, opening(s)) == (TrialData {
            stage: Stage::BitrateBack,
            configured: all_accepted(s),
            ..t
        }),
        claimed(t, opening(s)) == seq![t.claim(": encoder configures"@, all_accepted(s))],
{
    let a0 = Seq::<AnswerData>::empty();
    let a1 = a0.push(AnswerData::Ready);
    let a2 = a1.push(AnswerData::Configured(s.accepted[0]));
    let a3 = a2.push(AnswerData::Configured(s.accepted[1]));
    let a4 = a3.push(AnswerData::Configured(s.accepted[2]));
    let a5 = a4.push(AnswerData::Configured(s.accepted[3]));
    lemma_none(t);
    lemma_quiet(t, a0, AnswerData::Ready);
    assert(after(t, a1) == t.at(Stage::Bitrate));
    lemma_quiet(t, a1, AnswerData::Configured(s.accepted[0]));
    lemma_quiet(t, a2, AnswerData::Configured(s.accepted[1]));
    lemma_quiet(t, a3, AnswerData::Configured(s.accepted[2]));
    lemma_quiet(t, a4, AnswerData::Configured(s.accepted[3]));
    lemma_step(t, a5, AnswerData::Configured(s.accepted[4]));
    assert(claimed(t, opening(s)) =~= seq![t.claim(": encoder configures"@, all_accepted(s))]);
}

#[verifier::spinoff_prover]
proof fn lemma_prelude(
    rate: u32,
    channels: Channels,
    application: trial::Application,
    input: Seq<i16>,
    s: Story,
)
    requires
        s.accepted.len() == 5,
    ensures
        ({
            let t = trial::opened(rate, channels, application, input);
            &&& after(t, prelude(s)) == configured(t, s)
            &&& claimed(t, prelude(s)) == settings_claims(t, s)
        }),
{
    let t = trial::opened(rate, channels, application, input);
    lemma_opening(t, s);
    let a6 = opening(s);
    let a7 = a6.push(AnswerData::Bitrate(s.bitrate));
    let a8 = a7.push(AnswerData::Complexity(s.complexity));
    let a9 = a8.push(AnswerData::Rate(s.rate));
    let a10 = a9.push(AnswerData::Ready);
    lemma_step(t, a6, AnswerData::Bitrate(s.bitrate));
    lemma_step(t, a7, AnswerData::Complexity(s.complexity));
    lemma_step(t, a8, AnswerData::Rate(s.rate));
    lemma_step(t, a9, AnswerData::Ready);
    assert(a10 =~= prelude(s));
    assert(claimed(t, a10) =~= settings_claims(t, s));
}

/// Where a trial stands after `k` frames, and what it has claimed.
proof fn lemma_rounds(
    rate: u32,
    channels: Channels,
    application: trial::Application,
    input: Seq<i16>,
    s: Story,
    k: nat,
)
    requires
        s.accepted.len() == 5,
        s.rounds.len() == trial::ROUNDS,
        k < trial::ROUNDS,
    ensures
        ({
            let t = trial::opened(rate, channels, application, input);
            let now = after(t, rounds(s, k));
            &&& now.stage == Stage::Packet
            &&& now.rate == rate
            &&& now.channels == channels
            &&& now.input == input
            &&& now.sizes == sizes(s.rounds.take(k as int))
            &&& now.agreed == agree(t, s.rounds.take(k as int))
            &&& claimed(t, rounds(s, k)) == settings_claims(t, s)
        }),
    decreases k,
{
    let t = trial::opened(rate, channels, application, input);
    if k == 0 {
        lemma_prelude(rate, channels, application, input, s);
        assert(sizes(s.rounds.take(0)) =~= Seq::empty());
    } else {
        let j = (k - 1) as nat;
        lemma_rounds(rate, channels, application, input, s, j);
        lemma_round(rate, channels, application, input, s, j);
        assert(claimed(t, rounds(s, k)) =~= settings_claims(t, s));
    }
}

/// One more frame.
proof fn lemma_round(
    rate: u32,
    channels: Channels,
    application: trial::Application,
    input: Seq<i16>,
    s: Story,
    j: nat,
)
    requires
        s.accepted.len() == 5,
        j < s.rounds.len(),
        ({
            let t = trial::opened(rate, channels, application, input);
            let now = after(t, rounds(s, j));
            &&& now.stage == Stage::Packet
            &&& now.rate == rate
            &&& now.channels == channels
            &&& now.input == input
            &&& now.sizes == sizes(s.rounds.take(j as int))
            &&& now.agreed == agree(t, s.rounds.take(j as int))
        }),
    ensures
        ({
            let t = trial::opened(rate, channels, application, input);
            let before = after(t, rounds(s, j));
            let done = TrialData {
                stage: Stage::Pcm,
                sizes: sizes(s.rounds.take(j as int + 1)),
                agreed: agree(t, s.rounds.take(j as int + 1)),
                packet: s.rounds[j as int].packet,
                decoded: s.rounds[j as int].buffer,
                ..before
            };
            &&& after(t, rounds(s, j + 1)) == done.onward().state
            &&& claimed(t, rounds(s, j + 1)) == claimed(t, rounds(s, j)) + done.onward().claims
        }),
{
    let t = trial::opened(rate, channels, application, input);
    let a = rounds(s, j);
    let r = s.rounds[j as int];
    let b = a.push(AnswerData::Packet(r.packet));
    let c = b.push(AnswerData::Metadata(r.metadata));
    lemma_step(t, a, AnswerData::Packet(r.packet));
    lemma_step(t, b, AnswerData::Metadata(r.metadata));
    assert(claimed(t, c) =~= claimed(t, a));
    lemma_step(t, c, AnswerData::Pcm { buffer: r.buffer, got: r.got });
    let (some, more) = (s.rounds.take(j as int), s.rounds.take(j as int + 1));
    assert(sizes(more) =~= sizes(some).push(r.packet.len() as usize));
    assert(agree(t, more) == (agree(t, some) && t.as_sent(r.metadata) && r.got == t.frame())) by {
        assert(more[j as int] == r);
        if agree(t, more) {
            assert forall|i: int| 0 <= i < some.len() implies t.as_sent((#[trigger] some[i]).metadata)
                && some[i].got == t.frame() by {
                assert(more[i] == some[i]);
            }
        }
        if agree(t, some) && t.as_sent(r.metadata) && r.got == t.frame() {
            assert forall|i: int| 0 <= i < more.len() implies t.as_sent((#[trigger] more[i]).metadata)
                && more[i].got == t.frame() by {
                if i < j {
                    assert(more[i] == some[i]);
                }
            }
        }
    }
}

/// A trial in which the codec never fails makes exactly eight claims, whatever the codec
/// answers: four about the settings and four about the frames. Each is true exactly where the
/// answers bear it out.
pub proof fn law_eight_claims(
    rate: u32,
    channels: Channels,
    application: trial::Application,
    input: Seq<i16>,
    s: Story,
)
    requires
        s.accepted.len() == 5,
        s.rounds.len() == trial::ROUNDS,
    ensures
        ({
            let t = trial::opened(rate, channels, application, input);
            &&& claimed(t, answers(s)) == settings_claims(t, s) + signal_claims(t, s)
            &&& claimed(t, answers(s)).len() == 8
            &&& after(t, answers(s)).stage == Stage::Over
        }),
{
    let t = trial::opened(rate, channels, application, input);
    let n = s.rounds.len();
    let j = (n - 1) as nat;
    lemma_rounds(rate, channels, application, input, s, j);
    lemma_round(rate, channels, application, input, s, j);
    assert(s.rounds.take(j as int + 1) =~= s.rounds);
    assert(sizes(s.rounds).len() == trial::ROUNDS);
    assert(claimed(t, rounds(s, n)) =~= settings_claims(t, s) + signal_claims(t, s).take(2));
    lemma_last_claims(t, s);
}

/// The claims at the end.
proof fn lemma_last_claims(t: TrialData, s: Story)
    requires
        s.rounds.len() > 0,
        ({
            let now = after(t, rounds(s, s.rounds.len()));
            &&& now.stage == Stage::Bandwidth
            &&& now.rate == t.rate
            &&& now.channels == t.channels
            &&& now.input == t.input
            &&& now.decoded == s.rounds.last().buffer
        }),
        claimed(t, rounds(s, s.rounds.len())) == settings_claims(t, s) + signal_claims(t, s).take(
            2,
        ),
    ensures
        claimed(t, answers(s)) == settings_claims(t, s) + signal_claims(t, s),
        after(t, answers(s)).stage == Stage::Over,
{
    let a = rounds(s, s.rounds.len());
    let b = a.push(AnswerData::Bandwidth(s.bandwidth));
    lemma_step(t, a, AnswerData::Bandwidth(s.bandwidth));
    lemma_step(t, b, AnswerData::Ready);
    let all = signal_claims(t, s);
    assert(all =~= all.take(2).push(all[2]).push(all[3]));
    assert(claimed(t, answers(s)) =~= settings_claims(t, s) + all);
}

/// A codec that fails anywhere ends the trial with one more claim, which is false.
pub proof fn law_failure_is_claimed(t: TrialData, e: Seq<char>)
    ensures
        t.next(AnswerData::Failed(e)).state.stage == Stage::Over,
        t.next(AnswerData::Failed(e)).ask == AskData::Done,
        t.next(AnswerData::Failed(e)).claims.len() == 1,
        !t.next(AnswerData::Failed(e)).claims[0].ok,
{
}

/// A trial takes no answer once it is over.
pub proof fn law_over_is_final(t: TrialData, a: AnswerData)
    requires
        t.stage == Stage::Over,
    ensures
        !t.answered(a),
{
}

/// The claims of a trial in one configuration.
pub open spec fn trial_claims(
    c: trial::Configuration,
    input: Seq<i16>,
    s: Story,
) -> Seq<report::ClaimData> {
    claimed(trial::opened(c.rate, c.channels, c.application, input), answers(s))
}

/// The claims of a whole run: the version, every configuration, and combining packets.
pub open spec fn run_claims(
    version: report::ClaimData,
    inputs: Seq<Seq<i16>>,
    stories: Seq<Story>,
    combined: report::Combined,
) -> Seq<report::ClaimData> {
    let cs = trial::all_configurations();
    seq![version] + trial_claims(cs[0], inputs[0], stories[0]) + trial_claims(
        cs[1],
        inputs[1],
        stories[1],
    ) + trial_claims(cs[2], inputs[2], stories[2]) + trial_claims(cs[3], inputs[3], stories[3])
        + report::combined_claims(combined)
}

/// A whole run in which the codec never fails makes 35 claims, whatever the codec answers.
pub proof fn law_claims_of_a_run(
    version: report::ClaimData,
    inputs: Seq<Seq<i16>>,
    stories: Seq<Story>,
    combined: report::Combined,
)
    requires
        inputs.len() == 4,
        stories.len() == 4,
        forall|i: int| 0 <= i < 4 ==> (#[trigger] stories[i]).accepted.len() == 5,
        forall|i: int| 0 <= i < 4 ==> (#[trigger] stories[i]).rounds.len() == trial::ROUNDS,
        combined is Packet,
    ensures
        run_claims(version, inputs, stories, combined).len() == 35,
{
    let cs = trial::all_configurations();
    assert forall|i: int| 0 <= i < 4 implies #[trigger] trial_claims(
        cs[i],
        inputs[i],
        stories[i],
    ).len() == 8 by {
        law_eight_claims(cs[i].rate, cs[i].channels, cs[i].application, inputs[i], stories[i]);
    }
    assert(trial_claims(cs[0], inputs[0], stories[0]).len() == 8);
    assert(trial_claims(cs[1], inputs[1], stories[1]).len() == 8);
    assert(trial_claims(cs[2], inputs[2], stories[2]).len() == 8);
    assert(trial_claims(cs[3], inputs[3], stories[3]).len() == 8);
}

/// What a trial asks after some answers.
pub open spec fn asked(t: TrialData, answers: Seq<AnswerData>) -> AskData {
    after(t, answers.drop_last()).next(answers.last()).ask
}

proof fn lemma_asked(t: TrialData, before: Seq<AnswerData>, a: AnswerData)
    ensures
        asked(t, before.push(a)) == after(t, before).next(a).ask,
{
    assert(before.push(a).drop_last() =~= before);
}

/// A claim is about its configuration, and says so first: the rate in hertz, and stereo or mono.
pub proof fn law_names(t: TrialData, what: Seq<char>, ok: bool)
    ensures
        t.claim(what, ok).ok == ok,
        t.claim(what, ok).what == text::decimal(t.rate as nat) + " Hz "@ + (if t.channels
            == Channels::Stereo {
            "stereo"@
        } else {
            "mono"@
        }) + what,
{
}

/// One channel is mono and two are stereo.
pub proof fn law_channel_counts(t: TrialData)
    ensures
        trial::count(Channels::Mono) == 1,
        trial::count(Channels::Stereo) == 2,
        t.channels == Channels::Mono ==> t.frame() == t.input.len(),
        t.channels == Channels::Stereo ==> 2 * t.frame() <= t.input.len() <= 2 * t.frame() + 1,
{
}

/// The settings that a trial asks for, in order, whether or not those before were accepted:
/// 64 kbit/s, complexity 8, variable bitrate, forward error correction, 10 percent packet loss.
/// Then each is read back, and a decoder is asked for with the rate and channels of the trial.
#[verifier::spinoff_prover]
pub proof fn law_what_a_trial_sets(
    rate: u32,
    channels: Channels,
    application: trial::Application,
    input: Seq<i16>,
    s: Story,
)
    ensures
        ({
            let t = trial::opened(rate, channels, application, input);
            let a = prelude(s);
            &&& asked(t, a.take(1)) == AskData::Configure(trial::Setting::Bitrate(64_000))
            &&& asked(t, a.take(2)) == AskData::Configure(trial::Setting::Complexity(8))
            &&& asked(t, a.take(3)) == AskData::Configure(trial::Setting::Vbr(true))
            &&& asked(t, a.take(4)) == AskData::Configure(trial::Setting::InbandFec(true))
            &&& asked(t, a.take(5)) == AskData::Configure(trial::Setting::PacketLoss(10))
            &&& asked(t, a.take(6)) == AskData::ReadBitrate
            &&& asked(t, a.take(7)) == AskData::ReadComplexity
            &&& asked(t, a.take(8)) == AskData::ReadRate
            &&& asked(t, a.take(9)) == (AskData::CreateDecoder { rate, channels })
        }),
{
    let t = trial::opened(rate, channels, application, input);
    let a = prelude(s);
    lemma_none(t);
    assert(a.take(0) =~= Seq::<AnswerData>::empty());
    assert(a.len() == 10 && a[0] is Ready && a[1] is Configured && a[2] is Configured
        && a[3] is Configured && a[4] is Configured && a[5] is Configured && a[6] is Bitrate
        && a[7] is Complexity && a[8] is Rate);
    lemma_set_in_order(t, a);
}

#[verifier::spinoff_prover]
proof fn lemma_set_in_order(t: TrialData, a: Seq<AnswerData>)
    requires
        a.len() == 10,
        t.stage == Stage::Encoder,
        after(t, a.take(0)) == t,
        a[0] is Ready,
        a[1] is Configured,
        a[2] is Configured,
        a[3] is Configured,
        a[4] is Configured,
        a[5] is Configured,
        a[6] is Bitrate,
        a[7] is Complexity,
        a[8] is Rate,
    ensures
        asked(t, a.take(1)) == AskData::Configure(trial::Setting::Bitrate(64_000)),
        asked(t, a.take(2)) == AskData::Configure(trial::Setting::Complexity(8)),
        asked(t, a.take(3)) == AskData::Configure(trial::Setting::Vbr(true)),
        asked(t, a.take(4)) == AskData::Configure(trial::Setting::InbandFec(true)),
        asked(t, a.take(5)) == AskData::Configure(trial::Setting::PacketLoss(10)),
        asked(t, a.take(6)) == AskData::ReadBitrate,
        asked(t, a.take(7)) == AskData::ReadComplexity,
        asked(t, a.take(8)) == AskData::ReadRate,
        asked(t, a.take(9)) == (AskData::CreateDecoder { rate: t.rate, channels: t.channels }),
{
    lemma_one_setting(t, a, 0);
    lemma_one_setting(t, a, 1);
    lemma_one_setting(t, a, 2);
    lemma_one_setting(t, a, 3);
    lemma_one_setting(t, a, 4);
    lemma_one_setting(t, a, 5);
    lemma_one_setting(t, a, 6);
    lemma_one_setting(t, a, 7);
    lemma_one_setting(t, a, 8);
}

/// Where a trial stands and what it asks after one answer of the prelude.
proof fn lemma_one_setting(t: TrialData, a: Seq<AnswerData>, k: int)
    requires
        0 <= k < a.len(),
        after(t, a.take(k)).rate == t.rate,
        after(t, a.take(k)).channels == t.channels,
    ensures
        ({
            let (from, to) = (after(t, a.take(k)).stage, after(t, a.take(k + 1)).stage);
            let ask = asked(t, a.take(k + 1));
            &&& after(t, a.take(k + 1)).rate == t.rate
            &&& after(t, a.take(k + 1)).channels == t.channels
            &&& a[k] is Ready && from == Stage::Encoder ==> to == Stage::Bitrate && ask
                == AskData::Configure(trial::Setting::Bitrate(64_000))
            &&& a[k] is Configured && from == Stage::Bitrate ==> to == Stage::Complexity && ask
                == AskData::Configure(trial::Setting::Complexity(8))
            &&& a[k] is Configured && from == Stage::Complexity ==> to == Stage::Vbr && ask
                == AskData::Configure(trial::Setting::Vbr(true))
            &&& a[k] is Configured && from == Stage::Vbr ==> to == Stage::InbandFec && ask
                == AskData::Configure(trial::Setting::InbandFec(true))
            &&& a[k] is Configured && from == Stage::InbandFec ==> to == Stage::PacketLoss && ask
                == AskData::Configure(trial::Setting::PacketLoss(10))
            &&& a[k] is Configured && from == Stage::PacketLoss ==> ask == AskData::ReadBitrate
            &&& a[k] is Bitrate ==> ask == AskData::ReadComplexity
            &&& a[k] is Complexity ==> ask == AskData::ReadRate
            &&& a[k] is Rate ==> ask == (AskData::CreateDecoder {
                rate: t.rate,
                channels: t.channels,
            })
        }),
{
    lemma_next_of(t, a, k);
}

/// One more answer.
proof fn lemma_next_of(t: TrialData, a: Seq<AnswerData>, k: int)
    requires
        0 <= k < a.len(),
    ensures
        after(t, a.take(k + 1)) == after(t, a.take(k)).next(a[k]).state,
        asked(t, a.take(k + 1)) == after(t, a.take(k)).next(a[k]).ask,
{
    lemma_step(t, a.take(k), a[k]);
    lemma_asked(t, a.take(k), a[k]);
    assert(a.take(k).push(a[k]) =~= a.take(k + 1));
}

proof fn lemma_stands(
    rate: u32,
    channels: Channels,
    application: trial::Application,
    input: Seq<i16>,
    s: Story,
    k: nat,
)
    requires
        s.accepted.len() == 5,
        s.rounds.len() == 10,
        k < 10,
    ensures
        ({
            let now = after(trial::opened(rate, channels, application, input), rounds(s, k));
            now.stage == Stage::Packet && now.input == input
        }),
{
    lemma_rounds(rate, channels, application, input, s, k);
}

/// What goes through the codec in each of the ten rounds: the encoder is given the very signal
/// that the trial began with, for a packet of up to 4000 bytes, and the packet that comes back is
/// both inspected and decoded.
#[verifier::spinoff_prover]
pub proof fn law_every_round_encodes_the_signal(
    rate: u32,
    channels: Channels,
    application: trial::Application,
    input: Seq<i16>,
    s: Story,
    k: nat,
    p: Seq<u8>,
    m: Metadata,
)
    requires
        s.accepted.len() == 5,
        s.rounds.len() == 10,
        k < 10,
    ensures
        ({
            let t = trial::opened(rate, channels, application, input);
            let a = rounds(s, k);
            let b = a.push(AnswerData::Packet(p));
            &&& asked(t, a) == (AskData::Encode { pcm: input, limit: 4000 })
            &&& asked(t, b) == AskData::Inspect(p)
            &&& asked(t, b.push(AnswerData::Metadata(m))) == AskData::Decode(p)
        }),
{
    let t = trial::opened(rate, channels, application, input);
    let a = rounds(s, k);
    let b = a.push(AnswerData::Packet(p));
    lemma_stands(rate, channels, application, input, s, k);
    lemma_asked(t, a, AnswerData::Packet(p));
    lemma_step(t, a, AnswerData::Packet(p));
    lemma_asked(t, b, AnswerData::Metadata(m));
    lemma_encode_asked(rate, channels, application, input, s, k);
}

proof fn lemma_encode_asked(
    rate: u32,
    channels: Channels,
    application: trial::Application,
    input: Seq<i16>,
    s: Story,
    k: nat,
)
    requires
        s.accepted.len() == 5,
        s.rounds.len() == 10,
        k < 10,
    ensures
        asked(trial::opened(rate, channels, application, input), rounds(s, k)) == (AskData::Encode {
            pcm: input,
            limit: 4000,
        }),
{
    let t = trial::opened(rate, channels, application, input);
    if k == 0 {
        let a = prelude(s);
        let before = a.drop_last();
        lemma_prelude(rate, channels, application, input, s);
        lemma_decoder_next(rate, channels, application, input, s);
    } else {
        let j = (k - 1) as nat;
        let r = s.rounds[j as int];
        let a = rounds(s, j);
        let b = a.push(AnswerData::Packet(r.packet));
        let c = b.push(AnswerData::Metadata(r.metadata));
        lemma_rounds(rate, channels, application, input, s, j);
        lemma_step(t, a, AnswerData::Packet(r.packet));
        lemma_step(t, b, AnswerData::Metadata(r.metadata));
        lemma_asked(t, c, AnswerData::Pcm { buffer: r.buffer, got: r.got });
        assert(after(t, c).sizes.len() == k);
    }
}

proof fn lemma_decoder_next(
    rate: u32,
    channels: Channels,
    application: trial::Application,
    input: Seq<i16>,
    s: Story,
)
    ensures
        asked(trial::opened(rate, channels, application, input), prelude(s)) == (AskData::Encode {
            pcm: input,
            limit: 4000,
        }),
{
    let t = trial::opened(rate, channels, application, input);
    lemma_opening(t, s);
    let a6 = opening(s);
    let a7 = a6.push(AnswerData::Bitrate(s.bitrate));
    let a8 = a7.push(AnswerData::Complexity(s.complexity));
    let a9 = a8.push(AnswerData::Rate(s.rate));
    lemma_step(t, a6, AnswerData::Bitrate(s.bitrate));
    lemma_step(t, a7, AnswerData::Complexity(s.complexity));
    lemma_step(t, a8, AnswerData::Rate(s.rate));
    lemma_asked(t, a9, AnswerData::Ready);
    assert(a9.push(AnswerData::Ready) =~= prelude(s));
}

/// After ten rounds the bandwidth is asked for, and then the user is told of ten packets.
#[verifier::spinoff_prover]
pub proof fn law_ten_rounds(
    rate: u32,
    channels: Channels,
    application: trial::Application,
    input: Seq<i16>,
    s: Story,
)
    requires
        s.accepted.len() == 5,
        s.rounds.len() == 10,
    ensures
        ({
            let t = trial::opened(rate, channels, application, input);
            let a = rounds(s, 10);
            &&& asked(t, a) == AskData::ReadBandwidth
            &&& asked(t, a.push(AnswerData::Bandwidth(s.bandwidth))) == (AskData::Tell {
                packets: 10,
                least: trial::least(sizes(s.rounds)),
                most: trial::most(sizes(s.rounds)),
            })
            &&& asked(t, answers(s)) == AskData::Done
        }),
{
    let t = trial::opened(rate, channels, application, input);
    let r = s.rounds[9];
    let a = rounds(s, 9);
    let b = a.push(AnswerData::Packet(r.packet));
    let c = b.push(AnswerData::Metadata(r.metadata));
    let d = c.push(AnswerData::Pcm { buffer: r.buffer, got: r.got });
    lemma_rounds(rate, channels, application, input, s, 9);
    lemma_step(t, a, AnswerData::Packet(r.packet));
    lemma_step(t, b, AnswerData::Metadata(r.metadata));
    assert(sizes(s.rounds.take(9)).push(r.packet.len() as usize) =~= sizes(s.rounds));
    assert(after(t, c).sizes == sizes(s.rounds));
    lemma_asked(t, c, AnswerData::Pcm { buffer: r.buffer, got: r.got });
    lemma_step(t, c, AnswerData::Pcm { buffer: r.buffer, got: r.got });
    assert(rounds(s, 10) == d);
    lemma_asked(t, d, AnswerData::Bandwidth(s.bandwidth));
    lemma_step(t, d, AnswerData::Bandwidth(s.bandwidth));
    lemma_asked(t, d.push(AnswerData::Bandwidth(s.bandwidth)), AnswerData::Ready);
}

/// The smallest and the largest size are those of some packets, and all sizes lie between them.
pub proof fn law_extremes(sizes: Seq<usize>)
    requires
        sizes.len() > 0,
    ensures
        forall|i: int|
            0 <= i < sizes.len() ==> trial::least(sizes) <= #[trigger] sizes[i] <= trial::most(
                sizes,
            ),
        exists|i: int| 0 <= i < sizes.len() && #[trigger] sizes[i] == trial::least(sizes),
        exists|i: int| 0 <= i < sizes.len() && #[trigger] sizes[i] == trial::most(sizes),
    decreases sizes.len(),
{
    let before = sizes.drop_last();
    assert(sizes[sizes.len() - 1] == sizes.last());
    if before.len() > 0 {
        law_extremes(before);
        let i = choose|i: int| 0 <= i < before.len() && #[trigger] before[i] == trial::least(before);
        let j = choose|j: int| 0 <= j < before.len() && #[trigger] before[j] == trial::most(before);
        assert(sizes[i] == before[i]);
        assert(sizes[j] == before[j]);
        assert forall|k: int| 0 <= k < sizes.len() implies trial::least(sizes) <= #[trigger] sizes[k]
            <= trial::most(sizes) by {
            if k < before.len() {
                assert(before[k] == sizes[k]);
            }
        }
    }
}

/// When each of the eight claims is true: all five settings were accepted; 64 kbit/s, complexity
/// 8 and the rate of the trial were read back; no packet was empty; every packet said that it has
/// one frame, with the samples and channels that went in, and decoded to as many; a bandwidth was
/// reported; and neither the last decoded signal nor the input has four times the energy of the
/// other or more.
#[verifier::spinoff_prover]
pub proof fn law_when_claims_are_true(
    rate: u32,
    channels: Channels,
    application: trial::Application,
    input: Seq<i16>,
    s: Story,
)
    requires
        s.accepted.len() == 5,
        s.rounds.len() == 10,
        forall|i: int| 0 <= i < 10 ==> (#[trigger] s.rounds[i]).packet.len() <= usize::MAX,
    ensures
        ({
            let t = trial::opened(rate, channels, application, input);
            let cs = claimed(t, answers(s));
            let frame = input.len() / (if channels == Channels::Stereo {
                2nat
            } else {
                1nat
            });
            let e = compare::energy(compare::values(s.rounds[9].buffer));
            let f = compare::energy(compare::values(input));
            &&& cs.len() == 8
            &&& cs[0].ok <==> forall|i: int| 0 <= i < 5 ==> #[trigger] s.accepted[i]
            &&& cs[1].ok <==> s.bitrate == Some(Bitrate::Bits(64_000))
            &&& cs[2].ok <==> s.complexity == Some(8i32)
            &&& cs[3].ok <==> s.rate == Some(rate)
            &&& cs[4].ok <==> forall|i: int| 0 <= i < 10 ==> (#[trigger] s.rounds[i]).packet.len() > 0
            &&& cs[5].ok <==> forall|i: int|
                0 <= i < 10 ==> says_as_sent((#[trigger] s.rounds[i]), frame, channels)
            &&& cs[6].ok <==> s.bandwidth
            &&& cs[7].ok <==> e < 4 * f && f < 4 * e
        }),
{
    let t = trial::opened(rate, channels, application, input);
    law_eight_claims(rate, channels, application, input, s);
    let all = settings_claims(t, s) + signal_claims(t, s);
    assert(all[0].ok == all_accepted(s));
    assert(all[4].ok == trial::none_empty(sizes(s.rounds)));
    assert(all[5].ok == agree(t, s.rounds));
    lemma_accepted(s);
    lemma_none_empty(s.rounds);
    lemma_agree(t, s.rounds);
}

/// Whether a packet said what it should and decoded to as much.
pub open spec fn says_as_sent(r: Round, frame: nat, channels: Channels) -> bool {
    &&& r.metadata.samples matches Some(n) && n == frame
    &&& r.metadata.channels matches Some(c) && c == channels
    &&& r.metadata.frames matches Some(n) && n == 1
    &&& r.metadata.expected matches Some(n) && n == frame
    &&& r.got == frame
}

proof fn lemma_accepted(s: Story)
    requires
        s.accepted.len() == 5,
    ensures
        all_accepted(s) <==> forall|i: int| 0 <= i < 5 ==> #[trigger] s.accepted[i],
{
    if all_accepted(s) {
        assert forall|i: int| 0 <= i < 5 implies #[trigger] s.accepted[i] by {
            assert(i == 0 || i == 1 || i == 2 || i == 3 || i == 4);
        }
    }
}

proof fn lemma_none_empty(rs: Seq<Round>)
    requires
        forall|i: int| 0 <= i < rs.len() ==> (#[trigger] rs[i]).packet.len() <= usize::MAX,
    ensures
        trial::none_empty(sizes(rs)) <==> forall|i: int|
            0 <= i < rs.len() ==> (#[trigger] rs[i]).packet.len() > 0,
{
    if trial::none_empty(sizes(rs)) {
        assert forall|i: int| 0 <= i < rs.len() implies (#[trigger] rs[i]).packet.len() > 0 by {
            assert(sizes(rs)[i] > 0);
        }
    }
    if forall|i: int| 0 <= i < rs.len() ==> (#[trigger] rs[i]).packet.len() > 0 {
        assert forall|i: int| 0 <= i < sizes(rs).len() implies #[trigger] sizes(rs)[i] > 0 by {
            assert(rs[i].packet.len() > 0);
        }
    }
}

proof fn lemma_agree(t: TrialData, rs: Seq<Round>)
    ensures
        agree(t, rs) <==> forall|i: int|
            0 <= i < rs.len() ==> says_as_sent(
                #[trigger] rs[i],
                t.input.len() / (if t.channels == Channels::Stereo {
                    2nat
                } else {
                    1nat
                }),
                t.channels,
            ),
{
    let frame = t.input.len() / (if t.channels == Channels::Stereo {
        2nat
    } else {
        1nat
    });
    assert(t.frame() == frame);
    assert forall|r: Round| #[trigger] says_as_sent(r, frame, t.channels) == (t.as_sent(r.metadata)
        && r.got == t.frame()) by {}
    if agree(t, rs) {
        assert forall|i: int| 0 <= i < rs.len() implies says_as_sent(
            #[trigger] rs[i],
            frame,
            t.channels,
        ) by {
            assert(t.as_sent(rs[i].metadata));
        }
    }
    if forall|i: int| 0 <= i < rs.len() ==> says_as_sent(#[trigger] rs[i], frame, t.channels) {
        assert forall|i: int| 0 <= i < rs.len() implies t.as_sent((#[trigger] rs[i]).metadata)
            && rs[i].got == t.frame() by {
            assert(says_as_sent(rs[i], frame, t.channels));
        }
    }
}

/// What a question asks for and what an answer says is what is in them.
pub proof fn law_asks_and_answers_are_taken_as_they_are(
    pcm: Vec<i16>,
    limit: usize,
    packet: Vec<u8>,
    got: usize,
    e: String,
)
    ensures
        (trial::Ask::Encode { pcm, limit })@ == (AskData::Encode { pcm: pcm@, limit }),
        trial::Ask::Inspect(packet)@ == AskData::Inspect(packet@),
        trial::Ask::Decode(packet)@ == AskData::Decode(packet@),
        trial::Answer::Packet(packet)@ == AnswerData::Packet(packet@),
        (trial::Answer::Pcm { buffer: pcm, got })@ == (AnswerData::Pcm {
            buffer: pcm@,
            got: got as nat,
        }),
        trial::Answer::Failed(e)@ == AnswerData::Failed(e@),
{
}

} // verus!
