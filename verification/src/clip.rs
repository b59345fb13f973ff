//! The score of the demo clip: a four-chord progression with plucked envelopes, a bass line and
//! a hi-hat, so that there are transients, tonal content and noise in it rather than a single
//! sine.

use crate::wav;
use crate::wav::Wav;
use vstd::prelude::*;

verus! {

/// The rate of the clip.
pub const RATE: u32 = 48_000;

/// The samples in a beat, at 96 beats per minute.
pub const BEAT: usize = 30_000;

/// The samples in half a beat.
pub const EIGHTH: usize = 15_000;

/// The samples in a bar of four beats.
pub const BAR: usize = 120_000;

/// The bars in the clip.
pub const BARS: usize = 4;

/// The samples in the clip, on one channel: ten seconds.
pub const TOTAL: usize = 480_000;

/// How long a pluck sounds: 1.6 beats.
pub const PLUCK: usize = 48_000;

/// How long a bass note sounds: 1.4 beats.
pub const BASS: usize = 42_000;

/// How long a hi-hat sounds: 60 ms.
pub const HAT: usize = 2_880;

/// What plays a note.
#[derive(Clone, Copy, Debug, PartialEq, Eq, Structural)]
pub enum Voice {
    /// One of the three voices of the chord, from left to right.
    Pluck(usize),
    Bass,
    Hat,
}

/// One note.
#[derive(Clone, Copy, Debug, PartialEq, Eq, Structural)]
pub struct Note {
    pub voice: Voice,
    /// The sample that it starts at.
    pub start: usize,
    /// How many samples it sounds for.
    pub length: usize,
    /// Semitones above A2; for a hi-hat, none.
    pub pitch: i32,
}

/// The chords, as semitones above A2: Am, F, C, G.
pub open spec fn chord(bar: nat) -> Seq<i32> {
    if bar % 4 == 0 {
        seq![0i32, 3i32, 7i32]
    } else if bar % 4 == 1 {
        seq![-4i32, 0i32, 5i32]
    } else if bar % 4 == 2 {
        seq![3i32, 7i32, 12i32]
    } else {
        seq![-2i32, 2i32, 7i32]
    }
}

/// One voice of a chord.
fn chord_tone(bar: usize, voice: usize) -> (pitch: i32)
    requires
        voice < 3,
    ensures
        pitch == chord(bar as nat)[voice as int],
        -12 <= pitch <= 12,
{
    match bar % 4 {
        0 => if voice == 0 {
            0
        } else if voice == 1 {
            3
        } else {
            7
        },
        1 => if voice == 0 {
            -4
        } else if voice == 1 {
            0
        } else {
            5
        },
        2 => if voice == 0 {
            3
        } else if voice == 1 {
            7
        } else {
            12
        },
        _ => if voice == 0 {
            -2
        } else if voice == 1 {
            2
        } else {
            7
        },
    }
}

/// The chord on every beat of a bar, an octave up: one pluck per voice.
pub open spec fn plucks(bar: nat) -> Seq<Note> {
    Seq::new(
        12,
        |i: int|
            Note {
                voice: Voice::Pluck((i % 3) as usize),
                start: (bar * BAR + (i / 3) * BEAT) as usize,
                length: PLUCK,
                pitch: (chord(bar)[i % 3] + 12) as i32,
            },
    )
}

/// The root of the chord on the first and the third beat.
pub open spec fn bass_line(bar: nat) -> Seq<Note> {
    Seq::new(
        2,
        |i: int|
            Note {
                voice: Voice::Bass,
                start: (bar * BAR + 2 * i * BEAT) as usize,
                length: BASS,
                pitch: chord(bar)[0],
            },
    )
}

/// A hi-hat on every eighth.
pub open spec fn hats(bar: nat) -> Seq<Note> {
    Seq::new(
        8,
        |i: int|
            Note {
                voice: Voice::Hat,
                start: (bar * BAR + i * EIGHTH) as usize,
                length: HAT,
                pitch: 0,
            },
    )
}

/// The notes of the first bars, in the order in which they are played.
pub open spec fn score_of(bars: nat) -> Seq<Note>
    decreases bars,
{
    if bars == 0 {
        Seq::empty()
    } else {
        let bar = (bars - 1) as nat;
        score_of(bar) + plucks(bar) + bass_line(bar) + hats(bar)
    }
}

/// The notes of the clip, in the order in which they are played.
pub fn score() -> (notes: Vec<Note>)
    ensures
        notes@ == score_of(BARS as nat),
        notes@.len() == 88,
{
    let mut notes: Vec<Note> = Vec::new();
    let mut bar: usize = 0;
    while bar < BARS
        invariant
            bar <= BARS,
            notes@ == score_of(bar as nat),
        decreases BARS - bar,
    {
        let start: usize = bar * BAR;
        put_plucks(&mut notes, bar, start);
        put_bass(&mut notes, bar, start);
        put_hats(&mut notes, bar, start);
        bar = bar + 1;
    }
    proof {
        lemma_score_len(BARS as nat);
    }
    notes
}

fn put_plucks(notes: &mut Vec<Note>, bar: usize, start: usize)
    requires
        bar < BARS,
        start == bar * BAR,
    ensures
        final(notes)@ == old(notes)@ + plucks(bar as nat),
{
    let ghost front = notes@;
    let mut i: usize = 0;
    assert(notes@ =~= front + plucks(bar as nat).take(0));
    while i < 12
        invariant
            bar < BARS,
            start == bar * BAR,
            i <= 12,
            notes@ == front + plucks(bar as nat).take(i as int),
        decreases 12 - i,
    {
        let voice: usize = i % 3;
        notes.push(
            Note {
                voice: Voice::Pluck(voice),
                start: start + i / 3 * BEAT,
                length: PLUCK,
                pitch: chord_tone(bar, voice) + 12,
            },
        );
        i = i + 1;
        assert(notes@ =~= front + plucks(bar as nat).take(i as int));
    }
    assert(notes@ =~= front + plucks(bar as nat));
}

fn put_bass(notes: &mut Vec<Note>, bar: usize, start: usize)
    requires
        bar < BARS,
        start == bar * BAR,
    ensures
        final(notes)@ == old(notes)@ + bass_line(bar as nat),
{
    let ghost front = notes@;
    let pitch: i32 = chord_tone(bar, 0);
    notes.push(Note { voice: Voice::Bass, start, length: BASS, pitch });
    notes.push(Note { voice: Voice::Bass, start: start + 2 * BEAT, length: BASS, pitch });
    assert(notes@ =~= front + bass_line(bar as nat));
}

fn put_hats(notes: &mut Vec<Note>, bar: usize, start: usize)
    requires
        bar < BARS,
        start == bar * BAR,
    ensures
        final(notes)@ == old(notes)@ + hats(bar as nat),
{
    let ghost front = notes@;
    let mut i: usize = 0;
    assert(notes@ =~= front + hats(bar as nat).take(0));
    while i < 8
        invariant
            bar < BARS,
            start == bar * BAR,
            i <= 8,
            notes@ == front + hats(bar as nat).take(i as int),
        decreases 8 - i,
    {
        notes.push(
            Note { voice: Voice::Hat, start: start + i * EIGHTH, length: HAT, pitch: 0 },
        );
        i = i + 1;
        assert(notes@ =~= front + hats(bar as nat).take(i as int));
    }
    assert(notes@ =~= front + hats(bar as nat));
}

impl Note {
    /// How many samples of the note fall inside the clip.
    pub open spec fn heard(self) -> int {
        if self.start >= TOTAL {
            0
        } else if self.length < TOTAL - self.start {
            self.length as int
        } else {
            TOTAL - self.start
        }
    }

    /// How many samples of the note fall inside the clip.
    pub fn sounding(&self) -> (n: usize)
        ensures
            n == self.heard(),
    {
        if self.start >= TOTAL {
            0
        } else if self.length < TOTAL - self.start {
            self.length
        } else {
            TOTAL - self.start
        }
    }
}

/// Every note begins inside the clip, and what sounds of it stays inside; a hi-hat is never cut
/// short.
pub proof fn law_notes_are_inside(bars: nat, i: int)
    requires
        bars <= BARS,
        0 <= i < score_of(bars).len(),
    ensures
        score_of(bars)[i].start < TOTAL,
        score_of(bars)[i].start + score_of(bars)[i].heard() <= TOTAL,
        score_of(bars)[i].voice == Voice::Hat ==> score_of(bars)[i].heard() == HAT,
        score_of(bars).len() == 22 * bars,
    decreases bars,
{
    let bar = (bars - 1) as nat;
    lemma_score_len(bar);
    let before = score_of(bar);
    if i < before.len() {
        law_notes_are_inside(bar, i);
    } else {
        let k = i - before.len();
        if k < 12 {
            assert(score_of(bars)[i] == plucks(bar)[k]);
        } else if k < 14 {
            assert(score_of(bars)[i] == bass_line(bar)[k - 12]);
        } else {
            assert(score_of(bars)[i] == hats(bar)[k - 14]);
        }
    }
}

proof fn lemma_score_len(bars: nat)
    ensures
        score_of(bars).len() == 22 * bars,
    decreases bars,
{
    if bars > 0 {
        lemma_score_len((bars - 1) as nat);
    }
}

/// Two channels, interleaved.
pub open spec fn interleaved(left: Seq<i16>, right: Seq<i16>) -> Seq<i16> {
    Seq::new(
        2 * left.len(),
        |i: int|
            if i % 2 == 0 {
                left[i / 2]
            } else {
                right[i / 2]
            },
    )
}

/// The clip, from its two channels.
pub fn demo_clip(left: &[i16], right: &[i16]) -> (clip: Wav)
    requires
        left@.len() == right@.len(),
        2 * left@.len() <= usize::MAX,
    ensures
        clip@ == (wav::WavData {
            rate: RATE,
            channels: 2,
            samples: interleaved(left@, right@),
        }),
        clip.rate == 48_000,
{
    let n: usize = left.len();
    let mut samples: Vec<i16> = Vec::with_capacity(2 * n);
    let mut i: usize = 0;
    while i < n
        invariant
            n == left@.len(),
            n == right@.len(),
            i <= n,
            samples@ == interleaved(left@, right@).take(2 * i),
        decreases n - i,
    {
        samples.push(left[i]);
        samples.push(right[i]);
        i = i + 1;
        assert(samples@ =~= interleaved(left@, right@).take(2 * i));
    }
    assert(samples@ =~= interleaved(left@, right@));
    Wav { rate: RATE, channels: 2, samples }
}

/// Each channel of the clip can be taken out again: instant `t` is sample `t` of both.
pub proof fn law_channels_stay_apart(left: Seq<i16>, right: Seq<i16>, t: int)
    requires
        left.len() == right.len(),
        0 <= t < left.len(),
    ensures
        interleaved(left, right).len() / 2 == left.len(),
        interleaved(left, right)[2 * t] == left[t],
        interleaved(left, right)[2 * t + 1] == right[t],
{
}

/// What sounds of a note is what falls inside the ten seconds of the clip: all of it, or all up
/// to the end.
pub proof fn law_heard(n: Note)
    ensures
        0 <= n.heard() <= n.length,
        n.heard() == 0 || n.start + n.heard() <= 480_000,
        n.heard() < n.length ==> n.start + n.heard() >= 480_000,
{
}

/// The clip has both channels in full, the left one first.
pub proof fn law_both_channels(left: Seq<i16>, right: Seq<i16>)
    requires
        left.len() == right.len(),
    ensures
        interleaved(left, right).len() == left.len() + right.len(),
        forall|t: int|
            0 <= t < left.len() ==> interleaved(left, right)[2 * t] == #[trigger] left[t]
                && interleaved(left, right)[2 * t + 1] == right[t],
{
}

/// What is played in each bar, in numbers. A bar lasts 2.5 seconds. Every beat has the three
/// voices of the chord, an octave up and a second long; the first and the third have its root in
/// the bass, and every eighth has a hi-hat. The chords are A minor, F, C and G in turn, by their
/// distance from A2.
pub proof fn law_bar_of_the_score(bars: nat, bar: nat, k: int)
    requires
        bar < bars <= 4,
        0 <= k < 22,
    ensures
        22 * bar + k < score_of(bars).len(),
        ({
            let n = score_of(bars)[22 * bar + k];
            let root = if bar == 0 {
                0int
            } else if bar == 1 {
                -4
            } else if bar == 2 {
                3
            } else {
                -2
            };
            let third = if bar == 0 {
                3int
            } else {
                4
            };
            if k < 12 {
                &&& n.voice == Voice::Pluck((k % 3) as usize)
                &&& n.start == 120_000 * bar + 30_000 * (k / 3)
                &&& n.length == 48_000
                &&& k % 3 == 0 ==> n.pitch == 12 + root
                &&& k % 3 == 1 ==> n.pitch == 12 + root + third
                &&& k % 3 == 2 ==> n.pitch == 12 + root + (if bar == 0 {
                    7int
                } else {
                    9
                })
            } else if k < 14 {
                &&& n.voice == Voice::Bass
                &&& n.start == 120_000 * bar + 60_000 * (k - 12)
                &&& n.length == 42_000
                &&& n.pitch == root
            } else {
                &&& n.voice == Voice::Hat
                &&& n.start == 120_000 * bar + 15_000 * (k - 14)
                &&& n.length == 2_880
                &&& n.pitch == 0
            }
        }),
    decreases bars,
{
    let last = (bars - 1) as nat;
    lemma_score_len(bars);
    lemma_score_len(last);
    let i = 22 * bar + k;
    if bar < last {
        law_bar_of_the_score(last, bar, k);
        assert(score_of(bars)[i] == score_of(last)[i]);
    } else if k < 12 {
        assert(score_of(bars)[i] == plucks(bar)[k]);
    } else if k < 14 {
        assert(score_of(bars)[i] == bass_line(bar)[k - 12]);
    } else {
        assert(score_of(bars)[i] == hats(bar)[k - 14]);
    }
}

} // verus!
