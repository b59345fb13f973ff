//! Test signals: what of them is a matter of counting.

use crate::trip;
use vstd::prelude::*;

verus! {

/// A deterministic generator, so the noise is the same noise on every machine.
pub struct Rng {
    pub state: u64,
}

/// The state that follows a state.
pub open spec fn advanced(state: u64) -> u64 {
    ((state * 6364136223846793005 + 1442695040888963407) % 0x1_0000_0000_0000_0000) as u64
}

impl Rng {
    /// The next number of 53 bits.
    pub fn next(&mut self) -> (x: u64)
        ensures
            final(self).state == advanced(old(self).state),
            x == final(self).state / 2048,
    {
        let product: u64 = self.state.wrapping_mul(6364136223846793005);
        self.state = product.wrapping_add(1442695040888963407);
        proof {
            lemma_advanced(old(self).state, product, self.state);
        }
        self.state / 2048
    }
}

proof fn lemma_advanced(state: u64, product: u64, sum: u64)
    requires
        product == (state * 6364136223846793005) % 0x1_0000_0000_0000_0000,
        sum == (product + 1442695040888963407) % 0x1_0000_0000_0000_0000,
    ensures
        sum == advanced(state),
{
    vstd::arithmetic::div_mod::lemma_add_mod_noop(
        state * 6364136223846793005,
        1442695040888963407,
        0x1_0000_0000_0000_0000,
    );
    vstd::arithmetic::div_mod::lemma_add_mod_noop(
        product as int,
        1442695040888963407,
        0x1_0000_0000_0000_0000,
    );
}

/// Every number that is drawn has at most 53 bits, so that none is rounded when it is turned
/// into a fraction.
pub proof fn law_draws_fit(state: u64)
    ensures
        advanced(state) / 2048 < 0x20_0000_0000_0000,
{
}

/// No two states are followed by the same one: the generator never runs two sequences
/// together.
pub proof fn law_states_stay_apart(a: u64, b: u64)
    requires
        advanced(a) == advanced(b),
    ensures
        a == b,
{
    lemma_undone(a);
    lemma_undone(b);
}

/// The state that a state follows. The multiplier is odd, so a multiplication by its inverse
/// undoes it.
pub open spec fn undone(next: u64) -> int {
    ((next - 1442695040888963407) * 13877824140714322085) % 0x1_0000_0000_0000_0000
}

proof fn lemma_undone(state: u64)
    ensures
        undone(advanced(state)) == state,
{
    let m = 0x1_0000_0000_0000_0000int;
    let a = 6364136223846793005int;
    let c = 1442695040888963407int;
    let inverse = 13877824140714322085int;
    let s = state as int;
    let next = advanced(state) as int;
    let q = (s * a + c) / m;
    assert(s * a + c == m * q + next);
    let w = a * inverse / m;
    assert(a * inverse == m * w + 1);
    assert((next - c) * inverse == m * (s * w - q * inverse) + s) by (nonlinear_arith)
        requires
            s * a + c == m * q + next,
            a * inverse == m * w + 1,
    ;
    vstd::arithmetic::div_mod::lemma_mod_multiples_vanish(s * w - q * inverse, s, m);
    vstd::arithmetic::div_mod::lemma_small_mod(s as nat, m as nat);
}

/// How many samples lie between two pulses of a voice at 120 Hz; at least one.
pub open spec fn pulse_period(rate: u32) -> nat {
    if rate < 120 {
        1
    } else {
        (rate / 120) as nat
    }
}

/// Whether a pulse of the voice falls on a sample.
pub fn pulse(i: usize, rate: u32) -> (yes: bool)
    ensures
        yes == (i as nat % pulse_period(rate) == 0),
{
    let period: usize = if rate < 120 {
        1
    } else {
        (rate / 120) as usize
    };
    i % period == 0
}

/// One wave on several channels, interleaved.
pub open spec fn spread(wave: Seq<i16>, channels: nat) -> Seq<i16> {
    Seq::new(wave.len() * channels, |i: int| wave[(i as nat / channels) as int])
}

/// A frame of 20 ms at `rate` that holds the same wave on every channel, interleaved: the shape
/// that a codec wants.
pub fn tone(rate: u32, wave: &[i16], channels: usize) -> (pcm: Vec<i16>)
    requires
        wave@.len() == trip::frame_size(rate),
        wave@.len() * channels <= usize::MAX,
    ensures
        pcm@ == spread(wave@, channels as nat),
        pcm@.len() == trip::frame_size(rate) * channels,
{
    let n: usize = wave.len() * channels;
    let mut pcm: Vec<i16> = Vec::with_capacity(n);
    let mut i: usize = 0;
    while i < n
        invariant
            n == wave@.len() * channels,
            i <= n,
            pcm@ == spread(wave@, channels as nat).take(i as int),
        decreases n - i,
    {
        proof {
            let (c, k) = (channels as int, wave@.len() as int);
            assert(c > 0) by (nonlinear_arith)
                requires
                    0 <= i < k * c,
                    c >= 0,
            ;
            lemma_instant(i as nat, k as nat, c as nat);
        }
        pcm.push(wave[i / channels]);
        i = i + 1;
        assert(pcm@ =~= spread(wave@, channels as nat).take(i as int));
    }
    assert(pcm@ =~= spread(wave@, channels as nat));
    pcm
}

proof fn lemma_instant(i: nat, len: nat, channels: nat)
    requires
        channels > 0,
        i < len * channels,
    ensures
        i / channels < len,
{
    vstd::arithmetic::div_mod::lemma_fundamental_div_mod(i as int, channels as int);
    assert(i / channels < len) by (nonlinear_arith)
        requires
            i < len * channels,
            channels > 0,
            channels * (i / channels) <= i,
    ;
}

/// A frame at `rate` has 20 ms of samples for each channel, and all channels are alike: instant
/// `t` on channel `c` is sample `t` of the wave, which is what a single channel holds there.
pub proof fn law_tone_is_on_every_channel(
    rate: u32,
    wave: Seq<i16>,
    channels: nat,
    t: nat,
    c: nat,
)
    requires
        wave.len() == trip::frame_size(rate),
        t < wave.len(),
        c < channels,
    ensures
        spread(wave, channels).len() == (rate / 1000) as nat * 20 * channels,
        t * channels + c < spread(wave, channels).len(),
        spread(wave, channels)[(t * channels + c) as int] == wave[t as int],
        spread(wave, channels)[(t * channels + c) as int] == spread(wave, 1)[t as int],
{
    vstd::arithmetic::div_mod::lemma_fundamental_div_mod_converse(
        (t * channels + c) as int,
        channels as int,
        t as int,
        c as int,
    );
    assert(t * channels + channels <= wave.len() * channels) by (nonlinear_arith)
        requires
            t < wave.len(),
    ;
    assert(t / 1 == t);
}

/// A frame is no louder than its wave, and starts where the wave does.
pub proof fn law_tone_keeps_the_bound(wave: Seq<i16>, channels: nat, limit: int, i: nat)
    requires
        forall|k: int| 0 <= k < wave.len() ==> -limit <= #[trigger] wave[k] <= limit,
        i < spread(wave, channels).len(),
    ensures
        -limit <= spread(wave, channels)[i as int] <= limit,
        spread(wave, channels)[0] == wave[0],
{
    assert(channels > 0) by (nonlinear_arith)
        requires
            i < wave.len() * channels,
    ;
    lemma_instant(i, wave.len(), channels);
    assert(0nat / channels == 0) by (nonlinear_arith)
        requires
            channels > 0,
    ;
}

/// The amplitude of the test tone.
pub const AMPLITUDE: i16 = 8000;

/// Whether a wave swings as a sine of the test tone's amplitude does: it starts at zero and
/// stays within the amplitude.
pub open spec fn swings(wave: Seq<i16>) -> bool {
    &&& wave.len() > 0 ==> wave[0] == 0
    &&& forall|k: int| 0 <= k < wave.len() ==> -AMPLITUDE <= #[trigger] wave[k] <= AMPLITUDE
}

/// The test tone, given its wave: a frame of 20 ms at `rate`, all channels alike, no sample
/// beyond the amplitude, and silent at the first instant.
pub proof fn law_tone(rate: u32, wave: Seq<i16>, channels: nat)
    requires
        rate >= 1000,
        channels >= 1,
        wave.len() == trip::frame_size(rate),
        swings(wave),
    ensures
        spread(wave, channels).len() == (rate / 1000) as nat * 20 * channels,
        forall|k: int, j: int|
            0 <= k < spread(wave, 1).len() && 0 <= j < channels
                ==> #[trigger] spread(wave, channels)[k * channels + j] == spread(wave, 1)[k],
        forall|i: int|
            0 <= i < spread(wave, channels).len() ==> -AMPLITUDE <= #[trigger] spread(
                wave,
                channels,
            )[i] <= AMPLITUDE,
        AMPLITUDE == 8_000,
        spread(wave, 1)[0] == 0,
{
    assert(spread(wave, 1).len() == wave.len());
    assert(spread(wave, channels).len() == (rate / 1000) as nat * 20 * channels);
    assert forall|k: int, j: int|
        0 <= k < spread(wave, 1).len() && 0 <= j < channels implies #[trigger] spread(
        wave,
        channels,
    )[k * channels + j] == spread(wave, 1)[k] by {
        law_tone_is_on_every_channel(rate, wave, channels, k as nat, j as nat);
    }
    assert forall|i: int| 0 <= i < spread(wave, channels).len() implies -AMPLITUDE
        <= #[trigger] spread(wave, channels)[i] <= AMPLITUDE by {
        law_tone_keeps_the_bound(wave, channels, AMPLITUDE as int, i as nat);
    }
}

/// The generator is linear: the next state is the state times the multiplier plus the
/// increment, modulo 2^64.
pub proof fn law_generator(state: u64)
    ensures
        (advanced(state) - (state * 6364136223846793005 + 1442695040888963407))
            % 0x1_0000_0000_0000_0000 == 0,
{
    let x = state * 6364136223846793005 + 1442695040888963407;
    let m = 0x1_0000_0000_0000_0000int;
    vstd::arithmetic::div_mod::lemma_fundamental_div_mod(x, m);
    vstd::arithmetic::div_mod::lemma_mod_multiples_basic(-(x / m), m);
    assert(x % m - x == -(x / m) * m);
}

/// Pulses come as often as fits 120 times into a second, and never less than one sample apart.
pub proof fn law_pulse_period(rate: u32)
    ensures
        pulse_period(rate) >= 1,
        rate >= 120 ==> 120 * pulse_period(rate) <= rate < 120 * (pulse_period(rate) + 1),
        rate < 120 ==> pulse_period(rate) == 1,
{
}

} // verus!
