//! How far what came back is from what went in.
//!
//! Samples are integers, so sums of squares are exact here. Ratios and logarithms are left to
//! whoever prints them.

use vstd::prelude::*;

verus! {

/// The sum of the squares of some values.
pub open spec fn energy(xs: Seq<int>) -> nat
    decreases xs.len(),
{
    if xs.len() == 0 {
        0
    } else {
        energy(xs.drop_last()) + square(xs.last())
    }
}

pub open spec fn square(x: int) -> nat {
    (x * x) as nat
}

/// How many samples two signals can be compared on.
pub open spec fn common(a: Seq<i16>, b: Seq<i16>) -> nat {
    if a.len() < b.len() {
        a.len()
    } else {
        b.len()
    }
}

/// Samples as values.
pub open spec fn values(pcm: Seq<i16>) -> Seq<int> {
    Seq::new(pcm.len(), |i: int| pcm[i] as int)
}

/// What is missing from the second signal, sample by sample.
pub open spec fn lost(a: Seq<i16>, b: Seq<i16>) -> Seq<int> {
    Seq::new(common(a, b), |i: int| a[i] - b[i])
}

proof fn lemma_energy_push(xs: Seq<int>, k: int)
    requires
        0 <= k < xs.len(),
    ensures
        energy(xs.take(k + 1)) == energy(xs.take(k)) + square(xs[k]),
{
    assert(xs.take(k + 1).drop_last() =~= xs.take(k));
}

proof fn lemma_square(x: int, limit: int)
    requires
        -limit <= x <= limit,
    ensures
        0 <= x * x <= limit * limit,
        square(x) == x * x,
{
    assert(0 <= x * x <= limit * limit) by (nonlinear_arith)
        requires
            -limit <= x <= limit,
    ;
}

/// The energy of a signal.
pub fn power(pcm: &[i16]) -> (e: u128)
    ensures
        e == energy(values(pcm@)),
{
    let n: usize = pcm.len();
    let mut e: u128 = 0;
    let mut i: usize = 0;
    assert(values(pcm@).take(0) =~= Seq::empty());
    while i < n
        invariant
            n == pcm@.len(),
            i <= n,
            e == energy(values(pcm@).take(i as int)),
            e <= i * 0x4000_0000,
        decreases n - i,
    {
        let x: i64 = pcm[i] as i64;
        proof {
            lemma_energy_push(values(pcm@), i as int);
            lemma_square(x as int, 0x8000);
        }
        e = e + (x * x) as u128;
        i = i + 1;
    }
    assert(values(pcm@).take(n as int) =~= values(pcm@));
    e
}

/// How loud a signal is, and how loud the error of its copy.
#[derive(Clone, Copy, Debug, PartialEq, Eq, Structural)]
pub struct Levels {
    pub signal: u128,
    pub noise: u128,
}

/// The energy of a signal and of the error of its copy, over the samples that both have.
pub fn levels(reference: &[i16], decoded: &[i16]) -> (l: Levels)
    ensures
        l.signal == energy(
            values(reference@.take(common(reference@, decoded@) as int)),
        ),
        l.noise == energy(lost(reference@, decoded@)),
{
    let n: usize = if reference.len() < decoded.len() {
        reference.len()
    } else {
        decoded.len()
    };
    let ghost part = values(reference@.take(n as int));
    let ghost error = lost(reference@, decoded@);
    let mut signal: u128 = 0;
    let mut noise: u128 = 0;
    let mut i: usize = 0;
    assert(part.take(0) =~= Seq::empty());
    assert(error.take(0) =~= Seq::empty());
    while i < n
        invariant
            n == common(reference@, decoded@),
            n <= reference@.len(),
            n <= decoded@.len(),
            i <= n,
            part == values(reference@.take(n as int)),
            error == lost(reference@, decoded@),
            signal == energy(part.take(i as int)),
            noise == energy(error.take(i as int)),
            signal <= i * 0x4000_0000,
            noise <= i * 0x1_0000_0000,
        decreases n - i,
    {
        let r: i64 = reference[i] as i64;
        let d: i64 = r - decoded[i] as i64;
        proof {
            lemma_energy_push(part, i as int);
            lemma_energy_push(error, i as int);
            lemma_square(r as int, 0x8000);
            lemma_square(d as int, 0x1_0000);
        }
        signal = signal + (r * r) as u128;
        noise = noise + (d * d) as u128;
        i = i + 1;
    }
    assert(part.take(n as int) =~= part);
    assert(error.take(n as int) =~= error);
    Levels { signal, noise }
}

/// What is missing from the second signal, sample by sample.
pub fn discarded(a: &[i16], b: &[i16]) -> (d: Vec<i32>)
    ensures
        d@.len() == common(a@, b@),
        forall|i: int| 0 <= i < d@.len() ==> #[trigger] d@[i] == lost(a@, b@)[i],
        forall|i: int| 0 <= i < d@.len() ==> #[trigger] d@[i] == a@[i] - b@[i],
{
    let n: usize = if a.len() < b.len() {
        a.len()
    } else {
        b.len()
    };
    let mut d: Vec<i32> = Vec::with_capacity(n);
    let mut i: usize = 0;
    while i < n
        invariant
            n == common(a@, b@),
            n <= a@.len(),
            n <= b@.len(),
            i <= n,
            d@.len() == i,
            forall|k: int| 0 <= k < i ==> #[trigger] d@[k] == lost(a@, b@)[k],
        decreases n - i,
    {
        d.push(a[i] as i32 - b[i] as i32);
        i = i + 1;
    }
    d
}

pub open spec fn size(x: int) -> int {
    if x < 0 {
        -x
    } else {
        x
    }
}

/// The size of the largest of some values, either way; at least one.
pub open spec fn loudest(xs: Seq<i32>) -> int
    decreases xs.len(),
{
    if xs.len() == 0 {
        1
    } else if size(xs.last() as int) > loudest(xs.drop_last()) {
        size(xs.last() as int)
    } else {
        loudest(xs.drop_last())
    }
}

/// The size of the largest of some values, either way; at least one, so that it can be divided
/// by.
pub fn peak(xs: &[i32]) -> (p: u32)
    ensures
        p == loudest(xs@),
{
    let n: usize = xs.len();
    let mut p: u32 = 1;
    let mut i: usize = 0;
    assert(xs@.take(0) =~= Seq::empty());
    while i < n
        invariant
            n == xs@.len(),
            i <= n,
            p == loudest(xs@.take(i as int)),
        decreases n - i,
    {
        assert(xs@.take(i + 1).drop_last() =~= xs@.take(i as int));
        let x: i64 = xs[i] as i64;
        let s: u32 = if x < 0 {
            (-x) as u32
        } else {
            x as u32
        };
        if s > p {
            p = s;
        }
        i = i + 1;
    }
    assert(xs@.take(n as int) =~= xs@);
    p
}

/// No value is larger than the peak, and unless it is one, some value is as large.
pub proof fn law_peak(xs: Seq<i32>)
    ensures
        forall|i: int| 0 <= i < xs.len() ==> size(#[trigger] xs[i] as int) <= loudest(xs),
        loudest(xs) >= 1,
        loudest(xs) > 1 ==> exists|i: int|
            0 <= i < xs.len() && size(#[trigger] xs[i] as int) == loudest(xs),
    decreases xs.len(),
{
    if xs.len() > 0 {
        let before = xs.drop_last();
        law_peak(before);
        assert forall|i: int| 0 <= i < xs.len() implies size(#[trigger] xs[i] as int) <= loudest(
            xs,
        ) by {
            if i < before.len() {
                assert(before[i] == xs[i]);
            }
        }
        if loudest(xs) > 1 {
            if loudest(xs) == loudest(before) {
                let k = choose|i: int|
                    0 <= i < before.len() && size(#[trigger] before[i] as int) == loudest(before);
                assert(xs[k] == before[k]);
            } else {
                assert(xs[xs.len() - 1] == xs.last());
            }
        }
    }
}

proof fn lemma_energy_zero(xs: Seq<int>)
    ensures
        energy(xs) == 0 <==> forall|i: int| 0 <= i < xs.len() ==> #[trigger] xs[i] == 0,
    decreases xs.len(),
{
    if xs.len() > 0 {
        let before = xs.drop_last();
        let x = xs.last();
        lemma_energy_zero(before);
        assert(x * x >= 0) by (nonlinear_arith);
        assert(x != 0 ==> x * x > 0) by (nonlinear_arith);
        assert(xs[xs.len() - 1] == x);
        if energy(xs) == 0 {
            assert forall|i: int| 0 <= i < xs.len() implies #[trigger] xs[i] == 0 by {
                if i < before.len() {
                    assert(before[i] == xs[i]);
                }
            }
        }
        if forall|i: int| 0 <= i < xs.len() ==> #[trigger] xs[i] == 0 {
            assert forall|i: int| 0 <= i < before.len() implies #[trigger] before[i] == 0 by {
                assert(before[i] == xs[i]);
            }
        }
    }
}

/// There is no noise exactly where the signals agree on all samples that both have. That is
/// the case in which a ratio of the two has no bound.
pub proof fn law_no_noise(a: Seq<i16>, b: Seq<i16>)
    ensures
        energy(lost(a, b)) == 0 <==> a.take(common(a, b) as int) == b.take(common(a, b) as int),
{
    let n = common(a, b) as int;
    lemma_energy_zero(lost(a, b));
    if energy(lost(a, b)) == 0 {
        assert forall|i: int| 0 <= i < n implies a.take(n)[i] == b.take(n)[i] by {
            assert(lost(a, b)[i] == 0);
        }
        assert(a.take(n) =~= b.take(n));
    }
    if a.take(n) == b.take(n) {
        assert forall|i: int| 0 <= i < lost(a, b).len() implies #[trigger] lost(a, b)[i] == 0 by {
            assert(a.take(n)[i] == b.take(n)[i]);
        }
    }
}

/// Whether one of two energies is more than a quarter and less than four times the other. For
/// two signals of one length that is an RMS between half and double.
pub open spec fn alike(e: nat, reference: nat) -> bool {
    4 * e > reference && e < 4 * reference
}

/// Whether a decoded signal still resembles what went in. This is the one question that a
/// broken codec fails and a merely mislabelled one passes.
pub fn survives(decoded: &[i16], input: &[i16]) -> (yes: bool)
    ensures
        yes == alike(energy(values(decoded@)), energy(values(input@))),
{
    let d: u128 = power(decoded);
    let i: u128 = power(input);
    proof {
        lemma_energy_bound(values(decoded@));
        lemma_energy_bound(values(input@));
        assert(decoded.len() <= u64::MAX && input.len() <= u64::MAX);
        assert(decoded@.len() * 0x4000_0000 <= u64::MAX * 0x4000_0000);
        assert(input@.len() * 0x4000_0000 <= u64::MAX * 0x4000_0000);
    }
    4 * d > i && d < 4 * i
}

proof fn lemma_energy_bound(xs: Seq<int>)
    requires
        forall|i: int| 0 <= i < xs.len() ==> -0x8000 <= #[trigger] xs[i] <= 0x8000,
    ensures
        energy(xs) <= xs.len() * 0x4000_0000,
    decreases xs.len(),
{
    if xs.len() > 0 {
        let before = xs.drop_last();
        assert forall|i: int| 0 <= i < before.len() implies -0x8000 <= #[trigger] before[i]
            <= 0x8000 by {
            assert(before[i] == xs[i]);
        }
        lemma_energy_bound(before);
        assert(xs[xs.len() - 1] == xs.last());
        lemma_square(xs.last(), 0x8000);
    }
}

/// Every sample counts, with its square and whatever its sign, and nothing else does: of a
/// signal that is continued by a sample, the energy grows by the square of that sample, and
/// without samples there is none.
pub proof fn law_energy_of_every_sample(pcm: Seq<i16>, x: i16)
    ensures
        energy(values(Seq::empty())) == 0,
        energy(values(pcm.push(x))) == energy(values(pcm)) + x * x,
{
    let v = values(pcm.push(x));
    assert(values(Seq::<i16>::empty()) =~= Seq::empty());
    assert(v.drop_last() =~= values(pcm));
    lemma_square(x as int, 0x8000);
}

/// The energy of two signals one after the other is the sum of both.
pub proof fn law_energy_adds_up(a: Seq<i16>, b: Seq<i16>)
    ensures
        energy(values(a + b)) == energy(values(a)) + energy(values(b)),
    decreases b.len(),
{
    if b.len() == 0 {
        assert(a + b =~= a);
        assert(values(b) =~= Seq::empty());
    } else {
        let c = b.drop_last();
        law_energy_adds_up(a, c);
        law_energy_of_every_sample(a + c, b.last());
        law_energy_of_every_sample(c, b.last());
        assert((a + c).push(b.last()) =~= a + b);
        assert(c.push(b.last()) =~= b);
    }
}

/// The error is the difference at every sample that both signals have, and its energy grows
/// with every further one by the square of that difference.
pub proof fn law_error_of_every_sample(a: Seq<i16>, b: Seq<i16>, x: i16, y: i16, i: int)
    requires
        a.len() == b.len(),
        0 <= i < a.len(),
    ensures
        lost(a, b).len() == a.len(),
        lost(a, b)[i] == a[i] - b[i],
        energy(lost(a.push(x), b.push(y))) == energy(lost(a, b)) + (x - y) * (x - y),
{
    let e = lost(a.push(x), b.push(y));
    assert(e.drop_last() =~= lost(a, b));
    lemma_square(x - y, 0x1_0000);
}

/// Samples that only one of two signals has do not count.
pub proof fn law_only_shared_samples_count(a: Seq<i16>, b: Seq<i16>, rest: Seq<i16>)
    requires
        a.len() == b.len(),
    ensures
        common(a + rest, b) == a.len(),
        common(a, b + rest) == a.len(),
        lost(a + rest, b) == lost(a, b),
        lost(a, b + rest) == lost(a, b),
{
    assert(lost(a + rest, b) =~= lost(a, b));
    assert(lost(a, b + rest) =~= lost(a, b));
}

/// The peak is not exceeded on either side of zero, is reached unless it is one, and is at least
/// one.
pub proof fn law_peak_is_reached(xs: Seq<i32>)
    ensures
        loudest(xs) >= 1,
        forall|i: int| 0 <= i < xs.len() ==> -loudest(xs) <= #[trigger] xs[i] <= loudest(xs),
        loudest(xs) == 1 || exists|i: int|
            0 <= i < xs.len() && (#[trigger] xs[i] == loudest(xs) || xs[i] == -loudest(xs)),
{
    law_peak(xs);
    assert forall|i: int| 0 <= i < xs.len() implies -loudest(xs) <= #[trigger] xs[i] <= loudest(
        xs,
    ) by {
        assert(size(xs[i] as int) <= loudest(xs));
    }
    if loudest(xs) > 1 {
        let k = choose|i: int|
            0 <= i < xs.len() && size(#[trigger] xs[i] as int) == loudest(xs);
        assert(xs[k] == loudest(xs) || xs[k] == -loudest(xs));
    }
}

/// Two energies are alike exactly where neither is four times the other or more, whichever of
/// them comes first.
pub proof fn law_alike(e: nat, f: nat)
    ensures
        alike(e, f) <==> e < 4 * f && f < 4 * e,
        alike(e, f) == alike(f, e),
{
}

} // verus!
