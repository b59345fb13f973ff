//! The shape of a radix-2 Fourier transform: its length, the order its input is put in, which
//! values meet in each stage, and which of its output belongs to which frequency band.
//!
//! The values themselves are whatever the caller computes with.

use vstd::arithmetic::power2;
use vstd::prelude::*;

verus! {

/// The longest transform: the bands are wide, and more resolution buys nothing.
pub const LONGEST: usize = 4096;

/// The length of the transform of `len` values: the largest power of two that is neither more
/// than there are values nor more than the longest, and at least two.
pub open spec fn transform_size(len: nat) -> nat {
    doubled(2, len)
}

/// How far a length can still be doubled.
pub open spec fn doubled(n: nat, len: nat) -> nat
    decreases LONGEST - n,
{
    if 0 < n && 2 * n <= LONGEST && 2 * n <= len {
        doubled(2 * n, len)
    } else {
        n
    }
}

/// The length of the transform of `len` values.
pub fn transform_len(len: usize) -> (n: usize)
    ensures
        n == transform_size(len as nat),
{
    let mut n: usize = 2;
    while n < LONGEST && n <= len / 2
        invariant
            2 <= n <= LONGEST,
            transform_size(len as nat) == doubled(n as nat, len as nat),
            n == 2 || n == 4 || n == 8 || n == 16 || n == 32 || n == 64 || n == 128 || n == 256
                || n == 512 || n == 1024 || n == 2048 || n == 4096,
        decreases LONGEST - n,
    {
        n = 2 * n;
    }
    n
}

proof fn lemma_doubled(n: nat, k: nat, len: nat)
    requires
        n == power2::pow2(k),
        2 <= n <= LONGEST,
        k <= 12,
    ensures
        exists|j: nat| #[trigger] power2::pow2(j) == doubled(n, len),
        n <= doubled(n, len) <= LONGEST,
        n <= len ==> doubled(n, len) <= len,
        doubled(n, len) < LONGEST ==> 2 * doubled(n, len) > len,
    decreases LONGEST - n,
{
    if n < LONGEST && 2 * n <= len {
        power2::lemma_pow2_unfold(k + 1);
        assert(power2::pow2(k + 1) == 2 * n);
        power2::lemma2_to64();
        assert(k < 12) by {
            if k == 12 {
                assert(power2::pow2(12) == 4096);
            }
        }
        assert(2 * n <= LONGEST) by {
            if k < 11 {
                power2::lemma_pow2_strictly_increases(k + 1, 12);
            }
        }
        lemma_doubled(2 * n, k + 1, len);
    }
}

/// The length of a transform is a power of two, no shorter than it has to be: it is not more
/// than there are values, and doubling it would be, unless it is the longest.
pub proof fn law_transform_size(len: nat)
    ensures
        exists|j: nat| #[trigger] power2::pow2(j) == transform_size(len),
        2 <= transform_size(len) <= LONGEST,
        len >= 2 ==> transform_size(len) <= len,
        transform_size(len) < LONGEST ==> 2 * transform_size(len) > len,
{
    power2::lemma2_to64();
    lemma_doubled(2, 1, len);
}

/// The edges of the bands, in Hz.
pub open spec fn edges() -> Seq<nat> {
    seq![0, 250, 500, 1000, 2000, 4000, 8000, 16000, 24000]
}

/// How many of the `len` values go into the transform.
pub open spec fn used(len: nat) -> nat {
    if len < transform_size(len) {
        len
    } else {
        transform_size(len)
    }
}

/// How many magnitudes come out.
pub open spec fn bins(len: nat) -> nat {
    used(len) / 2
}

/// The magnitude at which a frequency lies; past the end for one that is too high.
pub open spec fn bin_of(hz: nat, len: nat, rate: u32) -> nat {
    if hz == 0 {
        0
    } else if rate == 0 || hz * transform_size(len) / (rate as nat) > bins(len) {
        bins(len)
    } else {
        hz * transform_size(len) / (rate as nat)
    }
}

/// The magnitude at which a frequency lies.
fn bin(hz: u64, len: usize, rate: u32) -> (b: usize)
    requires
        hz <= 24_000,
    ensures
        b == bin_of(hz as nat, len as nat, rate),
{
    proof {
        law_transform_size(len as nat);
    }
    let n: usize = transform_len(len);
    let last: usize = if len < n {
        len / 2
    } else {
        n / 2
    };
    if hz == 0 {
        0
    } else if rate == 0 {
        last
    } else {
        assert(0 <= hz * n <= 24_000 * 4096) by (nonlinear_arith)
            requires
                hz <= 24_000,
                n <= 4096,
        ;
        let at: u64 = hz * n as u64 / rate as u64;
        if at > last as u64 {
            last
        } else {
            at as usize
        }
    }
}

/// Which magnitudes belong to which band: from the first to just before the second of a pair.
pub open spec fn bands_of(len: nat, rate: u32) -> Seq<(usize, usize)> {
    Seq::new(
        8,
        |i: int|
            (bin_of(edges()[i], len, rate) as usize, bin_of(edges()[i + 1], len, rate) as usize),
    )
}

/// Which magnitudes belong to which band.
pub fn bands(len: usize, rate: u32) -> (bs: Vec<(usize, usize)>)
    ensures
        bs@ == bands_of(len as nat, rate),
{
    let b0: usize = bin(0, len, rate);
    let b1: usize = bin(250, len, rate);
    let b2: usize = bin(500, len, rate);
    let b3: usize = bin(1000, len, rate);
    let b4: usize = bin(2000, len, rate);
    let b5: usize = bin(4000, len, rate);
    let b6: usize = bin(8000, len, rate);
    let b7: usize = bin(16000, len, rate);
    let b8: usize = bin(24000, len, rate);
    let bs: Vec<(usize, usize)> = vec![
        (b0, b1),
        (b1, b2),
        (b2, b3),
        (b3, b4),
        (b4, b5),
        (b5, b6),
        (b6, b7),
        (b7, b8),
    ];
    assert(bs@ =~= bands_of(len as nat, rate));
    bs
}

proof fn lemma_bin_grows(lo: nat, hi: nat, len: nat, rate: u32)
    requires
        lo <= hi,
    ensures
        bin_of(lo, len, rate) <= bin_of(hi, len, rate) <= bins(len),
{
    if rate > 0 {
        let n = transform_size(len);
        assert(lo * n <= hi * n) by (nonlinear_arith)
            requires
                lo <= hi,
        ;
        vstd::arithmetic::div_mod::lemma_div_is_ordered(
            (lo * n) as int,
            (hi * n) as int,
            rate as int,
        );
    }
}

/// The bands follow one another without gap or overlap, from the first magnitude on, and stay
/// inside the transform. At rates up to 48 kHz, every magnitude belongs to a band.
pub proof fn law_bands(len: nat, rate: u32)
    requires
        bins(len) <= usize::MAX,
    ensures
        bands_of(len, rate)[0].0 == 0,
        forall|i: int|
            0 <= i < 8 ==> (#[trigger] bands_of(len, rate)[i]).0 <= bands_of(len, rate)[i].1
                <= bins(len),
        forall|i: int|
            0 <= i < 7 ==> (#[trigger] bands_of(len, rate)[i]).1 == bands_of(len, rate)[i + 1].0,
        0 < rate <= 48_000 ==> bands_of(len, rate)[7].1 == bins(len),
{
    let bs = bands_of(len, rate);
    assert forall|i: int| 0 <= i < 8 implies (#[trigger] bs[i]).0 <= bs[i].1 <= bins(len) by {
        lemma_bin_grows(edges()[i], edges()[i + 1], len, rate);
    }
    assert forall|i: int| 0 <= i < 7 implies (#[trigger] bs[i]).1 == bs[i + 1].0 by {
        lemma_bin_grows(edges()[i + 1], edges()[i + 1], len, rate);
    }
    if 0 < rate <= 48_000 {
        let n = transform_size(len);
        let r = rate as nat;
        assert(24_000 * n >= r * (n / 2)) by (nonlinear_arith)
            requires
                r <= 48_000,
        ;
        vstd::arithmetic::div_mod::lemma_div_is_ordered(
            (r * (n / 2)) as int,
            (24_000 * n) as int,
            r as int,
        );
        vstd::arithmetic::div_mod::lemma_div_by_multiple((n / 2) as int, r as int);
        assert(r * (n / 2) == (n / 2) * r) by (nonlinear_arith);
        assert(24_000 * n / r >= n / 2);
        assert(bin_of(24_000, len, rate) == bins(len));
    }
}

/// The lowest `k` bits of `i`, in reverse.
pub open spec fn reversed(i: nat, k: nat) -> nat
    decreases k,
{
    if k == 0 {
        0
    } else {
        (i % 2) * power2::pow2((k - 1) as nat) + reversed(i / 2, (k - 1) as nat)
    }
}

proof fn lemma_reversed_bound(i: nat, k: nat)
    ensures
        reversed(i, k) < power2::pow2(k),
    decreases k,
{
    power2::lemma_pow2_pos(k);
    if k > 0 {
        lemma_reversed_bound(i / 2, (k - 1) as nat);
        power2::lemma_pow2_unfold(k);
        let p = power2::pow2((k - 1) as nat);
        assert((i % 2) * p <= p) by (nonlinear_arith)
            requires
                i % 2 <= 1,
        ;
    }
}

/// The topmost bit of a number is the lowest one of its reverse.
proof fn lemma_reversed_top(b: nat, x: nat, k: nat)
    requires
        b < 2,
        x < power2::pow2(k),
    ensures
        reversed(b * power2::pow2(k) + x, k + 1) == 2 * reversed(x, k) + b,
    decreases k,
{
    let i = b * power2::pow2(k) + x;
    if k == 0 {
        power2::lemma2_to64();
        assert(x == 0 && i == b) by (nonlinear_arith)
            requires
                x < 1,
                i == b * power2::pow2(k) + x,
                power2::pow2(k) == 1,
        ;
        assert(reversed(i / 2, 0) == 0);
        assert(reversed(i, 1) == (i % 2) * power2::pow2(0) + 0);
        assert((i % 2) * 1 == i % 2);
    } else {
        let j = (k - 1) as nat;
        let p = power2::pow2(j);
        power2::lemma_pow2_unfold(k);
        assert(power2::pow2(k) == 2 * p);
        assert(b * (2 * p) == 2 * (b * p)) by (nonlinear_arith);
        assert(i == 2 * (b * p) + x);
        assert(i % 2 == x % 2);
        assert(i / 2 == b * p + x / 2);
        assert(x / 2 < p);
        lemma_reversed_top(b, x / 2, j);
        assert(reversed(i, k + 1) == (i % 2) * power2::pow2(k) + reversed(i / 2, k));
        assert(reversed(x, k) == (x % 2) * p + reversed(x / 2, j));
        assert((x % 2) * (2 * p) == 2 * ((x % 2) * p)) by (nonlinear_arith);
    }
}

/// Reversing the bits twice changes nothing.
pub proof fn law_reversed_twice(i: nat, k: nat)
    requires
        i < power2::pow2(k),
    ensures
        reversed(i, k) < power2::pow2(k),
        reversed(reversed(i, k), k) == i,
    decreases k,
{
    lemma_reversed_bound(i, k);
    if k == 0 {
        power2::lemma2_to64();
    } else {
        let j = (k - 1) as nat;
        power2::lemma_pow2_unfold(k);
        law_reversed_twice(i / 2, j);
        lemma_reversed_top(i % 2, reversed(i / 2, j), j);
    }
}

/// Reversed bits count up from the top: where a one stands there, it becomes zero and the
/// carry goes to the next place down.
pub open spec fn carried(j: nat, k: nat) -> nat
    decreases k,
{
    if k == 0 {
        j
    } else if j >= power2::pow2((k - 1) as nat) {
        carried((j - power2::pow2((k - 1) as nat)) as nat, (k - 1) as nat)
    } else {
        j + power2::pow2((k - 1) as nat)
    }
}

proof fn lemma_carried(i: nat, k: nat)
    requires
        i + 1 < power2::pow2(k),
    ensures
        carried(reversed(i, k), k) == reversed(i + 1, k),
    decreases k,
{
    if k == 0 {
        power2::lemma2_to64();
    } else {
        let j = (k - 1) as nat;
        let p = power2::pow2(j);
        power2::lemma_pow2_unfold(k);
        lemma_reversed_bound(i / 2, j);
        if i % 2 == 0 {
            assert((i + 1) / 2 == i / 2 && (i + 1) % 2 == 1);
            assert(0 * p == 0 && 1 * p == p);
        } else {
            assert((i + 1) / 2 == i / 2 + 1 && (i + 1) % 2 == 0);
            assert(0 * p == 0 && 1 * p == p);
            lemma_carried(i / 2, j);
        }
    }
}

/// The next number in reversed order, below `n`.
fn carry(j: usize, n: usize, Ghost(k): Ghost<nat>) -> (next: usize)
    requires
        n == power2::pow2(k),
        j < n,
        carried(j as nat, k) < n,
        carried(j as nat, k) > 0,
    ensures
        next == carried(j as nat, k),
{
    let mut rest: usize = j;
    let mut bit: usize = n / 2;
    let ghost mut m: nat = k;
    proof {
        power2::lemma2_to64();
        assert(k > 0) by {
            if k == 0 {
                assert(j == 0);
            }
        }
        power2::lemma_pow2_unfold(k);
    }
    while rest >= bit
        invariant
            m > 0,
            bit == power2::pow2((m - 1) as nat),
            rest < 2 * bit,
            carried(rest as nat, m) == carried(j as nat, k),
            carried(j as nat, k) > 0,
            carried(j as nat, k) < n,
        decreases bit,
    {
        rest = rest - bit;
        proof {
            power2::lemma2_to64();
            power2::lemma_pow2_pos((m - 1) as nat);
            if m == 1 {
                assert(rest == 0);
                assert(carried(rest as nat, 0) == 0);
            }
            power2::lemma_pow2_unfold((m - 1) as nat);
            m = (m - 1) as nat;
        }
        bit = bit / 2;
    }
    rest + bit
}

/// Values in the order of their reversed positions.
pub open spec fn shuffled<T>(xs: Seq<T>, k: nat) -> Seq<T> {
    Seq::new(xs.len(), |i: int| xs[reversed(i as nat, k) as int])
}

/// What stands at a place when all pairs up to `i` have been exchanged.
spec fn partly<T>(xs: Seq<T>, k: nat, i: int) -> Seq<T> {
    Seq::new(
        xs.len(),
        |p: int|
            if p <= i || reversed(p as nat, k) <= i {
                xs[reversed(p as nat, k) as int]
            } else {
                xs[p]
            },
    )
}

proof fn lemma_exchange<T>(xs: Seq<T>, k: nat, i: int, j: int)
    requires
        xs.len() == power2::pow2(k),
        0 < i < xs.len(),
        j == reversed(i as nat, k),
    ensures
        0 <= j < xs.len(),
        i < j ==> partly(xs, k, i) == partly(xs, k, i - 1).update(i, partly(xs, k, i - 1)[j]).update(
            j,
            partly(xs, k, i - 1)[i],
        ),
        i >= j ==> partly(xs, k, i) == partly(xs, k, i - 1),
{
    law_reversed_twice(i as nat, k);
    let (a, b) = (partly(xs, k, i - 1), partly(xs, k, i));
    let c = a.update(i, a[j]).update(j, a[i]);
    assert forall|p: int| 0 <= p < xs.len() implies b[p] == (if i < j {
        c[p]
    } else {
        a[p]
    }) by {
        law_reversed_twice(p as nat, k);
        if p != i && p != j {
            assert(reversed(p as nat, k) != i);
        }
    }
    if i < j {
        assert(b =~= c);
    } else {
        assert(b =~= a);
    }
}

/// Whether a length is a power of two.
pub open spec fn power_of_two(n: nat) -> bool {
    exists|k: nat| #[trigger] power2::pow2(k) == n
}

/// The number of bits of a power of two.
pub open spec fn bits(n: nat) -> nat {
    choose|k: nat| #[trigger] power2::pow2(k) == n
}

/// Puts values in the order of their reversed positions. There has to be a power of two of
/// them.
pub fn shuffle<T: Copy>(xs: &mut Vec<T>)
    requires
        power_of_two(old(xs)@.len()),
    ensures
        final(xs)@ == shuffled(old(xs)@, bits(old(xs)@.len())),
{
    let n: usize = xs.len();
    let ghost first = xs@;
    let ghost k = bits(n as nat);
    let mut j: usize = 0;
    let mut i: usize = 1;
    proof {
        lemma_zero(k);
        power2::lemma_pow2_pos(k);
        assert forall|p: int| 0 <= p < first.len() implies partly(first, k, 0)[p] == first[p] by {
            law_reversed_twice(p as nat, k);
        }
        assert(xs@ =~= partly(first, k, 0));
    }
    while i < n
        invariant
            1 <= i,
            i <= n || n == 1,
            n == power2::pow2(k),
            n == xs@.len(),
            n == first.len(),
            j == reversed((i - 1) as nat, k),
            j < n,
            xs@ == partly(first, k, i - 1),
        decreases n - i,
    {
        proof {
            lemma_carried((i - 1) as nat, k);
            law_reversed_twice(i as nat, k);
            lemma_zero(k);
            lemma_exchange(first, k, i as int, reversed(i as nat, k) as int);
        }
        j = carry(j, n, Ghost(k));
        if i < j {
            let (a, b): (T, T) = (xs[i], xs[j]);
            xs[i] = b;
            xs[j] = a;
        }
        i = i + 1;
    }
    proof {
        power2::lemma_pow2_pos(k);
        assert(xs@ =~= shuffled(first, k)) by {
            if n == 1 {
                law_reversed_twice(0, k);
            }
        }
    }
}

proof fn lemma_zero(k: nat)
    ensures
        reversed(0, k) == 0,
    decreases k,
{
    if k > 0 {
        lemma_zero((k - 1) as nat);
        assert(0 * power2::pow2((k - 1) as nat) == 0);
    }
}

/// Two values that meet in one stage of the transform, and the step of the rotation between
/// them.
#[derive(Clone, Copy, Debug, PartialEq, Eq, Structural)]
pub struct Pair {
    pub low: usize,
    pub high: usize,
    pub step: usize,
}

/// Where the pair with number `m` has its first value, in a stage of blocks of `2 * half`.
pub open spec fn low_of(m: nat, half: nat) -> nat {
    (m / half) * (2 * half) + m % half
}

/// The pairs of one stage: blocks of `2 * half` values follow one another, and in each block
/// the first half meets the second.
pub open spec fn stage_of(n: nat, half: nat) -> Seq<Pair> {
    Seq::new(
        n / 2,
        |m: int|
            Pair {
                low: low_of(m as nat, half) as usize,
                high: (low_of(m as nat, half) + half) as usize,
                step: (m as nat % half) as usize,
            },
    )
}

proof fn lemma_block(q: nat, r: nat, size: nat, count: nat)
    requires
        q < count,
        r < size,
    ensures
        q * size + r < count * size,
        (q * size + r) / size == q,
        (q * size + r) % size == r,
{
    assert(q * size + size <= count * size) by (nonlinear_arith)
        requires
            q < count,
    ;
    vstd::arithmetic::div_mod::lemma_fundamental_div_mod_converse(
        (q * size + r) as int,
        size as int,
        q as int,
        r as int,
    );
}

/// The pairs of one stage, among `n` values in blocks of `2 * half`.
pub fn stage(n: usize, half: usize) -> (ps: Vec<Pair>)
    requires
        half > 0,
        2 * half <= n,
        n as nat % (2 * half as nat) == 0,
    ensures
        ps@ == stage_of(n as nat, half as nat),
{
    let mut ps: Vec<Pair> = Vec::with_capacity(n / 2);
    let blocks: usize = n / (2 * half);
    let ghost h = half as nat;
    proof {
        lemma_blocks(n as nat, h);
    }
    let mut q: usize = 0;
    while q < blocks
        invariant
            h == half,
            half > 0,
            2 * half <= n,
            blocks * (2 * h) == n,
            blocks * h == n / 2,
            q <= blocks,
            ps@ == stage_of(n as nat, h).take(q * h),
        decreases blocks - q,
    {
        let mut r: usize = 0;
        assert(q * h + 0 == q * h);
        while r < half
            invariant
                h == half,
                half > 0,
                2 * half <= n,
                blocks * (2 * h) == n,
                blocks * h == n / 2,
                q < blocks,
                r <= half,
                ps@ == stage_of(n as nat, h).take(q * h + r),
            decreases half - r,
        {
            proof {
                lemma_block(q as nat, r as nat, h, blocks as nat);
                lemma_block(q as nat, (r + h) as nat, 2 * h, blocks as nat);
                assert(q * (2 * half) == q * (2 * h));
                assert(0 <= q * (2 * h)) by (nonlinear_arith);
            }
            let low: usize = q * (2 * half) + r;
            ps.push(Pair { low, high: low + half, step: r });
            r = r + 1;
            assert(ps@ =~= stage_of(n as nat, h).take(q * h + r));
        }
        q = q + 1;
        assert((q - 1) * h + h == q * h) by (nonlinear_arith);
    }
    assert(ps@ =~= stage_of(n as nat, h));
    ps
}

proof fn lemma_blocks(n: nat, h: nat)
    requires
        h > 0,
        n % (2 * h) == 0,
    ensures
        (n / (2 * h)) * (2 * h) == n,
        (n / (2 * h)) * h == n / 2,
{
    vstd::arithmetic::div_mod::lemma_fundamental_div_mod(n as int, (2 * h) as int);
    let q = n / (2 * h);
    assert(q * (2 * h) == n) by (nonlinear_arith)
        requires
            n == (2 * h) * q,
    ;
    assert(2 * (q * h) == q * (2 * h)) by (nonlinear_arith);
}

/// In one stage every value takes part exactly once: each place is the first or the second of
/// one pair, and of no other.
pub proof fn law_stage_covers(n: nat, half: nat, place: nat)
    requires
        half > 0,
        n % (2 * half) == 0,
        n <= usize::MAX,
        place < n,
    ensures
        exists|m: int|
            0 <= m < stage_of(n, half).len() && #[trigger] meets(stage_of(n, half)[m], place),
        forall|m: int, o: int|
            0 <= m < stage_of(n, half).len() && 0 <= o < stage_of(n, half).len()
                && #[trigger] meets(stage_of(n, half)[m], place) && #[trigger] meets(
                stage_of(n, half)[o],
                place,
            ) ==> m == o,
{
    let size = 2 * half;
    let blocks = n / size;
    lemma_blocks(n, half);
    let (q, r) = (place / size, place % size);
    vstd::arithmetic::div_mod::lemma_fundamental_div_mod(place as int, size as int);
    assert(size * q == q * size) by (nonlinear_arith);
    assert(q < blocks) by (nonlinear_arith)
        requires
            q * size <= place,
            place < blocks * size,
    ;
    let step = if r < half {
        r
    } else {
        (r - half) as nat
    };
    let m = q * half + step;
    lemma_block(q, step, half, blocks);
    assert(meets(stage_of(n, half)[m as int], place));
    assert forall|o: int| 0 <= o < n / 2 && #[trigger] meets(
        stage_of(n, half)[o],
        place,
    ) implies o == m by {
        lemma_place(n, half, o as nat, place);
    }
}

/// Whether a pair has a value at a place.
pub open spec fn meets(p: Pair, place: nat) -> bool {
    p.low == place || p.high == place
}

proof fn lemma_place(n: nat, half: nat, o: nat, place: nat)
    requires
        half > 0,
        n % (2 * half) == 0,
        n <= usize::MAX,
        o < n / 2,
        meets(stage_of(n, half)[o as int], place),
    ensures
        place / (2 * half) == o / half,
        o == (place / (2 * half)) * half + (if place % (2 * half) < half {
            place % (2 * half)
        } else {
            (place % (2 * half) - half) as nat
        }),
{
    let size = 2 * half;
    let blocks = n / size;
    lemma_blocks(n, half);
    let (q, r) = (o / half, o % half);
    vstd::arithmetic::div_mod::lemma_fundamental_div_mod(o as int, half as int);
    assert(half * q == q * half) by (nonlinear_arith);
    assert(q < blocks) by (nonlinear_arith)
        requires
            q * half <= o,
            o < blocks * half,
    ;
    lemma_block(q, r, size, blocks);
    lemma_block(q, r + half, size, blocks);
}

/// The length of a transform, in numbers: a power of two from 2 to 4096, not more than there are
/// values, and as long as these allow.
pub proof fn law_transform_length(len: nat) -> (k: nat)
    ensures
        1 <= k <= 12,
        transform_size(len) == power2::pow2(k),
        2 <= transform_size(len) <= 4096,
        len >= 2 ==> transform_size(len) <= len,
        transform_size(len) == 4096 || 2 * transform_size(len) > len,
{
    law_transform_size(len);
    let k = choose|j: nat| #[trigger] power2::pow2(j) == transform_size(len);
    power2::lemma2_to64();
    if k > 12 {
        power2::lemma_pow2_strictly_increases(12, k);
    }
    k
}

/// Where the bands lie: the magnitude at which a band begins is the last that is not above its
/// edge, as far as the transform reaches. The edges are 0, 250, 500, 1000, 2000, 4000, 8000,
/// 16000 and 24000 Hz, and half as many magnitudes come out as values go in.
pub proof fn law_band_edges(len: nat, rate: u32, i: int)
    requires
        0 <= i < 9,
        rate > 0,
    ensures
        edges() == seq![0nat, 250, 500, 1000, 2000, 4000, 8000, 16000, 24000],
        ({
            let b = bin_of(edges()[i], len, rate);
            let n = transform_size(len);
            &&& b * rate <= edges()[i] * n
            &&& b == bins(len) || edges()[i] * n < (b + 1) * rate
            &&& b <= bins(len)
        }),
        len >= 2 ==> 2 * bins(len) == transform_size(len),
        len < 2 ==> bins(len) == 0,
{
    let n = transform_size(len);
    let e = edges()[i];
    let r = rate as int;
    let k = law_transform_length(len);
    vstd::arithmetic::div_mod::lemma_fundamental_div_mod((e * n) as int, r);
    vstd::arithmetic::div_mod::lemma_mod_bound((e * n) as int, r);
    let q = (e * n) as int / r;
    assert(q * r == r * q && (q + 1) * r == r * q + r) by (nonlinear_arith);
    power2::lemma_pow2_unfold(k);
    let b = bin_of(e, len, rate) as int;
    assert(b <= q ==> b * r <= q * r) by (nonlinear_arith)
        requires
            r > 0,
    ;
    if e == 0 {
        assert(0 * n == 0 && 0 * r == 0) by (nonlinear_arith);
        assert(1 * r == r);
        assert(q == 0) by {
            vstd::arithmetic::div_mod::lemma_basic_div(0, r);
        }
    }
}

/// What reversing means: the bit at place `j` moves to place `k - 1 - j`.
pub proof fn law_reversed_bits(i: nat, k: nat, j: nat)
    requires
        i < power2::pow2(k),
        j < k,
    ensures
        (reversed(i, k) / power2::pow2((k - 1 - j) as nat)) % 2 == (i / power2::pow2(j)) % 2,
    decreases k,
{
    let m = (k - 1) as nat;
    let p = power2::pow2(m);
    let low = reversed(i / 2, m);
    power2::lemma2_to64();
    power2::lemma_pow2_unfold(k);
    power2::lemma_pow2_pos(m);
    lemma_reversed_bound(i / 2, m);
    if j == 0 {
        assert(i / 1 == i);
        assert(((i % 2) * p + low) / p == i % 2) by {
            vstd::arithmetic::div_mod::lemma_fundamental_div_mod_converse(
                ((i % 2) * p + low) as int,
                p as int,
                (i % 2) as int,
                low as int,
            );
        }
    } else {
        let h = (j - 1) as nat;
        law_reversed_bits(i / 2, m, h);
        let d = (m - 1 - h) as nat;
        assert(d == k - 1 - j);
        let q = power2::pow2(d);
        power2::lemma_pow2_pos(d);
        power2::lemma_pow2_pos(h);
        power2::lemma_pow2_unfold(j);
        vstd::arithmetic::div_mod::lemma_div_denominator(i as int, 2, power2::pow2(h) as int);
        assert((i / 2) / power2::pow2(h) == i / power2::pow2(j));
        // The bit on top does not reach down to this place.
        power2::lemma_pow2_adds((m - d) as nat, d);
        power2::lemma_pow2_unfold((m - d) as nat);
        let c = power2::pow2((m - d - 1) as nat);
        assert(p == 2 * c * q);
        let top = (i % 2) * p;
        assert(top + low == q * (2 * ((i % 2) * c)) + low) by (nonlinear_arith)
            requires
                p == 2 * c * q,
                top == (i % 2) * p,
        ;
        vstd::arithmetic::div_mod::lemma_hoist_over_denominator(
            low as int,
            (2 * ((i % 2) * c)) as int,
            q,
        );
        assert((top + low) / q == low / q + 2 * ((i % 2) * c)) by {
            assert(q * (2 * ((i % 2) * c)) == (2 * ((i % 2) * c)) * q) by (nonlinear_arith);
        }
    }
}

/// Shuffling moves every value, and each to the place with its bits reversed; the number of bits
/// is that of the length.
pub proof fn law_shuffled<T>(xs: Seq<T>, i: int)
    requires
        power_of_two(xs.len()),
        0 <= i < xs.len(),
    ensures
        power2::pow2(bits(xs.len())) == xs.len(),
        shuffled(xs, bits(xs.len())).len() == xs.len(),
        shuffled(xs, bits(xs.len()))[reversed(i as nat, bits(xs.len())) as int] == xs[i],
{
    law_reversed_twice(i as nat, bits(xs.len()));
}

/// What a pair is: two values half a block apart, the first of them in the first half of its
/// block, and the step is how far into the block that is.
pub proof fn law_pairs(n: nat, half: nat, m: int)
    requires
        half > 0,
        n % (2 * half) == 0,
        n <= usize::MAX,
        0 <= m < n / 2,
    ensures
        ({
            let p = stage_of(n, half)[m];
            &&& stage_of(n, half).len() == n / 2
            &&& p.low < p.high < n
            &&& p.high == p.low + half
            &&& p.step == p.low as nat % (2 * half)
            &&& p.step < half
        }),
{
    let size = 2 * half;
    let blocks = n / size;
    lemma_blocks(n, half);
    let (q, r) = (m as nat / half, m as nat % half);
    vstd::arithmetic::div_mod::lemma_fundamental_div_mod(m, half as int);
    assert(half * q == q * half) by (nonlinear_arith);
    assert(q < blocks) by (nonlinear_arith)
        requires
            q * half <= m,
            m < blocks * half,
    ;
    lemma_block(q, r, size, blocks);
    lemma_block(q, r + half, size, blocks);
}

/// There are eight bands, and each reaches from its edge to the next one.
pub proof fn law_bands_reach_from_edge_to_edge(len: nat, rate: u32, i: int)
    requires
        0 <= i < 8,
        rate > 0,
    ensures
        bands_of(len, rate).len() == 8,
        bands_of(len, rate)[i].0 == bin_of(edges()[i], len, rate),
        bands_of(len, rate)[i].1 == bin_of(edges()[i + 1], len, rate),
{
    law_band_edges(len, rate, i);
    law_band_edges(len, rate, i + 1);
    let k = law_transform_length(len);
}

} // verus!
