//! Little-endian integers as byte strings.
//!
//! Both containers store every number least significant byte first, so there is one
//! definition of that here, for any width, and the readers and writers refer to it.

use vstd::arithmetic::power2;
use vstd::prelude::*;
use vstd::string::*;

verus! {

/// The `width` least significant bytes of `x`, least significant first.
pub open spec fn le(x: nat, width: nat) -> Seq<u8>
    decreases width,
{
    if width == 0 {
        Seq::empty()
    } else {
        seq![(x % 256) as u8] + le(x / 256, (width - 1) as nat)
    }
}

/// The number that a byte string stands for, least significant byte first.
pub open spec fn le_value(s: Seq<u8>) -> nat
    decreases s.len(),
{
    if s.len() == 0 {
        0
    } else {
        s[0] as nat + 256 * le_value(s.drop_first())
    }
}

/// 256 to the power of `width`: how many values `width` bytes can hold.
pub open spec fn le_limit(width: nat) -> nat
    decreases width,
{
    if width == 0 {
        1
    } else {
        256 * le_limit((width - 1) as nat)
    }
}

pub proof fn lemma_le_limits()
    ensures
        le_limit(1) == 0x100,
        le_limit(2) == 0x1_0000,
        le_limit(4) == 0x1_0000_0000,
        le_limit(8) == 0x1_0000_0000_0000_0000,
{
    reveal_with_fuel(le_limit, 9);
}

pub proof fn lemma_le_len(x: nat, width: nat)
    ensures
        le(x, width).len() == width,
    decreases width,
{
    if width > 0 {
        lemma_le_len(x / 256, (width - 1) as nat);
    }
}

/// Reading back what was written gives the number, as long as it fits the width.
pub proof fn law_le_round_trip(x: nat, width: nat)
    requires
        x < le_limit(width),
    ensures
        le_value(le(x, width)) == x,
    decreases width,
{
    if width > 0 {
        let rest = le(x / 256, (width - 1) as nat);
        law_le_round_trip(x / 256, (width - 1) as nat);
        assert(le(x, width).drop_first() =~= rest);
    }
}

/// Only the part of a number that fits the width is written.
pub proof fn lemma_le_mod(x: nat, width: nat)
    ensures
        le_limit(width) > 0,
        le(x % le_limit(width), width) == le(x, width),
    decreases width,
{
    if width > 0 {
        let m = le_limit((width - 1) as nat);
        lemma_le_mod(x / 256, (width - 1) as nat);
        vstd::arithmetic::div_mod::lemma_mod_breakdown(x as int, 256, m as int);
        assert(x % (256 * m) == 256 * ((x / 256) % m) + x % 256);
        assert((x % (256 * m)) % 256 == x % 256);
        assert((x % (256 * m)) / 256 == (x / 256) % m);
    }
}

/// Two bytes, read as one 16-bit number.
pub fn u16le(b: &[u8]) -> (x: u16)
    requires
        b@.len() >= 2,
    ensures
        x == le_value(b@.take(2)),
        x == b@[0] + 0x100 * b@[1],
{
    proof {
        reveal_with_fuel(le_value, 3);
        assert(b@.take(2).drop_first() =~= seq![b@[1]]);
        assert(seq![b@[1]].drop_first() =~= Seq::<u8>::empty());
    }
    b[0] as u16 + 256 * (b[1] as u16)
}

/// Four bytes, read as one 32-bit number.
pub fn u32le(b: &[u8]) -> (x: u32)
    requires
        b@.len() >= 4,
    ensures
        x == le_value(b@.take(4)),
        x == b@[0] + 0x100 * b@[1] + 0x1_0000 * b@[2] + 0x100_0000 * b@[3],
{
    proof {
        reveal_with_fuel(le_value, 5);
        let s = b@.take(4);
        assert(s.drop_first() =~= seq![b@[1], b@[2], b@[3]]);
        assert(s.drop_first().drop_first() =~= seq![b@[2], b@[3]]);
        assert(s.drop_first().drop_first().drop_first() =~= seq![b@[3]]);
        assert(s.drop_first().drop_first().drop_first().drop_first() =~= Seq::<u8>::empty());
    }
    b[0] as u32 + 256 * (b[1] as u32 + 256 * (b[2] as u32 + 256 * (b[3] as u32)))
}

/// Appends one byte string to another.
pub fn put(out: &mut Vec<u8>, bytes: &[u8])
    ensures
        final(out)@ == old(out)@ + bytes@,
{
    out.extend_from_slice(bytes);
    assert(out@ =~= old(out)@ + bytes@);
}

/// A text as one byte per character.
pub open spec fn ascii(s: Seq<char>) -> Seq<u8> {
    Seq::new(s.len(), |i: int| s[i] as u8)
}

/// Appends an ASCII text.
pub fn put_ascii(out: &mut Vec<u8>, s: &str)
    requires
        s.is_ascii(),
    ensures
        final(out)@ == old(out)@ + ascii(s@),
{
    broadcast use vstd::string::is_ascii_spec_bytes;
    put(out, s.as_bytes());
    assert(s.spec_bytes() =~= ascii(s@));
}

/// Appends a 16-bit number.
pub fn put_u16(out: &mut Vec<u8>, x: u16)
    ensures
        final(out)@ == old(out)@ + le(x as nat, 2),
{
    out.push((x % 256) as u8);
    out.push((x / 256) as u8);
    proof {
        reveal_with_fuel(le, 3);
        assert(out@ =~= old(out)@ + le(x as nat, 2));
    }
}

/// Appends a 32-bit number.
pub fn put_u32(out: &mut Vec<u8>, x: u32)
    ensures
        final(out)@ == old(out)@ + le(x as nat, 4),
{
    put_le(out, x as u64, 4);
}

/// Appends a 64-bit number.
pub fn put_u64(out: &mut Vec<u8>, x: u64)
    ensures
        final(out)@ == old(out)@ + le(x as nat, 8),
{
    put_le(out, x, 8);
}

/// Overwrites the 32-bit number at `at`.
pub fn set_u32(out: &mut Vec<u8>, at: usize, x: u32)
    requires
        at + 4 <= old(out).len(),
    ensures
        final(out)@ == old(out)@.take(at as int) + le(x as nat, 4) + old(out)@.skip(at + 4),
{
    out[at] = (x % 256) as u8;
    out[at + 1] = (x / 256 % 256) as u8;
    out[at + 2] = (x / 256 / 256 % 256) as u8;
    out[at + 3] = (x / 256 / 256 / 256) as u8;
    proof {
        reveal_with_fuel(le, 5);
        assert(le(x as nat, 4) =~= seq![
            (x % 256) as u8,
            (x / 256 % 256) as u8,
            (x / 256 / 256 % 256) as u8,
            (x / 256 / 256 / 256) as u8,
        ]);
        assert(out@ =~= old(out)@.take(at as int) + le(x as nat, 4) + old(out)@.skip(at + 4));
    }
}

fn put_le(out: &mut Vec<u8>, x: u64, width: usize)
    ensures
        final(out)@ == old(out)@ + le(x as nat, width as nat),
{
    let mut rest: u64 = x;
    let mut left: usize = width;
    proof {
        assert(out@ + le(x as nat, width as nat) =~= old(out)@ + le(x as nat, width as nat));
    }
    while left > 0
        invariant
            out@ + le(rest as nat, left as nat) == old(out)@ + le(x as nat, width as nat),
        decreases left,
    {
        let ghost before = out@;
        out.push((rest % 256) as u8);
        proof {
            assert(out@ + le(rest as nat / 256, (left - 1) as nat) =~= before + le(
                rest as nat,
                left as nat,
            ));
        }
        rest = rest / 256;
        left = left - 1;
    }
    assert(out@ =~= out@ + le(rest as nat, 0));
}

/// The two's complement bit pattern of a sample.
pub open spec fn sample_word(s: i16) -> u16 {
    if s < 0 {
        (s + 0x1_0000) as u16
    } else {
        s as u16
    }
}

/// The sample that a bit pattern stands for.
pub open spec fn word_sample(w: u16) -> i16 {
    if w >= 0x8000 {
        (w - 0x1_0000) as i16
    } else {
        w as i16
    }
}

/// No sample is lost or changed by the bit pattern that stores it.
pub proof fn law_sample_word_round_trip(s: i16, w: u16)
    ensures
        word_sample(sample_word(s)) == s,
        sample_word(word_sample(w)) == w,
{
}

/// Appends a signed sample.
pub fn put_i16(out: &mut Vec<u8>, s: i16)
    ensures
        final(out)@ == old(out)@ + le(sample_word(s) as nat, 2),
{
    let w: u16 = if s < 0 {
        (s as i32 + 0x1_0000) as u16
    } else {
        s as u16
    };
    put_u16(out, w);
}

/// Two bytes, read as one signed sample.
pub fn i16le(b: &[u8]) -> (s: i16)
    requires
        b@.len() >= 2,
    ensures
        s == word_sample(le_value(b@.take(2)) as u16),
        (s - (b@[0] + 0x100 * b@[1])) % 0x1_0000 == 0,
{
    let w: u16 = u16le(b);
    if w >= 0x8000 {
        (w as i32 - 0x1_0000) as i16
    } else {
        w as i16
    }
}

/// Whether `b` holds `tag` at position `at`.
pub fn has_at(b: &[u8], at: usize, tag: &[u8]) -> (yes: bool)
    requires
        at + tag@.len() <= b@.len(),
    ensures
        yes == (b@.subrange(at as int, at + tag@.len()) == tag@),
{
    let n: usize = tag.len();
    let mut i: usize = 0;
    while i < n
        invariant
            n == tag@.len(),
            i <= n,
            at + n <= b.len(),
            forall|k: int| 0 <= k < i ==> b@[at + k] == tag@[k],
        decreases n - i,
    {
        if b[at + i] != tag[i] {
            assert(b@.subrange(at as int, at + tag@.len())[i as int] != tag@[i as int]);
            return false;
        }
        i = i + 1;
    }
    assert(b@.subrange(at as int, at + tag@.len()) =~= tag@);
    true
}

/// Whether `b` holds the ASCII text `tag` at position `at`.
pub fn is_at(b: &[u8], at: usize, tag: &str) -> (yes: bool)
    requires
        tag.is_ascii(),
        at + tag@.len() <= b@.len(),
    ensures
        yes == (b@.subrange(at as int, at + tag@.len()) == ascii(tag@)),
{
    broadcast use vstd::string::is_ascii_spec_bytes;
    assert(tag.spec_bytes() =~= ascii(tag@));
    has_at(b, at, tag.as_bytes())
}

proof fn lemma_places(i: nat)
    ensures
        power2::pow2(8 * (i + 1)) == 256 * power2::pow2(8 * i),
        power2::pow2(8 * i) > 0,
{
    power2::lemma2_to64();
    power2::lemma_pow2_adds(8, 8 * i);
    power2::lemma_pow2_pos(8 * i);
}

/// The least significant byte comes first: the byte at place `i` is the digit of `x` with weight
/// 256 to the power of `i`.
pub proof fn law_le_places(x: nat, width: nat, i: nat)
    requires
        i < width,
    ensures
        le(x, width).len() == width,
        le(x, width)[i as int] == (x / power2::pow2(8 * i)) % 256,
    decreases width,
{
    lemma_le_len(x, width);
    let rest = le(x / 256, (width - 1) as nat);
    lemma_le_len(x / 256, (width - 1) as nat);
    if i == 0 {
        power2::lemma2_to64();
        assert(x / 1 == x);
    } else {
        let j = (i - 1) as nat;
        law_le_places(x / 256, (width - 1) as nat, j);
        lemma_places(j);
        let p = power2::pow2(8 * j);
        vstd::arithmetic::div_mod::lemma_div_denominator(x as int, 256, p as int);
        assert(x / 256 / p == x / (256 * p));
        assert(le(x, width)[i as int] == rest[j as int]);
    }
}

/// The number that bytes stand for has each of them as a digit: the byte at place `i` weighs 256
/// to the power of `i`, and there is nothing above the last.
pub proof fn law_le_value_places(s: Seq<u8>, i: nat)
    requires
        i < s.len(),
    ensures
        (le_value(s) / power2::pow2(8 * i)) % 256 == s[i as int],
        le_value(s) < power2::pow2(8 * s.len()),
    decreases s.len(),
{
    let rest = s.drop_first();
    let v = le_value(rest);
    lemma_le_value_bound(s);
    if i == 0 {
        power2::lemma2_to64();
        assert(le_value(s) / 1 == le_value(s));
    } else {
        let j = (i - 1) as nat;
        law_le_value_places(rest, j);
        lemma_places(j);
        let p = power2::pow2(8 * j);
        vstd::arithmetic::div_mod::lemma_div_denominator(le_value(s) as int, 256, p as int);
        assert(le_value(s) / 256 == v);
    }
}

proof fn lemma_le_value_bound(s: Seq<u8>)
    ensures
        le_value(s) < power2::pow2(8 * s.len()),
    decreases s.len(),
{
    power2::lemma2_to64();
    if s.len() > 0 {
        lemma_le_value_bound(s.drop_first());
        lemma_places((s.len() - 1) as nat);
    }
}

/// A text has one byte per character, and that byte is the character's code.
pub proof fn law_ascii(s: Seq<char>, i: int)
    requires
        0 <= i < s.len(),
    ensures
        ascii(s).len() == s.len(),
        ascii(s)[i] == s[i] as u8,
{
}

/// A sample and its bit pattern agree modulo 2^16.
pub proof fn law_sample_word_congruent(s: i16, w: u16)
    ensures
        (sample_word(s) - s) % 0x1_0000 == 0,
        (word_sample(w) - w) % 0x1_0000 == 0,
{
}

} // verus!
