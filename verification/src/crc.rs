//! The CRC-32 of the Ogg container: polynomial 0x04c11db7, initial value zero, **no** input
//! or output reflection and no final xor. That is not the CRC-32 in zip or PNG, and using
//! the familiar one produces a file every player rejects.

use vstd::prelude::*;

verus! {

/// The generator polynomial, without its leading term.
pub const POLYNOMIAL: u32 = 0x04c1_1db7;

/// One step of the division: the register moves up one place, and the polynomial is
/// subtracted when a one falls out of the top.
pub open spec fn shift(r: u32) -> u32 {
    if r & 0x8000_0000 != 0 {
        (r << 1) ^ POLYNOMIAL
    } else {
        r << 1
    }
}

/// Eight steps: one whole byte.
pub open spec fn shift8(r: u32) -> u32 {
    shift(shift(shift(shift(shift(shift(shift(shift(r))))))))
}

/// The register after one more byte of message, most significant bit first.
pub open spec fn feed(r: u32, b: u8) -> u32 {
    shift8(r ^ ((b as u32) << 24))
}

/// The register after a whole message, starting from `r`.
pub open spec fn feed_all(r: u32, data: Seq<u8>) -> u32
    decreases data.len(),
{
    if data.len() == 0 {
        r
    } else {
        feed(feed_all(r, data.drop_last()), data.last())
    }
}

/// The checksum of a message.
pub open spec fn crc(data: Seq<u8>) -> u32 {
    feed_all(0, data)
}

/// The table-driven step is the bitwise one: a byte only ever reaches the polynomial
/// through the top byte of the register.
proof fn lemma_table_step(r: u32, b: u8)
    ensures
        feed(r, b) == (r << 8) ^ shift8((((r >> 24) as u8 ^ b) as u32) << 24),
{
    assert(shift8(r ^ ((b as u32) << 24)) == (r << 8) ^ shift8((((r >> 24) as u8 ^ b) as u32) << 24))
        by (bit_vector);
}

/// The remainder that each possible top byte leaves.
fn table() -> (t: Vec<u32>)
    ensures
        t@.len() == 256,
        forall|i: int| 0 <= i < 256 ==> #[trigger] t@[i] == shift8((i as u32) << 24),
{
    let mut t: Vec<u32> = Vec::with_capacity(256);
    let mut i: u32 = 0;
    while i < 256
        invariant
            i <= 256,
            t@.len() == i,
            forall|k: int| 0 <= k < i ==> #[trigger] t@[k] == shift8((k as u32) << 24),
        decreases 256 - i,
    {
        let mut r: u32 = i << 24;
        let mut n: u32 = 0;
        assert(shift8(i << 24) == shift_times(r, 8)) by {
            reveal_with_fuel(shift_times, 9);
        }
        while n < 8
            invariant
                n <= 8,
                shift8(i << 24) == shift_times(r, (8 - n) as nat),
            decreases 8 - n,
        {
            r = if r & 0x8000_0000 != 0 {
                (r << 1) ^ 0x04c1_1db7
            } else {
                r << 1
            };
            n = n + 1;
        }
        t.push(r);
        i = i + 1;
    }
    t
}

/// `n` steps in a row.
pub open spec fn shift_times(r: u32, n: nat) -> u32
    decreases n,
{
    if n == 0 {
        r
    } else {
        shift_times(shift(r), (n - 1) as nat)
    }
}

proof fn lemma_feed_injective(r1: u32, r2: u32, b1: u8, b2: u8)
    ensures
        r1 != r2 ==> feed(r1, b1) != feed(r2, b1),
        b1 != b2 ==> feed(r1, b1) != feed(r1, b2),
{
    let (x1, x2, x3) = (r1 ^ ((b1 as u32) << 24), r2 ^ ((b1 as u32) << 24), r1 ^ ((b2 as u32) << 24));
    assert(r1 != r2 ==> r1 ^ ((b1 as u32) << 24) != r2 ^ ((b1 as u32) << 24)) by (bit_vector);
    assert(b1 != b2 ==> r1 ^ ((b1 as u32) << 24) != r1 ^ ((b2 as u32) << 24)) by (bit_vector);
    lemma_shift8_injective(x1, x2);
    lemma_shift8_injective(x1, x3);
}

proof fn lemma_shift8_injective(x: u32, y: u32)
    ensures
        x != y ==> shift8(x) != shift8(y),
{
    assert(x != y ==> shift8(x) != shift8(y)) by (bit_vector);
}

/// A checksum gives away any change confined to one byte: two messages of the same length
/// that differ at exactly one place never share a checksum.
pub proof fn law_crc_detects_one_byte(a: Seq<u8>, b: Seq<u8>, at: int)
    requires
        a.len() == b.len(),
        0 <= at < a.len(),
        a[at] != b[at],
        forall|i: int| 0 <= i < a.len() && i != at ==> a[i] == b[i],
    ensures
        crc(a) != crc(b),
    decreases a.len(),
{
    if at == a.len() - 1 {
        assert(a.drop_last() =~= b.drop_last());
        lemma_feed_injective(crc(a.drop_last()), crc(a.drop_last()), a.last(), b.last());
    } else {
        law_crc_detects_one_byte(a.drop_last(), b.drop_last(), at);
        lemma_feed_injective(crc(a.drop_last()), crc(b.drop_last()), a.last(), a.last());
    }
}

/// The checksum of a page.
pub fn crc32(data: &[u8]) -> (c: u32)
    ensures
        c == crc(data@),
{
    let t: Vec<u32> = table();
    let mut r: u32 = 0;
    let n: usize = data.len();
    let mut i: usize = 0;
    while i < n
        invariant
            n == data@.len(),
            i <= n,
            t@.len() == 256,
            forall|k: int| 0 <= k < 256 ==> #[trigger] t@[k] == shift8((k as u32) << 24),
            r == crc(data@.take(i as int)),
        decreases n - i,
    {
        let b: u8 = data[i];
        proof {
            lemma_table_step(r, b);
            assert(data@.take(i + 1).drop_last() =~= data@.take(i as int));
        }
        let top: u8 = (r >> 24) as u8;
        r = (r << 8) ^ t[(top ^ b) as usize];
        i = i + 1;
    }
    assert(data@.take(n as int) =~= data@);
    r
}

} // verus!
