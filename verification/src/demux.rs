//! What a reader of the container finds in a file, and why nothing is lost in one.
//!
//! Nothing here runs: it is the other side of [`crate::ogg`], the rules by which a player
//! takes pages and packets apart again, and the proofs that those rules recover exactly what
//! was put in.

use crate::{bytes, crc, ogg};
use vstd::prelude::*;

verus! {

/// How many bytes the segments of a table hold together.
pub open spec fn segment_sum(table: Seq<u8>) -> nat
    decreases table.len(),
{
    if table.len() == 0 {
        0
    } else {
        table[0] as nat + segment_sum(table.drop_first())
    }
}

/// The packets that a segment table cuts a page body into. `open` is the packet under
/// construction: a segment of 255 bytes continues it, a shorter one ends it.
pub open spec fn unlaced(table: Seq<u8>, body: Seq<u8>, open: Seq<u8>) -> Seq<Seq<u8>>
    decreases table.len(),
{
    if table.len() == 0 {
        Seq::empty()
    } else {
        let n = table[0] as int;
        let grown = open + body.take(n);
        if n < 255 {
            seq![grown] + unlaced(table.drop_first(), body.skip(n), Seq::empty())
        } else {
            unlaced(table.drop_first(), body.skip(n), grown)
        }
    }
}

/// The page at the front of `b` and what follows it; nothing where `b` does not start with a
/// whole page whose checksum is right.
pub open spec fn read_page(b: Seq<u8>) -> Option<(ogg::Page, Seq<u8>)> {
    if b.len() < 27 || b.len() < 27 + b[26] as int {
        None
    } else {
        let n = b[26] as int;
        let table = b.subrange(27, 27 + n);
        let size = 27 + n + segment_sum(table);
        if b.len() < size {
            None
        } else {
            let whole = b.take(size);
            let blank = whole.take(22) + bytes::le(0, 4) + whole.skip(26);
            if whole.take(4) == bytes::ascii("OggS"@) && whole[4] == 0 && bytes::le_value(
                whole.subrange(22, 26),
            ) == crc::crc(blank) {
                Some(
                    (
                        ogg::Page {
                            kind: whole[5],
                            granule: bytes::le_value(whole.subrange(6, 14)),
                            serial: bytes::le_value(whole.subrange(14, 18)),
                            seq: bytes::le_value(whole.subrange(18, 22)),
                            packets: unlaced(table, whole.skip(27 + n), Seq::empty()),
                        },
                        b.skip(size),
                    ),
                )
            } else {
                None
            }
        }
    }
}

/// All pages of a file; nothing where it is not made of whole pages with right checksums.
pub open spec fn read_pages(b: Seq<u8>) -> Option<Seq<ogg::Page>>
    decreases b.len(),
{
    if b.len() == 0 {
        Some(Seq::empty())
    } else {
        match read_page(b) {
            None => None,
            Some((p, rest)) => if rest.len() < b.len() {
                match read_pages(rest) {
                    None => None,
                    Some(ps) => Some(seq![p] + ps),
                }
            } else {
                None
            },
        }
    }
}

/// A page whose numbers fit their fields.
pub open spec fn page_ok(p: ogg::Page) -> bool {
    &&& ogg::lacing(p.packets).len() <= ogg::MAX_SEGMENTS
    &&& p.granule <= u64::MAX
    &&& p.serial <= u32::MAX
    &&& p.seq <= u32::MAX
}

proof fn lemma_lace_front(n: nat)
    requires
        n >= 255,
    ensures
        ogg::lace(n)[0] == 255,
        ogg::lace(n).drop_first() == ogg::lace((n - 255) as nat),
{
    assert(n / 255 == (n - 255) as nat / 255 + 1);
    assert(ogg::lace(n).drop_first() =~= ogg::lace((n - 255) as nat));
}

/// Reading one packet off the front, when `done` of it is already in hand.
proof fn lemma_unlace_one(p: Seq<u8>, done: Seq<u8>, table: Seq<u8>, body: Seq<u8>)
    ensures
        unlaced(ogg::lace(p.len()) + table, p + body, done) == seq![done + p] + unlaced(
            table,
            body,
            Seq::empty(),
        ),
        segment_sum(ogg::lace(p.len()) + table) == p.len() + segment_sum(table),
    decreases p.len(),
{
    let t = ogg::lace(p.len()) + table;
    if p.len() >= 255 {
        lemma_lace_front(p.len());
        let tail = p.skip(255);
        assert(t.drop_first() =~= ogg::lace(tail.len()) + table);
        assert((p + body).take(255) =~= p.take(255));
        assert((p + body).skip(255) =~= tail + body);
        lemma_unlace_one(tail, done + p.take(255), table, body);
        assert(done + p.take(255) + tail =~= done + p);
    } else {
        assert(ogg::lace(p.len()) =~= seq![p.len() as u8]);
        assert(t.drop_first() =~= table);
        assert((p + body).take(p.len() as int) =~= p);
        assert((p + body).skip(p.len() as int) =~= body);
    }
}

/// The segment table says where every packet ends: a reader cuts a page body into exactly
/// the packets that went in, whatever their lengths, empty packets and multiples of 255
/// included.
pub proof fn law_lacing_recovers_packets(packets: Seq<Seq<u8>>)
    ensures
        unlaced(ogg::lacing(packets), ogg::joined(packets), Seq::empty()) == packets,
        segment_sum(ogg::lacing(packets)) == ogg::joined(packets).len(),
    decreases packets.len(),
{
    if packets.len() == 0 {
        assert(unlaced(Seq::empty(), Seq::empty(), Seq::empty()) =~= packets);
    } else {
        let rest = packets.drop_first();
        law_lacing_recovers_packets(rest);
        lemma_unlace_one(packets[0], Seq::empty(), ogg::lacing(rest), ogg::joined(rest));
        assert(Seq::<u8>::empty() + packets[0] =~= packets[0]);
        assert(seq![packets[0]] + rest =~= packets);
    }
}

/// A page reads back as itself, whatever follows it in the file: the checksum is accepted,
/// every field keeps its value, and the packets come out as they went in.
pub proof fn law_page_reads_back(p: ogg::Page, rest: Seq<u8>)
    requires
        page_ok(p),
    ensures
        read_page(ogg::page_bytes(p) + rest) == Some((p, rest)),
{
    let sum = crc::crc(ogg::page_with(p, 0)) as nat;
    let whole = ogg::page_bytes(p);
    let b = whole + rest;
    let t = ogg::lacing(p.packets);
    ogg::lemma_page_parts(p, 0);
    ogg::lemma_page_parts(p, sum);
    bytes::lemma_le_limits();
    bytes::law_le_round_trip(p.granule, 8);
    bytes::law_le_round_trip(p.serial, 4);
    bytes::law_le_round_trip(p.seq, 4);
    bytes::law_le_round_trip(sum, 4);
    bytes::lemma_le_len(sum, 4);
    law_lacing_recovers_packets(p.packets);
    assert(b[26] == whole[26]);
    assert(b.subrange(27, 27 + t.len() as int) =~= t) by {
        assert(whole.subrange(27, 27 + t.len() as int) == t);
        assert(b.subrange(27, 27 + t.len() as int) =~= whole.subrange(27, 27 + t.len() as int));
    }
    assert(b.take(whole.len() as int) =~= whole);
    assert(b.skip(whole.len() as int) =~= rest);
    assert(whole.take(4) =~= whole.subrange(0, 4));
    assert(whole.skip(27 + t.len() as int) =~= whole.subrange(
        27 + t.len() as int,
        whole.len() as int,
    ));
    let zero = ogg::page_with(p, 0);
    assert(whole.take(22) + bytes::le(0, 4) + whole.skip(26) =~= zero) by {
        assert(whole.take(22) =~= zero.take(22));
        assert(whole.skip(26) =~= zero.skip(26));
        assert(zero.subrange(22, 26) == bytes::le(0, 4));
        assert(zero =~= zero.take(22) + zero.subrange(22, 26) + zero.skip(26));
    }
}

/// A file reads back as the list of pages that it was made of.
#[verifier::spinoff_prover]
pub proof fn law_pages_read_back(pages: Seq<ogg::Page>)
    requires
        forall|i: int| 0 <= i < pages.len() ==> page_ok(#[trigger] pages[i]),
    ensures
        read_pages(ogg::pages_bytes(pages)) == Some(pages),
    decreases pages.len(),
{
    if pages.len() == 0 {
        assert(pages =~= Seq::empty());
    } else {
        let rest = ogg::pages_bytes(pages.drop_first());
        assert forall|i: int| 0 <= i < pages.drop_first().len() implies page_ok(
            #[trigger] pages.drop_first()[i],
        ) by {
            assert(page_ok(pages[i + 1]));
        }
        law_pages_read_back(pages.drop_first());
        law_page_reads_back(pages[0], rest);
        ogg::lemma_page_parts(pages[0], crc::crc(ogg::page_with(pages[0], 0)) as nat);
        assert(seq![pages[0]] + pages.drop_first() =~= pages);
    }
}

/// The packets of several pages, in order.
pub open spec fn page_packets(pages: Seq<ogg::Page>) -> Seq<Seq<u8>>
    decreases pages.len(),
{
    if pages.len() == 0 {
        Seq::empty()
    } else {
        pages[0].packets + page_packets(pages.drop_first())
    }
}

/// How many 48 kHz samples a player plays of a file: up to the last granule position, without
/// as many at the start as the opening packet tells it to skip.
pub open spec fn played(pages: Seq<ogg::Page>) -> int {
    pages.last().granule - bytes::le_value(pages[0].packets[0].subrange(10, 12))
}

/// How an audio page lies in its stream.
pub open spec fn placed(
    pages: Seq<ogg::Page>,
    k: int,
    s: ogg::Stream,
    from: nat,
    seq: nat,
) -> bool {
    let p = pages[k];
    &&& p.seq == seq + k
    &&& p.serial == ogg::SERIAL
    &&& p.packets.len() > 0
    &&& ogg::lacing(p.packets).len() <= ogg::MAX_SEGMENTS
    &&& p.packets.len() == 1 || ogg::joined(p.packets).len() <= ogg::SOFT_BYTES
    &&& if k == pages.len() - 1 {
        p.kind == ogg::LAST && p.granule == s.final_granule
    } else {
        &&& p.kind == 0
        &&& p.granule == (from + page_packets(pages.take(k + 1)).len())
            * s.samples_per_packet
        &&& !ogg::fits(p.packets.push(pages[k + 1].packets[0]))
    }
}

/// What holds of the audio pages of every stream. Each packet lies on exactly one page, whole
/// and in order. Pages are numbered without a gap. No page is empty or has more segments than
/// the format allows, and only a page with a single packet exceeds the soft limit. Every page
/// but the last is full: the packet that comes next would not have fit. The granule position
/// of a page counts the samples of all packets up to its end, and the last page ends the
/// stream at the position that trims the padding.
pub proof fn law_audio_pages(packets: Seq<Seq<u8>>, s: ogg::Stream, from: nat, seq: nat)
    requires
        from <= packets.len(),
        forall|i: int|
            0 <= i < packets.len() ==> #[trigger] ogg::lace(packets[i].len()).len()
                <= ogg::MAX_SEGMENTS,
    ensures
        page_packets(ogg::audio_pages(packets, s, from, seq)) == packets.skip(from as int),
        forall|k: int|
            0 <= k < ogg::audio_pages(packets, s, from, seq).len() ==> #[trigger] placed(
                ogg::audio_pages(packets, s, from, seq),
                k,
                s,
                from,
                seq,
            ),
    decreases packets.len() - from,
{
    let pages = ogg::audio_pages(packets, s, from, seq);
    if from == packets.len() {
        assert(page_packets(pages) =~= packets.skip(from as int));
    } else {
        let to = ogg::cut(packets, from);
        ogg::lemma_grow(packets, from, from + 1);
        law_audio_pages(packets, s, to, seq + 1);
        let rest = ogg::audio_pages(packets, s, to, seq + 1);
        let first = pages[0];
        assert(pages =~= seq![first] + rest);
        assert(pages.drop_first() =~= rest);
        assert(first.packets == packets.subrange(from as int, to as int));
        assert(page_packets(pages) =~= packets.skip(from as int));
        assert forall|k: int| 0 <= k < pages.len() implies #[trigger] placed(
            pages,
            k,
            s,
            from,
            seq,
        ) by {
            assert(pages.take(k + 1).drop_first() =~= rest.take(k));
            if k == 0 {
                if to == from + 1 {
                    assert(first.packets =~= seq![packets[from as int]]);
                    ogg::lemma_single(packets[from as int]);
                    assert(ogg::lace(packets[from as int].len()).len() <= ogg::MAX_SEGMENTS);
                }
                if to < packets.len() {
                    ogg::lemma_grow(packets, to, to + 1);
                    assert(rest.len() > 0);
                    assert(pages[1] == rest[0]);
                    assert(pages[1].packets[0] == packets[to as int]);
                    assert(first.packets.push(packets[to as int]) =~= packets.subrange(
                        from as int,
                        to as int + 1,
                    ));
                    assert(page_packets(rest.take(0)) =~= Seq::empty());
                    assert(page_packets(pages.take(1)) =~= first.packets);
                } else {
                    assert(rest.len() == 0);
                }
            } else {
                assert(placed(rest, k - 1, s, to, seq + 1));
                assert(pages[k] == rest[k - 1]);
                if k < pages.len() - 1 {
                    assert(pages[k + 1] == rest[k]);
                    assert(page_packets(pages.take(k + 1)).len() == first.packets.len()
                        + page_packets(rest.take(k)).len());
                }
            }
        }
    }
}

/// A file gives back what was put into it: a reader finds the opening packet, the packet that
/// names the encoder and then every audio packet, whole and in order, on pages that all pass
/// their checksums and are numbered from zero.
#[verifier::spinoff_prover]
pub proof fn law_file_reads_back(packets: Seq<Seq<u8>>, s: ogg::Stream, vendor: Seq<u8>)
    requires
        ogg::writable(packets, s, vendor),
    ensures
        ({
            let pages = ogg::file_pages(packets, s, vendor);
            &&& read_pages(ogg::pages_bytes(pages)) == Some(pages)
            &&& page_packets(pages) == seq![ogg::head(s), ogg::tags(vendor)] + packets
            &&& forall|k: int| 0 <= k < pages.len() ==> (#[trigger] pages[k]).seq == k
        }),
{
    let pages = ogg::file_pages(packets, s, vendor);
    let audio = ogg::audio_pages(packets, s, 0, 2);
    law_audio_pages(packets, s, 0, 2);
    ogg::lemma_single(ogg::head(s));
    ogg::lemma_single(ogg::tags(vendor));
    ogg::lemma_head_len(s);
    assert forall|k: int| 0 <= k < pages.len() implies page_ok(#[trigger] pages[k]) && pages[k].seq
        == k by {
        if k >= 2 {
            assert(pages[k] == audio[k - 2]);
            assert(placed(audio, k - 2, s, 0, 2));
        }
    }
    law_pages_read_back(pages);
    assert(pages.drop_first().drop_first() =~= audio);
    assert(page_packets(pages) == pages[0].packets + page_packets(pages.drop_first()));
    assert(page_packets(pages.drop_first()) == pages[1].packets + page_packets(audio));
    assert(page_packets(pages) =~= seq![ogg::head(s), ogg::tags(vendor)] + packets);
}

} // verus!
