//! Packets that run over several pages.
use crate::framing::{
    chain, framed, header_of, is_page, lacing_sum, lemma_lacing_sum_monotone, lemma_page_at_head,
    lemma_page_len_bound, lemma_run_end_bounds, page_len, payload_of, run_closes, run_end,
    table_of, LACING_MORE,
};
use crate::reassembly::{lemma_packets_from_page, lemma_read_packet_wf, StreamView};
use vstd::prelude::*;

verus! {

/// Every lacing value of `table` is 255: the table ends no packet.
pub open spec fn all_more(table: Seq<u8>) -> bool {
    forall|i: int| 0 <= i < table.len() ==> table[i] == LACING_MORE
}

/// The bytes of the fragment with which the page at the head of `b` begins.
pub open spec fn first_fragment(b: Seq<u8>) -> Seq<u8> {
    payload_of(b).take(lacing_sum(table_of(b).take(run_end(table_of(b), 0))) as int)
}

/// The pages of `pages` are whole pages of the logical stream `serial`, and
/// one packet runs through them: every page but the first continues it,
/// every page but the last holds lacing values of 255 only and is not the
/// last of its stream, and the last page begins with the fragment that ends
/// the packet.
pub open spec fn spans_packet(pages: Seq<Seq<u8>>, serial: u32) -> bool {
    &&& pages.len() >= 1
    &&& forall|i: int|
        0 <= i < pages.len() ==> {
            &&& is_page(#[trigger] pages[i])
            &&& header_of(pages[i]).stream_serial == serial
            &&& table_of(pages[i]).len() >= 1
        }
    &&& forall|i: int| 1 <= i < pages.len() ==> header_of(#[trigger] pages[i]).continued
    &&& forall|i: int|
        0 <= i < pages.len() - 1 ==> all_more(table_of(#[trigger] pages[i])) && !header_of(
            pages[i],
        ).eos
    &&& run_closes(table_of(pages.last()), 0)
}

/// The payload that the packet of `spans_packet` has on `pages`: all of the
/// payload of every page but the last, and the first fragment of the last.
pub open spec fn spanned(pages: Seq<Seq<u8>>) -> Seq<u8>
    decreases pages.len(),
{
    if pages.len() == 0 {
        Seq::empty()
    } else if pages.len() == 1 {
        first_fragment(pages[0])
    } else {
        payload_of(pages[0]) + spanned(pages.skip(1))
    }
}

/// In a table of 255s every fragment runs to the end and ends no packet.
pub proof fn lemma_all_more_run(table: Seq<u8>, from: int)
    requires
        all_more(table),
        0 <= from < table.len(),
    ensures
        run_end(table, from) == table.len(),
        !run_closes(table, from),
    decreases table.len() - from,
{
    if from + 1 < table.len() {
        lemma_all_more_run(table, from + 1);
    } else {
        assert(run_end(table, from + 1) == from + 1);
    }
}

/// A page of 255s only extends the open packet of its stream. The whole
/// payload goes behind what is held for the stream (behind nothing, where
/// the page does not continue a packet), and the search for the next packet
/// goes on behind the page.
pub proof fn lemma_page_extends_packet(s: StreamView)
    requires
        s.wf(),
        s.segment == 0,
        framed(s.buffer),
        table_of(s.buffer).len() >= 1,
        all_more(table_of(s.buffer)),
        !header_of(s.buffer).eos,
        header_of(s.buffer).continued ==> s.open.contains_key(s.serial()),
    ensures
        after_open_page(s).wf(),
        s.next_packet() == after_open_page(s).next_packet(),
{
    let table = table_of(s.buffer);
    let looked = s.recover();
    lemma_page_len_bound(s.buffer);
    lemma_all_more_run(table, 0);
    assert(s.seek_page() == looked);
    let (after, packet) = looked.read_packet();
    lemma_read_packet_wf(looked);
    assert(packet is None);
    assert(table.take(table.len() as int) =~= table);
    assert(table.take(0) =~= Seq::<u8>::empty());
    assert(lacing_sum(table.take(0)) == 0);
    assert(after.seek_page() == after.finish().seek_page());
    assert(after.finish() =~= after_open_page(s));
    lemma_packets_from_page(after, after.finish());
}

/// The state behind a page of 255s: the page dropped, its payload behind
/// what was held for its stream.
pub open spec fn after_open_page(s: StreamView) -> StreamView {
    StreamView {
        buffer: s.buffer.skip(page_len(s.buffer) as int),
        open: s.open.insert(s.serial(), prior(s) + payload_of(s.buffer)),
        segment: 0,
    }
}

/// What the page at the head continues: the open packet of its stream where
/// it says that it continues one, nothing where it does not.
pub open spec fn prior(s: StreamView) -> Seq<u8> {
    if header_of(s.buffer).continued {
        s.gathered(s.serial())
    } else {
        Seq::empty()
    }
}

/// A page that begins with the end of a packet hands the packet out: what
/// was held for the stream, then the first fragment of the page.
pub proof fn lemma_page_ends_packet(s: StreamView)
    requires
        s.wf(),
        s.segment == 0,
        framed(s.buffer),
        run_closes(table_of(s.buffer), 0),
        header_of(s.buffer).continued ==> s.open.contains_key(s.serial()),
    ensures
        s.next_packet().1 == Some((header_of(s.buffer), prior(s) + first_fragment(s.buffer))),
        s.next_packet().0 == (StreamView {
            buffer: s.buffer,
            open: s.open.remove(s.serial()),
            segment: run_end(table_of(s.buffer), 0) as nat,
        }),
{
    let table = table_of(s.buffer);
    let looked = s.recover();
    lemma_page_len_bound(s.buffer);
    lemma_run_end_bounds(table, 0);
    let end = run_end(table, 0);
    lemma_lacing_sum_monotone(table, 0, end);
    lemma_lacing_sum_monotone(table, end, table.len() as int);
    assert(table.take(table.len() as int) =~= table);
    assert(table.take(0) =~= Seq::<u8>::empty());
    assert(lacing_sum(table.take(0)) == 0);
    assert(s.seek_page() == looked);
    let from = crate::framing::payload_offset(s.buffer, 0) as int;
    let to = crate::framing::payload_offset(s.buffer, end) as int;
    assert(s.buffer.subrange(from, to) =~= first_fragment(s.buffer));
    assert(looked.read_packet().0.open =~= s.open.remove(s.serial()));
}

/// Behind the first of several pages that one packet runs through, the
/// packet runs through the others.
proof fn lemma_spans_packet_tail(pages: Seq<Seq<u8>>, serial: u32)
    requires
        spans_packet(pages, serial),
        pages.len() >= 2,
    ensures
        spans_packet(pages.skip(1), serial),
        header_of(pages.skip(1)[0]).continued,
        header_of(pages.skip(1)[0]).stream_serial == serial,
        pages.skip(1).last() == pages.last(),
        chain(pages) == pages[0] + chain(pages.skip(1)),
        spanned(pages) == payload_of(pages[0]) + spanned(pages.skip(1)),
{
    let tail = pages.skip(1);
    assert forall|i: int| 0 <= i < tail.len() implies {
        &&& is_page(#[trigger] tail[i])
        &&& header_of(tail[i]).stream_serial == serial
        &&& table_of(tail[i]).len() >= 1
    } by {
        assert(tail[i] == pages[i + 1]);
    }
    assert forall|i: int| 1 <= i < tail.len() implies header_of(#[trigger] tail[i]).continued by {
        assert(tail[i] == pages[i + 1]);
    }
    assert forall|i: int| 0 <= i < tail.len() - 1 implies all_more(table_of(#[trigger] tail[i]))
        && !header_of(tail[i]).eos by {
        assert(tail[i] == pages[i + 1]);
    }
    assert(tail.last() == pages.last());
    assert(tail[0] == pages[1]);
}

/// The first fragment of a page is the same whatever follows the page.
proof fn lemma_chain_head(first: Seq<u8>, behind: Seq<u8>)
    requires
        is_page(first),
    ensures
        framed(first + behind),
        header_of(first + behind) == header_of(first),
        table_of(first + behind) == table_of(first),
        page_len(first + behind) == first.len(),
        payload_of(first + behind) == payload_of(first),
        first_fragment(first + behind) == first_fragment(first),
        (first + behind).skip(first.len() as int) == behind,
{
    lemma_page_at_head(first, behind);
}

/// A packet laid over several pages comes out whole. Let one packet run
/// through `pages` (255s on every page but the last, the final lacing value
/// on the last), and let the stream stand before the first of them. Then
/// the next packet to come out is that packet, with the header of the last
/// page: the payloads of the pages in order, up to the end of the fragment
/// that closes it. Where the first page continues an open packet of the
/// stream, what was held goes in front.
pub proof fn lemma_packet_over_pages(s: StreamView, pages: Seq<Seq<u8>>, rest: Seq<u8>)
    requires
        s.wf(),
        s.segment == 0,
        spans_packet(pages, header_of(pages[0]).stream_serial),
        s.buffer == chain(pages) + rest,
        header_of(pages[0]).continued ==> s.open.contains_key(header_of(pages[0]).stream_serial),
    ensures
        s.next_packet().1 == Some(
            (
                header_of(pages.last()),
                (if header_of(pages[0]).continued {
                    s.open[header_of(pages[0]).stream_serial]
                } else {
                    Seq::empty()
                }) + spanned(pages),
            ),
        ),
        s.next_packet().0 == (StreamView {
            buffer: pages.last() + rest,
            open: s.open.remove(header_of(pages[0]).stream_serial),
            segment: run_end(table_of(pages.last()), 0) as nat,
        }),
    decreases pages.len(),
{
    let serial = header_of(pages[0]).stream_serial;
    let first = pages[0];
    let tail = pages.skip(1);
    assert(is_page(first));
    if pages.len() == 1 {
        assert(tail.len() == 0);
        assert(chain(tail) =~= Seq::<u8>::empty());
        assert(s.buffer =~= first + rest);
        lemma_chain_head(first, rest);
        lemma_page_ends_packet(s);
    } else {
        lemma_spans_packet_tail(pages, serial);
        let behind = chain(tail) + rest;
        assert(s.buffer =~= first + behind);
        lemma_chain_head(first, behind);
        lemma_page_extends_packet(s);
        let after = after_open_page(s);
        assert(after.buffer == behind);
        assert(after.open.contains_key(serial));
        lemma_packet_over_pages(after, tail, rest);
        assert(after.open.remove(serial) =~= s.open.remove(serial));
        assert(after.open[serial] == prior(s) + payload_of(first));
        assert((prior(s) + payload_of(first)) + spanned(tail) =~= prior(s) + (payload_of(first)
            + spanned(tail)));
    }
}

} // verus!
