//! Logical streams that share a container do not disturb one another.
use crate::framing::{
    chain, framed, header_of, is_page, junk_len, lemma_framed_same_page, lemma_lacing_sum_monotone,
    lemma_page_at_head, lemma_page_len_bound, lemma_run_end_bounds, page_len, run_end, table_of,
};
use crate::reassembly::{
    lemma_next_packet_progress, lemma_read_packet_progress, lemma_read_packet_wf,
    lemma_seek_page_wf, StreamView,
};
use vstd::prelude::*;

verus! {

/// Every packet of the logical stream `serial` that the staged bytes still
/// give, in order.
pub open spec fn packets_of(s: StreamView, serial: u32) -> Seq<Seq<u8>>
    decreases s.buffer.len(), s.unread(),
    via packets_of_decreases
{
    if !s.wf() {
        Seq::empty()
    } else {
        match s.next_packet().1 {
            Some((page, bytes)) => (if page.stream_serial == serial {
                seq![bytes]
            } else {
                Seq::empty()
            }) + packets_of(s.next_packet().0, serial),
            None => Seq::empty(),
        }
    }
}

#[via_fn]
proof fn packets_of_decreases(s: StreamView, serial: u32) {
    if s.wf() {
        lemma_next_packet_progress(s);
    }
}

/// The state once the page at the head is read through and left behind.
pub open spec fn leave_page(s: StreamView) -> StreamView
    decreases s.unread(),
    via leave_page_decreases
{
    if !framed(s.buffer) {
        s
    } else if s.segment >= s.segment_count() {
        s.finish()
    } else {
        let looked = if s.segment == 0 {
            s.recover()
        } else {
            s
        };
        if looked.segment >= looked.segment_count() {
            looked.finish()
        } else {
            leave_page(looked.read_packet().0)
        }
    }
}

#[via_fn]
proof fn leave_page_decreases(s: StreamView) {
    if framed(s.buffer) && s.segment < s.segment_count() {
        let looked = if s.segment == 0 {
            s.recover()
        } else {
            s
        };
        if looked.segment < looked.segment_count() {
            lemma_read_packet_progress(looked);
        }
    }
}

/// `s` and `t` cannot be told apart by the logical stream `serial`: they
/// have the same bytes staged and hold the same for `serial`, and they
/// stand at the same segment unless the page at the head is not one of
/// `serial`.
pub open spec fn alike_for(s: StreamView, t: StreamView, serial: u32) -> bool {
    &&& s.wf()
    &&& t.wf()
    &&& s.buffer == t.buffer
    &&& s.open.contains_key(serial) == t.open.contains_key(serial)
    &&& s.open.contains_key(serial) ==> s.open[serial] == t.open[serial]
    &&& s.segment == t.segment || (framed(s.buffer) && header_of(s.buffer).stream_serial
        != serial)
}

/// Two states whose scanners stop in the same state give the same packets
/// of every logical stream.
proof fn lemma_packets_of_from_page(s: StreamView, t: StreamView, serial: u32)
    requires
        s.wf(),
        t.wf(),
        s.seek_page() == t.seek_page(),
    ensures
        packets_of(s, serial) == packets_of(t, serial),
{
}

/// A page of another logical stream gives `serial` nothing and takes
/// nothing from it: the packets of `serial` are those that come once the
/// page is left behind, and what is held for `serial` is held then as
/// before.
pub proof fn lemma_leave_foreign_page(s: StreamView, serial: u32)
    requires
        s.wf(),
        framed(s.buffer),
        header_of(s.buffer).stream_serial != serial,
    ensures
        packets_of(s, serial) == packets_of(leave_page(s), serial),
        leave_page(s).wf(),
        leave_page(s).buffer == s.buffer.skip(page_len(s.buffer) as int),
        leave_page(s).segment == 0,
        leave_page(s).open.contains_key(serial) == s.open.contains_key(serial),
        s.open.contains_key(serial) ==> leave_page(s).open[serial] == s.open[serial],
    decreases s.unread(),
{
    lemma_page_len_bound(s.buffer);
    lemma_seek_page_wf(s);
    if s.segment >= s.segment_count() {
        lemma_packets_of_from_page(s, s.finish(), serial);
    } else {
        let looked = if s.segment == 0 {
            s.recover()
        } else {
            s
        };
        if s.segment == 0 {
            lemma_run_end_bounds(table_of(s.buffer), 0);
        }
        if looked.segment >= looked.segment_count() {
            lemma_packets_of_from_page(s, looked.finish(), serial);
        } else {
            assert(s.seek_page() == looked);
            lemma_read_packet_progress(looked);
            lemma_read_packet_wf(looked);
            let (after, packet) = looked.read_packet();
            lemma_leave_foreign_page(after, serial);
            lemma_next_packet_progress(s);
            match packet {
                Some(bytes) => {
                    assert(s.next_packet() == (after, Some((header_of(looked.buffer), bytes))));
                    assert(packets_of(s, serial) =~= packets_of(after, serial));
                },
                None => {
                    assert(s.next_packet() == after.next_packet());
                },
            }
        }
    }
}

/// What is held for other logical streams does not matter to `serial`, nor
/// how far a page of another stream has been read: two states that are
/// alike for `serial` give the same packets of `serial`.
#[verifier::rlimit(40)]
pub proof fn lemma_alike_packets(s: StreamView, t: StreamView, serial: u32)
    requires
        alike_for(s, t, serial),
    ensures
        packets_of(s, serial) == packets_of(t, serial),
    decreases s.buffer.len(), s.unread(),
{
    let junk = junk_len(s.buffer);
    lemma_seek_page_wf(s);
    lemma_seek_page_wf(t);
    if junk > 0 {
        lemma_packets_of_from_page(s, s.discard(junk), serial);
        lemma_packets_of_from_page(t, t.discard(junk), serial);
        lemma_alike_packets(s.discard(junk), t.discard(junk), serial);
    } else if !framed(s.buffer) {
    } else if header_of(s.buffer).stream_serial != serial {
        lemma_page_len_bound(s.buffer);
        lemma_leave_foreign_page(s, serial);
        lemma_leave_foreign_page(t, serial);
        lemma_alike_packets(leave_page(s), leave_page(t), serial);
    } else {
        lemma_page_len_bound(s.buffer);
        if s.segment >= s.segment_count() {
            lemma_packets_of_from_page(s, s.finish(), serial);
            lemma_packets_of_from_page(t, t.finish(), serial);
            lemma_alike_packets(s.finish(), t.finish(), serial);
        } else {
            let looked_s = if s.segment == 0 {
                s.recover()
            } else {
                s
            };
            let looked_t = if t.segment == 0 {
                t.recover()
            } else {
                t
            };
            if s.segment == 0 {
                lemma_run_end_bounds(table_of(s.buffer), 0);
            }
            assert(alike_for(looked_s, looked_t, serial));
            if looked_s.segment >= looked_s.segment_count() {
                lemma_packets_of_from_page(s, looked_s.finish(), serial);
                lemma_packets_of_from_page(t, looked_t.finish(), serial);
                lemma_alike_packets(looked_s.finish(), looked_t.finish(), serial);
            } else {
                assert(s.seek_page() == looked_s);
                assert(t.seek_page() == looked_t);
                lemma_read_packet_progress(looked_s);
                lemma_read_packet_progress(looked_t);
                lemma_read_packet_wf(looked_s);
                lemma_read_packet_wf(looked_t);
                let (after_s, packet_s) = looked_s.read_packet();
                let (after_t, packet_t) = looked_t.read_packet();
                assert(packet_s == packet_t);
                assert(alike_for(after_s, after_t, serial));
                lemma_alike_packets(after_s, after_t, serial);
                if packet_s is None {
                    assert(s.next_packet() == after_s.next_packet());
                    assert(t.next_packet() == after_t.next_packet());
                }
            }
        }
    }
}

/// A page of another logical stream does not show. Where the page at the
/// head belongs to a logical stream other than `serial`, whatever it holds
/// and whether or not it is the last of its stream, the packets of `serial`
/// are those that come with the page taken out.
pub proof fn lemma_foreign_page_is_invisible(s: StreamView, serial: u32)
    requires
        s.wf(),
        s.segment == 0,
        framed(s.buffer),
        header_of(s.buffer).stream_serial != serial,
    ensures
        packets_of(s, serial) == packets_of(
            s.with_buffer(s.buffer.skip(page_len(s.buffer) as int)),
            serial,
        ),
{
    lemma_leave_foreign_page(s, serial);
    lemma_alike_packets(
        leave_page(s),
        s.with_buffer(s.buffer.skip(page_len(s.buffer) as int)),
        serial,
    );
}

/// A stream that stands before the first byte of `buffer` and holds `open`.
pub open spec fn before(buffer: Seq<u8>, open: Map<u32, Seq<u8>>) -> StreamView {
    StreamView { buffer, open, segment: 0 }
}

/// Whatever is held when they are reached, the bytes `a` and the bytes `b`
/// give the same packets of `serial`.
pub open spec fn same_for(a: Seq<u8>, b: Seq<u8>, serial: u32) -> bool {
    forall|open: Map<u32, Seq<u8>>|
        packets_of(#[trigger] before(a, open), serial) == packets_of(before(b, open), serial)
}

/// `s` and `t` stand at the same segment of the same page and hold the same
/// open packets; what follows the page may differ.
pub open spec fn on_same_page(s: StreamView, t: StreamView) -> bool {
    let len = page_len(s.buffer) as int;
    &&& s.wf()
    &&& t.wf()
    &&& framed(s.buffer)
    &&& t.buffer.len() >= len
    &&& t.buffer.take(len) == s.buffer.take(len)
    &&& s.open == t.open
    &&& s.segment == t.segment
}

/// What a page gives does not depend on what follows it: two streams on the
/// same page, followed by bytes that give the same packets of `serial`,
/// give the same packets of `serial`.
#[verifier::rlimit(40)]
pub proof fn lemma_packets_of_behind_page(s: StreamView, t: StreamView, serial: u32)
    requires
        on_same_page(s, t),
        same_for(
            s.buffer.skip(page_len(s.buffer) as int),
            t.buffer.skip(page_len(s.buffer) as int),
            serial,
        ),
    ensures
        packets_of(s, serial) == packets_of(t, serial),
    decreases s.unread(),
{
    let len = page_len(s.buffer) as int;
    lemma_page_len_bound(s.buffer);
    lemma_framed_same_page(s.buffer, t.buffer);
    lemma_seek_page_wf(s);
    lemma_seek_page_wf(t);
    let fresh = s.segment == 0 && s.segment < s.segment_count();
    let looked_s = if fresh {
        s.recover()
    } else {
        s
    };
    let looked_t = if fresh {
        t.recover()
    } else {
        t
    };
    if fresh {
        lemma_run_end_bounds(table_of(s.buffer), 0);
    }
    assert(on_same_page(looked_s, looked_t));
    if looked_s.segment >= looked_s.segment_count() {
        let left_s = looked_s.finish();
        let left_t = looked_t.finish();
        assert(s.seek_page() == left_s.seek_page());
        assert(t.seek_page() == left_t.seek_page());
        lemma_packets_of_from_page(s, left_s, serial);
        lemma_packets_of_from_page(t, left_t, serial);
        assert(left_s == before(s.buffer.skip(len), left_s.open));
        assert(left_t == before(t.buffer.skip(len), left_s.open));
    } else {
        assert(s.seek_page() == looked_s);
        assert(t.seek_page() == looked_t);
        lemma_read_packet_progress(looked_s);
        lemma_read_packet_progress(looked_t);
        lemma_read_packet_wf(looked_s);
        lemma_read_packet_wf(looked_t);
        let (after_s, packet_s) = looked_s.read_packet();
        let (after_t, packet_t) = looked_t.read_packet();
        let table = table_of(s.buffer);
        let end = run_end(table, looked_s.segment as int);
        lemma_run_end_bounds(table, looked_s.segment as int);
        lemma_lacing_sum_monotone(table, looked_s.segment as int, end);
        lemma_lacing_sum_monotone(table, end, table.len() as int);
        assert(table.take(table.len() as int) =~= table);
        assert(packet_s == packet_t);
        assert(after_s.open =~= after_t.open);
        assert(on_same_page(after_s, after_t));
        lemma_packets_of_behind_page(after_s, after_t, serial);
        if packet_s is None {
            assert(s.next_packet() == after_s.next_packet());
            assert(t.next_packet() == after_t.next_packet());
        }
    }
}

/// The pages of `pages` that belong to the logical stream `serial`, in
/// their order.
pub open spec fn own_pages(pages: Seq<Seq<u8>>, serial: u32) -> Seq<Seq<u8>>
    decreases pages.len(),
{
    if pages.len() == 0 {
        Seq::empty()
    } else if header_of(pages[0]).stream_serial == serial {
        seq![pages[0]] + own_pages(pages.skip(1), serial)
    } else {
        own_pages(pages.skip(1), serial)
    }
}

/// Logical streams that share a container do not disturb one another. Let
/// the staged bytes be whole pages of any logical streams, in any order,
/// and behind them any bytes. Then the packets of `serial` that come out
/// are those that come out of the pages of `serial` alone: the pages of
/// the other streams, what they hold, and whether and where those streams
/// end, make no difference.
pub proof fn lemma_streams_are_isolated(
    s: StreamView,
    pages: Seq<Seq<u8>>,
    rest: Seq<u8>,
    serial: u32,
)
    requires
        s.wf(),
        s.segment == 0,
        forall|i: int| 0 <= i < pages.len() ==> is_page(#[trigger] pages[i]),
        s.buffer == chain(pages) + rest,
    ensures
        packets_of(s, serial) == packets_of(
            s.with_buffer(chain(own_pages(pages, serial)) + rest),
            serial,
        ),
    decreases pages.len(),
{
    if pages.len() == 0 {
        assert(s.with_buffer(chain(own_pages(pages, serial)) + rest) =~= s);
    } else {
        let first = pages[0];
        let tail = pages.skip(1);
        let behind = chain(tail) + rest;
        let own_behind = chain(own_pages(tail, serial)) + rest;
        assert(is_page(first));
        assert forall|i: int| 0 <= i < tail.len() implies is_page(#[trigger] tail[i]) by {
            assert(tail[i] == pages[i + 1]);
        }
        assert(s.buffer =~= first + behind);
        lemma_page_at_head(first, behind);
        // Behind the first page the claim holds whatever is held there.
        assert forall|open: Map<u32, Seq<u8>>|
            packets_of(#[trigger] before(behind, open), serial) == packets_of(
                before(own_behind, open),
                serial,
            ) by {
            lemma_streams_are_isolated(before(behind, open), tail, rest, serial);
            assert(before(behind, open).with_buffer(own_behind) == before(own_behind, open));
        }
        if header_of(first).stream_serial == serial {
            let own = own_pages(pages, serial);
            assert(own.skip(1) =~= own_pages(tail, serial));
            assert(chain(own) + rest =~= first + own_behind);
            lemma_page_at_head(first, own_behind);
            let t = s.with_buffer(first + own_behind);
            assert(on_same_page(s, t));
            lemma_packets_of_behind_page(s, t, serial);
        } else {
            lemma_foreign_page_is_invisible(s, serial);
            assert(s.with_buffer(s.buffer.skip(page_len(s.buffer) as int)) == before(
                behind,
                s.open,
            ));
            assert(s.with_buffer(own_behind) == before(own_behind, s.open));
        }
    }
}

} // verus!
