//! Recovery of the scanner from bytes that are no page.
use crate::framing::{
    captured, framed, junk_len, lemma_framed_same_page, lemma_page_len_bound,
    lemma_run_end_bounds, page_len, table_of,
};
use crate::reassembly::{
    lemma_next_packet_progress, lemma_packets_from_page, lemma_read_packet_progress,
    lemma_read_packet_wf, lemma_seek_page_wf, StreamView,
};
use vstd::prelude::*;

verus! {

/// The capture pattern begins at none of the first `upto` offsets of `b`.
pub open spec fn no_capture(b: Seq<u8>, upto: int) -> bool {
    forall|i: int| 0 <= i < upto ==> !captured(#[trigger] b.skip(i))
}

/// The scanner steps over bytes that hold no capture pattern. Where the
/// pattern begins at none of the first `junk` staged bytes, and at least
/// three bytes follow them, the scanner ends where it would have ended
/// without them.
pub proof fn lemma_junk_is_skipped(s: StreamView, junk: nat)
    requires
        s.wf(),
        junk + 3 <= s.buffer.len(),
        no_capture(s.buffer, junk as int),
    ensures
        s.seek_page() == s.discard(junk).seek_page(),
        junk > 0 ==> s.segment == 0,
    decreases junk,
{
    if junk == 0 {
        assert(s.discard(0) =~= s);
    } else {
        assert(s.buffer.skip(0) =~= s.buffer);
        assert(junk_len(s.buffer) == 1);
        let rest = s.discard(1);
        assert forall|i: int| 0 <= i < junk - 1 implies !captured(#[trigger] rest.buffer.skip(i)) by {
            assert(rest.buffer.skip(i) =~= s.buffer.skip(i + 1));
        }
        lemma_junk_is_skipped(rest, (junk - 1) as nat);
        assert(rest.discard((junk - 1) as nat) =~= s.discard(junk));
    }
}

/// `s` and `t` stand at the same segment of the same page and hold the same
/// open packets; behind the page, `s` has `junk` bytes without a capture
/// pattern that `t` has not, and from there on the two agree.
pub open spec fn junk_behind_page(s: StreamView, t: StreamView, junk: nat) -> bool {
    let len = page_len(t.buffer) as int;
    &&& s.wf()
    &&& t.wf()
    &&& framed(t.buffer)
    &&& t.buffer.len() >= len + 3
    &&& s.buffer.len() == t.buffer.len() + junk
    &&& s.buffer.take(len) == t.buffer.take(len)
    &&& s.buffer.skip(len + junk) == t.buffer.skip(len)
    &&& no_capture(s.buffer.skip(len), junk as int)
    &&& s.open == t.open
    &&& s.segment == t.segment
}

/// With junk behind the page at the head, the next packet is the one that
/// comes without the junk; afterwards the two states are the same, or stand
/// on that page as before.
pub proof fn lemma_next_packet_junk_behind_page(s: StreamView, t: StreamView, junk: nat)
    requires
        junk_behind_page(s, t, junk),
    ensures
        s.next_packet().1 == t.next_packet().1,
        s.next_packet().0 == t.next_packet().0 || junk_behind_page(
            s.next_packet().0,
            t.next_packet().0,
            junk,
        ),
    decreases t.unread(),
{
    let len = page_len(t.buffer);
    lemma_page_len_bound(t.buffer);
    lemma_framed_same_page(t.buffer, s.buffer);
    lemma_seek_page_wf(s);
    lemma_seek_page_wf(t);
    let looked_s = if s.segment == 0 && s.segment < s.segment_count() {
        s.recover()
    } else {
        s
    };
    let looked_t = if t.segment == 0 && t.segment < t.segment_count() {
        t.recover()
    } else {
        t
    };
    if t.segment == 0 && t.segment < t.segment_count() {
        lemma_run_end_bounds(table_of(t.buffer), 0);
    }
    assert(junk_behind_page(looked_s, looked_t, junk));
    if looked_t.segment >= looked_t.segment_count() {
        // The page is left behind, and the junk with it.
        let left_s = looked_s.finish();
        let left_t = looked_t.finish();
        assert(s.seek_page() == left_s.seek_page());
        assert(t.seek_page() == left_t.seek_page());
        assert(left_s.buffer =~= s.buffer.skip(len as int));
        assert(left_s.discard(junk).buffer =~= s.buffer.skip((len + junk) as int));
        assert(left_s.discard(junk) =~= left_t);
        lemma_junk_is_skipped(left_s, junk);
        lemma_packets_from_page(s, t);
    } else {
        assert(s.seek_page() == looked_s);
        assert(t.seek_page() == looked_t);
        lemma_read_packet_progress(looked_s);
        lemma_read_packet_progress(looked_t);
        lemma_read_packet_wf(looked_s);
        lemma_read_packet_wf(looked_t);
        let (after_s, packet_s) = looked_s.read_packet();
        let (after_t, packet_t) = looked_t.read_packet();
        let table = table_of(t.buffer);
        let end = crate::framing::run_end(table, looked_t.segment as int);
        lemma_run_end_bounds(table, looked_t.segment as int);
        crate::framing::lemma_lacing_sum_monotone(table, looked_t.segment as int, end);
        crate::framing::lemma_lacing_sum_monotone(table, end, table.len() as int);
        assert(table.take(table.len() as int) =~= table);
        assert(packet_s == packet_t);
        assert(after_s.open =~= after_t.open);
        assert(junk_behind_page(after_s, after_t, junk));
        if packet_t is None {
            lemma_next_packet_junk_behind_page(after_s, after_t, junk);
        }
    }
}

/// With junk behind the page at the head, every packet comes out that comes
/// out without the junk, in the same order.
pub proof fn lemma_packets_junk_behind_page(s: StreamView, t: StreamView, junk: nat)
    requires
        junk_behind_page(s, t, junk),
    ensures
        s.packets() == t.packets(),
    decreases t.buffer.len(), t.unread(),
{
    lemma_next_packet_junk_behind_page(s, t, junk);
    lemma_next_packet_progress(s);
    lemma_next_packet_progress(t);
    if t.next_packet().1 is Some && s.next_packet().0 != t.next_packet().0 {
        lemma_packets_junk_behind_page(s.next_packet().0, t.next_packet().0, junk);
    }
}

/// Junk between two pages loses no packet. Let `page` be a whole page, at
/// any segment of which the stream stands, and let `rest` begin with a
/// whole page. Then with `junk` between them, bytes in which (read together
/// with what follows) no capture pattern begins, the stream gives the very
/// packets that it gives without.
pub proof fn lemma_junk_between_pages(
    s: StreamView,
    page: Seq<u8>,
    junk: Seq<u8>,
    rest: Seq<u8>,
)
    requires
        s.wf(),
        crate::framing::is_page(page),
        framed(rest),
        no_capture(junk + rest, junk.len() as int),
        s.buffer == page + rest,
    ensures
        s.with_buffer(page + junk + rest).wf(),
        s.with_buffer(page + junk + rest).packets() == s.packets(),
{
    let with_junk = s.with_buffer(page + junk + rest);
    lemma_page_len_bound(page);
    crate::framing::lemma_framed_extends(page, rest);
    assert(s.buffer.take(page.len() as int) =~= page);
    assert(with_junk.buffer.take(page.len() as int) =~= page);
    lemma_framed_same_page(s.buffer, with_junk.buffer);
    assert(with_junk.buffer.skip(page.len() as int) =~= junk + rest);
    assert(with_junk.buffer.skip((page.len() + junk.len()) as int) =~= rest);
    assert(s.buffer.skip(page.len() as int) =~= rest);
    lemma_packets_junk_behind_page(with_junk, s, junk.len());
}

} // verus!
