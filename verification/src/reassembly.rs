//! The page scanner and packet reassembler as a state machine on
//! mathematical values. The executable [`crate::ogg::Stream`] and
//! [`crate::ogg::Page`] are proved to follow it step by step.
use crate::framing::{
    framed, header_of, junk_len, lemma_framed_extends, lemma_junk_extends, lemma_page_len_bound,
    lemma_run_end_bounds, page_len,
    payload_offset, run_closes, run_end, table_of,
};
use crate::ogg::PageHeader;
use vstd::prelude::*;

verus! {

/// What a [`crate::ogg::Stream`] holds.
#[verifier::ext_equal]
pub struct StreamView {
    /// The staged bytes: all that was pushed and not yet dropped. While a
    /// page is being read it stands at the head.
    pub buffer: Seq<u8>,
    /// For each logical stream with an open packet, the bytes of that packet
    /// gathered so far. A serial has an entry exactly while the last lacing
    /// value read for it was 255.
    pub open: Map<u32, Seq<u8>>,
    /// How many segments of the page at the head have been read.
    pub segment: nat,
}

impl StreamView {
    /// The state of a new stream: nothing staged, no packet open.
    pub open spec fn empty() -> Self {
        StreamView { buffer: Seq::empty(), open: Map::empty(), segment: 0 }
    }

    /// A segment cursor other than zero points into a whole page at the head.
    pub open spec fn wf(self) -> bool {
        self.segment > 0 ==> framed(self.buffer) && self.segment <= self.segment_count()
    }

    /// Number of segments of the page at the head.
    pub open spec fn segment_count(self) -> nat {
        self.buffer[26] as nat
    }

    /// Serial of the page at the head.
    pub open spec fn serial(self) -> u32 {
        header_of(self.buffer).stream_serial
    }

    /// A whole page stands at the head and not all its segments are read.
    pub open spec fn has_unread(self) -> bool {
        framed(self.buffer) && self.segment < self.segment_count()
    }

    /// Number of unread segments of the page at the head, zero without one.
    pub open spec fn unread(self) -> nat {
        if framed(self.buffer) && self.segment <= self.segment_count() {
            (self.segment_count() - self.segment) as nat
        } else {
            0
        }
    }

    /// The bytes gathered for the open packet of `serial`, empty without one.
    pub open spec fn gathered(self, serial: u32) -> Seq<u8> {
        if self.open.contains_key(serial) {
            self.open[serial]
        } else {
            Seq::empty()
        }
    }

    /// The same cursor and open packets over other staged bytes.
    pub open spec fn with_buffer(self, buffer: Seq<u8>) -> Self {
        StreamView { buffer, ..self }
    }

    /// `data` staged behind what is there.
    pub open spec fn append(self, data: Seq<u8>) -> Self {
        StreamView { buffer: self.buffer + data, ..self }
    }

    /// The first `k` staged bytes dropped.
    pub open spec fn discard(self, k: nat) -> Self {
        StreamView { buffer: self.buffer.skip(k as int), ..self }
    }

    /// What happens when a page is first looked at. A page that continues a
    /// packet of which nothing is held has the rest of that packet passed
    /// over; a page that starts afresh while a packet of its stream is still
    /// open has that packet thrown away.
    pub open spec fn recover(self) -> Self {
        let h = header_of(self.buffer);
        if h.continued && !self.open.contains_key(h.stream_serial) {
            StreamView { segment: run_end(table_of(self.buffer), 0) as nat, ..self }
        } else if !h.continued && self.open.contains_key(h.stream_serial) {
            StreamView { open: self.open.remove(h.stream_serial), ..self }
        } else {
            self
        }
    }

    /// The page at the head left behind: its bytes dropped, and with them,
    /// on the last page of a logical stream, what was held for that stream.
    pub open spec fn finish(self) -> Self {
        let h = header_of(self.buffer);
        StreamView {
            buffer: self.buffer.skip(page_len(self.buffer) as int),
            open: if h.eos {
                self.open.remove(h.stream_serial)
            } else {
                self.open
            },
            segment: 0,
        }
    }

    /// The scanner: drop junk and pages that are read through, until a page
    /// with unread segments stands at the head or the staged bytes do not
    /// yet hold a whole page.
    pub open spec fn seek_page(self) -> Self
        decreases self.buffer.len(),
    {
        let junk = junk_len(self.buffer);
        if junk > 0 {
            self.discard(junk).seek_page()
        } else if !framed(self.buffer) {
            self
        } else if self.segment >= self.segment_count() {
            self.finish().seek_page()
        } else {
            let looked = if self.segment == 0 {
                self.recover()
            } else {
                self
            };
            if looked.segment >= looked.segment_count() {
                looked.finish().seek_page()
            } else {
                looked
            }
        }
    }

    /// The reassembler: read the packet fragment at the segment cursor. Its
    /// bytes go behind what is held for the page's stream; the packet is
    /// handed out where the fragment ends on a lacing value below 255, and
    /// is held open otherwise. Without unread segments nothing happens.
    pub open spec fn read_packet(self) -> (Self, Option<Seq<u8>>) {
        if !self.has_unread() {
            (self, None)
        } else {
            let table = table_of(self.buffer);
            let end = run_end(table, self.segment as int);
            let bytes = self.buffer.subrange(
                payload_offset(self.buffer, self.segment as int) as int,
                payload_offset(self.buffer, end) as int,
            );
            let whole = self.gathered(self.serial()) + bytes;
            if run_closes(table, self.segment as int) {
                (
                    StreamView { open: self.open.remove(self.serial()), segment: end as nat, ..self },
                    Some(whole),
                )
            } else {
                (
                    StreamView {
                        open: self.open.insert(self.serial(), whole),
                        segment: end as nat,
                        ..self
                    },
                    None,
                )
            }
        }
    }

    /// The next whole packet with the header of the page that ended it, and
    /// the state it leaves; `None` where the staged bytes give no further
    /// packet yet.
    pub open spec fn next_packet(self) -> (Self, Option<(PageHeader, Seq<u8>)>)
        decreases self.buffer.len(), self.unread(),
        via Self::next_packet_decreases
    {
        let page = self.seek_page();
        if !page.has_unread() {
            (page, None)
        } else {
            let (after, packet) = page.read_packet();
            match packet {
                Some(bytes) => (after, Some((header_of(page.buffer), bytes))),
                None => after.next_packet(),
            }
        }
    }

    /// Every packet that the staged bytes still give, in order, each with
    /// the header of the page that ended it.
    pub open spec fn packets(self) -> Seq<(PageHeader, Seq<u8>)>
        decreases self.buffer.len(), self.unread(),
        via Self::packets_decreases
    {
        if !self.wf() {
            Seq::empty()
        } else {
            match self.next_packet().1 {
                Some(found) => seq![found] + self.next_packet().0.packets(),
                None => Seq::empty(),
            }
        }
    }

    #[via_fn]
    proof fn packets_decreases(self) {
        if self.wf() {
            lemma_next_packet_progress(self);
        }
    }

    #[via_fn]
    proof fn next_packet_decreases(self) {
        let page = self.seek_page();
        if page.has_unread() {
            lemma_seek_page_progress(self);
            lemma_read_packet_progress(page);
        }
    }
}

/// The scanner never adds bytes; where it drops none it stays on the page it
/// was on and does not move the segment cursor back.
pub proof fn lemma_seek_page_progress(s: StreamView)
    ensures
        s.seek_page().buffer.len() <= s.buffer.len(),
        s.seek_page().buffer.len() == s.buffer.len() ==> {
            &&& s.seek_page().buffer == s.buffer
            &&& s.seek_page().has_unread() ==> s.has_unread() && s.seek_page().segment
                >= s.segment
        },
    decreases s.buffer.len(),
{
    let junk = junk_len(s.buffer);
    if junk > 0 {
        lemma_seek_page_progress(s.discard(junk));
    } else if !framed(s.buffer) {
    } else {
        lemma_page_len_bound(s.buffer);
        if s.segment >= s.segment_count() {
            lemma_seek_page_progress(s.finish());
        } else {
            let looked = if s.segment == 0 {
                s.recover()
            } else {
                s
            };
            if looked.segment >= looked.segment_count() {
                lemma_seek_page_progress(looked.finish());
            }
        }
    }
}

/// Reading a fragment moves the segment cursor forward, within the page, and
/// leaves the staged bytes alone.
pub proof fn lemma_read_packet_progress(s: StreamView)
    requires
        s.has_unread(),
    ensures
        s.read_packet().0.buffer == s.buffer,
        s.segment < s.read_packet().0.segment <= s.segment_count(),
{
    lemma_run_end_bounds(table_of(s.buffer), s.segment as int);
}

/// The scanner keeps the invariant, and stops either on a page with unread
/// segments or where no whole page is staged.
pub proof fn lemma_seek_page_wf(s: StreamView)
    requires
        s.wf(),
    ensures
        s.seek_page().wf(),
        s.seek_page().has_unread() || (junk_len(s.seek_page().buffer) == 0 && !framed(
            s.seek_page().buffer,
        )),
        s.seek_page().seek_page() == s.seek_page(),
    decreases s.buffer.len(),
{
    let junk = junk_len(s.buffer);
    if junk > 0 {
        lemma_seek_page_wf(s.discard(junk));
    } else if !framed(s.buffer) {
    } else {
        lemma_page_len_bound(s.buffer);
        if s.segment >= s.segment_count() {
            lemma_seek_page_wf(s.finish());
        } else {
            let looked = if s.segment == 0 {
                s.recover()
            } else {
                s
            };
            if s.segment == 0 {
                lemma_run_end_bounds(table_of(s.buffer), 0);
            }
            if looked.segment >= looked.segment_count() {
                lemma_seek_page_wf(looked.finish());
            } else {
                assert(looked.seek_page() == looked);
            }
        }
    }
}

/// The reassembler keeps the invariant.
pub proof fn lemma_read_packet_wf(s: StreamView)
    requires
        s.wf(),
    ensures
        s.read_packet().0.wf(),
{
    if s.has_unread() {
        lemma_run_end_bounds(table_of(s.buffer), s.segment as int);
    }
}

/// Fetching a packet keeps the invariant and never adds bytes; where a
/// packet is found, bytes were dropped or the segment cursor moved forward.
pub proof fn lemma_next_packet_progress(s: StreamView)
    requires
        s.wf(),
    ensures
        s.next_packet().0.wf(),
        s.next_packet().0.buffer.len() <= s.buffer.len(),
        s.next_packet().1 is Some ==> s.next_packet().0.buffer.len() < s.buffer.len() || (
        s.next_packet().0.buffer.len() == s.buffer.len() && s.next_packet().0.unread()
            < s.unread()),
    decreases s.buffer.len(), s.unread(),
{
    let page = s.seek_page();
    lemma_seek_page_progress(s);
    lemma_seek_page_wf(s);
    if page.has_unread() {
        lemma_read_packet_progress(page);
        lemma_read_packet_wf(page);
        let (after, packet) = page.read_packet();
        if packet is None {
            lemma_next_packet_progress(after);
        }
    }
}

/// Bytes staged behind a whole page change nothing of how the page is left
/// behind, looked at or read.
pub proof fn lemma_page_steps_append(s: StreamView, more: Seq<u8>)
    requires
        framed(s.buffer),
    ensures
        s.append(more).finish() == s.finish().append(more),
        s.append(more).recover() == s.recover().append(more),
        s.append(more).has_unread() == s.has_unread(),
        s.append(more).read_packet() == (s.read_packet().0.append(more), s.read_packet().1),
        s.wf() ==> s.append(more).wf(),
{
    lemma_framed_extends(s.buffer, more);
    lemma_page_len_bound(s.buffer);
    assert(s.append(more).finish() =~= s.finish().append(more)) by {
        assert((s.buffer + more).skip(page_len(s.buffer) as int) =~= s.buffer.skip(
            page_len(s.buffer) as int,
        ) + more);
    }
    assert(s.append(more).recover() =~= s.recover().append(more));
    if s.has_unread() {
        let table = table_of(s.buffer);
        let end = run_end(table, s.segment as int);
        lemma_run_end_bounds(table, s.segment as int);
        crate::framing::lemma_lacing_sum_monotone(table, s.segment as int, end);
        crate::framing::lemma_lacing_sum_monotone(table, end, table.len() as int);
        assert(table.take(table.len() as int) =~= table);
        let from = payload_offset(s.buffer, s.segment as int) as int;
        let to = payload_offset(s.buffer, end) as int;
        assert((s.buffer + more).subrange(from, to) =~= s.buffer.subrange(from, to));
        assert(s.append(more).read_packet().0 =~= s.read_packet().0.append(more));
    }
}

/// The scanner on more bytes: it does what it did on the bytes it had, and
/// then goes on from there. Where it had found a page with unread segments,
/// the bytes behind change nothing.
pub proof fn lemma_seek_page_append(s: StreamView, more: Seq<u8>)
    requires
        s.wf(),
    ensures
        s.append(more).wf(),
        s.append(more).seek_page() == s.seek_page().append(more).seek_page(),
        s.seek_page().has_unread() ==> s.append(more).seek_page() == s.seek_page().append(more),
    decreases s.buffer.len(),
{
    let junk = junk_len(s.buffer);
    if junk > 0 {
        lemma_junk_extends(s.buffer, more);
        assert(s.append(more).discard(junk) =~= s.discard(junk).append(more));
        lemma_seek_page_append(s.discard(junk), more);
    } else if !framed(s.buffer) {
    } else {
        lemma_page_len_bound(s.buffer);
        lemma_framed_extends(s.buffer, more);
        lemma_page_steps_append(s, more);
        if s.segment >= s.segment_count() {
            lemma_seek_page_append(s.finish(), more);
        } else {
            let looked = if s.segment == 0 {
                s.recover()
            } else {
                s
            };
            if s.segment == 0 {
                lemma_run_end_bounds(table_of(s.buffer), 0);
            }
            lemma_page_steps_append(looked, more);
            if looked.segment >= looked.segment_count() {
                lemma_seek_page_append(looked.finish(), more);
            } else {
                lemma_seek_page_wf(s.append(more));
                assert(s.append(more).seek_page() == looked.append(more));
            }
        }
    }
}

/// Fetching a packet on more bytes: a packet that the bytes at hand gave is
/// given again, and leaves the same state with the new bytes behind it;
/// where they gave none, the search goes on from where it stopped.
pub proof fn lemma_next_packet_append(s: StreamView, more: Seq<u8>)
    requires
        s.wf(),
    ensures
        s.next_packet().1 is Some ==> s.append(more).next_packet() == (
            s.next_packet().0.append(more),
            s.next_packet().1,
        ),
        s.next_packet().1 is None ==> s.append(more).next_packet() == s.next_packet().0.append(
            more,
        ).next_packet(),
    decreases s.buffer.len(), s.unread(),
{
    let page = s.seek_page();
    lemma_seek_page_append(s, more);
    lemma_seek_page_progress(s);
    lemma_seek_page_wf(s);
    if page.has_unread() {
        lemma_page_steps_append(page, more);
        lemma_framed_extends(page.buffer, more);
        lemma_read_packet_progress(page);
        lemma_read_packet_wf(page);
        let (after, packet) = page.read_packet();
        if packet is None {
            lemma_next_packet_append(after, more);
        }
    }
}

/// What comes out of a stream is decided by where its scanner stops: two
/// states whose scanners stop in the same state give the same packets.
pub proof fn lemma_packets_from_page(s: StreamView, t: StreamView)
    requires
        s.wf(),
        t.wf(),
        s.seek_page() == t.seek_page(),
    ensures
        s.next_packet() == t.next_packet(),
        s.packets() == t.packets(),
{
}

/// Where no packet is found the search has come to rest: asking again finds
/// nothing and changes nothing.
pub proof fn lemma_next_packet_rests(s: StreamView)
    requires
        s.wf(),
        s.next_packet().1 is None,
    ensures
        s.next_packet().0.next_packet() == (s.next_packet().0, None::<(PageHeader, Seq<u8>)>),
        s.next_packet().0.packets() == Seq::<(PageHeader, Seq<u8>)>::empty(),
    decreases s.buffer.len(), s.unread(),
{
    let page = s.seek_page();
    lemma_seek_page_progress(s);
    lemma_seek_page_wf(s);
    if page.has_unread() {
        lemma_read_packet_progress(page);
        lemma_read_packet_wf(page);
        lemma_next_packet_rests(page.read_packet().0);
    }
}

/// Two streams that give the same packets give the same next packet, and
/// the same packets after it.
pub proof fn lemma_same_packets_step(s: StreamView, t: StreamView)
    requires
        s.wf(),
        t.wf(),
        s.packets() == t.packets(),
    ensures
        s.next_packet().1 == t.next_packet().1,
        s.next_packet().0.packets() == t.next_packet().0.packets(),
        s.next_packet().0.wf(),
        t.next_packet().0.wf(),
{
    lemma_next_packet_progress(s);
    lemma_next_packet_progress(t);
    let ps = s.next_packet().0.packets();
    let pt = t.next_packet().0.packets();
    match (s.next_packet().1, t.next_packet().1) {
        (Some(f), Some(g)) => {
            assert(s.packets() == seq![f] + ps);
            assert(t.packets() == seq![g] + pt);
            assert((seq![f] + ps)[0] == f);
            assert((seq![g] + pt)[0] == g);
            assert(ps =~= (seq![f] + ps).skip(1));
            assert(pt =~= (seq![g] + pt).skip(1));
        },
        (Some(f), None) => {
            assert(s.packets() == seq![f] + ps);
            assert((seq![f] + ps).len() > 0);
        },
        (None, Some(g)) => {
            assert(t.packets() == seq![g] + pt);
            assert((seq![g] + pt).len() > 0);
        },
        (None, None) => {
            lemma_next_packet_rests(s);
            lemma_next_packet_rests(t);
        },
    }
}

} // verus!
