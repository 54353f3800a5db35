//! Pages and packets: the scanner that finds pages in the staged bytes and
//! the reassembler that joins their segments into packets.
use crate::framing::{
    framed, header_of, lacing_sum, le32, le64, lemma_framed_extends, lemma_lacing_sum_monotone,
    lemma_lacing_sum_step, lemma_page_len_bound, page_len, payload_offset, run_closes, run_end,
    table_of, HEADER_LEN, LACING_MORE,
};
use crate::reassembly::{lemma_read_packet_progress, lemma_seek_page_progress, StreamView};
use core::ops::Range;
use std::collections::HashMap;
use std::collections::VecDeque;
use vstd::prelude::*;

verus! {

broadcast use vstd::std_specs::hash::group_hash_axioms;

/// The fixed fields of a page.
#[derive(Debug, Copy, Clone)]
pub struct PageHeader {
    /// Whether the first segment of the page continues a packet of an earlier page
    pub continued: bool,
    /// Whether this is the first page of a logical bitstream
    pub bos: bool,
    /// Whether this is the last page of a logical bitstream
    pub eos: bool,
    /// Position in the stream's own time, not read by this library
    pub granule_position: u64,
    /// Which logical bitstream the page belongs to
    pub stream_serial: u32,
    /// Number of the page within its logical bitstream, not checked
    pub sequence: u32,
    /// Checksum of the page, not checked
    pub checksum: u32,
    /// Number of entries in the page's lacing table
    pub segment_count: u8,
}

/// The staged bytes of a container and the packets being put together from
/// them, one for each logical stream that has a packet open.
pub struct Stream {
    /// Bytes pushed and not yet dropped
    buffer: VecDeque<u8>,
    /// Data buffered for the open packet of each logical stream
    stream_packets: HashMap<u32, Vec<u8>>,
    /// Position in the segment table of the page at the head of `buffer`
    segment: usize,
}

impl View for Stream {
    type V = StreamView;

    closed spec fn view(&self) -> StreamView {
        StreamView {
            buffer: self.buffer@,
            open: Map::new(
                |serial: u32| self.stream_packets@.contains_key(serial),
                |serial: u32| self.stream_packets@[serial]@,
            ),
            segment: self.segment as nat,
        }
    }
}

impl Stream {
    /// The invariant of a stream: that of its state.
    pub open spec fn wf(&self) -> bool {
        self@.wf()
    }

    /// A stream with nothing staged and no packet open.
    #[inline]
    pub fn new() -> (stream: Self)
        ensures
            stream@ == StreamView::empty(),
            stream.wf(),
    {
        let stream = Stream { buffer: VecDeque::new(), stream_packets: HashMap::new(), segment: 0 };
        assert(stream@ =~= StreamView::empty());
        stream
    }

    /// Stages `data` behind the bytes already there.
    #[inline]
    pub fn push(&mut self, data: &[u8])
        requires
            old(self).wf(),
        ensures
            final(self)@ == old(self)@.append(data@),
            final(self).wf(),
    {
        let mut at: usize = 0;
        while at < data.len()
            invariant
                at <= data.len(),
                self.buffer@ == old(self).buffer@ + data@.take(at as int),
                self.stream_packets == old(self).stream_packets,
                self.segment == old(self).segment,
            decreases data.len() - at,
        {
            self.buffer.push_back(data[at]);
            at += 1;
            assert(data@.take(at as int) =~= data@.take(at - 1).push(data@[at - 1]));
            assert(self.buffer@ =~= old(self).buffer@ + data@.take(at as int));
        }
        proof {
            assert(data@.take(at as int) =~= data@);
            assert(self@ =~= old(self)@.append(data@));
            if old(self).segment > 0 {
                lemma_framed_extends(old(self).buffer@, data@);
            }
        }
    }

    /// Fetch the earliest page that has been staged in full and still has
    /// segments to read; a page of which some are read comes again, at the
    /// segment it was left at. On the way, junk at the head is dropped byte
    /// by byte, a capture pattern with a version other than zero is dropped
    /// with its version byte, and pages that are read through are left
    /// behind. `None` where the staged bytes do not hold a whole page yet.
    pub fn next(&mut self) -> (page: Option<Page<'_>>)
        requires
            old(self).wf(),
        ensures
            match page {
                Some(page) => {
                    &&& page.wf()
                    &&& page.stream@ == old(self)@.seek_page()
                    &&& page.stream@.has_unread()
                    &&& *final(self) == *final(page.stream)
                },
                None => {
                    &&& final(self).wf()
                    &&& final(self)@ == old(self)@.seek_page()
                    &&& !final(self)@.has_unread()
                },
            },
    {
        loop
            invariant
                self.wf(),
                self@.seek_page() == old(self)@.seek_page(),
            decreases self.buffer@.len(),
        {
            let mut r = Reader { buffer: &self.buffer, cursor: 0 };

            // Scan until the start of a page
            let capture = match r.get(4) {
                Some(bytes) => bytes,
                None => {
                    return None;
                },
            };
            if !(capture[0] == 0x4f && capture[1] == 0x67 && capture[2] == 0x67 && capture[3]
                == 0x53) {
                drain(&mut self.buffer, 1);
                continue ;
            }
            let version = match r.get(1) {
                Some(bytes) => bytes,
                None => {
                    return None;
                },
            };
            if version[0] != 0 {
                // Unrecognized version, scan for another page
                drain(&mut self.buffer, 5);
                continue ;
            }
            let flags = match r.get(1) {
                Some(bytes) => bytes,
                None => {
                    return None;
                },
            };
            let granule_position = match r.get(8) {
                Some(bytes) => bytes,
                None => {
                    return None;
                },
            };
            let stream_serial = match r.get(4) {
                Some(bytes) => bytes,
                None => {
                    return None;
                },
            };
            let sequence = match r.get(4) {
                Some(bytes) => bytes,
                None => {
                    return None;
                },
            };
            let checksum = match r.get(4) {
                Some(bytes) => bytes,
                None => {
                    return None;
                },
            };
            let count = match r.get(1) {
                Some(bytes) => bytes,
                None => {
                    return None;
                },
            };
            let header = PageHeader {
                continued: flags[0] & 0x01 != 0,
                bos: flags[0] & 0x02 != 0,
                eos: flags[0] & 0x04 != 0,
                granule_position: u64_from_le(&granule_position),
                stream_serial: u32_from_le(&stream_serial),
                sequence: u32_from_le(&sequence),
                checksum: u32_from_le(&checksum),
                segment_count: count[0],
            };
            let segment_count = count[0] as usize;
            let segments = match r.get(segment_count) {
                Some(bytes) => bytes,
                None => {
                    return None;
                },
            };
            let payload_len = lacing_total(&segments, segment_count);
            proof {
                assert(segments@ == table_of(self.buffer@));
                assert(header == header_of(self.buffer@));
                assert(segments@.take(segment_count as int) =~= segments@);
                lemma_page_len_bound(self.buffer@);
            }
            if r.skip(payload_len).is_none() {
                return None;
            }
            let page_end = r.cursor;
            if self.segment >= segment_count {
                self.finish(header, page_end);
                continue ;
            }
            if self.segment == 0 {
                self.recover(header, &segments);
            }
            if self.segment >= segment_count {
                self.finish(header, page_end);
                continue ;
            }
            let read = lacing_total(&segments, self.segment);
            let packet_start = HEADER_LEN + segment_count + read;
            return Some(Page { header, segments, packet_start, stream: self });
        }
    }

    /// The next whole packet, with the header of the page that ended it.
    /// `None` where the staged bytes give no further packet yet.
    pub fn next_packet(&mut self) -> (found: Option<(PageHeader, Vec<u8>)>)
        requires
            old(self).wf(),
        ensures
            final(self).wf(),
            final(self)@ == old(self)@.next_packet().0,
            match found {
                Some((header, bytes)) => old(self)@.next_packet().1 == Some((header, bytes@)),
                None => old(self)@.next_packet().1 is None,
            },
    {
        loop
            invariant
                self.wf(),
                self@.next_packet() == old(self)@.next_packet(),
            decreases self@.buffer.len(), self@.unread(),
        {
            proof {
                lemma_seek_page_progress(self@);
                if self@.seek_page().has_unread() {
                    lemma_read_packet_progress(self@.seek_page());
                }
            }
            let page = match self.next() {
                Some(page) => page,
                None => {
                    return None;
                },
            };
            let header = page.header();
            match page.into_next() {
                Some(packet) => {
                    return Some((header, packet));
                },
                None => {},
            }
        }
    }

    /// Leaves the page at the head behind.
    fn finish(&mut self, header: PageHeader, len: usize)
        requires
            framed(old(self).buffer@),
            header == header_of(old(self).buffer@),
            len == page_len(old(self).buffer@),
        ensures
            final(self)@ == old(self)@.finish(),
            final(self).wf(),
    {
        drain(&mut self.buffer, len);
        if header.eos {
            // Free the buffer of the finished logical stream
            self.stream_packets.remove(&header.stream_serial);
        }
        self.segment = 0;
        assert(self@ =~= old(self)@.finish());
    }

    /// Looks at a page for the first time: passes over the tail of a packet
    /// whose head is missing, drops the head of a packet whose tail is.
    fn recover(&mut self, header: PageHeader, table: &Vec<u8>)
        requires
            framed(old(self).buffer@),
            header == header_of(old(self).buffer@),
            table@ == table_of(old(self).buffer@),
            old(self).segment == 0,
            table.len() > 0,
        ensures
            final(self)@ == old(self)@.recover(),
            final(self).wf(),
    {
        let held = self.stream_packets.contains_key(&header.stream_serial);
        if header.continued && !held {
            // Tail without head
            let (end, _, _) = fragment(table, 0);
            self.segment = end;
        } else if !header.continued && held {
            // Head without tail
            self.stream_packets.remove(&header.stream_serial);
        }
        assert(self@ =~= old(self)@.recover());
    }
}

/// A page of which segments are left to read, and the stream it stands in.
pub struct Page<'a> {
    /// The fixed fields of the page
    pub header: PageHeader,
    /// The lacing table
    pub segments: Vec<u8>,
    /// Offset in the staged bytes of the payload of the next segment
    pub packet_start: usize,
    /// The stream the page was found in
    pub stream: &'a mut Stream,
}

impl<'a> Page<'a> {
    /// The page is the one at the head of its stream, and its byte cursor
    /// stands where the stream's segment cursor says.
    pub open spec fn wf(&self) -> bool {
        &&& self.stream.wf()
        &&& framed(self.stream@.buffer)
        &&& self.header == header_of(self.stream@.buffer)
        &&& self.segments@ == table_of(self.stream@.buffer)
        &&& self.stream@.segment <= self.segments.len()
        &&& self.packet_start == payload_offset(self.stream@.buffer, self.stream@.segment as int)
    }

    /// The fixed fields of the page.
    #[inline]
    pub fn header(&self) -> (header: PageHeader)
        ensures
            header == self.header,
    {
        self.header
    }

    /// Read the next packet from this page. `None` where the page has no
    /// segment left, or where its last segments leave their packet open:
    /// those are kept for the page that continues it.
    pub fn next(&mut self) -> (packet: Option<Vec<u8>>)
        requires
            old(self).wf(),
        ensures
            final(self).wf(),
            final(self).header == old(self).header,
            final(self).stream@ == old(self).stream@.read_packet().0,
            match packet {
                Some(bytes) => old(self).stream@.read_packet().1 == Some(bytes@),
                None => old(self).stream@.read_packet().1 is None,
            },
            *final(final(self).stream) == *final(old(self).stream),
    {
        self.next_inner()
    }

    /// Read the next packet from this page and let the page go.
    pub fn into_next(self) -> (packet: Option<Vec<u8>>)
        requires
            self.wf(),
        ensures
            final(self.stream).wf(),
            final(self.stream)@ == old(self.stream)@.read_packet().0,
            match packet {
                Some(bytes) => old(self.stream)@.read_packet().1 == Some(bytes@),
                None => old(self.stream)@.read_packet().1 is None,
            },
    {
        let mut page = self;
        page.next_inner()
    }

    fn next_inner(&mut self) -> (packet: Option<Vec<u8>>)
        requires
            old(self).wf(),
        ensures
            final(self).wf(),
            final(self).header == old(self).header,
            final(self).stream@ == old(self).stream@.read_packet().0,
            match packet {
                Some(bytes) => old(self).stream@.read_packet().1 == Some(bytes@),
                None => old(self).stream@.read_packet().1 is None,
            },
            *final(final(self).stream) == *final(old(self).stream),
    {
        if self.stream.segment >= self.segments.len() {
            return None;
        }
        let serial = self.header.stream_serial;

        // Find the end of the current packet
        let (segment, packet_data_len, complete) = fragment(&self.segments, self.stream.segment);
        proof {
            lemma_page_len_bound(self.stream.buffer@);
            lemma_lacing_sum_monotone(self.segments@, segment as int, self.segments.len() as int);
            assert(self.segments@.take(self.segments.len() as int) =~= self.segments@);
        }
        let packet_end = self.packet_start + packet_data_len;

        // Copy out all its segments behind what is held for the stream
        let mut data = match self.stream.stream_packets.remove(&serial) {
            Some(held) => held,
            None => Vec::new(),
        };
        match fill(&self.stream.buffer, self.packet_start..packet_end, &mut data) {
            Some(_) => {},
            None => {
                // Not reached: the payload of the page is staged in full.
                return None;
            },
        }

        // Set up for the next packet in the page
        self.packet_start = packet_end;
        self.stream.segment = segment;

        if complete {
            assert(self.stream@ =~= old(self).stream@.read_packet().0);
            Some(data)
        } else {
            self.stream.stream_packets.insert(serial, data);
            assert(self.stream@ =~= old(self).stream@.read_packet().0);
            None
        }
    }
}

/// A cursor over the staged bytes.
struct Reader<'a> {
    buffer: &'a VecDeque<u8>,
    cursor: usize,
}

impl<'a> Reader<'a> {
    /// The next `count` bytes, where that many are staged behind the cursor.
    fn get(&mut self, count: usize) -> (bytes: Option<Vec<u8>>)
        ensures
            final(self).buffer == old(self).buffer,
            match bytes {
                Some(bytes) => {
                    &&& old(self).cursor + count <= old(self).buffer@.len()
                    &&& final(self).cursor == old(self).cursor + count
                    &&& bytes@ == old(self).buffer@.subrange(
                        old(self).cursor as int,
                        old(self).cursor + count,
                    )
                },
                None => {
                    &&& old(self).cursor + count > old(self).buffer@.len()
                    &&& final(self).cursor == old(self).cursor
                },
            },
    {
        let staged = self.buffer.len();
        let end = match self.cursor.checked_add(count) {
            Some(end) => end,
            None => {
                return None;
            },
        };
        if end > staged {
            return None;
        }
        let mut bytes: Vec<u8> = Vec::new();
        let filled = fill(self.buffer, self.cursor..end, &mut bytes);
        match filled {
            Some(_) => {
                assert(bytes@ =~= self.buffer@.subrange(self.cursor as int, end as int));
                self.cursor = end;
                Some(bytes)
            },
            None => None,
        }
    }

    /// Steps over `count` bytes, where that many are staged behind the cursor.
    fn skip(&mut self, count: usize) -> (done: Option<()>)
        ensures
            final(self).buffer == old(self).buffer,
            done is Some <==> old(self).cursor + count <= old(self).buffer@.len(),
            final(self).cursor == if done is Some {
                old(self).cursor + count
            } else {
                old(self).cursor as int
            },
    {
        let staged = self.buffer.len();
        let end = match self.cursor.checked_add(count) {
            Some(end) => end,
            None => {
                return None;
            },
        };
        if end > staged {
            return None;
        }
        self.cursor = end;
        Some(())
    }
}

/// Copies the staged bytes of `range` behind `out`. Refuses, and leaves `out`
/// alone, where the range is not within the staged bytes.
fn fill(buffer: &VecDeque<u8>, range: Range<usize>, out: &mut Vec<u8>) -> (done: Option<()>)
    ensures
        done is Some <==> range.start <= range.end <= buffer@.len(),
        final(out)@ == if done is Some {
            old(out)@ + buffer@.subrange(range.start as int, range.end as int)
        } else {
            old(out)@
        },
{
    if range.start > range.end || range.end > buffer.len() {
        return None;
    }
    let mut at: usize = range.start;
    while at < range.end
        invariant
            range.start <= at <= range.end <= buffer@.len(),
            out@ == old(out)@ + buffer@.subrange(range.start as int, at as int),
        decreases range.end - at,
    {
        out.push(buffer[at]);
        at += 1;
        assert(buffer@.subrange(range.start as int, at as int) =~= buffer@.subrange(
            range.start as int,
            at - 1,
        ).push(buffer@[at - 1]));
    }
    Some(())
}

/// Drops the first `count` staged bytes.
fn drain(buffer: &mut VecDeque<u8>, count: usize)
    requires
        count <= old(buffer)@.len(),
    ensures
        final(buffer)@ == old(buffer)@.skip(count as int),
{
    let mut dropped: usize = 0;
    while dropped < count
        invariant
            dropped <= count <= old(buffer)@.len(),
            buffer@ == old(buffer)@.skip(dropped as int),
        decreases count - dropped,
    {
        buffer.pop_front();
        dropped += 1;
        assert(buffer@ =~= old(buffer)@.skip(dropped as int));
    }
}

/// Sum of the first `upto` lacing values of `table`.
fn lacing_total(table: &Vec<u8>, upto: usize) -> (sum: usize)
    requires
        upto <= table.len() <= 255,
    ensures
        sum == lacing_sum(table@.take(upto as int)),
        sum <= 255 * upto,
{
    let mut sum: usize = 0;
    let mut at: usize = 0;
    while at < upto
        invariant
            at <= upto <= table.len() <= 255,
            sum == lacing_sum(table@.take(at as int)),
            sum <= 255 * at,
        decreases upto - at,
    {
        proof {
            lemma_lacing_sum_step(table@, at as int);
        }
        sum += table[at] as usize;
        at += 1;
    }
    sum
}

/// The fragment that begins at segment `from`: the segment after its last,
/// the number of payload bytes it covers, and whether it ends its packet.
fn fragment(table: &Vec<u8>, from: usize) -> (found: (usize, usize, bool))
    requires
        from < table.len() <= 255,
    ensures
        found.0 == run_end(table@, from as int),
        from < found.0 <= table.len(),
        found.1 + lacing_sum(table@.take(from as int)) == lacing_sum(table@.take(found.0 as int)),
        found.1 <= 255 * (found.0 - from),
        found.2 == run_closes(table@, from as int),
{
    let mut end: usize = from;
    let mut len: usize = 0;
    let mut closes = false;
    while end < table.len()
        invariant_except_break
            !closes,
            run_end(table@, end as int) == run_end(table@, from as int),
            end > from ==> table@[end - 1] == LACING_MORE,
        invariant
            from <= end <= table.len() <= 255,
            from < table.len(),
            len + lacing_sum(table@.take(from as int)) == lacing_sum(table@.take(end as int)),
            len <= 255 * (end - from),
        ensures
            from < end <= table.len(),
            end == run_end(table@, from as int),
            closes == (table@[end - 1] < LACING_MORE),
        decreases table.len() - end,
    {
        proof {
            lemma_lacing_sum_step(table@, end as int);
        }
        let value = table[end];
        len += value as usize;
        end += 1;
        if value < LACING_MORE {
            closes = true;
            break ;
        }
    }
    (end, len, closes)
}

/// The four bytes at the head of `bytes`, read as a little-endian number.
fn u32_from_le(bytes: &Vec<u8>) -> (value: u32)
    requires
        bytes.len() >= 4,
    ensures
        value == le32(bytes@, 0),
{
    bytes[0] as u32 + 256 * (bytes[1] as u32) + 65536 * (bytes[2] as u32) + 16777216 * (
    bytes[3] as u32)
}

/// The eight bytes of `bytes`, read as a little-endian number.
fn u64_from_le(bytes: &Vec<u8>) -> (value: u64)
    requires
        bytes.len() == 8,
    ensures
        value == le64(bytes@, 0),
{
    let low = bytes[0] as u64 + 256 * (bytes[1] as u64) + 65536 * (bytes[2] as u64) + 16777216 * (
    bytes[3] as u64);
    let high = bytes[4] as u64 + 256 * (bytes[5] as u64) + 65536 * (bytes[6] as u64) + 16777216
        * (bytes[7] as u64);
    low + 4294967296 * high
}

} // verus!
