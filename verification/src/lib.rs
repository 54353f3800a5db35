//! Demultiplexing of an Opus stream from an Ogg container, fed in chunks.
//!
//! A [`Demuxer`] is pushed the bytes of a container in chunks of any size.
//! It finds the pages in them, puts the packets of each logical stream
//! together, recognizes the identification packet and the comment packet of
//! the Opus stream, and then hands out that stream's packets one by one.
//!
//! Every executable function is proved to follow a state machine on
//! mathematical values: [`framing`] says what a page is, [`reassembly`] how
//! pages are found and packets put together, [`state`] what the
//! demultiplexer makes of the packets. What holds of those state machines
//! whatever they are fed is proved in [`laws`], [`lacing`], [`isolation`]
//! and [`resync`].
use crate::state::{comment_magic, id_magic, identification, DemuxerView, Identification};
use vstd::prelude::*;

pub mod framing;
pub mod isolation;
pub mod lacing;
pub mod laws;
pub mod ogg;
pub mod reassembly;
pub mod resync;
pub mod state;

verus! {

/// What the identification packet of an Opus stream says.
#[derive(Debug, Copy, Clone)]
pub struct Header {
    /// Number of channels
    pub channels: u8,
    /// Number of samples to discard from the decoder output when starting playback
    pub pre_skip: u16,
    /// Encoded gain to be applied when decoding, in units of 1/256 dB
    pub output_gain: i16,
    /// Serial of the logical stream that the packet was found in
    pub serial: u32,
}

/// Why a push failed.
#[derive(Debug, Copy, Clone)]
pub enum Error {
    /// An identification packet ends before a field that is read from it
    Malformed,
}

impl Error {
    /// The error in words.
    pub fn message(&self) -> (text: &'static str)
        ensures
            text@ == "malformed container"@,
    {
        match self {
            Error::Malformed => "malformed container",
        }
    }
}

/// Pulls the packets of an Opus stream out of an Ogg container that is fed
/// in chunks of any size.
pub struct Demuxer {
    // Page decoding state
    stream: ogg::Stream,
    // Packet decoding state
    header: Option<Header>,
    tags: Option<Vec<u8>>,
}

impl View for Demuxer {
    type V = DemuxerView;

    closed spec fn view(&self) -> DemuxerView {
        DemuxerView {
            stream: self.stream@,
            header: self.header,
            tags: match self.tags {
                Some(bytes) => Some(bytes@),
                None => None,
            },
        }
    }
}

/// Whether `packet` begins with the eight bytes of `magic`.
fn starts_with(packet: &Vec<u8>, magic: &[u8; 8]) -> (found: bool)
    ensures
        found == magic@.is_prefix_of(packet@),
{
    if packet.len() < 8 {
        return false;
    }
    let mut at: usize = 0;
    while at < 8
        invariant
            at <= 8 <= packet.len(),
            magic@.len() == 8,
            forall|i: int| 0 <= i < at ==> magic@[i] == packet@[i],
        decreases 8 - at,
    {
        if magic[at] != packet[at] {
            assert(magic@[at as int] != packet@.subrange(0, 8)[at as int]);
            return false;
        }
        at += 1;
    }
    assert(magic@ =~= packet@.subrange(0, 8));
    true
}

/// Reads `packet`, the first packet of the logical stream `serial`, as an
/// identification packet.
fn identify(packet: &Vec<u8>, serial: u32) -> (found: Identification)
    ensures
        found == identification(packet@, serial),
{
    let magic: [u8; 8] = [0x4f, 0x70, 0x75, 0x73, 0x48, 0x65, 0x61, 0x64];
    assert(magic@ =~= id_magic());
    if !starts_with(packet, &magic) {
        return Identification::Foreign;
    }
    if packet.len() < 9 {
        return Identification::Malformed;
    }
    // Is this an Opus ogg encapsulation v1-compatible stream?
    if packet[8] & 0xf0 != 0 {
        return Identification::Foreign;
    }
    if packet.len() < 18 {
        return Identification::Malformed;
    }
    let pre_skip: u16 = packet[10] as u16 + 256 * (packet[11] as u16);
    let gain: u16 = packet[16] as u16 + 256 * (packet[17] as u16);
    let output_gain: i16 = if gain >= 32768 {
        (gain as i32 - 65536) as i16
    } else {
        gain as i16
    };
    Identification::Header(Header { channels: packet[9], pre_skip, output_gain, serial })
}

impl Demuxer {
    /// The invariant of a demultiplexer: that of its state.
    pub open spec fn wf(&self) -> bool {
        self@.wf()
    }

    /// A demultiplexer that has seen no byte.
    pub fn new() -> (demuxer: Self)
        ensures
            demuxer@ == DemuxerView::empty(),
            demuxer.wf(),
    {
        Self { stream: ogg::Stream::new(), header: None, tags: None }
    }

    /// Consume a block of Ogg container data
    ///
    /// After a call to `push`, other methods may begin returning `Some`. The
    /// call fails on an identification packet that is cut short; the packet
    /// is dropped, and a later call reads on behind it.
    pub fn push(&mut self, data: &[u8]) -> (result: Result<(), Error>)
        requires
            old(self).wf(),
        ensures
            final(self).wf(),
            final(self)@ == old(self)@.push(data@).0,
            result == old(self)@.push(data@).1,
    {
        self.stream.push(data);
        loop
            invariant
                self.wf(),
                self@.digest() == old(self)@.push(data@),
            decreases self@.stream.buffer.len(), self@.stream.unread(),
        {
            if self.header.is_some() && self.tags.is_some() {
                return Ok(());
            }
            proof {
                crate::reassembly::lemma_next_packet_progress(self@.stream);
            }
            let (page_header, packet) = match self.stream.next_packet() {
                Some(found) => found,
                None => {
                    return Ok(());
                },
            };
            match &self.header {
                None => {
                    // Read packets until we get the header or run out
                    if page_header.bos {
                        match identify(&packet, page_header.stream_serial) {
                            Identification::Foreign => {},
                            Identification::Malformed => {
                                return Err(Error::Malformed);
                            },
                            Identification::Header(header) => {
                                self.header = Some(header);
                            },
                        }
                    }
                },
                Some(found) => {
                    // Read packets until we get the tags or run out
                    let magic: [u8; 8] = [0x4f, 0x70, 0x75, 0x73, 0x54, 0x61, 0x67, 0x73];
                    assert(magic@ =~= comment_magic());
                    if page_header.stream_serial == found.serial && starts_with(&packet, &magic) {
                        self.tags = Some(packet);
                        return Ok(());
                    }
                },
            }
        }
    }

    /// Access the decoded `Header`, if available
    #[inline]
    pub fn header(&self) -> (header: Option<&Header>)
        ensures
            match header {
                Some(header) => self@.header is Some && *header == self@.header.unwrap(),
                None => self@.header is None,
            },
    {
        match &self.header {
            Some(found) => Some(found),
            None => None,
        }
    }

    /// Extract the Opus tags, if available. Will not return `Some` before `header` does.
    #[inline]
    pub fn tags(&self) -> (tags: Option<&[u8]>)
        requires
            self.wf(),
        ensures
            match tags {
                Some(bytes) => self@.tags == Some(bytes@),
                None => self@.tags is None,
            },
            tags is Some ==> self@.header is Some,
            tags is Some ==> comment_magic().is_prefix_of(tags.unwrap()@),
    {
        match &self.tags {
            Some(bytes) => Some(bytes.as_slice()),
            None => None,
        }
    }

    /// Extract a block of Opus stream data, if available. Will not return `Some` before `header` or
    /// `tags` do.
    pub fn next(&mut self) -> (packet: Option<Vec<u8>>)
        requires
            old(self).wf(),
        ensures
            final(self).wf(),
            final(self)@ == old(self)@.next().0,
            match packet {
                Some(bytes) => old(self)@.next().1 == Some(bytes@),
                None => old(self)@.next().1 is None,
            },
            !old(self)@.streaming() ==> packet is None && final(self)@ == old(self)@,
            final(self)@.header == old(self)@.header,
            final(self)@.tags == old(self)@.tags,
    {
        let serial = match (&self.header, &self.tags) {
            (Some(found), Some(_)) => found.serial,
            _ => {
                return None;
            },
        };
        loop
            invariant
                self.wf(),
                self@.streaming(),
                self@.header == old(self)@.header,
                self@.tags == old(self)@.tags,
                self@.header.unwrap().serial == serial,
                self@.next() == old(self)@.next(),
            decreases self@.stream.buffer.len(), self@.stream.unread(),
        {
            proof {
                crate::reassembly::lemma_next_packet_progress(self@.stream);
            }
            let (page_header, packet) = match self.stream.next_packet() {
                Some(found) => found,
                None => {
                    return None;
                },
            };
            if page_header.stream_serial == serial {
                return Some(packet);
            }
        }
    }
}

impl Default for Demuxer {
    fn default() -> (demuxer: Self)
        ensures
            demuxer@ == DemuxerView::empty(),
            demuxer.wf(),
    {
        Self::new()
    }
}

} // verus!
