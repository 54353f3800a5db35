//! The demultiplexer as a state machine on mathematical values: which
//! packet becomes the header, which the tags, and which are handed out.
use crate::framing::le16;
use crate::reassembly::{lemma_next_packet_append, lemma_next_packet_progress, StreamView};
use crate::{Error, Header};
use vstd::prelude::*;

verus! {

/// The eight bytes `OpusHead`, with which an identification packet begins.
pub open spec fn id_magic() -> Seq<u8> {
    seq![0x4f, 0x70, 0x75, 0x73, 0x48, 0x65, 0x61, 0x64]
}

/// The eight bytes `OpusTags`, with which a comment packet begins.
pub open spec fn comment_magic() -> Seq<u8> {
    seq![0x4f, 0x70, 0x75, 0x73, 0x54, 0x61, 0x67, 0x73]
}

/// A number below 65536 read as a 16-bit two's complement number.
pub open spec fn signed16(value: int) -> i16 {
    if value >= 32768 {
        (value - 65536) as i16
    } else {
        value as i16
    }
}

/// What the first packet of a logical stream turns out to be.
pub enum Identification {
    /// Not an identification packet of a version this library reads
    Foreign,
    /// An identification packet cut short of a field that is read from it
    Malformed,
    /// An identification packet, with what it says
    Header(Header),
}

/// What `packet` is, taken as the first packet of the logical stream
/// `serial`. Without
/// the magic it is foreign. With it, the version byte must be there; a major
/// version (the high four bits) other than zero makes the packet foreign;
/// otherwise the fields up to the output gain, eighteen bytes in all, must
/// be there.
pub open spec fn identification(packet: Seq<u8>, serial: u32) -> Identification {
    if !id_magic().is_prefix_of(packet) {
        Identification::Foreign
    } else if packet.len() < 9 {
        Identification::Malformed
    } else if packet[8] & 0xf0 != 0 {
        Identification::Foreign
    } else if packet.len() < 18 {
        Identification::Malformed
    } else {
        Identification::Header(
            Header {
                channels: packet[9],
                pre_skip: le16(packet, 10) as u16,
                output_gain: signed16(le16(packet, 16)),
                serial,
            },
        )
    }
}

/// What a [`crate::Demuxer`] holds.
#[verifier::ext_equal]
pub struct DemuxerView {
    /// The pages and packets still to be read
    pub stream: StreamView,
    /// Once recognized: the header of the Opus stream
    pub header: Option<Header>,
    /// Once recognized: the comment packet of that stream
    pub tags: Option<Seq<u8>>,
}

impl DemuxerView {
    /// The state of a new demultiplexer.
    pub open spec fn empty() -> Self {
        DemuxerView { stream: StreamView::empty(), header: None, tags: None }
    }

    /// The stream's invariant holds, there are no tags without a header,
    /// and tags begin with the comment magic.
    pub open spec fn wf(self) -> bool {
        &&& self.stream.wf()
        &&& self.tags is Some ==> self.header is Some
        &&& self.tags is Some ==> comment_magic().is_prefix_of(self.tags.unwrap())
    }

    /// Header and tags are both known: packets are handed out.
    pub open spec fn streaming(self) -> bool {
        self.header is Some && self.tags is Some
    }

    /// `data` staged behind the unread bytes, and nothing read.
    pub open spec fn append(self, data: Seq<u8>) -> Self {
        DemuxerView { stream: self.stream.append(data), ..self }
    }

    /// Read packets until header and tags are both known, a malformed
    /// identification packet turns up, or the staged bytes give no further
    /// packet. While the header is unknown, the first packet of each logical
    /// stream is tried as an identification packet and all others are passed
    /// over; after that, the first packet of the header's stream that begins
    /// with the comment magic becomes the tags.
    pub open spec fn digest(self) -> (Self, Result<(), Error>)
        decreases self.stream.buffer.len(), self.stream.unread(),
        via Self::digest_decreases
    {
        if self.streaming() || !self.stream.wf() {
            (self, Ok(()))
        } else {
            let (stream, found) = self.stream.next_packet();
            let read = DemuxerView { stream, ..self };
            match found {
                None => (read, Ok(())),
                Some((page, packet)) => match self.header {
                    None => if page.bos {
                        match identification(packet, page.stream_serial) {
                            Identification::Foreign => read.digest(),
                            Identification::Malformed => (read, Err(Error::Malformed)),
                            Identification::Header(header) => DemuxerView {
                                header: Some(header),
                                ..read
                            }.digest(),
                        }
                    } else {
                        read.digest()
                    },
                    Some(header) => if page.stream_serial == header.serial
                        && comment_magic().is_prefix_of(packet) {
                        (DemuxerView { tags: Some(packet), ..read }, Ok(()))
                    } else {
                        read.digest()
                    },
                },
            }
        }
    }

    #[via_fn]
    proof fn digest_decreases(self) {
        if !self.streaming() && self.stream.wf() {
            lemma_next_packet_progress(self.stream);
        }
    }

    /// What a push of `data` does: stage the bytes, then read on.
    pub open spec fn push(self, data: Seq<u8>) -> (Self, Result<(), Error>) {
        self.append(data).digest()
    }

    /// What a pull does: once header and tags are known, read packets until
    /// one of the header's stream is found, which is handed out, or the
    /// staged bytes give no further packet. Packets of other streams are
    /// read and dropped.
    pub open spec fn next(self) -> (Self, Option<Seq<u8>>)
        decreases self.stream.buffer.len(), self.stream.unread(),
        via Self::next_decreases
    {
        if !self.streaming() || !self.stream.wf() {
            (self, None)
        } else {
            let (stream, found) = self.stream.next_packet();
            let read = DemuxerView { stream, ..self };
            match found {
                None => (read, None),
                Some((page, packet)) => if page.stream_serial == self.header.unwrap().serial {
                    (read, Some(packet))
                } else {
                    read.next()
                },
            }
        }
    }

    #[via_fn]
    proof fn next_decreases(self) {
        if self.streaming() && self.stream.wf() {
            lemma_next_packet_progress(self.stream);
        }
    }
}

/// Reading on keeps the invariant: in particular there are never tags
/// without a header.
pub proof fn lemma_digest_wf(d: DemuxerView)
    requires
        d.wf(),
    ensures
        d.digest().0.wf(),
        d.header is Some ==> d.digest().0.header == d.header,
        d.tags is Some ==> d.digest().0 == d,
    decreases d.stream.buffer.len(), d.stream.unread(),
{
    if !d.streaming() {
        lemma_next_packet_progress(d.stream);
        let (stream, found) = d.stream.next_packet();
        let read = DemuxerView { stream, ..d };
        match found {
            None => {},
            Some((page, packet)) => match d.header {
                None => if page.bos {
                    match identification(packet, page.stream_serial) {
                        Identification::Foreign => lemma_digest_wf(read),
                        Identification::Malformed => {},
                        Identification::Header(header) => lemma_digest_wf(
                            DemuxerView { header: Some(header), ..read },
                        ),
                    }
                } else {
                    lemma_digest_wf(read)
                },
                Some(header) => if page.stream_serial == header.serial && comment_magic().is_prefix_of(
                    packet,
                ) {
                } else {
                    lemma_digest_wf(read)
                },
            },
        }
    }
}

/// A pull keeps the invariant, and header and tags as they are.
pub proof fn lemma_next_wf(d: DemuxerView)
    requires
        d.wf(),
    ensures
        d.next().0.wf(),
        d.next().0.header == d.header,
        d.next().0.tags == d.tags,
    decreases d.stream.buffer.len(), d.stream.unread(),
{
    if d.streaming() {
        lemma_next_packet_progress(d.stream);
        let (stream, found) = d.stream.next_packet();
        let read = DemuxerView { stream, ..d };
        match found {
            None => {},
            Some((page, packet)) => if page.stream_serial != d.header.unwrap().serial {
                lemma_next_wf(read);
            },
        }
    }
}

/// Reading on with more bytes staged: a failure on the bytes at hand is the
/// same failure, in the same state, with the new bytes behind it; without
/// one, reading goes on from where it stopped.
pub proof fn lemma_digest_append(d: DemuxerView, more: Seq<u8>)
    requires
        d.wf(),
    ensures
        d.digest().1 is Err ==> d.append(more).digest() == (
            d.digest().0.append(more),
            d.digest().1,
        ),
        d.digest().1 is Ok ==> d.append(more).digest() == d.digest().0.append(more).digest(),
    decreases d.stream.buffer.len(), d.stream.unread(),
{
    crate::reassembly::lemma_seek_page_append(d.stream, more);
    if !d.streaming() {
        lemma_next_packet_progress(d.stream);
        lemma_next_packet_append(d.stream, more);
        let (stream, found) = d.stream.next_packet();
        let read = DemuxerView { stream, ..d };
        match found {
            None => {
                crate::reassembly::lemma_seek_page_append(stream, more);
                assert(read.append(more) == DemuxerView { stream: stream.append(more), ..d });
            },
            Some((page, packet)) => {
                assert(d.append(more).stream.next_packet() == (stream.append(more), found));
                match d.header {
                    None => if page.bos {
                        match identification(packet, page.stream_serial) {
                            Identification::Foreign => lemma_digest_append(read, more),
                            Identification::Malformed => {},
                            Identification::Header(header) => lemma_digest_append(
                                DemuxerView { header: Some(header), ..read },
                                more,
                            ),
                        }
                    } else {
                        lemma_digest_append(read, more)
                    },
                    Some(header) => if page.stream_serial == header.serial
                        && comment_magic().is_prefix_of(packet) {
                        let done = DemuxerView { tags: Some(packet), ..read };
                        assert(done.append(more).digest() == (done.append(more), Ok::<(), Error>(())));
                    } else {
                        lemma_digest_append(read, more)
                    },
                }
            },
        }
    }
}

/// A pull with more bytes staged: a packet that the bytes at hand gave is
/// given again, and leaves the same state with the new bytes behind it;
/// where they gave none, the search goes on from where it stopped.
pub proof fn lemma_next_append(d: DemuxerView, more: Seq<u8>)
    requires
        d.wf(),
    ensures
        d.next().1 is Some ==> d.append(more).next() == (d.next().0.append(more), d.next().1),
        d.next().1 is None ==> d.append(more).next() == d.next().0.append(more).next(),
    decreases d.stream.buffer.len(), d.stream.unread(),
{
    crate::reassembly::lemma_seek_page_append(d.stream, more);
    if d.streaming() {
        lemma_next_packet_progress(d.stream);
        lemma_next_packet_append(d.stream, more);
        let (stream, found) = d.stream.next_packet();
        let read = DemuxerView { stream, ..d };
        match found {
            None => {
                crate::reassembly::lemma_seek_page_append(stream, more);
            },
            Some((page, packet)) => {
                assert(d.append(more).stream.next_packet() == (stream.append(more), found));
                if page.stream_serial != d.header.unwrap().serial {
                    lemma_next_append(read, more);
                }
            },
        }
    }
}

} // verus!
