//! What holds of the demultiplexer whatever it is fed, proved of the state
//! machines that the executable code follows.
use crate::framing::{framed, header_of, is_page, page_len};
use crate::isolation::{lemma_foreign_page_is_invisible, packets_of};
use crate::reassembly::{lemma_next_packet_progress, lemma_same_packets_step};
use crate::resync::{lemma_junk_between_pages, no_capture};
use crate::state::{
    comment_magic, identification, lemma_digest_append, lemma_digest_wf, lemma_next_append,
    lemma_next_wf, DemuxerView, Identification,
};
use crate::ogg::PageHeader;
use crate::{Error, Header};
use vstd::prelude::*;

verus! {

/// The chunks of `chunks`, one behind the other.
pub open spec fn joined(chunks: Seq<Seq<u8>>) -> Seq<u8>
    decreases chunks.len(),
{
    if chunks.len() == 0 {
        Seq::empty()
    } else {
        joined(chunks.drop_last()) + chunks.last()
    }
}

/// The chunks of `chunks` pushed one after the other, up to the first push
/// that fails.
pub open spec fn push_each(d: DemuxerView, chunks: Seq<Seq<u8>>) -> (DemuxerView, Result<(), Error>)
    decreases chunks.len(),
{
    if chunks.len() == 0 {
        (d, Ok(()))
    } else {
        let (before, result) = push_each(d, chunks.drop_last());
        if result is Err {
            (before, result)
        } else {
            before.push(chunks.last())
        }
    }
}

/// Every packet that pulls hand out until one finds nothing, in order.
pub open spec fn pull_all(d: DemuxerView) -> Seq<Seq<u8>>
    decreases d.stream.buffer.len(), d.stream.unread(),
    via pull_all_decreases
{
    if !d.wf() {
        Seq::empty()
    } else {
        match d.next().1 {
            Some(packet) => seq![packet] + pull_all(d.next().0),
            None => Seq::empty(),
        }
    }
}

#[via_fn]
proof fn pull_all_decreases(d: DemuxerView) {
    if d.wf() {
        lemma_next_progress(d);
    }
}

/// A pull never adds bytes; one that hands out a packet has dropped bytes or
/// moved the segment cursor forward.
pub proof fn lemma_next_progress(d: DemuxerView)
    requires
        d.wf(),
    ensures
        d.next().0.wf(),
        d.next().0.stream.buffer.len() <= d.stream.buffer.len(),
        d.next().1 is Some ==> d.next().0.stream.buffer.len() < d.stream.buffer.len() || (
        d.next().0.stream.buffer.len() == d.stream.buffer.len() && d.next().0.stream.unread()
            < d.stream.unread()),
    decreases d.stream.buffer.len(), d.stream.unread(),
{
    lemma_next_wf(d);
    if d.streaming() {
        crate::reassembly::lemma_next_packet_progress(d.stream);
        let (stream, found) = d.stream.next_packet();
        match found {
            None => {},
            Some((page, packet)) => if page.stream_serial != d.header.unwrap().serial {
                lemma_next_progress(DemuxerView { stream, ..d });
            },
        }
    }
}

/// Chunk boundaries do not show. Where a push of `first + second` succeeds,
/// so does a push of `first`, and a push of `second` after it leaves the
/// demultiplexer in the very state that the one push leaves it in: the same
/// header, the same tags, the same bytes unread, hence the same packets at
/// every later pull.
pub proof fn lemma_split_push(d: DemuxerView, first: Seq<u8>, second: Seq<u8>)
    requires
        d.wf(),
        d.push(first + second).1 is Ok,
    ensures
        d.push(first).1 is Ok,
        d.push(first).0.push(second) == d.push(first + second),
        d.push(first).0.push(second).0.header == d.push(first + second).0.header,
        d.push(first).0.push(second).0.tags == d.push(first + second).0.tags,
        pull_all(d.push(first).0.push(second).0) == pull_all(d.push(first + second).0),
{
    let staged = d.append(first);
    crate::reassembly::lemma_seek_page_append(d.stream, first);
    assert(staged.wf());
    assert(d.append(first + second) =~= staged.append(second)) by {
        assert(d.stream.buffer + (first + second) =~= (d.stream.buffer + first) + second);
    }
    lemma_digest_append(staged, second);
}

/// Chunk boundaries do not show, however many there are: one chunk or more,
/// of any sizes, pushed one after the other, leave the demultiplexer in the
/// state that one push of all their bytes leaves it in, where that one push
/// succeeds.
pub proof fn lemma_chunked_push(d: DemuxerView, chunks: Seq<Seq<u8>>)
    requires
        d.wf(),
        chunks.len() >= 1,
        d.push(joined(chunks)).1 is Ok,
    ensures
        push_each(d, chunks) == d.push(joined(chunks)),
        pull_all(push_each(d, chunks).0) == pull_all(d.push(joined(chunks)).0),
    decreases chunks.len(),
{
    let init = chunks.drop_last();
    let last = chunks.last();
    if init.len() == 0 {
        assert(joined(init) =~= Seq::<u8>::empty());
        assert(joined(chunks) =~= last);
        assert(push_each(d, init) == (d, Ok::<(), Error>(())));
    } else {
        lemma_split_push(d, joined(init), last);
        lemma_chunked_push(d, init);
    }
}

/// A pull between two pushes does not show either. Once header and tags are
/// known, a packet that is handed out before more bytes are pushed is the
/// packet that would be handed out after, and what is left to read is the
/// same; a pull that finds nothing loses nothing.
pub proof fn lemma_pull_then_push(d: DemuxerView, more: Seq<u8>)
    requires
        d.wf(),
        d.streaming(),
    ensures
        d.push(more) == (d.append(more), Ok::<(), Error>(())),
        d.next().1 is Some ==> d.push(more).0.next() == (d.next().0.push(more).0, d.next().1),
        d.next().1 is None ==> d.push(more).0.next() == d.next().0.push(more).0.next(),
{
    lemma_next_append(d, more);
    lemma_next_wf(d);
}

/// Header before tags, tags before packets. In every state that pushes and
/// pulls lead to from a new demultiplexer there are no tags without a
/// header, and none that do not begin with the comment magic; a pull hands
/// out nothing and changes nothing until header and tags are both known;
/// and header and tags, once known, stay as they are.
pub proof fn lemma_gating(d: DemuxerView, data: Seq<u8>)
    requires
        d.wf(),
    ensures
        DemuxerView::empty().wf(),
        d.push(data).0.wf(),
        d.next().0.wf(),
        d.tags is Some ==> d.header is Some,
        d.push(data).0.tags is Some ==> d.push(data).0.header is Some,
        d.push(data).0.tags is Some ==> comment_magic().is_prefix_of(d.push(data).0.tags.unwrap()),
        d.header is None || d.tags is None ==> d.next() == (d, None::<Seq<u8>>),
        d.header is Some ==> d.push(data).0.header == d.header,
        d.tags is Some ==> d.push(data).0.tags == d.tags,
        d.next().0.header == d.header,
        d.next().0.tags == d.tags,
{
    crate::reassembly::lemma_seek_page_append(d.stream, data);
    lemma_digest_wf(d.append(data));
    lemma_next_wf(d);
}

/// `d` and `e` know the same header and tags and have the same packets
/// still to come.
pub open spec fn same_input(d: DemuxerView, e: DemuxerView) -> bool {
    &&& d.wf()
    &&& e.wf()
    &&& d.header == e.header
    &&& d.tags == e.tags
    &&& d.stream.packets() == e.stream.packets()
}

/// The demultiplexer goes by the packets alone: two states with the same
/// header and tags and the same packets to come read on to the same result,
/// the same header and tags, and the same packets to come.
pub proof fn lemma_digest_same_input(d: DemuxerView, e: DemuxerView)
    requires
        same_input(d, e),
    ensures
        d.digest().1 == e.digest().1,
        same_input(d.digest().0, e.digest().0),
    decreases d.stream.buffer.len(), d.stream.unread(),
{
    if !d.streaming() {
        lemma_next_packet_progress(d.stream);
        lemma_same_packets_step(d.stream, e.stream);
        let (stream_d, found) = d.stream.next_packet();
        let (stream_e, _) = e.stream.next_packet();
        let read_d = DemuxerView { stream: stream_d, ..d };
        let read_e = DemuxerView { stream: stream_e, ..e };
        match found {
            None => {},
            Some((page, packet)) => match d.header {
                None => if page.bos {
                    match identification(packet, page.stream_serial) {
                        Identification::Foreign => lemma_digest_same_input(read_d, read_e),
                        Identification::Malformed => {},
                        Identification::Header(header) => lemma_digest_same_input(
                            DemuxerView { header: Some(header), ..read_d },
                            DemuxerView { header: Some(header), ..read_e },
                        ),
                    }
                } else {
                    lemma_digest_same_input(read_d, read_e)
                },
                Some(header) => if page.stream_serial == header.serial
                    && comment_magic().is_prefix_of(packet) {
                } else {
                    lemma_digest_same_input(read_d, read_e)
                },
            },
        }
    }
}

/// Two states with the same header and tags and the same packets to come
/// hand out the same packet at the next pull, and are alike after it.
pub proof fn lemma_next_same_input(d: DemuxerView, e: DemuxerView)
    requires
        same_input(d, e),
    ensures
        d.next().1 == e.next().1,
        same_input(d.next().0, e.next().0),
    decreases d.stream.buffer.len(), d.stream.unread(),
{
    if d.streaming() {
        lemma_next_packet_progress(d.stream);
        lemma_same_packets_step(d.stream, e.stream);
        let (stream_d, found) = d.stream.next_packet();
        let (stream_e, _) = e.stream.next_packet();
        match found {
            None => {},
            Some((page, packet)) => if page.stream_serial != d.header.unwrap().serial {
                lemma_next_same_input(
                    DemuxerView { stream: stream_d, ..d },
                    DemuxerView { stream: stream_e, ..e },
                );
            },
        }
    }
}

/// Two states with the same header and tags and the same packets to come
/// hand out the same packets at all later pulls.
pub proof fn lemma_pull_all_same_input(d: DemuxerView, e: DemuxerView)
    requires
        same_input(d, e),
    ensures
        pull_all(d) == pull_all(e),
    decreases d.stream.buffer.len(), d.stream.unread(),
{
    lemma_next_same_input(d, e);
    lemma_next_progress(d);
    if d.next().1 is Some {
        lemma_pull_all_same_input(d.next().0, e.next().0);
    }
}

/// Junk between two pages does not show. A new demultiplexer, or any whose
/// staged bytes are all read, is pushed a whole page, then bytes in which
/// (read together with what follows) no capture pattern begins, then bytes
/// that begin with a whole page. It ends with the result, the header, the
/// tags and the packets that it ends with where the bytes in between are
/// left out.
pub proof fn lemma_junk_does_not_show(
    d: DemuxerView,
    page: Seq<u8>,
    junk: Seq<u8>,
    rest: Seq<u8>,
)
    requires
        d.wf(),
        d.stream.buffer.len() == 0,
        is_page(page),
        framed(rest),
        no_capture(junk + rest, junk.len() as int),
    ensures
        d.push(page + junk + rest).1 == d.push(page + rest).1,
        d.push(page + junk + rest).0.header == d.push(page + rest).0.header,
        d.push(page + junk + rest).0.tags == d.push(page + rest).0.tags,
        pull_all(d.push(page + junk + rest).0) == pull_all(d.push(page + rest).0),
{
    let clean = d.append(page + rest);
    let dirty = d.append(page + junk + rest);
    assert(clean.stream.buffer =~= page + rest);
    assert(dirty.stream.buffer =~= page + junk + rest);
    lemma_junk_between_pages(clean.stream, page, junk, rest);
    assert(dirty.stream =~= clean.stream.with_buffer(page + junk + rest));
    lemma_digest_same_input(dirty, clean);
    lemma_pull_all_same_input(dirty.digest().0, clean.digest().0);
}

/// Once header and tags are known, the packets that pulls hand out are the
/// packets of the header's logical stream, and no others.
pub proof fn lemma_pull_all_is_packets_of(d: DemuxerView)
    requires
        d.wf(),
        d.streaming(),
    ensures
        pull_all(d) == packets_of(d.stream, d.header.unwrap().serial),
    decreases d.stream.buffer.len(), d.stream.unread(),
{
    lemma_next_packet_progress(d.stream);
    lemma_next_progress(d);
    let (stream, found) = d.stream.next_packet();
    let read = DemuxerView { stream, ..d };
    match found {
        None => {},
        Some((page, packet)) => {
            lemma_pull_all_is_packets_of(read);
            if page.stream_serial != d.header.unwrap().serial {
                assert(d.next() == read.next());
                assert(packets_of(d.stream, d.header.unwrap().serial) =~= packets_of(
                    stream,
                    d.header.unwrap().serial,
                ));
            }
        },
    }
}

/// Pages of other logical streams do not show. Once header and tags are
/// known, a page of another logical stream at the head of the unread bytes,
/// whatever it holds and whether or not it ends its stream, changes nothing
/// of the packets that pulls hand out: they are those that come with the
/// page taken out.
pub proof fn lemma_foreign_page_does_not_show(d: DemuxerView)
    requires
        d.wf(),
        d.streaming(),
        d.stream.segment == 0,
        framed(d.stream.buffer),
        header_of(d.stream.buffer).stream_serial != d.header.unwrap().serial,
    ensures
        pull_all(d) == pull_all(without_head_page(d)),
{
    lemma_pull_all_is_packets_of(d);
    lemma_pull_all_is_packets_of(without_head_page(d));
    lemma_foreign_page_is_invisible(d.stream, d.header.unwrap().serial);
}

/// `d` with the page at the head of its unread bytes taken out.
pub open spec fn without_head_page(d: DemuxerView) -> DemuxerView {
    DemuxerView {
        stream: d.stream.with_buffer(d.stream.buffer.skip(page_len(d.stream.buffer) as int)),
        ..d
    }
}

/// `found` is an identification packet that says `header`: it ended on the
/// first page of a logical stream and reads as `header`.
pub open spec fn names_header(found: (PageHeader, Seq<u8>), header: Header) -> bool {
    found.0.bos && identification(found.1, found.0.stream_serial) == Identification::Header(
        header,
    )
}

/// `found` is the comment packet `tags` of the stream of `header`.
pub open spec fn names_tags(found: (PageHeader, Seq<u8>), header: Header, tags: Seq<u8>) -> bool {
    &&& found.0.stream_serial == header.serial
    &&& found.1 == tags
    &&& comment_magic().is_prefix_of(tags)
}

/// Nothing is recognized before it is seen. A header that reading on makes
/// known was read as an identification packet from one of the packets that
/// the unread bytes held; tags that it makes known are one of those
/// packets, of the header's logical stream, and begin with the comment
/// magic.
pub proof fn lemma_recognized_from_packets(d: DemuxerView)
    requires
        d.wf(),
    ensures
        d.header is None && d.digest().0.header is Some ==> exists|i: int|
            0 <= i < d.stream.packets().len() && names_header(
                #[trigger] d.stream.packets()[i],
                d.digest().0.header.unwrap(),
            ),
        d.tags is None && d.digest().0.tags is Some ==> exists|i: int|
            0 <= i < d.stream.packets().len() && names_tags(
                #[trigger] d.stream.packets()[i],
                d.digest().0.header.unwrap(),
                d.digest().0.tags.unwrap(),
            ),
    decreases d.stream.buffer.len(), d.stream.unread(),
{
    if !d.streaming() {
        lemma_next_packet_progress(d.stream);
        let (stream, found) = d.stream.next_packet();
        let read = DemuxerView { stream, ..d };
        let packets = d.stream.packets();
        match found {
            None => {},
            Some((page, packet)) => {
                assert(packets == seq![(page, packet)] + stream.packets());
                assert(packets[0] == (page, packet));
                let next = match d.header {
                    None => if page.bos {
                        match identification(packet, page.stream_serial) {
                            Identification::Foreign => Some(read),
                            Identification::Malformed => None,
                            Identification::Header(header) => Some(
                                DemuxerView { header: Some(header), ..read },
                            ),
                        }
                    } else {
                        Some(read)
                    },
                    Some(header) => if page.stream_serial == header.serial
                        && comment_magic().is_prefix_of(packet) {
                        None
                    } else {
                        Some(read)
                    },
                };
                match next {
                    None => {
                        if d.digest().0.tags is Some {
                            assert(names_tags(
                                packets[0],
                                d.digest().0.header.unwrap(),
                                d.digest().0.tags.unwrap(),
                            ));
                        }
                    },
                    Some(on) => {
                        assert(d.digest() == on.digest());
                        lemma_recognized_from_packets(on);
                        lemma_digest_wf(on);
                        let end = on.digest().0;
                        if d.header is None && end.header is Some {
                            if on.header is Some {
                                assert(names_header(packets[0], end.header.unwrap()));
                            } else {
                                let i = choose|i: int|
                                    0 <= i < stream.packets().len() && names_header(
                                        #[trigger] stream.packets()[i],
                                        end.header.unwrap(),
                                    );
                                assert(packets[i + 1] == stream.packets()[i]);
                            }
                        }
                        if d.tags is None && end.tags is Some {
                            let i = choose|i: int|
                                0 <= i < stream.packets().len() && names_tags(
                                    #[trigger] stream.packets()[i],
                                    end.header.unwrap(),
                                    end.tags.unwrap(),
                                );
                            assert(packets[i + 1] == stream.packets()[i]);
                        }
                    },
                }
            },
        }
    }
}

} // verus!
