use opus_mux::{Demuxer, Error};

const CONTINUED: u8 = 0x01;
const BOS: u8 = 0x02;
const EOS: u8 = 0x04;

/// One page: fixed header, lacing table, payload.
fn page(flags: u8, serial: u32, sequence: u32, table: &[u8], payload: &[u8]) -> Vec<u8> {
    assert!(table.len() <= 255);
    assert_eq!(table.iter().map(|&v| v as usize).sum::<usize>(), payload.len());
    let mut out = Vec::new();
    out.extend_from_slice(b"OggS");
    out.push(0);
    out.push(flags);
    out.extend_from_slice(&0u64.to_le_bytes());
    out.extend_from_slice(&serial.to_le_bytes());
    out.extend_from_slice(&sequence.to_le_bytes());
    out.extend_from_slice(&0u32.to_le_bytes());
    out.push(table.len() as u8);
    out.extend_from_slice(table);
    out.extend_from_slice(payload);
    out
}

/// The lacing values of one packet of `len` bytes.
fn lacing(len: usize) -> Vec<u8> {
    let mut table = vec![255u8; len / 255];
    table.push((len % 255) as u8);
    table
}

/// A page that holds the given packets, each whole.
fn page_of(flags: u8, serial: u32, sequence: u32, packets: &[&[u8]]) -> Vec<u8> {
    let mut table = Vec::new();
    let mut payload = Vec::new();
    for p in packets {
        table.extend(lacing(p.len()));
        payload.extend_from_slice(p);
    }
    page(flags, serial, sequence, &table, &payload)
}

fn id_packet(channels: u8, pre_skip: u16, gain: i16) -> Vec<u8> {
    let mut p = Vec::new();
    p.extend_from_slice(b"OpusHead");
    p.push(0x01);
    p.push(channels);
    p.extend_from_slice(&pre_skip.to_le_bytes());
    p.extend_from_slice(&48000u32.to_le_bytes());
    p.extend_from_slice(&gain.to_le_bytes());
    p.push(0x00);
    p
}

fn tags_packet() -> Vec<u8> {
    let mut p = Vec::new();
    p.extend_from_slice(b"OpusTags");
    p.extend_from_slice(&4u32.to_le_bytes());
    p.extend_from_slice(b"test");
    p.extend_from_slice(&0u32.to_le_bytes());
    p
}

fn bytes(seed: u8, len: usize) -> Vec<u8> {
    (0..len).map(|i| (i as u8).wrapping_mul(31).wrapping_add(seed)).collect()
}

/// A container with one Opus stream of serial 7: header, tags, and the
/// given packets one to a page.
fn container(packets: &[Vec<u8>]) -> Vec<u8> {
    let mut out = page_of(BOS, 7, 0, &[&id_packet(2, 312, 0)]);
    out.extend(page_of(0, 7, 1, &[&tags_packet()]));
    for (i, p) in packets.iter().enumerate() {
        out.extend(page_of(0, 7, 2 + i as u32, &[p]));
    }
    out
}

fn pull_all(demuxer: &mut Demuxer) -> Vec<Vec<u8>> {
    let mut out = Vec::new();
    while let Some(p) = demuxer.next() {
        out.push(p);
    }
    out
}

fn summary(demuxer: &mut Demuxer) -> (Option<(u8, u16, i16, u32)>, Option<Vec<u8>>, Vec<Vec<u8>>) {
    let header = demuxer.header().map(|h| (h.channels, h.pre_skip, h.output_gain, h.serial));
    let tags = demuxer.tags().map(|t| t.to_vec());
    (header, tags, pull_all(demuxer))
}

#[test]
fn error_in_words() {
    assert_eq!(Error::Malformed.message(), "malformed container");
    assert_eq!(format!("{:?}", Error::Malformed.clone()), "Malformed");
}

#[test]
fn new_demuxer_knows_nothing() {
    let mut demuxer = Demuxer::new();
    assert!(demuxer.header().is_none());
    assert!(demuxer.tags().is_none());
    assert_eq!(demuxer.next(), None);
    let mut other = Demuxer::default();
    assert!(other.header().is_none());
    assert!(other.tags().is_none());
    assert_eq!(other.next(), None);
}

#[test]
fn empty_push_changes_nothing() {
    let mut demuxer = Demuxer::new();
    assert!(demuxer.push(&[]).is_ok());
    assert!(demuxer.header().is_none());
    assert_eq!(demuxer.next(), None);
}

#[test]
fn header_fields_are_read_little_endian() {
    let mut demuxer = Demuxer::new();
    let data = page_of(BOS, 0xdead_beef, 0, &[&id_packet(6, 0x1234, -256)]);
    assert!(demuxer.push(&data).is_ok());
    let header = *demuxer.header().unwrap();
    assert_eq!(header.channels, 6);
    assert_eq!(header.pre_skip, 0x1234);
    assert_eq!(header.output_gain, -256);
    assert_eq!(header.serial, 0xdead_beef);
}

#[test]
fn output_gain_extremes() {
    for gain in [i16::MIN, -1, 0, 1, i16::MAX] {
        let mut demuxer = Demuxer::new();
        assert!(demuxer.push(&page_of(BOS, 1, 0, &[&id_packet(1, 0, gain)])).is_ok());
        assert_eq!(demuxer.header().unwrap().output_gain, gain);
    }
}

#[test]
fn eighteen_bytes_are_enough_for_a_header() {
    let id = id_packet(2, 312, 5);
    let mut demuxer = Demuxer::new();
    assert!(demuxer.push(&page_of(BOS, 1, 0, &[&id[..18]])).is_ok());
    let header = *demuxer.header().unwrap();
    assert_eq!((header.channels, header.pre_skip, header.output_gain), (2, 312, 5));
}

#[test]
fn short_identification_packet_is_malformed() {
    let id = id_packet(2, 312, 0);
    for len in [8usize, 9, 10, 12, 17] {
        let mut demuxer = Demuxer::new();
        let result = demuxer.push(&page_of(BOS, 1, 0, &[&id[..len]]));
        assert!(matches!(result, Err(Error::Malformed)), "length {}", len);
        assert!(demuxer.header().is_none());
        assert!(demuxer.tags().is_none());
    }
}

#[test]
fn reading_goes_on_behind_a_malformed_packet() {
    let id = id_packet(2, 312, 0);
    let mut data = page_of(BOS, 1, 0, &[&id[..10]]);
    data.extend(container(&[bytes(1, 20)]));
    let mut demuxer = Demuxer::new();
    assert!(matches!(demuxer.push(&data), Err(Error::Malformed)));
    assert!(demuxer.header().is_none());
    assert!(demuxer.push(&[]).is_ok());
    assert_eq!(demuxer.header().unwrap().serial, 7);
    assert_eq!(demuxer.tags().unwrap(), &tags_packet()[..]);
    assert_eq!(pull_all(&mut demuxer), vec![bytes(1, 20)]);
}

#[test]
fn unknown_major_version_is_passed_over() {
    let mut odd = id_packet(2, 312, 0);
    odd[8] = 0x10;
    // Short, too: the version decides before the length does.
    let mut data = page_of(BOS, 1, 0, &[&odd[..9]]);
    data.extend(page_of(BOS, 2, 0, &[&odd]));
    let mut demuxer = Demuxer::new();
    assert!(demuxer.push(&data).is_ok());
    assert!(demuxer.header().is_none());
    data = container(&[bytes(3, 3)]);
    assert!(demuxer.push(&data).is_ok());
    assert_eq!(demuxer.header().unwrap().serial, 7);
}

#[test]
fn minor_version_bits_are_accepted() {
    let mut id = id_packet(2, 312, 0);
    id[8] = 0x0f;
    let mut demuxer = Demuxer::new();
    assert!(demuxer.push(&page_of(BOS, 1, 0, &[&id])).is_ok());
    assert!(demuxer.header().is_some());
}

#[test]
fn identification_needs_a_first_page() {
    let mut demuxer = Demuxer::new();
    assert!(demuxer.push(&page_of(0, 1, 0, &[&id_packet(2, 312, 0)])).is_ok());
    assert!(demuxer.header().is_none());
    // Not even a short one fails there.
    assert!(demuxer.push(&page_of(0, 1, 1, &[b"OpusHead"])).is_ok());
    assert!(demuxer.header().is_none());
}

#[test]
fn no_tags_and_no_packets_before_the_header() {
    let mut data = page_of(BOS, 3, 0, &[b"something else"]);
    data.extend(page_of(0, 3, 1, &[&tags_packet()]));
    data.extend(page_of(0, 3, 2, &[&bytes(0, 10)]));
    let mut demuxer = Demuxer::new();
    assert!(demuxer.push(&data).is_ok());
    assert!(demuxer.header().is_none());
    assert!(demuxer.tags().is_none());
    assert_eq!(demuxer.next(), None);
}

#[test]
fn no_packets_before_the_tags() {
    let mut demuxer = Demuxer::new();
    let mut data = page_of(BOS, 7, 0, &[&id_packet(2, 312, 0)]);
    assert!(demuxer.push(&data).is_ok());
    assert!(demuxer.header().is_some());
    assert!(demuxer.tags().is_none());
    assert_eq!(demuxer.next(), None);

    // A packet of the stream that is no comment packet is dropped.
    data = page_of(0, 7, 1, &[&bytes(9, 30)]);
    assert!(demuxer.push(&data).is_ok());
    assert!(demuxer.tags().is_none());
    assert_eq!(demuxer.next(), None);

    // Tags of another stream are not the tags.
    data = page_of(0, 8, 0, &[&tags_packet()]);
    assert!(demuxer.push(&data).is_ok());
    assert!(demuxer.tags().is_none());
    assert_eq!(demuxer.next(), None);

    data = page_of(0, 7, 2, &[&tags_packet()]);
    data.extend(page_of(0, 7, 3, &[&bytes(5, 12)]));
    assert!(demuxer.push(&data).is_ok());
    assert_eq!(demuxer.tags().unwrap(), &tags_packet()[..]);
    assert_eq!(demuxer.next(), Some(bytes(5, 12)));
    assert_eq!(demuxer.next(), None);
}

#[test]
fn header_and_tags_are_set_once() {
    let mut demuxer = Demuxer::new();
    assert!(demuxer.push(&container(&[])).is_ok());
    let mut later = page_of(BOS, 9, 0, &[&id_packet(1, 5, 5)]);
    let mut other_tags = tags_packet();
    other_tags.extend_from_slice(b"more");
    later.extend(page_of(0, 7, 5, &[&other_tags]));
    assert!(demuxer.push(&later).is_ok());
    assert_eq!(demuxer.header().unwrap().serial, 7);
    assert_eq!(demuxer.header().unwrap().channels, 2);
    assert_eq!(demuxer.tags().unwrap(), &tags_packet()[..]);
    // Once streaming, the later comment packet is a packet like any other.
    assert_eq!(pull_all(&mut demuxer), vec![other_tags]);
}

#[test]
fn header_and_tags_on_one_page() {
    let audio = bytes(2, 40);
    let data = page_of(BOS, 7, 0, &[&id_packet(2, 312, 0), &tags_packet(), &audio]);
    let mut demuxer = Demuxer::new();
    assert!(demuxer.push(&data).is_ok());
    assert!(demuxer.header().is_some());
    assert_eq!(demuxer.tags().unwrap(), &tags_packet()[..]);
    assert_eq!(pull_all(&mut demuxer), vec![audio]);
}

#[test]
fn packets_come_in_order() {
    let packets: Vec<Vec<u8>> = (0..10).map(|i| bytes(i, 10 + 7 * i as usize)).collect();
    let mut demuxer = Demuxer::new();
    assert!(demuxer.push(&container(&packets)).is_ok());
    assert_eq!(pull_all(&mut demuxer), packets);
}

#[test]
fn several_packets_on_a_page_and_an_empty_one() {
    let a = bytes(1, 3);
    let b: Vec<u8> = Vec::new();
    let c = bytes(2, 255);
    let d = bytes(3, 600);
    let mut data = container(&[]);
    data.extend(page_of(0, 7, 2, &[&a, &b, &c, &d]));
    let mut demuxer = Demuxer::new();
    assert!(demuxer.push(&data).is_ok());
    assert_eq!(pull_all(&mut demuxer), vec![a, b, c, d]);
}

#[test]
fn chunk_boundaries_do_not_show() {
    let packets = vec![bytes(1, 5), bytes(2, 300), bytes(3, 0), bytes(4, 1000)];
    let mut data = container(&packets[..2]);
    // One packet laid over two pages, and one behind it.
    let long = &packets[3];
    data.extend(page_of(0, 7, 4, &[&packets[2]]));
    data.extend(page(0, 7, 5, &[255, 255], &long[..510]));
    data.extend(page(CONTINUED, 7, 6, &[255, 235], &long[510..]));

    let mut whole = Demuxer::new();
    assert!(whole.push(&data).is_ok());
    let expected = summary(&mut whole);
    assert_eq!(expected.0, Some((2, 312, 0, 7)));
    assert_eq!(expected.1, Some(tags_packet()));
    assert_eq!(expected.2, packets);

    for size in [1usize, 2, 3, 5, 26, 27, 28, 64, 255, 1000] {
        let mut demuxer = Demuxer::new();
        for chunk in data.chunks(size) {
            assert!(demuxer.push(chunk).is_ok());
        }
        assert_eq!(summary(&mut demuxer), expected, "chunks of {}", size);
    }
    for cut in 0..=data.len() {
        let mut demuxer = Demuxer::new();
        assert!(demuxer.push(&data[..cut]).is_ok());
        assert!(demuxer.push(&data[cut..]).is_ok());
        assert_eq!(summary(&mut demuxer), expected, "cut at {}", cut);
    }
}

#[test]
fn pulls_between_pushes_do_not_show() {
    let packets: Vec<Vec<u8>> = (0..6).map(|i| bytes(i, 50 * i as usize + 1)).collect();
    let data = container(&packets);
    for size in [1usize, 7, 100] {
        let mut demuxer = Demuxer::new();
        let mut got = Vec::new();
        for chunk in data.chunks(size) {
            assert!(demuxer.push(chunk).is_ok());
            while let Some(p) = demuxer.next() {
                got.push(p);
            }
        }
        assert_eq!(got, packets, "chunks of {}", size);
    }
}

#[test]
fn packet_over_two_pages() {
    for (k, last) in [(1usize, 0usize), (1, 17), (3, 254), (5, 1)] {
        let packet = bytes(k as u8, 255 * k + 255 + last);
        let mut data = container(&[]);
        data.extend(page(0, 7, 2, &vec![255u8; k], &packet[..255 * k]));
        data.extend(page(CONTINUED, 7, 3, &[255, last as u8], &packet[255 * k..]));
        let mut demuxer = Demuxer::new();
        assert!(demuxer.push(&data).is_ok());
        assert_eq!(pull_all(&mut demuxer), vec![packet]);
    }
}

#[test]
fn packet_over_four_pages_of_full_tables() {
    let packet = bytes(11, 255 * 255 * 3 + 100);
    let mut data = container(&[]);
    for i in 0..3 {
        let part = &packet[255 * 255 * i..255 * 255 * (i + 1)];
        let flags = if i == 0 { 0 } else { CONTINUED };
        data.extend(page(flags, 7, 2 + i as u32, &[255u8; 255], part));
    }
    data.extend(page(CONTINUED, 7, 5, &[100], &packet[255 * 255 * 3..]));
    data.extend(page_of(0, 7, 6, &[b"after"]));
    let mut demuxer = Demuxer::new();
    for chunk in data.chunks(4096) {
        assert!(demuxer.push(chunk).is_ok());
    }
    assert_eq!(pull_all(&mut demuxer), vec![packet, b"after".to_vec()]);
}

#[test]
fn identification_packet_over_two_pages_is_not_seen() {
    // The packet ends on a page that is not the first of its stream.
    let id = id_packet(2, 312, 0);
    let mut padded = id.clone();
    padded.resize(255 + 4, 0);
    let mut data = page(BOS, 7, 0, &[255], &padded[..255]);
    data.extend(page(CONTINUED, 7, 1, &[4], &padded[255..]));
    let mut demuxer = Demuxer::new();
    assert!(demuxer.push(&data).is_ok());
    assert!(demuxer.header().is_none());
}

#[test]
fn streams_do_not_disturb_one_another() {
    let a: Vec<Vec<u8>> = (0..4).map(|i| bytes(i, 300 + i as usize)).collect();
    let b: Vec<Vec<u8>> = (0..4).map(|i| bytes(100 + i, 400 + i as usize)).collect();

    // The pages of the two streams in turn.
    let mut mixed = container(&[]);
    let mut alone = container(&[]);
    mixed.extend(page_of(BOS, 8, 0, &[b"other stream"]));
    // Every packet is split 255 + rest over two pages.
    for i in 0..4 {
        let a1 = page(0, 7, 2 + 2 * i as u32, &[255], &a[i][..255]);
        let a2 = page(CONTINUED, 7, 3 + 2 * i as u32, &[(a[i].len() - 255) as u8], &a[i][255..]);
        let b1 = page(0, 8, 1 + 2 * i as u32, &[255], &b[i][..255]);
        let last = i == 3;
        let b2 = page(
            CONTINUED | if last { EOS } else { 0 },
            8,
            2 + 2 * i as u32,
            &[(b[i].len() - 255) as u8],
            &b[i][255..],
        );
        mixed.extend(&a1);
        mixed.extend(&b1);
        mixed.extend(&b2);
        mixed.extend(&a2);
        alone.extend(&a1);
        alone.extend(&a2);
    }
    let tail = page_of(EOS, 7, 20, &[b"last"]);
    mixed.extend(&tail);
    alone.extend(&tail);

    let mut with_other = Demuxer::new();
    assert!(with_other.push(&mixed).is_ok());
    let mut without = Demuxer::new();
    assert!(without.push(&alone).is_ok());
    let mut expected = a.clone();
    expected.push(b"last".to_vec());
    assert_eq!(pull_all(&mut with_other), expected);
    assert_eq!(pull_all(&mut without), expected);
}

#[test]
fn other_stream_ending_on_an_open_packet_is_freed() {
    let mut data = container(&[]);
    // Serial 8 ends with a packet left open; serial 7 goes on.
    data.extend(page(BOS | EOS, 8, 0, &[255], &bytes(0, 255)));
    data.extend(page_of(0, 7, 2, &[b"one"]));
    // A page of serial 8 that claims to continue: nothing is held, so its
    // first fragment is passed over.
    data.extend(page(CONTINUED, 8, 1, &[3, 2], b"xyzab"));
    data.extend(page_of(0, 7, 3, &[b"two"]));
    let mut demuxer = Demuxer::new();
    assert!(demuxer.push(&data).is_ok());
    assert_eq!(pull_all(&mut demuxer), vec![b"one".to_vec(), b"two".to_vec()]);
}

#[test]
fn pages_of_other_streams_are_passed_over_while_streaming() {
    let mut data = container(&[bytes(1, 10)]);
    data.extend(page_of(BOS, 99, 0, &[b"a", b"b", b"c"]));
    data.extend(page_of(0, 99, 1, &[&bytes(7, 700)]));
    data.extend(page_of(0, 7, 3, &[&bytes(2, 20)]));
    let mut demuxer = Demuxer::new();
    assert!(demuxer.push(&data).is_ok());
    assert_eq!(pull_all(&mut demuxer), vec![bytes(1, 10), bytes(2, 20)]);
}

#[test]
fn junk_between_pages_loses_nothing() {
    let packets = vec![bytes(1, 10), bytes(2, 20)];
    let clean = container(&packets);
    let mut expected_demuxer = Demuxer::new();
    assert!(expected_demuxer.push(&clean).is_ok());
    let expected = summary(&mut expected_demuxer);
    assert_eq!(expected.2, packets);

    let junks: Vec<Vec<u8>> = vec![
        vec![0],
        b"Ogg".to_vec(),
        b"OggOggOg".to_vec(),
        b"OOggSS".iter().copied().filter(|&c| c != b'S').collect(),
        bytes(200, 1000).into_iter().map(|b| if b == b'O' { 0 } else { b }).collect(),
    ];
    for junk in &junks {
        // Junk before every page.
        let mut data = Vec::new();
        data.extend(junk);
        data.extend(page_of(BOS, 7, 0, &[&id_packet(2, 312, 0)]));
        data.extend(junk);
        data.extend(page_of(0, 7, 1, &[&tags_packet()]));
        data.extend(junk);
        data.extend(page_of(0, 7, 2, &[&packets[0]]));
        data.extend(junk);
        data.extend(page_of(0, 7, 3, &[&packets[1]]));
        for size in [1usize, 13, data.len()] {
            let mut demuxer = Demuxer::new();
            for chunk in data.chunks(size) {
                assert!(demuxer.push(chunk).is_ok());
            }
            assert_eq!(summary(&mut demuxer), expected);
        }
    }
}

#[test]
fn capture_pattern_with_other_version_is_dropped_with_its_version_byte() {
    let packets = vec![bytes(1, 10)];
    let mut data = Vec::new();
    data.extend_from_slice(b"OggS\x01");
    data.extend(container(&packets));
    let mut demuxer = Demuxer::new();
    assert!(demuxer.push(&data).is_ok());
    assert_eq!(pull_all(&mut demuxer), packets);

    // Five bytes go, not one: the pattern that begins at the version byte's
    // place is not looked at... the bytes behind them are.
    let mut data = Vec::new();
    data.extend_from_slice(b"OggSO");
    data.extend_from_slice(b"ggS");
    data.extend(container(&packets));
    let mut demuxer = Demuxer::new();
    assert!(demuxer.push(&data).is_ok());
    assert_eq!(pull_all(&mut demuxer), packets);
}

#[test]
fn page_without_segments_is_passed_over() {
    let mut data = page(BOS, 7, 0, &[], &[]);
    data.extend(container(&[bytes(1, 10)]));
    data.extend(page(0, 7, 9, &[], &[]));
    data.extend(page_of(0, 7, 10, &[b"x"]));
    let mut demuxer = Demuxer::new();
    assert!(demuxer.push(&data).is_ok());
    assert_eq!(pull_all(&mut demuxer), vec![bytes(1, 10), b"x".to_vec()]);
}

#[test]
fn incomplete_page_waits_for_its_bytes() {
    let data = container(&[bytes(1, 100)]);
    let mut demuxer = Demuxer::new();
    assert!(demuxer.push(&data[..data.len() - 1]).is_ok());
    assert!(demuxer.tags().is_some());
    assert_eq!(demuxer.next(), None);
    assert_eq!(demuxer.next(), None);
    assert!(demuxer.push(&data[data.len() - 1..]).is_ok());
    assert_eq!(demuxer.next(), Some(bytes(1, 100)));
    assert_eq!(demuxer.next(), None);
}

#[test]
fn tail_without_head_is_dropped() {
    let mut data = container(&[]);
    // Continues a packet that was never begun: the fragment goes, the
    // packet behind it on the page comes out.
    data.extend(page(CONTINUED, 7, 2, &[255, 10, 3], &bytes(0, 268)));
    let mut demuxer = Demuxer::new();
    assert!(demuxer.push(&data).is_ok());
    assert_eq!(pull_all(&mut demuxer), vec![bytes(0, 268)[265..].to_vec()]);
}

#[test]
fn tail_without_head_over_a_whole_page() {
    let mut data = container(&[]);
    data.extend(page(CONTINUED, 7, 2, &[255, 255], &bytes(0, 510)));
    data.extend(page(CONTINUED, 7, 3, &[1, 2], b"abc"));
    let mut demuxer = Demuxer::new();
    assert!(demuxer.push(&data).is_ok());
    assert_eq!(pull_all(&mut demuxer), vec![b"bc".to_vec()]);
}

#[test]
fn head_without_tail_is_dropped() {
    let mut data = container(&[]);
    data.extend(page(0, 7, 2, &[255], &bytes(0, 255)));
    // Does not continue: what was held is thrown away.
    data.extend(page(0, 7, 3, &[4], b"next"));
    let mut demuxer = Demuxer::new();
    assert!(demuxer.push(&data).is_ok());
    assert_eq!(pull_all(&mut demuxer), vec![b"next".to_vec()]);
}

#[test]
fn last_page_frees_an_open_packet() {
    let mut data = container(&[]);
    data.extend(page(EOS, 7, 2, &[2, 255], &bytes(0, 257)));
    data.extend(page(CONTINUED, 7, 3, &[1, 1], b"ab"));
    let mut demuxer = Demuxer::new();
    assert!(demuxer.push(&data).is_ok());
    assert_eq!(pull_all(&mut demuxer), vec![bytes(0, 2), b"b".to_vec()]);
}
