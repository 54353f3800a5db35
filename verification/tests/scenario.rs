use opus_mux::Demuxer;

/// One page: fixed header, lacing table, payload.
fn page(flags: u8, serial: u32, sequence: u32, table: &[u8], payload: &[u8]) -> Vec<u8> {
    let mut out = Vec::new();
    out.extend_from_slice(b"OggS");
    out.push(0);
    out.push(flags);
    out.extend_from_slice(&0u64.to_le_bytes());
    out.extend_from_slice(&serial.to_le_bytes());
    out.extend_from_slice(&sequence.to_le_bytes());
    out.extend_from_slice(&0u32.to_le_bytes());
    out.push(table.len() as u8);
    out.extend_from_slice(table);
    out.extend_from_slice(payload);
    out
}

fn id_packet() -> Vec<u8> {
    let mut p = Vec::new();
    p.extend_from_slice(b"OpusHead");
    p.push(0x00);
    p.push(0x02);
    p.extend_from_slice(&[0x38, 0x01]);
    p.extend_from_slice(&48000u32.to_le_bytes());
    p.extend_from_slice(&[0x00, 0x00]);
    p.push(0x00);
    p
}

fn tags_packet() -> Vec<u8> {
    let mut p = Vec::new();
    p.extend_from_slice(b"OpusTags");
    p.extend_from_slice(&0u32.to_le_bytes());
    p.extend_from_slice(&0u32.to_le_bytes());
    p
}

#[test]
fn three_pages_give_header_tags_and_one_packet() {
    let id = id_packet();
    let tags = tags_packet();
    let audio = [1u8, 2, 3, 4, 5];
    let mut bytes = page(0x02, 1, 0, &[id.len() as u8], &id);
    bytes.extend(page(0x00, 1, 1, &[tags.len() as u8], &tags));
    bytes.extend(page(0x00, 1, 2, &[5], &audio));

    let mut demuxer = Demuxer::new();
    assert!(demuxer.push(&bytes).is_ok());
    let header = *demuxer.header().unwrap();
    assert_eq!(header.channels, 2);
    assert_eq!(header.pre_skip, 312);
    assert_eq!(header.output_gain, 0);
    assert_eq!(demuxer.tags().unwrap(), &tags[..]);
    assert_eq!(demuxer.next(), Some(audio.to_vec()));
    assert_eq!(demuxer.next(), None);
}
