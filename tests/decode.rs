use miniz_oxide::deflate::compress_to_vec;
use schematic::container::PlacedBlock;
use schematic::decoder::{decode_payload, inflate_all, inflate_in_chunks, parse_data};
use schematic::error::DecodeError;
use schematic::inflater::StreamInflater;

fn push_string(out: &mut Vec<u8>, s: &str) {
    let n = s.len();
    out.push((n >> 8) as u8);
    out.push((n & 0xFF) as u8);
    out.extend_from_slice(s.as_bytes());
}

fn example_payload() -> Vec<u8> {
    let mut p = vec![0x00, 0x0A, 0x00, 0x05, 0x01];
    push_string(&mut p, "name");
    push_string(&mut p, "value");
    p.push(0x00);
    p.push(0x00);
    p
}

fn full_payload() -> Vec<u8> {
    let mut p = vec![0x01, 0x00, 0x00, 0x20, 0x02];
    push_string(&mut p, "name");
    push_string(&mut p, "bridge");
    push_string(&mut p, "description");
    push_string(&mut p, "");
    p.push(0x03);
    push_string(&mut p, "conveyor");
    push_string(&mut p, "router");
    push_string(&mut p, "s\u{e9}parateur");
    p.push(0x02);
    p.extend_from_slice(&[0x00, 0x12, 0x34, 0xAB, 0xCD, 0x03]);
    p.extend_from_slice(&[0x02, 0xFF, 0xFF, 0x00, 0x01, 0x00]);
    p
}

fn file_of(payload: &[u8]) -> Vec<u8> {
    let mut f = vec![0x4D, 0x53, 0x43, 0x48, 0x00, 0x00, 0x01];
    f.extend_from_slice(&compress_to_vec(payload, 6));
    f
}

/// A raw deflate stream made of one final stored block.
fn stored_block(data: &[u8]) -> Vec<u8> {
    let n = data.len() as u16;
    let mut out = vec![0x01, (n & 0xFF) as u8, (n >> 8) as u8, (!n & 0xFF) as u8, (!n >> 8) as u8];
    out.extend_from_slice(data);
    out
}

#[test]
fn example_file_decodes() {
    let c = parse_data(&file_of(&example_payload())).unwrap();
    assert_eq!(c.magic, vec![0x4D, 0x53, 0x43, 0x48]);
    assert_eq!(c.version, vec![0x00, 0x00, 0x01]);
    assert_eq!(c.width, 10);
    assert_eq!(c.height, 5);
    assert_eq!(c.tag_count, 1);
    assert_eq!(c.tags, vec![("name".to_string(), "value".to_string())]);
    assert_eq!(c.block_name_count, 0);
    assert!(c.block_names.is_empty());
    assert_eq!(c.placed_block_count, 0);
    assert!(c.placed_blocks.is_empty());
}

#[test]
fn counts_match_tables() {
    let c = parse_data(&file_of(&full_payload())).unwrap();
    assert_eq!(c.tags.len(), c.tag_count as usize);
    assert_eq!(c.tag_count, 2);
    assert_eq!(c.block_names.len(), c.block_name_count as usize);
    assert_eq!(c.block_name_count, 3);
    assert_eq!(c.placed_blocks.len(), c.placed_block_count as usize);
    assert_eq!(c.placed_block_count, 2);
}

#[test]
fn round_trip_keeps_every_field() {
    let c = parse_data(&file_of(&full_payload())).unwrap();
    assert_eq!(c.width, 256);
    assert_eq!(c.height, 32);
    assert_eq!(
        c.tags,
        vec![
            ("name".to_string(), "bridge".to_string()),
            ("description".to_string(), String::new()),
        ]
    );
    assert_eq!(
        c.block_names,
        vec!["conveyor".to_string(), "router".to_string(), "s\u{e9}parateur".to_string()]
    );
    assert_eq!(
        c.placed_blocks,
        vec![
            PlacedBlock { name_index: 0, position: 0x1234, config: 0xABCD, rotation: 3 },
            PlacedBlock { name_index: 2, position: 0xFFFF, config: 0x0001, rotation: 0 },
        ]
    );
}

#[test]
fn version_bytes_are_kept() {
    let mut f = file_of(&example_payload());
    f[4] = 0x01;
    f[5] = 0x02;
    f[6] = 0x03;
    f[0] = 0xFF;
    let c = parse_data(&f).unwrap();
    assert_eq!(c.version, vec![0x01, 0x02, 0x03]);
    assert_eq!(c.magic, vec![0xFF, 0x53, 0x43, 0x48]);
}

#[test]
fn stored_block_payload_decodes() {
    let mut f = vec![b'M', b'S', b'C', b'H', 0, 0, 1];
    f.extend_from_slice(&stored_block(&full_payload()));
    let c = parse_data(&f).unwrap();
    assert_eq!(c.block_names[2], "s\u{e9}parateur");
    assert_eq!(c.placed_blocks[1].position, 0xFFFF);
}

#[test]
fn truncated_payload_is_eof_at_every_cut() {
    let p = full_payload();
    for t in 0..p.len() {
        let r = decode_payload(vec![0; 4], vec![0; 3], p[..t].to_vec());
        assert_eq!(r.unwrap_err(), DecodeError::UnexpectedEof, "cut at {}", t);
    }
    assert!(decode_payload(vec![0; 4], vec![0; 3], p.clone()).is_ok());
}

#[test]
fn truncated_file_is_eof_at_every_cut() {
    let f = file_of(&full_payload());
    for t in 0..f.len() {
        assert_eq!(parse_data(&f[..t]).unwrap_err(), DecodeError::UnexpectedEof, "cut at {}", t);
    }
}

#[test]
fn trailing_payload_bytes_are_ignored() {
    let mut p = example_payload();
    p.extend_from_slice(&[1, 2, 3]);
    let c = decode_payload(vec![1, 2, 3, 4], vec![5, 6, 7], p).unwrap();
    assert_eq!(c.width, 10);
    assert_eq!(c.magic, vec![1, 2, 3, 4]);
}

#[test]
fn empty_label_decodes() {
    let mut p = vec![0, 1, 0, 1, 1, 0, 0];
    push_string(&mut p, "x");
    p.extend_from_slice(&[0, 0]);
    let c = parse_data(&file_of(&p)).unwrap();
    assert_eq!(c.tags, vec![(String::new(), "x".to_string())]);
}

#[test]
fn invalid_utf8_in_block_name() {
    let p = vec![0, 1, 0, 1, 0, 1, 0, 1, 0x80, 0];
    assert_eq!(parse_data(&file_of(&p)).unwrap_err(), DecodeError::InvalidEncoding);
}

#[test]
fn short_header_is_eof() {
    assert_eq!(parse_data(&[0x4D, 0x53, 0x43, 0x48, 0, 0]).unwrap_err(), DecodeError::UnexpectedEof);
    assert_eq!(parse_data(&[]).unwrap_err(), DecodeError::UnexpectedEof);
}

#[test]
fn header_without_stream_is_eof() {
    assert_eq!(parse_data(&[1, 2, 3, 4, 5, 6, 7]).unwrap_err(), DecodeError::UnexpectedEof);
}

#[test]
fn reserved_block_type_is_corrupt() {
    let f = vec![0x4D, 0x53, 0x43, 0x48, 0, 0, 1, 0x07, 0x00, 0x00];
    assert_eq!(parse_data(&f).unwrap_err(), DecodeError::CorruptStream);
}

#[test]
fn bad_stored_length_is_corrupt() {
    assert_eq!(inflate_all(&[0x01, 0x02, 0x00, 0x00, 0x00, 0xAA, 0xBB]), Err(DecodeError::CorruptStream));
}

#[test]
fn failed_inflater_refuses_more_input() {
    let mut s = StreamInflater::new();
    assert_eq!(s.feed(&[0x07, 0x00]), Err(DecodeError::CorruptStream));
    assert_eq!(s.feed(&stored_block(b"abc")), Err(DecodeError::CorruptStream));
    assert_eq!(s.finish(), Err(DecodeError::CorruptStream));
}

#[test]
fn inflate_all_reproduces_data() {
    let data: Vec<u8> = (0..5000u32).map(|i| (i * 7 % 251) as u8).collect();
    assert_eq!(inflate_all(&compress_to_vec(&data, 9)).unwrap(), data);
    assert_eq!(inflate_all(&stored_block(b"hello")).unwrap(), b"hello".to_vec());
}

#[test]
fn large_output_crosses_the_window() {
    let data: Vec<u8> = (0..200_000u32).map(|i| (i % 13) as u8).collect();
    assert_eq!(inflate_all(&compress_to_vec(&data, 6)).unwrap(), data);
}

#[test]
fn byte_by_byte_feeding_matches_whole_feeding() {
    let data: Vec<u8> = (0..70_000u32).map(|i| ((i * 31) ^ (i >> 3)) as u8).collect();
    let compressed = compress_to_vec(&data, 6);

    let mut whole = StreamInflater::new();
    let mut a = whole.feed(&compressed).unwrap();
    a.extend(whole.finish().unwrap());

    let mut single = StreamInflater::new();
    let mut b = Vec::new();
    for byte in &compressed {
        b.extend(single.feed(&[*byte]).unwrap());
    }
    b.extend(single.finish().unwrap());

    assert_eq!(a, data);
    assert_eq!(b, a);
}

#[test]
fn feed_returns_the_bytes_of_a_stored_block() {
    let mut s = StreamInflater::new();
    assert_eq!(s.feed(&stored_block(b"abc")).unwrap(), b"abc".to_vec());
    assert_eq!(s.finish().unwrap(), Vec::<u8>::new());
}

#[test]
fn every_chunk_size_gives_the_same_bytes() {
    let data: Vec<u8> = (0..40_000u32).map(|i| ((i * 17) ^ (i >> 5)) as u8).collect();
    let compressed = compress_to_vec(&data, 6);
    for size in [1usize, 2, 3, 7, 64, 1024, compressed.len(), compressed.len() + 5] {
        assert_eq!(inflate_in_chunks(&compressed, size).unwrap(), data, "chunk size {}", size);
    }
}

#[test]
fn every_chunk_size_rejects_a_corrupt_stream() {
    for size in [1usize, 2, 1024] {
        assert_eq!(inflate_in_chunks(&[0x07, 0x00, 0x00], size), Err(DecodeError::CorruptStream));
    }
}

#[test]
fn literal_after_an_empty_block_is_drained() {
    let stream = [0x02u8, 0xAC, 0x02, 0x00];
    assert_eq!(miniz_oxide::inflate::decompress_to_vec(&stream).unwrap(), vec![0x78]);

    let mut whole = StreamInflater::new();
    let mut a = whole.feed(&stream).unwrap();
    a.extend(whole.finish().unwrap());
    assert_eq!(a, vec![0x78]);

    let mut single = StreamInflater::new();
    let mut b = Vec::new();
    for byte in &stream {
        b.extend(single.feed(&[*byte]).unwrap());
    }
    b.extend(single.finish().unwrap());
    assert_eq!(b, vec![0x78]);

    for size in [1usize, 2, 3, 4, 1024] {
        assert_eq!(inflate_in_chunks(&stream, size).unwrap(), vec![0x78], "chunk size {}", size);
    }
}

#[test]
fn payload_after_an_empty_block_decodes() {
    let payload = example_payload();
    let mut f = vec![0x4D, 0x53, 0x43, 0x48, 0, 0, 1];
    // an empty, non-final stored block, then the payload in a final stored block
    f.extend_from_slice(&[0x00, 0x00, 0x00, 0xFF, 0xFF]);
    f.extend_from_slice(&stored_block(&payload));
    let c = parse_data(&f).unwrap();
    assert_eq!(c.tags, vec![("name".to_string(), "value".to_string())]);
}

#[test]
fn zero_chunk_size_on_input_is_corrupt() {
    assert_eq!(inflate_in_chunks(&stored_block(b"a"), 0), Err(DecodeError::CorruptStream));
    assert_eq!(inflate_in_chunks(&[], 0), Ok(Vec::new()));
}

#[test]
fn many_block_stream_decodes() {
    let data: Vec<u8> = (0..300_000u32).map(|i| ((i * 2654435761u32) >> 24) as u8).collect();
    let compressed = compress_to_vec(&data, 1);
    assert_eq!(inflate_all(&compressed).unwrap(), data);
}
