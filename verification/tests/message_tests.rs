use fab::message::{encode_frames, FrameHeader, FrameReader, Message, HEADER_LEN, MAX_LEN, VERSION};

fn read_back(stream: &[u8]) -> Option<(Vec<u8>, usize)> {
    let mut reader = FrameReader::new();
    let mut pos = 0;
    while !reader.is_finished() {
        if stream.len() < pos + HEADER_LEN {
            return None;
        }
        let header = &stream[pos..pos + HEADER_LEN];
        let l = FrameHeader::parse(header).chunk_len()?;
        if stream.len() < pos + HEADER_LEN + l {
            return None;
        }
        let last = reader.accept(header, &stream[pos + HEADER_LEN..pos + HEADER_LEN + l]);
        assert_eq!(last, reader.is_finished());
        pos += HEADER_LEN + l;
    }
    Some((reader.into_payload(), pos))
}

#[test]
fn message_new_and_content() {
    let m = Message::new("hello");
    assert_eq!(m.get_content(), "hello");
    let (c, h, s) = m.clone().into_parts();
    assert_eq!(c, "hello");
    assert!(h.is_empty());
    assert!(s.is_empty());
    let m2 = Message::from_parts("hello".to_string(), vec![], vec![]);
    assert_eq!(m, m2);
}

#[test]
fn header_bytes_are_big_endian() {
    let h = FrameHeader { version: VERSION, len: 0x0102_0304_0506_0708, more: 1 };
    let b = h.to_bytes();
    assert_eq!(b, vec![1, 1, 2, 3, 4, 5, 6, 7, 8, 1]);
    assert_eq!(FrameHeader::parse(&b), h);
}

#[test]
fn empty_payload_has_no_frames() {
    assert!(encode_frames(&[]).is_empty());
    assert_eq!(read_back(&[]), None);
}

#[test]
fn short_payload_is_one_frame() {
    let out = encode_frames(&[9, 8, 7, 6, 5]);
    assert_eq!(out, vec![1, 0, 0, 0, 0, 0, 0, 0, 5, 0, 9, 8, 7, 6, 5]);
}

#[test]
fn full_chunk_is_one_frame() {
    let p = vec![3u8; MAX_LEN];
    let out = encode_frames(&p);
    assert_eq!(out.len(), HEADER_LEN + MAX_LEN);
    let h = FrameHeader::parse(&out);
    assert_eq!(h, FrameHeader { version: 1, len: 4096, more: 0 });
}

#[test]
fn long_payload_is_split() {
    let p: Vec<u8> = (0..(MAX_LEN + 1)).map(|i| (i % 251) as u8).collect();
    let out = encode_frames(&p);
    assert_eq!(out.len(), 2 * HEADER_LEN + MAX_LEN + 1);
    let h1 = FrameHeader::parse(&out);
    assert_eq!(h1, FrameHeader { version: 1, len: 4096, more: 1 });
    let h2 = FrameHeader::parse(&out[HEADER_LEN + MAX_LEN..]);
    assert_eq!(h2, FrameHeader { version: 1, len: 1, more: 0 });
    assert_eq!(out[out.len() - 1], p[MAX_LEN]);
}

#[test]
fn frames_read_back() {
    for n in [1usize, 17, 4095, 4096, 4097, 8192, 10000] {
        let p: Vec<u8> = (0..n).map(|i| (i * 7 % 256) as u8).collect();
        let mut stream = encode_frames(&p);
        let frames_len = stream.len();
        stream.extend_from_slice(&[0xAA, 0xBB]);
        assert_eq!(read_back(&stream), Some((p, frames_len)));
    }
}

#[test]
fn oversized_chunk_is_refused() {
    let h = FrameHeader { version: 1, len: (MAX_LEN + 1) as u64, more: 0 };
    assert_eq!(h.chunk_len(), None);
    let ok = FrameHeader { version: 1, len: MAX_LEN as u64, more: 0 };
    assert_eq!(ok.chunk_len(), Some(MAX_LEN));
}

#[test]
fn reader_collects_chunks() {
    let mut r = FrameReader::new();
    let h1 = FrameHeader { version: 1, len: 2, more: 1 }.to_bytes();
    let h2 = FrameHeader { version: 7, len: 1, more: 5 }.to_bytes();
    let h3 = FrameHeader { version: 7, len: 0, more: 0 }.to_bytes();
    assert!(!r.is_finished());
    assert!(!r.accept(&h1, &[1, 2]));
    assert!(!r.accept(&h2, &[3]));
    assert!(r.accept(&h3, &[]));
    assert!(r.is_finished());
    assert_eq!(r.into_payload(), vec![1, 2, 3]);
}
