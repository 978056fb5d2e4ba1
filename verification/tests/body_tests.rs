use http_util::body::BodyBuffer;

/// Drives one whole session: every chunk the transport would deliver, in
/// order, against reads of `read_size` bytes, until the stream is drained.
fn drain(chunks: Vec<Vec<u8>>, read_size: usize) -> Vec<u8> {
    let mut out: Vec<u8> = Vec::new();
    let mut buffer = BodyBuffer::new();
    let mut pending = chunks.into_iter();
    loop {
        let mut buf = vec![0u8; read_size];
        let n = if buffer.has_buffered() {
            buffer.read_buffered(&mut buf)
        } else {
            match pending.next() {
                Some(chunk) => buffer.accept_chunk(&mut buf, chunk),
                None => break,
            }
        };
        out.extend_from_slice(&buf[..n]);
    }
    assert!(!buffer.has_buffered());
    out
}

#[test]
fn chunks_survive_any_read_size() {
    let body = b"the quick brown fox jumps over the lazy dog".to_vec();
    let chunks = vec![
        b"the quick ".to_vec(),
        b"brown fox jumps".to_vec(),
        b" over the lazy dog".to_vec(),
    ];
    for read_size in 1..=20 {
        assert_eq!(drain(chunks.clone(), read_size), body);
    }
}

#[test]
fn single_byte_chunks_concatenate() {
    let chunks: Vec<Vec<u8>> = (0u8..10).map(|b| vec![b]).collect();
    assert_eq!(drain(chunks, 4), (0u8..10).collect::<Vec<u8>>());
}

#[test]
fn read_smaller_than_chunk_holds_the_rest() {
    let mut buffer = BodyBuffer::new();
    let mut buf = vec![0u8; 3];
    let n = buffer.accept_chunk(&mut buf, b"abcdef".to_vec());
    assert_eq!(n, 3);
    assert_eq!(&buf[..n], b"abc");
    assert!(buffer.has_buffered());

    // The held bytes are served without any new chunk.
    let mut buf2 = vec![0u8; 2];
    let n2 = buffer.read_buffered(&mut buf2);
    assert_eq!(n2, 2);
    assert_eq!(&buf2[..n2], b"de");
    assert!(buffer.has_buffered());

    let mut buf3 = vec![0u8; 8];
    let n3 = buffer.read_buffered(&mut buf3);
    assert_eq!(n3, 1);
    assert_eq!(&buf3[..n3], b"f");
    assert!(!buffer.has_buffered());
}

#[test]
fn read_at_least_chunk_size_holds_nothing() {
    let mut buffer = BodyBuffer::new();
    let mut buf = vec![0u8; 6];
    let n = buffer.accept_chunk(&mut buf, b"abcdef".to_vec());
    assert_eq!(n, 6);
    assert_eq!(&buf[..n], b"abcdef");
    assert!(!buffer.has_buffered());

    let mut big = vec![0u8; 10];
    let m = buffer.accept_chunk(&mut big, b"gh".to_vec());
    assert_eq!(m, 2);
    assert_eq!(&big[..m], b"gh");
    assert!(!buffer.has_buffered());
}

#[test]
fn bytes_past_the_read_count_are_untouched() {
    let mut buffer = BodyBuffer::new();
    let mut buf = vec![9u8; 5];
    let n = buffer.accept_chunk(&mut buf, b"ab".to_vec());
    assert_eq!(n, 2);
    assert_eq!(buf, vec![b'a', b'b', 9, 9, 9]);
}

#[test]
fn empty_stream_drains_to_nothing() {
    assert_eq!(drain(vec![], 8), Vec::<u8>::new());
}
