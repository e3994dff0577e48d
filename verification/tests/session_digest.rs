use rangefetch::digest::{calculate_hash, reassemble};
use rangefetch::errors::DownloadError;
use rangefetch::request::build_request;
use rangefetch::response::download_chunk;
use rangefetch::session::{planned_ranges, Session, SessionStatus};

#[test]
fn scenario_three_ranges_cover_the_resource() {
    let ranges = planned_ranges(150000, 65536);
    assert_eq!(ranges, vec![(0, 65536), (65536, 131072), (131072, 150000)]);
}

#[test]
fn scenario_full_session_completes_with_full_buffer() {
    let mut session = Session::new(150000, 65536);
    let mut requests = 0;
    while !session.done() {
        let (start, end) = session.next_range();
        let chunk = vec![0x5au8; end - start];
        let accepted = session.accept_chunk(&chunk);
        assert_eq!(accepted, end - start);
        requests += 1;
    }
    assert_eq!(requests, 3);
    assert_eq!(session.status(), SessionStatus::Complete);
    assert_eq!(session.buffer().len(), 150000);
}

#[test]
fn request_count_is_length_divided_by_window_rounded_up() {
    assert_eq!(planned_ranges(150000, 65536).len(), (150000 + 65536 - 1) / 65536);
    assert_eq!(planned_ranges(65536, 65536).len(), 1);
    assert_eq!(planned_ranges(65537, 65536).len(), 2);
    assert_eq!(planned_ranges(0, 65536).len(), 0);
    assert_eq!(planned_ranges(1, 1).len(), 1);
}

#[test]
fn ranges_abut_without_gap_or_overlap() {
    let ranges = planned_ranges(1000, 64);
    assert_eq!(ranges[0].0, 0);
    for w in ranges.windows(2) {
        assert_eq!(w[0].1, w[1].0);
    }
    for (start, end) in &ranges {
        assert!(start < end && *end <= 1000);
    }
    assert_eq!(ranges.last().unwrap().1, 1000);
}

#[test]
fn scenario_short_chunk_advances_cursor_by_accepted_count() {
    let mut session = Session::new(2000, 1000);
    let (start, end) = session.next_range();
    assert_eq!((start, end), (0, 1000));

    let raw_declares_more_than_it_delivers = {
        let mut raw = Vec::new();
        raw.extend_from_slice(b"HTTP/1.1 206 Partial Content\r\nContent-Length: 1000\r\n\r\n");
        raw.extend_from_slice(&[1u8; 400]);
        raw
    };
    let chunk = download_chunk(&raw_declares_more_than_it_delivers).unwrap();
    assert_eq!(chunk.len(), 400);

    let accepted = session.accept_chunk(&chunk);
    assert_eq!(accepted, 400);
    let (start, end) = session.next_range();
    assert_eq!((start, end), (400, 1400));
    assert_eq!(session.status(), SessionStatus::Downloading);
}

#[test]
fn rejected_chunk_leaves_the_buffer_alone() {
    let mut session = Session::new(10, 4);
    let raw = b"HTTP/1.1 404 Not Found\r\nContent-Length: 5\r\n\r\nHello";
    match download_chunk(raw) {
        Ok(chunk) => {
            session.accept_chunk(&chunk);
            panic!("a 404 chunk must not be accepted");
        },
        Err(e) => assert_eq!(e, DownloadError::UnexpectedStatus),
    }
    assert_eq!(session.buffer().len(), 0);
    assert_eq!(session.next_range(), (0, 4));
}

#[test]
fn zero_length_chunk_halts_the_session_as_truncated() {
    let mut session = Session::new(100, 40);
    let accepted = session.accept_chunk(&[9u8; 40]);
    assert_eq!(accepted, 40);
    let accepted = session.accept_chunk(&[]);
    assert_eq!(accepted, 0);
    assert!(session.done());
    assert_eq!(session.status(), SessionStatus::Truncated);
    assert_eq!(session.buffer().len(), 40);
}

#[test]
fn oversized_chunk_is_cut_at_the_total_length() {
    let mut session = Session::new(10, 8);
    let accepted = session.accept_chunk(&[3u8; 25]);
    assert_eq!(accepted, 10);
    assert_eq!(session.status(), SessionStatus::Complete);
    assert_eq!(session.into_buffer(), vec![3u8; 10]);
}

#[test]
fn empty_resource_is_complete_before_any_request() {
    let session = Session::new(0, 65536);
    assert!(session.done());
    assert_eq!(session.status(), SessionStatus::Complete);
}

#[test]
fn fingerprint_matches_known_vectors() {
    assert_eq!(
        calculate_hash(b"abc"),
        "ba7816bf8f01cfea414140de5dae2223b00361a396177a9cb410ff61f20015ad"
    );
    assert_eq!(
        calculate_hash(b""),
        "e3b0c44298fc1c149afbf4c8996fb92427ae41e4649b934ca495991b7852b855"
    );
}

#[test]
fn fingerprint_of_reassembled_chunks_matches_direct_hash() {
    let whole: Vec<u8> = (0u8..=255).cycle().take(3000).collect();
    let chunks: Vec<Vec<u8>> = whole.chunks(700).map(|c| c.to_vec()).collect();
    assert_eq!(chunks.len(), 5);
    let rebuilt = reassemble(&chunks);
    assert_eq!(rebuilt, whole);
    assert_eq!(calculate_hash(&rebuilt), calculate_hash(&whole));
}

#[test]
fn session_reassembly_is_byte_identical() {
    let whole: Vec<u8> = (0u8..200).collect();
    let mut session = Session::new(200, 64);
    let mut offset = 0;
    while !session.done() {
        let (start, end) = session.next_range();
        assert_eq!(start, offset);
        let accepted = session.accept_chunk(&whole[start..end]);
        offset += accepted;
    }
    assert_eq!(session.status(), SessionStatus::Complete);
    let buffer = session.into_buffer();
    assert_eq!(buffer, whole);
    assert_eq!(calculate_hash(&buffer), calculate_hash(&whole));
}

#[test]
fn requests_take_the_documented_wire_shape() {
    let plain = build_request("127.0.0.1:8080", None);
    assert_eq!(
        plain,
        b"GET / HTTP/1.1\r\nHost: 127.0.0.1:8080\r\nConnection: close\r\n\r\n".to_vec()
    );
    let ranged = build_request("127.0.0.1:8080", Some((0, 65536)));
    assert_eq!(
        ranged,
        b"GET / HTTP/1.1\r\nHost: 127.0.0.1:8080\r\nRange: bytes=0-65536\r\nConnection: close\r\n\r\n"
            .to_vec()
    );
}
