use p2p_chat_net::frame::{check_body, check_head, encode_frame, encode_head, read, verify_head};
use p2p_chat_net::{ErrorType, IoError, MemStream, TryRead};

#[test]
fn frame_round_trip() {
    let payloads: Vec<Vec<u8>> = vec![
        b"hello".to_vec(),
        vec![0u8; 1000],
        (0..=255u8).collect(),
        "{\"id\":1,\"name\":\"a\"}".as_bytes().to_vec(),
    ];
    for p in payloads {
        let mut stm = MemStream::new();
        p2p_chat_net::frame::write(&mut stm, &p);
        assert_eq!(stm.available(), p.len() + 8);
        let got = read(&mut stm).expect("frame");
        assert_eq!(got, p);
        assert_eq!(stm.available(), 0);
    }
}

#[test]
fn frames_keep_their_order() {
    let mut stm = MemStream::new();
    p2p_chat_net::frame::write(&mut stm, b"first");
    p2p_chat_net::frame::write(&mut stm, b"");
    p2p_chat_net::frame::write(&mut stm, b"third");
    assert_eq!(read(&mut stm).unwrap(), b"first".to_vec());
    assert_eq!(read(&mut stm).unwrap(), Vec::<u8>::new());
    assert_eq!(read(&mut stm).unwrap(), b"third".to_vec());
}

#[test]
fn heartbeat_is_eight_header_bytes() {
    let f = encode_frame(&[]);
    assert_eq!(f, vec![0, 0, 0, 0, 0xff, 0xff, 0xff, 0xff]);
    let mut stm = MemStream::new();
    p2p_chat_net::frame::write(&mut stm, &[]);
    assert_eq!(stm.available(), 8);
    let got = read(&mut stm).expect("a heartbeat is no error");
    assert!(got.is_empty());
}

#[test]
fn header_layout() {
    assert_eq!(encode_head(5), vec![0, 0, 0, 5, 0xff, 0xff, 0xff, 0xfa]);
    assert_eq!(encode_head(0x01020304), vec![1, 2, 3, 4, 0xfe, 0xfd, 0xfc, 0xfb]);
    assert_eq!(verify_head(&[0, 0, 1, 0, 0xff, 0xff, 0xfe, 0xff]), Some(256));
    assert_eq!(verify_head(&[0, 0, 0, 5, 0, 0, 0, 5]), None);
}

#[test]
fn bad_header_is_not_a_package() {
    let mut stm = MemStream::new();
    let bad = [0u8, 0, 0, 3, 0, 0, 0, 3];
    stm.push_bytes(&bad);
    p2p_chat_net::frame::write(&mut stm, b"next");
    match read(&mut stm) {
        Err(ErrorType::NotPackage(h)) => assert_eq!(h, bad.to_vec()),
        other => panic!("expected NotPackage, got {:?}", other),
    }
    // only the 8 header bytes went; what follows is read as it stands
    assert_eq!(stm.available(), 12);
    assert_eq!(read(&mut stm).unwrap(), b"next".to_vec());
}

#[test]
fn short_header_and_short_body() {
    let mut stm = MemStream::new();
    match read(&mut stm) {
        Err(ErrorType::MissingHead(h)) => assert!(h.is_empty()),
        other => panic!("expected MissingHead, got {:?}", other),
    }
    stm.push_bytes(&[0, 0, 0]);
    match read(&mut stm) {
        Err(ErrorType::MissingHead(h)) => assert_eq!(h, vec![0, 0, 0]),
        other => panic!("expected MissingHead, got {:?}", other),
    }
    let f = encode_frame(b"abcdef");
    stm.push_bytes(&f[..11]);
    match read(&mut stm) {
        Err(ErrorType::TransmissionInterrupted(b)) => assert_eq!(b, b"abc".to_vec()),
        other => panic!("expected TransmissionInterrupted, got {:?}", other),
    }
}

#[test]
fn head_and_body_checks() {
    assert!(matches!(check_head(&[1, 2]), Err(ErrorType::MissingHead(v)) if v == vec![1, 2]));
    assert!(matches!(check_head(&[0, 0, 0, 9, 0xff, 0xff, 0xff, 0xf6]), Ok(9)));
    assert!(matches!(check_head(&[0, 0, 0, 9, 0, 0, 0, 0]), Err(ErrorType::NotPackage(_))));
    assert!(matches!(check_body(3, vec![1, 2, 3]), Ok(v) if v == vec![1, 2, 3]));
    assert!(matches!(check_body(3, vec![1]), Err(ErrorType::TransmissionInterrupted(v)) if v == vec![1]));
}

#[test]
fn can_continue_sorts_errors() {
    assert!(ErrorType::Pending.can_continue().is_none());
    assert!(ErrorType::IO(IoError::WouldBlock).can_continue().is_none());
    assert!(ErrorType::MissingHead(vec![1]).can_continue().is_none());
    assert!(ErrorType::MissingHead(vec![]).can_continue().is_some());
    assert!(ErrorType::NotPackage(vec![0; 8]).can_continue().is_some());
    assert!(ErrorType::TransmissionInterrupted(vec![]).can_continue().is_some());
    assert!(ErrorType::IO(IoError::Failed("reset".to_string())).can_continue().is_some());
    assert!(ErrorType::Other(vec![]).can_continue().is_some());
}

/// Feeds `bytes` to the reader in reads of at most `chunk` bytes, with a
/// would-block read before each; returns the payload once whole.
fn feed_in_chunks(r: &mut TryRead, bytes: &[u8], chunk: usize) -> Vec<u8> {
    let mut pos = 0;
    let mut done: Option<u32> = None;
    while pos < bytes.len() {
        assert!(matches!(r.poll(Err(IoError::WouldBlock)), Err(ErrorType::IO(IoError::WouldBlock))));
        let n = chunk.min(r.wanted()).min(bytes.len() - pos);
        assert!(done.is_none(), "whole before every byte came");
        match r.poll(Ok(&bytes[pos..pos + n])) {
            Ok(len) => done = Some(len),
            Err(ErrorType::Pending) => {}
            Err(e) => panic!("unexpected {:?}", e),
        }
        pos += n;
    }
    let len = done.expect("whole after every byte came");
    let p = r.package();
    assert_eq!(p.len(), len as usize);
    p
}

#[test]
fn resumable_reader_any_chunking() {
    let p: Vec<u8> = (0..50u8).collect();
    let f = encode_frame(&p);
    for chunk in [1usize, 2, 3, 7, 8, 13, 100] {
        let mut r = TryRead::new();
        assert_eq!(feed_in_chunks(&mut r, &f, chunk), p);
        // ready for a second frame on the same connection
        let q = b"second".to_vec();
        assert_eq!(feed_in_chunks(&mut r, &encode_frame(&q), chunk), q);
    }
}

#[test]
fn resumable_reader_heartbeat() {
    let mut r = TryRead::new();
    assert_eq!(r.wanted(), 8);
    let f = encode_frame(&[]);
    assert!(matches!(r.poll(Ok(&f[..5])), Err(ErrorType::Pending)));
    assert_eq!(r.wanted(), 3);
    assert!(matches!(r.poll(Ok(&f[5..])), Ok(0)));
    assert_eq!(r.wanted(), 0);
    assert!(r.package().is_empty());
    assert_eq!(r.wanted(), 8);
}

#[test]
fn resumable_reader_bad_header_resets() {
    let mut r = TryRead::new();
    let bad = [0u8, 0, 0, 1, 0, 0, 0, 1];
    assert!(matches!(r.poll(Ok(&bad[..4])), Err(ErrorType::Pending)));
    match r.poll(Ok(&bad[4..])) {
        Err(ErrorType::NotPackage(h)) => assert_eq!(h, bad.to_vec()),
        other => panic!("expected NotPackage, got {:?}", other),
    }
    assert_eq!(r.wanted(), 8);
    let f = encode_frame(b"ok");
    assert!(matches!(r.poll(Ok(&f[..8])), Err(ErrorType::Pending)));
    assert!(matches!(r.poll(Ok(&f[8..])), Ok(2)));
    assert_eq!(r.package(), b"ok".to_vec());
}

#[test]
fn resumable_reader_closed_stream() {
    let mut r = TryRead::new();
    match r.poll(Ok(&[])) {
        Err(ErrorType::MissingHead(h)) => assert!(h.is_empty()),
        other => panic!("expected MissingHead, got {:?}", other),
    }
    let f = encode_frame(b"abcd");
    assert!(matches!(r.poll(Ok(&f[..8])), Err(ErrorType::Pending)));
    assert!(matches!(r.poll(Ok(&f[8..10])), Err(ErrorType::Pending)));
    match r.poll(Ok(&[])) {
        Err(ErrorType::TransmissionInterrupted(b)) => assert_eq!(b, b"ab".to_vec()),
        other => panic!("expected TransmissionInterrupted, got {:?}", other),
    }
    r.clear();
    assert_eq!(r.wanted(), 8);
}
