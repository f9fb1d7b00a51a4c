use exonum_connection::message::read_declared_len;
use exonum_connection::{
    FrameError, IncomingConnection, MessageBuffer, MessageReader, OutgoingConnection, ReadOutcome,
    HEADER_SIZE, MAX_MESSAGE_LEN,
};

fn frame(payload: &[u8]) -> Vec<u8> {
    let total = (HEADER_SIZE + payload.len()) as u32;
    let mut v = vec![1u8, 2, 3, 4];
    v.extend_from_slice(&total.to_le_bytes());
    v.extend_from_slice(payload);
    v
}

/// Delivers `stream` to `conn` in reads of at most `chunk` bytes, each
/// bounded by the window the connection offers, and collects the messages.
fn deliver(conn: &mut IncomingConnection, stream: &[u8], chunk: usize) -> Vec<Vec<u8>> {
    let mut out = Vec::new();
    let mut at = 0;
    while at < stream.len() {
        let window = conn.read_window().unwrap();
        let n = window.min(chunk).min(stream.len() - at);
        match conn.on_read(&stream[at..at + n]) {
            ReadOutcome::Complete(m) => out.push(m.into_vec()),
            ReadOutcome::Partial => {}
            ReadOutcome::WouldBlock => panic!("non-empty read reported as would-block"),
        }
        at += n;
    }
    out
}

#[test]
fn reader_starts_as_zeroed_header() {
    let r = MessageReader::empty();
    assert_eq!(r.actual_len(), HEADER_SIZE);
    assert_eq!(r.buffer(), &[0u8; 8][..]);
    assert_eq!(r.total_len(), 0);
}

#[test]
fn reader_grows_to_declared_length() {
    let mut r = MessageReader::empty();
    r.write_at(0, &frame(&[9, 9, 9])[..HEADER_SIZE]);
    assert_eq!(r.total_len(), 11);
    assert_eq!(r.allocate(), Ok(()));
    assert_eq!(r.actual_len(), 11);
    assert_eq!(&r.buffer()[HEADER_SIZE..], &[0u8, 0, 0][..]);
    r.write_at(HEADER_SIZE, &[9, 9, 9]);
    let m = r.into_raw();
    assert_eq!(m.as_slice(), &frame(&[9, 9, 9])[..]);
}

#[test]
fn reader_refuses_short_declared_length() {
    let mut r = MessageReader::empty();
    r.write_at(4, &[3, 0, 0, 0]);
    assert_eq!(r.allocate(), Err(FrameError::LengthBelowHeader { declared: 3 }));
    assert_eq!(r.actual_len(), HEADER_SIZE);
}

#[test]
fn declared_length_is_little_endian() {
    assert_eq!(read_declared_len(&[0, 0, 0, 0, 0x10, 0x02, 0, 0]), 0x210);
    assert_eq!(read_declared_len(&[7, 7, 7, 7, 1, 2, 3, 4]), 0x0403_0201);
}

#[test]
fn message_buffer_checks_its_frame() {
    assert_eq!(
        MessageBuffer::from_vec(vec![0; 5]).err(),
        Some(FrameError::TooShort { len: 5 })
    );
    let mut v = frame(&[1, 2]);
    v.push(0);
    assert_eq!(
        MessageBuffer::from_vec(v).err(),
        Some(FrameError::LengthMismatch { declared: 10, len: 11 })
    );
    let m = MessageBuffer::from_vec(frame(&[1, 2])).unwrap();
    assert_eq!(m.len(), 10);
    assert_eq!(m.total_len(), 10);
}

#[test]
fn round_trip_one_byte_at_a_time() {
    let bytes = frame(&[5, 6, 7, 8, 9]);
    let mut conn = IncomingConnection::new();
    assert_eq!(deliver(&mut conn, &bytes, 1), vec![bytes.clone()]);
    assert_eq!(conn.position(), 0);
    assert_eq!(deliver(&mut conn, &bytes, 1), vec![bytes]);
}

#[test]
fn round_trip_empty_payload() {
    let bytes = frame(&[]);
    let mut conn = IncomingConnection::new();
    assert_eq!(deliver(&mut conn, &bytes, 100), vec![bytes]);
    assert_eq!(conn.position(), 0);
}

#[test]
fn chunking_does_not_change_messages() {
    let mut stream = frame(&[1, 2, 3]);
    stream.extend(frame(&[]));
    stream.extend(frame(&[4; 20]));
    let expected = vec![frame(&[1, 2, 3]), frame(&[]), frame(&[4; 20])];
    for chunk in [1, 3, 5, 8, 13, 1000] {
        let mut conn = IncomingConnection::new();
        assert_eq!(deliver(&mut conn, &stream, chunk), expected);
        assert_eq!(conn.position(), 0);
    }
}

#[test]
fn one_message_per_completing_read() {
    let mut conn = IncomingConnection::new();
    let bytes = frame(&[1, 2, 3, 4]);
    assert_eq!(conn.read_window(), Ok(HEADER_SIZE));
    assert!(matches!(conn.on_read(&bytes[..HEADER_SIZE]), ReadOutcome::Partial));
    assert_eq!(conn.read_window(), Ok(4));
    match conn.on_read(&bytes[HEADER_SIZE..]) {
        ReadOutcome::Complete(m) => assert_eq!(m.as_slice(), &bytes[..]),
        _ => panic!("message not completed"),
    }
    assert_eq!(conn.read_window(), Ok(HEADER_SIZE));
}

#[test]
fn malformed_length_is_a_framing_error() {
    for declared in [0u8, 3, 7] {
        let mut conn = IncomingConnection::new();
        let header = [0u8, 0, 0, 0, declared, 0, 0, 0];
        conn.read_window().unwrap();
        assert!(matches!(conn.on_read(&header), ReadOutcome::Partial));
        assert_eq!(
            conn.read_window(),
            Err(FrameError::LengthBelowHeader { declared: declared as u32 })
        );
        assert_eq!(conn.position(), HEADER_SIZE);
    }
}

#[test]
fn empty_read_changes_nothing() {
    let mut conn = IncomingConnection::new();
    conn.read_window().unwrap();
    assert!(matches!(conn.on_read(&[1, 2, 3]), ReadOutcome::Partial));
    conn.read_window().unwrap();
    assert!(matches!(conn.on_read(&[]), ReadOutcome::WouldBlock));
    assert_eq!(conn.position(), 3);
    assert_eq!(conn.read_window(), Ok(5));
}

fn drain(conn: &mut OutgoingConnection, accept: usize) -> Vec<u8> {
    let mut wire = Vec::new();
    loop {
        let n = match conn.pending() {
            None => break,
            Some(bytes) => {
                let n = accept.min(bytes.len());
                wire.extend_from_slice(&bytes[..n]);
                n
            }
        };
        if !conn.on_written(n) {
            break;
        }
    }
    wire
}

#[test]
fn sends_reach_the_wire_in_order() {
    let msgs = vec![frame(&[1]), frame(&[2, 2]), frame(&[3, 3, 3])];
    for accept in [1, 4, 7, 100] {
        let mut conn = OutgoingConnection::new();
        for m in &msgs {
            conn.send(MessageBuffer::from_vec(m.clone()).unwrap());
        }
        assert_eq!(drain(&mut conn, accept), msgs.concat());
        assert!(conn.is_idle());
    }
}

#[test]
fn partial_write_resumes_at_cursor() {
    let bytes = frame(&[1, 2, 3, 4, 5, 6]);
    let mut conn = OutgoingConnection::new();
    conn.send(MessageBuffer::from_vec(bytes.clone()).unwrap());
    let first = conn.pending().unwrap().to_vec();
    assert_eq!(first, bytes);
    assert!(conn.on_written(5));
    assert!(!conn.is_idle());
    let rest = conn.pending().unwrap().to_vec();
    assert_eq!(rest, bytes[5..].to_vec());
    assert!(conn.on_written(rest.len()));
    assert!(conn.is_idle());
    assert!(conn.pending().is_none());
}

#[test]
fn zero_byte_write_stops_and_keeps_message() {
    let bytes = frame(&[1]);
    let mut conn = OutgoingConnection::new();
    conn.send(MessageBuffer::from_vec(bytes.clone()).unwrap());
    assert!(!conn.on_written(0));
    assert_eq!(conn.pending().unwrap(), &bytes[..]);
}

#[test]
fn idle_until_flushed() {
    let mut conn = OutgoingConnection::new();
    assert!(conn.is_idle());
    conn.send(MessageBuffer::from_vec(frame(&[8, 8])).unwrap());
    assert!(!conn.is_idle());
    assert_eq!(drain(&mut conn, 3), frame(&[8, 8]));
    assert!(conn.is_idle());
}

#[test]
fn oversized_length_is_a_framing_error() {
    for declared in [MAX_MESSAGE_LEN as u32 + 1, u32::MAX] {
        let mut header = vec![0u8; 4];
        header.extend_from_slice(&declared.to_le_bytes());
        let mut conn = IncomingConnection::new();
        conn.read_window().unwrap();
        assert!(matches!(conn.on_read(&header), ReadOutcome::Partial));
        assert_eq!(conn.read_window(), Err(FrameError::LengthAboveMax { declared }));
        assert_eq!(conn.position(), HEADER_SIZE);

        let mut r = MessageReader::empty();
        r.write_at(0, &header);
        assert_eq!(r.allocate(), Err(FrameError::LengthAboveMax { declared }));
        assert_eq!(r.actual_len(), HEADER_SIZE);
    }
}

#[test]
fn largest_length_is_accepted() {
    let mut header = vec![0u8; 4];
    header.extend_from_slice(&(MAX_MESSAGE_LEN as u32).to_le_bytes());
    let mut conn = IncomingConnection::new();
    conn.read_window().unwrap();
    assert!(matches!(conn.on_read(&header), ReadOutcome::Partial));
    assert_eq!(conn.read_window(), Ok(MAX_MESSAGE_LEN - HEADER_SIZE));
}
