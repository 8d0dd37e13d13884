use dkim_lite::frame::{
    read_packet, read_packet_into, write_packet, write_status, Incoming, Outgoing, ReadError,
    MAX_PACKET,
};
use dkim_lite::milter::fuzz_milter_frame;
use std::io::Write;

struct RecordingWriter {
    bytes: Vec<u8>,
    calls: usize,
    limit: usize,
}

impl Write for RecordingWriter {
    fn write(&mut self, bytes: &[u8]) -> std::io::Result<usize> {
        self.calls += 1;
        let count = bytes.len().min(self.limit);
        self.bytes.extend_from_slice(&bytes[..count]);
        Ok(count)
    }

    fn flush(&mut self) -> std::io::Result<()> {
        Ok(())
    }
}

fn send(stream: &mut Outgoing, writer: &mut RecordingWriter) {
    for frame in stream.take() {
        writer.write_all(&frame).unwrap();
        writer.flush().unwrap();
    }
}

#[test]
fn packet_reader_handles_partial_reads() {
    let bytes = [0, 0, 0, 4, b'B', 1, 2, 3];
    let mut reader = Incoming::from_bytes(&bytes);
    assert_eq!(
        read_packet(&mut reader).unwrap().unwrap(),
        vec![b'B', 1, 2, 3]
    );
}

#[test]
fn packet_reader_reuses_bounded_buffer() {
    let mut bytes = Vec::new();
    bytes.extend_from_slice(&(MAX_PACKET as u32).to_be_bytes());
    bytes.extend_from_slice(&vec![b'a'; MAX_PACKET]);
    bytes.extend_from_slice(&1u32.to_be_bytes());
    bytes.push(b'Q');
    let mut reader = Incoming::from_bytes(&bytes);
    let mut packet = Vec::with_capacity(MAX_PACKET);
    assert_eq!(
        read_packet_into(&mut reader, &mut packet).unwrap(),
        Some(())
    );
    let capacity = packet.capacity();
    assert_eq!(packet.len(), MAX_PACKET);
    assert_eq!(
        read_packet_into(&mut reader, &mut packet).unwrap(),
        Some(())
    );
    assert_eq!(packet, b"Q");
    assert_eq!(packet.capacity(), capacity);
    assert_eq!(packet.capacity(), MAX_PACKET);
}

#[test]
fn response_frames_use_one_write_and_handle_partial_writers() {
    let mut complete = RecordingWriter {
        bytes: Vec::new(),
        calls: 0,
        limit: usize::MAX,
    };
    let mut stream = Outgoing::new();
    write_packet(&mut stream, b'O', b"abc").unwrap();
    send(&mut stream, &mut complete);
    assert_eq!(complete.calls, 1);
    assert_eq!(complete.bytes, b"\0\0\0\x04Oabc");

    let mut partial = RecordingWriter {
        bytes: Vec::new(),
        calls: 0,
        limit: 2,
    };
    write_status(&mut stream, b'c');
    send(&mut stream, &mut partial);
    assert!(partial.calls > 1);
    assert_eq!(partial.bytes, b"\0\0\0\x01c");
}

#[test]
fn rejects_empty_and_oversized_packets_before_allocation() {
    for length in [0u32, (MAX_PACKET as u32) + 1] {
        let mut reader = Incoming::from_bytes(&length.to_be_bytes());
        assert_eq!(
            read_packet(&mut reader).unwrap_err(),
            ReadError::InvalidData
        );
    }
}

#[test]
fn written_packets_are_read_again() {
    let mut stream = Outgoing::new();
    write_packet(&mut stream, b'L', b"name\0value\0").unwrap();
    write_status(&mut stream, b'a');
    assert!(write_packet(&mut stream, b'B', &vec![7; MAX_PACKET - 1]).is_ok());
    let frames = stream.take();
    assert_eq!(frames.len(), 3);
    assert!(stream.take().is_empty());
    let mut reader = Incoming::new();
    for frame in &frames {
        reader.receive(frame);
    }
    assert_eq!(
        read_packet(&mut reader).unwrap().unwrap(),
        b"Lname\0value\0"
    );
    assert_eq!(read_packet(&mut reader).unwrap().unwrap(), b"a");
    assert_eq!(read_packet(&mut reader).unwrap().unwrap().len(), MAX_PACKET);
    assert_eq!(
        read_packet(&mut reader).unwrap_err(),
        ReadError::WouldBlock { missing: 4 }
    );
    reader.close();
    assert_eq!(read_packet(&mut reader).unwrap(), None);
}

#[test]
fn partial_packets_are_awaited() {
    let frame = b"\0\0\0\x04Oabc";
    let mut reader = Incoming::new();
    let mut packet = b"before".to_vec();
    for (count, byte) in frame.iter().enumerate() {
        let missing = if count < 4 { 4 - count } else { 8 - count };
        assert_eq!(
            read_packet_into(&mut reader, &mut packet),
            Err(ReadError::WouldBlock { missing })
        );
        assert_eq!(packet, b"before");
        reader.receive(&[*byte]);
    }
    assert_eq!(read_packet_into(&mut reader, &mut packet), Ok(Some(())));
    assert_eq!(packet, b"Oabc");
}

#[test]
fn streams_may_end_between_packets_only() {
    for bytes in [b"".as_slice(), b"\0", b"\0\0\0"] {
        assert_eq!(fuzz_milter_frame(bytes), Ok(None));
    }
    assert_eq!(
        fuzz_milter_frame(b"\0\0\0\x02Q"),
        Err(ReadError::UnexpectedEof)
    );
    assert_eq!(fuzz_milter_frame(b"\0\0\0\x01Q"), Ok(Some(b"Q".to_vec())));
    assert_eq!(
        fuzz_milter_frame(b"\xff\xff\xff\xff"),
        Err(ReadError::InvalidData)
    );
}

#[test]
fn read_errors_have_texts() {
    assert_eq!(
        ReadError::InvalidData.message(),
        "invalid milter packet length"
    );
    assert_eq!(
        ReadError::UnexpectedEof.message(),
        "failed to fill whole buffer"
    );
    assert_eq!(
        ReadError::WouldBlock { missing: 1 }.message(),
        "milter packet is incomplete"
    );
}

#[test]
fn bad_lengths_are_taken_off_the_stream() {
    let mut stream = Incoming::from_bytes(&[0, 0, 0, 0, 1, 2]);
    assert_eq!(read_packet(&mut stream), Err(ReadError::InvalidData));
    assert_eq!(read_packet(&mut stream), Ok(None));

    let mut packet = b"before".to_vec();
    let mut stream = Incoming::from_bytes(b"\0\x10\0\x01\0\0\0\0\0\0\0\x01Q");
    for _ in 0..2 {
        assert_eq!(
            read_packet_into(&mut stream, &mut packet),
            Err(ReadError::InvalidData)
        );
        assert_eq!(packet, b"before");
    }
    assert_eq!(read_packet_into(&mut stream, &mut packet), Ok(Some(())));
    assert_eq!(packet, b"Q");
}

#[test]
fn ends_of_streams_leave_nothing() {
    let mut packet = b"before".to_vec();
    let mut stream = Incoming::from_bytes(b"\0\0");
    assert_eq!(read_packet_into(&mut stream, &mut packet), Ok(None));
    assert_eq!(packet, b"before");
    stream.receive(b"\0\0\0\x01Q");
    assert_eq!(read_packet(&mut stream), Ok(Some(b"Q".to_vec())));

    let mut stream = Incoming::from_bytes(b"\0\0\0\x05Bxy");
    assert_eq!(
        read_packet_into(&mut stream, &mut packet),
        Err(ReadError::UnexpectedEof)
    );
    assert_eq!(packet.len(), 5);
    assert!(packet.starts_with(b"Bxy"));
    assert_eq!(read_packet(&mut stream), Ok(None));
}
