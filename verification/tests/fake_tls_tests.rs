use hmac::{Hmac, KeyInit, Mac};
use tg_ws_proxy::proxy::fake_tls::{
    build_server_hello, server_hello_with, verify_client_hello, verify_client_hello_at,
    wrap_tls_record, FakeTlsStream, RecordStep, TlsReadError,
};

const SECRET: &[u8] = b"0123456789abcdef";

fn tag(data: &[u8]) -> Vec<u8> {
    let mut mac = Hmac::<sha2::Sha256>::new_from_slice(SECRET).unwrap();
    mac.update(data);
    mac.finalize().into_bytes().to_vec()
}

fn client_hello(time: u32, session_id: bool) -> Vec<u8> {
    let mut hello = vec![0x16, 0x03, 0x01, 0x02, 0x00, 0x01, 0x00, 0x01, 0xfc, 0x03, 0x03];
    hello.extend_from_slice(&[0; 32]);
    hello.push(if session_id { 0x20 } else { 0x00 });
    hello.extend((0..60u8).map(|i| i + 1));
    let mut random = tag(&hello);
    for (i, b) in time.to_le_bytes().iter().enumerate() {
        random[28 + i] ^= b;
    }
    hello[11..43].copy_from_slice(&random);
    hello
}

#[test]
fn a_client_that_knows_the_secret_is_recognised() {
    let time = 1_700_000_000u32;
    let hello = client_hello(time, true);
    let (random, session_id, timestamp) =
        verify_client_hello_at(&hello, SECRET, time as u64).expect("authentic");
    assert_eq!(random.to_vec(), hello[11..43].to_vec());
    assert_eq!(session_id.to_vec(), (1..=32u8).collect::<Vec<u8>>());
    assert_eq!(timestamp, time as i64);

    let plain = client_hello(time, false);
    let (_, session_id, _) = verify_client_hello_at(&plain, SECRET, time as u64).unwrap();
    assert_eq!(session_id, [0; 32]);
}

#[test]
fn a_hello_is_taken_for_two_minutes_either_way() {
    let time = 1_700_000_000u32;
    let hello = client_hello(time, true);
    for (now, taken) in [
        (time as u64 - 120, true),
        (time as u64 - 121, false),
        (time as u64 + 120, true),
        (time as u64 + 121, false),
        (0, false),
        (u64::MAX, false),
    ] {
        assert_eq!(verify_client_hello_at(&hello, SECRET, now).is_some(), taken);
    }
}

#[test]
fn any_other_hello_is_refused() {
    let time = 1_700_000_000u32;
    let hello = client_hello(time, true);
    let refused = |data: &[u8]| verify_client_hello_at(data, SECRET, time as u64).is_none();
    assert!(refused(&hello[..42]));
    assert!(verify_client_hello_at(&hello, b"another secret..", time as u64).is_none());
    for position in [0usize, 5, 7, 11, 38, 60] {
        let mut changed = hello.clone();
        changed[position] ^= 1;
        assert!(refused(&changed));
    }
}

#[test]
fn the_clock_decides_on_an_authentic_hello() {
    let now = std::time::SystemTime::UNIX_EPOCH.elapsed().unwrap().as_secs() as u32;
    assert!(verify_client_hello(&client_hello(now, true), SECRET).is_some());
    assert!(verify_client_hello(&client_hello(now - 1000, true), SECRET).is_none());
    assert!(verify_client_hello(&client_hello(now, true), b"wrong").is_none());
}

fn check_answer(answer: &[u8], client_random: &[u8; 32]) {
    let mut zeroed = answer.to_vec();
    zeroed[11..43].copy_from_slice(&[0; 32]);
    let mut signed = client_random.to_vec();
    signed.extend_from_slice(&zeroed);
    assert_eq!(answer[11..43].to_vec(), tag(&signed));
}

#[test]
fn the_server_hello_has_its_fields_in_place() {
    let client_random = [5u8; 32];
    let answer = server_hello_with(SECRET, &client_random, &[6; 32], &[7; 32], &[8; 300]);
    assert_eq!(
        answer[..11],
        [0x16, 0x03, 0x03, 0x00, 0x7a, 0x02, 0x00, 0x00, 0x76, 0x03, 0x03]
    );
    assert_eq!(answer[43], 0x20);
    assert_eq!(answer[44..76], [6; 32]);
    assert_eq!(
        answer[76..89],
        [0x13, 0x01, 0x00, 0x00, 0x2e, 0x00, 0x33, 0x00, 0x24, 0x00, 0x1d, 0x00, 0x20]
    );
    assert_eq!(answer[89..121], [7; 32]);
    assert_eq!(answer[121..127], [0x00, 0x2b, 0x00, 0x02, 0x03, 0x04]);
    assert_eq!(answer[127..133], [0x14, 0x03, 0x03, 0x00, 0x01, 0x01]);
    assert_eq!(answer[133..138], [0x17, 0x03, 0x03, 0x01, 0x2c]);
    assert_eq!(answer[138..], [8; 300]);
    check_answer(&answer, &client_random);
}

#[test]
fn a_random_server_hello_can_be_verified_by_the_client() {
    let client_random = [9u8; 32];
    let answer = build_server_hello(SECRET, &client_random, &[1; 32]);
    check_answer(&answer, &client_random);
    let len = u16::from_be_bytes([answer[136], answer[137]]) as usize;
    assert!((1900..2100).contains(&len));
    assert_eq!(answer.len(), 138 + len);
    assert_ne!(answer, build_server_hello(SECRET, &client_random, &[1; 32]));
}

#[test]
fn records_hold_at_most_sixteen_kilobytes() {
    assert_eq!(wrap_tls_record(&[]), Vec::<u8>::new());
    assert_eq!(wrap_tls_record(&[9, 8]), vec![0x17, 0x03, 0x03, 0x00, 0x02, 9, 8]);
    let wrapped = wrap_tls_record(&vec![1u8; 16385]);
    assert_eq!(wrapped.len(), 16385 + 10);
    assert_eq!(wrapped[..5], [0x17, 0x03, 0x03, 0x40, 0x00]);
    assert_eq!(wrapped[16389..16394], [0x17, 0x03, 0x03, 0x00, 0x01]);
}

// Reads a stream of records to its end, at most `room` bytes at a time, while its bytes come in
// at most `step` at a time. Gives the pieces and why it ended.
fn read_pieces(stream: &[u8], step: usize, room: usize) -> (Vec<Vec<u8>>, TlsReadError) {
    let mut tls: FakeTlsStream<(), ()> = FakeTlsStream::new((), ());
    let mut pieces: Vec<Vec<u8>> = Vec::new();
    let mut at = 0usize;
    loop {
        match tls.next_read(room, at == stream.len()) {
            RecordStep::Give(data) => pieces.push(data),
            RecordStep::Read { len } => {
                let end = stream.len().min(at + len.min(step));
                tls.receive(&stream[at..end]);
                at = end;
            }
            RecordStep::Fail(e) => return (pieces, e),
        }
    }
}

// Reads everything that a stream of records carries, `room` bytes at a time.
fn read_all(stream: &[u8], room: usize) -> Result<Vec<u8>, TlsReadError> {
    let mut tls: FakeTlsStream<(), ()> = FakeTlsStream::new((), ());
    let mut out: Vec<u8> = Vec::new();
    let mut at = 0usize;
    loop {
        if let Some(data) = tls.take_buffered(room) {
            out.extend(data);
            continue;
        }
        if at == stream.len() {
            return Ok(out);
        }
        let header = &stream[at..stream.len().min(at + 5)];
        let len = tls.read_header(header)?;
        let body = &stream[at + 5..stream.len().min(at + 5 + len)];
        if let Some(data) = tls.read_record(header, body, room)? {
            out.extend(data);
        }
        at += 5 + len;
    }
}

#[test]
fn several_records_are_read_in_order_however_they_come_in() {
    let ccs = [0x14u8, 0x03, 0x03, 0x00, 0x01, 0x01];
    let data: Vec<u8> = (0..700usize).map(|i| (i * 11) as u8).collect();
    let mut stream = ccs.to_vec();
    stream.extend(wrap_tls_record(&data[..300]));
    stream.extend(ccs);
    stream.extend(ccs);
    stream.extend(wrap_tls_record(&data[300..301]));
    stream.extend(wrap_tls_record(&data[301..]));
    for step in [1usize, 2, 6, 299, 5000] {
        for room in [1usize, 7, 300, 5000] {
            let (pieces, e) = read_pieces(&stream, step, room);
            assert_eq!(pieces.concat(), data);
            assert!(pieces.iter().all(|piece| !piece.is_empty() && piece.len() <= room));
            assert_eq!(e, TlsReadError::ShortHeader);
        }
    }
}

#[test]
fn bytes_of_several_records_may_come_in_at_once() {
    let mut stream = wrap_tls_record(&[1, 2, 3]);
    stream.extend([0x14, 0x03, 0x03, 0x00, 0x01, 0x01]);
    stream.extend(wrap_tls_record(&[4, 5]));
    stream.extend([0x17, 0x03]);
    let mut tls: FakeTlsStream<(), ()> = FakeTlsStream::new((), ());
    tls.receive(&stream);
    assert!(matches!(tls.next_read(2, false), RecordStep::Give(data) if data == [1, 2]));
    assert!(matches!(tls.next_read(0, false), RecordStep::Give(data) if data.is_empty()));
    assert!(matches!(tls.next_read(9, false), RecordStep::Give(data) if data == [3]));
    assert!(matches!(tls.next_read(9, false), RecordStep::Give(data) if data == [4, 5]));
    assert!(matches!(tls.next_read(9, false), RecordStep::Read { len: 3 }));
    tls.receive(&[0x03, 0x01, 0x02]);
    assert!(matches!(tls.next_read(9, false), RecordStep::Read { len: 0x0102 }));
    assert!(matches!(tls.next_read(9, true), RecordStep::Fail(TlsReadError::ShortBody)));
}

#[test]
fn a_broken_stream_is_read_up_to_where_it_breaks() {
    let mut stream = wrap_tls_record(&[1, 2]);
    stream.extend([0x1b, 3, 3, 0, 1, 0]);
    assert_eq!(
        read_pieces(&stream, 4, 9),
        (vec![vec![1, 2]], TlsReadError::UnexpectedType(0x1b))
    );
    assert_eq!(read_pieces(&stream[..9], 4, 9), (vec![vec![1, 2]], TlsReadError::ShortHeader));
    assert_eq!(read_pieces(&stream[..12], 4, 9), (vec![vec![1, 2]], TlsReadError::ShortBody));
    // An empty record is handed on as it is.
    assert_eq!(
        read_pieces(&[0x17, 3, 3, 0, 0], 9, 9),
        (vec![vec![]], TlsReadError::ShortHeader)
    );
}

#[test]
fn what_is_wrapped_is_read_back() {
    for len in [0usize, 1, 500, 16384, 16385, 40000] {
        let data: Vec<u8> = (0..len).map(|i| (i * 7) as u8).collect();
        let mut stream = vec![0x14, 0x03, 0x03, 0x00, 0x01, 0x01];
        stream.extend(wrap_tls_record(&data));
        for room in [1usize, 100, 70000] {
            assert_eq!(read_all(&stream, room), Ok(data.clone()));
        }
    }
}

#[test]
fn broken_records_are_errors() {
    assert_eq!(read_all(&[0x17, 0x03], 10), Err(TlsReadError::ShortHeader));
    assert_eq!(read_all(&[0x17, 3, 3, 0, 4, 1, 2], 10), Err(TlsReadError::ShortBody));
    assert_eq!(read_all(&[0x1b, 3, 3, 0, 0], 10), Err(TlsReadError::UnexpectedType(0x1b)));
    assert_eq!(TlsReadError::ShortHeader.message(), "short TLS record header");
    assert_eq!(TlsReadError::ShortBody.message(), "short TLS record body");
    for record_type in [0x00u8, 0x0a, 0x1b, 0xf0, 0xff] {
        assert_eq!(
            TlsReadError::UnexpectedType(record_type).message(),
            format!("unexpected TLS record type 0x{:02X}", record_type)
        );
    }
}

#[test]
fn a_wrapped_stream_gives_its_halves_back() {
    let tls = FakeTlsStream::new("reader", 7u8);
    assert!(tls.buf.is_empty());
    assert_eq!(tls.into_inner(), ("reader", 7));
}
