use tg_ws_proxy::proxy::raw_websocket::{
    build_frame, build_frame_with, read_frame, read_response_line, upgrade_request,
    upgrade_request_with, FrameRead, RawWebSocket, Received, UpgradeError, WsHandshakeError,
};

#[test]
fn test_build_frame() {
    let data = b"hello";
    let frame = build_frame(0x2, data, true);
    assert!(frame.len() > data.len());
    assert_eq!(frame[0] & 0x0F, 0x2);
    assert!(frame[1] & 0x80 != 0);
}

#[test]
fn test_build_frame_unmasked() {
    let data = b"hello";
    let frame = build_frame(0x2, data, false);
    assert_eq!(frame[0] & 0x0F, 0x2);
    assert!(frame[1] & 0x80 == 0);
    assert_eq!(&frame[2..], data);
}

#[test]
fn frames_are_those_of_the_standard() {
    assert_eq!(
        build_frame_with(0x1, b"Hello", None),
        vec![0x81, 0x05, 0x48, 0x65, 0x6c, 0x6c, 0x6f]
    );
    assert_eq!(
        build_frame_with(0x1, b"Hello", Some([0x37, 0xfa, 0x21, 0x3d])),
        vec![0x81, 0x85, 0x37, 0xfa, 0x21, 0x3d, 0x7f, 0x9f, 0x4d, 0x51, 0x58]
    );
}

#[test]
fn the_length_field_grows_with_the_payload() {
    let heads: [(usize, Vec<u8>); 5] = [
        (0, vec![0x82, 0]),
        (125, vec![0x82, 125]),
        (126, vec![0x82, 126, 0, 126]),
        (65535, vec![0x82, 126, 0xff, 0xff]),
        (65536, vec![0x82, 127, 0, 0, 0, 0, 0, 1, 0, 0]),
    ];
    for (len, head) in heads {
        let data = vec![3u8; len];
        let frame = build_frame_with(0x2, &data, None);
        assert_eq!(frame[..head.len()], head[..]);
        assert_eq!(frame.len(), head.len() + len);
        let masked = build_frame_with(0x2, &data, Some([1, 2, 3, 4]));
        assert_eq!(masked[1], head[1] | 0x80);
        assert_eq!(masked.len(), head.len() + 4 + len);
    }
}

// Reads a frame as a stream would be read: always exactly as many bytes as are asked for.
fn read_stepwise(stream: &[u8]) -> (u8, Vec<u8>, usize) {
    let mut seen = 0usize;
    loop {
        match read_frame(&stream[..seen]) {
            FrameRead::Need(n) => {
                assert!(n > 0);
                seen += n as usize;
                assert!(seen <= stream.len());
            }
            FrameRead::Frame { opcode, payload, used } => return (opcode, payload, used),
        }
    }
}

#[test]
fn what_is_built_is_read_back() {
    for len in [0usize, 1, 125, 126, 127, 65535, 65536, 70000] {
        let data: Vec<u8> = (0..len).map(|i| i as u8).collect();
        for mask in [None, Some([9u8, 8, 7, 6])] {
            let frame = build_frame_with(0xA, &data, mask);
            let mut stream = frame.clone();
            stream.extend_from_slice(b"the next frame");
            let (opcode, payload, used) = read_stepwise(&stream);
            assert_eq!((opcode, used), (0xA, frame.len()));
            assert_eq!(payload, data);
        }
    }
}

#[test]
fn random_masks_differ() {
    let data = vec![0u8; 64];
    let frames: Vec<Vec<u8>> = (0..8).map(|_| build_frame(0x2, &data, true)).collect();
    assert!(frames.iter().any(|f| *f != frames[0]));
    for frame in frames {
        assert_eq!(read_stepwise(&frame), (0x2, data.clone(), frame.len()));
    }
}

#[test]
fn the_upgrade_request_names_path_domain_and_key() {
    assert_eq!(
        upgrade_request_with("/apiws", "kws2.web.telegram.org", b"the sample nonce"),
        "GET /apiws HTTP/1.1\r\nHost: kws2.web.telegram.org\r\nUpgrade: websocket\r\n\
         Connection: Upgrade\r\nSec-WebSocket-Key: dGhlIHNhbXBsZSBub25jZQ==\r\n\
         Sec-WebSocket-Version: 13\r\nSec-WebSocket-Protocol: binary\r\n\r\n"
    );
    let random = upgrade_request("/apiws", "a.b");
    assert!(random.starts_with("GET /apiws HTTP/1.1\r\nHost: a.b\r\n"));
    assert_ne!(random, upgrade_request("/apiws", "a.b"));
}

fn answer(text: &str) -> Vec<String> {
    let mut lines: Vec<String> = Vec::new();
    for line in text.split_inclusive('\n') {
        if read_response_line(&mut lines, line.len(), line) {
            break;
        }
    }
    lines
}

#[test]
fn the_answer_ends_at_a_blank_line_or_at_the_end() {
    let lines = answer("HTTP/1.1 101 Switching Protocols\r\n Upgrade: websocket \r\n\r\nrest\r\n");
    assert_eq!(lines, vec!["HTTP/1.1 101 Switching Protocols", "Upgrade: websocket"]);
    let mut none: Vec<String> = Vec::new();
    assert!(read_response_line(&mut none, 0, ""));
    assert!(none.is_empty());
}

fn refused(text: &str) -> WsHandshakeError {
    match RawWebSocket::connect(&answer(text)) {
        Err(UpgradeError::Handshake(e)) => e,
        other => panic!("expected a refusal, got {:?}", other),
    }
}

#[test]
fn the_status_decides_on_the_upgrade() {
    let ws = RawWebSocket::connect(&answer("HTTP/1.1 101 Switching Protocols\r\n\r\n")).unwrap();
    assert!(!ws.is_closed());
    assert!(matches!(
        RawWebSocket::connect(&Vec::new()),
        Err(UpgradeError::EmptyResponse)
    ));

    let moved = refused("HTTP/1.1 302 Found\r\nServer: x\r\nLOCATION : https://a:1/b \r\n\r\n");
    assert_eq!(moved.status_code, 302);
    assert_eq!(moved.location.as_deref(), Some("https://a:1/b"));
    assert!(moved.is_redirect());
    assert_eq!(moved.message(), "HTTP 302: HTTP/1.1 302 Found");

    let missing = refused("HTTP/1.1 404 Not Found\r\nlocations: no\r\nlocation\r\n\r\n");
    assert_eq!(missing.status_code, 404);
    assert_eq!(missing.location, None);
    assert!(!missing.is_redirect());

    assert_eq!(refused("garbage\r\n\r\n").status_code, 0);
    assert_eq!(refused("HTTP/1.1 abc x\r\n\r\n").status_code, 0);
    assert_eq!(refused("HTTP/1.1 99999 x\r\n\r\n").status_code, 0);
    assert_eq!(refused("HTTP/1.1  101\r\n\r\n").status_code, 0);
    assert_eq!(refused("HTTP/1.1 +200\r\n\r\n").status_code, 200);
}

#[test]
fn redirects_are_five_status_codes() {
    let redirects: Vec<u16> = (0..1000)
        .filter(|code| {
            WsHandshakeError { status_code: *code, status_line: String::new(), location: None }
                .is_redirect()
        })
        .collect();
    assert_eq!(redirects, vec![301, 302, 303, 307, 308]);
}

#[test]
fn frames_are_sent_until_the_connection_is_closed() {
    let mut ws = RawWebSocket { closed: false };
    assert_eq!(read_stepwise(&ws.send(b"abc").unwrap()).1, b"abc".to_vec());
    let frames = ws.send_batch(&vec![b"x".to_vec(), Vec::new(), b"yz".to_vec()]).unwrap();
    let payloads: Vec<Vec<u8>> = frames.iter().map(|f| read_stepwise(f).1).collect();
    assert_eq!(payloads, vec![b"x".to_vec(), Vec::new(), b"yz".to_vec()]);

    let close = ws.close().expect("a close frame");
    assert_eq!(read_stepwise(&close), (0x8, Vec::new(), close.len()));
    assert!(ws.is_closed());
    assert!(ws.close().is_none());
    assert!(ws.send(b"abc").is_err());
    assert!(ws.send_batch(&Vec::new()).is_err());
}

#[test]
fn control_frames_are_answered() {
    let mut ws = RawWebSocket { closed: false };
    match ws.recv(0x9, b"ping".to_vec()) {
        Received::Reply(frame) => {
            assert_eq!(read_stepwise(&frame), (0xA, b"ping".to_vec(), frame.len()))
        }
        other => panic!("{:?}", other),
    }
    assert!(matches!(ws.recv(0xA, b"pong".to_vec()), Received::Nothing));
    assert!(matches!(ws.recv(0x0, b"more".to_vec()), Received::Nothing));
    assert!(matches!(ws.recv(0x1, b"t".to_vec()), Received::Data(d) if d == b"t"));
    assert!(matches!(ws.recv(0x2, Vec::new()), Received::Data(d) if d.is_empty()));
    assert!(!ws.is_closed());
    match ws.recv(0x8, vec![3, 0xe8, b'b', b'y', b'e']) {
        Received::Closing(frame) => {
            assert_eq!(read_stepwise(&frame), (0x8, vec![3, 0xe8], frame.len()))
        }
        other => panic!("{:?}", other),
    }
    assert!(ws.is_closed());
}
