use monoio_ws::client::{check_close_body, control_frame, message_frame};
use monoio_ws::codec::{apply_mask, parse_header};
use monoio_ws::utf8::is_valid_text;
use monoio_ws::{
    Action, ClientState, CloseCode, CloseState, Config, FrameHeader, HeaderError, Message,
    Opcode, RecvState, Violation,
};

const MASK: [u8; 4] = [0x0a, 0xf1, 0x22, 0x33];

fn header(fin: bool, opcode: Opcode, len: usize) -> FrameHeader {
    FrameHeader { fin, opcode, masked: false, length: len as u64, mask: None, header_len: 2 }
}

fn feed(state: &mut ClientState, fin: bool, opcode: Opcode, payload: &[u8], buf: &mut Vec<u8>) -> Action {
    state.on_frame(&header(fin, opcode, payload.len()), payload, buf)
}

fn unmask_frame(frame: &[u8]) -> (FrameHeader, Vec<u8>) {
    let h = parse_header(frame).unwrap();
    let mut body = frame[h.header_len..].to_vec();
    apply_mask(&mut body, h.mask.unwrap());
    (h, body)
}

#[test]
fn close_is_echoed() {
    let wire = [0x88u8, 5, 0x03, 0xE8, b'b', b'y', b'e'];
    let h = parse_header(&wire).unwrap();
    assert_eq!(h.opcode, Opcode::Close);
    let payload = &wire[h.header_len..];
    let mut state = ClientState::new(Config::default());
    let mut buf = Vec::new();
    assert_eq!(state.on_frame(&h, payload, &mut buf), Action::EchoClose);
    assert!(state.is_closed());
    assert_eq!(state.peer_code, Some(1000));
    let reply = control_frame(Opcode::Close, payload, MASK);
    let (rh, body) = unmask_frame(&reply);
    assert_eq!(rh.opcode, Opcode::Close);
    assert!(rh.fin);
    assert_eq!(body, vec![0x03, 0xE8, b'b', b'y', b'e']);
}

#[test]
fn close_after_our_close_ends() {
    let mut state = ClientState::new(Config::default());
    state.close_sent();
    assert_eq!(state.close, CloseState::CloseSent);
    let mut buf = Vec::new();
    assert_eq!(feed(&mut state, true, Opcode::Close, &[], &mut buf), Action::Closed);
    assert!(state.is_closed());
    assert_eq!(state.peer_code, None);
}

#[test]
fn ping_answered_with_same_payload() {
    let mut state = ClientState::new(Config::default());
    let mut buf = vec![9, 9];
    let before = state;
    assert_eq!(feed(&mut state, true, Opcode::Ping, b"are you there", &mut buf), Action::SendPong);
    assert_eq!(state, before);
    assert_eq!(buf, vec![9, 9]);
    let pong = control_frame(Opcode::Pong, b"are you there", MASK);
    let (h, body) = unmask_frame(&pong);
    assert_eq!(h.opcode, Opcode::Pong);
    assert_eq!(body, b"are you there".to_vec());
}

#[test]
fn pong_ignored() {
    let mut state = ClientState::new(Config::default());
    let mut buf = Vec::new();
    assert_eq!(feed(&mut state, true, Opcode::Pong, b"x", &mut buf), Action::Continue);
    assert_eq!(state.recv, RecvState::Idle);
}

#[test]
fn single_frame_messages_delivered() {
    let mut state = ClientState::new(Config::default());
    let mut buf = vec![1, 2, 3];
    assert_eq!(feed(&mut state, true, Opcode::Binary, &[4, 5], &mut buf), Action::Deliver(Message::Binary));
    assert_eq!(buf, vec![4, 5]);
    assert_eq!(feed(&mut state, true, Opcode::Text, "héllo".as_bytes(), &mut buf), Action::Deliver(Message::Text));
    assert_eq!(buf, "héllo".as_bytes().to_vec());
}

#[test]
fn fragments_reassembled_with_control_between() {
    let mut state = ClientState::new(Config::default());
    let mut buf = Vec::new();
    let text = "añb€c😀".as_bytes();
    let (a, rest) = text.split_at(2);
    let (b, c) = rest.split_at(4);
    assert_eq!(feed(&mut state, false, Opcode::Text, a, &mut buf), Action::Continue);
    assert_eq!(state.recv, RecvState::Assembling(Message::Text));
    assert_eq!(feed(&mut state, true, Opcode::Ping, b"p", &mut buf), Action::SendPong);
    assert_eq!(feed(&mut state, false, Opcode::Continuation, b, &mut buf), Action::Continue);
    assert_eq!(feed(&mut state, true, Opcode::Continuation, c, &mut buf), Action::Deliver(Message::Text));
    assert_eq!(buf, text.to_vec());
    assert_eq!(state.recv, RecvState::Idle);
}

#[test]
fn binary_fragments_reassembled() {
    let mut state = ClientState::new(Config::default());
    let mut buf = Vec::new();
    assert_eq!(feed(&mut state, false, Opcode::Binary, &[1], &mut buf), Action::Continue);
    assert_eq!(feed(&mut state, false, Opcode::Continuation, &[], &mut buf), Action::Continue);
    assert_eq!(feed(&mut state, true, Opcode::Continuation, &[2, 3], &mut buf), Action::Deliver(Message::Binary));
    assert_eq!(buf, vec![1, 2, 3]);
}

#[test]
fn invalid_text_refused_with_1007() {
    for at in 0..5 {
        let mut payload = b"hello".to_vec();
        payload[at] = 0xFF;
        let mut state = ClientState::new(Config::default());
        let mut buf = Vec::new();
        let action = feed(&mut state, true, Opcode::Text, &payload, &mut buf);
        assert_eq!(action, Action::Fail(Violation::InvalidUtf8));
        assert_eq!(Violation::InvalidUtf8.close_code(), 1007);
        assert!(state.is_closed());
    }
}

#[test]
fn text_cut_inside_character_refused_at_end() {
    let mut state = ClientState::new(Config::default());
    let mut buf = Vec::new();
    assert_eq!(feed(&mut state, false, Opcode::Text, &[0xE2, 0x82], &mut buf), Action::Continue);
    assert_eq!(feed(&mut state, true, Opcode::Continuation, &[], &mut buf), Action::Fail(Violation::InvalidUtf8));
}

#[test]
fn invalid_text_refused_early() {
    let mut state = ClientState::new(Config::default());
    let mut buf = Vec::new();
    assert_eq!(feed(&mut state, false, Opcode::Text, &[0xC0, 0x80], &mut buf), Action::Fail(Violation::InvalidUtf8));
}

#[test]
fn continuation_without_start_refused() {
    let mut state = ClientState::new(Config::default());
    let mut buf = Vec::new();
    assert_eq!(feed(&mut state, true, Opcode::Continuation, &[1], &mut buf), Action::Fail(Violation::UnexpectedContinuation));
    assert_eq!(Violation::UnexpectedContinuation.close_code(), 1002);
}

#[test]
fn data_frame_inside_fragmented_message_refused() {
    let mut state = ClientState::new(Config::default());
    let mut buf = Vec::new();
    feed(&mut state, false, Opcode::Binary, &[1], &mut buf);
    assert_eq!(feed(&mut state, true, Opcode::Text, b"x", &mut buf), Action::Fail(Violation::InterleavedData));
}

#[test]
fn oversized_message_refused() {
    let config = Config { max_message_size: 4, max_frame_size: 100, read_buffer_capacity: 16 };
    let mut state = ClientState::new(config);
    let mut buf = Vec::new();
    assert_eq!(feed(&mut state, false, Opcode::Binary, &[1, 2, 3], &mut buf), Action::Continue);
    assert_eq!(feed(&mut state, true, Opcode::Continuation, &[4, 5], &mut buf), Action::TooBig);
    assert!(state.is_closed());
}

#[test]
fn oversized_or_masked_frame_refused() {
    let config = Config { max_message_size: 100, max_frame_size: 2, read_buffer_capacity: 16 };
    let mut state = ClientState::new(config);
    let mut buf = Vec::new();
    assert_eq!(feed(&mut state, true, Opcode::Binary, &[1, 2, 3], &mut buf), Action::Fail(Violation::FrameTooLarge));
    let mut state = ClientState::new(Config::new());
    let mut h = header(true, Opcode::Binary, 1);
    h.masked = true;
    assert_eq!(state.on_frame(&h, &[1], &mut buf), Action::Fail(Violation::MaskedServerFrame));
}

#[test]
fn bad_close_codes_refused_with_1002() {
    for code in [1004u16, 1005, 1006, 1016, 999, 2000, 5000] {
        let body = code.to_be_bytes();
        let mut state = ClientState::new(Config::default());
        let mut buf = Vec::new();
        let action = feed(&mut state, true, Opcode::Close, &body, &mut buf);
        assert_eq!(action, Action::Fail(Violation::InvalidCloseCode));
        assert_eq!(Violation::InvalidCloseCode.close_code(), 1002);
    }
}

#[test]
fn close_body_rules() {
    assert_eq!(check_close_body(&[]), None);
    assert_eq!(check_close_body(&[3]), Some(Violation::InvalidCloseBody));
    assert_eq!(check_close_body(&[0x0B, 0xB8]), None);
    assert_eq!(check_close_body(&[0x03, 0xE8, 0xFF]), Some(Violation::InvalidCloseReason));
    assert_eq!(Violation::InvalidCloseReason.close_code(), 1007);
}

#[test]
fn header_violations() {
    assert_eq!(parse_header(&[0x82]).unwrap_err(), HeaderError::Incomplete(2));
    assert_eq!(parse_header(&[0xC2, 0x00]).unwrap_err(), HeaderError::Violation(Violation::ReservedBits));
    assert_eq!(parse_header(&[0x83, 0x00]).unwrap_err(), HeaderError::Violation(Violation::ReservedOpcode));
    assert_eq!(parse_header(&[0x8B, 0x00]).unwrap_err(), HeaderError::Violation(Violation::ReservedOpcode));
    assert_eq!(parse_header(&[0x09, 0x00]).unwrap_err(), HeaderError::Violation(Violation::FragmentedControl));
    assert_eq!(parse_header(&[0x89, 0x7E, 0, 200]).unwrap_err(), HeaderError::Violation(Violation::ControlTooLong));
    assert_eq!(parse_header(&[0x82, 0x7E, 0]).unwrap_err(), HeaderError::Incomplete(4));
    assert_eq!(parse_header(&[0x82, 0x7E, 0, 125]).unwrap_err(), HeaderError::Violation(Violation::NonMinimalLength));
    assert_eq!(
        parse_header(&[0x82, 0x7F, 0, 0, 0, 0, 0, 0, 0xFF, 0xFF]).unwrap_err(),
        HeaderError::Violation(Violation::NonMinimalLength)
    );
    assert_eq!(
        parse_header(&[0x82, 0x7F, 0x80, 0, 0, 0, 0, 0, 0, 0]).unwrap_err(),
        HeaderError::Violation(Violation::LengthTooLarge)
    );
    let h = parse_header(&[0x82, 0x7E, 0x01, 0x00]).unwrap();
    assert_eq!(h.length, 256);
    assert_eq!(h.header_len, 4);
    assert!(!h.masked);
}

#[test]
fn message_frame_matches_encoder() {
    let frame = message_frame(Opcode::Binary, &[0x68, 0x65, 0x6C, 0x6C, 0x6F], MASK);
    assert_eq!(frame, vec![130, 133, 10, 241, 34, 51, 98, 148, 78, 95, 101]);
    let empty = message_frame(Opcode::Binary, &[], MASK);
    assert_eq!(empty, vec![130, 128, 10, 241, 34, 51]);
}

#[test]
fn opcodes_and_close_codes() {
    assert_eq!(Opcode::from_u8(0xA), Some(Opcode::Pong));
    assert_eq!(Opcode::from_u8(0x3), None);
    assert_eq!(Opcode::Ping.as_u8(), 0x9);
    assert!(Opcode::Close.is_control());
    assert!(!Opcode::Text.is_control());
    assert!(Opcode::Binary.is_data());
    assert!(!Opcode::Continuation.is_data());
    assert_eq!(CloseCode::Normal.as_u16(), 1000);
    assert_eq!(CloseCode::TlsFailure.as_u16(), 1015);
    assert!(CloseCode::is_valid_on_wire(1000));
    assert!(CloseCode::is_valid_on_wire(4999));
    assert!(!CloseCode::is_valid_on_wire(1005));
    assert!(!CloseCode::is_valid_on_wire(1012));
}

#[test]
fn utf8_checks() {
    assert!(is_valid_text("plain ascii".as_bytes()));
    assert!(is_valid_text("κόσμε 😀".as_bytes()));
    assert!(is_valid_text(&[]));
    assert!(!is_valid_text(&[0xED, 0xA0, 0x80]));
    assert!(!is_valid_text(&[0xF4, 0x90, 0x80, 0x80]));
    assert!(!is_valid_text(&[0xE0, 0x80, 0x80]));
    assert!(!is_valid_text(&[0xC1, 0xBF]));
    assert!(!is_valid_text(&[0x80]));
}
