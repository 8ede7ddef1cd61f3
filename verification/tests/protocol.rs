use rustymine::error::ProtocolError;
use rustymine::packet::{Packet, Payload};
use rustymine::protocol::{
    advance, handshake_intent, process_stream, ConnectionState, Event, EventSink,
    HandshakeIntent, NEXT_STATE_OFFSET,
};
use rustymine::status::{status_json, Configuration};
use rustymine::stream::ByteStream;

const PEER: &str = "192.0.2.7";

fn config() -> Configuration {
    Configuration {
        host: "0.0.0.0".to_string(),
        port: 25565,
        description: "hi".to_string(),
        max_players: 5,
        online_players: 1,
        version_name: "1.8".to_string(),
        protocol_number: 47,
    }
}

const STATUS_JSON: &str =
    "{\"description\":\"hi\",\"players\":{\"max\":5,\"online\":1},\"version\":{\"name\":\"1.8\",\"protocol\":47}}";

/// Protocol version 47, the address "localhost", port 25565, then the next state.
fn handshake_payload(next_state: u8) -> Vec<u8> {
    let mut payload = vec![0x2F, 0x09];
    payload.extend_from_slice(b"localhost");
    payload.extend_from_slice(&[0x63, 0xDD]);
    payload.push(next_state);
    payload
}

fn handshake(next_state: u8) -> Vec<u8> {
    Packet { opcode: 0, payload: Payload::Raw(handshake_payload(next_state)) }.as_bytes()
}

fn request() -> Vec<u8> {
    Packet { opcode: 0, payload: Payload::Empty }.as_bytes()
}

fn ping() -> Packet {
    Packet { opcode: 1, payload: Payload::Raw(vec![0, 0, 1, 0x8B, 0x2C, 0x5D, 0x3E, 0x4F]) }
}

fn login(name: &str) -> Vec<u8> {
    Packet { opcode: 0, payload: Payload::Text(name.to_string()) }.as_bytes()
}

fn status_response() -> Vec<u8> {
    Packet { opcode: 0, payload: Payload::Text(STATUS_JSON.to_string()) }.as_bytes()
}

struct Outcome {
    result: Result<(), ProtocolError>,
    output: Vec<u8>,
    events: Vec<Event>,
    unread: usize,
}

fn serve(input: Vec<u8>) -> Outcome {
    let mut stream = ByteStream::new(input);
    let mut sink = EventSink::new();
    let result = process_stream(&config(), PEER, &mut stream, &mut sink);
    Outcome {
        result,
        output: stream.output().clone(),
        events: sink.records().clone(),
        unread: stream.remaining(),
    }
}

struct StepOutcome {
    result: Result<ConnectionState, ProtocolError>,
    output: Vec<u8>,
    events: Vec<Event>,
    unread: usize,
}

fn step(state: ConnectionState, input: Vec<u8>) -> StepOutcome {
    let mut stream = ByteStream::new(input);
    let mut sink = EventSink::new();
    let result = advance(state, &config(), PEER, &mut stream, &mut sink);
    StepOutcome {
        result,
        output: stream.output().clone(),
        events: sink.records().clone(),
        unread: stream.remaining(),
    }
}

#[test]
fn the_next_state_stands_at_offset_thirteen() {
    assert_eq!(NEXT_STATE_OFFSET, 13);
    assert_eq!(handshake_payload(1).len(), 14);
    assert_eq!(handshake_payload(1)[NEXT_STATE_OFFSET], 1);
}

#[test]
fn handshake_intent_reads_the_next_state() {
    assert_eq!(handshake_intent(&handshake_payload(1)), Some(HandshakeIntent::Status));
    assert_eq!(handshake_intent(&handshake_payload(2)), Some(HandshakeIntent::Login));
    assert_eq!(handshake_intent(&handshake_payload(0)), Some(HandshakeIntent::Unrecognized(0)));
    assert_eq!(handshake_intent(&handshake_payload(9)), Some(HandshakeIntent::Unrecognized(9)));
    assert_eq!(
        handshake_intent(&handshake_payload(255)),
        Some(HandshakeIntent::Unrecognized(255))
    );
}

#[test]
fn handshake_intent_ignores_what_follows_the_next_state() {
    let mut payload = handshake_payload(2);
    payload.extend_from_slice(&[1, 1, 1]);
    assert_eq!(handshake_intent(&payload), Some(HandshakeIntent::Login));
}

#[test]
fn handshake_intent_of_a_short_payload_is_none() {
    assert_eq!(handshake_intent(&[]), None);
    assert_eq!(handshake_intent(&[1; 13]), None);
    assert_eq!(handshake_intent(&[1; 14]), Some(HandshakeIntent::Status));
}

#[test]
fn a_new_sink_is_empty_and_keeps_records_in_order() {
    let mut sink = EventSink::new();
    assert!(sink.records().is_empty());
    sink.record(Event::InvalidLogin);
    sink.record(Event::UnknownPacket { opcode: 3 });
    assert_eq!(sink.records(), &vec![Event::InvalidLogin, Event::UnknownPacket { opcode: 3 }]);
}

#[test]
fn handshake_for_status_leads_to_status() {
    let out = step(ConnectionState::AwaitHandshake, handshake(1));
    assert_eq!(out.result, Ok(ConnectionState::Status));
    assert_eq!(out.events, vec![Event::Query { peer: PEER.to_string() }]);
    assert!(out.output.is_empty());
    assert_eq!(out.unread, 0);
}

#[test]
fn handshake_for_login_leads_to_login() {
    let out = step(ConnectionState::AwaitHandshake, handshake(2));
    assert_eq!(out.result, Ok(ConnectionState::Login));
    assert!(out.events.is_empty());
    assert!(out.output.is_empty());
}

#[test]
fn unknown_next_state_closes_without_response() {
    let mut input = handshake(9);
    input.extend_from_slice(&request());
    let out = serve(input);
    assert_eq!(out.result, Err(ProtocolError::UnexpectedState(9)));
    assert!(out.output.is_empty());
    assert_eq!(out.events, vec![Event::InvalidQuery { next_state: 9 }]);
    assert_eq!(out.unread, request().len());
}

#[test]
fn unknown_opcode_closes_without_response() {
    let input = Packet { opcode: 0x0F, payload: Payload::Raw(handshake_payload(1)) }.as_bytes();
    let out = serve(input);
    assert_eq!(out.result, Err(ProtocolError::UnexpectedOpcode(0x0F)));
    assert!(out.output.is_empty());
    assert_eq!(out.events, vec![Event::UnknownPacket { opcode: 0x0F }]);
}

#[test]
fn a_handshake_too_short_for_its_next_state_is_malformed() {
    let payload = Payload::Raw(vec![0x2F, 0x00, 0x63, 0xDD, 1]);
    let input = Packet { opcode: 0, payload }.as_bytes();
    let out = serve(input);
    assert_eq!(out.result, Err(ProtocolError::Malformed));
    assert!(out.output.is_empty());
    assert!(out.events.is_empty());
}

#[test]
fn a_handshake_of_length_zero_is_malformed() {
    let out = serve(vec![0x00]);
    assert_eq!(out.result, Err(ProtocolError::Malformed));
    assert!(out.output.is_empty());
    assert!(out.events.is_empty());
}

#[test]
fn a_silent_peer_is_truncated() {
    let out = serve(vec![]);
    assert_eq!(out.result, Err(ProtocolError::Truncated));
    assert!(out.output.is_empty());
    assert!(out.events.is_empty());
}

#[test]
fn a_handshake_cut_short_is_truncated() {
    let whole = handshake(1);
    let out = serve(whole[..whole.len() - 1].to_vec());
    assert_eq!(out.result, Err(ProtocolError::Truncated));
    assert!(out.events.is_empty());
    assert_eq!(out.unread, whole.len() - 1);
}

#[test]
fn status_request_is_answered_with_the_status_document() {
    let mut input = request();
    input.extend_from_slice(&ping().as_bytes());
    let out = step(ConnectionState::Status, input);
    assert_eq!(out.result, Ok(ConnectionState::Closed));
    let mut written = ByteStream::new(out.output);
    assert_eq!(
        written.read_packet_string(),
        Ok(Packet { opcode: 0, payload: Payload::Text(STATUS_JSON.to_string()) })
    );
}

#[test]
fn status_response_is_the_document_of_the_configuration() {
    assert_eq!(status_json(&config()), STATUS_JSON);
}

#[test]
fn ping_is_echoed_byte_for_byte() {
    let mut input = request();
    input.extend_from_slice(&ping().as_bytes());
    let out = step(ConnectionState::Status, input);
    assert_eq!(out.result, Ok(ConnectionState::Closed));
    assert_eq!(out.unread, 0);
    let mut written = ByteStream::new(out.output);
    written.read_packet_string().unwrap();
    let echo = written.read_packet_data().unwrap();
    assert_eq!(echo.opcode, 1);
    assert_eq!(echo.payload, Payload::Raw(vec![0, 0, 1, 0x8B, 0x2C, 0x5D, 0x3E, 0x4F]));
    assert_eq!(written.remaining(), 0);
}

#[test]
fn status_session_writes_response_then_echo() {
    let mut input = handshake(1);
    input.extend_from_slice(&request());
    input.extend_from_slice(&ping().as_bytes());
    let out = serve(input);
    assert_eq!(out.result, Ok(()));
    let mut expected = status_response();
    expected.extend_from_slice(&ping().as_bytes());
    assert_eq!(out.output, expected);
    assert_eq!(out.events, vec![Event::Query { peer: PEER.to_string() }]);
    assert_eq!(out.unread, 0);
}

#[test]
fn status_session_leaves_what_follows_the_ping() {
    let mut input = handshake(1);
    input.extend_from_slice(&request());
    input.extend_from_slice(&ping().as_bytes());
    input.extend_from_slice(&[1, 2, 3]);
    let out = serve(input);
    assert_eq!(out.result, Ok(()));
    assert_eq!(out.unread, 3);
}

#[test]
fn a_status_request_with_payload_is_a_protocol_error() {
    let mut input = handshake(1);
    input.extend_from_slice(&[0x02, 0x00, 0x00]);
    input.extend_from_slice(&ping().as_bytes());
    let out = serve(input);
    assert_eq!(out.result, Err(ProtocolError::Malformed));
    assert!(out.output.is_empty());
}

#[test]
fn a_status_request_with_another_opcode_is_answered() {
    let mut input = Packet { opcode: 0x33, payload: Payload::Empty }.as_bytes();
    input.extend_from_slice(&ping().as_bytes());
    let out = step(ConnectionState::Status, input);
    assert_eq!(out.result, Ok(ConnectionState::Closed));
}

#[test]
fn a_missing_ping_leaves_the_response_written() {
    let mut input = handshake(1);
    input.extend_from_slice(&request());
    let out = serve(input);
    assert_eq!(out.result, Err(ProtocolError::Truncated));
    assert_eq!(out.output, status_response());
}

#[test]
fn a_ping_of_length_zero_is_malformed_after_the_response() {
    let mut input = handshake(1);
    input.extend_from_slice(&request());
    input.push(0x00);
    let out = serve(input);
    assert_eq!(out.result, Err(ProtocolError::Malformed));
    assert_eq!(out.output, status_response());
}

#[test]
fn a_ping_with_any_opcode_and_no_payload_is_echoed() {
    let mut input = request();
    input.extend_from_slice(&[0x01, 0x7E]);
    let out = step(ConnectionState::Status, input);
    assert_eq!(out.result, Ok(ConnectionState::Closed));
    let mut expected = status_response();
    expected.extend_from_slice(&[0x01, 0x7E]);
    assert_eq!(out.output, expected);
}

#[test]
fn login_records_the_name_and_the_peer() {
    let out = step(ConnectionState::Login, login("Alice"));
    assert_eq!(out.result, Ok(ConnectionState::Closed));
    assert_eq!(
        out.events,
        vec![Event::Login { name: "Alice".to_string(), peer: PEER.to_string() }]
    );
    assert!(out.output.is_empty());
    assert_eq!(out.unread, 0);
}

#[test]
fn login_session_records_once_and_writes_nothing() {
    let mut input = handshake(2);
    input.extend_from_slice(&login("Alice"));
    let out = serve(input);
    assert_eq!(out.result, Ok(()));
    assert_eq!(
        out.events,
        vec![Event::Login { name: "Alice".to_string(), peer: PEER.to_string() }]
    );
    assert!(out.output.is_empty());
}

#[test]
fn login_with_invalid_utf8_is_recorded_as_invalid() {
    let mut input = handshake(2);
    input.extend_from_slice(&[0x04, 0x00, 0x02, 0xC3, 0x28]);
    let out = serve(input);
    assert_eq!(out.result, Ok(()));
    assert_eq!(out.events, vec![Event::InvalidLogin]);
    assert!(out.output.is_empty());
}

#[test]
fn login_with_bad_framing_is_recorded_as_invalid() {
    let out = step(ConnectionState::Login, vec![0x80, 0x80, 0x80, 0x80, 0x80, 0x00]);
    assert_eq!(out.result, Ok(ConnectionState::Closed));
    assert_eq!(out.events, vec![Event::InvalidLogin]);
}

#[test]
fn login_cut_short_is_truncated_and_records_nothing() {
    let whole = login("Alice");
    let out = step(ConnectionState::Login, whole[..whole.len() - 2].to_vec());
    assert_eq!(out.result, Err(ProtocolError::Truncated));
    assert!(out.events.is_empty());
    assert!(out.output.is_empty());
}

#[test]
fn closed_is_terminal() {
    let out = step(ConnectionState::Closed, handshake(1));
    assert_eq!(out.result, Ok(ConnectionState::Closed));
    assert!(out.output.is_empty());
    assert!(out.events.is_empty());
    assert_eq!(out.unread, handshake(1).len());
}

#[test]
fn what_was_written_before_stays_in_front() {
    let mut stream = ByteStream::new(request().into_iter().chain(ping().as_bytes()).collect());
    stream.write(&[0xAA]);
    let mut sink = EventSink::new();
    sink.record(Event::InvalidLogin);
    let result = advance(ConnectionState::Status, &config(), PEER, &mut stream, &mut sink);
    assert_eq!(result, Ok(ConnectionState::Closed));
    assert_eq!(stream.output()[0], 0xAA);
    assert_eq!(&stream.output()[1..1 + status_response().len()], &status_response()[..]);
    assert_eq!(sink.records(), &vec![Event::InvalidLogin]);
}

#[test]
fn more_input_only_extends_a_truncated_session() {
    let mut whole = handshake(1);
    whole.extend_from_slice(&request());
    whole.extend_from_slice(&ping().as_bytes());
    let full = serve(whole.clone());
    for cut in 0..whole.len() {
        let part = serve(whole[..cut].to_vec());
        assert_eq!(part.result, Err(ProtocolError::Truncated));
        assert!(full.output.starts_with(&part.output));
        assert!(full.events.starts_with(&part.events));
    }
}
