//! The state machine of one connection: handshake, then a status exchange or
//! a login attempt, then the end.

use vstd::prelude::*;
use vstd::pervasive::unreached;
use crate::error::ProtocolError;
use crate::packet::{
    command_frame, data_frame, lemma_command_frame_extends, lemma_data_frame_extends,
    lemma_data_round_trip, lemma_string_frame_extends, string_frame, Frame, Packet, PacketView,
    Payload, PayloadView,
};
use crate::varint::{lemma_decoded_varint_is_short, varint_decoding};
use crate::status::{status_document, status_json, Configuration};
use crate::stream::ByteStream;

verus! {

/// Where a connection stands. It only ever moves forward: from
/// `AwaitHandshake` to `Status` or `Login`, and from those to `Closed`.
#[derive(Clone, Copy, Debug, PartialEq, Eq, Structural)]
pub enum ConnectionState {
    AwaitHandshake,
    Status,
    Login,
    Closed,
}

impl ConnectionState {
    /// How many transitions a connection in this state can still make.
    pub open spec fn steps_left(self) -> nat {
        match self {
            ConnectionState::AwaitHandshake => 2,
            ConnectionState::Status => 1,
            ConnectionState::Login => 1,
            ConnectionState::Closed => 0,
        }
    }
}

/// What a handshake asks for.
#[derive(Clone, Copy, Debug, PartialEq, Eq, Structural)]
pub enum HandshakeIntent {
    Status,
    Login,
    /// A value that selects no state.
    Unrecognized(u8),
}

/// Where in a handshake's payload the byte that selects the next state stands.
pub const NEXT_STATE_OFFSET: usize = 13;

/// Something worth recording that happened on a connection.
#[derive(Clone, Debug, PartialEq, Eq)]
pub enum Event {
    /// The first packet was no handshake: it had this opcode.
    UnknownPacket { opcode: u8 },
    /// The handshake asked for a next state that does not exist.
    InvalidQuery { next_state: u8 },
    /// The peer asked for the server's status.
    Query { peer: String },
    /// The peer started a login under this name.
    Login { name: String, peer: String },
    /// The login packet could not be decoded.
    InvalidLogin,
}

/// An event as a mathematical value.
pub enum EventView {
    UnknownPacket { opcode: u8 },
    InvalidQuery { next_state: u8 },
    Query { peer: Seq<char> },
    Login { name: Seq<char>, peer: Seq<char> },
    InvalidLogin,
}

impl View for Event {
    type V = EventView;

    open spec fn view(&self) -> EventView {
        match self {
            Event::UnknownPacket { opcode } => EventView::UnknownPacket { opcode: *opcode },
            Event::InvalidQuery { next_state } => EventView::InvalidQuery {
                next_state: *next_state,
            },
            Event::Query { peer } => EventView::Query { peer: peer@ },
            Event::Login { name, peer } => EventView::Login { name: name@, peer: peer@ },
            Event::InvalidLogin => EventView::InvalidLogin,
        }
    }
}

/// The views of `events`, in the same order.
pub open spec fn event_views(events: Seq<Event>) -> Seq<EventView> {
    Seq::new(events.len(), |i: int| events[i]@)
}

/// Where the state machine records what happens, oldest record first.
pub struct EventSink {
    records: Vec<Event>,
}

impl EventSink {
    /// The records so far, as mathematical values.
    pub closed spec fn log(&self) -> Seq<EventView> {
        event_views(self.records@)
    }

    /// A sink without records.
    pub fn new() -> (sink: EventSink)
        ensures
            sink.log() == Seq::<EventView>::empty(),
    {
        EventSink { records: Vec::new() }
    }

    /// Adds `event` behind the records so far.
    pub fn record(&mut self, event: Event)
        ensures
            final(self).log() == old(self).log().push(event@),
    {
        self.records.push(event);
    }

    /// The records so far.
    pub fn records(&self) -> (records: &Vec<Event>)
        ensures
            event_views(records@) == self.log(),
    {
        &self.records
    }
}

/// The intent that the value of a handshake's next-state byte stands for.
pub open spec fn intent_of_value(value: u8) -> HandshakeIntent {
    if value == 1 {
        HandshakeIntent::Status
    } else if value == 2 {
        HandshakeIntent::Login
    } else {
        HandshakeIntent::Unrecognized(value)
    }
}

/// What a handshake's payload asks for, if it is long enough to say.
pub open spec fn intent_of(payload: Seq<u8>) -> Option<HandshakeIntent> {
    if payload.len() <= NEXT_STATE_OFFSET {
        None
    } else {
        Some(intent_of_value(payload[NEXT_STATE_OFFSET as int]))
    }
}

/// Reads the intent out of a handshake's payload: the byte at
/// `NEXT_STATE_OFFSET`, or `None` where the payload ends before it.
pub fn handshake_intent(payload: &[u8]) -> (intent: Option<HandshakeIntent>)
    ensures
        intent == intent_of(payload@),
{
    if payload.len() <= NEXT_STATE_OFFSET {
        None
    } else {
        let value = payload[NEXT_STATE_OFFSET];
        if value == 1 {
            Some(HandshakeIntent::Status)
        } else if value == 2 {
            Some(HandshakeIntent::Login)
        } else {
            Some(HandshakeIntent::Unrecognized(value))
        }
    }
}

/// What one transition of the state machine does.
pub struct Step {
    /// How many of the unread bytes it consumes.
    pub consumed: nat,
    /// The bytes it writes.
    pub output: Seq<u8>,
    /// The events it records.
    pub events: Seq<EventView>,
    /// The state it leads to, or the failure that ends the connection.
    pub result: Result<ConnectionState, ProtocolError>,
}

/// The packet that answers a status request.
pub open spec fn status_response(config: &Configuration) -> PacketView {
    PacketView { opcode: 0, payload: PayloadView::Text(status_document(config)) }
}

/// The transition out of `AwaitHandshake`: one packet of raw bytes is read.
/// Its opcode must be `0`, and the byte of its payload at `NEXT_STATE_OFFSET`
/// selects the next state. A payload that ends before that byte is `Malformed`.
pub open spec fn handshake_step(peer: Seq<char>, input: Seq<u8>) -> Step {
    match data_frame(input) {
        Err(e) => Step { consumed: 0, output: Seq::empty(), events: Seq::empty(), result: Err(e) },
        Ok(frame) => {
            let opcode = frame.packet.opcode;
            if opcode != 0 {
                Step {
                    consumed: frame.len,
                    output: Seq::empty(),
                    events: seq![EventView::UnknownPacket { opcode }],
                    result: Err(ProtocolError::UnexpectedOpcode(opcode)),
                }
            } else {
                match intent_of(frame.packet.payload->Raw_0) {
                    None => Step {
                        consumed: frame.len,
                        output: Seq::empty(),
                        events: Seq::empty(),
                        result: Err(ProtocolError::Malformed),
                    },
                    Some(HandshakeIntent::Status) => Step {
                        consumed: frame.len,
                        output: Seq::empty(),
                        events: seq![EventView::Query { peer }],
                        result: Ok(ConnectionState::Status),
                    },
                    Some(HandshakeIntent::Login) => Step {
                        consumed: frame.len,
                        output: Seq::empty(),
                        events: Seq::empty(),
                        result: Ok(ConnectionState::Login),
                    },
                    Some(HandshakeIntent::Unrecognized(next_state)) => Step {
                        consumed: frame.len,
                        output: Seq::empty(),
                        events: seq![EventView::InvalidQuery { next_state }],
                        result: Err(ProtocolError::UnexpectedState(next_state)),
                    },
                }
            }
        },
    }
}

/// The transition out of `Status`: a packet without payload is read and
/// answered with the status document, as text under opcode `0`; then a packet
/// of raw bytes is read and written back with the same opcode and payload.
pub open spec fn status_step(config: &Configuration, input: Seq<u8>) -> Step {
    match command_frame(input) {
        Err(e) => Step { consumed: 0, output: Seq::empty(), events: Seq::empty(), result: Err(e) },
        Ok(request) => {
            let response = status_response(config);
            if response.frame_len() > usize::MAX {
                Step {
                    consumed: request.len,
                    output: Seq::empty(),
                    events: Seq::empty(),
                    result: Err(ProtocolError::Malformed),
                }
            } else {
                match data_frame(input.skip(request.len as int)) {
                    Err(e) => Step {
                        consumed: request.len,
                        output: response.wire(),
                        events: Seq::empty(),
                        result: Err(e),
                    },
                    Ok(ping) => Step {
                        consumed: request.len + ping.len,
                        output: response.wire() + ping.packet.wire(),
                        events: Seq::empty(),
                        result: Ok(ConnectionState::Closed),
                    },
                }
            }
        },
    }
}

/// The transition out of `Login`: a packet of text is read and the name in
/// it recorded with the peer. A packet that is malformed or no valid UTF-8 is
/// recorded as an invalid login. Nothing is written either way.
pub open spec fn login_step(peer: Seq<char>, input: Seq<u8>) -> Step {
    match string_frame(input) {
        Ok(frame) => Step {
            consumed: frame.len,
            output: Seq::empty(),
            events: seq![EventView::Login { name: frame.packet.payload->Text_0, peer }],
            result: Ok(ConnectionState::Closed),
        },
        Err(ProtocolError::Truncated) => Step {
            consumed: 0,
            output: Seq::empty(),
            events: Seq::empty(),
            result: Err(ProtocolError::Truncated),
        },
        Err(_) => Step {
            consumed: 0,
            output: Seq::empty(),
            events: seq![EventView::InvalidLogin],
            result: Ok(ConnectionState::Closed),
        },
    }
}

/// The transition out of `state` on the unread bytes `input`. `Closed` is
/// terminal: nothing is read, written or recorded there.
#[verifier::opaque]
pub open spec fn transition(
    state: ConnectionState,
    config: &Configuration,
    peer: Seq<char>,
    input: Seq<u8>,
) -> Step {
    match state {
        ConnectionState::AwaitHandshake => handshake_step(peer, input),
        ConnectionState::Status => status_step(config, input),
        ConnectionState::Login => login_step(peer, input),
        ConnectionState::Closed => Step {
            consumed: 0,
            output: Seq::empty(),
            events: Seq::empty(),
            result: Ok(ConnectionState::Closed),
        },
    }
}

/// What a whole connection does.
pub struct Session {
    /// How many of the peer's bytes are consumed.
    pub consumed: nat,
    /// The bytes written back.
    pub output: Seq<u8>,
    /// The events recorded.
    pub events: Seq<EventView>,
    /// Whether the exchange was completed, or the failure that ended it.
    pub result: Result<(), ProtocolError>,
}

/// What a connection does when `input` is all that the peer sends: the
/// handshake's transition and, where that leads to `Status` or `Login`, the
/// transition out of that state on the bytes that follow.
pub open spec fn session(config: &Configuration, peer: Seq<char>, input: Seq<u8>) -> Session {
    let first = transition(ConnectionState::AwaitHandshake, config, peer, input);
    match first.result {
        Err(e) => Session {
            consumed: first.consumed,
            output: first.output,
            events: first.events,
            result: Err(e),
        },
        Ok(next) => {
            let second = transition(next, config, peer, input.skip(first.consumed as int));
            Session {
                consumed: first.consumed + second.consumed,
                output: first.output + second.output,
                events: first.events + second.events,
                result: match second.result {
                    Ok(_) => Ok(()),
                    Err(e) => Err(e),
                },
            }
        },
    }
}

/// Makes the transition out of `AwaitHandshake`.
fn await_handshake(peer: &str, stream: &mut ByteStream, sink: &mut EventSink) -> (r: Result<
    ConnectionState,
    ProtocolError,
>)
    ensures
        r == handshake_step(peer@, old(stream).unread()).result,
        final(stream).unread() == old(stream).unread().skip(
            handshake_step(peer@, old(stream).unread()).consumed as int,
        ),
        final(stream).written() == old(stream).written(),
        final(sink).log() == old(sink).log() + handshake_step(peer@, old(stream).unread()).events,
{
    let packet = match stream.read_packet_data() {
        Ok(packet) => packet,
        Err(e) => {
            return Err(e);
        },
    };
    let data = match packet.payload {
        Payload::Raw(data) => data,
        _ => unreached(),
    };
    if packet.opcode != 0 {
        sink.record(Event::UnknownPacket { opcode: packet.opcode });
        return Err(ProtocolError::UnexpectedOpcode(packet.opcode));
    }
    match handshake_intent(data.as_slice()) {
        None => Err(ProtocolError::Malformed),
        Some(HandshakeIntent::Status) => {
            sink.record(Event::Query { peer: peer.to_owned() });
            Ok(ConnectionState::Status)
        },
        Some(HandshakeIntent::Login) => Ok(ConnectionState::Login),
        Some(HandshakeIntent::Unrecognized(next_state)) => {
            sink.record(Event::InvalidQuery { next_state });
            Err(ProtocolError::UnexpectedState(next_state))
        },
    }
}

/// Makes the transition out of `Status`.
fn serve_status(config: &Configuration, stream: &mut ByteStream) -> (r: Result<
    ConnectionState,
    ProtocolError,
>)
    ensures
        r == status_step(config, old(stream).unread()).result,
        final(stream).unread() == old(stream).unread().skip(
            status_step(config, old(stream).unread()).consumed as int,
        ),
        final(stream).written() == old(stream).written() + status_step(
            config,
            old(stream).unread(),
        ).output,
{
    match stream.read_packet_command() {
        Ok(_) => {},
        Err(e) => {
            return Err(e);
        },
    }
    let response = Packet { opcode: 0, payload: Payload::Text(status_json(config)) };
    match stream.write_packet(response) {
        Ok(()) => {},
        Err(e) => {
            return Err(e);
        },
    }
    let ping = match stream.read_packet_data() {
        Ok(ping) => ping,
        Err(e) => {
            return Err(e);
        },
    };
    match stream.write_packet(ping) {
        Ok(()) => Ok(ConnectionState::Closed),
        Err(_) => unreached(),
    }
}

/// Makes the transition out of `Login`.
fn serve_login(peer: &str, stream: &mut ByteStream, sink: &mut EventSink) -> (r: Result<
    ConnectionState,
    ProtocolError,
>)
    ensures
        r == login_step(peer@, old(stream).unread()).result,
        final(stream).unread() == old(stream).unread().skip(
            login_step(peer@, old(stream).unread()).consumed as int,
        ),
        final(stream).written() == old(stream).written(),
        final(sink).log() == old(sink).log() + login_step(peer@, old(stream).unread()).events,
{
    match stream.read_packet_string() {
        Ok(packet) => {
            let name = match packet.payload {
                Payload::Text(name) => name,
                _ => unreached(),
            };
            sink.record(Event::Login { name, peer: peer.to_owned() });
            Ok(ConnectionState::Closed)
        },
        Err(ProtocolError::Truncated) => Err(ProtocolError::Truncated),
        Err(_) => {
            sink.record(Event::InvalidLogin);
            Ok(ConnectionState::Closed)
        },
    }
}

/// Makes the transition out of `state`: reads what that state expects from
/// `stream`, writes the answer to it, records what happened in `sink`, and
/// returns the next state or the failure that ends the connection.
pub fn advance(
    state: ConnectionState,
    config: &Configuration,
    peer: &str,
    stream: &mut ByteStream,
    sink: &mut EventSink,
) -> (r: Result<ConnectionState, ProtocolError>)
    ensures
        r == transition(state, config, peer@, old(stream).unread()).result,
        final(stream).unread() == old(stream).unread().skip(
            transition(state, config, peer@, old(stream).unread()).consumed as int,
        ),
        final(stream).written() == old(stream).written() + transition(
            state,
            config,
            peer@,
            old(stream).unread(),
        ).output,
        final(sink).log() == old(sink).log() + transition(
            state,
            config,
            peer@,
            old(stream).unread(),
        ).events,
{
    reveal(transition);
    match state {
        ConnectionState::AwaitHandshake => await_handshake(peer, stream, sink),
        ConnectionState::Status => serve_status(config, stream),
        ConnectionState::Login => serve_login(peer, stream, sink),
        ConnectionState::Closed => Ok(ConnectionState::Closed),
    }
}

/// A connection never goes back: a transition out of `AwaitHandshake` leads
/// to `Status` or `Login`, one out of those leads to `Closed`, and `Closed`
/// stays `Closed`. And no transition consumes more than there is.
pub proof fn lemma_transitions_move_forward(
    state: ConnectionState,
    config: &Configuration,
    peer: Seq<char>,
    input: Seq<u8>,
)
    ensures
        transition(state, config, peer, input).result matches Ok(next) ==> match state {
            ConnectionState::AwaitHandshake => next is Status || next is Login,
            _ => next is Closed,
        },
        transition(state, config, peer, input).consumed <= input.len(),
{
    reveal(transition);
}

/// Nothing is written back unless the handshake asks for the status.
pub proof fn lemma_only_status_is_answered(
    config: &Configuration,
    peer: Seq<char>,
    input: Seq<u8>,
)
    requires
        handshake_step(peer, input).result != Ok::<ConnectionState, ProtocolError>(
            ConnectionState::Status,
        ),
    ensures
        session(config, peer, input).output == Seq::<u8>::empty(),
{
    reveal(transition);
}

/// A handshake whose next-state byte selects no state ends the connection:
/// the value is recorded as invalid, and nothing is written back.
pub proof fn lemma_unrecognized_intent_closes_silently(
    config: &Configuration,
    peer: Seq<char>,
    input: Seq<u8>,
    next_state: u8,
)
    requires
        data_frame(input) matches Ok(frame) && frame.packet.opcode == 0 && intent_of(
            frame.packet.payload->Raw_0,
        ) == Some(HandshakeIntent::Unrecognized(next_state)),
    ensures
        session(config, peer, input).output == Seq::<u8>::empty(),
        session(config, peer, input).events == seq![EventView::InvalidQuery { next_state }],
        session(config, peer, input).result == Err::<(), ProtocolError>(
            ProtocolError::UnexpectedState(next_state),
        ),
{
    reveal(transition);
}

/// In `Status`, once the request is answered, the packet of raw bytes that
/// follows is written back as it is: what is written after the status
/// response is a packet that reads back with the same opcode and payload.
pub proof fn lemma_ping_is_echoed(config: &Configuration, input: Seq<u8>)
    requires
        status_response(config).frame_len() <= usize::MAX,
        command_frame(input) matches Ok(request) && data_frame(input.skip(request.len as int))
            is Ok,
    ensures
        ({
            let request = command_frame(input)->Ok_0;
            let ping = data_frame(input.skip(request.len as int))->Ok_0;
            let step = status_step(config, input);
            &&& step.output == status_response(config).wire() + ping.packet.wire()
            &&& step.result == Ok::<ConnectionState, ProtocolError>(ConnectionState::Closed)
            &&& data_frame(ping.packet.wire()) == Ok::<Frame, ProtocolError>(
                Frame { packet: ping.packet, len: ping.packet.wire().len() },
            )
        }),
{
    let request = command_frame(input)->Ok_0;
    let sent = input.skip(request.len as int);
    let ping = data_frame(sent)->Ok_0;
    lemma_decoded_varint_is_short(sent);
    let declared = varint_decoding(sent)->Ok_0;
    assert(ping.packet.payload->Raw_0.len() == declared.value - 1);
    lemma_data_round_trip(ping.packet, Seq::empty());
    assert(ping.packet.wire() + Seq::<u8>::empty() =~= ping.packet.wire());
}

/// A login is recorded once and not answered: when the handshake asks for
/// `Login` and a packet of text follows, the connection records that text as
/// the name, with the peer, and writes nothing.
pub proof fn lemma_login_is_recorded(config: &Configuration, peer: Seq<char>, input: Seq<u8>)
    requires
        handshake_step(peer, input).result == Ok::<ConnectionState, ProtocolError>(
            ConnectionState::Login,
        ),
        string_frame(input.skip(handshake_step(peer, input).consumed as int)) is Ok,
    ensures
        ({
            let login = string_frame(input.skip(handshake_step(peer, input).consumed as int))->Ok_0;
            let whole = session(config, peer, input);
            &&& whole.events == seq![
                EventView::Login { name: login.packet.payload->Text_0, peer },
            ]
            &&& whole.output == Seq::<u8>::empty()
            &&& whole.result == Ok::<(), ProtocolError>(())
        }),
{
    reveal(transition);
}

/// Whether `long` carries on what `short` began: where `short` ran out of
/// bytes, `long` consumes, writes and records at least the same, in the same
/// order; where `short` ended otherwise, `long` is equal to it.
pub open spec fn step_extends(short: Step, long: Step) -> bool {
    if short.result == Err::<ConnectionState, ProtocolError>(ProtocolError::Truncated) {
        &&& short.consumed <= long.consumed
        &&& short.output.is_prefix_of(long.output)
        &&& short.events.is_prefix_of(long.events)
    } else {
        long == short
    }
}

/// Bytes that arrive later only carry a transition on: see `step_extends`.
pub proof fn lemma_more_input_extends_transition(
    state: ConnectionState,
    config: &Configuration,
    peer: Seq<char>,
    input: Seq<u8>,
    more: Seq<u8>,
)
    ensures
        step_extends(
            transition(state, config, peer, input),
            transition(state, config, peer, input + more),
        ),
{
    reveal(transition);
    let truncated = Err::<Frame, ProtocolError>(ProtocolError::Truncated);
    match state {
        ConnectionState::AwaitHandshake => {
            if data_frame(input) != truncated {
                lemma_data_frame_extends(input, more);
            }
        },
        ConnectionState::Status => {
            if command_frame(input) != truncated {
                lemma_command_frame_extends(input, more);
                if let Ok(request) = command_frame(input) {
                    let rest = input.skip(request.len as int);
                    assert((input + more).skip(request.len as int) =~= rest + more);
                    if data_frame(rest) != truncated {
                        lemma_data_frame_extends(rest, more);
                    }
                }
            }
        },
        ConnectionState::Login => {
            if string_frame(input) != truncated {
                lemma_string_frame_extends(input, more);
            }
        },
        ConnectionState::Closed => {},
    }
}

/// The exchange can be served as the bytes arrive. Where a connection ran out
/// of bytes, the same connection with more bytes behind them writes and
/// records at least the same, in the same order; where it ended in any other
/// way, more bytes change nothing.
pub proof fn lemma_more_input_extends_session(
    config: &Configuration,
    peer: Seq<char>,
    input: Seq<u8>,
    more: Seq<u8>,
)
    ensures
        ({
            let short = session(config, peer, input);
            let long = session(config, peer, input + more);
            if short.result == Err::<(), ProtocolError>(ProtocolError::Truncated) {
                &&& short.consumed <= long.consumed
                &&& short.output.is_prefix_of(long.output)
                &&& short.events.is_prefix_of(long.events)
            } else {
                long == short
            }
        }),
{
    let start = ConnectionState::AwaitHandshake;
    let first = transition(start, config, peer, input);
    lemma_more_input_extends_transition(start, config, peer, input, more);
    lemma_transitions_move_forward(start, config, peer, input);
    match first.result {
        Err(ProtocolError::Truncated) => {
            assert(first.output.len() == 0 && first.events.len() == 0 && first.consumed == 0) by {
                reveal(transition);
            }
        },
        Err(_) => {},
        Ok(next) => {
            let rest = input.skip(first.consumed as int);
            assert((input + more).skip(first.consumed as int) =~= rest + more);
            lemma_more_input_extends_transition(next, config, peer, rest, more);
            let second = transition(next, config, peer, rest);
            let second_long = transition(next, config, peer, rest + more);
            if second.result == Err::<ConnectionState, ProtocolError>(ProtocolError::Truncated) {
                assert((first.output + second.output).is_prefix_of(
                    first.output + second_long.output,
                )) by {
                    assert((first.output + second_long.output).subrange(
                        0,
                        (first.output + second.output).len() as int,
                    ) =~= first.output + second.output);
                }
                assert((first.events + second.events).is_prefix_of(
                    first.events + second_long.events,
                )) by {
                    assert((first.events + second_long.events).subrange(
                        0,
                        (first.events + second.events).len() as int,
                    ) =~= first.events + second.events);
                }
            }
        },
    }
}

/// Serves one connection from its handshake to its end: makes transitions
/// from `AwaitHandshake` until the connection is `Closed` or one fails.
///
/// `stream` holds all that the peer sends; what is written back is added to
/// it, and what happens is recorded in `sink`.
pub fn process_stream(
    config: &Configuration,
    peer: &str,
    stream: &mut ByteStream,
    sink: &mut EventSink,
) -> (r: Result<(), ProtocolError>)
    ensures
        r == session(config, peer@, old(stream).unread()).result,
        final(stream).unread() == old(stream).unread().skip(
            session(config, peer@, old(stream).unread()).consumed as int,
        ),
        final(stream).written() == old(stream).written() + session(
            config,
            peer@,
            old(stream).unread(),
        ).output,
        final(sink).log() == old(sink).log() + session(config, peer@, old(stream).unread()).events,
{
    let ghost input = stream.unread();
    let ghost written = stream.written();
    let ghost log = sink.log();
    let ghost first = transition(ConnectionState::AwaitHandshake, config, peer@, input);
    let ghost whole = session(config, peer@, input);
    let mut state = ConnectionState::AwaitHandshake;
    while state != ConnectionState::Closed
        invariant
            input == old(stream).unread(),
            written == old(stream).written(),
            log == old(sink).log(),
            first == transition(ConnectionState::AwaitHandshake, config, peer@, input),
            whole == session(config, peer@, input),
            state is AwaitHandshake ==> stream.unread() == input && stream.written() == written
                && sink.log() == log,
            state is Status || state is Login ==> first.result == Ok::<
                ConnectionState,
                ProtocolError,
            >(state) && stream.unread() == input.skip(first.consumed as int) && stream.written()
                == written + first.output && sink.log() == log + first.events,
            state is Closed ==> whole.result is Ok && stream.unread() == input.skip(
                whole.consumed as int,
            ) && stream.written() == written + whole.output && sink.log() == log + whole.events,
        decreases state.steps_left(),
    {
        let ghost before = state;
        let ghost unread = stream.unread();
        let ghost step = transition(state, config, peer@, unread);
        proof {
            lemma_transitions_move_forward(state, config, peer@, unread);
            lemma_transitions_move_forward(ConnectionState::AwaitHandshake, config, peer@, input);
        }
        match advance(state, config, peer, stream, sink) {
            Ok(next) => {
                state = next;
            },
            Err(e) => {
                proof {
                    if !(before is AwaitHandshake) {
                        assert(input.skip(first.consumed as int).skip(step.consumed as int)
                            =~= input.skip(whole.consumed as int));
                        assert(written + first.output + step.output =~= written + whole.output);
                        assert(log + first.events + step.events =~= log + whole.events);
                    }
                }
                return Err(e);
            },
        }
        proof {
            if !(before is AwaitHandshake) {
                assert(input.skip(first.consumed as int).skip(step.consumed as int) =~= input.skip(
                    whole.consumed as int,
                ));
                assert(written + first.output + step.output =~= written + whole.output);
                assert(log + first.events + step.events =~= log + whole.events);
            }
        }
    }
    Ok(())
}

} // verus!
