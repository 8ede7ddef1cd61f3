//! Packets and their wire form: a length prefix, an opcode and a payload
//! that is empty, raw bytes or text.

use vstd::prelude::*;
use vstd::utf8::{decode_utf8, encode_utf8, valid_utf8};
use crate::error::ProtocolError;
use crate::varint::{
    lemma_varint_decoding_extends, lemma_varint_encoding_is_minimal, lemma_varint_len_grows,
    lemma_varint_round_trip, varint_decoding, varint_encoding, varint_len, ToVarint,
    VarintPrefix, MAX_VARINT_BYTES,
};

verus! {

/// What a packet carries after its opcode.
#[derive(Clone, Debug, PartialEq, Eq)]
pub enum Payload {
    /// Nothing: the packet is its opcode alone.
    Empty,
    /// Bytes that are carried as they are.
    Raw(Vec<u8>),
    /// Text, carried as UTF-8 behind its own length.
    Text(String),
}

/// One unit of the protocol: an opcode and a payload.
#[derive(Clone, Debug, PartialEq, Eq)]
pub struct Packet {
    pub opcode: u8,
    pub payload: Payload,
}

/// A payload as a mathematical value.
pub enum PayloadView {
    Empty,
    Raw(Seq<u8>),
    Text(Seq<char>),
}

/// A packet as a mathematical value.
pub struct PacketView {
    pub opcode: u8,
    pub payload: PayloadView,
}

impl View for Payload {
    type V = PayloadView;

    open spec fn view(&self) -> PayloadView {
        match self {
            Payload::Empty => PayloadView::Empty,
            Payload::Raw(bytes) => PayloadView::Raw(bytes@),
            Payload::Text(text) => PayloadView::Text(text@),
        }
    }
}

impl View for Packet {
    type V = PacketView;

    open spec fn view(&self) -> PacketView {
        PacketView { opcode: self.opcode, payload: self.payload@ }
    }
}

impl PayloadView {
    /// The payload as it stands on the wire. Text is its UTF-8 bytes behind
    /// their count, the count written as a variable-length integer.
    pub open spec fn wire(self) -> Seq<u8> {
        match self {
            PayloadView::Empty => Seq::empty(),
            PayloadView::Raw(bytes) => bytes,
            PayloadView::Text(text) => varint_encoding(encode_utf8(text).len()) + encode_utf8(
                text,
            ),
        }
    }
}

impl PacketView {
    /// The length that the packet's prefix declares: one for the opcode plus
    /// the payload as it stands on the wire.
    pub open spec fn frame_len(self) -> nat {
        1 + self.payload.wire().len()
    }

    /// The packet as it stands on the wire: the declared length as a
    /// variable-length integer, the opcode, the payload.
    pub open spec fn wire(self) -> Seq<u8> {
        varint_encoding(self.frame_len()) + seq![self.opcode] + self.payload.wire()
    }
}

/// A packet found at the head of a byte sequence.
pub struct Frame {
    /// The packet.
    pub packet: PacketView,
    /// How many bytes it occupies, its length prefix included.
    pub len: nat,
}

/// What reading a packet without payload from the head of `s` gives: the
/// declared length must be exactly `1`, and the opcode must be there.
pub open spec fn command_frame(s: Seq<u8>) -> Result<Frame, ProtocolError> {
    match varint_decoding(s) {
        Err(e) => Err(e),
        Ok(declared) => if declared.value != 1 {
            Err(ProtocolError::Malformed)
        } else if s.len() <= declared.len {
            Err(ProtocolError::Truncated)
        } else {
            Ok(
                Frame {
                    packet: PacketView {
                        opcode: s[declared.len as int],
                        payload: PayloadView::Empty,
                    },
                    len: declared.len + 1,
                },
            )
        },
    }
}

/// What reading a packet of raw bytes from the head of `s` gives: a declared
/// length of `0` is `Malformed`; otherwise the opcode and one byte fewer than
/// declared must be there.
pub open spec fn data_frame(s: Seq<u8>) -> Result<Frame, ProtocolError> {
    match varint_decoding(s) {
        Err(e) => Err(e),
        Ok(declared) => if declared.value == 0 {
            Err(ProtocolError::Malformed)
        } else if s.len() < declared.len + declared.value {
            Err(ProtocolError::Truncated)
        } else {
            Ok(
                Frame {
                    packet: PacketView {
                        opcode: s[declared.len as int],
                        payload: PayloadView::Raw(
                            s.subrange(
                                declared.len as int + 1,
                                declared.len as int + declared.value as int,
                            ),
                        ),
                    },
                    len: declared.len + declared.value,
                },
            )
        },
    }
}

/// What reading a packet of text from the head of `s` gives: the declared
/// length is read and not held against the rest; after the opcode comes the
/// text's own length, then that many bytes, which must be valid UTF-8.
pub open spec fn string_frame(s: Seq<u8>) -> Result<Frame, ProtocolError> {
    match varint_decoding(s) {
        Err(e) => Err(e),
        Ok(declared) => if s.len() <= declared.len {
            Err(ProtocolError::Truncated)
        } else {
            match varint_decoding(s.skip(declared.len as int + 1)) {
                Err(e) => Err(e),
                Ok(counted) => {
                    let start = declared.len as int + 1 + counted.len as int;
                    let text = s.subrange(start, start + counted.value as int);
                    if s.len() < start + counted.value {
                        Err(ProtocolError::Truncated)
                    } else if !valid_utf8(text) {
                        Err(ProtocolError::InvalidEncoding)
                    } else {
                        Ok(
                            Frame {
                                packet: PacketView {
                                    opcode: s[declared.len as int],
                                    payload: PayloadView::Text(decode_utf8(text)),
                                },
                                len: (start + counted.value) as nat,
                            },
                        )
                    }
                },
            }
        },
    }
}

impl PacketView {
    /// Whether a reader accepts the packet's length prefix: the declared
    /// length fits `usize` and its encoding is no longer than a reader takes.
    pub open spec fn readable(self) -> bool {
        self.frame_len() <= usize::MAX && varint_len(self.frame_len()) <= MAX_VARINT_BYTES
    }
}

/// A packet without payload that was written is read back as it was,
/// whatever follows it.
pub proof fn lemma_command_round_trip(packet: PacketView, rest: Seq<u8>)
    requires
        packet.payload is Empty,
    ensures
        command_frame(packet.wire() + rest) == Ok::<Frame, ProtocolError>(
            Frame { packet, len: packet.wire().len() },
        ),
{
    let wire = packet.wire();
    let prefix = varint_encoding(1);
    reveal_with_fuel(varint_len, 2);
    lemma_varint_encoding_is_minimal(1);
    lemma_varint_round_trip(1, seq![packet.opcode] + rest);
    assert(wire + rest =~= prefix + (seq![packet.opcode] + rest));
}

/// A packet of raw bytes that was written is read back as it was, whatever
/// follows it, provided a reader accepts its length prefix.
pub proof fn lemma_data_round_trip(packet: PacketView, rest: Seq<u8>)
    requires
        packet.payload is Raw,
        packet.readable(),
    ensures
        data_frame(packet.wire() + rest) == Ok::<Frame, ProtocolError>(
            Frame { packet, len: packet.wire().len() },
        ),
{
    let wire = packet.wire();
    let declared = packet.frame_len();
    let prefix = varint_encoding(declared);
    let body = packet.payload->Raw_0;
    lemma_varint_encoding_is_minimal(declared);
    lemma_varint_round_trip(declared, seq![packet.opcode] + body + rest);
    assert(wire + rest =~= prefix + (seq![packet.opcode] + body + rest));
    let from = prefix.len() as int + 1;
    let to = prefix.len() as int + declared as int;
    assert((wire + rest).subrange(from, to) =~= body);
}

/// A packet of text that was written is read back as it was, whatever
/// follows it, provided a reader accepts its length prefix.
pub proof fn lemma_string_round_trip(packet: PacketView, rest: Seq<u8>)
    requires
        packet.payload is Text,
        packet.readable(),
    ensures
        string_frame(packet.wire() + rest) == Ok::<Frame, ProtocolError>(
            Frame { packet, len: packet.wire().len() },
        ),
{
    let wire = packet.wire();
    let whole = wire + rest;
    let declared = packet.frame_len();
    let prefix = varint_encoding(declared);
    let text = packet.payload->Text_0;
    let encoded = encode_utf8(text);
    let counted = varint_encoding(encoded.len());
    let start = prefix.len() as int + 1 + counted.len() as int;
    lemma_varint_encoding_is_minimal(declared);
    lemma_varint_encoding_is_minimal(encoded.len());
    lemma_varint_len_grows(encoded.len(), declared);
    assert(varint_decoding(whole) == Ok::<VarintPrefix, ProtocolError>(
        VarintPrefix { value: declared, len: prefix.len() },
    )) by {
        lemma_varint_round_trip(declared, seq![packet.opcode] + counted + encoded + rest);
        assert(whole =~= prefix + (seq![packet.opcode] + counted + encoded + rest));
    }
    assert(varint_decoding(whole.skip(prefix.len() as int + 1)) == Ok::<
        VarintPrefix,
        ProtocolError,
    >(VarintPrefix { value: encoded.len(), len: counted.len() })) by {
        lemma_varint_round_trip(encoded.len(), encoded + rest);
        assert(whole.skip(prefix.len() as int + 1) =~= counted + (encoded + rest));
    }
    assert(whole.subrange(start, start + encoded.len()) =~= encoded);
    assert(whole[prefix.len() as int] == packet.opcode);
    assert(whole.len() >= start + encoded.len());
    assert(wire.len() == start + encoded.len());
    vstd::utf8::encode_utf8_valid_utf8(text);
    vstd::utf8::encode_utf8_decode_utf8(text);
}

/// Bytes that arrive later do not change a packet without payload that was
/// read, nor its rejection, unless the bytes had run out.
pub proof fn lemma_command_frame_extends(s: Seq<u8>, more: Seq<u8>)
    requires
        command_frame(s) != Err::<Frame, ProtocolError>(ProtocolError::Truncated),
    ensures
        command_frame(s + more) == command_frame(s),
        command_frame(s) matches Ok(frame) ==> frame.len <= s.len(),
{
    lemma_varint_decoding_extends(s, more);
}

/// Bytes that arrive later do not change a packet of raw bytes that was
/// read, nor its rejection, unless the bytes had run out.
pub proof fn lemma_data_frame_extends(s: Seq<u8>, more: Seq<u8>)
    requires
        data_frame(s) != Err::<Frame, ProtocolError>(ProtocolError::Truncated),
    ensures
        data_frame(s + more) == data_frame(s),
        data_frame(s) matches Ok(frame) ==> frame.len <= s.len(),
{
    lemma_varint_decoding_extends(s, more);
    if let Ok(declared) = varint_decoding(s) {
        if declared.value != 0 {
            let from = declared.len as int + 1;
            let to = declared.len as int + declared.value as int;
            assert((s + more).subrange(from, to) =~= s.subrange(from, to));
        }
    }
}

/// Bytes that arrive later do not change a packet of text that was read, nor
/// its rejection, unless the bytes had run out.
pub proof fn lemma_string_frame_extends(s: Seq<u8>, more: Seq<u8>)
    requires
        string_frame(s) != Err::<Frame, ProtocolError>(ProtocolError::Truncated),
    ensures
        string_frame(s + more) == string_frame(s),
        string_frame(s) matches Ok(frame) ==> frame.len <= s.len(),
{
    lemma_varint_decoding_extends(s, more);
    if let Ok(declared) = varint_decoding(s) {
        let inner = s.skip(declared.len as int + 1);
        assert((s + more).skip(declared.len as int + 1) =~= inner + more);
        lemma_varint_decoding_extends(inner, more);
        if let Ok(counted) = varint_decoding(inner) {
            let start = declared.len as int + 1 + counted.len as int;
            let end = start + counted.value as int;
            assert((s + more).subrange(start, end) =~= s.subrange(start, end));
        }
    }
}

/// A packet of raw bytes that declares the length `0` is rejected as
/// `Malformed`, whatever follows the length.
pub proof fn lemma_zero_length_data_is_malformed(s: Seq<u8>)
    requires
        varint_decoding(s) matches Ok(declared) && declared.value == 0,
    ensures
        data_frame(s) == Err::<Frame, ProtocolError>(ProtocolError::Malformed),
{
}

/// A packet of text whose text is not valid UTF-8 is rejected as
/// `InvalidEncoding`, whatever length its prefix declares, whatever its
/// opcode is and whatever follows it.
pub proof fn lemma_invalid_text_is_rejected(
    declared: nat,
    opcode: u8,
    text: Seq<u8>,
    rest: Seq<u8>,
)
    requires
        !valid_utf8(text),
        declared <= usize::MAX && varint_len(declared) <= MAX_VARINT_BYTES,
        text.len() <= usize::MAX && varint_len(text.len()) <= MAX_VARINT_BYTES,
    ensures
        string_frame(
            varint_encoding(declared) + seq![opcode] + varint_encoding(text.len()) + text + rest,
        ) == Err::<Frame, ProtocolError>(ProtocolError::InvalidEncoding),
{
    let prefix = varint_encoding(declared);
    let counted = varint_encoding(text.len());
    let whole = prefix + seq![opcode] + counted + text + rest;
    let start = prefix.len() as int + 1 + counted.len() as int;
    lemma_varint_encoding_is_minimal(declared);
    lemma_varint_encoding_is_minimal(text.len());
    assert(varint_decoding(whole) == Ok::<VarintPrefix, ProtocolError>(
        VarintPrefix { value: declared, len: prefix.len() },
    )) by {
        lemma_varint_round_trip(declared, seq![opcode] + counted + text + rest);
        assert(whole =~= prefix + (seq![opcode] + counted + text + rest));
    }
    assert(varint_decoding(whole.skip(prefix.len() as int + 1)) == Ok::<
        VarintPrefix,
        ProtocolError,
    >(VarintPrefix { value: text.len(), len: counted.len() })) by {
        lemma_varint_round_trip(text.len(), text + rest);
        assert(whole.skip(prefix.len() as int + 1) =~= counted + (text + rest));
    }
    assert(whole.subrange(start, start + text.len()) =~= text);
}

impl Packet {
    /// Whether the packet's declared length fits the platform's `usize`, which
    /// is what `len` and `as_bytes` need.
    pub fn fits(&self) -> (b: bool)
        ensures
            b == (self@.frame_len() <= usize::MAX),
    {
        match &self.payload {
            Payload::Empty => true,
            Payload::Raw(data) => data.len() < usize::MAX,
            Payload::Text(text) => {
                let count = text.as_str().as_bytes().len();
                let prefix = count.to_varint();
                count < usize::MAX && prefix.len() <= usize::MAX - 1 - count
            },
        }
    }

    /// The length that the packet's prefix declares.
    pub fn len(&self) -> (n: usize)
        requires
            self@.frame_len() <= usize::MAX,
        ensures
            n == self@.frame_len(),
    {
        match &self.payload {
            Payload::Empty => 1,
            Payload::Raw(data) => 1 + data.len(),
            Payload::Text(text) => {
                let len = text.as_str().as_bytes().len();
                1 + len + len.to_varint().len()
            },
        }
    }

    /// The packet as it stands on the wire.
    pub fn as_bytes(&self) -> (bytes: Vec<u8>)
        requires
            self@.frame_len() <= usize::MAX,
        ensures
            bytes@ == self@.wire(),
    {
        let mut response: Vec<u8> = Vec::new();
        let prefix = self.len().to_varint();
        response.extend_from_slice(prefix.as_slice());
        response.push(self.opcode);
        match &self.payload {
            Payload::Empty => {},
            Payload::Raw(data) => {
                response.extend_from_slice(data.as_slice());
            },
            Payload::Text(text) => {
                let encoded = text.as_str().as_bytes();
                let counted = encoded.len().to_varint();
                response.extend_from_slice(counted.as_slice());
                response.extend_from_slice(encoded);
            },
        }
        response
    }
}

} // verus!
