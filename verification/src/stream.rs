//! A connection's bytes held in memory, and the reads and writes of
//! variable-length integers and packets on them.

use vstd::prelude::*;
use vstd::slice::slice_subrange;
use vstd::slice::slice_to_vec;
use crate::error::ProtocolError;
use crate::packet::{command_frame, data_frame, string_frame, Packet, Payload};
use crate::varint::{
    lemma_continuation_run, lemma_varint_number_bound, lemma_varint_number_step, radix_power,
    varint_decoding, varint_number, ReadVarint, VarintPrefix, MAX_VARINT_BYTES,
};

verus! {

/// The bytes a peer sends, with a mark at the first one not yet consumed.
struct Received {
    bytes: Vec<u8>,
    cursor: usize,
}

impl Received {
    #[verifier::type_invariant]
    spec fn cursor_in_bounds(&self) -> bool {
        self.cursor <= self.bytes.len()
    }

    /// The bytes from the mark on.
    spec fn rest(&self) -> Seq<u8> {
        self.bytes@.skip(self.cursor as int)
    }

    /// How many bytes the rest has.
    fn left(&self) -> (n: usize)
        ensures
            n == self.rest().len(),
            self.cursor + n == self.bytes.len(),
    {
        proof {
            use_type_invariant(self);
        }
        self.bytes.len() - self.cursor
    }

    /// The byte `offset` bytes into the rest.
    fn peek(&self, offset: usize) -> (byte: u8)
        requires
            offset < self.rest().len(),
        ensures
            byte == self.rest()[offset as int],
    {
        proof {
            use_type_invariant(self);
        }
        self.bytes[self.cursor + offset]
    }

    /// A copy of `count` bytes of the rest, from `offset` on.
    fn copy(&self, offset: usize, count: usize) -> (bytes: Vec<u8>)
        requires
            offset + count <= self.rest().len(),
        ensures
            bytes@ == self.rest().subrange(offset as int, offset + count),
    {
        proof {
            use_type_invariant(self);
        }
        let from = self.cursor + offset;
        let bytes = slice_to_vec(slice_subrange(self.bytes.as_slice(), from, from + count));
        assert(bytes@ == self.rest().subrange(offset as int, offset + count));
        bytes
    }

    /// Decodes the variable-length integer that starts `offset` bytes into
    /// the rest, and says how many bytes it occupies.
    fn varint_at(&self, offset: usize) -> (r: Result<(usize, usize), ProtocolError>)
        requires
            offset <= self.rest().len(),
        ensures
            match varint_decoding(self.rest().skip(offset as int)) {
                Ok(found) => r == Ok::<(usize, usize), ProtocolError>(
                    (found.value as usize, found.len as usize),
                ) && found.value <= usize::MAX && offset + found.len <= self.rest().len(),
                Err(e) => r == Err::<(usize, usize), ProtocolError>(e),
            },
    {
        let ghost source = self.rest().skip(offset as int);
        let available = self.left() - offset;
        let mut value: u64 = 0;
        let mut index: usize = 0;
        while index < MAX_VARINT_BYTES
            invariant
                index <= MAX_VARINT_BYTES,
                index <= available,
                available == source.len(),
                source == self.rest().skip(offset as int),
                offset + available == self.rest().len(),
                self.rest().len() <= usize::MAX,
                forall|j: int| 0 <= j < index ==> source[j] >= 128,
                value == varint_number(source.take(index as int)),
                value < radix_power(index as nat),
            decreases MAX_VARINT_BYTES - index,
        {
            if index >= available {
                proof {
                    lemma_continuation_run(source, index as nat);
                }
                return Err(ProtocolError::Truncated);
            }
            let byte = self.peek(offset + index);
            let group: u64 = (byte & 0x7F) as u64;
            let shift: u64 = 7 * (index as u64);
            let ghost before = value;
            value = value | (group << shift);
            proof {
                reveal_with_fuel(radix_power, 6);
                lemma_varint_number_step(source, index as nat);
                lemma_varint_number_bound(source.take(index as int + 1));
                let scale = radix_power(index as nat) as u64;
                assert(group == byte % 128 && value == before + group * scale && (byte & 0x80
                    == 0 <==> byte < 128)) by (bit_vector)
                    requires
                        group == (byte & 0x7F) as u64,
                        value == before | (group << shift),
                        before < scale,
                        shift == 0 && scale == 1 || shift == 7 && scale == 128 || shift == 14
                            && scale == 16384 || shift == 21 && scale == 2097152 || shift == 28
                            && scale == 268435456,
                ;
            }
            if byte & 0x80 == 0 {
                proof {
                    lemma_continuation_run(source, index as nat);
                }
                if value > usize::MAX as u64 {
                    return Err(ProtocolError::Malformed);
                }
                return Ok((value as usize, index + 1));
            }
            index = index + 1;
        }
        proof {
            lemma_continuation_run(source, index as nat);
        }
        Err(ProtocolError::Malformed)
    }

    /// Moves the mark `count` bytes on.
    fn advance(&mut self, count: usize)
        requires
            count <= old(self).rest().len(),
        ensures
            final(self).rest() == old(self).rest().skip(count as int),
    {
        proof {
            use_type_invariant(&*self);
        }
        self.cursor = self.cursor + count;
        assert(self.rest() == old(self).rest().skip(count as int));
    }
}

/// One connection's bytes, held in memory: what the peer sends, in order and
/// up to the point where it closes its side, and what has been written back.
///
/// A read that fails consumes nothing.
pub struct ByteStream {
    incoming: Received,
    outgoing: Vec<u8>,
}

impl ByteStream {
    /// The received bytes that no read has consumed yet.
    pub closed spec fn unread(&self) -> Seq<u8> {
        self.incoming.rest()
    }

    /// The bytes written so far, oldest first.
    pub closed spec fn written(&self) -> Seq<u8> {
        self.outgoing@
    }

    /// A stream on which `incoming` is all that the peer sends.
    pub fn new(incoming: Vec<u8>) -> (stream: ByteStream)
        ensures
            stream.unread() == incoming@,
            stream.written() == Seq::<u8>::empty(),
    {
        ByteStream { incoming: Received { bytes: incoming, cursor: 0 }, outgoing: Vec::new() }
    }

    /// The bytes written so far.
    pub fn output(&self) -> (bytes: &Vec<u8>)
        ensures
            bytes@ == self.written(),
    {
        &self.outgoing
    }

    /// How many received bytes are still unread.
    pub fn remaining(&self) -> (n: usize)
        ensures
            n == self.unread().len(),
    {
        self.incoming.left()
    }

    /// Takes the next byte, or fails with `Truncated` when none is left.
    pub fn read_byte(&mut self) -> (r: Result<u8, ProtocolError>)
        ensures
            final(self).written() == old(self).written(),
            old(self).unread().len() > 0 ==> r == Ok::<u8, ProtocolError>(old(self).unread()[0])
                && final(self).unread() == old(self).unread().skip(1),
            old(self).unread().len() == 0 ==> r == Err::<u8, ProtocolError>(
                ProtocolError::Truncated,
            ) && final(self).unread() == old(self).unread(),
    {
        if self.incoming.left() > 0 {
            let byte = self.incoming.peek(0);
            self.incoming.advance(1);
            Ok(byte)
        } else {
            Err(ProtocolError::Truncated)
        }
    }

    /// Takes the next `count` bytes, or fails with `Truncated` when fewer are left.
    pub fn read_exact(&mut self, count: usize) -> (r: Result<Vec<u8>, ProtocolError>)
        ensures
            final(self).written() == old(self).written(),
            count <= old(self).unread().len() ==> (r matches Ok(bytes) && bytes@ == old(
                self
            ).unread().take(count as int)) && final(self).unread() == old(self).unread().skip(
                count as int,
            ),
            count > old(self).unread().len() ==> r == Err::<Vec<u8>, ProtocolError>(
                ProtocolError::Truncated,
            ) && final(self).unread() == old(self).unread(),
    {
        if count <= self.incoming.left() {
            let bytes = self.incoming.copy(0, count);
            self.incoming.advance(count);
            Ok(bytes)
        } else {
            Err(ProtocolError::Truncated)
        }
    }

    /// Appends `bytes` to what has been written.
    pub fn write(&mut self, bytes: &[u8])
        ensures
            final(self).written() == old(self).written() + bytes@,
            final(self).unread() == old(self).unread(),
    {
        self.outgoing.extend_from_slice(bytes);
    }

    /// Reads a packet without payload.
    ///
    /// The outcome is the one `command_frame` names for the unread bytes. On
    /// success the packet's bytes are consumed; on failure nothing is.
    pub fn read_packet_command(&mut self) -> (r: Result<Packet, ProtocolError>)
        ensures
            final(self).written() == old(self).written(),
            match command_frame(old(self).unread()) {
                Ok(frame) => {
                    &&& r matches Ok(packet) && packet@ == frame.packet
                    &&& final(self).unread() == old(self).unread().skip(frame.len as int)
                },
                Err(e) => {
                    &&& r matches Err(failure) && failure == e
                    &&& final(self).unread() == old(self).unread()
                },
            },
    {
        assert(self.unread().skip(0) == self.unread());
        let (size, used) = match self.incoming.varint_at(0) {
            Ok(found) => found,
            Err(e) => {
                return Err(e);
            },
        };
        if size == 1 {
            if self.incoming.left() <= used {
                return Err(ProtocolError::Truncated);
            }
            let command = self.incoming.peek(used);
            self.incoming.advance(used + 1);
            Ok(Packet { opcode: command, payload: Payload::Empty })
        } else {
            Err(ProtocolError::Malformed)
        }
    }

    /// Reads a packet of raw bytes.
    ///
    /// The outcome is the one `data_frame` names for the unread bytes. On
    /// success the packet's bytes are consumed; on failure nothing is.
    pub fn read_packet_data(&mut self) -> (r: Result<Packet, ProtocolError>)
        ensures
            final(self).written() == old(self).written(),
            match data_frame(old(self).unread()) {
                Ok(frame) => {
                    &&& r matches Ok(packet) && packet@ == frame.packet
                    &&& final(self).unread() == old(self).unread().skip(frame.len as int)
                },
                Err(e) => {
                    &&& r matches Err(failure) && failure == e
                    &&& final(self).unread() == old(self).unread()
                },
            },
    {
        assert(self.unread().skip(0) == self.unread());
        let (size, used) = match self.incoming.varint_at(0) {
            Ok(found) => found,
            Err(e) => {
                return Err(e);
            },
        };
        if size == 0 {
            return Err(ProtocolError::Malformed);
        }
        if size > self.incoming.left() - used {
            return Err(ProtocolError::Truncated);
        }
        let command = self.incoming.peek(used);
        let data = self.incoming.copy(used + 1, size - 1);
        self.incoming.advance(used + size);
        Ok(Packet { opcode: command, payload: Payload::Raw(data) })
    }

    /// Reads a packet of text.
    ///
    /// The outcome is the one `string_frame` names for the unread bytes. On
    /// success the packet's bytes are consumed; on failure nothing is.
    pub fn read_packet_string(&mut self) -> (r: Result<Packet, ProtocolError>)
        ensures
            final(self).written() == old(self).written(),
            match string_frame(old(self).unread()) {
                Ok(frame) => {
                    &&& r matches Ok(packet) && packet@ == frame.packet
                    &&& final(self).unread() == old(self).unread().skip(frame.len as int)
                },
                Err(e) => {
                    &&& r matches Err(failure) && failure == e
                    &&& final(self).unread() == old(self).unread()
                },
            },
    {
        broadcast use vstd::utf8::encode_utf8_decode_utf8;

        assert(self.unread().skip(0) == self.unread());
        let used = match self.incoming.varint_at(0) {
            Ok(found) => found.1,
            Err(e) => {
                return Err(e);
            },
        };
        let left = self.incoming.left();
        if left <= used {
            return Err(ProtocolError::Truncated);
        }
        let command = self.incoming.peek(used);
        let (string_size, counted) = match self.incoming.varint_at(used + 1) {
            Ok(found) => found,
            Err(e) => {
                return Err(e);
            },
        };
        let start = used + 1 + counted;
        if string_size > left - start {
            return Err(ProtocolError::Truncated);
        }
        let data = self.incoming.copy(start, string_size);
        match String::from_utf8(data) {
            Ok(text) => {
                self.incoming.advance(start + string_size);
                Ok(Packet { opcode: command, payload: Payload::Text(text) })
            },
            Err(_) => Err(ProtocolError::InvalidEncoding),
        }
    }

    /// Writes `packet` in its wire form, all of it or none.
    ///
    /// A packet whose declared length does not fit `usize` is `Malformed`.
    pub fn write_packet(&mut self, packet: Packet) -> (r: Result<(), ProtocolError>)
        ensures
            final(self).unread() == old(self).unread(),
            packet@.frame_len() <= usize::MAX ==> r is Ok && final(self).written() == old(
                self
            ).written() + packet@.wire(),
            packet@.frame_len() > usize::MAX ==> r == Err::<(), ProtocolError>(
                ProtocolError::Malformed,
            ) && final(self).written() == old(self).written(),
    {
        if !packet.fits() {
            return Err(ProtocolError::Malformed);
        }
        let bytes = packet.as_bytes();
        self.write(bytes.as_slice());
        Ok(())
    }
}

impl ReadVarint<ProtocolError> for ByteStream {
    open spec fn varint_source(&self) -> Seq<u8> {
        self.unread()
    }

    /// Reads one variable-length integer from the unread bytes. On failure the
    /// error is the one `varint_decoding` names and nothing is consumed.
    fn read_varint(&mut self) -> (r: Result<usize, ProtocolError>)
        ensures
            final(self).written() == old(self).written(),
            r matches Err(e) ==> varint_decoding(old(self).unread()) == Err::<
                VarintPrefix,
                ProtocolError,
            >(e) && final(self).unread() == old(self).unread(),
    {
        assert(self.unread().skip(0) == self.unread());
        match self.incoming.varint_at(0) {
            Ok((value, used)) => {
                self.incoming.advance(used);
                Ok(value)
            },
            Err(e) => Err(e),
        }
    }
}

} // verus!
