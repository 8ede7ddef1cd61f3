//! Variable-length integers: seven bits to a byte, least significant group
//! first, the high bit of a byte saying that another byte follows.

use vstd::prelude::*;
use crate::error::ProtocolError;

verus! {

/// The most bytes a variable-length integer may occupy when it is read.
pub const MAX_VARINT_BYTES: usize = 5;

/// The wire form of `n`: seven bits per byte, least significant group first,
/// with the high bit set on every byte but the last.
pub open spec fn varint_encoding(n: nat) -> Seq<u8>
    decreases n,
{
    if n < 128 {
        seq![n as u8]
    } else {
        seq![(n % 128 + 128) as u8] + varint_encoding(n / 128)
    }
}

/// How many bytes `varint_encoding(n)` has: one per started group of seven bits.
pub open spec fn varint_len(n: nat) -> nat
    decreases n,
{
    if n < 128 {
        1
    } else {
        1 + varint_len(n / 128)
    }
}

/// `128` to the power `k`.
pub open spec fn radix_power(k: nat) -> nat
    decreases k,
{
    if k == 0 {
        1
    } else {
        128 * radix_power((k - 1) as nat)
    }
}

/// The number of bytes at the head of `s` that have their high bit set.
pub open spec fn continuation_run(s: Seq<u8>) -> nat
    decreases s.len(),
{
    if s.len() > 0 && s[0] >= 128 {
        1 + continuation_run(s.drop_first())
    } else {
        0
    }
}

/// The number spelled by the low seven bits of each byte of `s`, the first
/// byte being the least significant group.
pub open spec fn varint_number(s: Seq<u8>) -> nat
    decreases s.len(),
{
    if s.len() == 0 {
        0
    } else {
        (s[0] % 128) as nat + 128 * varint_number(s.drop_first())
    }
}

/// A variable-length integer found at the head of a byte sequence.
pub struct VarintPrefix {
    /// The number it spells.
    pub value: nat,
    /// How many bytes it occupies.
    pub len: nat,
}

/// What reading one variable-length integer from the head of `s` gives.
///
/// Bytes are taken while their high bit is set. Five such bytes in a row are
/// `Malformed`; running out of bytes before a byte with a clear high bit is
/// `Truncated`. A number that the platform's `usize` cannot hold is `Malformed`.
pub open spec fn varint_decoding(s: Seq<u8>) -> Result<VarintPrefix, ProtocolError> {
    let run = continuation_run(s);
    if run >= MAX_VARINT_BYTES {
        Err(ProtocolError::Malformed)
    } else if run >= s.len() {
        Err(ProtocolError::Truncated)
    } else {
        let value = varint_number(s.take(run as int + 1));
        if value > usize::MAX {
            Err(ProtocolError::Malformed)
        } else {
            Ok(VarintPrefix { value, len: run + 1 })
        }
    }
}

/// Numbers that can be written as variable-length integers.
pub trait ToVarint {
    /// The number that `self` stands for.
    spec fn varint_value(&self) -> nat;

    /// Encodes `self` in the wire form.
    fn to_varint(&self) -> (bytes: Vec<u8>)
        ensures
            bytes@ == varint_encoding(self.varint_value()),
    ;
}

/// Sources of bytes from which a variable-length integer can be read.
pub trait ReadVarint<T> {
    /// The bytes that have not been consumed yet.
    spec fn varint_source(&self) -> Seq<u8>;

    /// Reads one variable-length integer and consumes its bytes.
    ///
    /// It succeeds exactly when `varint_decoding` of the unread bytes does,
    /// and then returns that number and leaves what follows it unread.
    fn read_varint(&mut self) -> (r: Result<usize, T>)
        ensures
            r is Ok <==> varint_decoding(old(self).varint_source()) is Ok,
            r matches Ok(v) ==> {
                let found = varint_decoding(old(self).varint_source())->Ok_0;
                &&& v == found.value
                &&& final(self).varint_source() == old(self).varint_source().skip(found.len as int)
            },
    ;
}

/// While the first `count` bytes of `s` all have their high bit set, the run
/// of such bytes is at least that long, and it ends where a byte without the
/// bit, or the end of `s`, follows them.
pub(crate) proof fn lemma_continuation_run(s: Seq<u8>, count: nat)
    requires
        count <= s.len(),
        forall|j: int| 0 <= j < count ==> s[j] >= 128,
    ensures
        continuation_run(s) >= count,
        count == s.len() || s[count as int] < 128 ==> continuation_run(s) == count,
    decreases count,
{
    if count > 0 {
        let tail = s.drop_first();
        assert forall|j: int| 0 <= j < count - 1 implies tail[j] >= 128 by {
            assert(tail[j] == s[j + 1]);
        }
        lemma_continuation_run(tail, (count - 1) as nat);
        if count < s.len() {
            assert(tail[count - 1] == s[count as int]);
        }
    }
}

/// A number spelled by `s.len()` groups of seven bits is below `128` to that power.
pub(crate) proof fn lemma_varint_number_bound(s: Seq<u8>)
    ensures
        varint_number(s) < radix_power(s.len()),
    decreases s.len(),
{
    if s.len() > 0 {
        lemma_varint_number_bound(s.drop_first());
    }
}

/// Taking one more byte adds its low seven bits, scaled by the place it stands at.
pub(crate) proof fn lemma_varint_number_step(s: Seq<u8>, count: nat)
    requires
        count < s.len(),
    ensures
        varint_number(s.take(count as int + 1)) == varint_number(s.take(count as int))
            + (s[count as int] % 128) * radix_power(count),
    decreases count,
{
    let longer = s.take(count as int + 1);
    let shorter = s.take(count as int);
    assert(longer[0] == s[0]);
    if count == 0 {
        assert(longer.drop_first() =~= Seq::<u8>::empty());
        assert(shorter =~= Seq::<u8>::empty());
        assert(radix_power(0) == 1);
        assert(varint_number(longer) == (s[0] % 128) as nat + 128 * varint_number(
            longer.drop_first(),
        ));
    } else {
        let tail = s.drop_first();
        lemma_varint_number_step(tail, (count - 1) as nat);
        assert(longer.drop_first() =~= tail.take(count as int));
        assert(shorter.drop_first() =~= tail.take(count as int - 1));
        assert(shorter[0] == s[0]);
        assert(tail[count as int - 1] == s[count as int]);
        let low = (s[count as int] % 128) as int;
        let below = radix_power((count - 1) as nat) as int;
        assert(radix_power(count) == 128 * below);
        assert(128 * (low * below) == low * (128 * below)) by (nonlinear_arith);
        assert(varint_number(longer) == (s[0] % 128) as nat + 128 * varint_number(
            tail.take(count as int),
        ));
        assert(varint_number(shorter) == (s[0] % 128) as nat + 128 * varint_number(
            tail.take(count as int - 1),
        ));
    }
}

/// The encoding is as short as it can be. It has `varint_len(n)` bytes, that
/// many groups of seven bits hold `n`, and one group fewer would not, unless
/// `n` fits a single byte anyway.
pub proof fn lemma_varint_encoding_is_minimal(n: nat)
    ensures
        varint_encoding(n).len() == varint_len(n),
        n < radix_power(varint_len(n)),
        varint_len(n) > 1 ==> n >= radix_power((varint_len(n) - 1) as nat),
    decreases n,
{
    if n >= 128 {
        lemma_varint_encoding_is_minimal(n / 128);
        assert(radix_power(1) == 128) by {
            reveal_with_fuel(radix_power, 2);
        }
    } else {
        assert(radix_power(1) == 128) by {
            reveal_with_fuel(radix_power, 2);
        }
    }
}

/// In an encoding every byte but the last has its high bit set, the last has
/// not, and the low seven bits of its bytes spell the number.
pub proof fn lemma_varint_encoding_shape(n: nat)
    ensures
        forall|j: int| 0 <= j < varint_len(n) - 1 ==> varint_encoding(n)[j] >= 128,
        varint_encoding(n)[varint_len(n) - 1] < 128,
        varint_number(varint_encoding(n)) == n,
    decreases n,
{
    lemma_varint_encoding_is_minimal(n);
    let encoded = varint_encoding(n);
    if n >= 128 {
        let tail = varint_encoding(n / 128);
        lemma_varint_encoding_shape(n / 128);
        lemma_varint_encoding_is_minimal(n / 128);
        assert(encoded.drop_first() =~= tail);
        assert forall|j: int| 0 <= j < varint_len(n) - 1 implies encoded[j] >= 128 by {
            if j > 0 {
                assert(encoded[j] == tail[j - 1]);
            }
        }
        assert(encoded[varint_len(n) - 1] == tail[varint_len(n / 128) - 1]);
        assert(encoded[0] == (n % 128 + 128) as u8);
        assert(encoded[0] % 128 == n % 128);
        assert(varint_number(encoded) == (encoded[0] % 128) as nat + 128 * varint_number(tail));
    } else {
        assert(encoded.drop_first() =~= Seq::<u8>::empty());
        assert(encoded[0] == n as u8);
        assert(varint_number(encoded) == (encoded[0] % 128) as nat + 128 * varint_number(
            encoded.drop_first(),
        ));
    }
}

/// Decoding undoes encoding, whatever follows the encoded number: every `n`
/// that `usize` holds and that five bytes can carry is read back as `n`, and
/// exactly its encoding is consumed.
pub proof fn lemma_varint_round_trip(n: nat, rest: Seq<u8>)
    requires
        n <= usize::MAX,
        varint_len(n) <= MAX_VARINT_BYTES,
    ensures
        varint_decoding(varint_encoding(n) + rest) == Ok::<VarintPrefix, ProtocolError>(
            VarintPrefix { value: n, len: varint_len(n) },
        ),
{
    let encoded = varint_encoding(n);
    let whole = encoded + rest;
    let last = (varint_len(n) - 1) as nat;
    lemma_varint_encoding_is_minimal(n);
    lemma_varint_encoding_shape(n);
    assert forall|j: int| 0 <= j < last implies whole[j] >= 128 by {
        assert(whole[j] == encoded[j]);
    }
    assert(whole[last as int] == encoded[last as int]);
    lemma_continuation_run(whole, last);
    assert(whole.take(last as int + 1) =~= encoded);
}

/// A number read from at most five bytes is written in at most five bytes.
pub(crate) proof fn lemma_decoded_varint_is_short(s: Seq<u8>)
    requires
        varint_decoding(s) is Ok,
    ensures
        varint_len(varint_decoding(s)->Ok_0.value) <= MAX_VARINT_BYTES,
{
    let found = varint_decoding(s)->Ok_0;
    lemma_varint_number_bound(s.take(found.len as int));
    lemma_varint_encoding_is_minimal(found.value);
    lemma_radix_power_grows(MAX_VARINT_BYTES as nat, (varint_len(found.value) - 1) as nat);
    lemma_radix_power_grows(found.len, MAX_VARINT_BYTES as nat);
}

/// A larger number does not have a shorter encoding.
pub(crate) proof fn lemma_varint_len_grows(low: nat, high: nat)
    ensures
        low <= high ==> varint_len(low) <= varint_len(high),
    decreases high,
{
    if low <= high && high >= 128 {
        if low >= 128 {
            lemma_varint_len_grows(low / 128, high / 128);
        }
    }
}

/// `128` to a larger power is not smaller.
pub(crate) proof fn lemma_radix_power_grows(low: nat, high: nat)
    ensures
        low <= high ==> radix_power(low) <= radix_power(high),
    decreases high,
{
    if low < high {
        lemma_radix_power_grows(low, (high - 1) as nat);
    }
}

/// The run of bytes with their high bit set lies within `s`, is made of such
/// bytes, and is followed by a byte without the bit or by the end of `s`.
pub(crate) proof fn lemma_continuation_run_bytes(s: Seq<u8>)
    ensures
        continuation_run(s) <= s.len(),
        forall|j: int| 0 <= j < continuation_run(s) ==> s[j] >= 128,
        continuation_run(s) < s.len() ==> s[continuation_run(s) as int] < 128,
    decreases s.len(),
{
    if s.len() > 0 && s[0] >= 128 {
        let tail = s.drop_first();
        lemma_continuation_run_bytes(tail);
        assert forall|j: int| 0 <= j < continuation_run(s) implies s[j] >= 128 by {
            if j > 0 {
                assert(s[j] == tail[j - 1]);
            }
        }
        if continuation_run(s) < s.len() {
            assert(s[continuation_run(s) as int] == tail[continuation_run(tail) as int]);
        }
    }
}

/// Bytes that arrive later do not change what was read: unless reading from
/// `s` ran out of bytes, reading from `s` with `more` behind it gives the same.
pub proof fn lemma_varint_decoding_extends(s: Seq<u8>, more: Seq<u8>)
    requires
        varint_decoding(s) != Err::<VarintPrefix, ProtocolError>(ProtocolError::Truncated),
    ensures
        varint_decoding(s + more) == varint_decoding(s),
        varint_decoding(s) matches Ok(found) ==> found.len <= s.len(),
{
    let run = continuation_run(s);
    let longer = s + more;
    lemma_continuation_run_bytes(s);
    if run >= MAX_VARINT_BYTES {
        assert forall|j: int| 0 <= j < MAX_VARINT_BYTES implies longer[j] >= 128 by {
            assert(longer[j] == s[j]);
        }
        lemma_continuation_run(longer, MAX_VARINT_BYTES as nat);
    } else {
        assert forall|j: int| 0 <= j < run implies longer[j] >= 128 by {
            assert(longer[j] == s[j]);
        }
        assert(longer[run as int] == s[run as int]);
        lemma_continuation_run(longer, run);
        assert(longer.take(run as int + 1) =~= s.take(run as int + 1));
    }
}

impl ToVarint for usize {
    open spec fn varint_value(&self) -> nat {
        *self as nat
    }

    fn to_varint(&self) -> (bytes: Vec<u8>) {
        let mut remaining: usize = *self;
        let mut result: Vec<u8> = Vec::new();
        loop
            invariant_except_break
                result@ + varint_encoding(remaining as nat) == varint_encoding(*self as nat),
            ensures
                result@ == varint_encoding(*self as nat),
            decreases remaining,
        {
            let ghost before = remaining;
            let ghost written = result@;
            let part: u8 = (remaining & 0x7F) as u8;
            remaining = remaining >> 7;
            proof {
                assert(part == before % 128 && remaining == before / 128 && part < 128)
                    by (bit_vector)
                    requires
                        part == (before & 0x7F) as u8,
                        remaining == before >> 7usize,
                ;
            }
            if remaining == 0 {
                result.push(part);
                proof {
                    assert(varint_encoding(before as nat) == seq![part]);
                    assert(result@ == written + seq![part]);
                }
                break ;
            } else {
                let marked: u8 = part | 0x80;
                result.push(marked);
                proof {
                    assert(marked == part + 128) by (bit_vector)
                        requires
                            marked == part | 0x80,
                            part < 128,
                    ;
                    assert(varint_encoding(before as nat) == seq![marked] + varint_encoding(
                        remaining as nat,
                    ));
                    assert(result@ + varint_encoding(remaining as nat) == written
                        + varint_encoding(before as nat));
                }
            }
        }
        result
    }
}

} // verus!
