//! The wire frame: building it, checking it, taking it apart.
//!
//! A frame is the start delimiter `$`, the slot symbol, the payload, the end
//! delimiter `#` and a checksum field of two upper-case hexadecimal digits.
//! The checksum covers the slot symbol and the payload: their bytes are summed
//! modulo 256 and the sum is complemented.

use vstd::prelude::*;
use vstd::slice::slice_subrange;
use vstd::slice::slice_to_vec;
use crate::slot::is_slot_symbol;
use crate::slot::SeqChar;
use crate::slot::FIRST_SYMBOL;

verus! {

/// The byte that opens a frame, `$`.
pub const START_DELIMITER: u8 = 0x24;

/// The byte that closes the checked span of a frame, `#`.
pub const END_DELIMITER: u8 = 0x23;

/// Length of the shortest frame: both delimiters, the slot symbol and the
/// checksum field, around an empty payload.
pub const MIN_FRAME_LEN: usize = 5;

/// Why a frame was not decoded.
#[derive(Clone, Copy, Debug, PartialEq, Eq, Structural)]
pub enum DecodeError {
    /// The frame is too short or a delimiter is not in its place.
    Malformed,
    /// The checksum field differs from the checksum of the checked span.
    ChecksumMismatch,
    /// The symbol after the start delimiter names no slot.
    UnknownSlot,
}

/// Sum of the bytes of `span`, as an unbounded integer.
pub open spec fn byte_sum(span: Seq<u8>) -> int
    decreases span.len(),
{
    if span.len() == 0 {
        0
    } else {
        byte_sum(span.drop_last()) + span.last()
    }
}

/// The checksum of `span`: the complement of its byte sum modulo 256.
pub open spec fn checksum_value(span: Seq<u8>) -> int {
    255 - byte_sum(span) % 256
}

/// The upper-case hexadecimal digit for `n`; meaningful for `0 <= n < 16`.
pub open spec fn hex_digit(n: int) -> u8 {
    if n < 10 {
        (0x30 + n) as u8
    } else {
        (0x41 + (n - 10)) as u8
    }
}

/// The two digits that render the checksum `value`, high digit first.
pub open spec fn hex_pair(value: int) -> Seq<u8> {
    seq![hex_digit(value / 16), hex_digit(value % 16)]
}

/// The checksum field that belongs to `span`.
pub open spec fn checksum_field(span: Seq<u8>) -> Seq<u8> {
    hex_pair(checksum_value(span))
}

/// The span that the checksum covers: the slot symbol followed by the
/// payload.
pub open spec fn checked_span(id: SeqChar, payload: Seq<u8>) -> Seq<u8> {
    seq![id.symbol() as u8] + payload
}

/// The frame that carries `payload` under the slot `id`.
pub open spec fn frame_of(id: SeqChar, payload: Seq<u8>) -> Seq<u8> {
    seq![START_DELIMITER] + checked_span(id, payload) + seq![END_DELIMITER] + checksum_field(
        checked_span(id, payload),
    )
}

/// Whether `frame` is long enough and has both delimiters in their places:
/// `$` first, `#` just before the last two bytes.
pub open spec fn well_delimited(frame: Seq<u8>) -> bool {
    &&& frame.len() >= MIN_FRAME_LEN
    &&& frame[0] == START_DELIMITER
    &&& frame[frame.len() - 3] == END_DELIMITER
}

/// The bytes of `frame` between its delimiters.
pub open spec fn span_of(frame: Seq<u8>) -> Seq<u8> {
    frame.subrange(1, frame.len() - 3)
}

/// The last two bytes of `frame`.
pub open spec fn field_of(frame: Seq<u8>) -> Seq<u8> {
    frame.subrange(frame.len() - 2, frame.len() as int)
}

/// The payload bytes of `frame`: its span without the slot symbol.
pub open spec fn payload_of(frame: Seq<u8>) -> Seq<u8> {
    frame.subrange(2, frame.len() - 3)
}

/// Whether the checksum field of `frame` is the one that belongs to its
/// span.
pub open spec fn checksum_matches(frame: Seq<u8>) -> bool {
    field_of(frame) == checksum_field(span_of(frame))
}

/// Whether `frame` is valid on the wire: well delimited, with a matching
/// checksum.
pub open spec fn valid_frame(frame: Seq<u8>) -> bool {
    well_delimited(frame) && checksum_matches(frame)
}

/// What decoding `frame` yields.
///
/// The checks come in a fixed order: the shape, then the checksum, then the
/// slot symbol. A frame that fails several of them reports the first.
pub open spec fn decoded(frame: Seq<u8>) -> Result<(SeqChar, Seq<u8>), DecodeError> {
    if !well_delimited(frame) {
        Err(DecodeError::Malformed)
    } else if !checksum_matches(frame) {
        Err(DecodeError::ChecksumMismatch)
    } else if !is_slot_symbol(frame[1] as int) {
        Err(DecodeError::UnknownSlot)
    } else {
        Ok((SeqChar::at(frame[1] - FIRST_SYMBOL), payload_of(frame)))
    }
}

/// Appending a byte to a span adds it to the sum.
pub proof fn lemma_byte_sum_push(span: Seq<u8>, byte: u8)
    ensures
        byte_sum(span.push(byte)) == byte_sum(span) + byte,
{
    assert(span.push(byte).drop_last() =~= span);
}

/// The checksum of any span fits in a byte.
pub proof fn lemma_checksum_value_range(span: Seq<u8>)
    ensures
        0 <= checksum_value(span) < 256,
{
}

/// The sum of the bytes of `span` modulo 256.
pub fn sum_bytes(span: &[u8]) -> (sum: u8)
    ensures
        sum == byte_sum(span@) % 256,
{
    let mut sum: u8 = 0;
    let mut i: usize = 0;
    assert(span@.subrange(0, 0) =~= Seq::<u8>::empty());
    while i < span.len()
        invariant
            i <= span.len(),
            sum == byte_sum(span@.subrange(0, i as int)) % 256,
        decreases span.len() - i,
    {
        proof {
            lemma_byte_sum_push(span@.subrange(0, i as int), span@[i as int]);
            assert(span@.subrange(0, i as int).push(span@[i as int]) =~= span@.subrange(
                0,
                i + 1,
            ));
        }
        sum = sum.wrapping_add(span[i]);
        i += 1;
    }
    assert(span@.subrange(0, span@.len() as int) =~= span@);
    sum
}

/// The checksum of `span` as a byte: its byte sum modulo 256, complemented.
pub fn checksum_byte(span: &[u8]) -> (value: u8)
    ensures
        value == checksum_value(span@),
{
    let sum: u8 = sum_bytes(span);
    assert(!sum == 255 - sum) by (bit_vector);
    !sum
}

/// The upper-case hexadecimal digit for a value below 16.
fn hex_upper(nibble: u8) -> (digit: u8)
    requires
        nibble < 16,
    ensures
        digit == hex_digit(nibble as int),
{
    if nibble < 10 {
        0x30 + nibble
    } else {
        0x41 + (nibble - 10)
    }
}

/// The checksum field for `span`: two upper-case hexadecimal digits, high
/// digit first.
pub fn calculate_checksum(span: &[u8]) -> (field: [u8; 2])
    ensures
        field@ == checksum_field(span@),
{
    let value: u8 = checksum_byte(span);
    let field: [u8; 2] = [hex_upper(value / 16), hex_upper(value % 16)];
    assert(field@ =~= checksum_field(span@));
    field
}

/// Whether `received` is a valid frame: long enough, delimited, and closed
/// by the checksum of the bytes between its delimiters.
///
/// Bytes of any length and content are accepted; what is no frame is simply
/// not valid.
pub fn verify_checksum(received: &[u8]) -> (valid: bool)
    ensures
        valid == valid_frame(received@),
{
    let len: usize = received.len();
    if len < MIN_FRAME_LEN {
        return false;
    }
    if received[0] != START_DELIMITER || received[len - 3] != END_DELIMITER {
        return false;
    }
    let field: [u8; 2] = calculate_checksum(slice_subrange(received, 1, len - 3));
    assert(field_of(received@) =~= seq![received@[len - 2], received@[len - 1]]);
    assert(field@ =~= seq![field@[0], field@[1]]);
    field[0] == received[len - 2] && field[1] == received[len - 1]
}

/// Builds the frame that carries `payload` under the slot `seq_counter`.
pub fn assemble_packet(seq_counter: &SeqChar, payload: &[u8]) -> (frame: Vec<u8>)
    ensures
        frame@ == frame_of(*seq_counter, payload@),
{
    let mut span: Vec<u8> = Vec::new();
    span.push(seq_counter.to_symbol());
    span.extend_from_slice(payload);
    assert(span@ =~= checked_span(*seq_counter, payload@));
    let field: [u8; 2] = calculate_checksum(span.as_slice());
    let mut frame: Vec<u8> = Vec::new();
    frame.push(START_DELIMITER);
    frame.extend_from_slice(span.as_slice());
    frame.push(END_DELIMITER);
    frame.push(field[0]);
    frame.push(field[1]);
    assert(frame@ =~= frame_of(*seq_counter, payload@));
    frame
}

/// Takes a frame apart into its slot and its payload.
///
/// Never fails but with one of the three errors: `Malformed` for a frame
/// that is too short or lacks a delimiter, `ChecksumMismatch` for one whose
/// checksum field is not that of its span, `UnknownSlot` for one whose symbol
/// names no slot.
pub fn decode(frame: &[u8]) -> (r: Result<(SeqChar, Vec<u8>), DecodeError>)
    ensures
        match r {
            Ok((id, payload)) => id.wf() && decoded(frame@) == Ok::<
                (SeqChar, Seq<u8>),
                DecodeError,
            >((id, payload@)),
            Err(e) => decoded(frame@) == Err::<(SeqChar, Seq<u8>), DecodeError>(e),
        },
        frame@.len() < MIN_FRAME_LEN ==> r == Err::<(SeqChar, Vec<u8>), DecodeError>(
            DecodeError::Malformed,
        ),
{
    let len: usize = frame.len();
    if len < MIN_FRAME_LEN {
        return Err(DecodeError::Malformed);
    }
    if frame[0] != START_DELIMITER || frame[len - 3] != END_DELIMITER {
        return Err(DecodeError::Malformed);
    }
    if !verify_checksum(frame) {
        return Err(DecodeError::ChecksumMismatch);
    }
    match SeqChar::from_symbol(frame[1]) {
        Ok(id) => {
            let payload: Vec<u8> = slice_to_vec(slice_subrange(frame, 2, len - 3));
            Ok((id, payload))
        },
        Err(_) => Err(DecodeError::UnknownSlot),
    }
}

/// Changing one byte of a span changes the sum by the difference of the two
/// bytes.
pub proof fn lemma_byte_sum_update(span: Seq<u8>, i: int, byte: u8)
    requires
        0 <= i < span.len(),
    ensures
        byte_sum(span.update(i, byte)) == byte_sum(span) - span[i] + byte,
    decreases span.len(),
{
    let changed = span.update(i, byte);
    if i == span.len() - 1 {
        assert(changed.drop_last() =~= span.drop_last());
    } else {
        lemma_byte_sum_update(span.drop_last(), i, byte);
        assert(changed.drop_last() =~= span.drop_last().update(i, byte));
    }
}

/// Two spans that differ in exactly one byte have different checksums.
pub proof fn lemma_checksum_detects_byte(span: Seq<u8>, i: int, byte: u8)
    requires
        0 <= i < span.len(),
        byte != span[i],
    ensures
        checksum_value(span.update(i, byte)) != checksum_value(span),
{
    lemma_byte_sum_update(span, i, byte);
    let a = byte_sum(span);
    let d = byte - span[i];
    assert((a + d) % 256 != a % 256) by (nonlinear_arith)
        requires
            -256 < d < 256,
            d != 0,
    ;
}

/// Different checksums are rendered as different fields.
pub proof fn lemma_hex_pair_injective(a: int, b: int)
    requires
        0 <= a < 256,
        0 <= b < 256,
        hex_pair(a) == hex_pair(b),
    ensures
        a == b,
{
    assert(hex_pair(a)[0] == hex_pair(b)[0]);
    assert(hex_pair(a)[1] == hex_pair(b)[1]);
}

/// The parts of an encoded frame: its length, its delimiters, its span, its
/// checksum field and its payload.
pub proof fn lemma_frame_parts(id: SeqChar, payload: Seq<u8>)
    requires
        id.wf(),
    ensures
        frame_of(id, payload).len() == payload.len() + MIN_FRAME_LEN,
        well_delimited(frame_of(id, payload)),
        frame_of(id, payload)[1] == id.symbol(),
        span_of(frame_of(id, payload)) == checked_span(id, payload),
        field_of(frame_of(id, payload)) == checksum_field(checked_span(id, payload)),
        payload_of(frame_of(id, payload)) == payload,
{
    broadcast use SeqChar::lemma_position_range;

    let frame = frame_of(id, payload);
    assert(span_of(frame) =~= checked_span(id, payload));
    assert(field_of(frame) =~= checksum_field(checked_span(id, payload)));
    assert(payload_of(frame) =~= payload);
}

/// Decoding an encoded frame gives back the slot and the payload that went
/// into it, whatever the payload holds.
pub proof fn lemma_decode_encode(id: SeqChar, payload: Seq<u8>)
    requires
        id.wf(),
    ensures
        valid_frame(frame_of(id, payload)),
        decoded(frame_of(id, payload)) == Ok::<(SeqChar, Seq<u8>), DecodeError>((id, payload)),
{
    broadcast use SeqChar::lemma_position_range;

    lemma_frame_parts(id, payload);
}

/// Bytes too short to be a frame decode to `Malformed`.
pub proof fn lemma_short_frame_malformed(frame: Seq<u8>)
    requires
        frame.len() < MIN_FRAME_LEN,
    ensures
        decoded(frame) == Err::<(SeqChar, Seq<u8>), DecodeError>(DecodeError::Malformed),
{
}

/// A frame decodes successfully exactly when it is valid and its symbol
/// names a slot.
pub proof fn lemma_decoded_ok(frame: Seq<u8>)
    ensures
        decoded(frame) is Ok <==> valid_frame(frame) && is_slot_symbol(frame[1] as int),
{
}

/// Replacing one byte of the checked span of an encoded frame by another
/// value is always detected: the frame then decodes to `ChecksumMismatch`.
///
/// The checked span is the slot symbol and the payload, the bytes at the
/// positions from 1 up to the end delimiter.
pub proof fn lemma_corrupted_byte_detected(id: SeqChar, payload: Seq<u8>, i: int, byte: u8)
    requires
        id.wf(),
        1 <= i < payload.len() + 2,
        byte != frame_of(id, payload)[i],
    ensures
        decoded(frame_of(id, payload).update(i, byte)) == Err::<(SeqChar, Seq<u8>), DecodeError>(
            DecodeError::ChecksumMismatch,
        ),
{
    let frame = frame_of(id, payload);
    let span = checked_span(id, payload);
    let damaged = frame.update(i, byte);
    lemma_frame_parts(id, payload);
    assert(span[i - 1] == frame[i]);
    assert(span_of(damaged) =~= span.update(i - 1, byte));
    assert(field_of(damaged) =~= field_of(frame));
    lemma_checksum_detects_byte(span, i - 1, byte);
    if checksum_matches(damaged) {
        lemma_hex_pair_injective(checksum_value(span_of(damaged)), checksum_value(span));
    }
}

/// The byte `byte` with its bit number `bit` flipped; meaningful for
/// `bit < 8`.
pub open spec fn flip_bit(byte: u8, bit: u8) -> u8 {
    byte ^ (1u8 << bit)
}

/// Flipping any single bit in the checked span of an encoded frame is
/// always detected: the frame then decodes to `ChecksumMismatch`.
pub proof fn lemma_bit_flip_detected(id: SeqChar, payload: Seq<u8>, i: int, bit: u8)
    requires
        id.wf(),
        1 <= i < payload.len() + 2,
        bit < 8,
    ensures
        decoded(frame_of(id, payload).update(i, flip_bit(frame_of(id, payload)[i], bit)))
            == Err::<(SeqChar, Seq<u8>), DecodeError>(DecodeError::ChecksumMismatch),
{
    let byte = frame_of(id, payload)[i];
    assert(byte ^ (1u8 << bit) != byte) by (bit_vector)
        requires
            bit < 8,
    ;
    lemma_corrupted_byte_detected(id, payload, i, flip_bit(byte, bit));
}

} // verus!
