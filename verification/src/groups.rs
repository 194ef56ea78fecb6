//! Unsigned numbers as runs of seven-bit groups.
//!
//! A number is written least significant group first. Every byte carries
//! seven bits of the number in its low bits; its high bit says whether
//! another byte follows. This file holds the mathematical model of that
//! format, the two loops that read and write it, and what holds between
//! them.

use crate::buffer::{gread_failure, gread_u8, pwrite_failure, pwrite_u8};
use crate::error::CodecError;
use vstd::prelude::*;

verus! {

/// The low seven bits of a byte: its share of the number.
pub const SEGMENT_BITS: u8 = 0x7F;

/// The high bit of a byte: set when another byte follows.
pub const CONTINUE_BIT: u8 = 0x80;

/// Number of values of one group, `2^7`.
pub const GROUP_RANGE: u8 = 0x80;

/// The weight of the group at index `k` of a run, `128^k`.
pub open spec fn group_weight(k: nat) -> nat
    decreases k,
{
    if k == 0 {
        1
    } else {
        128 * group_weight((k - 1) as nat)
    }
}

/// The number that a run of bytes spells: the payload of the first byte,
/// plus 128 times the number spelled by the rest. Continuation bits play no
/// part in it.
pub open spec fn groups_value(run: Seq<u8>) -> nat
    decreases run.len(),
{
    if run.len() == 0 {
        0
    } else {
        (run[0] % GROUP_RANGE) as nat + 128 * groups_value(run.drop_first())
    }
}

/// The run that is written for `bits`: seven bits at a time, lowest first,
/// each byte but the last with its continuation bit set, ending as soon as
/// what is left fits in one group.
pub open spec fn groups_of(bits: nat) -> Seq<u8>
    decreases bits,
{
    if bits < 128 {
        seq![bits as u8]
    } else {
        seq![(bits % 128 + 128) as u8] + groups_of(bits / 128)
    }
}

/// Whether `run` is in canonical form: at least one byte, the continuation
/// bit set on every byte but the last and clear on the last, and no idle
/// group at the end, which means that the last group is zero only when it
/// is the only one.
pub open spec fn is_canonical_run(run: Seq<u8>) -> bool {
    &&& run.len() >= 1
    &&& forall|i: int| 0 <= i < run.len() - 1 ==> #[trigger] run[i] >= CONTINUE_BIT
    &&& run.last() < CONTINUE_BIT
    &&& run.len() > 1 ==> run.last() > 0
}

/// Number of bytes from `start` on, without a gap, that have their
/// continuation bit set.
pub open spec fn continuation_run(s: Seq<u8>, start: nat) -> nat
    decreases s.len() - start,
{
    if start < s.len() && s[start as int] >= CONTINUE_BIT {
        1 + continuation_run(s, start + 1)
    } else {
        0
    }
}

/// Number of groups that an integer of `width` bits can take: the least
/// number of groups that hold `width` bits.
pub open spec fn groups_limit(width: nat) -> nat {
    (width + 6) / 7
}

/// What reading a number at some offset of a byte sequence comes to.
pub enum Parsed {
    /// A byte without continuation bit ended the run in time. `bits` is the
    /// number that the run spells, `consumed` the length of the run in bytes.
    Value { bits: nat, consumed: nat },
    /// As many bytes as the limit allows all asked for another byte.
    /// `partial` is the number that they spell, `len` the number of bytes
    /// between the offset and the end of the sequence.
    Overlong { partial: nat, len: nat },
    /// The sequence ended before the run did: `at` is the offset of the byte
    /// that was missing.
    Exhausted { at: nat },
}

/// Reads the run of groups that starts at `offset` of `s`, of at most
/// `limit` groups.
pub open spec fn parse_groups(s: Seq<u8>, offset: nat, limit: nat) -> Parsed {
    let run = continuation_run(s, offset);
    if run >= limit {
        Parsed::Overlong {
            partial: groups_value(s.subrange(offset as int, (offset + limit) as int)),
            len: (s.len() - offset) as nat,
        }
    } else if offset + run < s.len() {
        Parsed::Value {
            bits: groups_value(s.subrange(offset as int, (offset + run + 1) as int)),
            consumed: run + 1,
        }
    } else {
        Parsed::Exhausted { at: offset + run }
    }
}

/// The buffer `buf` after `bytes` were stored in it from `offset` on, as far
/// as they fit: bytes that would fall past the end of the buffer are dropped.
pub open spec fn overwrite(buf: Seq<u8>, offset: int, bytes: Seq<u8>) -> Seq<u8> {
    Seq::new(
        buf.len(),
        |i: int|
            if offset <= i < offset + bytes.len() {
                bytes[i - offset]
            } else {
                buf[i]
            },
    )
}

/// What writing `bytes` into `buf` from `offset` on returns: their number
/// when they all fit, and otherwise the error of the buffer access for the
/// first byte that does not.
pub open spec fn write_outcome(buf: Seq<u8>, offset: usize, bytes: Seq<u8>) -> Result<
    usize,
    CodecError,
> {
    if offset + bytes.len() <= buf.len() {
        Ok(bytes.len() as usize)
    } else {
        let fitted: int = if offset < buf.len() {
            buf.len() - offset
        } else {
            0
        };
        Err(
            CodecError::BufferUnderrun(
                pwrite_failure(
                    overwrite(buf, offset as int, bytes),
                    bytes[fitted],
                    (offset + fitted) as usize,
                ),
            ),
        )
    }
}

/// What `read_groups` found.
#[derive(Debug)]
pub enum Scan {
    /// A complete run: the low 64 bits of its number, and its length in bytes.
    Value { bits: u64, consumed: usize },
    /// A run that went on past the width: the low 64 bits of the number
    /// gathered so far, and the number of bytes between the offset and the
    /// end of the buffer.
    Overlong { partial: u64, len: usize },
    /// The buffer ended first; the payload is the error of the buffer access.
    Failed(scroll::Error),
}

/// Reads a run of groups from `buffer`, starting at `offset`, for an integer
/// of `width` bits.
///
/// Bytes are read one by one and their payloads gathered, least significant
/// first, until a byte comes without continuation bit. Payload bits at or
/// above bit 64 are dropped. The read gives up once the bit position of the
/// next group would reach `width`, and fails when the buffer ends first.
pub fn read_groups(buffer: &[u8], offset: usize, width: u32) -> (r: Scan)
    requires
        0 < width <= 64,
    ensures
        match parse_groups(buffer@, offset as nat, groups_limit(width as nat)) {
            Parsed::Value { bits, consumed } => r == (Scan::Value {
                bits: (bits % 0x1_0000_0000_0000_0000) as u64,
                consumed: consumed as usize,
            }),
            Parsed::Overlong { partial, len } => r == (Scan::Overlong {
                partial: (partial % 0x1_0000_0000_0000_0000) as u64,
                len: len as usize,
            }),
            Parsed::Exhausted { at } => r == Scan::Failed(gread_failure(buffer@, at as usize)),
        },
{
    let ghost s = buffer@;
    let ghost mut run: Seq<u8> = Seq::empty();
    let mut value: u64 = 0;
    let mut position: u32 = 0;
    let mut cursor: usize = offset;
    assert(1u64 << 0u32 == 1) by (bit_vector);
    loop
        invariant
            s == buffer@,
            0 < width <= 64,
            position == 7 * run.len(),
            position < width,
            cursor == offset + run.len(),
            run.len() > 0 ==> cursor <= s.len() && run == s.subrange(offset as int, cursor as int),
            forall|i: int| 0 <= i < run.len() ==> run[i] >= CONTINUE_BIT,
            value == groups_value(run),
            (1u64 << position) == group_weight(run.len()),
        decreases width - position,
    {
        proof {
            if run.len() > 0 {
                lemma_run_splits(s, offset as nat, run.len());
            }
            lemma_groups_value_bound(run);
        }
        let byte: u8 = match gread_u8(buffer, &mut cursor) {
            Ok(byte) => byte,
            Err(e) => {
                return Scan::Failed(e);
            },
        };
        let payload: u64 = (byte & SEGMENT_BITS) as u64;
        assert(payload == byte % 128 && (byte & 0x80 == 0 <==> byte < 0x80)) by (bit_vector)
            requires
                payload == (byte & 0x7F) as u64,
        ;
        let ghost unit: u64 = 1u64 << position;
        let ghost gathered = value;
        value |= payload << position;
        proof {
            let longer = run.push(byte);
            let added = unit as int * (byte % GROUP_RANGE) as int;
            lemma_groups_value_push(run, byte);
            assert(groups_value(longer) == gathered + added);
            assert(payload * unit == added) by (nonlinear_arith)
                requires
                    payload == byte % GROUP_RANGE,
                    added == unit as int * (byte % GROUP_RANGE) as int,
            ;
            if position <= 56 {
                lemma_accumulate(gathered, payload, position, unit);
            } else {
                assert(unit == 0x8000_0000_0000_0000) by (bit_vector)
                    requires
                        unit == 1u64 << position,
                        position == 63,
                ;
                lemma_accumulate_last(gathered, payload);
            }
            assert(value == groups_value(longer) % 0x1_0000_0000_0000_0000);
            run = longer;
            assert(run =~= s.subrange(offset as int, cursor as int));
        }
        if byte & CONTINUE_BIT == 0 {
            return Scan::Value { bits: value, consumed: cursor - offset };
        }
        position += 7;
        proof {
            lemma_run_splits(s, offset as nat, run.len());
        }
        if position >= width {
            return Scan::Overlong { partial: value, len: buffer.len() - offset };
        }
    }
}

/// Writes the groups of `bits` into `output`, starting at `offset`.
///
/// Succeeds exactly when all groups fit between `offset` and the end of the
/// buffer, and then returns their number. Otherwise the buffer access fails
/// at the first byte that does not fit; the groups before it have been
/// written.
pub fn write_groups(bits: u64, output: &mut [u8], offset: usize) -> (r: Result<usize, CodecError>)
    ensures
        final(output)@ == overwrite(old(output)@, offset as int, groups_of(bits as nat)),
        r == write_outcome(old(output)@, offset, groups_of(bits as nat)),
{
    let ghost before = output@;
    let ghost mut emitted: Seq<u8> = Seq::empty();
    let mut value: u64 = bits;
    let mut cursor: usize = offset;
    assert(output@ =~= overwrite(before, offset as int, emitted));
    assert(before.len() <= usize::MAX) by {
        vstd::slice::axiom_spec_len(output);
    }
    while value & !(SEGMENT_BITS as u64) != 0
        invariant
            before == old(output)@,
            before.len() <= usize::MAX,
            groups_of(bits as nat) == emitted + groups_of(value as nat),
            cursor == offset + emitted.len(),
            emitted.len() > 0 ==> cursor <= before.len(),
            output@ == overwrite(before, offset as int, emitted),
        decreases value,
    {
        let byte: u8 = (#[verifier::truncate] (value as u8) & SEGMENT_BITS) | CONTINUE_BIT;
        assert(value >= 128 && byte == value % 128 + 128 && value >> 7 == value / 128) by (
            bit_vector)
            requires
                value & !0x7Fu64 != 0,
                byte == ((value as u8) & 0x7F) | 0x80,
        ;
        match pwrite_u8(output, byte, cursor) {
            Ok(written) => {
                cursor += written;
            },
            Err(e) => {
                proof {
                    lemma_overwrite_clipped(
                        before,
                        offset as int,
                        emitted,
                        groups_of(value as nat),
                    );
                }
                return Err(CodecError::BufferUnderrun(e));
            },
        }
        proof {
            assert(emitted.push(byte) + groups_of((value / 128) as nat) =~= emitted + groups_of(
                value as nat,
            ));
            emitted = emitted.push(byte);
            assert(output@ =~= overwrite(before, offset as int, emitted));
        }
        value >>= 7;
    }
    let last: u8 = #[verifier::truncate] (value as u8);
    assert(value < 128 && last == value) by (bit_vector)
        requires
            !(value & !0x7Fu64 != 0),
            last == value as u8,
    ;
    assert(groups_of(bits as nat) =~= emitted.push(last));
    match pwrite_u8(output, last, cursor) {
        Ok(written) => {
            cursor += written;
        },
        Err(e) => {
            proof {
                lemma_overwrite_clipped(before, offset as int, emitted, seq![last]);
            }
            return Err(CodecError::BufferUnderrun(e));
        },
    }
    assert(output@ =~= overwrite(before, offset as int, groups_of(bits as nat)));
    Ok(cursor - offset)
}

/// The written run is in canonical form.
pub proof fn lemma_groups_of_shape(bits: nat)
    ensures
        is_canonical_run(groups_of(bits)),
    decreases bits,
{
    if bits >= 128 {
        let rest = groups_of(bits / 128);
        lemma_groups_of_shape(bits / 128);
        let run = groups_of(bits);
        assert(run =~= seq![(bits % 128 + 128) as u8] + rest);
        assert forall|i: int| 0 <= i < run.len() - 1 implies #[trigger] run[i]
            >= CONTINUE_BIT by {
            if i > 0 {
                assert(run[i] == rest[i - 1]);
            }
        }
        assert(run.last() == rest.last());
        if rest.len() == 1 {
            assert(rest[0] == (bits / 128) as u8);
        }
    }
}

/// The written run spells the number it was written for.
pub proof fn lemma_groups_of_value(bits: nat)
    ensures
        groups_value(groups_of(bits)) == bits,
    decreases bits,
{
    let run = groups_of(bits);
    if bits < 128 {
        assert(run.drop_first() =~= Seq::<u8>::empty());
        assert(groups_value(run.drop_first()) == 0);
    } else {
        lemma_groups_of_value(bits / 128);
        assert(run.drop_first() =~= groups_of(bits / 128));
        assert(run[0] == (bits % 128 + 128) as u8);
    }
}

/// The written run is as short as the number allows: it has at most `n`
/// bytes exactly when the number is below `128^n`.
pub proof fn lemma_groups_of_len(bits: nat, n: nat)
    requires
        n >= 1,
    ensures
        groups_of(bits).len() <= n <==> bits < group_weight(n),
    decreases n,
{
    let smaller = group_weight((n - 1) as nat);
    assert(group_weight(n) == 128 * smaller);
    lemma_group_weight_positive((n - 1) as nat);
    if bits >= 128 {
        assert(groups_of(bits).len() == 1 + groups_of(bits / 128).len());
        if n > 1 {
            lemma_groups_of_len(bits / 128, (n - 1) as nat);
        } else {
            lemma_groups_of_shape(bits / 128);
        }
    }
}

/// The written run is the only canonical one for its number: a run in
/// canonical form is the run that is written for the number it spells.
pub proof fn canonical_run_is_unique(run: Seq<u8>)
    requires
        is_canonical_run(run),
    ensures
        groups_of(groups_value(run)) == run,
        run.len() > 1 ==> groups_value(run) >= 128,
    decreases run.len(),
{
    let spelled = groups_value(run);
    let rest = run.drop_first();
    if run.len() == 1 {
        assert(rest =~= Seq::<u8>::empty());
        assert(groups_value(rest) == 0);
        assert(groups_of(spelled) =~= run);
    } else {
        assert(run[0] >= CONTINUE_BIT);
        assert(rest.last() == run.last());
        assert forall|i: int| 0 <= i < rest.len() - 1 implies #[trigger] rest[i]
            >= CONTINUE_BIT by {
            assert(rest[i] == run[i + 1]);
        }
        if rest.len() == 1 {
            assert(rest.drop_first() =~= Seq::<u8>::empty());
            assert(groups_value(rest.drop_first()) == 0);
            assert(groups_value(rest) == rest[0]);
        } else {
            canonical_run_is_unique(rest);
        }
        assert(groups_value(rest) >= 1);
        assert(spelled == (run[0] - 128) + 128 * groups_value(rest));
        assert(spelled / 128 == groups_value(rest) && spelled % 128 == run[0] - 128);
        if rest.len() == 1 {
            assert(groups_of(groups_value(rest)) =~= rest);
        }
        assert(groups_of(spelled) =~= seq![run[0]] + rest);
        assert(seq![run[0]] + rest =~= run);
    }
}

/// No run is shorter than the written one among those that spell the same
/// number.
pub proof fn lemma_groups_of_is_shortest(bits: nat, other: Seq<u8>)
    requires
        other.len() >= 1,
        groups_value(other) == bits,
    ensures
        groups_of(bits).len() <= other.len(),
{
    lemma_groups_value_bound(other);
    lemma_groups_of_len(bits, other.len());
}

/// A larger number never has a shorter run.
pub proof fn lemma_groups_of_len_monotonic(low: nat, high: nat)
    requires
        low <= high,
    ensures
        groups_of(low).len() <= groups_of(high).len(),
{
    lemma_groups_of_shape(high);
    lemma_groups_of_len(high, groups_of(high).len());
    lemma_groups_of_len(low, groups_of(high).len());
}

/// What was written is read back: after the groups of `bits` were stored
/// whole at `offset` of any buffer, decoding at `offset` gives `bits` and the
/// length of the run, provided the reader's limit admits that length.
pub proof fn groups_round_trip(buf: Seq<u8>, offset: nat, bits: nat, limit: nat)
    requires
        offset + groups_of(bits).len() <= buf.len(),
        groups_of(bits).len() <= limit,
    ensures
        parse_groups(overwrite(buf, offset as int, groups_of(bits)), offset, limit) == (
        Parsed::Value { bits, consumed: groups_of(bits).len() }),
{
    let run = groups_of(bits);
    let s = overwrite(buf, offset as int, run);
    let k = (run.len() - 1) as nat;
    lemma_groups_of_shape(bits);
    lemma_groups_of_value(bits);
    assert(s.subrange(offset as int, (offset + run.len()) as int) =~= run);
    assert forall|i: int| 0 <= i < k implies #[trigger] s.subrange(
        offset as int,
        (offset + k) as int,
    )[i] >= CONTINUE_BIT by {
        assert(s[offset + i] == run[i]);
    }
    lemma_run_splits(s, offset, k);
    assert(s[(offset + k) as int] == run.last());
    assert(continuation_run(s, offset + k) == 0);
}

/// A run that keeps asking for more bytes through the whole limit is
/// refused, whatever follows it.
pub proof fn overlong_is_refused(s: Seq<u8>, offset: nat, limit: nat)
    requires
        offset + limit <= s.len(),
        forall|i: int| offset <= i < offset + limit ==> s[i] >= CONTINUE_BIT,
    ensures
        parse_groups(s, offset, limit) is Overlong,
{
    assert forall|i: int| 0 <= i < limit implies #[trigger] s.subrange(
        offset as int,
        (offset + limit) as int,
    )[i] >= CONTINUE_BIT by {
        assert(s[offset + i] >= CONTINUE_BIT);
    }
    lemma_run_splits(s, offset, limit);
}

/// Every weight is at least one.
pub proof fn lemma_group_weight_positive(k: nat)
    ensures
        group_weight(k) >= 1,
    decreases k,
{
    if k > 0 {
        lemma_group_weight_positive((k - 1) as nat);
    }
}

/// Appending a byte to a run adds its payload at the weight of its index.
pub proof fn lemma_groups_value_push(run: Seq<u8>, byte: u8)
    ensures
        groups_value(run.push(byte)) == groups_value(run) + group_weight(run.len()) * (byte
            % GROUP_RANGE),
    decreases run.len(),
{
    let longer = run.push(byte);
    let payload = (byte % GROUP_RANGE) as int;
    if run.len() == 0 {
        assert(longer.drop_first() =~= Seq::<u8>::empty());
        assert(groups_value(longer.drop_first()) == 0);
        let unit = group_weight(0) as int;
        assert(unit * payload == payload) by (nonlinear_arith)
            requires
                unit == 1,
        ;
    } else {
        let rest = run.drop_first();
        let weight = group_weight(rest.len()) as int;
        let heavier = group_weight(run.len()) as int;
        assert(longer.drop_first() =~= rest.push(byte));
        lemma_groups_value_push(rest, byte);
        assert(groups_value(longer) == (run[0] % GROUP_RANGE) + 128 * (groups_value(rest) + weight
            * payload));
        assert(heavier * payload == 128 * (weight * payload)) by (nonlinear_arith)
            requires
                heavier == 128 * weight,
        ;
        assert(groups_value(longer) == groups_value(run) + heavier * payload);
    }
}

/// A run of `n` groups spells a number below `128^n`.
pub proof fn lemma_groups_value_bound(run: Seq<u8>)
    ensures
        groups_value(run) < group_weight(run.len()),
    decreases run.len(),
{
    if run.len() > 0 {
        lemma_groups_value_bound(run.drop_first());
    }
}

/// A stretch of continuation bytes adds its length to the run that follows it.
proof fn lemma_run_splits(s: Seq<u8>, start: nat, k: nat)
    requires
        start + k <= s.len(),
        forall|i: int|
            0 <= i < k ==> #[trigger] s.subrange(start as int, (start + k) as int)[i]
                >= CONTINUE_BIT,
    ensures
        continuation_run(s, start) == k + continuation_run(s, start + k),
    decreases k,
{
    if k > 0 {
        let stretch = s.subrange(start as int, (start + k) as int);
        let shorter = s.subrange(start as int + 1, (start + k) as int);
        assert(stretch[0] >= CONTINUE_BIT);
        assert forall|i: int| 0 <= i < k - 1 implies #[trigger] shorter[i] >= CONTINUE_BIT by {
            assert(stretch[i + 1] >= CONTINUE_BIT);
        }
        lemma_run_splits(s, start + 1, (k - 1) as nat);
    }
}

/// Bytes that would be stored at or past the end of the buffer leave no
/// trace: storing `head + tail` is storing `head` when `head` already reaches
/// the end.
proof fn lemma_overwrite_clipped(buf: Seq<u8>, offset: int, head: Seq<u8>, tail: Seq<u8>)
    requires
        offset + head.len() >= buf.len(),
    ensures
        overwrite(buf, offset, head + tail) =~= overwrite(buf, offset, head),
{
}

/// Or-ing a group into an accumulator above the bits gathered so far adds
/// the group at the weight of its place.
proof fn lemma_accumulate(value: u64, payload: u64, position: u32, unit: u64)
    by (bit_vector)
    requires
        payload < 128,
        position <= 56,
        unit == 1u64 << position,
        value < unit,
    ensures
        (value | (payload << position)) == value + payload * unit,
        (1u64 << ((position + 7) as u32)) == unit * 128,
{
}

/// The group at bit 63 keeps its lowest bit; the rest falls off the word.
proof fn lemma_accumulate_last(value: u64, payload: u64)
    by (bit_vector)
    requires
        payload < 128,
        value < 0x8000_0000_0000_0000,
    ensures
        (value | (payload << 63u32)) == (value + payload * 0x8000_0000_0000_0000)
            % 0x1_0000_0000_0000_0000,
{
}

} // verus!
