//! Bit-level write helpers at arbitrary byte+bit offsets, and the saturating
//! adjustment of an AAC `global_gain` value.
use vstd::prelude::*;

verus! {

/// Largest value an AAC `global_gain` field can hold.
pub const GAIN_MAX: u8 = 255;

/// `current + steps`, saturated to the `0..=255` range of a `global_gain` field.
pub open spec fn clamped_gain(current: int, steps: int) -> int {
    if current + steps < 0 {
        0
    } else if current + steps > GAIN_MAX as int {
        GAIN_MAX as int
    } else {
        current + steps
    }
}

/// Saturating gain adjustment, clamped to the 0..=255 `global_gain` range.
///
/// The sum is taken in a wider type, so every step count saturates.
pub fn adjust_gain_value(current: u8, steps: i32) -> (adjusted: u8)
    ensures
        adjusted as int == clamped_gain(current as int, steps as int),
{
    let sum: i64 = current as i64 + steps as i64;
    if sum < 0 {
        0
    } else if sum > GAIN_MAX as i64 {
        GAIN_MAX
    } else {
        sum as u8
    }
}

/// Bit `k` of byte `b`, counting from the most significant bit (`k == 0`) as
/// an MPEG bitstream does; meaningful for `k < 8`.
pub open spec fn byte_bit(b: u8, k: u8) -> bool {
    (b << k) & 0x80u8 == 0x80u8
}

/// Bit `i` of the bitstream held in `s`, where bit `8 * j + k` is bit `k` of
/// byte `j`; meaningful for `0 <= i < 8 * s.len()`.
pub open spec fn stream_bit(s: Seq<u8>, i: int) -> bool {
    byte_bit(s[i / 8], (i % 8) as u8)
}

/// `after` is `before` with the 8 bits of `value` (most significant first)
/// written at bit position `pos`; bits that would fall past the end of the
/// buffer are dropped, and every other bit is kept.
pub open spec fn is_bit_write(before: Seq<u8>, after: Seq<u8>, pos: int, value: u8) -> bool {
    &&& after.len() == before.len()
    &&& forall|i: int|
        #![trigger stream_bit(after, i)]
        0 <= i < 8 * after.len() ==> stream_bit(after, i) == if pos <= i < pos + 8 {
            byte_bit(value, (i - pos) as u8)
        } else {
            stream_bit(before, i)
        }
}

/// The high byte after the write: its first `o` bits are kept, the rest are
/// the first `8 - o` bits of `v`.
proof fn lemma_high_byte_bits(old_b: u8, v: u8, o: u8, k: u8)
    requires
        0 < o < 8,
        k < 8,
    ensures
        byte_bit((old_b & (0xFFu8 << ((8 - o) as u8))) | (v >> o), k) == if k < o {
            byte_bit(old_b, k)
        } else {
            byte_bit(v, (k - o) as u8)
        },
{
    assert(byte_bit((old_b & (0xFFu8 << ((8 - o) as u8))) | (v >> o), k) == if k < o {
        byte_bit(old_b, k)
    } else {
        byte_bit(v, (k - o) as u8)
    }) by (bit_vector)
        requires
            0 < o < 8,
            k < 8,
    ;
}

/// The low byte after the write: its first `o` bits are the last `o` bits of
/// `v`, the rest are kept.
proof fn lemma_low_byte_bits(old_b: u8, v: u8, o: u8, k: u8)
    requires
        0 < o < 8,
        k < 8,
    ensures
        byte_bit((old_b & (0xFFu8 >> o)) | (v << ((8 - o) as u8)), k) == if k < o {
            byte_bit(v, (k + 8 - o) as u8)
        } else {
            byte_bit(old_b, k)
        },
{
    assert(byte_bit((old_b & (0xFFu8 >> o)) | (v << ((8 - o) as u8)), k) == if k < o {
        byte_bit(v, (k + 8 - o) as u8)
    } else {
        byte_bit(old_b, k)
    }) by (bit_vector)
        requires
            0 < o < 8,
            k < 8,
    ;
}

/// A write at byte `bo`, bit `o` that changes only bytes `bo` and `bo + 1`,
/// filling the tail of byte `bo` with the head of `value` and the head of
/// byte `bo + 1` (where there is one) with the tail of `value`, is a bit
/// write at position `8 * bo + o`.
proof fn lemma_bit_write_from_bytes(before: Seq<u8>, after: Seq<u8>, bo: int, o: u8, value: u8)
    requires
        after.len() == before.len(),
        0 <= bo < before.len(),
        o < 8,
        forall|j: int|
            0 <= j < before.len() && j != bo && j != bo + 1 ==> #[trigger] after[j] == before[j],
        forall|k: u8|
            k < 8 ==> #[trigger] byte_bit(after[bo], k) == if k < o {
                byte_bit(before[bo], k)
            } else {
                byte_bit(value, (k - o) as u8)
            },
        bo + 1 < before.len() ==> forall|k: u8|
            k < 8 ==> #[trigger] byte_bit(after[bo + 1], k) == if k < o {
                byte_bit(value, (k + 8 - o) as u8)
            } else {
                byte_bit(before[bo + 1], k)
            },
    ensures
        is_bit_write(before, after, 8 * bo + o, value),
{
    let pos = 8 * bo + o;
    assert forall|i: int|
        #![trigger stream_bit(after, i)]
        0 <= i < 8 * after.len() implies stream_bit(after, i) == if pos <= i < pos + 8 {
            byte_bit(value, (i - pos) as u8)
        } else {
            stream_bit(before, i)
        } by {
        if i / 8 != bo && i / 8 != bo + 1 {
            assert(after[i / 8] == before[i / 8]);
        }
    }
}

/// Write an 8-bit value at a bit-unaligned position (raw byte + bit offset).
///
/// The value's bits land at bit positions `8 * byte_offset + bit_offset` and
/// on; those past the end of `data` are dropped, and a `byte_offset` past the
/// end leaves `data` unchanged, whatever `bit_offset` is. Inside the buffer a
/// `bit_offset` of 8 or more would shift a byte by its width, so it is ruled out.
pub fn write_bits_u8(data: &mut [u8], byte_offset: usize, bit_offset: u8, value: u8)
    requires
        byte_offset < old(data)@.len() ==> bit_offset < 8,
    ensures
        is_bit_write(old(data)@, final(data)@, 8 * byte_offset + bit_offset, value),
        forall|j: int|
            0 <= j < old(data)@.len() && j != byte_offset && j != byte_offset + 1
                ==> #[trigger] final(data)@[j] == old(data)@[j],
{
    let ghost before = data@;
    if byte_offset >= data.len() {
        return;
    }
    if bit_offset == 0 {
        data[byte_offset] = value;
    } else if byte_offset + 1 < data.len() {
        let mask_high = 0xFFu8 << (8 - bit_offset);
        let mask_low = 0xFFu8 >> bit_offset;

        data[byte_offset] = (data[byte_offset] & mask_high) | (value >> bit_offset);
        data[byte_offset + 1] = (data[byte_offset + 1] & mask_low) | (value << (8 - bit_offset));
        assert forall|k: u8| k < 8 implies #[trigger] byte_bit(data@[byte_offset + 1], k) == if k
            < bit_offset {
            byte_bit(value, (k + 8 - bit_offset) as u8)
        } else {
            byte_bit(before[byte_offset + 1], k)
        } by {
            lemma_low_byte_bits(before[byte_offset + 1], value, bit_offset, k);
        }
    } else {
        let mask_high = 0xFFu8 << (8 - bit_offset);
        data[byte_offset] = (data[byte_offset] & mask_high) | (value >> bit_offset);
    }
    assert forall|k: u8| k < 8 implies #[trigger] byte_bit(data@[byte_offset as int], k) == if k
        < bit_offset {
        byte_bit(before[byte_offset as int], k)
    } else {
        byte_bit(value, (k - bit_offset) as u8)
    } by {
        if bit_offset != 0 {
            lemma_high_byte_bits(before[byte_offset as int], value, bit_offset, k);
        }
    }
    proof {
        lemma_bit_write_from_bytes(before, data@, byte_offset as int, bit_offset, value);
    }
}

/// The 8 bits at byte `byte_offset`, bit `bit_offset` of `s`, read the way
/// they are written: the low bits are zero where the buffer ends first.
pub open spec fn read_byte_at(s: Seq<u8>, byte_offset: int, bit_offset: u8) -> u8 {
    if bit_offset == 0 {
        s[byte_offset]
    } else if byte_offset + 1 < s.len() {
        (s[byte_offset] << bit_offset) | (s[byte_offset + 1] >> ((8 - bit_offset) as u8))
    } else {
        s[byte_offset] << bit_offset
    }
}

/// A write of 8 bits at `byte_offset`, `bit_offset` starts inside a buffer
/// of `len` bytes.
pub open spec fn write_starts_inside(len: int, byte_offset: int, bit_offset: u8) -> bool {
    &&& 0 <= byte_offset < len
    &&& bit_offset < 8
}

/// A write of 8 bits at `byte_offset`, `bit_offset` lies wholly inside a
/// buffer of `len` bytes.
pub open spec fn write_fits(len: int, byte_offset: int, bit_offset: u8) -> bool {
    &&& write_starts_inside(len, byte_offset, bit_offset)
    &&& (bit_offset == 0 || byte_offset + 1 < len)
}

/// What a read gives back at the place of a write of `value` that starts
/// inside a buffer of `len` bytes: the whole value where the write fits, and
/// otherwise only its leading bits, those that landed in the last byte.
pub open spec fn kept_bits(value: u8, len: int, byte_offset: int, bit_offset: u8) -> u8 {
    if write_fits(len, byte_offset, bit_offset) {
        value
    } else {
        value & (0xFFu8 << bit_offset)
    }
}

/// Two bytes with the same eight bits are equal.
proof fn lemma_byte_eq_from_bits(a: u8, b: u8)
    requires
        byte_bit(a, 0) == byte_bit(b, 0),
        byte_bit(a, 1) == byte_bit(b, 1),
        byte_bit(a, 2) == byte_bit(b, 2),
        byte_bit(a, 3) == byte_bit(b, 3),
        byte_bit(a, 4) == byte_bit(b, 4),
        byte_bit(a, 5) == byte_bit(b, 5),
        byte_bit(a, 6) == byte_bit(b, 6),
        byte_bit(a, 7) == byte_bit(b, 7),
    ensures
        a == b,
{
    assert(a == b) by (bit_vector)
        requires
            byte_bit(a, 0) == byte_bit(b, 0),
            byte_bit(a, 1) == byte_bit(b, 1),
            byte_bit(a, 2) == byte_bit(b, 2),
            byte_bit(a, 3) == byte_bit(b, 3),
            byte_bit(a, 4) == byte_bit(b, 4),
            byte_bit(a, 5) == byte_bit(b, 5),
            byte_bit(a, 6) == byte_bit(b, 6),
            byte_bit(a, 7) == byte_bit(b, 7),
    ;
}

/// Two buffers of one length that agree on every stream bit are equal.
proof fn lemma_seq_eq_from_stream_bits(a: Seq<u8>, b: Seq<u8>)
    requires
        a.len() == b.len(),
        forall|i: int| 0 <= i < 8 * a.len() ==> #[trigger] stream_bit(a, i) == stream_bit(b, i),
    ensures
        a == b,
{
    assert forall|j: int| 0 <= j < a.len() implies a[j] == b[j] by {
        assert(stream_bit(a, 8 * j + 0) == stream_bit(b, 8 * j + 0));
        assert(stream_bit(a, 8 * j + 1) == stream_bit(b, 8 * j + 1));
        assert(stream_bit(a, 8 * j + 2) == stream_bit(b, 8 * j + 2));
        assert(stream_bit(a, 8 * j + 3) == stream_bit(b, 8 * j + 3));
        assert(stream_bit(a, 8 * j + 4) == stream_bit(b, 8 * j + 4));
        assert(stream_bit(a, 8 * j + 5) == stream_bit(b, 8 * j + 5));
        assert(stream_bit(a, 8 * j + 6) == stream_bit(b, 8 * j + 6));
        assert(stream_bit(a, 8 * j + 7) == stream_bit(b, 8 * j + 7));
        lemma_byte_eq_from_bits(a[j], b[j]);
    }
    assert(a =~= b);
}

/// Bit `k` of a byte read across two bytes at offset `o`.
proof fn lemma_read_bits_split(x: u8, y: u8, o: u8, k: u8)
    requires
        0 < o < 8,
        k < 8,
    ensures
        byte_bit((x << o) | (y >> ((8 - o) as u8)), k) == if k + o < 8 {
            byte_bit(x, (k + o) as u8)
        } else {
            byte_bit(y, (k + o - 8) as u8)
        },
{
    assert(byte_bit((x << o) | (y >> ((8 - o) as u8)), k) == if k + o < 8 {
        byte_bit(x, (k + o) as u8)
    } else {
        byte_bit(y, (k + o - 8) as u8)
    }) by (bit_vector)
        requires
            0 < o < 8,
            k < 8,
    ;
}

/// Bit `k` of a byte read from the last byte at offset `o`: the byte's tail,
/// then zeros.
proof fn lemma_read_bits_tail(x: u8, o: u8, k: u8)
    requires
        o < 8,
        k < 8,
    ensures
        byte_bit(x << o, k) == (k + o < 8 && byte_bit(x, (k + o) as u8)),
{
    assert(byte_bit(x << o, k) == (k + o < 8 && byte_bit(x, (k + o) as u8))) by (bit_vector)
        requires
            o < 8,
            k < 8,
    ;
}

/// Bit `k` of `value` with its last `o` bits cleared.
proof fn lemma_kept_bits_tail(v: u8, o: u8, k: u8)
    requires
        o < 8,
        k < 8,
    ensures
        byte_bit(v & (0xFFu8 << o), k) == (k + o < 8 && byte_bit(v, k)),
{
    assert(byte_bit(v & (0xFFu8 << o), k) == (k + o < 8 && byte_bit(v, k))) by (bit_vector)
        requires
            o < 8,
            k < 8,
    ;
}

/// Where a write starts inside the buffer, bit `k` of what `read_byte_at`
/// returns is the stream bit `8 * byte_offset + bit_offset + k`, or zero past
/// the end of the buffer.
proof fn lemma_read_byte_at_bits(s: Seq<u8>, byte_offset: int, bit_offset: u8, k: u8)
    requires
        write_starts_inside(s.len() as int, byte_offset, bit_offset),
        k < 8,
    ensures
        byte_bit(read_byte_at(s, byte_offset, bit_offset), k) == (8 * byte_offset + bit_offset + k
            < 8 * s.len() && stream_bit(s, 8 * byte_offset + bit_offset + k)),
{
    let i = 8 * byte_offset + bit_offset + k;
    if bit_offset == 0 {
        assert(i / 8 == byte_offset && i % 8 == k);
    } else if byte_offset + 1 < s.len() {
        lemma_read_bits_split(s[byte_offset], s[byte_offset + 1], bit_offset, k);
        if k + bit_offset < 8 {
            assert(i / 8 == byte_offset && i % 8 == k + bit_offset);
        } else {
            assert(i / 8 == byte_offset + 1 && i % 8 == k + bit_offset - 8);
        }
    } else {
        lemma_read_bits_tail(s[byte_offset], bit_offset, k);
        if k + bit_offset < 8 {
            assert(i / 8 == byte_offset && i % 8 == k + bit_offset);
        }
    }
}

/// Bit `k` of `kept_bits`: the value's bit where it landed inside the buffer.
proof fn lemma_kept_bits_bits(value: u8, len: int, byte_offset: int, bit_offset: u8, k: u8)
    requires
        write_starts_inside(len, byte_offset, bit_offset),
        k < 8,
    ensures
        byte_bit(kept_bits(value, len, byte_offset, bit_offset), k) == (8 * byte_offset
            + bit_offset + k < 8 * len && byte_bit(value, k)),
{
    if !write_fits(len, byte_offset, bit_offset) {
        lemma_kept_bits_tail(value, bit_offset, k);
    }
}

/// Reading back where a write starts gives the value written, cut to the
/// bits that fit in the buffer.
pub proof fn lemma_read_after_write(
    before: Seq<u8>,
    after: Seq<u8>,
    byte_offset: int,
    bit_offset: u8,
    value: u8,
)
    requires
        write_starts_inside(before.len() as int, byte_offset, bit_offset),
        is_bit_write(before, after, 8 * byte_offset + bit_offset, value),
    ensures
        read_byte_at(after, byte_offset, bit_offset) == kept_bits(
            value,
            before.len() as int,
            byte_offset,
            bit_offset,
        ),
        write_fits(before.len() as int, byte_offset, bit_offset) ==> read_byte_at(
            after,
            byte_offset,
            bit_offset,
        ) == value,
{
    let r = read_byte_at(after, byte_offset, bit_offset);
    let kept = kept_bits(value, before.len() as int, byte_offset, bit_offset);
    let pos = 8 * byte_offset + bit_offset;
    assert forall|k: u8| k < 8 implies byte_bit(r, k) == byte_bit(kept, k) by {
        lemma_read_byte_at_bits(after, byte_offset, bit_offset, k);
        lemma_kept_bits_bits(value, before.len() as int, byte_offset, bit_offset, k);
        if pos + k < 8 * after.len() {
            assert(stream_bit(after, pos + k) == byte_bit(value, ((pos + k) - pos) as u8));
        }
    }
    lemma_byte_eq_from_bits(r, kept);
}

/// Writing back the value that is already there leaves the buffer unchanged.
pub proof fn lemma_write_back_read_is_identity(
    before: Seq<u8>,
    after: Seq<u8>,
    byte_offset: int,
    bit_offset: u8,
)
    requires
        write_starts_inside(before.len() as int, byte_offset, bit_offset),
        is_bit_write(
            before,
            after,
            8 * byte_offset + bit_offset,
            read_byte_at(before, byte_offset, bit_offset),
        ),
    ensures
        after == before,
{
    let pos = 8 * byte_offset + bit_offset;
    assert forall|i: int| 0 <= i < 8 * after.len() implies #[trigger] stream_bit(after, i)
        == stream_bit(before, i) by {
        if pos <= i < pos + 8 {
            let k = (i - pos) as u8;
            lemma_read_byte_at_bits(before, byte_offset, bit_offset, k);
        }
    }
    lemma_seq_eq_from_stream_bits(after, before);
}

/// A bit write has one outcome: the buffer, position and value determine it.
pub proof fn lemma_bit_write_unique(before: Seq<u8>, a: Seq<u8>, b: Seq<u8>, pos: int, value: u8)
    requires
        is_bit_write(before, a, pos, value),
        is_bit_write(before, b, pos, value),
    ensures
        a == b,
{
    assert forall|i: int| 0 <= i < 8 * a.len() implies #[trigger] stream_bit(a, i) == stream_bit(
        b,
        i,
    ) by {}
    lemma_seq_eq_from_stream_bits(a, b);
}

/// The last of two writes at one position wins.
pub proof fn lemma_second_write_wins(
    before: Seq<u8>,
    middle: Seq<u8>,
    after: Seq<u8>,
    pos: int,
    first: u8,
    second: u8,
)
    requires
        is_bit_write(before, middle, pos, first),
        is_bit_write(middle, after, pos, second),
    ensures
        is_bit_write(before, after, pos, second),
{
    assert forall|i: int| #![trigger stream_bit(after, i)] 0 <= i < 8 * after.len() implies stream_bit(after, i)
        == if pos <= i < pos + 8 {
        byte_bit(second, (i - pos) as u8)
    } else {
        stream_bit(before, i)
    } by {}
}

/// A zero-step adjustment keeps the gain.
pub proof fn lemma_adjust_zero_steps(current: u8)
    ensures
        clamped_gain(current as int, 0) == current,
{
}

/// The adjusted gain never decreases as the step count grows.
pub proof fn lemma_adjust_monotone(current: u8, steps_a: int, steps_b: int)
    requires
        steps_a <= steps_b,
    ensures
        clamped_gain(current as int, steps_a) <= clamped_gain(current as int, steps_b),
{
}

/// Undoing an adjustment that did not saturate restores the gain.
pub proof fn lemma_adjust_round_trip(current: u8, steps: int)
    requires
        0 <= current + steps <= GAIN_MAX,
    ensures
        clamped_gain(clamped_gain(current as int, steps), -steps) == current,
{
}

/// Two adjustments equal one adjustment by their sum when the steps have the
/// same sign, or when the first does not saturate.
pub proof fn lemma_adjust_compose(current: u8, first: int, second: int)
    requires
        (first >= 0 && second >= 0) || (first <= 0 && second <= 0) || 0 <= current + first
            <= GAIN_MAX,
    ensures
        clamped_gain(clamped_gain(current as int, first), second) == clamped_gain(
            current as int,
            first + second,
        ),
{
}

} // verus!
