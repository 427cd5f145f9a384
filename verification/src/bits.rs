//! Registers as byte arrays: reading and writing bit ranges, and the
//! history of versions a register keeps, one per committed cycle.
use vstd::prelude::*;

verus! {

/// Bit `j` (0 = least significant) of a byte.
pub open spec fn u8_bit(b: u8, j: int) -> bool {
    (b >> (j as u8)) & 1u8 == 1u8
}

/// Bit `i` (0 = least significant) of a 64-bit value in two's complement.
pub open spec fn i64_bit(x: i64, i: int) -> bool {
    (x >> (i as u64)) & 1i64 == 1i64
}

/// Bit `pos` of a register's byte storage: bit `pos % 8` of byte `pos / 8`.
/// Positions past the end of the storage read as 0.
pub open spec fn storage_bit(data: Seq<u8>, pos: int) -> bool {
    0 <= pos && pos < data.len() * 8 && u8_bit(data[pos / 8], pos % 8)
}

/// The number of bits a read of `len` bits actually yields: at most 64.
pub open spec fn read_width(len: int) -> nat {
    if len < 64 {
        if len < 0 { 0 } else { len as nat }
    } else {
        64
    }
}

/// The value made of the first `k` storage bits starting at `offset`:
/// storage bit `offset + i` becomes bit `i` of the value.
pub open spec fn bits_value(data: Seq<u8>, offset: int, k: nat) -> i64
    decreases k,
{
    if k == 0 {
        0
    } else {
        let prev = bits_value(data, offset, (k - 1) as nat);
        if storage_bit(data, offset + k - 1) {
            prev | (1i64 << ((k - 1) as u64))
        } else {
            prev
        }
    }
}

/// What a read of `len` bits at bit `offset` gives: the first `min(len, 64)` bits.
pub open spec fn reg_read(data: Seq<u8>, offset: int, len: int) -> i64 {
    bits_value(data, offset, read_width(len))
}

/// The mask of the `n` lowest bits (all bits when `n >= 64`).
pub open spec fn low_mask(n: int) -> i64 {
    if n >= 64 {
        -1i64
    } else if n <= 0 {
        0i64
    } else {
        ((1i64 << (n as u64)) - 1) as i64
    }
}

/// Storage bit `pos` after `len` bits of `v` were written at bit `offset`:
/// bit `pos - offset` of `v` inside the written range (0 past bit 63 of `v`),
/// the old bit elsewhere.
pub open spec fn written_bit(old: Seq<u8>, offset: int, len: int, v: i64, pos: int) -> bool {
    if offset <= pos < offset + len {
        pos - offset < 64 && i64_bit(v, pos - offset)
    } else {
        storage_bit(old, pos)
    }
}

pub open spec fn bit_as_byte(b: bool, j: u8) -> u8 {
    if b { 1u8 << j } else { 0u8 }
}

/// The byte made of eight bits, bit 0 first.
pub open spec fn byte_of_bits(
    b0: bool, b1: bool, b2: bool, b3: bool, b4: bool, b5: bool, b6: bool, b7: bool,
) -> u8 {
    bit_as_byte(b0, 0) | bit_as_byte(b1, 1) | bit_as_byte(b2, 2) | bit_as_byte(b3, 3)
        | bit_as_byte(b4, 4) | bit_as_byte(b5, 5) | bit_as_byte(b6, 6) | bit_as_byte(b7, 7)
}

/// The number of bytes of storage after a write: the old length, grown to
/// cover the last written bit.
pub open spec fn write_size(old_len: int, offset: int, len: int) -> int {
    let need = (offset + len + 7) / 8;
    if old_len < need { need } else { old_len }
}

/// The storage after writing `len` bits of `v` at bit `offset`.
pub open spec fn reg_write(old: Seq<u8>, offset: int, len: int, v: i64) -> Seq<u8> {
    Seq::new(
        write_size(old.len() as int, offset, len) as nat,
        |idx: int|
            byte_of_bits(
                written_bit(old, offset, len, v, idx * 8),
                written_bit(old, offset, len, v, idx * 8 + 1),
                written_bit(old, offset, len, v, idx * 8 + 2),
                written_bit(old, offset, len, v, idx * 8 + 3),
                written_bit(old, offset, len, v, idx * 8 + 4),
                written_bit(old, offset, len, v, idx * 8 + 5),
                written_bit(old, offset, len, v, idx * 8 + 6),
                written_bit(old, offset, len, v, idx * 8 + 7),
            ),
    )
}

// ---------------------------------------------------------------------------
// Bit-level facts

proof fn lemma_u8_mask_test(b: u8, j: u8)
    requires
        j < 8,
    ensures
        (b & (1u8 << j) != 0) == u8_bit(b, j as int),
{
    assert((b & (1u8 << j) != 0) == ((b >> j) & 1u8 == 1u8)) by (bit_vector)
        requires
            j < 8,
    ;
}

proof fn lemma_i64_mask_test(x: i64, i: u64)
    requires
        i < 64,
    ensures
        (x & (1i64 << i) != 0) == i64_bit(x, i as int),
{
    assert((x & (1i64 << i) != 0) == ((x >> i) & 1i64 == 1i64)) by (bit_vector)
        requires
            i < 64,
    ;
}

proof fn lemma_i64_zero_bit(i: u64)
    requires
        i < 64,
    ensures
        !i64_bit(0i64, i as int),
{
    assert(!((0i64 >> i) & 1i64 == 1i64)) by (bit_vector)
        requires
            i < 64,
    ;
}

proof fn lemma_i64_or_bit(x: i64, j: u64, i: u64)
    requires
        i < 64,
        j < 64,
    ensures
        i64_bit(x | (1i64 << j), i as int) == (i == j || i64_bit(x, i as int)),
{
    assert((((x | (1i64 << j)) >> i) & 1i64 == 1i64) == (i == j || ((x >> i) & 1i64 == 1i64)))
        by (bit_vector)
        requires
            i < 64,
            j < 64,
    ;
}

proof fn lemma_u8_set_bit(b: u8, j: u8, k: u8)
    requires
        j < 8,
        k < 8,
    ensures
        u8_bit(b | (1u8 << j), k as int) == (k == j || u8_bit(b, k as int)),
        u8_bit(b & !(1u8 << j), k as int) == (k != j && u8_bit(b, k as int)),
{
    assert((((b | (1u8 << j)) >> k) & 1u8 == 1u8) == (k == j || ((b >> k) & 1u8 == 1u8)))
        by (bit_vector)
        requires
            j < 8,
            k < 8,
    ;
    assert((((b & !(1u8 << j)) >> k) & 1u8 == 1u8) == (k != j && ((b >> k) & 1u8 == 1u8)))
        by (bit_vector)
        requires
            j < 8,
            k < 8,
    ;
}

proof fn lemma_u8_zero_bit(k: u8)
    requires
        k < 8,
    ensures
        !u8_bit(0u8, k as int),
{
    assert(!((0u8 >> k) & 1u8 == 1u8)) by (bit_vector)
        requires
            k < 8,
    ;
}

/// Two bytes with the same eight bits are equal.
proof fn lemma_byte_eq(a: u8, b: u8)
    requires
        u8_bit(a, 0) == u8_bit(b, 0),
        u8_bit(a, 1) == u8_bit(b, 1),
        u8_bit(a, 2) == u8_bit(b, 2),
        u8_bit(a, 3) == u8_bit(b, 3),
        u8_bit(a, 4) == u8_bit(b, 4),
        u8_bit(a, 5) == u8_bit(b, 5),
        u8_bit(a, 6) == u8_bit(b, 6),
        u8_bit(a, 7) == u8_bit(b, 7),
    ensures
        a == b,
{
    assert(a == b) by (bit_vector)
        requires
            ((a >> 0u8) & 1u8 == 1u8) == ((b >> 0u8) & 1u8 == 1u8),
            ((a >> 1u8) & 1u8 == 1u8) == ((b >> 1u8) & 1u8 == 1u8),
            ((a >> 2u8) & 1u8 == 1u8) == ((b >> 2u8) & 1u8 == 1u8),
            ((a >> 3u8) & 1u8 == 1u8) == ((b >> 3u8) & 1u8 == 1u8),
            ((a >> 4u8) & 1u8 == 1u8) == ((b >> 4u8) & 1u8 == 1u8),
            ((a >> 5u8) & 1u8 == 1u8) == ((b >> 5u8) & 1u8 == 1u8),
            ((a >> 6u8) & 1u8 == 1u8) == ((b >> 6u8) & 1u8 == 1u8),
            ((a >> 7u8) & 1u8 == 1u8) == ((b >> 7u8) & 1u8 == 1u8),
    ;
}

/// The bits of a byte assembled from eight bits are those bits.
proof fn lemma_byte_of_bits(
    b0: bool, b1: bool, b2: bool, b3: bool, b4: bool, b5: bool, b6: bool, b7: bool,
)
    ensures
        u8_bit(byte_of_bits(b0, b1, b2, b3, b4, b5, b6, b7), 0) == b0,
        u8_bit(byte_of_bits(b0, b1, b2, b3, b4, b5, b6, b7), 1) == b1,
        u8_bit(byte_of_bits(b0, b1, b2, b3, b4, b5, b6, b7), 2) == b2,
        u8_bit(byte_of_bits(b0, b1, b2, b3, b4, b5, b6, b7), 3) == b3,
        u8_bit(byte_of_bits(b0, b1, b2, b3, b4, b5, b6, b7), 4) == b4,
        u8_bit(byte_of_bits(b0, b1, b2, b3, b4, b5, b6, b7), 5) == b5,
        u8_bit(byte_of_bits(b0, b1, b2, b3, b4, b5, b6, b7), 6) == b6,
        u8_bit(byte_of_bits(b0, b1, b2, b3, b4, b5, b6, b7), 7) == b7,
{
    let x = byte_of_bits(b0, b1, b2, b3, b4, b5, b6, b7);
    assert(
        ((x >> 0u8) & 1u8 == 1u8) == b0 && ((x >> 1u8) & 1u8 == 1u8) == b1
        && ((x >> 2u8) & 1u8 == 1u8) == b2 && ((x >> 3u8) & 1u8 == 1u8) == b3
        && ((x >> 4u8) & 1u8 == 1u8) == b4 && ((x >> 5u8) & 1u8 == 1u8) == b5
        && ((x >> 6u8) & 1u8 == 1u8) == b6 && ((x >> 7u8) & 1u8 == 1u8) == b7
    ) by (bit_vector)
        requires
            x == (if b0 { 1u8 << 0u8 } else { 0u8 }) | (if b1 { 1u8 << 1u8 } else { 0u8 })
                | (if b2 { 1u8 << 2u8 } else { 0u8 }) | (if b3 { 1u8 << 3u8 } else { 0u8 })
                | (if b4 { 1u8 << 4u8 } else { 0u8 }) | (if b5 { 1u8 << 5u8 } else { 0u8 })
                | (if b6 { 1u8 << 6u8 } else { 0u8 }) | (if b7 { 1u8 << 7u8 } else { 0u8 }),
    ;
}


/// Bit `i` of `bits_value(data, offset, k)` is storage bit `offset + i` for `i < k`, else 0.
pub proof fn lemma_bits_value_bit(data: Seq<u8>, offset: int, k: nat, i: int)
    requires
        k <= 64,
        0 <= i < 64,
    ensures
        i64_bit(bits_value(data, offset, k), i) == (i < k && storage_bit(data, offset + i)),
    decreases k,
{
    if k == 0 {
        lemma_i64_zero_bit(i as u64);
    } else {
        lemma_bits_value_bit(data, offset, (k - 1) as nat, i);
        if storage_bit(data, offset + k - 1) {
            lemma_i64_or_bit(bits_value(data, offset, (k - 1) as nat), (k - 1) as u64, i as u64);
        }
    }
}

/// Read `len` bits from a byte array starting at bit `offset`, as a 64-bit value:
/// storage bit `offset + i` becomes bit `i` of the result, for `i < min(len, 64)`;
/// the other bits of the result are 0, and storage past the end reads as 0.
pub fn read_reg_bits(data: &[u8], offset: usize, len: usize) -> (r: i64)
    requires
        offset + read_width(len as int) <= usize::MAX,
    ensures
        r == reg_read(data@, offset as int, len as int),
        forall|i: int| 0 <= i < 64 ==> #[trigger] i64_bit(r, i) == (i < len && storage_bit(data@, offset + i)),
{
    let n: usize = if len < 64 { len } else { 64 };
    let mut result: i64 = 0;
    let mut i: usize = 0;
    while i < n
        invariant
            n == read_width(len as int),
            i <= n,
            offset + n <= usize::MAX,
            result == bits_value(data@, offset as int, i as nat),
        decreases n - i,
    {
        let bit_pos = offset + i;
        let byte_idx = bit_pos / 8;
        let bit_idx = bit_pos % 8;
        let set = byte_idx < data.len() && data[byte_idx] & (1u8 << (bit_idx as u8)) != 0;
        proof {
            if byte_idx < data.len() {
                lemma_u8_mask_test(data@[byte_idx as int], bit_idx as u8);
            }
            assert(set == storage_bit(data@, offset + i));
        }
        if set {
            result = result | (1i64 << (i as u64));
        }
        i = i + 1;
    }
    proof {
        assert forall|j: int| 0 <= j < 64 implies #[trigger] i64_bit(result, j) == (j < len && storage_bit(data@, offset + j)) by {
            lemma_bits_value_bit(data@, offset as int, n as nat, j);
        }
    }
    result
}

proof fn lemma_div_mod8(idx: int, j: int)
    requires
        0 <= j < 8,
    ensures
        (idx * 8 + j) / 8 == idx,
        (idx * 8 + j) % 8 == j,
{
}

/// Storage bit `pos` of a byte sequence, read through the byte that holds it.
proof fn lemma_storage_bit_in_byte(data: Seq<u8>, idx: int, j: int)
    requires
        0 <= idx < data.len(),
        0 <= j < 8,
    ensures
        storage_bit(data, idx * 8 + j) == u8_bit(data[idx], j),
{
    lemma_div_mod8(idx, j);
}

/// Every storage bit after a write is the written bit.
pub proof fn lemma_reg_write_bit(old: Seq<u8>, offset: int, len: int, v: i64, pos: int)
    requires
        0 <= offset,
        0 <= len,
        0 <= pos,
    ensures
        storage_bit(reg_write(old, offset, len, v), pos) == written_bit(old, offset, len, v, pos),
{
    let new = reg_write(old, offset, len, v);
    let idx = pos / 8;
    let j = pos % 8;
    assert(pos == idx * 8 + j);
    if idx < new.len() {
        lemma_storage_bit_in_byte(new, idx, j);
        lemma_byte_of_bits(
            written_bit(old, offset, len, v, idx * 8),
            written_bit(old, offset, len, v, idx * 8 + 1),
            written_bit(old, offset, len, v, idx * 8 + 2),
            written_bit(old, offset, len, v, idx * 8 + 3),
            written_bit(old, offset, len, v, idx * 8 + 4),
            written_bit(old, offset, len, v, idx * 8 + 5),
            written_bit(old, offset, len, v, idx * 8 + 6),
            written_bit(old, offset, len, v, idx * 8 + 7),
        );
        assert(j == 0 || j == 1 || j == 2 || j == 3 || j == 4 || j == 5 || j == 6 || j == 7);
    } else {
        assert(pos >= offset + len);
        assert(pos >= old.len() * 8);
    }
}

/// Write `len` bits of `value` into a byte array at bit `offset`, growing the
/// array with zero bytes to cover the last written bit. Bit `i` of `value`
/// lands on storage bit `offset + i`; written bits past bit 63 of `value` are 0.
pub fn write_reg_bits(data: &mut Vec<u8>, offset: usize, len: usize, value: i64)
    requires
        offset + len + 7 <= usize::MAX,
    ensures
        final(data)@ == reg_write(old(data)@, offset as int, len as int, value),
        forall|pos: int| 0 <= pos ==> #[trigger] storage_bit(final(data)@, pos) == written_bit(old(data)@, offset as int, len as int, value, pos),
{
    let ghost old_data = data@;
    let max_byte = (offset + len + 7) / 8;
    if data.len() < max_byte {
        data.resize(max_byte, 0);
    }
    assert forall|p: int| 0 <= p implies #[trigger] storage_bit(data@, p) == storage_bit(old_data, p) by {
        if p < data@.len() * 8 {
            let idx = p / 8;
            if idx >= old_data.len() {
                assert(data@[idx] == 0u8);
                lemma_u8_zero_bit((p % 8) as u8);
            } else {
                assert(data@[idx] == old_data[idx]);
            }
        }
    }
    let mut i: usize = 0;
    while i < len
        invariant
            i <= len,
            offset + len + 7 <= usize::MAX,
            data@.len() == write_size(old_data.len() as int, offset as int, len as int),
            forall|p: int| 0 <= p ==> #[trigger] storage_bit(data@, p) == written_bit(old_data, offset as int, i as int, value, p),
        decreases len - i,
    {
        let bit_pos = offset + i;
        let byte_idx = bit_pos / 8;
        let bit_idx = bit_pos % 8;
        let ghost before = data@;
        let set = i < 64 && value & (1i64 << (i as u64)) != 0;
        proof {
            if i < 64 {
                lemma_i64_mask_test(value, i as u64);
            }
        }
        let mask: u8 = 1u8 << (bit_idx as u8);
        if set {
            data[byte_idx] = data[byte_idx] | mask;
        } else {
            data[byte_idx] = data[byte_idx] & !mask;
        }
        proof {
            assert forall|p: int| 0 <= p implies #[trigger] storage_bit(data@, p) == written_bit(old_data, offset as int, (i + 1) as int, value, p) by {
                let q = p / 8;
                let k = p % 8;
                assert(p == q * 8 + k);
                if q == byte_idx as int {
                    lemma_storage_bit_in_byte(data@, q, k);
                    lemma_storage_bit_in_byte(before, q, k);
                    lemma_u8_set_bit(before[q], bit_idx as u8, k as u8);
                    assert(storage_bit(before, p) == written_bit(old_data, offset as int, i as int, value, p));
                } else {
                    assert(storage_bit(before, p) == written_bit(old_data, offset as int, i as int, value, p));
                    if q < data@.len() {
                        assert(data@[q] == before[q]);
                    }
                }
            }
        }
        i = i + 1;
    }
    proof {
        let target = reg_write(old_data, offset as int, len as int, value);
        assert forall|idx: int| 0 <= idx < data@.len() implies data@[idx] == target[idx] by {
            assert forall|j: int| 0 <= j < 8 implies u8_bit(data@[idx], j) == u8_bit(target[idx], j) by {
                lemma_storage_bit_in_byte(data@, idx, j);
                lemma_storage_bit_in_byte(target, idx, j);
                lemma_reg_write_bit(old_data, offset as int, len as int, value, idx * 8 + j);
            }
            lemma_byte_eq(data@[idx], target[idx]);
        }
        assert(data@ =~= target);
        assert forall|pos: int| 0 <= pos implies #[trigger] storage_bit(data@, pos) == written_bit(old_data, offset as int, len as int, value, pos) by {
            lemma_reg_write_bit(old_data, offset as int, len as int, value, pos);
        }
    }
}

/// `bits_value` only looks at the `k` storage bits from `offset` on.
proof fn lemma_bits_value_congruent(a: Seq<u8>, b: Seq<u8>, off: int, k: nat)
    requires
        forall|p: int| off <= p < off + k ==> #[trigger] storage_bit(a, p) == storage_bit(b, p),
    ensures
        bits_value(a, off, k) == bits_value(b, off, k),
    decreases k,
{
    if k > 0 {
        lemma_bits_value_congruent(a, b, off, (k - 1) as nat);
        assert(storage_bit(a, off + k - 1) == storage_bit(b, off + k - 1));
    }
}

proof fn lemma_mask_step(v: i64, k: u64)
    requires
        1 <= k <= 64,
    ensures
        ((v & low_mask(k - 1)) | (if i64_bit(v, k - 1) { 1i64 << ((k - 1) as u64) } else { 0i64 }))
            == v & low_mask(k as int),
{
    let km1: u64 = (k - 1) as u64;
    if k == 64 {
        assert(((v & (((1i64 << km1) - 1) as i64)) | (if (v >> km1) & 1i64 == 1i64 { 1i64 << km1 } else { 0i64 })) == v & -1i64)
            by (bit_vector)
            requires
                km1 == 63,
        ;
    } else if k == 1 {
        assert(((v & 0i64) | (if (v >> km1) & 1i64 == 1i64 { 1i64 << km1 } else { 0i64 })) == v & (((1i64 << k) - 1) as i64))
            by (bit_vector)
            requires
                km1 == 0,
                k == 1,
        ;
    } else {
        assert(((v & (((1i64 << km1) - 1) as i64)) | (if (v >> km1) & 1i64 == 1i64 { 1i64 << km1 } else { 0i64 })) == v & (((1i64 << k) - 1) as i64))
            by (bit_vector)
            requires
                2 <= k < 64,
                km1 + 1 == k,
        ;
    }
}

proof fn lemma_bits_value_of_written(old: Seq<u8>, offset: int, len: int, v: i64, k: nat)
    requires
        0 <= offset,
        k <= len,
        k <= 64,
    ensures
        bits_value(reg_write(old, offset, len, v), offset, k) == v & low_mask(k as int),
    decreases k,
{
    if k == 0 {
        assert(v & 0i64 == 0i64) by (bit_vector);
    } else {
        lemma_bits_value_of_written(old, offset, len, v, (k - 1) as nat);
        lemma_reg_write_bit(old, offset, len, v, offset + k - 1);
        lemma_mask_step(v, k as u64);
        let prev = v & low_mask(k - 1);
        assert(prev | 0i64 == prev) by (bit_vector);
    }
}

/// Law: a read of the bits just written gives back the written value,
/// cut to the written width (all 64 bits when `len >= 64`).
pub proof fn lemma_read_after_write(old: Seq<u8>, offset: int, len: int, v: i64)
    requires
        0 <= offset,
        0 <= len,
    ensures
        reg_read(reg_write(old, offset, len, v), offset, len) == v & low_mask(len),
{
    lemma_bits_value_of_written(old, offset, len, v, read_width(len));
    if len > 64 {
        assert(low_mask(len) == low_mask(64));
    }
}

/// Law: a write leaves every read of a bit range it does not touch unchanged.
pub proof fn lemma_read_other_bits(old: Seq<u8>, offset: int, len: int, v: i64, roff: int, rlen: int)
    requires
        0 <= offset,
        0 <= len,
        0 <= roff,
        roff + read_width(rlen) <= offset || offset + len <= roff,
    ensures
        reg_read(reg_write(old, offset, len, v), roff, rlen) == reg_read(old, roff, rlen),
{
    let new = reg_write(old, offset, len, v);
    assert forall|p: int| roff <= p < roff + read_width(rlen) implies #[trigger] storage_bit(new, p) == storage_bit(old, p) by {
        lemma_reg_write_bit(old, offset, len, v, p);
    }
    lemma_bits_value_congruent(new, old, roff, read_width(rlen));
}

// ---------------------------------------------------------------------------
// Register history

/// A register's history as values: (commit cycle, storage) pairs.
pub open spec fn history_view(versions: Seq<(usize, Vec<u8>)>) -> Seq<(usize, Seq<u8>)> {
    versions.map_values(|e: (usize, Vec<u8>)| (e.0, e.1@))
}

/// The storage a register holds at `cycle`: that of the last listed version
/// committed at or before `cycle`; empty storage when there is none.
pub open spec fn version_at(versions: Seq<(usize, Seq<u8>)>, cycle: int) -> Seq<u8>
    decreases versions.len(),
{
    if versions.len() == 0 {
        Seq::empty()
    } else if versions.last().0 <= cycle {
        versions.last().1
    } else {
        version_at(versions.drop_last(), cycle)
    }
}

/// The storage of the register at `cycle`: that of the last listed version
/// committed at or before `cycle`, or empty storage when there is none.
/// (With versions listed in order of commit cycle, this is the version a
/// binary search for the partition point finds.)
pub fn read_reg_at_cycle(versions: &[(usize, Vec<u8>)], cycle: usize) -> (r: &[u8])
    ensures
        r@ == version_at(history_view(versions@), cycle as int),
{
    let ghost h = history_view(versions@);
    let mut k: usize = versions.len();
    assert(h.subrange(0, k as int) =~= h);
    while k > 0
        invariant
            k <= versions@.len(),
            h == history_view(versions@),
            version_at(h, cycle as int) == version_at(h.subrange(0, k as int), cycle as int),
        decreases k,
    {
        assert(h.subrange(0, k as int).drop_last() =~= h.subrange(0, k - 1));
        if versions[k - 1].0 <= cycle {
            return versions[k - 1].1.as_slice();
        }
        k = k - 1;
    }
    assert(h.subrange(0, 0).len() == 0);
    let empty: &[u8] = &[];
    assert(empty@ =~= Seq::<u8>::empty());
    empty
}


/// Law (a repeated write changes nothing): writing the same bits of the same
/// value at the same place a second time leaves the storage as the first
/// write left it.
pub proof fn lemma_write_twice(old: Seq<u8>, offset: int, len: int, v: i64)
    requires
        0 <= offset,
        0 <= len,
    ensures
        reg_write(reg_write(old, offset, len, v), offset, len, v) == reg_write(old, offset, len, v),
{
    let d1 = reg_write(old, offset, len, v);
    let d2 = reg_write(d1, offset, len, v);
    assert forall|pos: int| 0 <= pos implies #[trigger] written_bit(d1, offset, len, v, pos) == written_bit(old, offset, len, v, pos) by {
        lemma_reg_write_bit(old, offset, len, v, pos);
    }
    assert forall|idx: int| 0 <= idx < d2.len() implies d2[idx] == d1[idx] by {
        assert(written_bit(d1, offset, len, v, idx * 8) == written_bit(old, offset, len, v, idx * 8));
        assert(written_bit(d1, offset, len, v, idx * 8 + 1) == written_bit(old, offset, len, v, idx * 8 + 1));
        assert(written_bit(d1, offset, len, v, idx * 8 + 2) == written_bit(old, offset, len, v, idx * 8 + 2));
        assert(written_bit(d1, offset, len, v, idx * 8 + 3) == written_bit(old, offset, len, v, idx * 8 + 3));
        assert(written_bit(d1, offset, len, v, idx * 8 + 4) == written_bit(old, offset, len, v, idx * 8 + 4));
        assert(written_bit(d1, offset, len, v, idx * 8 + 5) == written_bit(old, offset, len, v, idx * 8 + 5));
        assert(written_bit(d1, offset, len, v, idx * 8 + 6) == written_bit(old, offset, len, v, idx * 8 + 6));
        assert(written_bit(d1, offset, len, v, idx * 8 + 7) == written_bit(old, offset, len, v, idx * 8 + 7));
    }
    assert(d2 =~= d1);
}
} // verus!
