//! Where the bytes of an access come to stand.

use crate::bytes::le64;
use crate::memory_search::expand::{
    at_least_one, byte128, byte64, expanded, interleaved, lane_bytes, lane_slots, later_slots,
    op_ok, scalar_bytes, scalar_or_pair, unknown_bytes, unknown_slots, wide_bytes, ByteValue,
};
use crate::types::{MemLayout, MemOp};
use vstd::prelude::*;

verus! {

/// The byte has that value, or is unknown.
pub open spec fn is_byte(b: ByteValue, value: Option<u8>) -> bool {
    match value {
        Some(v) => b.known && b.value == v,
        None => !b.known,
    }
}

/// Byte `o` of a number in memory, the lowest first.
pub open spec fn number_byte(v: Option<u64>, o: int) -> Option<u8> {
    match v {
        Some(v) => Some(le64(v)[o]),
        None => None,
    }
}

/// Byte `o` of a vector register in memory, the lowest first.
pub open spec fn vector_byte(v: Option<u128>, o: int) -> Option<u8> {
    match v {
        Some(v) => if o < 8 {
            Some(le64(v as u64)[o])
        } else if o < 16 {
            Some(le64((v >> 64u128) as u64)[o - 8])
        } else {
            None
        },
        None => None,
    }
}

/// Bytes of one register of a scalar access or a pair.
pub open spec fn register_width(op: MemOp) -> int {
    if op.elem_width <= 8 {
        op.elem_width as int
    } else {
        16
    }
}

/// Byte `o` of register `r` of a scalar access or a pair: two are shown.
pub open spec fn register_byte(op: MemOp, r: int, o: int) -> Option<u8> {
    if r == 0 {
        if op.elem_width <= 8 {
            number_byte(op.value, o)
        } else if o < 8 {
            number_byte(op.value_lo, o)
        } else {
            number_byte(op.value_hi, o - 8)
        }
    } else if r == 1 {
        if op.elem_width <= 8 {
            number_byte(op.value2, o)
        } else if o < 8 {
            number_byte(op.value2_lo, o)
        } else {
            number_byte(op.value2_hi, o - 8)
        }
    } else {
        None
    }
}

proof fn lemma_byte64(v: u64, i: int)
    requires
        0 <= i < 8,
    ensures
        byte64(v, i) == le64(v)[i],
{
    assert(v >> 0u64 == v) by (bit_vector);
}

proof fn lemma_byte128(v: u128, i: int)
    requires
        0 <= i < 16,
    ensures
        Some(byte128(v, i)) == vector_byte(Some(v), i),
{
    let low = v as u64;
    let high = (v >> 64u128) as u64;
    if i < 8 {
        let s = (8 * i) as u64;
        let t = (8 * i) as u128;
        assert(((v >> t) & 0xff) as u8 == ((low >> s) & 0xff) as u8) by (bit_vector)
            requires
                s <= 56,
                t == s as u128,
                low == v as u64,
        ;
        lemma_byte64(low, i);
    } else {
        let s = (8 * (i - 8)) as u64;
        let t = (8 * i) as u128;
        assert(((v >> t) & 0xff) as u8 == ((high >> s) & 0xff) as u8) by (bit_vector)
            requires
                s <= 56,
                t == (s as u128) + 64,
                high == (v >> 64u128) as u64,
        ;
        lemma_byte64(high, i - 8);
    }
}

proof fn lemma_scalar(width: int, value: Option<u64>, o: int)
    requires
        0 <= o < width <= 8,
    ensures
        scalar_bytes(width, value).len() == width,
        is_byte(scalar_bytes(width, value)[o], number_byte(value, o)),
{
    if let Some(v) = value {
        lemma_byte64(v, o);
    }
}

proof fn lemma_wide(low: Option<u64>, high: Option<u64>, o: int)
    requires
        0 <= o < 16,
    ensures
        wide_bytes(low, high).len() == 16,
        is_byte(
            wide_bytes(low, high)[o],
            if o < 8 {
                number_byte(low, o)
            } else {
                number_byte(high, o - 8)
            },
        ),
{
    if o < 8 {
        lemma_scalar(8, low, o);
    } else {
        lemma_scalar(8, high, o - 8);
    }
}

proof fn lemma_later_len(op: MemOp, n: int)
    requires
        1 <= n,
    ensures
        later_slots(op, n).len() == (n - 1) * register_width(op),
    decreases n,
{
    if n > 1 {
        lemma_later_len(op, n - 1);
        let w = register_width(op);
        assert((n - 1) * w == (n - 2) * w + w) by (nonlinear_arith);
    } else {
        assert(0 * register_width(op) == 0);
    }
}

proof fn lemma_later(op: MemOp, n: int, r: int, o: int)
    requires
        1 <= r < n,
        0 <= o < register_width(op),
    ensures
        (r - 1) * register_width(op) + o < later_slots(op, n).len(),
        0 <= (r - 1) * register_width(op) + o,
        is_byte(later_slots(op, n)[(r - 1) * register_width(op) + o], register_byte(op, r, o)),
    decreases n,
{
    let w = register_width(op);
    lemma_later_len(op, n);
    lemma_later_len(op, n - 1);
    assert(0 <= (r - 1) * w) by (nonlinear_arith)
        requires
            1 <= r,
            0 <= w,
    ;
    assert((r - 1) * w + w <= (n - 1) * w) by (nonlinear_arith)
        requires
            r < n,
            0 <= w,
    ;
    if r < n - 1 {
        lemma_later(op, n - 1, r, o);
    } else {
        assert((r - 1) * w == (n - 2) * w);
        if r == 1 {
            if op.elem_width <= 8 {
                lemma_scalar(op.elem_width as int, op.value2, o);
            } else {
                lemma_wide(op.value2_lo, op.value2_hi, o);
            }
        }
    }
}

/// A scalar access or a pair covers its registers one after the other, each in
/// memory order; what the trace does not show is unknown. So does an exclusive
/// store that succeeded.
pub proof fn law_registers_follow_each_other(op: MemOp, r: int, o: int)
    requires
        op.layout == MemLayout::Scalar || op.layout == MemLayout::Pair || (op.exclusive_status
            == Some(0u64) && (op.layout == MemLayout::ExclusiveScalar || op.layout
            == MemLayout::ExclusivePair)),
        0 <= r < op.value_count || r == 0,
        0 <= o < register_width(op),
    ensures
        expanded(op).len() == register_width(op) * at_least_one(op.value_count),
        0 <= r * register_width(op) + o < expanded(op).len(),
        is_byte(expanded(op)[r * register_width(op) + o], register_byte(op, r, o)),
{
    let w = register_width(op);
    let n = at_least_one(op.value_count);
    let all = scalar_or_pair(op);
    assert(expanded(op) == all);
    if op.value_count >= 1 {
        lemma_later_len(op, op.value_count as int);
    }
    if op.elem_width <= 8 {
        assert(scalar_bytes(op.elem_width as int, op.value).len() == w);
    }
    assert(w * n == w + (n - 1) * w) by (nonlinear_arith);
    assert(0 <= r * w && r * w + w <= n * w) by (nonlinear_arith)
        requires
            0 <= r < n,
            0 <= w,
    ;
    assert(w * n == n * w) by (nonlinear_arith);
    if r == 0 {
        assert(0 * w == 0);
        if op.elem_width <= 8 {
            lemma_scalar(op.elem_width as int, op.value, o);
        } else {
            lemma_wide(op.value_lo, op.value_hi, o);
        }
    } else {
        lemma_later(op, op.value_count as int, r, o);
        assert(r * w == w + (r - 1) * w) by (nonlinear_arith);
    }
}

proof fn lemma_unknown_slots(width: u8, n: int, w: int)
    requires
        0 <= n,
        w == unknown_bytes(width).len(),
    ensures
        unknown_slots(width, n).len() == n * w,
        forall|i: int|
            #![trigger unknown_slots(width, n)[i]]
            0 <= i < unknown_slots(width, n).len() ==> !unknown_slots(width, n)[i].known,
    decreases n,
{
    if n > 0 {
        lemma_unknown_slots(width, n - 1, w);
        assert(n * w == (n - 1) * w + w) by (nonlinear_arith);
        let all = unknown_slots(width, n);
        let before = unknown_slots(width, n - 1);
        assert forall|i: int| #![trigger all[i]] 0 <= i < all.len() implies !all[i].known by {
            if i < before.len() {
                assert(all[i] == before[i]);
            }
        }
    } else {
        assert(0 * w == 0);
    }
}

/// What an access leaves unknown: an atomic one its register, an exclusive one
/// of unknown outcome and a vector one of unknown layout all registers. An
/// exclusive store that failed covers nothing.
pub proof fn law_what_is_not_told_is_unknown(op: MemOp)
    ensures
        op.layout == MemLayout::Atomic ==> expanded(op).len() == register_width(op),
        (op.exclusive_status matches Some(s) && s != 0) && (op.layout == MemLayout::ExclusiveScalar
            || op.layout == MemLayout::ExclusivePair) ==> expanded(op).len() == 0,
        op.exclusive_status is None && (op.layout == MemLayout::ExclusiveScalar || op.layout
            == MemLayout::ExclusivePair) || op.layout == MemLayout::SimdLane && op.simd_elem_bytes
            == 0 || op.layout == MemLayout::SimdInterleaved && !(0 < op.simd_elem_bytes
            <= op.simd_reg_bytes) ==> expanded(op).len() == at_least_one(op.value_count)
            * register_width(op),
        op.layout == MemLayout::Atomic || op.exclusive_status != Some(0u64) && (op.layout
            == MemLayout::ExclusiveScalar || op.layout == MemLayout::ExclusivePair) || op.layout
            == MemLayout::SimdLane && op.simd_elem_bytes == 0 || op.layout
            == MemLayout::SimdInterleaved && !(0 < op.simd_elem_bytes <= op.simd_reg_bytes) ==> (
        forall|i: int|
            #![trigger expanded(op)[i]]
            0 <= i < expanded(op).len() ==> !expanded(op)[i].known),
{
    lemma_unknown_slots(
        op.elem_width,
        at_least_one(op.value_count),
        unknown_bytes(op.elem_width).len() as int,
    );
}

proof fn lemma_lane_bytes(value: Option<u128>, offset: int, width: int, o: int)
    requires
        0 <= o < width,
        0 <= offset,
    ensures
        lane_bytes(value, offset, width).len() == width,
        is_byte(lane_bytes(value, offset, width)[o], vector_byte(value, offset + o)),
{
    if let Some(v) = value {
        if offset + o < 16 {
            lemma_byte128(v, offset + o);
        }
    }
}

proof fn lemma_lane_slots(op: MemOp, offset: int, width: int, n: int, r: int, o: int)
    requires
        0 <= r < n,
        0 <= o < width,
        0 <= offset,
    ensures
        lane_slots(op, offset, width, n).len() == n * width,
        0 <= r * width + o < n * width,
        is_byte(
            lane_slots(op, offset, width, n)[r * width + o],
            vector_byte(op.simd_values@[r], offset + o),
        ),
    decreases n,
{
    lemma_lane_slots_len(op, offset, width, n - 1);
    lemma_lane_slots_len(op, offset, width, n);
    assert(0 <= r * width && r * width + width <= n * width) by (nonlinear_arith)
        requires
            0 <= r < n,
            0 < width,
    ;
    if r < n - 1 {
        lemma_lane_slots(op, offset, width, n - 1, r, o);
    } else {
        lemma_lane_bytes(op.simd_values@[r], offset, width, o);
    }
}

proof fn lemma_lane_slots_len(op: MemOp, offset: int, width: int, n: int)
    requires
        0 <= n,
        0 <= width,
    ensures
        lane_slots(op, offset, width, n).len() == n * width,
    decreases n,
{
    if n > 0 {
        lemma_lane_slots_len(op, offset, width, n - 1);
        assert(n * width == (n - 1) * width + width) by (nonlinear_arith);
    } else {
        assert(0 * width == 0);
    }
}

/// An access to one lane covers that element of each register in turn.
pub proof fn law_a_lane_of_each_register(op: MemOp, r: int, o: int)
    requires
        op.layout == MemLayout::SimdLane,
        op_ok(op),
        0 <= r < op.value_count,
        0 <= o < op.simd_elem_bytes,
    ensures
        expanded(op).len() == op.value_count * op.simd_elem_bytes,
        0 <= r * op.simd_elem_bytes + o < expanded(op).len(),
        is_byte(
            expanded(op)[r * op.simd_elem_bytes + o],
            vector_byte(op.simd_values@[r], op.simd_lane * op.simd_elem_bytes + o),
        ),
{
    assert(0 <= op.simd_lane * op.simd_elem_bytes) by (nonlinear_arith);
    lemma_lane_slots(
        op,
        op.simd_lane * op.simd_elem_bytes,
        op.simd_elem_bytes as int,
        op.value_count as int,
        r,
        o,
    );
}

/// A contiguous vector access covers one whole register after the other.
pub proof fn law_whole_registers_in_turn(op: MemOp, r: int, o: int)
    requires
        op.layout == MemLayout::SimdContiguous,
        op_ok(op),
        0 <= r < op.value_count,
        0 <= o < op.simd_reg_bytes,
    ensures
        expanded(op).len() == op.value_count * op.simd_reg_bytes,
        0 <= r * op.simd_reg_bytes + o < expanded(op).len(),
        is_byte(
            expanded(op)[r * op.simd_reg_bytes + o],
            vector_byte(op.simd_values@[r], o),
        ),
{
    lemma_lane_slots(op, 0, op.simd_reg_bytes as int, op.value_count as int, r, o);
}

proof fn lemma_interleaved_len(op: MemOp, lanes: int)
    requires
        0 <= lanes,
    ensures
        interleaved(op, lanes).len() == lanes * (op.value_count * op.simd_elem_bytes),
    decreases lanes,
{
    let row = op.value_count * op.simd_elem_bytes;
    if lanes > 0 {
        let elem = op.simd_elem_bytes as int;
        lemma_interleaved_len(op, lanes - 1);
        lemma_lane_slots_len(op, (lanes - 1) * elem, elem, op.value_count as int);
        assert(lanes * row == (lanes - 1) * row + row) by (nonlinear_arith);
    } else {
        assert(0 * row == 0);
    }
}

proof fn lemma_interleaved(op: MemOp, lanes: int, l: int, r: int, o: int)
    requires
        0 <= l < lanes,
        0 <= r < op.value_count,
        0 <= o < op.simd_elem_bytes,
    ensures
        0 <= l * (op.value_count * op.simd_elem_bytes) + r * op.simd_elem_bytes + o < lanes * (
        op.value_count * op.simd_elem_bytes),
        is_byte(
            interleaved(op, lanes)[l * (op.value_count * op.simd_elem_bytes) + r
                * op.simd_elem_bytes + o],
            vector_byte(op.simd_values@[r], l * op.simd_elem_bytes + o),
        ),
    decreases lanes,
{
    let elem = op.simd_elem_bytes as int;
    let count = op.value_count as int;
    let row = op.value_count * op.simd_elem_bytes;
    lemma_interleaved_len(op, lanes - 1);
    lemma_interleaved_len(op, lanes);
    assert(0 <= l * elem) by (nonlinear_arith)
        requires
            0 <= l,
            0 <= elem,
    ;
    lemma_lane_slots(op, l * elem, elem, count, r, o);
    assert(0 <= l * row && l * row + row <= lanes * row) by (nonlinear_arith)
        requires
            0 <= l < lanes,
            0 <= row,
    ;
    if l < lanes - 1 {
        lemma_interleaved(op, lanes - 1, l, r, o);
    } else {
        assert(l * row == (lanes - 1) * row);
    }
}

/// An interleaved vector access covers, element by element, that element of each
/// register in turn.
pub proof fn law_elements_are_interleaved(op: MemOp, l: int, r: int, o: int)
    requires
        op.layout == MemLayout::SimdInterleaved,
        op_ok(op),
        0 < op.simd_elem_bytes <= op.simd_reg_bytes,
        0 <= l < op.simd_reg_bytes as int / op.simd_elem_bytes as int,
        0 <= r < op.value_count,
        0 <= o < op.simd_elem_bytes,
    ensures
        expanded(op).len() == (op.simd_reg_bytes as int / op.simd_elem_bytes as int) * (
        op.value_count * op.simd_elem_bytes),
        0 <= l * (op.value_count * op.simd_elem_bytes) + r * op.simd_elem_bytes + o < expanded(
            op,
        ).len(),
        is_byte(
            expanded(op)[l * (op.value_count * op.simd_elem_bytes) + r * op.simd_elem_bytes + o],
            vector_byte(op.simd_values@[r], l * op.simd_elem_bytes + o),
        ),
{
    let lanes = op.simd_reg_bytes as int / op.simd_elem_bytes as int;
    lemma_interleaved_len(op, lanes);
    lemma_interleaved(op, lanes, l, r, o);
}

} // verus!
