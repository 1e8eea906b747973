//! The bytes that a memory access shows.

use crate::types::{MemLayout, MemOp};
use vstd::prelude::*;

verus! {

/// A byte of memory, if the trace shows it.
#[derive(Debug, Clone, Copy, PartialEq, Eq, Structural)]
pub struct ByteValue {
    pub value: u8,
    pub known: bool,
}

pub open spec fn known_byte(value: u8) -> ByteValue {
    ByteValue { value, known: true }
}

pub open spec fn unknown_byte() -> ByteValue {
    ByteValue { value: 0, known: false }
}

impl ByteValue {
    pub fn unknown() -> (b: Self)
        ensures
            b == unknown_byte(),
    {
        ByteValue { value: 0, known: false }
    }
}

/// Byte `i` of a number, the lowest first.
pub open spec fn byte64(v: u64, i: int) -> u8 {
    ((v >> ((8 * i) as u64)) & 0xff) as u8
}

/// Byte `i` of a vector register, the lowest first.
pub open spec fn byte128(v: u128, i: int) -> u8 {
    ((v >> ((8 * i) as u128)) & 0xff) as u8
}

/// The lowest `width` bytes of a value, at most eight.
pub open spec fn scalar_bytes(width: int, value: Option<u64>) -> Seq<ByteValue> {
    Seq::new(
        (if width > 8 {
            8
        } else {
            width
        }) as nat,
        |i: int|
            match value {
                Some(v) => known_byte(byte64(v, i)),
                None => unknown_byte(),
            },
    )
}

/// Sixteen bytes from two halves.
pub open spec fn wide_bytes(low: Option<u64>, high: Option<u64>) -> Seq<ByteValue> {
    scalar_bytes(8, low) + scalar_bytes(8, high)
}

/// Unknown bytes of one register value: its width, or sixteen if it is wider
/// than eight.
pub open spec fn unknown_bytes(width: u8) -> Seq<ByteValue> {
    Seq::new(
        (if width <= 8 {
            width as int
        } else {
            16
        }) as nat,
        |i: int| unknown_byte(),
    )
}

/// `width` bytes of a vector register from `offset` on; past its sixteen bytes
/// nothing is known.
pub open spec fn lane_bytes(value: Option<u128>, offset: int, width: int) -> Seq<ByteValue> {
    Seq::new(
        width as nat,
        |i: int|
            match value {
                Some(v) if offset + i < 16 => known_byte(byte128(v, offset + i)),
                _ => unknown_byte(),
            },
    )
}

/// Register values `1..n` of a scalar or pair access: the second is shown,
/// further ones are not.
pub open spec fn later_slots(mem: MemOp, n: int) -> Seq<ByteValue>
    decreases n,
{
    if n <= 1 {
        Seq::empty()
    } else {
        later_slots(mem, n - 1) + if n == 2 {
            if mem.elem_width <= 8 {
                scalar_bytes(mem.elem_width as int, mem.value2)
            } else {
                wide_bytes(mem.value2_lo, mem.value2_hi)
            }
        } else {
            unknown_bytes(mem.elem_width)
        }
    }
}

/// A scalar or pair access.
pub open spec fn scalar_or_pair(mem: MemOp) -> Seq<ByteValue> {
    (if mem.elem_width <= 8 {
        scalar_bytes(mem.elem_width as int, mem.value)
    } else {
        wide_bytes(mem.value_lo, mem.value_hi)
    }) + later_slots(mem, mem.value_count as int)
}

/// `n` unknown register values.
pub open spec fn unknown_slots(width: u8, n: int) -> Seq<ByteValue>
    decreases n,
{
    if n <= 0 {
        Seq::empty()
    } else {
        unknown_slots(width, n - 1) + unknown_bytes(width)
    }
}

/// One element of each of the first `n` registers.
pub open spec fn lane_slots(mem: MemOp, offset: int, width: int, n: int) -> Seq<ByteValue>
    decreases n,
{
    if n <= 0 {
        Seq::empty()
    } else {
        lane_slots(mem, offset, width, n - 1) + lane_bytes(mem.simd_values@[n - 1], offset, width)
    }
}

/// The first `lanes` elements of all registers, interleaved.
pub open spec fn interleaved(mem: MemOp, lanes: int) -> Seq<ByteValue>
    decreases lanes,
{
    if lanes <= 0 {
        Seq::empty()
    } else {
        let elem = mem.simd_elem_bytes as int;
        interleaved(mem, lanes - 1) + lane_slots(
            mem,
            (lanes - 1) * elem,
            elem,
            mem.value_count as int,
        )
    }
}

pub open spec fn at_least_one(n: u8) -> int {
    if n == 0 {
        1
    } else {
        n as int
    }
}

/// The bytes that an access covers, with what is known of them.
///
/// What an atomic access leaves is not shown. An exclusive store that failed
/// does nothing; one whose outcome is not shown leaves the bytes open.
pub open spec fn expanded(mem: MemOp) -> Seq<ByteValue> {
    match mem.layout {
        MemLayout::Atomic => unknown_bytes(mem.elem_width),
        MemLayout::ExclusiveScalar | MemLayout::ExclusivePair => match mem.exclusive_status {
            Some(status) => if status == 0 {
                scalar_or_pair(mem)
            } else {
                Seq::empty()
            },
            None => unknown_slots(mem.elem_width, at_least_one(mem.value_count)),
        },
        MemLayout::SimdLane => {
            let elem = mem.simd_elem_bytes as int;
            if elem == 0 {
                unknown_slots(mem.elem_width, at_least_one(mem.value_count))
            } else {
                lane_slots(mem, mem.simd_lane * elem, elem, mem.value_count as int)
            }
        },
        MemLayout::SimdContiguous => {
            lane_slots(mem, 0, mem.simd_reg_bytes as int, mem.value_count as int)
        },
        MemLayout::SimdInterleaved => {
            let reg = mem.simd_reg_bytes as int;
            let elem = mem.simd_elem_bytes as int;
            if reg == 0 || elem == 0 || elem > reg {
                unknown_slots(mem.elem_width, at_least_one(mem.value_count))
            } else {
                interleaved(mem, reg / elem)
            }
        },
        MemLayout::Scalar | MemLayout::Pair => scalar_or_pair(mem),
    }
}

/// A vector access whose elements are laid out names at most four registers,
/// and a shown register has at most sixteen bytes.
pub open spec fn op_ok(mem: MemOp) -> bool {
    match mem.layout {
        MemLayout::SimdLane => mem.simd_elem_bytes > 0 ==> mem.value_count <= 4,
        MemLayout::SimdContiguous => {
            &&& mem.value_count <= 4
            &&& forall|i: int|
                #![trigger mem.simd_values@[i]]
                0 <= i < mem.value_count && mem.simd_values@[i] is Some ==> mem.simd_reg_bytes
                    <= 16
        },
        MemLayout::SimdInterleaved => 0 < mem.simd_elem_bytes <= mem.simd_reg_bytes
            ==> mem.value_count <= 4,
        _ => true,
    }
}

fn append_scalar(output: &mut Vec<ByteValue>, width: u8, value: Option<u64>)
    ensures
        final(output)@ == old(output)@ + scalar_bytes(width as int, value),
{
    let ghost start = output@;
    let n: u64 = if width > 8 {
        8
    } else {
        width as u64
    };
    let mut i: u64 = 0;
    while i < n
        invariant
            i <= n <= 8,
            n == (if width > 8 {
                8
            } else {
                width as int
            }),
            output@ =~= start + scalar_bytes(width as int, value).take(i as int),
        decreases n - i,
    {
        match value {
            Some(v) => {
                let shift: u64 = 8 * i;
                let byte: u8 = ((v >> shift) & 0xff) as u8;
                output.push(ByteValue { value: byte, known: true });
            },
            None => {
                output.push(ByteValue::unknown());
            },
        }
        i += 1;
    }
    assert(scalar_bytes(width as int, value).take(n as int) =~= scalar_bytes(width as int, value));
}

fn append_wide(output: &mut Vec<ByteValue>, low: Option<u64>, high: Option<u64>)
    ensures
        final(output)@ == old(output)@ + wide_bytes(low, high),
{
    let ghost start = output@;
    append_scalar(output, 8, low);
    append_scalar(output, 8, high);
    assert(output@ =~= start + wide_bytes(low, high));
}

fn append_unknown(output: &mut Vec<ByteValue>, width: u8)
    ensures
        final(output)@ == old(output)@ + unknown_bytes(width),
{
    let ghost start = output@;
    let n: u8 = if width <= 8 {
        width
    } else {
        16
    };
    let mut i: u8 = 0;
    while i < n
        invariant
            i <= n,
            n == unknown_bytes(width).len(),
            output@ =~= start + unknown_bytes(width).take(i as int),
        decreases n - i,
    {
        output.push(ByteValue::unknown());
        i += 1;
    }
    assert(unknown_bytes(width).take(n as int) =~= unknown_bytes(width));
}

fn append_simd_lane(output: &mut Vec<ByteValue>, value: Option<u128>, offset: usize, width: usize)
    requires
        offset <= 65025,
        width <= 255,
    ensures
        final(output)@ == old(output)@ + lane_bytes(value, offset as int, width as int),
{
    let ghost start = output@;
    let ghost all = lane_bytes(value, offset as int, width as int);
    let mut i: usize = 0;
    while i < width
        invariant
            i <= width <= 255,
            offset <= 65025,
            all == lane_bytes(value, offset as int, width as int),
            output@ =~= start + all.take(i as int),
        decreases width - i,
    {
        let at: usize = offset + i;
        match value {
            Some(v) => {
                if at < 16 {
                    let shift: u128 = 8 * (at as u128);
                    let byte: u8 = ((v >> shift) & 0xff) as u8;
                    output.push(ByteValue { value: byte, known: true });
                } else {
                    output.push(ByteValue::unknown());
                }
            },
            None => {
                output.push(ByteValue::unknown());
            },
        }
        i += 1;
    }
    assert(all.take(width as int) =~= all);
}

fn append_unknown_slots(output: &mut Vec<ByteValue>, width: u8, n: u8)
    ensures
        final(output)@ == old(output)@ + unknown_slots(width, n as int),
{
    let ghost start = output@;
    let mut i: u8 = 0;
    while i < n
        invariant
            i <= n,
            output@ =~= start + unknown_slots(width, i as int),
        decreases n - i,
    {
        append_unknown(output, width);
        i += 1;
    }
}

fn append_lane_slots(output: &mut Vec<ByteValue>, mem: &MemOp, offset: usize, width: usize)
    requires
        offset <= 65025,
        width <= 255,
        mem.value_count <= 4,
    ensures
        final(output)@ == old(output)@ + lane_slots(
            *mem,
            offset as int,
            width as int,
            mem.value_count as int,
        ),
{
    let ghost start = output@;
    let mut slot: usize = 0;
    while slot < mem.value_count as usize
        invariant
            slot <= mem.value_count <= 4,
            offset <= 65025,
            width <= 255,
            output@ =~= start + lane_slots(*mem, offset as int, width as int, slot as int),
        decreases mem.value_count - slot,
    {
        append_simd_lane(output, mem.simd_values[slot], offset, width);
        slot += 1;
    }
}

/// The bytes of a scalar or pair access. Values that the trace does not show
/// stay unknown; they are neither zero nor left out.
fn expand_scalar_or_pair(mem: &MemOp) -> (result: Vec<ByteValue>)
    ensures
        result@ == scalar_or_pair(*mem),
{
    let mut result: Vec<ByteValue> = Vec::new();
    if mem.elem_width <= 8 {
        append_scalar(&mut result, mem.elem_width, mem.value);
    } else {
        append_wide(&mut result, mem.value_lo, mem.value_hi);
    }
    let ghost first = result@;
    let mut slot: u8 = 1;
    while slot < mem.value_count
        invariant
            1 <= slot,
            slot <= mem.value_count || slot == 1,
            result@ =~= first + later_slots(*mem, slot as int),
        decreases mem.value_count - slot,
    {
        if slot == 1 {
            if mem.elem_width <= 8 {
                append_scalar(&mut result, mem.elem_width, mem.value2);
            } else {
                append_wide(&mut result, mem.value2_lo, mem.value2_hi);
            }
        } else {
            append_unknown(&mut result, mem.elem_width);
        }
        slot += 1;
    }
    assert(result@ =~= scalar_or_pair(*mem));
    result
}

/// The bytes that an access covers, with what is known of them.
pub fn expand_mem_op(mem: &MemOp) -> (result: Vec<ByteValue>)
    requires
        op_ok(*mem),
    ensures
        result@ == expanded(*mem),
{
    let mut result: Vec<ByteValue> = Vec::new();
    let slots: u8 = if mem.value_count == 0 {
        1
    } else {
        mem.value_count
    };
    match mem.layout {
        MemLayout::Atomic => {
            append_unknown(&mut result, mem.elem_width);
        },
        MemLayout::ExclusiveScalar | MemLayout::ExclusivePair => {
            match mem.exclusive_status {
                Some(status) => {
                    if status == 0 {
                        return expand_scalar_or_pair(mem);
                    }
                },
                None => {
                    append_unknown_slots(&mut result, mem.elem_width, slots);
                },
            }
        },
        MemLayout::SimdLane => {
            let elem: usize = mem.simd_elem_bytes as usize;
            if elem == 0 {
                append_unknown_slots(&mut result, mem.elem_width, slots);
            } else {
                let lane: usize = mem.simd_lane as usize;
                assert(0 <= lane * elem <= 255 * 255) by (nonlinear_arith)
                    requires
                        lane <= 255,
                        elem <= 255,
                ;
                append_lane_slots(&mut result, mem, lane * elem, elem);
            }
        },
        MemLayout::SimdContiguous => {
            append_lane_slots(&mut result, mem, 0, mem.simd_reg_bytes as usize);
        },
        MemLayout::SimdInterleaved => {
            let reg: usize = mem.simd_reg_bytes as usize;
            let elem: usize = mem.simd_elem_bytes as usize;
            if reg == 0 || elem == 0 || elem > reg {
                append_unknown_slots(&mut result, mem.elem_width, slots);
            } else {
                let lanes: usize = reg / elem;
                assert(lanes * elem <= reg) by (nonlinear_arith)
                    requires
                        elem > 0,
                        lanes == reg / elem,
                ;
                let mut lane: usize = 0;
                while lane < lanes
                    invariant
                        lane <= lanes,
                        lanes * elem <= reg <= 255,
                        elem == mem.simd_elem_bytes,
                        mem.value_count <= 4,
                        result@ =~= interleaved(*mem, lane as int),
                    decreases lanes - lane,
                {
                    assert(0 <= lane * elem <= lanes * elem) by (nonlinear_arith)
                        requires
                            lane <= lanes,
                    ;
                    append_lane_slots(&mut result, mem, lane * elem, elem);
                    lane += 1;
                }
            }
        },
        MemLayout::Scalar | MemLayout::Pair => {
            return expand_scalar_or_pair(mem);
        },
    }
    assert(result@ =~= expanded(*mem));
    result
}

} // verus!
