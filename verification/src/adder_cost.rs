//! The packed table of adder costs: an 8-byte little-endian count, then one 3-bit cost per
//! odd constant.
use vstd::prelude::*;
use crate::bits::{lemma_odd_part_double, odd_part_of};
use crate::graph_types::table_position;
use crate::text::{dec, usize_to_string};

verus! {

/// Size of the header that holds the number of packed values.
pub const DATA_OFFSET: usize = 8;

/// 256 to the power `k`.
pub open spec fn pow256(k: nat) -> nat
    decreases k,
{
    if k == 0 {
        1
    } else {
        256 * pow256((k - 1) as nat)
    }
}

/// The number that bytes stand for, least significant byte first.
pub open spec fn le_value(s: Seq<u8>) -> nat
    decreases s.len(),
{
    if s.len() == 0 {
        0
    } else {
        s[0] as nat + 256 * le_value(s.drop_first())
    }
}

/// The number of packed values that the header of `data` announces.
pub open spec fn data_count_of(data: Seq<u8>) -> usize {
    le_value(data.take(8)) as usize
}

proof fn lemma_le_value_bound(s: Seq<u8>)
    ensures
        le_value(s) < pow256(s.len()),
    decreases s.len(),
{
    if s.len() > 0 {
        lemma_le_value_bound(s.drop_first());
        let r = le_value(s.drop_first());
        let p = pow256((s.len() - 1) as nat);
        assert(s[0] + 256 * r < 256 * p) by (nonlinear_arith)
            requires
                r < p,
                s[0] < 256,
        ;
    }
}

/// Reads the header of the adder cost data: the number of packed values, little-endian.
pub fn parse_data_header(data: &[u8]) -> (count: usize)
    requires
        data@.len() >= 8,
    ensures
        count == data_count_of(data@),
{
    let mut v: u64 = 0;
    let mut i: usize = 8;
    assert(data@.subrange(8, 8) =~= Seq::<u8>::empty());
    while i > 0
        invariant
            i <= 8,
            data@.len() >= 8,
            v == le_value(data@.subrange(i as int, 8)),
            v < pow256((8 - i) as nat),
        decreases i,
    {
        let ghost s = data@.subrange(i - 1, 8);
        assert(s.drop_first() =~= data@.subrange(i as int, 8));
        let b = data[i - 1];
        proof {
            reveal_with_fuel(pow256, 9);
            assert(v * 256 + b < pow256((8 - i) as nat) * 256) by (nonlinear_arith)
                requires
                    v < pow256((8 - i) as nat),
                    b < 256,
            ;
            assert(pow256((9 - i) as nat) == 256 * pow256((8 - i) as nat));
            assert(pow256(8) == 0x1_0000_0000_0000_0000);
            if i < 8 {
                assert(pow256((9 - i) as nat) <= pow256(8)) by {
                    lemma_pow256_monotone((9 - i) as nat, 8);
                }
            }
        }
        v = v * 256 + b as u64;
        i = i - 1;
    }
    assert(data@.subrange(0, 8) =~= data@.take(8));
    v as usize
}

proof fn lemma_pow256_monotone(a: nat, b: nat)
    requires
        a <= b,
    ensures
        pow256(a) <= pow256(b),
    decreases b,
{
    if a < b {
        lemma_pow256_monotone(a, (b - 1) as nat);
    }
}

/// The 16 bits of `payload` starting at byte `byte`, least significant first; the second byte
/// counts as 0 past the end.
pub open spec fn bit_window(payload: Seq<u8>, byte: int) -> u16 {
    (payload[byte] as u16) | (if byte + 1 < payload.len() {
        ((payload[byte + 1] as u16) << 8u16) as u16
    } else {
        0u16
    })
}

/// The 3-bit value at position `p` of the packed payload: bits `3p .. 3p + 3`.
pub open spec fn packed_value(payload: Seq<u8>, p: nat) -> u8 {
    (((bit_window(payload, (3 * p / 8) as int) >> ((3 * p) % 8) as u16) & 7u16) as u8)
}

/// Why an adder cost cannot be read.
#[derive(Clone, Copy, Debug, PartialEq, Eq, Structural)]
pub enum AdderCostError {
    /// The index lies past the packed values.
    IndexOutOfRange,
    /// The packed bytes end before the value.
    DataCorruption,
}

/// The adder cost of an index in `data`, whose even part is shifted out first.
pub open spec fn adder_cost_of(data: Seq<u8>, idx: usize) -> Result<u8, AdderCostError> {
    let p = table_position(idx);
    if p >= data_count_of(data) {
        Err(AdderCostError::IndexOutOfRange)
    } else if 3 * p / 8 >= data.len() - 8 {
        Err(AdderCostError::DataCorruption)
    } else {
        Ok(packed_value(data.skip(8), p))
    }
}

/// The position of an index among the packed values: odd index `2p + 1` is at `p`.
pub fn value_position(idx: usize) -> (r: usize)
    ensures
        r == table_position(idx),
{
    let odd_idx = if idx > 0 {
        odd_part_of(idx)
    } else {
        idx
    };
    odd_idx / 2
}

/// The three bits of `x` (and of `y` above it) at bit offset `off`, as the packed table reads
/// them: the second byte only when the value crosses into it.
proof fn lemma_field_bits(x: u8, y: u8, off: u8, next: bool)
    requires
        off < 8,
    ensures
        ({
            let w: u16 = (x as u16) | (if next {
                ((y as u16) << 8u16) as u16
            } else {
                0u16
            });
            let lo: u8 = ((x >> off) & 7u8) as u8;
            let val: u8 = if off > 5 && next {
                (lo | (((y & ((1u8 << (off - 5) as u8) - 1u8) as u8) << (8 - off) as u8) as u8)) as u8
            } else {
                lo
            };
            ((val & 7u8) as u8) == (((w >> off as u16) & 7u16) as u8)
        }),
{
    assert(({
        let w: u16 = (x as u16) | (if next {
            ((y as u16) << 8u16) as u16
        } else {
            0u16
        });
        let lo: u8 = ((x >> off) & 7u8) as u8;
        let val: u8 = if off > 5 && next {
            (lo | (((y & ((1u8 << (off - 5) as u8) - 1u8) as u8) << (8 - off) as u8) as u8)) as u8
        } else {
            lo
        };
        ((val & 7u8) as u8) == (((w >> off as u16) & 7u16) as u8)
    })) by (bit_vector)
        requires
            off < 8,
    ;
}

/// Gets the adder cost at an index, shifting even indices right until odd.
pub fn adder_cost(data: &[u8], idx: usize) -> (r: Result<u8, AdderCostError>)
    requires
        data@.len() >= 8,
        table_position(idx) < data_count_of(data@) ==> 3 * table_position(idx) <= usize::MAX,
    ensures
        r == adder_cost_of(data@, idx),
{
    let value_pos = value_position(idx);
    if value_pos >= parse_data_header(data) {
        return Err(AdderCostError::IndexOutOfRange);
    }
    let bit_offset = value_pos * 3;
    let byte_offset = bit_offset / 8;
    let bit_in_byte = bit_offset % 8;
    if byte_offset >= data.len() - DATA_OFFSET {
        return Err(AdderCostError::DataCorruption);
    }
    let x = data[byte_offset + DATA_OFFSET];
    let mut val: u8 = (x >> bit_in_byte as u8) & 0b111;
    let next = byte_offset + 1 < data.len() - DATA_OFFSET;
    let mut y: u8 = 0;
    if next {
        y = data[byte_offset + 1 + DATA_OFFSET];
    }
    if bit_in_byte > 5 && next {
        let bits_from_next = 3 - (8 - bit_in_byte);
        let sh = bits_from_next as u8;
        assert(1u8 << sh >= 1u8) by (bit_vector)
            requires
                sh < 8u8,
        ;
        val = val | ((y & ((1u8 << sh) - 1)) << (8 - bit_in_byte) as u8);
    }
    let ghost payload = data@.skip(8);
    proof {
        lemma_field_bits(x, y, bit_in_byte as u8, next);
        assert(payload[byte_offset as int] == x);
        if next {
            assert(payload[byte_offset + 1] == y);
        }
    }
    Ok(val & 0b111)
}

/// Shifting an index left leaves its adder cost as it is.
pub proof fn law_adder_cost_shift_invariant(data: Seq<u8>, idx: usize)
    requires
        idx > 0,
        2 * idx <= usize::MAX,
    ensures
        adder_cost_of(data, (2 * idx) as usize) == adder_cost_of(data, idx),
{
    lemma_odd_part_double(idx as nat);
}

/// Shifting an index left by any number of bits that it keeps leaves its adder cost as it
/// is, and 0 has the adder cost of 1.
pub proof fn law_adder_cost_shifts_invariant(data: Seq<u8>, idx: usize, k: nat)
    requires
        idx > 0,
        idx * crate::bits::two_pow(k) <= usize::MAX,
    ensures
        adder_cost_of(data, (idx * crate::bits::two_pow(k)) as usize) == adder_cost_of(data, idx),
        adder_cost_of(data, 0) == adder_cost_of(data, 1),
{
    crate::graph_types::lemma_table_position_shifts(idx, k);
}

/// An adder cost is a 3-bit value: at most 7.
pub proof fn law_adder_cost_below_eight(data: Seq<u8>, idx: usize)
    ensures
        adder_cost_of(data, idx) matches Ok(v) ==> v < 8,
{
    if let Ok(v) = adder_cost_of(data, idx) {
        let p = table_position(idx);
        let w = bit_window(data.skip(8), (3 * p / 8) as int);
        let off = ((3 * p) % 8) as u16;
        assert(((w >> off) & 7u16) < 8u16) by (bit_vector);
    }
}

/// The summary of the embedded data, as text.
pub open spec fn info_of(data: Seq<u8>, graph_types: Seq<u8>) -> Seq<char> {
    "Embedded data: "@ + dec((data_count_of(data) * 2) as nat) + " elements, "@ + dec(
        (data.len() - 8) as nat,
    ) + " bytes packed, graph types: "@ + dec(graph_types.len()) + " bytes compressed"@
}

/// Describes the embedded data: the number of elements, the packed bytes and the compressed
/// graph types.
pub fn info(data: &[u8], graph_types: &[u8]) -> (r: String)
    requires
        data@.len() >= 8,
        data_count_of(data@) * 2 <= usize::MAX,
    ensures
        r@ == info_of(data@, graph_types@),
{
    let count = parse_data_header(data);
    let mut r = String::from_str("Embedded data: ");
    r.append(usize_to_string(count * 2).as_str());
    r.append(" elements, ");
    r.append(usize_to_string(data.len() - DATA_OFFSET).as_str());
    r.append(" bytes packed, graph types: ");
    r.append(usize_to_string(graph_types.len()).as_str());
    r.append(" bytes compressed");
    r
}

} // verus!
