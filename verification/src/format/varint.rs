//! Variable-length integers: seven bits per byte, least significant group
//! first, with the top bit of a byte set when another byte follows.

use vstd::prelude::*;

verus! {

/// The encoding of `v`.
pub open spec fn varint(v: nat) -> Seq<u8>
    decreases v,
{
    if v < 128 {
        seq![v as u8]
    } else {
        seq![(v % 128 + 128) as u8] + varint(v / 128)
    }
}

/// The number spelled by the seven-bit groups of `buf` from `pos` on, and the
/// position after its last byte. `None` when the bytes end, or `limit` bytes
/// have passed, before a byte without the continuation bit.
pub open spec fn varint_groups(buf: Seq<u8>, pos: int, limit: nat) -> Option<(nat, int)>
    decreases limit,
{
    if limit == 0 || pos < 0 || pos >= buf.len() {
        None
    } else if buf[pos] < 128 {
        Some((buf[pos] as nat, pos + 1))
    } else {
        match varint_groups(buf, pos + 1, (limit - 1) as nat) {
            Some((high, end)) => Some(((buf[pos] - 128 + 128 * high) as nat, end)),
            None => None,
        }
    }
}

/// What a 64-bit read at `pos` yields: at most ten groups are taken, and bits
/// past the sixty-fourth are dropped.
pub open spec fn varint64_at(buf: Seq<u8>, pos: int) -> Option<(u64, int)> {
    match varint_groups(buf, pos, 10) {
        Some((v, end)) => Some(((v % 0x1_0000_0000_0000_0000) as u64, end)),
        None => None,
    }
}

/// What a 32-bit read at `pos` yields: a 64-bit read whose value fits.
pub open spec fn varint32_at(buf: Seq<u8>, pos: int) -> Option<(u32, int)> {
    match varint64_at(buf, pos) {
        Some((v, end)) => if v <= u32::MAX {
            Some((v as u32, end))
        } else {
            None
        },
        None => None,
    }
}

/// 128 to the power `n`.
pub open spec fn pow128(n: nat) -> nat
    decreases n,
{
    if n == 0 {
        1
    } else {
        128 * pow128((n - 1) as nat)
    }
}

proof fn lemma_pow128_values()
    ensures
        pow128(0) == 1,
        pow128(1) == 0x80,
        pow128(2) == 0x4000,
        pow128(3) == 0x20_0000,
        pow128(4) == 0x1000_0000,
        pow128(5) == 0x8_0000_0000,
        pow128(6) == 0x400_0000_0000,
        pow128(7) == 0x2_0000_0000_0000,
        pow128(8) == 0x100_0000_0000_0000,
        pow128(9) == 0x8000_0000_0000_0000,
        pow128(10) == 0x40_0000_0000_0000_0000,
{
    reveal_with_fuel(pow128, 11);
}

/// Placing a seven-bit group above the groups already read.
proof fn lemma_place_group(low: u64, group: u64, shift: u32, n: nat)
    requires
        n < 9,
        shift == 7 * n,
        low < pow128(n),
        group < 128,
    ensures
        (low | (group << shift)) == low + group * pow128(n),
{
    lemma_pow128_values();
    if n == 0 {
        assert(low < 1 && group < 128 ==> (low | (group << 0u32)) == low + group) by (bit_vector);
    } else if n == 1 {
        assert(low < 0x80 && group < 128 ==> (low | (group << 7u32)) == low + group * 0x80)
            by (bit_vector);
    } else if n == 2 {
        assert(low < 0x4000 && group < 128 ==> (low | (group << 14u32)) == low + group * 0x4000)
            by (bit_vector);
    } else if n == 3 {
        assert(low < 0x20_0000 && group < 128 ==> (low | (group << 21u32)) == low + group
            * 0x20_0000) by (bit_vector);
    } else if n == 4 {
        assert(low < 0x1000_0000 && group < 128 ==> (low | (group << 28u32)) == low + group
            * 0x1000_0000) by (bit_vector);
    } else if n == 5 {
        assert(low < 0x8_0000_0000 && group < 128 ==> (low | (group << 35u32)) == low + group
            * 0x8_0000_0000) by (bit_vector);
    } else if n == 6 {
        assert(low < 0x400_0000_0000 && group < 128 ==> (low | (group << 42u32)) == low + group
            * 0x400_0000_0000) by (bit_vector);
    } else if n == 7 {
        assert(low < 0x2_0000_0000_0000 && group < 128 ==> (low | (group << 49u32)) == low + group
            * 0x2_0000_0000_0000) by (bit_vector);
    } else {
        assert(low < 0x100_0000_0000_0000 && group < 128 ==> (low | (group << 56u32)) == low
            + group * 0x100_0000_0000_0000) by (bit_vector);
    }
}

/// The tenth group has room for one bit only.
proof fn lemma_place_last_group(low: u64, group: u64)
    requires
        low < pow128(9),
        group < 128,
    ensures
        (low | (group << 63u32)) == (low + group * pow128(9)) % 0x1_0000_0000_0000_0000,
{
    lemma_pow128_values();
    assert(low < 0x8000_0000_0000_0000 && group < 128 ==> (low | (group << 63u32)) == low + (group
        % 2) * 0x8000_0000_0000_0000) by (bit_vector);
    let whole = low + group * pow128(9);
    assert(whole == low + (group % 2) * 0x8000_0000_0000_0000 + (group / 2)
        * 0x1_0000_0000_0000_0000);
}

/// A read that succeeds moves forward and stays inside the bytes.
pub proof fn lemma_varint_groups_end(buf: Seq<u8>, pos: int, limit: nat)
    ensures
        varint_groups(buf, pos, limit) matches Some((v, end)) ==> pos < end <= buf.len() && 0
            <= pos && end <= pos + limit,
    decreases limit,
{
    if limit > 0 && 0 <= pos < buf.len() && buf[pos] >= 128 {
        lemma_varint_groups_end(buf, pos + 1, (limit - 1) as nat);
    }
}

/// The encoding of `v`, met anywhere in `buf`, is read back as `v`.
proof fn lemma_groups_of_encoding(buf: Seq<u8>, pos: int, v: nat, limit: nat)
    requires
        0 <= pos,
        pos + varint(v).len() <= buf.len(),
        buf.subrange(pos, pos + varint(v).len()) == varint(v),
        limit > 0,
        v < pow128(limit),
    ensures
        varint_groups(buf, pos, limit) == Some((v, pos + varint(v).len())),
    decreases v,
{
    let enc = varint(v);
    assert(buf[pos] == buf.subrange(pos, pos + enc.len())[0]);
    if v >= 128 {
        let rest = varint(v / 128);
        assert(enc.len() == 1 + rest.len());
        assert(pow128(limit) == 128 * pow128((limit - 1) as nat));
        assert(v / 128 < pow128((limit - 1) as nat)) by (nonlinear_arith)
            requires
                v < 128 * pow128((limit - 1) as nat),
        ;
        assert forall|i: int| 0 <= i < rest.len() implies buf.subrange(
            pos + 1,
            pos + 1 + rest.len(),
        )[i] == rest[i] by {
            assert(buf.subrange(pos, pos + enc.len())[i + 1] == enc[i + 1]);
        }
        assert(buf.subrange(pos + 1, pos + 1 + rest.len()) =~= rest);
        lemma_groups_of_encoding(buf, pos + 1, v / 128, (limit - 1) as nat);
    }
}

/// What a read gives back of a write: the encoding of a 64-bit value, found at
/// `pos` in any buffer, decodes to that value and ends where the encoding ends.
pub proof fn lemma_varint64_round_trip(buf: Seq<u8>, pos: int, v: u64)
    requires
        0 <= pos,
        pos + varint(v as nat).len() <= buf.len(),
        buf.subrange(pos, pos + varint(v as nat).len()) == varint(v as nat),
    ensures
        varint64_at(buf, pos) == Some((v, pos + varint(v as nat).len())),
{
    lemma_pow128_values();
    lemma_groups_of_encoding(buf, pos, v as nat, 10);
}

/// The same for 32-bit values.
pub proof fn lemma_varint32_round_trip(buf: Seq<u8>, pos: int, v: u32)
    requires
        0 <= pos,
        pos + varint(v as nat).len() <= buf.len(),
        buf.subrange(pos, pos + varint(v as nat).len()) == varint(v as nat),
    ensures
        varint32_at(buf, pos) == Some((v, pos + varint(v as nat).len())),
{
    lemma_varint64_round_trip(buf, pos, v as u64);
}

/// An encoding takes one byte per started group of seven bits.
proof fn lemma_varint_len_below(v: nat, limit: nat)
    requires
        limit > 0,
        v < pow128(limit),
    ensures
        1 <= varint(v).len() <= limit,
    decreases limit,
{
    if v >= 128 {
        assert(pow128(limit) == 128 * pow128((limit - 1) as nat));
        assert(v / 128 < pow128((limit - 1) as nat)) by (nonlinear_arith)
            requires
                v < 128 * pow128((limit - 1) as nat),
        ;
        lemma_varint_len_below(v / 128, (limit - 1) as nat);
    }
}

/// A 64-bit value takes one to ten bytes, a 32-bit value at most five.
pub proof fn lemma_varint_len(v: u64)
    ensures
        1 <= varint(v as nat).len() <= 10,
        v <= u32::MAX ==> varint(v as nat).len() <= 5,
{
    lemma_pow128_values();
    lemma_varint_len_below(v as nat, 10);
    if v <= u32::MAX {
        lemma_varint_len_below(v as nat, 5);
    }
}

/// Reads a 32-bit value at `*pos`. A value that was read but does not fit is
/// refused after the position has moved past it.
pub fn get_varint32(buf: &[u8], pos: &mut usize) -> (r: Option<u32>)
    ensures
        match varint32_at(buf@, *old(pos) as int) {
            Some((v, _)) => r == Some(v),
            None => r is None,
        },
        match varint64_at(buf@, *old(pos) as int) {
            Some((_, end)) => *final(pos) == end,
            None => *final(pos) == *old(pos),
        },
{
    match get_varint64(buf, pos) {
        Some(v) => if v > 0xffff_ffff {
            None
        } else {
            Some(v as u32)
        },
        None => None,
    }
}

/// Reads a 64-bit value at `*pos` and moves the position past it. Nothing
/// moves when the bytes hold no complete value there.
pub fn get_varint64(buf: &[u8], pos: &mut usize) -> (r: Option<u64>)
    ensures
        match varint64_at(buf@, *old(pos) as int) {
            Some((v, end)) => r == Some(v) && *final(pos) == end,
            None => r is None && *final(pos) == *old(pos),
        },
{
    let start: usize = *pos;
    let mut result: u64 = 0;
    let mut shift: u32 = 0;
    let mut p: usize = start;
    let ghost mut n: nat = 0;
    proof {
        lemma_pow128_values();
    }
    loop
        invariant
            *pos == start,
            start == *old(pos),
            n < 10,
            shift == 7 * n,
            p == start + n,
            result < pow128(n),
            varint_groups(buf@, start as int, 10) == match varint_groups(
                buf@,
                p as int,
                (10 - n) as nat,
            ) {
                Some((high, end)) => Some(((result + pow128(n) * high) as nat, end)),
                None => None,
            },
        decreases 10 - n,
    {
        if p >= buf.len() {
            return None;
        }
        let byte: u8 = buf[p];
        proof {
            lemma_pow128_values();
            assert((byte & 0x7f) == byte % 128) by (bit_vector);
            assert((byte & 0x80 == 0) == (byte < 128)) by (bit_vector);
        }
        p = p + 1;
        let group: u64 = (byte & 0x7f) as u64;
        let ghost low = result;
        result = result | (group << shift);
        proof {
            if n < 9 {
                lemma_place_group(low, group, shift, n);
            } else {
                lemma_place_last_group(low, group);
            }
            assert(group * pow128(n) == pow128(n) * group) by (nonlinear_arith);
        }
        if byte & 0x80 == 0 {
            *pos = p;
            proof {
                if n < 9 {
                    assert(low + group * pow128(n) < 0x1_0000_0000_0000_0000) by {
                        assert(group * pow128(n) <= 127 * pow128(n)) by (nonlinear_arith)
                            requires
                                group <= 127,
                        ;
                    }
                }
            }
            return Some(result);
        }
        proof {
            let rest = varint_groups(buf@, p as int, (9 - n) as nat);
            if let Some((high, end)) = rest {
                assert(low + pow128(n) * (group + 128 * high) == low + group * pow128(n)
                    + pow128(n + 1) * high) by (nonlinear_arith)
                    requires
                        pow128(n + 1) == 128 * pow128(n),
                ;
            }
            if n < 9 {
                assert(result < pow128(n + 1)) by (nonlinear_arith)
                    requires
                        result == low + group * pow128(n),
                        low < pow128(n),
                        group <= 127,
                        pow128(n + 1) == 128 * pow128(n),
                ;
            }
        }
        shift = shift + 7;
        if shift >= 64 {
            return None;
        }
        proof {
            n = n + 1;
        }
    }
}

/// Appends the encoding of a 32-bit value.
pub fn put_varint32(out: &mut Vec<u8>, v: u32)
    ensures
        final(out)@ == old(out)@ + varint(v as nat),
{
    put_varint64(out, v as u64);
}

/// Appends the encoding of a 64-bit value.
pub fn put_varint64(out: &mut Vec<u8>, v: u64)
    ensures
        final(out)@ == old(out)@ + varint(v as nat),
{
    let mut left: u64 = v;
    loop
        invariant
            old(out)@ + varint(v as nat) =~= out@ + varint(left as nat),
        decreases left,
    {
        if left < 0x80 {
            out.push(left as u8);
            return;
        }
        proof {
            assert(((left as u8 & 0x7f) | 0x80) == left % 128 + 128) by (bit_vector);
            assert(left >> 7 == left / 128) by (bit_vector);
        }
        out.push((left as u8 & 0x7f) | 0x80);
        left = left >> 7;
    }
}

} // verus!
