//! Bit-level encodings: Morton keys built from quantized coordinates, and
//! octant paths (three bits per tree level) that locate a particle in the
//! octree.
use vstd::prelude::*;

verus! {

/// Number of quantization bits per coordinate kept in a Morton key.
pub const MORTON_BITS: u32 = 21;

/// Bit `b` of `v`.
pub open spec fn bit_of(v: u64, b: u64) -> u64 {
    (v >> b) & 1
}

/// Bit `b` of coordinate `axis` (0 = x, 1 = y, 2 = z) inside a Morton key.
pub open spec fn key_bit(key: u64, axis: u64, b: u64) -> u64 {
    (key >> ((3 * b + axis) as u64)) & 1
}

proof fn lemma_interleave_step(key: u64, xb: u64, yb: u64, zb: u64, s: u64, p: u64)
    by (bit_vector)
    requires
        s <= 60,
        key >> s == 0,
        xb <= 1,
        yb <= 1,
        zb <= 1,
    ensures
        (key | (xb << s) | (yb << (s + 1)) | (zb << (s + 2))) >> (s + 3) == 0,
        ((key | (xb << s) | (yb << (s + 1)) | (zb << (s + 2))) >> s) & 1 == xb,
        ((key | (xb << s) | (yb << (s + 1)) | (zb << (s + 2))) >> (s + 1)) & 1 == yb,
        ((key | (xb << s) | (yb << (s + 1)) | (zb << (s + 2))) >> (s + 2)) & 1 == zb,
        p < s ==> ((key | (xb << s) | (yb << (s + 1)) | (zb << (s + 2))) >> p) & 1 == (key >> p)
            & 1,
{
}

proof fn lemma_bit_at_most_one(v: u64, b: u64)
    by (bit_vector)
    ensures
        (v >> b) & 1 <= 1,
{
}

/// Interleaves the low 21 bits of three quantized coordinates into a Morton
/// key: bit `b` of `x`, `y` and `z` lands at bit `3b`, `3b + 1` and `3b + 2`.
pub fn interleave3(x: u32, y: u32, z: u32) -> (key: u64)
    ensures
        forall|b: u64|
            b < 21 ==> {
                &&& #[trigger] key_bit(key, 0, b) == bit_of(x as u64, b)
                &&& key_bit(key, 1, b) == bit_of(y as u64, b)
                &&& key_bit(key, 2, b) == bit_of(z as u64, b)
            },
        key >> 63 == 0,
{
    let mut key: u64 = 0;
    let xs: u64 = x as u64;
    let ys: u64 = y as u64;
    let zs: u64 = z as u64;
    assert(0u64 >> 0u64 == 0) by (bit_vector);
    let mut bit: u64 = 0;
    while bit < 21
        invariant
            bit <= 21,
            forall|b: u64|
                b < bit ==> {
                    &&& #[trigger] key_bit(key, 0, b) == bit_of(xs, b)
                    &&& key_bit(key, 1, b) == bit_of(ys, b)
                    &&& key_bit(key, 2, b) == bit_of(zs, b)
                },
            key >> (3 * bit) == 0,
            xs == x as u64,
            ys == y as u64,
            zs == z as u64,
        decreases 21 - bit,
    {
        let s: u64 = 3 * bit;
        let xb: u64 = (xs >> bit) & 1;
        let yb: u64 = (ys >> bit) & 1;
        let zb: u64 = (zs >> bit) & 1;
        proof {
            lemma_bit_at_most_one(xs, bit);
            lemma_bit_at_most_one(ys, bit);
            lemma_bit_at_most_one(zs, bit);
        }
        let next: u64 = key | (xb << s) | (yb << (s + 1)) | (zb << (s + 2));
        proof {
            lemma_interleave_step(key, xb, yb, zb, s, 0);
            assert forall|b: u64| b < bit + 1 implies {
                &&& #[trigger] key_bit(next, 0, b) == bit_of(xs, b)
                &&& key_bit(next, 1, b) == bit_of(ys, b)
                &&& key_bit(next, 2, b) == bit_of(zs, b)
            } by {
                if b < bit {
                    lemma_interleave_step(key, xb, yb, zb, s, (3 * b) as u64);
                    lemma_interleave_step(key, xb, yb, zb, s, (3 * b + 1) as u64);
                    lemma_interleave_step(key, xb, yb, zb, s, (3 * b + 2) as u64);
                    assert(key_bit(next, 0, b) == key_bit(key, 0, b));
                    assert(key_bit(next, 1, b) == key_bit(key, 1, b));
                    assert(key_bit(next, 2, b) == key_bit(key, 2, b));
                } else {
                    assert(b == bit);
                    assert(key_bit(next, 0, b) == xb);
                    assert(key_bit(next, 1, b) == yb);
                    assert(key_bit(next, 2, b) == zb);
                }
            }
            assert(3 * (bit + 1) == s + 3);
        }
        key = next;
        bit = bit + 1;
    }
    key
}


/// The low `n` bits of `v`.
pub open spec fn low_bits(v: u64, n: u64) -> u64 {
    v & (((1u64 << n) - 1) as u64)
}

/// Agreeing on the low `n` bits and on bit `n` is agreeing on the low
/// `n + 1` bits.
proof fn lemma_mask_step(x: u64, y: u64, n: u64, m: u64)
    by (bit_vector)
    requires
        n < 21,
        m == n + 1,
        low_bits(x, n) == low_bits(y, n),
        (x >> n) & 1 == (y >> n) & 1,
    ensures
        low_bits(x, m) == low_bits(y, m),
{
}

/// Values whose bits `0..n` agree agree on their low `n` bits.
proof fn lemma_low_bits_agree(x: u64, y: u64, n: u64)
    requires
        n <= 21,
        forall|b: u64| b < n ==> #[trigger] bit_of(x, b) == bit_of(y, b),
    ensures
        low_bits(x, n) == low_bits(y, n),
    decreases n,
{
    if n == 0 {
        assert(low_bits(x, 0) == 0 && low_bits(y, 0) == 0) by (bit_vector);
    } else {
        let k = (n - 1) as u64;
        lemma_low_bits_agree(x, y, k);
        assert(bit_of(x, k) == bit_of(y, k));
        lemma_mask_step(x, y, k, n);
    }
}

/// A value below 2^21 is its low 21 bits.
proof fn lemma_below_21_bits(x: u64)
    by (bit_vector)
    requires
        x < 0x20_0000,
    ensures
        low_bits(x, 21) == x,
{
}

/// Distinct quantized positions (21 bits per axis) have distinct Morton keys:
/// two keys laid out as `interleave3` promises, from coordinates below
/// 2^21, are equal only if the coordinates are.
pub proof fn lemma_interleave_injective(x1: u32, y1: u32, z1: u32, x2: u32, y2: u32, z2: u32, k1: u64, k2: u64)
    requires
        x1 < 0x20_0000,
        y1 < 0x20_0000,
        z1 < 0x20_0000,
        x2 < 0x20_0000,
        y2 < 0x20_0000,
        z2 < 0x20_0000,
        forall|b: u64|
            b < 21 ==> {
                &&& #[trigger] key_bit(k1, 0, b) == bit_of(x1 as u64, b)
                &&& key_bit(k1, 1, b) == bit_of(y1 as u64, b)
                &&& key_bit(k1, 2, b) == bit_of(z1 as u64, b)
            },
        forall|b: u64|
            b < 21 ==> {
                &&& #[trigger] key_bit(k2, 0, b) == bit_of(x2 as u64, b)
                &&& key_bit(k2, 1, b) == bit_of(y2 as u64, b)
                &&& key_bit(k2, 2, b) == bit_of(z2 as u64, b)
            },
        k1 == k2,
    ensures
        x1 == x2,
        y1 == y2,
        z1 == z2,
{
    assert forall|b: u64| b < 21 implies #[trigger] bit_of(x1 as u64, b) == bit_of(x2 as u64, b) by {
        assert(key_bit(k1, 0, b) == bit_of(x1 as u64, b));
        assert(key_bit(k2, 0, b) == bit_of(x2 as u64, b));
    }
    assert forall|b: u64| b < 21 implies #[trigger] bit_of(y1 as u64, b) == bit_of(y2 as u64, b) by {
        assert(key_bit(k1, 0, b) == bit_of(x1 as u64, b));
        assert(key_bit(k2, 0, b) == bit_of(x2 as u64, b));
        assert(key_bit(k1, 1, b) == bit_of(y1 as u64, b));
        assert(key_bit(k2, 1, b) == bit_of(y2 as u64, b));
    }
    assert forall|b: u64| b < 21 implies #[trigger] bit_of(z1 as u64, b) == bit_of(z2 as u64, b) by {
        assert(key_bit(k1, 0, b) == bit_of(x1 as u64, b));
        assert(key_bit(k2, 0, b) == bit_of(x2 as u64, b));
        assert(key_bit(k1, 2, b) == bit_of(z1 as u64, b));
        assert(key_bit(k2, 2, b) == bit_of(z2 as u64, b));
    }
    lemma_low_bits_agree(x1 as u64, x2 as u64, 21);
    lemma_low_bits_agree(y1 as u64, y2 as u64, 21);
    lemma_low_bits_agree(z1 as u64, z2 as u64, 21);
    lemma_below_21_bits(x1 as u64);
    lemma_below_21_bits(x2 as u64);
    lemma_below_21_bits(y1 as u64);
    lemma_below_21_bits(y2 as u64);
    lemma_below_21_bits(z1 as u64);
    lemma_below_21_bits(z2 as u64);
}

/// A key read from bit `s` on is eight times the key read from bit `s + 3`
/// on, plus the three bits at `s`, `s + 1` and `s + 2`.
proof fn lemma_split_three(k: u64, s: u64)
    by (bit_vector)
    requires
        s <= 60,
    ensures
        k >> s == 8 * (k >> (s + 3)) + ((k >> s) & 1) + 2 * ((k >> (s + 1)) & 1) + 4 * ((k >> (s + 2))
            & 1),
{
}

/// A coordinate read from bit `m` on is twice the coordinate read from bit
/// `m + 1` on, plus bit `m`.
proof fn lemma_split_one(x: u64, m: u64)
    by (bit_vector)
    requires
        m < 63,
    ensures
        x >> m == 2 * (x >> (m + 1)) + ((x >> m) & 1),
{
}

proof fn lemma_shift_monotone(a: u64, b: u64, m: u64)
    by (bit_vector)
    requires
        a <= b,
    ensures
        a >> m <= b >> m,
{
}

proof fn lemma_high_bits_zero(x: u64)
    by (bit_vector)
    requires
        x < 0x20_0000,
    ensures
        x >> 21u64 == 0,
{
}

/// Keys laid out as `interleave3` promises compare, from bit `3 * m` up, as
/// their coordinates do from bit `m` up: no larger when every coordinate is
/// no larger, and equal only when the coordinates agree from bit `m` up.
proof fn lemma_key_prefix_monotone(
    x1: u64,
    y1: u64,
    z1: u64,
    x2: u64,
    y2: u64,
    z2: u64,
    k1: u64,
    k2: u64,
    m: u64,
)
    requires
        m <= 21,
        x1 < 0x20_0000,
        y1 < 0x20_0000,
        z1 < 0x20_0000,
        x2 < 0x20_0000,
        y2 < 0x20_0000,
        z2 < 0x20_0000,
        x1 <= x2,
        y1 <= y2,
        z1 <= z2,
        forall|b: u64|
            b < 21 ==> {
                &&& #[trigger] key_bit(k1, 0, b) == bit_of(x1, b)
                &&& key_bit(k1, 1, b) == bit_of(y1, b)
                &&& key_bit(k1, 2, b) == bit_of(z1, b)
            },
        forall|b: u64|
            b < 21 ==> {
                &&& #[trigger] key_bit(k2, 0, b) == bit_of(x2, b)
                &&& key_bit(k2, 1, b) == bit_of(y2, b)
                &&& key_bit(k2, 2, b) == bit_of(z2, b)
            },
        k1 >> 63 == 0,
        k2 >> 63 == 0,
    ensures
        k1 >> ((3 * m) as u64) <= k2 >> ((3 * m) as u64),
        k1 >> ((3 * m) as u64) == k2 >> ((3 * m) as u64) ==> x1 >> m == x2 >> m && y1 >> m == y2 >> m
            && z1 >> m == z2 >> m,
    decreases 21 - m,
{
    if m == 21 {
        lemma_high_bits_zero(x1);
        lemma_high_bits_zero(y1);
        lemma_high_bits_zero(z1);
        lemma_high_bits_zero(x2);
        lemma_high_bits_zero(y2);
        lemma_high_bits_zero(z2);
    } else {
        let n = (m + 1) as u64;
        lemma_key_prefix_monotone(x1, y1, z1, x2, y2, z2, k1, k2, n);
        let s = (3 * m) as u64;
        lemma_split_three(k1, s);
        lemma_split_three(k2, s);
        assert((s + 3) as u64 == (3 * n) as u64);
        assert(key_bit(k1, 0, m) == bit_of(x1, m));
        assert(key_bit(k2, 0, m) == bit_of(x2, m));
        assert(key_bit(k1, 0, m) == (k1 >> s) & 1);
        assert(key_bit(k1, 1, m) == (k1 >> ((s + 1) as u64)) & 1);
        assert(key_bit(k1, 2, m) == (k1 >> ((s + 2) as u64)) & 1);
        assert(key_bit(k2, 0, m) == (k2 >> s) & 1);
        assert(key_bit(k2, 1, m) == (k2 >> ((s + 1) as u64)) & 1);
        assert(key_bit(k2, 2, m) == (k2 >> ((s + 2) as u64)) & 1);
        lemma_split_one(x1, m);
        lemma_split_one(y1, m);
        lemma_split_one(z1, m);
        lemma_split_one(x2, m);
        lemma_split_one(y2, m);
        lemma_split_one(z2, m);
        lemma_shift_monotone(x1, x2, m);
        lemma_shift_monotone(y1, y2, m);
        lemma_shift_monotone(z1, z2, m);
        assert(bit_of(x1, m) <= 1 && bit_of(x2, m) <= 1 && bit_of(y1, m) <= 1 && bit_of(y2, m) <= 1
            && bit_of(z1, m) <= 1 && bit_of(z2, m) <= 1) by (bit_vector);
    }
}

/// Morton keys are monotone in each coordinate: two keys laid out as
/// `interleave3` promises, from coordinates below 2^21, compare as the
/// coordinates do when every coordinate of the first is at most the same
/// coordinate of the second.
pub proof fn lemma_interleave_monotone(x1: u32, y1: u32, z1: u32, x2: u32, y2: u32, z2: u32, k1: u64, k2: u64)
    requires
        x1 < 0x20_0000,
        y1 < 0x20_0000,
        z1 < 0x20_0000,
        x2 < 0x20_0000,
        y2 < 0x20_0000,
        z2 < 0x20_0000,
        x1 <= x2,
        y1 <= y2,
        z1 <= z2,
        forall|b: u64|
            b < 21 ==> {
                &&& #[trigger] key_bit(k1, 0, b) == bit_of(x1 as u64, b)
                &&& key_bit(k1, 1, b) == bit_of(y1 as u64, b)
                &&& key_bit(k1, 2, b) == bit_of(z1 as u64, b)
            },
        forall|b: u64|
            b < 21 ==> {
                &&& #[trigger] key_bit(k2, 0, b) == bit_of(x2 as u64, b)
                &&& key_bit(k2, 1, b) == bit_of(y2 as u64, b)
                &&& key_bit(k2, 2, b) == bit_of(z2 as u64, b)
            },
        k1 >> 63 == 0,
        k2 >> 63 == 0,
    ensures
        k1 <= k2,
{
    lemma_key_prefix_monotone(
        x1 as u64,
        y1 as u64,
        z1 as u64,
        x2 as u64,
        y2 as u64,
        z2 as u64,
        k1,
        k2,
        0,
    );
    assert(k1 >> 0u64 == k1 && k2 >> 0u64 == k2) by (bit_vector);
}

/// Number of octree levels that carry an octant: a cell at depth `d` has
/// half-width `1e5 / 2^d`, which first drops to the minimum cell size `1.0`
/// at depth 17.
pub const MAX_DEPTH: usize = 17;

/// Octant (0..8) that a path code selects at tree depth `depth`: three bits per
/// level, the root's octant in the lowest bits.
pub open spec fn octant_of(code: u64, depth: int) -> int {
    ((code >> ((3 * depth) as u64)) & 7u64) as int
}

/// Octant index of a point relative to a cell centre, given whether the point
/// lies at or above the centre on each axis.
pub open spec fn octant_from_flags(above_x: bool, above_y: bool, above_z: bool) -> int {
    (if above_x { 1int } else { 0int }) + (if above_y { 2int } else { 0int }) + (if above_z {
        4int
    } else {
        0int
    })
}

/// Whether octant `oct` lies on the upper side of its cell on `axis`.
pub open spec fn octant_is_upper(oct: int, axis: int) -> bool {
    if axis == 0 {
        oct % 2 == 1
    } else if axis == 1 {
        (oct / 2) % 2 == 1
    } else {
        (oct / 4) % 2 == 1
    }
}

proof fn lemma_octant_step(code: u64, o: u64, s: u64, p: u64)
    by (bit_vector)
    requires
        s <= 60,
        code >> s == 0,
        o < 8,
    ensures
        (code | (o << s)) >> (s + 3) == 0,
        ((code | (o << s)) >> s) & 7 == o,
        p + 3 <= s ==> ((code | (o << s)) >> p) & 7 == (code >> p) & 7,
{
}

proof fn lemma_low_three_bits(v: u64, s: u64)
    by (bit_vector)
    ensures
        (v >> s) & 7 < 8,
{
}

/// Every level selects one of the eight octants.
pub proof fn lemma_octant_range(code: u64, depth: int)
    ensures
        0 <= octant_of(code, depth) < 8,
{
    lemma_low_three_bits(code, (3 * depth) as u64);
}

/// Packs a sequence of octants (one per tree level, root first) into a path
/// code.
pub fn path_code(octants: &[u8]) -> (code: u64)
    requires
        octants@.len() <= 21,
        forall|d: int| 0 <= d < octants@.len() ==> octants@[d] < 8,
    ensures
        forall|d: int| 0 <= d < octants@.len() ==> #[trigger] octant_of(code, d) == octants@[d],
        code >> ((3 * octants@.len()) as u64) == 0,
{
    let mut code: u64 = 0;
    let mut d: usize = 0;
    assert(0u64 >> 0u64 == 0) by (bit_vector);
    while d < octants.len()
        invariant
            d <= octants@.len() <= 21,
            forall|i: int| 0 <= i < octants@.len() ==> octants@[i] < 8,
            forall|k: int| 0 <= k < d ==> #[trigger] octant_of(code, k) == octants@[k],
            code >> ((3 * d) as u64) == 0,
        decreases octants@.len() - d,
    {
        let s: u64 = 3 * (d as u64);
        let o: u64 = octants[d] as u64;
        let next: u64 = code | (o << s);
        proof {
            lemma_octant_step(code, o, s, 0);
            assert forall|k: int| 0 <= k < d + 1 implies #[trigger] octant_of(next, k)
                == octants@[k] by {
                if k < d {
                    lemma_octant_step(code, o, s, (3 * k) as u64);
                    assert(octant_of(code, k) == octants@[k]);
                } else {
                    assert((3 * k) as u64 == s);
                }
            }
            assert((3 * (d + 1)) as u64 == s + 3);
        }
        code = next;
        d = d + 1;
    }
    code
}

/// Octant selected by `code` at tree depth `depth`.
pub fn octant_at(code: u64, depth: usize) -> (oct: usize)
    requires
        depth < 21,
    ensures
        oct == octant_of(code, depth as int),
        oct < 8,
{
    let s: u64 = 3 * (depth as u64);
    proof {
        lemma_low_three_bits(code, s);
    }
    ((code >> s) & 7) as usize
}

/// Octant index (0..8) of a point from its three axis comparisons with the
/// cell centre: bit 0 for x, bit 1 for y, bit 2 for z.
pub fn octant_index(above_x: bool, above_y: bool, above_z: bool) -> (oct: usize)
    ensures
        oct == octant_from_flags(above_x, above_y, above_z),
{
    let bx: usize = if above_x { 1 } else { 0 };
    let by: usize = if above_y { 1 } else { 0 };
    let bz: usize = if above_z { 1 } else { 0 };
    assert(bx <= 1 && by <= 1 && bz <= 1 ==> (bx | (by << 1usize) | (bz << 2usize)) == bx + 2 * by
        + 4 * bz) by (bit_vector);
    bx | (by << 1) | (bz << 2)
}

/// Whether octant `oct` is the upper half of its cell along `axis`.
pub fn octant_upper(oct: usize, axis: usize) -> (upper: bool)
    requires
        oct < 8,
        axis < 3,
    ensures
        upper == octant_is_upper(oct as int, axis as int),
{
    assert(oct < 8 ==> (oct >> 0usize) & 1 == oct % 2 && (oct >> 1usize) & 1 == (oct / 2) % 2 && (
    oct >> 2usize) & 1 == (oct / 4) % 2) by (bit_vector);
    (oct >> axis) & 1 != 0
}

/// An octant index is recovered from its three axis flags, and the flags of
/// an octant built from flags are those flags.
pub proof fn lemma_octant_flags_round_trip(oct: int, above_x: bool, above_y: bool, above_z: bool)
    requires
        0 <= oct < 8,
    ensures
        octant_from_flags(
            octant_is_upper(oct, 0),
            octant_is_upper(oct, 1),
            octant_is_upper(oct, 2),
        ) == oct,
        octant_is_upper(octant_from_flags(above_x, above_y, above_z), 0) == above_x,
        octant_is_upper(octant_from_flags(above_x, above_y, above_z), 1) == above_y,
        octant_is_upper(octant_from_flags(above_x, above_y, above_z), 2) == above_z,
{
}

} // verus!
