//! The rotation that spreads pulses, and the one that takes it back.

use vstd::arithmetic::power2::lemma2_to64;
use vstd::prelude::*;
use crate::division_laws::lemma_pshr;
use crate::fixed::mult16_16;
use crate::pvq::{
    blocks_gathered, blocks_rotated, rotate, rotated_block, rotated_pair, rotation_of,
    spread_gathered, spread_rotated,
};

verus! {

/// A rotated coordinate is the exact one, rounded to nearest.
proof fn lemma_rotate(c: i16, a: i16, s: i16, b: i16)
    requires
        -32767 * 32767 <= c * a + s * b <= 32767 * 32767,
    ensures
        -16384 <= 32768 * rotate(c, a, s, b) - (c * a + s * b) <= 16384,
{
    lemma2_to64();
    assert(-32768 * 32768 <= c * a <= 32768 * 32768 && -32768 * 32768 <= s * b <= 32768 * 32768)
        by (nonlinear_arith)
        requires
            -32768 <= a <= 32767,
            -32768 <= b <= 32767,
            -32768 <= c <= 32767,
            -32768 <= s <= 32767,
    ;
    let sum = mult16_16(c, a).wrapping_add(mult16_16(s, b));
    assert(sum == c * a + s * b);
    lemma_pshr(sum, 15);
}

/// Rotating a pair and rotating it back gives the pair back, times the square of the length
/// of the rotation, up to two units.
pub proof fn law_pairs_turn_back(x: Seq<i16>, i: int, stride: int, c: i16, s: i16)
    requires
        0 <= i,
        1 <= stride,
        i + stride < x.len(),
        0 <= c,
        0 <= s,
        c * c + s * s <= 32768 * 32768 + 65536,
        -16384 <= x[i] <= 16384,
        -16384 <= x[i + stride] <= 16384,
    ensures
        ({
            let r = rotated_pair(
                rotated_pair(x, i, stride, c, s),
                i,
                stride,
                c,
                0i16.wrapping_sub(s),
            );
            let unit = 32768 * 32768int;
            let length = c * c + s * s;
            &&& r.len() == x.len()
            &&& -2 * unit <= unit * r[i] - length * x[i] <= 2 * unit
            &&& -2 * unit <= unit * r[i + stride] - length * x[i + stride] <= 2 * unit
            &&& forall|k: int|
                0 <= k < x.len() && k != i && k != i + stride ==> #[trigger] r[k] == x[k]
        }),
{
    let a = x[i];
    let b = x[i + stride];
    let t = 0i16.wrapping_sub(s);
    assert(t == -s);
    lemma_small(c, s, a, b);
    lemma_small(c, s, b, a);
    assert(t * b == -(s * b) && t * a == -(s * a)) by (nonlinear_arith)
        requires
            t == -s,
    ;
    lemma_rotate(c, a, t, b);
    lemma_rotate(c, b, s, a);
    let a1 = rotate(c, a, t, b);
    let b1 = rotate(c, b, s, a);
    let y = rotated_pair(x, i, stride, c, s);
    assert(y[i] == a1 && y[i + stride] == b1);
    assert(-23200 <= a1 <= 23200 && -23200 <= b1 <= 23200);
    let neg = 0i16.wrapping_sub(t);
    assert(neg == s);
    let p = (32768 * a1 - (c * a - s * b)) as int;
    let q = (32768 * b1 - (c * b + s * a)) as int;
    assert(-16384 <= p <= 16384 && -16384 <= q <= 16384);
    // Exact coordinates after turning back.
    let u = (c * a1 + s * b1) as int;
    let v = (c * b1 + t * a1) as int;
    assert(32768 * u == (c * c + s * s) * a + c * p + s * q) by (nonlinear_arith)
        requires
            u == c * a1 + s * b1,
            32768 * a1 == c * a - s * b + p,
            32768 * b1 == c * b + s * a + q,
    ;
    assert(32768 * v == (c * c + s * s) * b + c * q - s * p) by (nonlinear_arith)
        requires
            v == c * b1 + t * a1,
            t == -s,
            32768 * a1 == c * a - s * b + p,
            32768 * b1 == c * b + s * a + q,
    ;
    assert(-32768 * 16384 <= c * p <= 32768 * 16384 && -32768 * 16384 <= s * q <= 32768 * 16384
        && -32768 * 16384 <= c * q <= 32768 * 16384 && -32768 * 16384 <= s * p <= 32768 * 16384)
        by (nonlinear_arith)
        requires
            0 <= c <= 32767,
            0 <= s <= 32767,
            -16384 <= p <= 16384,
            -16384 <= q <= 16384,
    ;
    let length = (c * c + s * s) as int;
    assert(0 <= c * c && 0 <= s * s) by (nonlinear_arith);
    assert(-16384 * (32768 * 32768 + 65536) <= length * a <= 16384 * (32768 * 32768 + 65536) && -16384 * (
    32768 * 32768 + 65536) <= length * b <= 16384 * (32768 * 32768 + 65536)) by (nonlinear_arith)
        requires
            0 <= length <= 32768 * 32768 + 65536,
            -16384 <= a <= 16384,
            -16384 <= b <= 16384,
    ;
    lemma_rotate(c, a1, neg, b1);
    lemma_rotate(c, b1, t, a1);
}

/// A rotated pair stays small.
proof fn lemma_small(c: i16, s: i16, a: i16, b: i16)
    requires
        0 <= c,
        0 <= s,
        c * c + s * s <= 32768 * 32768 + 65536,
        -16384 <= a <= 16384,
        -16384 <= b <= 16384,
    ensures
        -23180 * 32768 <= c * a + s * b <= 23180 * 32768,
        -23180 * 32768 <= c * a - s * b <= 23180 * 32768,
{
    assert(c + s <= 46350) by (nonlinear_arith)
        requires
            c * c + s * s <= 32768 * 32768 + 65536,
            0 <= c,
            0 <= s,
    ;
    assert(-16384 * c <= c * a <= 16384 * c && -16384 * s <= s * b <= 16384 * s)
        by (nonlinear_arith)
        requires
            0 <= c,
            0 <= s,
            -16384 <= a <= 16384,
            -16384 <= b <= 16384,
    ;
}

/// Gathering is spreading the other way round: the same passes over the blocks with the
/// opposite sines. Where there are two passes they are made in the opposite order.
pub proof fn law_gathering_turns_back(
    x: Seq<i16>,
    from: int,
    blocks: int,
    len: int,
    stride2: int,
    c: i16,
    s: i16,
)
    requires
        0 <= from,
        s > -32768,
        c > -32768,
    ensures
        blocks_gathered(x, from, blocks, len, 0, c, s) == blocks_rotated(
            x,
            from,
            blocks,
            len,
            0,
            c,
            (-s) as i16,
        ),
        from + 1 == blocks && stride2 > 0 ==> blocks_gathered(x, from, blocks, len, stride2, c, s)
            == rotated_block(
            blocks_gathered(x, from, blocks, len, 0, c, s),
            from * len,
            len,
            stride2,
            s,
            (-c) as i16,
        ),
        from + 1 == blocks && stride2 > 0 ==> blocks_rotated(x, from, blocks, len, stride2, c, s)
            == blocks_rotated(
            rotated_block(x, from * len, len, stride2, s, c),
            from,
            blocks,
            len,
            0,
            c,
            s,
        ),
    decreases blocks - from,
{
    reveal_with_fuel(blocks_gathered, 2);
    reveal_with_fuel(blocks_rotated, 2);
    if from < blocks {
        let narrow = rotated_block(x, from * len, len, 1, c, (-s) as i16);
        law_gathering_turns_back(narrow, from + 1, blocks, len, stride2, c, s);
    }
}

/// Nothing is turned where a band is not to be spread, or where it has pulses for half of
/// its coefficients or more; otherwise both directions turn by the same angle.
pub proof fn law_spreading_only_where_pulses_are_few(
    x: Seq<i16>,
    blocks: int,
    k: int,
    spread: int,
)
    ensures
        spread == 0 || 2 * k >= x.len() ==> spread_rotated(x, blocks, k, spread) == x
            && spread_gathered(x, blocks, k, spread) == x,
        spread != 0 && 2 * k < x.len() ==> rotation_of(x.len() as int, blocks, k, spread) is Some,
{
}

} // verus!
