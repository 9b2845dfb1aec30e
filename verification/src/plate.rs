use vstd::prelude::*;
use crate::geometry::WorldDimension;

verus! {

/// All bits set when `value` holds, none otherwise.
pub fn mask(value: bool) -> (m: u32)
    ensures
        m == if value { u32::MAX } else { 0 },
{
    if value {
        u32::MAX
    } else {
        0
    }
}

/// `value` where `keep` holds, zero otherwise, computed as `value & mask(keep)`.
fn keep_if(value: u32, keep: bool) -> (r: u32)
    ensures
        r == if keep { value } else { 0 },
{
    let m = mask(keep);
    assert(value & 0xffff_ffffu32 == value) by (bit_vector);
    assert(value & 0u32 == 0) by (bit_vector);
    value & m
}

/// `a - b` on 32-bit words with wrap-around, for `a` and `b` in `u32` range.
pub open spec fn wrapped_diff(a: int, b: int) -> int {
    if a >= b {
        a - b
    } else {
        a - b + 0x1_0000_0000
    }
}

/// Distances from a coordinate `p` to a span of `size` cells starting at `lo`
/// on a wrapping axis of length `side`: the first component is the way back
/// past the span's start, the second the way on past its end. Only the
/// shorter one is kept, and only when it is shorter than the axis.
pub open spec fn near_side(lo: int, size: int, p: int, side: int) -> (int, int) {
    let before = wrapped_diff(lo, p);
    let after = wrapped_diff(if p < lo { side + p } else { p }, lo + size - 1);
    (
        if before < after && before < side { before } else { 0 },
        if after <= before && after < side { after } else { 0 },
    )
}

/// A non-zero distance rounded up to the next multiple of 8 strictly above it.
pub open spec fn round_up8(d: int) -> int {
    if d == 0 {
        0
    } else {
        (d / 8 + 1) * 8
    }
}

/// How many cells a span must grow before its start and after its end to
/// take in `p`. Where the rounded growth would overflow the axis, the span
/// grows after its end to the full axis instead.
pub open spec fn axis_growth(lo: int, size: int, p: int, side: int) -> (int, int) {
    let (a, b) = near_side(lo, size, p, side);
    if size + round_up8(a) + round_up8(b) > side {
        (0, side - size)
    } else {
        (round_up8(a), round_up8(b))
    }
}

/// Whether coordinate `p` lies in the span of `size` cells that starts at
/// `lo` on a wrapping axis of length `side`.
pub open spec fn in_span(lo: int, size: int, p: int, side: int) -> bool {
    (p - lo) % side < size
}

/// Cells added on each side of a plate's box when it grows to take in a
/// cell outside it.
#[derive(Debug, Clone, Copy, PartialEq, Eq, Structural)]
pub struct Growth {
    pub left: u32,
    pub right: u32,
    pub top: u32,
    pub bottom: u32,
}

fn round_up_to_eight(d: u32) -> (r: u32)
    requires
        d < 0xffff_fff0,
    ensures
        r == round_up8(d as int),
{
    let carry: u32 = if d > 0 {
        1
    } else {
        0
    };
    let eighths: u32 = d >> 3;
    assert(d >> 3 == d / 8) by (bit_vector);
    let u: u32 = carry + eighths;
    assert(u < 0x2000_0000);
    assert(u << 3 == u * 8) by (bit_vector)
        requires
            u < 0x2000_0000,
    ;
    u << 3
}

proof fn lemma_round_up8(d: int)
    requires
        d >= 0,
    ensures
        d == 0 ==> round_up8(d) == 0,
        d > 0 ==> d < round_up8(d) <= d + 8,
{
    if d > 0 {
        assert(d / 8 * 8 <= d) by (nonlinear_arith)
            requires
                d >= 0,
        ;
        assert(d < (d / 8 + 1) * 8) by (nonlinear_arith)
            requires
                d >= 0,
        ;
    }
}

/// Growth of one axis; see `axis_growth`.
fn axis_margins(lo: u32, size: u32, p: u32, side: u32) -> (r: (u32, u32))
    requires
        lo < side,
        0 < size <= side,
        p < side,
        3 * side + 14 <= u32::MAX,
    ensures
        r.0 == axis_growth(lo as int, size as int, p as int, side as int).0,
        r.1 == axis_growth(lo as int, size as int, p as int, side as int).1,
{
    let hi = lo + size - 1;
    let before = lo.wrapping_sub(p);
    let after = keep_if(side, p < lo).wrapping_add(p).wrapping_sub(hi);
    let a = keep_if(keep_if(before, before < after), before < side);
    let b = keep_if(keep_if(after, after <= before), after < side);
    let a8 = round_up_to_eight(a);
    let b8 = round_up_to_eight(b);
    proof {
        lemma_round_up8(a as int);
        lemma_round_up8(b as int);
    }
    if size + a8 + b8 > side {
        (0, side - size)
    } else {
        (a8, b8)
    }
}

proof fn lemma_axis_growth(lo: int, size: int, p: int, side: int)
    requires
        0 <= lo < side,
        0 < size <= side,
        0 <= p < side,
        3 * side + 14 <= u32::MAX,
    ensures
        ({
            let (a, b) = axis_growth(lo, size, p, side);
            &&& 0 <= a
            &&& 0 <= b
            &&& size + a + b <= side
            &&& in_span((lo - a) % side, size + a + b, p, side)
            &&& !in_span(lo, size, p, side) ==> a + b > 0
        }),
{
    let k = (p - lo) % side;
    assert(k == if p >= lo { p - lo } else { p - lo + side }) by {
        if p >= lo {
            vstd::arithmetic::div_mod::lemma_small_mod((p - lo) as nat, side as nat);
        } else {
            vstd::arithmetic::div_mod::lemma_mod_add_multiples_vanish(p - lo, side);
            vstd::arithmetic::div_mod::lemma_small_mod((p - lo + side) as nat, side as nat);
        }
    }
    let (a0, b0) = near_side(lo, size, p, side);
    lemma_round_up8(a0);
    lemma_round_up8(b0);
    let (a, b) = axis_growth(lo, size, p, side);
    let shifted = (lo - a) % side;
    assert(shifted == if lo >= a { lo - a } else { lo - a + side }) by {
        if lo >= a {
            vstd::arithmetic::div_mod::lemma_small_mod((lo - a) as nat, side as nat);
        } else {
            vstd::arithmetic::div_mod::lemma_mod_add_multiples_vanish(lo - a, side);
            vstd::arithmetic::div_mod::lemma_small_mod((lo - a + side) as nat, side as nat);
        }
    }
    let m = (p - shifted) % side;
    assert(m == (k + a) % side) by {
        vstd::arithmetic::div_mod::lemma_mod_add_multiples_vanish(p - lo + a, side);
        vstd::arithmetic::div_mod::lemma_mod_sub_multiples_vanish(p - lo + a, side);
        vstd::arithmetic::div_mod::lemma_add_mod_noop(p - lo, a, side);
        vstd::arithmetic::div_mod::lemma_mod_twice(p - lo, side);
    }
    if k + a < side {
        vstd::arithmetic::div_mod::lemma_small_mod((k + a) as nat, side as nat);
    } else {
        assert(k + a < 2 * side);
        vstd::arithmetic::div_mod::lemma_mod_sub_multiples_vanish(k + a, side);
        vstd::arithmetic::div_mod::lemma_small_mod((k + a - side) as nat, side as nat);
    }
}

/// How far a plate's box (`width` x `height` cells whose top-left cell is
/// `(left, top)`) must grow on each side to take in the cell `(x, y)`, both
/// coordinates taken modulo the world's sides. Each side grows by the
/// shorter of the two ways round, rounded up past the next multiple of 8;
/// where that would make the box wider (or taller) than the world, it grows
/// to the world's full width (or height) instead.
///
/// The grown box fits in the world and holds the cell, and a cell outside
/// the box makes it grow.
pub fn growth_margins(
    dimensions: WorldDimension,
    left: u32,
    top: u32,
    width: u32,
    height: u32,
    x: u32,
    y: u32,
) -> (g: Growth)
    requires
        left < dimensions.spec_width(),
        top < dimensions.spec_height(),
        0 < width <= dimensions.spec_width(),
        0 < height <= dimensions.spec_height(),
        3 * dimensions.spec_width() + 14 <= u32::MAX,
        3 * dimensions.spec_height() + 14 <= u32::MAX,
    ensures
        ({
            let w = dimensions.spec_width() as int;
            let h = dimensions.spec_height() as int;
            let px = x as int % w;
            let py = y as int % h;
            &&& g.left == axis_growth(left as int, width as int, px, w).0
            &&& g.right == axis_growth(left as int, width as int, px, w).1
            &&& g.top == axis_growth(top as int, height as int, py, h).0
            &&& g.bottom == axis_growth(top as int, height as int, py, h).1
            &&& width + g.left + g.right <= w
            &&& height + g.top + g.bottom <= h
            &&& in_span((left - g.left) % w, width + g.left + g.right, px, w)
            &&& in_span((top - g.top) % h, height + g.top + g.bottom, py, h)
            &&& !(in_span(left as int, width as int, px, w) && in_span(
                top as int,
                height as int,
                py,
                h,
            )) ==> g.left + g.right + g.top + g.bottom > 0
        }),
{
    let w = dimensions.width();
    let h = dimensions.height();
    let mut px = x;
    let mut py = y;
    dimensions.normalize(&mut px, &mut py);
    let (d_left, d_right) = axis_margins(left, width, px, w);
    let (d_top, d_bottom) = axis_margins(top, height, py, h);
    proof {
        lemma_axis_growth(left as int, width as int, px as int, w as int);
        lemma_axis_growth(top as int, height as int, py as int, h as int);
    }
    Growth { left: d_left, right: d_right, top: d_top, bottom: d_bottom }
}

/// The cell at row `r`, column `c` of a `new_width`-wide grid into which an
/// `old_width`-wide grid of `old_height` rows was placed with its top-left
/// cell at `(left, top)`, every other cell holding `fill`.
pub open spec fn embedded_cell<T>(
    values: Seq<T>,
    old_width: int,
    old_height: int,
    left: int,
    top: int,
    fill: T,
    r: int,
    c: int,
) -> T {
    if top <= r < top + old_height && left <= c < left + old_width {
        values[(r - top) * old_width + (c - left)]
    } else {
        fill
    }
}

/// Places a row-major grid of `old_width` x `old_height` cells into a larger
/// `new_width` x `new_height` grid, with its top-left cell at `(left, top)`;
/// the remaining cells hold `fill`. This is how a plate's maps follow its
/// box when the box grows.
pub fn embed_grid<T: Copy>(
    values: &[T],
    old_width: u32,
    old_height: u32,
    new_width: u32,
    new_height: u32,
    left: u32,
    top: u32,
    fill: T,
) -> (out: Vec<T>)
    requires
        values@.len() == old_width * old_height,
        left + old_width <= new_width,
        top + old_height <= new_height,
        new_width * new_height <= u32::MAX,
    ensures
        out@.len() == new_width * new_height,
        forall|r: int, c: int|
            0 <= r < new_height && 0 <= c < new_width ==> #[trigger] out@[r * new_width + c]
                == embedded_cell(
                values@,
                old_width as int,
                old_height as int,
                left as int,
                top as int,
                fill,
                r,
                c,
            ),
{
    let mut out: Vec<T> = Vec::new();
    let mut r: u32 = 0;
    while r < new_height
        invariant
            values@.len() == old_width * old_height,
            left + old_width <= new_width,
            top + old_height <= new_height,
            new_width * new_height <= u32::MAX,
            r <= new_height,
            out@.len() == r * new_width,
            forall|rr: int, cc: int|
                0 <= rr < r && 0 <= cc < new_width ==> #[trigger] out@[rr * new_width + cc]
                    == embedded_cell(
                    values@,
                    old_width as int,
                    old_height as int,
                    left as int,
                    top as int,
                    fill,
                    rr,
                    cc,
                ),
        decreases new_height - r,
    {
        let mut c: u32 = 0;
        while c < new_width
            invariant
                values@.len() == old_width * old_height,
                left + old_width <= new_width,
                top + old_height <= new_height,
                new_width * new_height <= u32::MAX,
                r < new_height,
                c <= new_width,
                out@.len() == r * new_width + c,
                forall|rr: int, cc: int|
                    0 <= rr < r && 0 <= cc < new_width ==> #[trigger] out@[rr * new_width + cc]
                        == embedded_cell(
                        values@,
                        old_width as int,
                        old_height as int,
                        left as int,
                        top as int,
                        fill,
                        rr,
                        cc,
                    ),
                forall|cc: int|
                    0 <= cc < c ==> #[trigger] out@[r * new_width + cc] == embedded_cell(
                        values@,
                        old_width as int,
                        old_height as int,
                        left as int,
                        top as int,
                        fill,
                        r as int,
                        cc,
                    ),
            decreases new_width - c,
        {
            proof {
                assert((r + 1) * new_width <= new_height * new_width) by (nonlinear_arith)
                    requires
                        r < new_height,
                ;
                assert(r * new_width + c < (r + 1) * new_width) by (nonlinear_arith)
                    requires
                        c < new_width,
                ;
            }
            if top <= r && r < top + old_height && left <= c && c < left + old_width {
                proof {
                    let rr = (r - top) as int;
                    let cc = (c - left) as int;
                    assert(rr * old_width + cc < old_width * old_height) by (nonlinear_arith)
                        requires
                            0 <= rr < old_height,
                            0 <= cc < old_width,
                    ;
                    assert(old_width * old_height <= new_width * new_height) by (nonlinear_arith)
                        requires
                            old_width <= new_width,
                            old_height <= new_height,
                    ;
                }
                let i = ((r - top) * old_width + (c - left)) as usize;
                out.push(values[i]);
            } else {
                out.push(fill);
            }
            proof {
                assert forall|rr: int, cc: int|
                    0 <= rr < r && 0 <= cc < new_width implies #[trigger] out@[rr * new_width
                    + cc] == embedded_cell(
                    values@,
                    old_width as int,
                    old_height as int,
                    left as int,
                    top as int,
                    fill,
                    rr,
                    cc,
                ) by {
                    assert(rr * new_width + cc < r * new_width) by (nonlinear_arith)
                        requires
                            0 <= rr < r,
                            0 <= cc < new_width,
                    ;
                }
            }
            c += 1;
        }
        proof {
            assert forall|rr: int, cc: int|
                0 <= rr < r + 1 && 0 <= cc < new_width implies #[trigger] out@[rr * new_width
                + cc] == embedded_cell(
                values@,
                old_width as int,
                old_height as int,
                left as int,
                top as int,
                fill,
                rr,
                cc,
            ) by {
                if rr == r {
                } else {
                }
            }
            assert(out@.len() == (r + 1) * new_width) by (nonlinear_arith)
                requires
                    out@.len() == r * new_width + new_width,
            ;
        }
        r += 1;
    }
    assert(out@.len() == new_width * new_height) by (nonlinear_arith)
        requires
            out@.len() == r * new_width,
            r == new_height,
    ;
    out
}

} // verus!
