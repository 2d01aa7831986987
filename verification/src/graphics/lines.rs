use crate::coordinate::Coordinate;
use crate::coordinate::LineCoordinates;
use crate::coordinate::x_normalized;
use crate::coordinate::y_normalized;
use crate::graphics::image::Image;
use crate::graphics::image::lemma_index_bounds;
use crate::graphics::image::lemma_pixel_update;
use crate::graphics::image::pix;
use crate::validate;
use vstd::prelude::*;

verus! {

/// The absolute value of an integer.
pub open spec fn spec_abs(v: int) -> int {
    if v < 0 {
        -v
    } else {
        v
    }
}

/// Whether the horizontal-line rasterizer plots row `i`, column `j`: after
/// normalizing so the first endpoint has the lesser `x`, it walks `x` from one
/// endpoint to the other inclusive at the first endpoint's `y`.
pub open spec fn hline_hits(l: LineCoordinates, i: int, j: int) -> bool {
    let a = x_normalized(l);
    &&& a.first.x <= i <= a.second.x
    &&& j == a.first.y
}

/// Whether the vertical-line rasterizer plots row `i`, column `j`: after
/// normalizing so the first endpoint has the lesser `y`, it walks `y` from one
/// endpoint to the other inclusive at the first endpoint's `x`.
pub open spec fn vline_hits(l: LineCoordinates, i: int, j: int) -> bool {
    let a = y_normalized(l);
    &&& i == a.first.x
    &&& a.first.y <= j <= a.second.y
}

/// Whether the diagonal rasterizer plots row `i`, column `j`: after
/// x-normalization it steps both coordinates together once per `y` value from
/// the first endpoint's `y` to the second's; when the normalized `y` values
/// descend it plots nothing.
pub open spec fn diag_hits(l: LineCoordinates, i: int, j: int) -> bool {
    let a = x_normalized(l);
    &&& a.first.y <= j <= a.second.y
    &&& i - a.first.x == j - a.first.y
}

/// The state of Bresenham's shallow-slope walk after `k` steps along `x`:
/// the accumulated `y` offset and the decision variable, starting from
/// `d = 2*dy - dx` and stepping `y` exactly when the decision is positive.
pub open spec fn bres_gen_state(dx: int, dy: int, k: nat) -> (int, int)
    decreases k,
{
    if k == 0 {
        (0, 2 * dy - dx)
    } else {
        let prev = bres_gen_state(dx, dy, (k - 1) as nat);
        if prev.1 > 0 {
            (prev.0 + 1, prev.1 + 2 * dy - 2 * dx)
        } else {
            (prev.0, prev.1 + 2 * dy)
        }
    }
}

/// The facts the shallow-slope walk maintains: the offset is non-negative and
/// never outruns `dy`, and the decision variable satisfies Bresenham's closed
/// form `d_k == 2*(k+1)*dy - (2*e_k + 1)*dx`, which also bounds it.
pub proof fn lemma_bres_gen_props(dx: int, dy: int, k: nat)
    requires
        1 <= dx < 0x1_0000_0000,
        -0x1_0000_0000 < dy < 0x1_0000_0000,
        spec_abs(dy) < dx,
        k <= dx + 1,
    ensures
        0 <= bres_gen_state(dx, dy, k).0,
        bres_gen_state(dx, dy, k).1 == 2 * (k + 1) * dy - (2 * bres_gen_state(dx, dy, k).0 + 1)
            * dx,
        dy <= 0 ==> bres_gen_state(dx, dy, k).0 == 0,
        dy > 0 ==> bres_gen_state(dx, dy, k).0 <= dy + 1,
        dy > 0 && k <= dx ==> bres_gen_state(dx, dy, k).0 <= dy,
        dy > 0 ==> (2 * bres_gen_state(dx, dy, k).0 - 1) * dx <= 2 * k * dy && 2 * k * dy <= (2
            * bres_gen_state(dx, dy, k).0 + 1) * dx,
        -0x8_0000_0000_0000_0000 < bres_gen_state(dx, dy, k).1 < 0x8_0000_0000_0000_0000,
    decreases k,
{
    if k == 0 {
        assert(bres_gen_state(dx, dy, 0) == (0int, 2 * dy - dx));
        assert(2 * dy - dx == 2 * (0 + 1) * dy - (2 * 0 + 1) * dx) by (nonlinear_arith);
        assert((2 * 0 - 1) * dx <= 2 * 0 * dy && 2 * 0 * dy <= (2 * 0 + 1) * dx)
            by (nonlinear_arith)
            requires
                dx >= 1,
        ;
    } else {
        lemma_bres_gen_props(dx, dy, (k - 1) as nat);
        let e0 = bres_gen_state(dx, dy, (k - 1) as nat).0;
        let d0 = bres_gen_state(dx, dy, (k - 1) as nat).1;
        let e = bres_gen_state(dx, dy, k).0;
        let d = bres_gen_state(dx, dy, k).1;
        if d0 > 0 {
            assert(e == e0 + 1 && d == d0 + 2 * dy - 2 * dx);
            if dy <= 0 {
                assert(false) by (nonlinear_arith)
                    requires
                        d0 > 0,
                        d0 == 2 * ((k - 1) + 1) * dy - (2 * e0 + 1) * dx,
                        k >= 1,
                        e0 == 0,
                        dy <= 0,
                        dx >= 1,
                ;
            }
            if k <= dx {
                assert(e0 < dy) by (nonlinear_arith)
                    requires
                        d0 > 0,
                        d0 == 2 * ((k - 1) + 1) * dy - (2 * e0 + 1) * dx,
                        k <= dx,
                        dy >= 1,
                        dx >= 1,
                        e0 >= 0,
                ;
            }
            assert(d == 2 * (k + 1) * dy - (2 * e + 1) * dx) by (nonlinear_arith)
                requires
                    d0 == 2 * ((k - 1) + 1) * dy - (2 * e0 + 1) * dx,
                    d == d0 + 2 * dy - 2 * dx,
                    e == e0 + 1,
                    k >= 1,
            ;
            if dy > 0 {
                assert((2 * e - 1) * dx <= 2 * k * dy && 2 * k * dy <= (2 * e + 1) * dx)
                    by (nonlinear_arith)
                    requires
                        d0 > 0,
                        d0 == 2 * k * dy - (2 * e0 + 1) * dx,
                        2 * (k - 1) * dy <= (2 * e0 + 1) * dx,
                        e == e0 + 1,
                        dy < dx,
                        dy >= 1,
                        dx >= 1,
                ;
            }
        } else {
            assert(e == e0 && d == d0 + 2 * dy);
            assert(d == 2 * (k + 1) * dy - (2 * e + 1) * dx) by (nonlinear_arith)
                requires
                    d0 == 2 * ((k - 1) + 1) * dy - (2 * e0 + 1) * dx,
                    d == d0 + 2 * dy,
                    e == e0,
                    k >= 1,
            ;
            if dy > 0 {
                assert((2 * e - 1) * dx <= 2 * k * dy && 2 * k * dy <= (2 * e + 1) * dx)
                    by (nonlinear_arith)
                    requires
                        d0 <= 0,
                        d0 == 2 * k * dy - (2 * e0 + 1) * dx,
                        (2 * e0 - 1) * dx <= 2 * (k - 1) * dy,
                        e == e0,
                        dy >= 1,
                        dx >= 1,
                ;
            }
        }
        assert(-0x8_0000_0000_0000_0000 < d < 0x8_0000_0000_0000_0000) by (nonlinear_arith)
            requires
                d == 2 * (k + 1) * dy - (2 * e + 1) * dx,
                0 <= k + 1 <= 0x1_0000_0001,
                -0x1_0000_0000 < dy < 0x1_0000_0000,
                1 <= dx < 0x1_0000_0000,
                0 <= e < 0x1_0000_0001,
        ;
    }
}

/// At the last step of the shallow-slope walk the accumulated offset has
/// reached `dy` exactly: a non-negative-slope segment ends on its endpoint.
pub proof fn lemma_bres_gen_ends_on_endpoint(dx: int, dy: int)
    requires
        1 <= dx < 0x1_0000_0000,
        0 <= dy < 0x1_0000_0000,
        dy < dx,
    ensures
        bres_gen_state(dx, dy, dx as nat).0 == dy,
{
    lemma_bres_gen_props(dx, dy, dx as nat);
    let e = bres_gen_state(dx, dy, dx as nat).0;
    if dy > 0 {
        assert(e == dy) by (nonlinear_arith)
            requires
                (2 * e - 1) * dx <= 2 * dx * dy,
                2 * dx * dy <= (2 * e + 1) * dx,
                dx >= 1,
        ;
    }
}

/// Whether the shallow-slope Bresenham branch plots row `i`, column `j`.
pub open spec fn bres_gen_hits(l: LineCoordinates, i: int, j: int) -> bool {
    let a = x_normalized(l);
    let dx = a.second.x - a.first.x;
    let dy = a.second.y - a.first.y;
    &&& a.first.x <= i <= a.second.x
    &&& j == a.first.y + bres_gen_state(dx, dy, (i - a.first.x) as nat).0
}

/// The state of Bresenham's steep-slope walk after `k` steps along `y`:
/// the accumulated `x` offset and the decision variable, starting from
/// `d = 2*dx - dy` and stepping `x` exactly when the decision is positive.
pub open spec fn bres_steep_state(dx: int, dy: int, k: nat) -> (int, int)
    decreases k,
{
    if k == 0 {
        (0, 2 * dx - dy)
    } else {
        let prev = bres_steep_state(dx, dy, (k - 1) as nat);
        if prev.1 > 0 {
            (prev.0 + 1, prev.1 + 2 * dx - 2 * dy)
        } else {
            (prev.0, prev.1 + 2 * dx)
        }
    }
}

/// The steep twin of [`lemma_bres_gen_props`]: the same facts with the roles
/// of the two axes exchanged.
pub proof fn lemma_bres_steep_props(dx: int, dy: int, k: nat)
    requires
        1 <= dy < 0x1_0000_0000,
        -0x1_0000_0000 < dx < 0x1_0000_0000,
        spec_abs(dx) < dy,
        k <= dy + 1,
    ensures
        0 <= bres_steep_state(dx, dy, k).0,
        bres_steep_state(dx, dy, k).1 == 2 * (k + 1) * dx - (2 * bres_steep_state(dx, dy, k).0 + 1)
            * dy,
        dx <= 0 ==> bres_steep_state(dx, dy, k).0 == 0,
        dx > 0 ==> bres_steep_state(dx, dy, k).0 <= dx + 1,
        dx > 0 && k <= dy ==> bres_steep_state(dx, dy, k).0 <= dx,
        dx > 0 ==> (2 * bres_steep_state(dx, dy, k).0 - 1) * dy <= 2 * k * dx && 2 * k * dx <= (2
            * bres_steep_state(dx, dy, k).0 + 1) * dy,
        -0x8_0000_0000_0000_0000 < bres_steep_state(dx, dy, k).1 < 0x8_0000_0000_0000_0000,
    decreases k,
{
    if k == 0 {
        assert(bres_steep_state(dx, dy, 0) == (0int, 2 * dx - dy));
        assert(2 * dx - dy == 2 * (0 + 1) * dx - (2 * 0 + 1) * dy) by (nonlinear_arith);
        assert((2 * 0 - 1) * dy <= 2 * 0 * dx && 2 * 0 * dx <= (2 * 0 + 1) * dy)
            by (nonlinear_arith)
            requires
                dy >= 1,
        ;
    } else {
        lemma_bres_steep_props(dx, dy, (k - 1) as nat);
        let e0 = bres_steep_state(dx, dy, (k - 1) as nat).0;
        let d0 = bres_steep_state(dx, dy, (k - 1) as nat).1;
        let e = bres_steep_state(dx, dy, k).0;
        let d = bres_steep_state(dx, dy, k).1;
        if d0 > 0 {
            assert(e == e0 + 1 && d == d0 + 2 * dx - 2 * dy);
            if dx <= 0 {
                assert(false) by (nonlinear_arith)
                    requires
                        d0 > 0,
                        d0 == 2 * ((k - 1) + 1) * dx - (2 * e0 + 1) * dy,
                        k >= 1,
                        e0 == 0,
                        dx <= 0,
                        dy >= 1,
                ;
            }
            if k <= dy {
                assert(e0 < dx) by (nonlinear_arith)
                    requires
                        d0 > 0,
                        d0 == 2 * ((k - 1) + 1) * dx - (2 * e0 + 1) * dy,
                        k <= dy,
                        dx >= 1,
                        dy >= 1,
                        e0 >= 0,
                ;
            }
            assert(d == 2 * (k + 1) * dx - (2 * e + 1) * dy) by (nonlinear_arith)
                requires
                    d0 == 2 * ((k - 1) + 1) * dx - (2 * e0 + 1) * dy,
                    d == d0 + 2 * dx - 2 * dy,
                    e == e0 + 1,
                    k >= 1,
            ;
            if dx > 0 {
                assert((2 * e - 1) * dy <= 2 * k * dx && 2 * k * dx <= (2 * e + 1) * dy)
                    by (nonlinear_arith)
                    requires
                        d0 > 0,
                        d0 == 2 * k * dx - (2 * e0 + 1) * dy,
                        2 * (k - 1) * dx <= (2 * e0 + 1) * dy,
                        e == e0 + 1,
                        dx < dy,
                        dx >= 1,
                        dy >= 1,
                ;
            }
        } else {
            assert(e == e0 && d == d0 + 2 * dx);
            assert(d == 2 * (k + 1) * dx - (2 * e + 1) * dy) by (nonlinear_arith)
                requires
                    d0 == 2 * ((k - 1) + 1) * dx - (2 * e0 + 1) * dy,
                    d == d0 + 2 * dx,
                    e == e0,
                    k >= 1,
            ;
            if dx > 0 {
                assert((2 * e - 1) * dy <= 2 * k * dx && 2 * k * dx <= (2 * e + 1) * dy)
                    by (nonlinear_arith)
                    requires
                        d0 <= 0,
                        d0 == 2 * k * dx - (2 * e0 + 1) * dy,
                        (2 * e0 - 1) * dy <= 2 * (k - 1) * dx,
                        e == e0,
                        dx >= 1,
                        dy >= 1,
                ;
            }
        }
        assert(-0x8_0000_0000_0000_0000 < d < 0x8_0000_0000_0000_0000) by (nonlinear_arith)
            requires
                d == 2 * (k + 1) * dx - (2 * e + 1) * dy,
                0 <= k + 1 <= 0x1_0000_0001,
                -0x1_0000_0000 < dx < 0x1_0000_0000,
                1 <= dy < 0x1_0000_0000,
                0 <= e < 0x1_0000_0001,
        ;
    }
}

/// At the last step of the steep-slope walk the accumulated offset has
/// reached `dx` exactly: a non-negative-slope segment ends on its endpoint.
pub proof fn lemma_bres_steep_ends_on_endpoint(dx: int, dy: int)
    requires
        1 <= dy < 0x1_0000_0000,
        0 <= dx < 0x1_0000_0000,
        dx < dy,
    ensures
        bres_steep_state(dx, dy, dy as nat).0 == dx,
{
    lemma_bres_steep_props(dx, dy, dy as nat);
    let e = bres_steep_state(dx, dy, dy as nat).0;
    if dx > 0 {
        assert(e == dx) by (nonlinear_arith)
            requires
                (2 * e - 1) * dy <= 2 * dy * dx,
                2 * dy * dx <= (2 * e + 1) * dy,
                dy >= 1,
        ;
    }
}

/// Whether the steep-slope Bresenham branch plots row `i`, column `j`.
pub open spec fn bres_steep_hits(l: LineCoordinates, i: int, j: int) -> bool {
    let a = y_normalized(l);
    let dx = a.second.x - a.first.x;
    let dy = a.second.y - a.first.y;
    &&& a.first.y <= j <= a.second.y
    &&& i == a.first.x + bres_steep_state(dx, dy, (j - a.first.y) as nat).0
}

/// Whether `draw_line_bresenham` plots row `i`, column `j`: the segment is
/// classified by the absolute slope of its endpoints - vertical (`dx == 0`,
/// including the degenerate single point), horizontal, exact diagonal, steep,
/// or shallow - and dispatched to the matching rasterizer.
pub open spec fn bres_hits(l: LineCoordinates, i: int, j: int) -> bool {
    let adx = spec_abs(l.second.x - l.first.x);
    let ady = spec_abs(l.second.y - l.first.y);
    if adx == 0 {
        vline_hits(l, i, j)
    } else if ady == 0 {
        hline_hits(l, i, j)
    } else if ady == adx {
        diag_hits(l, i, j)
    } else if ady > adx {
        bres_steep_hits(l, i, j)
    } else {
        bres_gen_hits(l, i, j)
    }
}

/// The number of steps the DDA walk takes: the larger of the two absolute
/// coordinate deltas.
pub open spec fn dda_steps(l: LineCoordinates) -> int {
    let adx = spec_abs(l.second.x - l.first.x);
    let ady = spec_abs(l.second.y - l.first.y);
    if adx > ady {
        adx
    } else {
        ady
    }
}

/// The pixel the DDA walk plots at step `k`: the exact accumulated position
/// `first + k * delta / steps` on each axis, rounded towards zero.
pub open spec fn dda_point(l: LineCoordinates, k: int) -> (int, int) {
    let dx = l.second.x - l.first.x;
    let dy = l.second.y - l.first.y;
    let s = dda_steps(l);
    ((l.first.x * s + k * dx) / s, (l.first.y * s + k * dy) / s)
}

/// Whether the DDA rasterizer plots row `i`, column `j`: it walks steps
/// `0, 1, ..., steps - 1`, so the first endpoint is always plotted and the
/// walk stops one step short of the second.
pub open spec fn dda_hits(l: LineCoordinates, i: int, j: int) -> bool {
    exists|k: int| 0 <= k < dda_steps(l) && #[trigger] dda_point(l, k) == (i, j)
}

/// Law: a Bresenham line over a segment that does not descend (the product of
/// its coordinate deltas is non-negative, counting axis-aligned segments in)
/// plots both of its endpoint pixels.  On a descending segment the dispatched
/// walks keep their starting row or column instead, so the law is stated for
/// the non-descending ones.
pub proof fn lemma_bresenham_visits_endpoints(l: LineCoordinates)
    requires
        (l.second.x - l.first.x) * (l.second.y - l.first.y) >= 0,
    ensures
        bres_hits(l, l.first.x as int, l.first.y as int),
        bres_hits(l, l.second.x as int, l.second.y as int),
{
    let dx = l.second.x - l.first.x;
    let dy = l.second.y - l.first.y;
    assert((dx >= 0 && dy >= 0) || (dx <= 0 && dy <= 0)) by (nonlinear_arith)
        requires
            dx * dy >= 0,
    ;
    let adx = spec_abs(dx);
    let ady = spec_abs(dy);
    if adx == 0 {
    } else if ady == 0 {
    } else if ady == adx {
    } else if ady > adx {
        let a = y_normalized(l);
        let dxn = a.second.x - a.first.x;
        let dyn_ = a.second.y - a.first.y;
        assert(dyn_ == ady && dxn == adx);
        assert(bres_steep_state(dxn, dyn_, 0) == (0int, 2 * dxn - dyn_));
        lemma_bres_steep_ends_on_endpoint(dxn, dyn_);
    } else {
        let a = x_normalized(l);
        let dxn = a.second.x - a.first.x;
        let dyn_ = a.second.y - a.first.y;
        assert(dxn == adx && dyn_ == ady);
        assert(bres_gen_state(dxn, dyn_, 0) == (0int, 2 * dyn_ - dxn));
        lemma_bres_gen_ends_on_endpoint(dxn, dyn_);
    }
}

/// A quotient squeezed between two multiples of the divisor lies between the
/// multipliers.
pub proof fn lemma_div_between(lo: int, num: int, hi: int, s: int)
    requires
        s >= 1,
        lo * s <= num,
        num <= hi * s,
    ensures
        lo <= num / s <= hi,
{
    vstd::arithmetic::div_mod::lemma_fundamental_div_mod(num, s);
    vstd::arithmetic::div_mod::lemma_mod_division_less_than_divisor(num, s);
    let q = num / s;
    let m = num % s;
    assert(lo <= q <= hi) by (nonlinear_arith)
        requires
            num == s * q + m,
            0 <= m < s,
            lo * s <= num,
            num <= hi * s,
            s >= 1,
    ;
}

/// Law: a DDA line of at least one step plots its first endpoint pixel; its
/// walk runs `steps` steps from there, stopping one step short of the second
/// endpoint.
pub proof fn lemma_dda_visits_first_endpoint(l: LineCoordinates)
    requires
        dda_steps(l) >= 1,
    ensures
        dda_hits(l, l.first.x as int, l.first.y as int),
{
    let s = dda_steps(l);
    lemma_div_between(l.first.x as int, l.first.x * s, l.first.x as int, s);
    lemma_div_between(l.first.y as int, l.first.y * s, l.first.y as int, s);
    assert(dda_point(l, 0) == (l.first.x as int, l.first.y as int));
}

impl Image {
    /// The exact accumulated DDA position on one axis at step `k`, rounded
    /// towards zero; it always lies between the axis endpoints.
    fn dda_axis(a0: i32, a1: i32, steps: i64, k: i64) -> (r: i32)
        requires
            0 <= a0,
            0 <= a1,
            1 <= steps < 0x8000_0000,
            0 <= k < steps,
            spec_abs(a1 - a0) <= steps,
        ensures
            r == (a0 * steps + k * (a1 - a0)) / (steps as int),
            if a0 <= a1 {
                a0 <= r <= a1
            } else {
                a1 <= r <= a0
            },
    {
        let delta: i64 = a1 as i64 - a0 as i64;
        proof {
            assert(0 <= (a0 as int) * (steps as int) < 0x4000_0000_0000_0000) by (nonlinear_arith)
                requires
                    0 <= a0 < 0x8000_0000,
                    1 <= steps < 0x8000_0000,
            ;
            assert(-0x4000_0000_0000_0000 < (k as int) * (delta as int) < 0x4000_0000_0000_0000)
                by (nonlinear_arith)
                requires
                    0 <= k < steps < 0x8000_0000,
                    -0x8000_0000 < delta < 0x8000_0000,
            ;
        }
        let num: i64 = a0 as i64 * steps + k * delta;
        proof {
            if delta >= 0 {
                assert((a0 as int) * (steps as int) <= num <= (a1 as int) * (steps as int))
                    by (nonlinear_arith)
                    requires
                        num == (a0 as int) * (steps as int) + (k as int) * (delta as int),
                        a1 == a0 + delta,
                        delta >= 0,
                        0 <= k < steps,
                ;
                assert(0 <= (a0 as int) * (steps as int)) by (nonlinear_arith)
                    requires
                        0 <= a0,
                        1 <= steps,
                ;
                lemma_div_between(a0 as int, num as int, a1 as int, steps as int);
            } else {
                assert((a1 as int) * (steps as int) <= num <= (a0 as int) * (steps as int))
                    by (nonlinear_arith)
                    requires
                        num == (a0 as int) * (steps as int) + (k as int) * (delta as int),
                        a1 == a0 + delta,
                        delta < 0,
                        0 <= k < steps,
                ;
                assert(0 <= (a1 as int) * (steps as int)) by (nonlinear_arith)
                    requires
                        0 <= a1,
                        1 <= steps,
                ;
                lemma_div_between(a1 as int, num as int, a0 as int, steps as int);
            }
        }
        let q: u64 = (num as u64) / (steps as u64);
        q as i32
    }

    /// Renders a line using the Digital Differential Analyzer algorithm: the
    /// accumulated position advances by `delta / steps` per axis each step and
    /// is rounded towards zero before plotting; `steps` positions are plotted
    /// starting at the first endpoint, one step short of the second.
    pub fn draw_line_dda(&mut self, color: u32, coords: LineCoordinates) -> (r: Result<
        (),
        validate::ValidationError,
    >)
        requires
            old(self).wf(),
        ensures
            final(self).wf(),
            final(self).rows == old(self).rows,
            final(self).cols == old(self).cols,
            r is Ok <==> validate::spec_line_coordinates(*old(self), coords) is Ok,
            r is Err ==> final(self).data@ == old(self).data@ && Err::<(), _>(r->Err_0)
                == validate::spec_line_coordinates(*old(self), coords),
            r is Ok ==> forall|i: int, j: int|
                0 <= i < old(self).rows && 0 <= j < old(self).cols ==> #[trigger] pix(
                    final(self).data@,
                    old(self).cols as int,
                    i,
                    j,
                ) == if dda_hits(coords, i, j) {
                    color
                } else {
                    pix(old(self).data@, old(self).cols as int, i, j)
                },
    {
        if let Err(e) = validate::line_coordinates(&*self, &coords) {
            return Err(e);
        }
        let a = coords.first;
        let b = coords.second;
        let dxl: i64 = b.x as i64 - a.x as i64;
        let dyl: i64 = b.y as i64 - a.y as i64;
        let adx: i64 = if dxl < 0 {
            -dxl
        } else {
            dxl
        };
        let ady: i64 = if dyl < 0 {
            -dyl
        } else {
            dyl
        };
        let steps: i64 = if adx > ady {
            adx
        } else {
            ady
        };
        let rows = self.rows;
        let cols = self.cols;
        let mut k: i64 = 0;
        while k < steps
            invariant
                self.wf(),
                self.rows == old(self).rows,
                self.cols == old(self).cols,
                rows == self.rows,
                cols == self.cols,
                a == coords.first,
                b == coords.second,
                old(self).spec_in_bounds(a),
                old(self).spec_in_bounds(b),
                steps == dda_steps(coords),
                0 <= steps < 0x8000_0000,
                0 <= k <= steps,
                forall|i: int, j: int|
                    0 <= i < rows && 0 <= j < cols ==> #[trigger] pix(
                        self.data@,
                        cols as int,
                        i,
                        j,
                    ) == if exists|m: int|
                        0 <= m < k && #[trigger] dda_point(coords, m) == (i, j) {
                        color
                    } else {
                        pix(old(self).data@, cols as int, i, j)
                    },
            decreases steps - k,
        {
            let px = Image::dda_axis(a.x, b.x, steps, k);
            let py = Image::dda_axis(a.y, b.y, steps, k);
            proof {
                assert(dda_point(coords, k as int) == (px as int, py as int));
            }
            let ghost prev = self.data@;
            let p = Coordinate::new(px, py);
            let res = self.set_pixel(p, color);
            proof {
                assert(res is Ok);
                lemma_pixel_update(
                    prev,
                    self.data@,
                    rows as int,
                    cols as int,
                    px as int,
                    py as int,
                    color,
                );
                assert forall|i: int, j: int| 0 <= i < rows && 0 <= j < cols implies #[trigger] pix(
                    self.data@,
                    cols as int,
                    i,
                    j,
                ) == if exists|m: int| 0 <= m < k + 1 && #[trigger] dda_point(coords, m) == (i, j) {
                    color
                } else {
                    pix(old(self).data@, cols as int, i, j)
                } by {
                    assert(pix(prev, cols as int, i, j) == if exists|m: int|
                        0 <= m < k && #[trigger] dda_point(coords, m) == (i, j) {
                        color
                    } else {
                        pix(old(self).data@, cols as int, i, j)
                    });
                    if i == px as int && j == py as int {
                        assert(dda_point(coords, k as int) == (i, j));
                        assert(exists|m: int|
                            0 <= m < k + 1 && #[trigger] dda_point(coords, m) == (i, j));
                    } else {
                        if exists|m: int|
                            0 <= m < k + 1 && #[trigger] dda_point(coords, m) == (i, j) {
                            let m = choose|m: int|
                                0 <= m < k + 1 && #[trigger] dda_point(coords, m) == (i, j);
                            assert(m != k);
                            assert(exists|m2: int|
                                0 <= m2 < k && #[trigger] dda_point(coords, m2) == (i, j));
                        }
                    }
                }
            }
            k = k + 1;
        }
        Ok(())
    }

    /// Renders the pixels of a line whose slope is zero: after normalizing so
    /// the first endpoint has the lesser `x`, every `x` between the endpoints
    /// inclusive is plotted at the first endpoint's `y`.
    pub fn draw_horizontal_line(&mut self, color: u32, coords: LineCoordinates) -> (r: Result<
        (),
        validate::ValidationError,
    >)
        requires
            old(self).wf(),
        ensures
            final(self).wf(),
            final(self).rows == old(self).rows,
            final(self).cols == old(self).cols,
            r is Ok <==> validate::spec_line_coordinates(*old(self), coords) is Ok,
            r is Err ==> final(self).data@ == old(self).data@ && Err::<(), _>(r->Err_0)
                == validate::spec_line_coordinates(*old(self), coords),
            r is Ok ==> forall|i: int, j: int|
                0 <= i < old(self).rows && 0 <= j < old(self).cols ==> #[trigger] pix(
                    final(self).data@,
                    old(self).cols as int,
                    i,
                    j,
                ) == if hline_hits(coords, i, j) {
                    color
                } else {
                    pix(old(self).data@, old(self).cols as int, i, j)
                },
    {
        if let Err(e) = validate::line_coordinates(&*self, &coords) {
            return Err(e);
        }
        let norm = coords.ensure_x_lr();
        let a = norm.first;
        let b = norm.second;
        let rows = self.rows;
        let cols = self.cols;
        let mut xx: i64 = a.x as i64;
        while xx <= b.x as i64
            invariant
                self.wf(),
                self.rows == old(self).rows,
                self.cols == old(self).cols,
                rows == self.rows,
                cols == self.cols,
                a == x_normalized(coords).first,
                b == x_normalized(coords).second,
                a.x <= b.x,
                old(self).spec_in_bounds(a),
                old(self).spec_in_bounds(b),
                a.x as i64 <= xx <= b.x as i64 + 1,
                forall|i: int, j: int|
                    0 <= i < rows && 0 <= j < cols ==> #[trigger] pix(
                        self.data@,
                        cols as int,
                        i,
                        j,
                    ) == if a.x <= i < xx && j == a.y {
                        color
                    } else {
                        pix(old(self).data@, cols as int, i, j)
                    },
            decreases b.x as int + 1 - xx as int,
        {
            let ghost prev = self.data@;
            let p = Coordinate::new(xx as i32, a.y);
            let res = self.set_pixel(p, color);
            proof {
                assert(res is Ok);
                lemma_pixel_update(
                    prev,
                    self.data@,
                    rows as int,
                    cols as int,
                    xx as int,
                    a.y as int,
                    color,
                );
                assert forall|i: int, j: int| 0 <= i < rows && 0 <= j < cols implies #[trigger] pix(
                    self.data@,
                    cols as int,
                    i,
                    j,
                ) == if a.x <= i < xx + 1 && j == a.y {
                    color
                } else {
                    pix(old(self).data@, cols as int, i, j)
                } by {
                    assert(pix(prev, cols as int, i, j) == if a.x <= i < xx && j == a.y {
                        color
                    } else {
                        pix(old(self).data@, cols as int, i, j)
                    });
                }
            }
            xx = xx + 1;
        }
        Ok(())
    }

    /// Renders the pixels of a line whose slope is infinite: after normalizing
    /// so the first endpoint has the lesser `y`, every `y` between the
    /// endpoints inclusive is plotted at the first endpoint's `x`.
    pub fn draw_vertical_line(&mut self, color: u32, coords: LineCoordinates) -> (r: Result<
        (),
        validate::ValidationError,
    >)
        requires
            old(self).wf(),
        ensures
            final(self).wf(),
            final(self).rows == old(self).rows,
            final(self).cols == old(self).cols,
            r is Ok <==> validate::spec_line_coordinates(*old(self), coords) is Ok,
            r is Err ==> final(self).data@ == old(self).data@ && Err::<(), _>(r->Err_0)
                == validate::spec_line_coordinates(*old(self), coords),
            r is Ok ==> forall|i: int, j: int|
                0 <= i < old(self).rows && 0 <= j < old(self).cols ==> #[trigger] pix(
                    final(self).data@,
                    old(self).cols as int,
                    i,
                    j,
                ) == if vline_hits(coords, i, j) {
                    color
                } else {
                    pix(old(self).data@, old(self).cols as int, i, j)
                },
    {
        if let Err(e) = validate::line_coordinates(&*self, &coords) {
            return Err(e);
        }
        let norm = coords.ensure_y_lr();
        let a = norm.first;
        let b = norm.second;
        let rows = self.rows;
        let cols = self.cols;
        let mut yy: i64 = a.y as i64;
        while yy <= b.y as i64
            invariant
                self.wf(),
                self.rows == old(self).rows,
                self.cols == old(self).cols,
                rows == self.rows,
                cols == self.cols,
                a == y_normalized(coords).first,
                b == y_normalized(coords).second,
                a.y <= b.y,
                old(self).spec_in_bounds(a),
                old(self).spec_in_bounds(b),
                a.y as i64 <= yy <= b.y as i64 + 1,
                forall|i: int, j: int|
                    0 <= i < rows && 0 <= j < cols ==> #[trigger] pix(
                        self.data@,
                        cols as int,
                        i,
                        j,
                    ) == if i == a.x && a.y <= j < yy {
                        color
                    } else {
                        pix(old(self).data@, cols as int, i, j)
                    },
            decreases b.y as int + 1 - yy as int,
        {
            let ghost prev = self.data@;
            let p = Coordinate::new(a.x, yy as i32);
            let res = self.set_pixel(p, color);
            proof {
                assert(res is Ok);
                lemma_pixel_update(
                    prev,
                    self.data@,
                    rows as int,
                    cols as int,
                    a.x as int,
                    yy as int,
                    color,
                );
                assert forall|i: int, j: int| 0 <= i < rows && 0 <= j < cols implies #[trigger] pix(
                    self.data@,
                    cols as int,
                    i,
                    j,
                ) == if i == a.x && a.y <= j < yy + 1 {
                    color
                } else {
                    pix(old(self).data@, cols as int, i, j)
                } by {
                    assert(pix(prev, cols as int, i, j) == if i == a.x && a.y <= j < yy {
                        color
                    } else {
                        pix(old(self).data@, cols as int, i, j)
                    });
                }
            }
            yy = yy + 1;
        }
        Ok(())
    }

    /// Renders the pixels of a line whose slope has absolute value one: after
    /// x-normalization both coordinates step together once per `y` value.
    fn draw_diagonal_line(&mut self, color: u32, coords: LineCoordinates) -> (r: Result<
        (),
        validate::ValidationError,
    >)
        requires
            old(self).wf(),
            spec_abs(coords.second.y - coords.first.y) == spec_abs(coords.second.x - coords.first.x),
        ensures
            final(self).wf(),
            final(self).rows == old(self).rows,
            final(self).cols == old(self).cols,
            r is Ok <==> validate::spec_line_coordinates(*old(self), coords) is Ok,
            r is Err ==> final(self).data@ == old(self).data@ && Err::<(), _>(r->Err_0)
                == validate::spec_line_coordinates(*old(self), coords),
            r is Ok ==> forall|i: int, j: int|
                0 <= i < old(self).rows && 0 <= j < old(self).cols ==> #[trigger] pix(
                    final(self).data@,
                    old(self).cols as int,
                    i,
                    j,
                ) == if diag_hits(coords, i, j) {
                    color
                } else {
                    pix(old(self).data@, old(self).cols as int, i, j)
                },
    {
        if let Err(e) = validate::line_coordinates(&*self, &coords) {
            return Err(e);
        }
        let norm = coords.ensure_x_lr();
        let a = norm.first;
        let b = norm.second;
        let rows = self.rows;
        let cols = self.cols;
        let mut yy: i64 = a.y as i64;
        while yy <= b.y as i64
            invariant
                self.wf(),
                self.rows == old(self).rows,
                self.cols == old(self).cols,
                rows == self.rows,
                cols == self.cols,
                a == x_normalized(coords).first,
                b == x_normalized(coords).second,
                a.x <= b.x,
                b.x - a.x == spec_abs(b.y - a.y),
                old(self).spec_in_bounds(a),
                old(self).spec_in_bounds(b),
                a.y as i64 <= yy,
                a.y <= b.y ==> yy <= b.y as i64 + 1,
                a.y > b.y ==> yy == a.y as i64,
                forall|i: int, j: int|
                    0 <= i < rows && 0 <= j < cols ==> #[trigger] pix(
                        self.data@,
                        cols as int,
                        i,
                        j,
                    ) == if a.y <= j < yy && i - a.x == j - a.y {
                        color
                    } else {
                        pix(old(self).data@, cols as int, i, j)
                    },
            decreases b.y as int + 1 - yy as int,
        {
            let ghost prev = self.data@;
            let px: i64 = a.x as i64 + (yy - a.y as i64);
            let p = Coordinate::new(px as i32, yy as i32);
            let res = self.set_pixel(p, color);
            proof {
                assert(res is Ok);
                lemma_pixel_update(
                    prev,
                    self.data@,
                    rows as int,
                    cols as int,
                    px as int,
                    yy as int,
                    color,
                );
                assert forall|i: int, j: int| 0 <= i < rows && 0 <= j < cols implies #[trigger] pix(
                    self.data@,
                    cols as int,
                    i,
                    j,
                ) == if a.y <= j < yy + 1 && i - a.x == j - a.y {
                    color
                } else {
                    pix(old(self).data@, cols as int, i, j)
                } by {
                    assert(pix(prev, cols as int, i, j) == if a.y <= j < yy && i - a.x == j - a.y {
                        color
                    } else {
                        pix(old(self).data@, cols as int, i, j)
                    });
                }
            }
            yy = yy + 1;
        }
        Ok(())
    }

    /// Renders the pixels of a line whose slope has absolute value strictly
    /// between zero and one, by Bresenham's decision-variable walk along `x`.
    /// Expects coordinates that the dispatcher has already validated.
    fn bresenham_general(&mut self, color: u32, coords: LineCoordinates) -> (r: Result<
        (),
        validate::ValidationError,
    >)
        requires
            old(self).wf(),
            old(self).spec_in_bounds(coords.first),
            old(self).spec_in_bounds(coords.second),
            spec_abs(coords.second.y - coords.first.y) < spec_abs(coords.second.x - coords.first.x),
        ensures
            final(self).wf(),
            final(self).rows == old(self).rows,
            final(self).cols == old(self).cols,
            r == Ok::<(), validate::ValidationError>(()),
            forall|i: int, j: int|
                0 <= i < old(self).rows && 0 <= j < old(self).cols ==> #[trigger] pix(
                    final(self).data@,
                    old(self).cols as int,
                    i,
                    j,
                ) == if bres_gen_hits(coords, i, j) {
                    color
                } else {
                    pix(old(self).data@, old(self).cols as int, i, j)
                },
    {
        let norm = coords.ensure_x_lr();
        let a = norm.first;
        let b = norm.second;
        let (dx, dy) = a.delta_wrt(&b);
        let dxl: i128 = dx as i128;
        let dyl: i128 = dy as i128;
        let rows = self.rows;
        let cols = self.cols;
        let mut d: i128 = 2 * dyl - dxl;
        let mut y: i64 = a.y as i64;
        let mut xx: i64 = a.x as i64;
        while xx <= b.x as i64
            invariant
                self.wf(),
                self.rows == old(self).rows,
                self.cols == old(self).cols,
                rows == self.rows,
                cols == self.cols,
                a == x_normalized(coords).first,
                b == x_normalized(coords).second,
                old(self).spec_in_bounds(a),
                old(self).spec_in_bounds(b),
                dxl == b.x - a.x,
                dyl == b.y - a.y,
                spec_abs(dyl as int) < dxl,
                1 <= dxl < 0x8000_0000,
                -0x8000_0000 < dyl < 0x8000_0000,
                a.x as i64 <= xx <= b.x as i64 + 1,
                y - a.y == bres_gen_state(dxl as int, dyl as int, (xx - a.x) as nat).0,
                d == bres_gen_state(dxl as int, dyl as int, (xx - a.x) as nat).1,
                forall|i: int, j: int|
                    0 <= i < rows && 0 <= j < cols ==> #[trigger] pix(
                        self.data@,
                        cols as int,
                        i,
                        j,
                    ) == if a.x <= i < xx && j == a.y + bres_gen_state(
                        dxl as int,
                        dyl as int,
                        (i - a.x) as nat,
                    ).0 {
                        color
                    } else {
                        pix(old(self).data@, cols as int, i, j)
                    },
            decreases b.x as int + 1 - xx as int,
        {
            let ghost prev = self.data@;
            let ghost kk: int = xx as int - a.x as int;
            let ghost e: int = y as int - a.y as int;
            let ghost dold: int = d as int;
            proof {
                lemma_bres_gen_props(dxl as int, dyl as int, kk as nat);
                lemma_bres_gen_props(dxl as int, dyl as int, (kk + 1) as nat);
            }
            let p = Coordinate::new(xx as i32, y as i32);
            let res = self.set_pixel(p, color);
            proof {
                assert(res is Ok);
                lemma_pixel_update(
                    prev,
                    self.data@,
                    rows as int,
                    cols as int,
                    xx as int,
                    y as int,
                    color,
                );
                assert forall|i: int, j: int| 0 <= i < rows && 0 <= j < cols implies #[trigger] pix(
                    self.data@,
                    cols as int,
                    i,
                    j,
                ) == if a.x <= i < xx + 1 && j == a.y + bres_gen_state(
                    dxl as int,
                    dyl as int,
                    (i - a.x) as nat,
                ).0 {
                    color
                } else {
                    pix(old(self).data@, cols as int, i, j)
                } by {
                    assert(pix(prev, cols as int, i, j) == if a.x <= i < xx && j == a.y
                        + bres_gen_state(dxl as int, dyl as int, (i - a.x) as nat).0 {
                        color
                    } else {
                        pix(old(self).data@, cols as int, i, j)
                    });
                }
            }
            proof {
                assert(bres_gen_state(dxl as int, dyl as int, (kk + 1) as nat) == if dold > 0 {
                    (e + 1, dold + 2 * (dyl as int) - 2 * (dxl as int))
                } else {
                    (e, dold + 2 * (dyl as int))
                });
            }
            if d > 0 {
                d = d + 2 * dyl - 2 * dxl;
                y = y + 1;
            } else {
                d = d + 2 * dyl;
            }
            xx = xx + 1;
        }
        Ok(())
    }

    /// Renders the pixels of a line whose slope has absolute value strictly
    /// greater than one, by Bresenham's decision-variable walk along `y`.
    /// Expects coordinates that the dispatcher has already validated.
    fn bresenham_slope_greater_than_1(&mut self, color: u32, coords: LineCoordinates) -> (r: Result<
        (),
        validate::ValidationError,
    >)
        requires
            old(self).wf(),
            old(self).spec_in_bounds(coords.first),
            old(self).spec_in_bounds(coords.second),
            spec_abs(coords.second.x - coords.first.x) < spec_abs(coords.second.y - coords.first.y),
        ensures
            final(self).wf(),
            final(self).rows == old(self).rows,
            final(self).cols == old(self).cols,
            r == Ok::<(), validate::ValidationError>(()),
            forall|i: int, j: int|
                0 <= i < old(self).rows && 0 <= j < old(self).cols ==> #[trigger] pix(
                    final(self).data@,
                    old(self).cols as int,
                    i,
                    j,
                ) == if bres_steep_hits(coords, i, j) {
                    color
                } else {
                    pix(old(self).data@, old(self).cols as int, i, j)
                },
    {
        let norm = coords.ensure_y_lr();
        let a = norm.first;
        let b = norm.second;
        let (dx, dy) = a.delta_wrt(&b);
        let dxl: i128 = dx as i128;
        let dyl: i128 = dy as i128;
        let rows = self.rows;
        let cols = self.cols;
        let mut d: i128 = 2 * dxl - dyl;
        let mut x: i64 = a.x as i64;
        let mut yy: i64 = a.y as i64;
        while yy <= b.y as i64
            invariant
                self.wf(),
                self.rows == old(self).rows,
                self.cols == old(self).cols,
                rows == self.rows,
                cols == self.cols,
                a == y_normalized(coords).first,
                b == y_normalized(coords).second,
                old(self).spec_in_bounds(a),
                old(self).spec_in_bounds(b),
                dxl == b.x - a.x,
                dyl == b.y - a.y,
                spec_abs(dxl as int) < dyl,
                1 <= dyl < 0x8000_0000,
                -0x8000_0000 < dxl < 0x8000_0000,
                a.y as i64 <= yy <= b.y as i64 + 1,
                x - a.x == bres_steep_state(dxl as int, dyl as int, (yy - a.y) as nat).0,
                d == bres_steep_state(dxl as int, dyl as int, (yy - a.y) as nat).1,
                forall|i: int, j: int|
                    0 <= i < rows && 0 <= j < cols ==> #[trigger] pix(
                        self.data@,
                        cols as int,
                        i,
                        j,
                    ) == if a.y <= j < yy && i == a.x + bres_steep_state(
                        dxl as int,
                        dyl as int,
                        (j - a.y) as nat,
                    ).0 {
                        color
                    } else {
                        pix(old(self).data@, cols as int, i, j)
                    },
            decreases b.y as int + 1 - yy as int,
        {
            let ghost prev = self.data@;
            let ghost kk: int = yy as int - a.y as int;
            let ghost e: int = x as int - a.x as int;
            let ghost dold: int = d as int;
            proof {
                lemma_bres_steep_props(dxl as int, dyl as int, kk as nat);
                lemma_bres_steep_props(dxl as int, dyl as int, (kk + 1) as nat);
            }
            let p = Coordinate::new(x as i32, yy as i32);
            let res = self.set_pixel(p, color);
            proof {
                assert(res is Ok);
                lemma_pixel_update(
                    prev,
                    self.data@,
                    rows as int,
                    cols as int,
                    x as int,
                    yy as int,
                    color,
                );
                assert forall|i: int, j: int| 0 <= i < rows && 0 <= j < cols implies #[trigger] pix(
                    self.data@,
                    cols as int,
                    i,
                    j,
                ) == if a.y <= j < yy + 1 && i == a.x + bres_steep_state(
                    dxl as int,
                    dyl as int,
                    (j - a.y) as nat,
                ).0 {
                    color
                } else {
                    pix(old(self).data@, cols as int, i, j)
                } by {
                    assert(pix(prev, cols as int, i, j) == if a.y <= j < yy && i == a.x
                        + bres_steep_state(dxl as int, dyl as int, (j - a.y) as nat).0 {
                        color
                    } else {
                        pix(old(self).data@, cols as int, i, j)
                    });
                }
            }
            proof {
                assert(bres_steep_state(dxl as int, dyl as int, (kk + 1) as nat) == if dold > 0 {
                    (e + 1, dold + 2 * (dxl as int) - 2 * (dyl as int))
                } else {
                    (e, dold + 2 * (dxl as int))
                });
            }
            if d > 0 {
                d = d + 2 * dxl - 2 * dyl;
                x = x + 1;
            } else {
                d = d + 2 * dxl;
            }
            yy = yy + 1;
        }
        Ok(())
    }

    /// Renders a line using Bresenham's line algorithm: the endpoints are
    /// validated, the segment is classified by its slope, and the matching
    /// exact rasterizer is dispatched.  A segment with equal endpoints counts
    /// as vertical (its slope is taken as infinite).
    pub fn draw_line_bresenham(&mut self, color: u32, coords: LineCoordinates) -> (r: Result<
        (),
        validate::ValidationError,
    >)
        requires
            old(self).wf(),
        ensures
            final(self).wf(),
            final(self).rows == old(self).rows,
            final(self).cols == old(self).cols,
            r is Ok <==> validate::spec_line_coordinates(*old(self), coords) is Ok,
            r is Err ==> final(self).data@ == old(self).data@ && Err::<(), _>(r->Err_0)
                == validate::spec_line_coordinates(*old(self), coords),
            r is Ok ==> forall|i: int, j: int|
                0 <= i < old(self).rows && 0 <= j < old(self).cols ==> #[trigger] pix(
                    final(self).data@,
                    old(self).cols as int,
                    i,
                    j,
                ) == if bres_hits(coords, i, j) {
                    color
                } else {
                    pix(old(self).data@, old(self).cols as int, i, j)
                },
    {
        if let Err(e) = validate::line_coordinates(&*self, &coords) {
            return Err(e);
        }
        let dx64: i64 = coords.second.x as i64 - coords.first.x as i64;
        let dy64: i64 = coords.second.y as i64 - coords.first.y as i64;
        let adx: i64 = if dx64 < 0 {
            -dx64
        } else {
            dx64
        };
        let ady: i64 = if dy64 < 0 {
            -dy64
        } else {
            dy64
        };
        if adx == 0 {
            self.draw_vertical_line(color, coords)
        } else if ady == 0 {
            self.draw_horizontal_line(color, coords)
        } else if ady == adx {
            self.draw_diagonal_line(color, coords)
        } else if ady > adx {
            self.bresenham_slope_greater_than_1(color, coords)
        } else {
            self.bresenham_general(color, coords)
        }
    }
}

} // verus!
