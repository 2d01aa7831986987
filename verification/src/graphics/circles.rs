use crate::coordinate::CircleCoordinates;
use crate::coordinate::Coordinate;
use crate::coordinate::LineCoordinates;
use crate::graphics::image::Image;
use crate::graphics::image::lemma_index_bounds;
use crate::graphics::image::lemma_pixel_update;
use crate::graphics::image::pix;
use crate::graphics::lines::vline_hits;
use crate::validate;
use vstd::prelude::*;

verus! {

/// A flat row-major index decomposes into the row `n / cols` and the column
/// `n % cols`.
pub proof fn lemma_index_decompose(rows: int, cols: int, n: int)
    requires
        cols >= 1,
        0 <= n < rows * cols,
    ensures
        0 <= n / cols < rows,
        0 <= n % cols < cols,
        (n / cols) * cols + (n % cols) == n,
{
    vstd::arithmetic::div_mod::lemma_fundamental_div_mod(n, cols);
    vstd::arithmetic::div_mod::lemma_mod_division_less_than_divisor(n, cols);
    assert(0 <= n / cols < rows) by (nonlinear_arith)
        requires
            n == cols * (n / cols) + n % cols,
            0 <= n % cols < cols,
            0 <= n < rows * cols,
            cols >= 1,
    ;
    assert((n / cols) * cols + (n % cols) == n) by (nonlinear_arith)
        requires
            n == cols * (n / cols) + n % cols,
    ;
}

/// The `y` value the midpoint rule selects at position `x`: `y` steps towards
/// zero exactly when the midpoint `(x, y + 1/2)` lies strictly outside the
/// circle, i.e. `x^2 + (y + 1/2)^2 > r^2`, which over the integers is
/// `x^2 + y^2 + y >= r^2`.
pub open spec fn circle_step_y(x: int, y: int, r: int) -> int {
    if x * x + y * y + y >= r * r {
        y + 1
    } else {
        y
    }
}

/// The sequence of `(x, y)` offset pairs the midpoint walk visits, starting
/// from the given state: while `x < -y`, the decision rule adjusts `y`, the
/// pair is recorded, and `x` advances.
pub open spec fn circle_pairs(x: int, y: int, r: int) -> Seq<(int, int)>
    decreases -y - x + 1,
{
    if x >= -y {
        Seq::empty()
    } else {
        let y2 = circle_step_y(x, y, r);
        seq![(x, y2)] + circle_pairs(x + 1, y2, r)
    }
}

/// Whether `p` is one of the eight symmetric images of the offset pair `q`
/// around the center `c` - the eight points the midpoint walk plots for `q`.
pub open spec fn is_reflection(c: Coordinate, q: (int, int), p: (int, int)) -> bool {
    ||| p == (c.x + q.0, c.y + q.1)
    ||| p == (c.x - q.0, c.y + q.1)
    ||| p == (c.x + q.0, c.y - q.1)
    ||| p == (c.x - q.0, c.y - q.1)
    ||| p == (c.x + q.1, c.y + q.0)
    ||| p == (c.x + q.1, c.y - q.0)
    ||| p == (c.x - q.1, c.y + q.0)
    ||| p == (c.x - q.1, c.y - q.0)
}

/// Whether `draw_circle` plots row `i`, column `j`: the point is a reflection
/// of some pair the midpoint walk visits for this circle.
pub open spec fn circle_hits(c: CircleCoordinates, i: int, j: int) -> bool {
    exists|q: (int, int)|
        #[trigger] circle_pairs(0, -(c.radius as int), c.radius as int).contains(q)
            && is_reflection(c.center, q, (i, j))
}

/// The buffer after `draw_circle` succeeds: every cell the circle hits holds
/// the color, every other cell is unchanged.
pub open spec fn apply_circle(
    data: Seq<u32>,
    cols: int,
    color: u32,
    coords: CircleCoordinates,
) -> Seq<u32> {
    Seq::new(
        data.len(),
        |n: int|
            if circle_hits(coords, n / cols, n % cols) {
                color
            } else {
                data[n]
            },
    )
}

/// The buffer after a vertical-line fill: every cell the line hits holds the
/// color, every other cell is unchanged.
pub open spec fn apply_vline(data: Seq<u32>, cols: int, color: u32, l: LineCoordinates) -> Seq<
    u32,
> {
    Seq::new(
        data.len(),
        |n: int|
            if vline_hits(l, n / cols, n % cols) {
                color
            } else {
                data[n]
            },
    )
}

/// The all-zero segment the scanline pass starts each row with.
pub open spec fn zero_segment() -> LineCoordinates {
    LineCoordinates { first: Coordinate { x: 0, y: 0 }, second: Coordinate { x: 0, y: 0 } }
}

/// The segment-tracking state of the scanline pass after examining the first
/// `n` columns of `row`: a cell holding the border color becomes the segment
/// start while start and end share a column, and the segment end afterwards.
pub open spec fn scan_row_state(
    data: Seq<u32>,
    cols: int,
    row: int,
    color: u32,
    n: nat,
) -> LineCoordinates
    decreases n,
{
    if n == 0 {
        zero_segment()
    } else {
        let prev = scan_row_state(data, cols, row, color, (n - 1) as nat);
        let col = n - 1;
        if pix(data, cols, row, col) == color && prev.first.y == prev.second.y {
            LineCoordinates {
                first: Coordinate { x: row as i32, y: col as i32 },
                second: prev.second,
            }
        } else if pix(data, cols, row, col) == color {
            LineCoordinates {
                first: prev.first,
                second: Coordinate { x: row as i32, y: col as i32 },
            }
        } else {
            prev
        }
    }
}

/// One row of the scanline pass: scan the whole row, and if any segment was
/// recorded, fill it with the vertical-line rasterizer.
pub open spec fn scan_fill_row(data: Seq<u32>, cols: int, color: u32, row: int) -> Seq<u32> {
    let st = scan_row_state(data, cols, row, color, cols as nat);
    if st == zero_segment() {
        data
    } else {
        apply_vline(data, cols, color, st)
    }
}

/// The scanline pass over the first `n` rows, in order; each row scans the
/// buffer as left by the rows before it.
pub open spec fn scan_fill(data: Seq<u32>, cols: int, color: u32, n: nat) -> Seq<u32>
    decreases n,
{
    if n == 0 {
        data
    } else {
        scan_fill_row(scan_fill(data, cols, color, (n - 1) as nat), cols, color, n - 1)
    }
}

/// The scanline pass only ever paints the fill color: any cell it touches
/// holds the color afterwards, and any other cell is unchanged.
proof fn lemma_scan_fill_only_paints(data: Seq<u32>, cols: int, color: u32, n: nat, idx: int)
    requires
        0 <= idx < data.len(),
    ensures
        scan_fill(data, cols, color, n).len() == data.len(),
        scan_fill(data, cols, color, n)[idx] == data[idx] || scan_fill(data, cols, color, n)[idx]
            == color,
        data[idx] == color ==> scan_fill(data, cols, color, n)[idx] == color,
    decreases n,
{
    if n > 0 {
        lemma_scan_fill_only_paints(data, cols, color, (n - 1) as nat, idx);
    }
}

/// The part of the fill contract that holds of every circle: a successful
/// `draw_filled_circle` changes a cell only by painting it the fill color, so
/// any cell that does not hold the fill color afterwards is unchanged from the
/// buffer before the call.
pub proof fn lemma_filled_circle_only_paints(
    data: Seq<u32>,
    cols: int,
    color: u32,
    coords: CircleCoordinates,
    rows: nat,
    idx: int,
)
    requires
        0 <= idx < data.len(),
    ensures
        ({
            let out = scan_fill(apply_circle(data, cols, color, coords), cols, color, rows);
            out.len() == data.len() && (out[idx] == data[idx] || out[idx] == color)
        }),
{
    lemma_scan_fill_only_paints(apply_circle(data, cols, color, coords), cols, color, rows, idx);
}

/// The part of the fill contract about the border that holds of every circle:
/// after a successful `draw_filled_circle`, every cell the circle outline hits
/// holds the fill color - the scanline pass never unpaints it.
pub proof fn lemma_filled_circle_keeps_border(
    data: Seq<u32>,
    cols: int,
    color: u32,
    coords: CircleCoordinates,
    rows: nat,
    idx: int,
)
    requires
        0 <= idx < data.len(),
        circle_hits(coords, idx / cols, idx % cols),
    ensures
        scan_fill(apply_circle(data, cols, color, coords), cols, color, rows)[idx] == color,
{
    assert(apply_circle(data, cols, color, coords)[idx] == color);
    lemma_scan_fill_only_paints(apply_circle(data, cols, color, coords), cols, color, rows, idx);
}

/// Whether every reflection of the offset pair `q` around `c` lies inside the
/// `rows` by `cols` grid.
pub open spec fn reflections_in_grid(rows: int, cols: int, c: Coordinate, q: (int, int)) -> bool {
    forall|i: int, j: int| is_reflection(c, q, (i, j)) ==> 0 <= i < rows && 0 <= j < cols
}

/// Membership in a pushed sequence: the new element, or membership in the old.
pub proof fn lemma_push_contains<A>(s: Seq<A>, e: A, q: A)
    ensures
        s.push(e).contains(q) <==> (s.contains(q) || q == e),
{
    if s.push(e).contains(q) {
        let idx = choose|idx: int| 0 <= idx < s.push(e).len() && s.push(e)[idx] == q;
        if idx < s.len() {
            assert(s[idx] == q);
        }
    }
    if s.contains(q) {
        let idx = choose|idx: int| 0 <= idx < s.len() && s[idx] == q;
        assert(s.push(e)[idx] == q);
    }
    if q == e {
        assert(s.push(e)[s.len() as int] == q);
    }
}

/// Membership in a concatenation: membership in either part.
pub proof fn lemma_concat_contains<A>(s1: Seq<A>, s2: Seq<A>, q: A)
    ensures
        (s1 + s2).contains(q) <==> (s1.contains(q) || s2.contains(q)),
{
    if (s1 + s2).contains(q) {
        let idx = choose|idx: int| 0 <= idx < (s1 + s2).len() && (s1 + s2)[idx] == q;
        if idx < s1.len() {
            assert(s1[idx] == q);
        } else {
            assert(s2[idx - s1.len()] == q);
        }
    }
    if s1.contains(q) {
        let idx = choose|idx: int| 0 <= idx < s1.len() && s1[idx] == q;
        assert((s1 + s2)[idx] == q);
    }
    if s2.contains(q) {
        let idx = choose|idx: int| 0 <= idx < s2.len() && s2[idx] == q;
        assert((s1 + s2)[idx + s1.len()] == q);
    }
}

/// Every pair the midpoint walk visits lies within one pixel of the radius,
/// given the walk's invariants: the midpoint of the current `y` is not
/// strictly outside by more than the last `x` step (`x^2+y^2+y < r^2+2x`), and
/// the current point is not deeper inside than `r^2 - r`.
proof fn lemma_pairs_near_radius(x: int, y: int, r: int, q: (int, int))
    requires
        1 <= r,
        0 <= x,
        -r <= y <= 0,
        x * x + y * y + y < r * r + 2 * x,
        x * x + y * y >= r * r - r,
        circle_pairs(x, y, r).contains(q),
    ensures
        (r - 1) * (r - 1) <= q.0 * q.0 + q.1 * q.1,
        q.0 * q.0 + q.1 * q.1 <= (r + 1) * (r + 1),
    decreases -y - x + 1,
{
    if x >= -y {
        assert(circle_pairs(x, y, r).len() == 0);
    } else {
        let y2 = circle_step_y(x, y, r);
        let head = (x, y2);
        assert(circle_pairs(x, y, r) == seq![head] + circle_pairs(x + 1, y2, r));
        lemma_concat_contains(seq![head], circle_pairs(x + 1, y2, r), q);
        let inc = x * x + y * y + y >= r * r;
        assert(y2 <= -x && -r <= y2 <= 0);
        if seq![head].contains(q) {
            assert(q == head);
            if inc {
                assert((r - 1) * (r - 1) <= x * x + y2 * y2 <= (r + 1) * (r + 1))
                    by (nonlinear_arith)
                    requires
                        y2 == y + 1,
                        x * x + y * y + y >= r * r,
                        x * x + y * y + y < r * r + 2 * x,
                        x + y + 1 <= 0,
                        -r <= y,
                        r >= 1,
                ;
            } else {
                assert((r - 1) * (r - 1) <= x * x + y2 * y2 <= (r + 1) * (r + 1))
                    by (nonlinear_arith)
                    requires
                        y2 == y,
                        x * x + y * y + y < r * r,
                        x * x + y * y >= r * r - r,
                        -r <= y <= 0,
                        r >= 1,
                ;
            }
        } else {
            if inc {
                assert((x + 1) * (x + 1) + y2 * y2 + y2 < r * r + 2 * (x + 1) && (x + 1) * (x + 1)
                    + y2 * y2 >= r * r - r) by (nonlinear_arith)
                    requires
                        y2 == y + 1,
                        x * x + y * y + y >= r * r,
                        x * x + y * y + y < r * r + 2 * x,
                        x + y + 1 <= 0,
                        -r <= y,
                        r >= 1,
                        x >= 0,
                ;
            } else {
                assert((x + 1) * (x + 1) + y2 * y2 + y2 < r * r + 2 * (x + 1) && (x + 1) * (x + 1)
                    + y2 * y2 >= r * r - r) by (nonlinear_arith)
                    requires
                        y2 == y,
                        x * x + y * y + y < r * r,
                        x * x + y * y >= r * r - r,
                        x >= 0,
                ;
            }
            lemma_pairs_near_radius(x + 1, y2, r, q);
        }
    }
}

/// Law: the point set `draw_circle` plots is symmetric under the eight
/// reflections the algorithm uses - around the center, negating either offset
/// or exchanging the two offsets maps plotted points to plotted points.
pub proof fn lemma_circle_points_symmetric(c: CircleCoordinates, a: int, b: int)
    requires
        circle_hits(c, c.center.x + a, c.center.y + b),
    ensures
        circle_hits(c, c.center.x - a, c.center.y + b),
        circle_hits(c, c.center.x + a, c.center.y - b),
        circle_hits(c, c.center.x - a, c.center.y - b),
        circle_hits(c, c.center.x + b, c.center.y + a),
        circle_hits(c, c.center.x + b, c.center.y - a),
        circle_hits(c, c.center.x - b, c.center.y + a),
        circle_hits(c, c.center.x - b, c.center.y - a),
{
    let q = choose|q: (int, int)| #[trigger]
        circle_pairs(0, -(c.radius as int), c.radius as int).contains(q) && is_reflection(
            c.center,
            q,
            (c.center.x + a, c.center.y + b),
        );
    assert(is_reflection(c.center, q, (c.center.x - a, c.center.y + b)));
    assert(is_reflection(c.center, q, (c.center.x + a, c.center.y - b)));
    assert(is_reflection(c.center, q, (c.center.x - a, c.center.y - b)));
    assert(is_reflection(c.center, q, (c.center.x + b, c.center.y + a)));
    assert(is_reflection(c.center, q, (c.center.x + b, c.center.y - a)));
    assert(is_reflection(c.center, q, (c.center.x - b, c.center.y + a)));
    assert(is_reflection(c.center, q, (c.center.x - b, c.center.y - a)));
}

/// Law: every point `draw_circle` plots lies within one pixel of the radius:
/// its squared distance to the center is between `(r-1)^2` and `(r+1)^2`
/// (the midpoint tolerance).
pub proof fn lemma_circle_points_near_radius(c: CircleCoordinates, i: int, j: int)
    requires
        circle_hits(c, i, j),
    ensures
        ((c.radius as int) - 1) * ((c.radius as int) - 1) <= (i - c.center.x) * (i - c.center.x) + (
        j - c.center.y) * (j - c.center.y),
        (i - c.center.x) * (i - c.center.x) + (j - c.center.y) * (j - c.center.y) <= ((
        c.radius as int) + 1) * ((c.radius as int) + 1),
{
    let r = c.radius as int;
    let q = choose|q: (int, int)| #[trigger]
        circle_pairs(0, -r, r).contains(q) && is_reflection(c.center, q, (i, j));
    if r == 0 {
        assert(circle_pairs(0, 0, 0).len() == 0);
    } else {
        assert(0 + (-r) * (-r) + (-r) < r * r + 2 * 0 && 0 + (-r) * (-r) >= r * r - r)
            by (nonlinear_arith)
            requires
                r >= 1,
        ;
        lemma_pairs_near_radius(0, -r, r, q);
        let u = i - c.center.x;
        let v = j - c.center.y;
        assert(u * u + v * v == q.0 * q.0 + q.1 * q.1) by (nonlinear_arith)
            requires
                ((u == q.0 || u == -q.0) && (v == q.1 || v == -q.1)) || ((u == q.1 || u == -q.1) && (
                v == q.0 || v == -q.0)),
        ;
    }
}

impl Image {
    /// Plots the eight symmetric images of the offset pair `(dx, dyv)` around
    /// the center `c`, each through the validated `set_pixel` path; the first
    /// out-of-bounds image aborts the call with its bounds error.
    fn plot_symmetric_points(&mut self, color: u32, c: Coordinate, dx: i32, dyv: i32) -> (r: Result<
        (),
        validate::ValidationError,
    >)
        requires
            old(self).wf(),
            i32::MIN <= c.x + dx <= i32::MAX,
            i32::MIN <= c.x - dx <= i32::MAX,
            i32::MIN <= c.x + dyv <= i32::MAX,
            i32::MIN <= c.x - dyv <= i32::MAX,
            i32::MIN <= c.y + dx <= i32::MAX,
            i32::MIN <= c.y - dx <= i32::MAX,
            i32::MIN <= c.y + dyv <= i32::MAX,
            i32::MIN <= c.y - dyv <= i32::MAX,
        ensures
            final(self).wf(),
            final(self).rows == old(self).rows,
            final(self).cols == old(self).cols,
            r is Ok <==> (forall|i: int, j: int|
                is_reflection(c, (dx as int, dyv as int), (i, j)) ==> 0 <= i < old(self).rows && 0
                    <= j < old(self).cols),
            r is Ok ==> forall|i: int, j: int|
                0 <= i < old(self).rows && 0 <= j < old(self).cols ==> #[trigger] pix(
                    final(self).data@,
                    old(self).cols as int,
                    i,
                    j,
                ) == if is_reflection(c, (dx as int, dyv as int), (i, j)) {
                    color
                } else {
                    pix(old(self).data@, old(self).cols as int, i, j)
                },
            forall|i: int, j: int|
                0 <= i < old(self).rows && 0 <= j < old(self).cols ==> #[trigger] pix(
                    final(self).data@,
                    old(self).cols as int,
                    i,
                    j,
                ) == pix(old(self).data@, old(self).cols as int, i, j) || (is_reflection(
                    c,
                    (dx as int, dyv as int),
                    (i, j),
                ) && pix(final(self).data@, old(self).cols as int, i, j) == color),
            r matches Err(e) ==> exists|p: Coordinate|
                #[trigger] is_reflection(c, (dx as int, dyv as int), (p.x as int, p.y as int))
                    && !old(self).spec_in_bounds(p) && e == validate::spec_coord_error(
                    *old(self),
                    p,
                ),
    {
        let mut pts: Vec<Coordinate> = Vec::new();
        pts.push(Coordinate::new(c.x + dx, c.y + dyv));
        pts.push(Coordinate::new(c.x - dx, c.y + dyv));
        pts.push(Coordinate::new(c.x + dx, c.y - dyv));
        pts.push(Coordinate::new(c.x - dx, c.y - dyv));
        pts.push(Coordinate::new(c.x + dyv, c.y + dx));
        pts.push(Coordinate::new(c.x + dyv, c.y - dx));
        pts.push(Coordinate::new(c.x - dyv, c.y + dx));
        pts.push(Coordinate::new(c.x - dyv, c.y - dx));
        proof {
            assert forall|i: int, j: int|
                is_reflection(c, (dx as int, dyv as int), (i, j)) <==> (exists|m: int|
                    0 <= m < 8 && #[trigger] pts@[m] == (Coordinate { x: i as i32, y: j as i32 })
                        && pts@[m].x == i && pts@[m].y == j) by {
                if is_reflection(c, (dx as int, dyv as int), (i, j)) {
                    if (i, j) == (c.x + dx as int, c.y + dyv as int) {
                        assert(pts@[0] == (Coordinate { x: i as i32, y: j as i32 }) && pts@[0].x
                            == i && pts@[0].y == j);
                    } else if (i, j) == (c.x - dx as int, c.y + dyv as int) {
                        assert(pts@[1] == (Coordinate { x: i as i32, y: j as i32 }) && pts@[1].x
                            == i && pts@[1].y == j);
                    } else if (i, j) == (c.x + dx as int, c.y - dyv as int) {
                        assert(pts@[2] == (Coordinate { x: i as i32, y: j as i32 }) && pts@[2].x
                            == i && pts@[2].y == j);
                    } else if (i, j) == (c.x - dx as int, c.y - dyv as int) {
                        assert(pts@[3] == (Coordinate { x: i as i32, y: j as i32 }) && pts@[3].x
                            == i && pts@[3].y == j);
                    } else if (i, j) == (c.x + dyv as int, c.y + dx as int) {
                        assert(pts@[4] == (Coordinate { x: i as i32, y: j as i32 }) && pts@[4].x
                            == i && pts@[4].y == j);
                    } else if (i, j) == (c.x + dyv as int, c.y - dx as int) {
                        assert(pts@[5] == (Coordinate { x: i as i32, y: j as i32 }) && pts@[5].x
                            == i && pts@[5].y == j);
                    } else if (i, j) == (c.x - dyv as int, c.y + dx as int) {
                        assert(pts@[6] == (Coordinate { x: i as i32, y: j as i32 }) && pts@[6].x
                            == i && pts@[6].y == j);
                    } else {
                        assert(pts@[7] == (Coordinate { x: i as i32, y: j as i32 }) && pts@[7].x
                            == i && pts@[7].y == j);
                    }
                }
            }
        }
        let rows = self.rows;
        let cols = self.cols;
        let mut m: usize = 0;
        while m < 8
            invariant
                self.wf(),
                self.rows == old(self).rows,
                self.cols == old(self).cols,
                rows == self.rows,
                cols == self.cols,
                m <= 8,
                pts@.len() == 8,
                forall|i: int, j: int|
                    is_reflection(c, (dx as int, dyv as int), (i, j)) <==> (exists|n: int|
                        0 <= n < 8 && #[trigger] pts@[n] == (Coordinate {
                            x: i as i32,
                            y: j as i32,
                        }) && pts@[n].x == i && pts@[n].y == j),
                forall|n: int|
                    0 <= n < m ==> old(self).spec_in_bounds(#[trigger] pts@[n]),
                forall|i: int, j: int|
                    0 <= i < rows && 0 <= j < cols ==> #[trigger] pix(
                        self.data@,
                        cols as int,
                        i,
                        j,
                    ) == if exists|n: int|
                        0 <= n < m && #[trigger] pts@[n] == (Coordinate {
                            x: i as i32,
                            y: j as i32,
                        }) && pts@[n].x == i && pts@[n].y == j {
                        color
                    } else {
                        pix(old(self).data@, cols as int, i, j)
                    },
            decreases 8 - m,
        {
            let p = pts[m];
            let ghost prev = self.data@;
            let res = self.set_pixel(p, color);
            if let Err(e) = res {
                proof {
                    assert(!old(self).spec_in_bounds(p));
                    assert(pts@[m as int] == p && pts@[m as int].x == p.x as int && pts@[m as int].y
                        == p.y as int);
                    assert(is_reflection(c, (dx as int, dyv as int), (p.x as int, p.y as int)));
                    assert(e == validate::spec_coord_error(*old(self), p));
                }
                return Err(e);
            }
            proof {
                lemma_pixel_update(
                    prev,
                    self.data@,
                    rows as int,
                    cols as int,
                    p.x as int,
                    p.y as int,
                    color,
                );
                assert forall|i: int, j: int| 0 <= i < rows && 0 <= j < cols implies #[trigger] pix(
                    self.data@,
                    cols as int,
                    i,
                    j,
                ) == if exists|n: int|
                    0 <= n < m + 1 && #[trigger] pts@[n] == (Coordinate {
                        x: i as i32,
                        y: j as i32,
                    }) && pts@[n].x == i && pts@[n].y == j {
                    color
                } else {
                    pix(old(self).data@, cols as int, i, j)
                } by {
                    assert(pix(prev, cols as int, i, j) == if exists|n: int|
                        0 <= n < m && #[trigger] pts@[n] == (Coordinate {
                            x: i as i32,
                            y: j as i32,
                        }) && pts@[n].x == i && pts@[n].y == j {
                        color
                    } else {
                        pix(old(self).data@, cols as int, i, j)
                    });
                    if i == p.x as int && j == p.y as int {
                        assert(pts@[m as int] == (Coordinate { x: i as i32, y: j as i32 })
                            && pts@[m as int].x == i && pts@[m as int].y == j);
                    } else {
                        if exists|n: int|
                            0 <= n < m + 1 && #[trigger] pts@[n] == (Coordinate {
                                x: i as i32,
                                y: j as i32,
                            }) && pts@[n].x == i && pts@[n].y == j {
                            let n = choose|n: int|
                                0 <= n < m + 1 && #[trigger] pts@[n] == (Coordinate {
                                    x: i as i32,
                                    y: j as i32,
                                }) && pts@[n].x == i && pts@[n].y == j;
                            assert(n != m);
                        }
                    }
                }
            }
            m = m + 1;
        }
        proof {
            assert forall|i: int, j: int|
                is_reflection(c, (dx as int, dyv as int), (i, j)) implies 0 <= i < rows && 0 <= j
                < cols by {
                let n = choose|n: int|
                    0 <= n < 8 && #[trigger] pts@[n] == (Coordinate { x: i as i32, y: j as i32 })
                        && pts@[n].x == i && pts@[n].y == j;
                assert(old(self).spec_in_bounds(pts@[n]));
            }
        }
        Ok(())
    }

    /// Draws a circle outline using the midpoint-circle algorithm.  Only the
    /// center is range-checked up front; the radius may legally push points
    /// outside the buffer, in which case the first out-of-bounds point aborts
    /// the call with its bounds error, leaving the points plotted so far.
    pub fn draw_circle(&mut self, color: u32, coords: CircleCoordinates) -> (r: Result<
        (),
        validate::ValidationError,
    >)
        requires
            old(self).wf(),
            coords.center.x + coords.radius <= i32::MAX,
            coords.center.y + coords.radius <= i32::MAX,
            coords.center.x - coords.radius >= i32::MIN,
            coords.center.y - coords.radius >= i32::MIN,
        ensures
            final(self).wf(),
            final(self).rows == old(self).rows,
            final(self).cols == old(self).cols,
            !validate::spec_coord_ok(*old(self), coords.center) ==> r == Err::<
                (),
                validate::ValidationError,
            >(validate::spec_coord_error(*old(self), coords.center)) && final(self).data@ == old(
                self,
            ).data@,
            r is Ok <==> (validate::spec_coord_ok(*old(self), coords.center) && forall|
                i: int,
                j: int,
            |
                circle_hits(coords, i, j) ==> 0 <= i < old(self).rows && 0 <= j < old(self).cols),
            r is Ok ==> forall|i: int, j: int|
                0 <= i < old(self).rows && 0 <= j < old(self).cols ==> #[trigger] pix(
                    final(self).data@,
                    old(self).cols as int,
                    i,
                    j,
                ) == if circle_hits(coords, i, j) {
                    color
                } else {
                    pix(old(self).data@, old(self).cols as int, i, j)
                },
            forall|i: int, j: int|
                0 <= i < old(self).rows && 0 <= j < old(self).cols ==> #[trigger] pix(
                    final(self).data@,
                    old(self).cols as int,
                    i,
                    j,
                ) == pix(old(self).data@, old(self).cols as int, i, j) || (circle_hits(coords, i, j)
                    && pix(final(self).data@, old(self).cols as int, i, j) == color),
            r matches Err(e) ==> (validate::spec_coord_ok(*old(self), coords.center) ==> exists|
                p: Coordinate,
            |
                #[trigger] circle_hits(coords, p.x as int, p.y as int) && !old(
                    self,
                ).spec_in_bounds(p) && e == validate::spec_coord_error(*old(self), p)),
    {
        if let Err(e) = validate::circle_coordinates(&*self, &coords) {
            return Err(e);
        }
        let c = coords.center;
        let r32: i32 = coords.radius as i32;
        let ghost rint: int = coords.radius as int;
        let ghost pairs: Seq<(int, int)> = circle_pairs(0, -rint, rint);
        let ghost mut done: Seq<(int, int)> = Seq::empty();
        let rows = self.rows;
        let cols = self.cols;
        let mut x: i32 = 0;
        let mut y: i32 = -r32;
        while x < -y
            invariant
                self.wf(),
                self.rows == old(self).rows,
                self.cols == old(self).cols,
                rows == self.rows,
                cols == self.cols,
                c == coords.center,
                r32 == coords.radius,
                rint == coords.radius,
                validate::spec_coord_ok(*old(self), coords.center),
                coords.center.x + coords.radius <= i32::MAX,
                coords.center.y + coords.radius <= i32::MAX,
                coords.center.x - coords.radius >= i32::MIN,
                coords.center.y - coords.radius >= i32::MIN,
                0 <= x,
                -r32 <= y <= 0,
                x <= -(y as int) + 1,
                pairs == circle_pairs(0, -rint, rint),
                pairs == done + circle_pairs(x as int, y as int, rint),
                forall|q: (int, int)| #[trigger]
                    done.contains(q) ==> reflections_in_grid(rows as int, cols as int, c, q),
                forall|i: int, j: int|
                    0 <= i < rows && 0 <= j < cols ==> #[trigger] pix(
                        self.data@,
                        cols as int,
                        i,
                        j,
                    ) == if exists|q: (int, int)| #[trigger]
                        done.contains(q) && is_reflection(c, q, (i, j)) {
                        color
                    } else {
                        pix(old(self).data@, cols as int, i, j)
                    },
            decreases -(y as int) - x as int + 1,
        {
            let ghost y0: int = y as int;
            proof {
                assert(0 <= (x as int) * (x as int) <= 0x3FFF_FFFF_0000_0001) by (nonlinear_arith)
                    requires
                        -0x7FFF_FFFF <= x <= 0x7FFF_FFFF,
                ;
                assert(0 <= (y as int) * (y as int) <= 0x3FFF_FFFF_0000_0001) by (nonlinear_arith)
                    requires
                        -0x7FFF_FFFF <= y <= 0x7FFF_FFFF,
                ;
                assert(0 <= (r32 as int) * (r32 as int) <= 0x3FFF_FFFF_0000_0001)
                    by (nonlinear_arith)
                    requires
                        -0x7FFF_FFFF <= r32 <= 0x7FFF_FFFF,
                ;
            }
            let xl: i64 = x as i64;
            let yl: i64 = y as i64;
            let rl: i64 = r32 as i64;
            if xl * xl + yl * yl + yl >= rl * rl {
                y = y + 1;
            }
            proof {
                assert(y as int == circle_step_y(x as int, y0, rint));
                assert(circle_pairs(x as int, y0, rint) == seq![(x as int, y as int)]
                    + circle_pairs(x as int + 1, y as int, rint));
            }
            let ghost qn: (int, int) = (x as int, y as int);
            let ghost prev = self.data@;
            let res = self.plot_symmetric_points(color, c, x, y);
            proof {
                assert(circle_pairs(x as int, y0, rint)[0] == qn);
                assert(circle_pairs(x as int, y0, rint).contains(qn));
                lemma_concat_contains(done, circle_pairs(x as int, y0, rint), qn);
                assert(pairs.contains(qn));
            }
            if let Err(e) = res {
                proof {
                    let p = choose|p: Coordinate| #[trigger]
                        is_reflection(c, qn, (p.x as int, p.y as int)) && !old(
                            self,
                        ).spec_in_bounds(p) && e == validate::spec_coord_error(*old(self), p);
                    assert(circle_hits(coords, p.x as int, p.y as int));
                    assert(!(forall|i: int, j: int|
                        circle_hits(coords, i, j) ==> 0 <= i < old(self).rows && 0 <= j < old(
                            self,
                        ).cols)) by {
                        assert(circle_hits(coords, p.x as int, p.y as int) && !(0 <= p.x
                            && (p.x as int) < old(self).rows && 0 <= p.y && (p.y as int) < old(
                            self,
                        ).cols));
                    }
                    assert forall|i: int, j: int| 0 <= i < rows && 0 <= j < cols implies #[trigger] pix(
                        self.data@,
                        cols as int,
                        i,
                        j,
                    ) == pix(old(self).data@, cols as int, i, j) || (circle_hits(coords, i, j)
                        && pix(self.data@, cols as int, i, j) == color) by {
                        if pix(self.data@, cols as int, i, j) != pix(
                            old(self).data@,
                            cols as int,
                            i,
                            j,
                        ) {
                            if pix(prev, cols as int, i, j) != pix(
                                old(self).data@,
                                cols as int,
                                i,
                                j,
                            ) {
                                let q = choose|q: (int, int)| #[trigger]
                                    done.contains(q) && is_reflection(c, q, (i, j));
                                lemma_concat_contains(
                                    done,
                                    circle_pairs(x as int, y0, rint),
                                    q,
                                );
                                assert(pairs.contains(q));
                                assert(circle_hits(coords, i, j));
                            } else {
                                assert(is_reflection(c, qn, (i, j)) && pix(
                                    self.data@,
                                    cols as int,
                                    i,
                                    j,
                                ) == color);
                                assert(circle_hits(coords, i, j));
                            }
                        }
                    }
                }
                return Err(e);
            }
            proof {
                assert forall|i: int, j: int|
                    is_reflection(c, qn, (i, j)) implies 0 <= i < rows && 0 <= j < cols by {}
                assert(reflections_in_grid(rows as int, cols as int, c, qn));
                let done2 = done.push(qn);
                assert forall|q: (int, int)| #[trigger]
                    done2.contains(q) implies reflections_in_grid(
                    rows as int,
                    cols as int,
                    c,
                    q,
                ) by {
                    lemma_push_contains(done, qn, q);
                }
                assert forall|i: int, j: int| 0 <= i < rows && 0 <= j < cols implies #[trigger] pix(
                    self.data@,
                    cols as int,
                    i,
                    j,
                ) == if exists|q: (int, int)| #[trigger]
                    done2.contains(q) && is_reflection(c, q, (i, j)) {
                    color
                } else {
                    pix(old(self).data@, cols as int, i, j)
                } by {
                    assert(pix(prev, cols as int, i, j) == if exists|q: (int, int)| #[trigger]
                        done.contains(q) && is_reflection(c, q, (i, j)) {
                        color
                    } else {
                        pix(old(self).data@, cols as int, i, j)
                    });
                    lemma_push_contains(done, qn, qn);
                    if is_reflection(c, qn, (i, j)) {
                        assert(done2.contains(qn) && is_reflection(c, qn, (i, j)));
                        assert(pix(self.data@, cols as int, i, j) == color);
                    } else {
                        assert(pix(self.data@, cols as int, i, j) == pix(prev, cols as int, i, j));
                        if exists|q: (int, int)| #[trigger]
                            done2.contains(q) && is_reflection(c, q, (i, j)) {
                            let q = choose|q: (int, int)| #[trigger]
                                done2.contains(q) && is_reflection(c, q, (i, j));
                            lemma_push_contains(done, qn, q);
                            assert(q != qn);
                            assert(done.contains(q) && is_reflection(c, q, (i, j)));
                        } else {
                            if exists|q: (int, int)| #[trigger]
                                done.contains(q) && is_reflection(c, q, (i, j)) {
                                let q = choose|q: (int, int)| #[trigger]
                                    done.contains(q) && is_reflection(c, q, (i, j));
                                lemma_push_contains(done, qn, q);
                                assert(done2.contains(q));
                            }
                        }
                    }
                }
                assert(done.push(qn) =~= done + seq![qn]);
                assert((done + seq![qn]) + circle_pairs(x as int + 1, y as int, rint) =~= done + (
                seq![qn] + circle_pairs(x as int + 1, y as int, rint)));
                done = done2;
            }
            x = x + 1;
        }
        proof {
            assert(circle_pairs(x as int, y as int, rint) =~= Seq::empty());
            assert(pairs =~= done);
            assert forall|i: int, j: int| circle_hits(coords, i, j) implies 0 <= i < old(self).rows
                && 0 <= j < old(self).cols by {
                let q = choose|q: (int, int)| #[trigger]
                    circle_pairs(0, -(coords.radius as int), coords.radius as int).contains(q)
                        && is_reflection(coords.center, q, (i, j));
                assert(done.contains(q));
                assert(reflections_in_grid(rows as int, cols as int, c, q));
            }
            assert forall|i: int, j: int| 0 <= i < rows && 0 <= j < cols implies #[trigger] pix(
                self.data@,
                cols as int,
                i,
                j,
            ) == if circle_hits(coords, i, j) {
                color
            } else {
                pix(old(self).data@, cols as int, i, j)
            } by {
                if exists|q: (int, int)| #[trigger] done.contains(q) && is_reflection(c, q, (i, j)) {
                    let q = choose|q: (int, int)| #[trigger]
                        done.contains(q) && is_reflection(c, q, (i, j));
                    assert(circle_hits(coords, i, j));
                } else {
                    if circle_hits(coords, i, j) {
                        let q = choose|q: (int, int)| #[trigger]
                            circle_pairs(0, -(coords.radius as int), coords.radius as int).contains(
                                q,
                            ) && is_reflection(coords.center, q, (i, j));
                        assert(done.contains(q) && is_reflection(c, q, (i, j)));
                    }
                }
            }
        }
        Ok(())
    }

    /// Draws a circle outline with the midpoint algorithm, then fills it by
    /// scanning every row for the first and second cell holding the border
    /// color and drawing a fill segment between them.  The scan matches on the
    /// color itself, so cells that already held it take part; rows the border
    /// crosses only once fill from the all-zero starting segment.
    pub fn draw_filled_circle(&mut self, color: u32, coords: CircleCoordinates) -> (r: Result<
        (),
        validate::ValidationError,
    >)
        requires
            old(self).wf(),
            old(self).rows <= i32::MAX,
            old(self).cols <= i32::MAX,
            coords.center.x + coords.radius <= i32::MAX,
            coords.center.y + coords.radius <= i32::MAX,
            coords.center.x - coords.radius >= i32::MIN,
            coords.center.y - coords.radius >= i32::MIN,
        ensures
            final(self).wf(),
            final(self).rows == old(self).rows,
            final(self).cols == old(self).cols,
            !validate::spec_coord_ok(*old(self), coords.center) ==> r == Err::<
                (),
                validate::ValidationError,
            >(validate::spec_coord_error(*old(self), coords.center)) && final(self).data@ == old(
                self,
            ).data@,
            r is Ok <==> (validate::spec_coord_ok(*old(self), coords.center) && forall|
                i: int,
                j: int,
            |
                circle_hits(coords, i, j) ==> 0 <= i < old(self).rows && 0 <= j < old(self).cols),
            r is Err ==> forall|i: int, j: int|
                0 <= i < old(self).rows && 0 <= j < old(self).cols ==> #[trigger] pix(
                    final(self).data@,
                    old(self).cols as int,
                    i,
                    j,
                ) == pix(old(self).data@, old(self).cols as int, i, j) || (circle_hits(coords, i, j)
                    && pix(final(self).data@, old(self).cols as int, i, j) == color),
            r matches Err(e) ==> (validate::spec_coord_ok(*old(self), coords.center) ==> exists|
                p: Coordinate,
            |
                #[trigger] circle_hits(coords, p.x as int, p.y as int) && !old(
                    self,
                ).spec_in_bounds(p) && e == validate::spec_coord_error(*old(self), p)),
            r is Ok ==> final(self).data@ == scan_fill(
                apply_circle(old(self).data@, old(self).cols as int, color, coords),
                old(self).cols as int,
                color,
                old(self).rows as nat,
            ),
    {
        if let Err(e) = self.draw_circle(color, coords) {
            return Err(e);
        }
        let rows = self.rows;
        let cols = self.cols;
        let ghost circled = apply_circle(old(self).data@, cols as int, color, coords);
        proof {
            assert forall|n: int| 0 <= n < self.data@.len() implies self.data@[n] == circled[n] by {
                lemma_index_decompose(rows as int, cols as int, n);
                assert(pix(self.data@, cols as int, n / (cols as int), n % (cols as int))
                    == self.data@[n]);
                assert(pix(old(self).data@, cols as int, n / (cols as int), n % (cols as int))
                    == old(self).data@[n]);
            }
            assert(self.data@ =~= circled);
        }
        let ghost base = self.data@;
        let mut row: usize = 0;
        while row < rows
            invariant
                self.wf(),
                self.rows == old(self).rows,
                self.cols == old(self).cols,
                rows == self.rows,
                cols == self.cols,
                rows <= i32::MAX,
                cols <= i32::MAX,
                row <= rows,
                base.len() == rows * cols,
                self.data@ == scan_fill(base, cols as int, color, row as nat),
            decreases rows - row,
        {
            let mut horizontal_line_coords = LineCoordinates::new(0, 0, 0, 0);
            let ghost row_data = self.data@;
            let mut col: usize = 0;
            while col < cols
                invariant
                    self.wf(),
                    rows == self.rows,
                    cols == self.cols,
                    rows <= i32::MAX,
                    cols <= i32::MAX,
                    row < rows,
                    col <= cols,
                    self.data@ == row_data,
                    horizontal_line_coords == scan_row_state(
                        row_data,
                        cols as int,
                        row as int,
                        color,
                        col as nat,
                    ),
                    self.spec_in_bounds(horizontal_line_coords.first),
                    self.spec_in_bounds(horizontal_line_coords.second),
                decreases cols - col,
            {
                let maybe_circle_border = Coordinate::new(row as i32, col as i32);
                proof {
                    assert(self.spec_in_bounds(maybe_circle_border));
                }
                let current = self.get_pixel(maybe_circle_border)?;
                if current == color && horizontal_line_coords.first.y
                    == horizontal_line_coords.second.y {
                    horizontal_line_coords.first = Coordinate::new(row as i32, col as i32);
                } else if current == color {
                    horizontal_line_coords.second = Coordinate::new(row as i32, col as i32);
                }
                proof {
                    assert(current == pix(row_data, cols as int, row as int, col as int));
                    assert(horizontal_line_coords == scan_row_state(
                        row_data,
                        cols as int,
                        row as int,
                        color,
                        (col + 1) as nat,
                    ));
                }
                col = col + 1;
            }
            if horizontal_line_coords != LineCoordinates::new(0, 0, 0, 0) {
                proof {
                    lemma_index_bounds(
                        rows as int,
                        cols as int,
                        horizontal_line_coords.first.x as int,
                        horizontal_line_coords.first.y as int,
                    );
                    lemma_index_bounds(
                        rows as int,
                        cols as int,
                        horizontal_line_coords.second.x as int,
                        horizontal_line_coords.second.y as int,
                    );
                }
                let res = self.draw_vertical_line(color, horizontal_line_coords);
                proof {
                    assert(res is Ok);
                    assert forall|n: int| 0 <= n < self.data@.len() implies self.data@[n]
                        == apply_vline(row_data, cols as int, color, horizontal_line_coords)[n] by {
                        lemma_index_decompose(rows as int, cols as int, n);
                        assert(pix(self.data@, cols as int, n / (cols as int), n % (cols as int))
                            == self.data@[n]);
                        assert(pix(row_data, cols as int, n / (cols as int), n % (cols as int))
                            == row_data[n]);
                    }
                    assert(self.data@ =~= apply_vline(
                        row_data,
                        cols as int,
                        color,
                        horizontal_line_coords,
                    ));
                    assert(horizontal_line_coords != zero_segment());
                    assert(self.data@ == scan_fill_row(row_data, cols as int, color, row as int));
                }
            } else {
                proof {
                    assert(horizontal_line_coords == zero_segment());
                    assert(self.data@ == scan_fill_row(row_data, cols as int, color, row as int));
                }
            }
            proof {
                assert(scan_fill(base, cols as int, color, (row + 1) as nat) == scan_fill_row(
                    scan_fill(base, cols as int, color, row as nat),
                    cols as int,
                    color,
                    row as int,
                ));
            }
            row = row + 1;
        }
        Ok(())
    }
}

} // verus!
