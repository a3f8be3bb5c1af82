//! Straight segments on the pixel grid.
//!
//! A segment from `(x1, y1)` to `(x2, y2)` is approximated by as many steps as
//! its longer axis span has pixels; step `i` advances each axis by the `i`-th
//! fraction of that axis' span, rounded towards the starting point.

use vstd::prelude::*;

verus! {

/// Distance between two coordinates of one axis.
pub open spec fn span(a: int, b: int) -> int {
    if a <= b {
        b - a
    } else {
        a - b
    }
}

/// Number of steps of the segment: the longer of its two axis spans.
pub open spec fn line_steps(x1: int, y1: int, x2: int, y2: int) -> int {
    if span(x1, x2) >= span(y1, y2) {
        span(x1, x2)
    } else {
        span(y1, y2)
    }
}

/// Coordinate, on one axis, of step `i` out of `r` on the way from `a` to `b`.
pub open spec fn line_coord(a: int, b: int, r: int, i: int) -> int {
    if a == b {
        a
    } else if a < b {
        a + (i * (b - a)) / r
    } else {
        a - (i * (a - b)) / r
    }
}

/// Point number `i` of the segment from `(x1, y1)` to `(x2, y2)`.
pub open spec fn line_point(x1: int, y1: int, x2: int, y2: int, i: int) -> (int, int) {
    let r = line_steps(x1, y1, x2, y2);
    (line_coord(x1, x2, r, i), line_coord(y1, y2, r, i))
}

/// The points of the segment from `(x1, y1)` to `(x2, y2)`, in drawing order.
pub open spec fn line_points(x1: int, y1: int, x2: int, y2: int) -> Seq<(int, int)> {
    Seq::new(
        (line_steps(x1, y1, x2, y2) + 1) as nat,
        |i: int| line_point(x1, y1, x2, y2, i),
    )
}

/// The mathematical points that a list of pixel coordinates stands for.
pub open spec fn points_view(v: Seq<(usize, usize)>) -> Seq<(int, int)> {
    v.map_values(|p: (usize, usize)| (p.0 as int, p.1 as int))
}

/// A segment has one point more than the longer of its axis spans.
pub proof fn lemma_line_points_len(x1: int, y1: int, x2: int, y2: int)
    ensures
        line_points(x1, y1, x2, y2).len() == line_steps(x1, y1, x2, y2) + 1,
        line_steps(x1, y1, x2, y2) >= span(x1, x2),
        line_steps(x1, y1, x2, y2) >= span(y1, y2),
        line_steps(x1, y1, x2, y2) == span(x1, x2) || line_steps(x1, y1, x2, y2) == span(y1, y2),
{
}

/// The segment from a point to itself is that point alone.
pub proof fn lemma_line_points_single(x: int, y: int)
    ensures
        line_points(x, y, x, y) == seq![(x, y)],
{
    assert(line_points(x, y, x, y) =~= seq![(x, y)]);
}

/// A whole number of spans divides back into the span, and none of it into
/// nothing.
proof fn lemma_whole_fraction(d: int, r: int)
    by (nonlinear_arith)
    requires
        r > 0,
    ensures
        (0 * d) / r == 0,
        (r * d) / r == d,
{
}

/// A segment starts at its first end and stops at its second.
pub proof fn lemma_line_points_ends(x1: int, y1: int, x2: int, y2: int)
    ensures
        line_points(x1, y1, x2, y2).first() == (x1, y1),
        line_points(x1, y1, x2, y2).last() == (x2, y2),
{
    let r = line_steps(x1, y1, x2, y2);
    if r > 0 {
        lemma_whole_fraction(span(x1, x2), r);
        lemma_whole_fraction(span(y1, y2), r);
    }
}

/// Step `i` of `r` over a span of `d` pixels covers `i * d / r` of them: never
/// more than the span, and a product that fits 128 bits.
proof fn lemma_fraction_bounds(i: int, d: int, r: int)
    by (nonlinear_arith)
    requires
        0 <= i <= r,
        0 < d <= r,
        r <= 0xFFFF_FFFF_FFFF_FFFF,
    ensures
        0 <= i * d <= 0xFFFF_FFFF_FFFF_FFFF * 0xFFFF_FFFF_FFFF_FFFF,
        0 <= (i * d) / r <= d,
{
    assert(i * d <= r * d);
    assert(r * d <= 0xFFFF_FFFF_FFFF_FFFF * 0xFFFF_FFFF_FFFF_FFFF);
    assert((r * d) / r == d);
    assert((i * d) / r <= (r * d) / r);
}

/// Distance between two coordinates of one axis.
pub fn distance(a: usize, b: usize) -> (d: usize)
    ensures
        d == span(a as int, b as int),
{
    if a <= b {
        b - a
    } else {
        a - b
    }
}

/// Number of steps of the segment from `(x1, y1)` to `(x2, y2)`.
pub fn steps(x1: usize, y1: usize, x2: usize, y2: usize) -> (r: usize)
    ensures
        r == line_steps(x1 as int, y1 as int, x2 as int, y2 as int),
{
    let dx = distance(x1, x2);
    let dy = distance(y1, y2);
    if dx >= dy {
        dx
    } else {
        dy
    }
}

/// Coordinate, on one axis, of step `i` out of `r` on the way from `a` to `b`.
///
/// The product `i * span` is formed in 128 bits, so that no pair of
/// coordinates overflows it.
pub fn coord_at(a: usize, b: usize, r: usize, i: usize) -> (c: usize)
    requires
        span(a as int, b as int) <= r,
        i <= r,
    ensures
        c == line_coord(a as int, b as int, r as int, i as int),
{
    let d = distance(a, b);
    if d == 0 {
        a
    } else {
        proof {
            lemma_fraction_bounds(i as int, d as int, r as int);
        }
        let offset = ((i as u128 * d as u128) / (r as u128)) as usize;
        if a < b {
            a + offset
        } else {
            a - offset
        }
    }
}

/// Point number `i` of the segment from `(x1, y1)` to `(x2, y2)`.
pub fn point_at(x1: usize, y1: usize, x2: usize, y2: usize, i: usize) -> (p: (usize, usize))
    requires
        i <= line_steps(x1 as int, y1 as int, x2 as int, y2 as int),
    ensures
        (p.0 as int, p.1 as int) == line_point(
            x1 as int,
            y1 as int,
            x2 as int,
            y2 as int,
            i as int,
        ),
{
    let r = steps(x1, y1, x2, y2);
    (coord_at(x1, x2, r, i), coord_at(y1, y2, r, i))
}

} // verus!
