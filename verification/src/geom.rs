//! Exact segment geometry: points on a bounded integer grid, rational
//! intersection points, and the segment-segment intersection detector.
//!
//! All classification is done with exact cross-product sign tests; no
//! tolerance is involved, so results are deterministic and reproducible.
use vstd::prelude::*;

verus! {

/// Largest magnitude allowed for an input coordinate.  Keeping endpoint
/// coordinates within this range guarantees that every intermediate value
/// of the intersection arithmetic fits in an `i64`.
pub const COORD_BOUND: i64 = 524288;

/// A point of the integer grid the sweep works on.
#[derive(Clone, Copy, PartialEq, Eq, Structural, Debug)]
pub struct Point {
    pub x: i64,
    pub y: i64,
}

impl Point {
    /// Both coordinates lie within the supported range.
    pub open spec fn wf(self) -> bool {
        -COORD_BOUND <= self.x <= COORD_BOUND && -COORD_BOUND <= self.y <= COORD_BOUND
    }

    pub fn new(x: i64, y: i64) -> (r: Point)
        requires
            -COORD_BOUND <= x <= COORD_BOUND,
            -COORD_BOUND <= y <= COORD_BOUND,
        ensures
            r.wf(),
            r.x == x,
            r.y == y,
    {
        Point { x, y }
    }
}

/// A closed line segment between two grid points.  Degenerate segments
/// (both endpoints equal) are allowed and treated as single points.
#[derive(Clone, Copy, PartialEq, Eq, Structural, Debug)]
pub struct Segment {
    pub a: Point,
    pub b: Point,
}

impl Segment {
    pub open spec fn wf(self) -> bool {
        self.a.wf() && self.b.wf()
    }

    pub open spec fn is_degenerate(self) -> bool {
        self.a == self.b
    }

    pub fn new(a: Point, b: Point) -> (r: Segment)
        requires
            a.wf(),
            b.wf(),
        ensures
            r.wf(),
            r.a == a,
            r.b == b,
    {
        Segment { a, b }
    }
}

/// An exact rational number `num / den` with a positive denominator.
#[derive(Clone, Copy, Debug)]
pub struct Rat {
    pub num: i64,
    pub den: i64,
}

impl Rat {
    pub open spec fn wf(self) -> bool {
        self.den >= 1
    }

    /// Two rationals denote the same value: cross-multiplied equality.
    pub open spec fn eqv(self, o: Rat) -> bool {
        self.num * o.den == o.num * self.den
    }

    pub fn from_int(n: i64) -> (r: Rat)
        ensures
            r.num == n,
            r.den == 1,
            r.wf(),
    {
        Rat { num: n, den: 1 }
    }

    /// Exact value equality, decided without overflow in 128-bit arithmetic.
    pub fn eq_rat(&self, o: &Rat) -> (r: bool)
        ensures
            r == self.eqv(*o),
    {
        proof {
            lemma_mul_bound(self.num as int, o.den as int, 0x8000_0000_0000_0000,
                0x8000_0000_0000_0000);
            lemma_mul_bound(o.num as int, self.den as int, 0x8000_0000_0000_0000,
                0x8000_0000_0000_0000);
        }
        (self.num as i128) * (o.den as i128) == (o.num as i128) * (self.den as i128)
    }
}

/// A point with exact rational coordinates, as produced by the detector.
#[derive(Clone, Copy, Debug)]
pub struct RatPoint {
    pub x: Rat,
    pub y: Rat,
}

impl RatPoint {
    pub open spec fn wf(self) -> bool {
        self.x.wf() && self.y.wf()
    }

    /// Both coordinates denote the same values.
    pub open spec fn eqv(self, o: RatPoint) -> bool {
        self.x.eqv(o.x) && self.y.eqv(o.y)
    }

    pub fn eq_point(&self, o: &RatPoint) -> (r: bool)
        ensures
            r == self.eqv(*o),
    {
        self.x.eq_rat(&o.x) && self.y.eq_rat(&o.y)
    }
}

/// The grid point `p` as a rational point.
pub open spec fn rat_of(p: Point) -> RatPoint {
    RatPoint { x: Rat { num: p.x, den: 1 }, y: Rat { num: p.y, den: 1 } }
}

pub fn rat_of_point(p: Point) -> (r: RatPoint)
    ensures
        r == rat_of(p),
{
    RatPoint { x: Rat::from_int(p.x), y: Rat::from_int(p.y) }
}

/// How two segments intersect.
#[derive(Clone, Copy, Debug)]
pub enum IntersectionResult {
    /// The segments share exactly one point.  `proper` is false exactly when
    /// that point is an endpoint of one of the two segments.
    SinglePoint { p: RatPoint, proper: bool },
    /// The segments are collinear and share the sub-segment from `a` to `b`
    /// (more than one point).
    Collinear { a: Point, b: Point },
}

/// Twice the signed area of the triangle `o`, `a`, `b`; zero exactly when
/// the three points are collinear.
pub open spec fn cross(o: Point, a: Point, b: Point) -> int {
    (a.x - o.x) * (b.y - o.y) - (a.y - o.y) * (b.x - o.x)
}

/// |a| <= m and |b| <= n imply |a * b| <= m * n.
pub proof fn lemma_mul_bound(a: int, b: int, m: int, n: int)
    requires
        -m <= a <= m,
        -n <= b <= n,
    ensures
        -(m * n) <= a * b <= m * n,
{
    assert(-(m * n) <= a * b <= m * n) by (nonlinear_arith)
        requires
            -m <= a <= m,
            -n <= b <= n,
    {}
}

pub fn cross_exec(o: &Point, a: &Point, b: &Point) -> (r: i64)
    requires
        o.wf(),
        a.wf(),
        b.wf(),
    ensures
        r == cross(*o, *a, *b),
{
    let ux = a.x - o.x;
    let uy = a.y - o.y;
    let vx = b.x - o.x;
    let vy = b.y - o.y;
    proof {
        lemma_mul_bound(ux as int, vy as int, 1048576, 1048576);
        lemma_mul_bound(uy as int, vx as int, 1048576, 1048576);
    }
    ux * vy - uy * vx
}

/// Lexicographic order on grid points: by `x`, then by `y`.
pub open spec fn lex_le(p: Point, q: Point) -> bool {
    p.x < q.x || (p.x == q.x && p.y <= q.y)
}

pub fn lex_le_exec(p: &Point, q: &Point) -> (r: bool)
    ensures
        r == lex_le(*p, *q),
{
    p.x < q.x || (p.x == q.x && p.y <= q.y)
}

/// The lexicographically smaller endpoint of a segment.
pub open spec fn smin(s: Segment) -> Point {
    if lex_le(s.a, s.b) {
        s.a
    } else {
        s.b
    }
}

/// The lexicographically larger endpoint of a segment.
pub open spec fn smax(s: Segment) -> Point {
    if lex_le(s.a, s.b) {
        s.b
    } else {
        s.a
    }
}

pub fn smin_exec(s: &Segment) -> (r: Point)
    ensures
        r == smin(*s),
{
    if lex_le_exec(&s.a, &s.b) {
        s.a
    } else {
        s.b
    }
}

pub fn smax_exec(s: &Segment) -> (r: Point)
    ensures
        r == smax(*s),
{
    if lex_le_exec(&s.a, &s.b) {
        s.b
    } else {
        s.a
    }
}

/// The grid point `p` lies on the closed segment `s`.
pub open spec fn pt_on_seg(p: Point, s: Segment) -> bool {
    &&& cross(s.a, s.b, p) == 0
    &&& vstd::math::min(s.a.x as int, s.b.x as int) <= p.x
        <= vstd::math::max(s.a.x as int, s.b.x as int)
    &&& vstd::math::min(s.a.y as int, s.b.y as int) <= p.y
        <= vstd::math::max(s.a.y as int, s.b.y as int)
}

pub fn pt_on_seg_exec(p: &Point, s: &Segment) -> (r: bool)
    requires
        p.wf(),
        s.wf(),
    ensures
        r == pt_on_seg(*p, *s),
{
    let c = cross_exec(&s.a, &s.b, p);
    let xlo = if s.a.x <= s.b.x { s.a.x } else { s.b.x };
    let xhi = if s.a.x <= s.b.x { s.b.x } else { s.a.x };
    let ylo = if s.a.y <= s.b.y { s.a.y } else { s.b.y };
    let yhi = if s.a.y <= s.b.y { s.b.y } else { s.a.y };
    c == 0 && xlo <= p.x && p.x <= xhi && ylo <= p.y && p.y <= yhi
}


/// The exact geometric relationship of two segments.
///
/// Degenerate segments are handled as points.  Non-parallel supporting
/// lines cross at parameters `t = tn/den` along `s1` and `u = un/den`
/// along `s2`; the segments share that point exactly when both parameters
/// lie in `[0, 1]`, and the crossing is proper exactly when the point is
/// not an endpoint of either segment.  Collinear segments overlap in the
/// lexicographic interval common to both; a one-point overlap is an
/// endpoint touch.
pub open spec fn seg_intersection(s1: Segment, s2: Segment) -> Option<IntersectionResult> {
    if s1.a == s1.b {
        if pt_on_seg(s1.a, s2) {
            Some(IntersectionResult::SinglePoint { p: rat_of(s1.a), proper: false })
        } else {
            None
        }
    } else if s2.a == s2.b {
        if pt_on_seg(s2.a, s1) {
            Some(IntersectionResult::SinglePoint { p: rat_of(s2.a), proper: false })
        } else {
            None
        }
    } else {
        let d1x = s1.b.x - s1.a.x;
        let d1y = s1.b.y - s1.a.y;
        let d2x = s2.b.x - s2.a.x;
        let d2y = s2.b.y - s2.a.y;
        let ex = s2.a.x - s1.a.x;
        let ey = s2.a.y - s1.a.y;
        let denom = d1x * d2y - d1y * d2x;
        if denom != 0 {
            let tn0 = ex * d2y - ey * d2x;
            let un0 = ex * d1y - ey * d1x;
            let den = if denom < 0 { -denom } else { denom };
            let tn = if denom < 0 { -tn0 } else { tn0 };
            let un = if denom < 0 { -un0 } else { un0 };
            if 0 <= tn && tn <= den && 0 <= un && un <= den {
                let pxn = s1.a.x * den + tn * d1x;
                let pyn = s1.a.y * den + tn * d1y;
                Some(IntersectionResult::SinglePoint {
                    p: RatPoint {
                        x: Rat { num: pxn as i64, den: den as i64 },
                        y: Rat { num: pyn as i64, den: den as i64 },
                    },
                    proper: tn != 0 && tn != den && un != 0 && un != den,
                })
            } else {
                None
            }
        } else {
            if cross(s1.a, s1.b, s2.a) != 0 {
                None
            } else {
                let lo = if lex_le(smin(s1), smin(s2)) {
                    smin(s2)
                } else {
                    smin(s1)
                };
                let hi = if lex_le(smax(s1), smax(s2)) {
                    smax(s1)
                } else {
                    smax(s2)
                };
                if !lex_le(lo, hi) {
                    None
                } else if lo == hi {
                    Some(IntersectionResult::SinglePoint { p: rat_of(lo), proper: false })
                } else {
                    Some(IntersectionResult::Collinear { a: lo, b: hi })
                }
            }
        }
    }
}

/// Compute the exact intersection of two segments.
pub fn segment_intersection(s1: &Segment, s2: &Segment) -> (r: Option<IntersectionResult>)
    requires
        s1.wf(),
        s2.wf(),
    ensures
        r == seg_intersection(*s1, *s2),
{
    if s1.a == s1.b {
        if pt_on_seg_exec(&s1.a, s2) {
            Some(IntersectionResult::SinglePoint { p: rat_of_point(s1.a), proper: false })
        } else {
            None
        }
    } else if s2.a == s2.b {
        if pt_on_seg_exec(&s2.a, s1) {
            Some(IntersectionResult::SinglePoint { p: rat_of_point(s2.a), proper: false })
        } else {
            None
        }
    } else {
        let d1x = s1.b.x - s1.a.x;
        let d1y = s1.b.y - s1.a.y;
        let d2x = s2.b.x - s2.a.x;
        let d2y = s2.b.y - s2.a.y;
        let ex = s2.a.x - s1.a.x;
        let ey = s2.a.y - s1.a.y;
        proof {
            lemma_mul_bound(d1x as int, d2y as int, 1048576, 1048576);
            lemma_mul_bound(d1y as int, d2x as int, 1048576, 1048576);
            lemma_mul_bound(ex as int, d2y as int, 1048576, 1048576);
            lemma_mul_bound(ey as int, d2x as int, 1048576, 1048576);
            lemma_mul_bound(ex as int, d1y as int, 1048576, 1048576);
            lemma_mul_bound(ey as int, d1x as int, 1048576, 1048576);
        }
        let denom = d1x * d2y - d1y * d2x;
        if denom != 0 {
            let tn0 = ex * d2y - ey * d2x;
            let un0 = ex * d1y - ey * d1x;
            let den = if denom < 0 { -denom } else { denom };
            let tn = if denom < 0 { -tn0 } else { tn0 };
            let un = if denom < 0 { -un0 } else { un0 };
            if 0 <= tn && tn <= den && 0 <= un && un <= den {
                proof {
                    lemma_mul_bound(s1.a.x as int, den as int, 524288, 0x20000000000);
                    lemma_mul_bound(s1.a.y as int, den as int, 524288, 0x20000000000);
                    lemma_mul_bound(tn as int, d1x as int, 0x20000000000, 1048576);
                    lemma_mul_bound(tn as int, d1y as int, 0x20000000000, 1048576);
                }
                let pxn = s1.a.x * den + tn * d1x;
                let pyn = s1.a.y * den + tn * d1y;
                Some(IntersectionResult::SinglePoint {
                    p: RatPoint {
                        x: Rat { num: pxn, den },
                        y: Rat { num: pyn, den },
                    },
                    proper: tn != 0 && tn != den && un != 0 && un != den,
                })
            } else {
                None
            }
        } else {
            let c = cross_exec(&s1.a, &s1.b, &s2.a);
            if c != 0 {
                None
            } else {
                let min1 = smin_exec(s1);
                let min2 = smin_exec(s2);
                let max1 = smax_exec(s1);
                let max2 = smax_exec(s2);
                let lo = if lex_le_exec(&min1, &min2) {
                    min2
                } else {
                    min1
                };
                let hi = if lex_le_exec(&max1, &max2) {
                    max1
                } else {
                    max2
                };
                if !lex_le_exec(&lo, &hi) {
                    None
                } else if lo == hi {
                    Some(IntersectionResult::SinglePoint { p: rat_of_point(lo), proper: false })
                } else {
                    Some(IntersectionResult::Collinear { a: lo, b: hi })
                }
            }
        }
    }
}


/// An inequality of products with a common positive factor can be divided
/// by that factor.
pub proof fn lemma_le_cancel(a: int, b: int, d: int)
    requires
        0 < d,
        a * d <= b * d,
    ensures
        a <= b,
{
    assert(a <= b) by (nonlinear_arith)
        requires
            0 < d,
            a * d <= b * d,
    {}
}

/// Substituting the crossing parameters back: the point measured along the
/// first segment and along the second agree.  Pure polynomial identity.
proof fn lemma_cross_solve(d1x: int, d1y: int, d2x: int, d2y: int, ex: int, ey: int)
    ensures
        (ex * d2y - ey * d2x) * d1x - (ex * d1y - ey * d1x) * d2x == ex * (d1x * d2y - d1y
            * d2x),
{
    assert((ex * d2y - ey * d2x) * d1x - (ex * d1y - ey * d1x) * d2x == ex * (d1x * d2y - d1y
        * d2x)) by (nonlinear_arith) {}
}

/// A degenerate segment touching another segment yields a single improper
/// intersection point, namely the degenerate segment itself; and it
/// intersects exactly when its point lies on the other segment.
pub proof fn lemma_degenerate_touch(s1: Segment, s2: Segment)
    requires
        s1.wf(),
        s2.wf(),
        s1.is_degenerate(),
    ensures
        seg_intersection(s1, s2) is Some <==> pt_on_seg(s1.a, s2),
        pt_on_seg(s1.a, s2) ==> seg_intersection(s1, s2) == Some(
            IntersectionResult::SinglePoint { p: rat_of(s1.a), proper: false },
        ),
{
}

/// Intersecting segments overlap in their x-ranges.  This is what lets the
/// sweep test a starting segment only against segments whose end event has
/// not yet been processed.
pub proof fn lemma_intersection_x_overlap(s1: Segment, s2: Segment)
    requires
        s1.wf(),
        s2.wf(),
        seg_intersection(s1, s2) is Some,
    ensures
        smin(s1).x <= smax(s2).x,
        smin(s2).x <= smax(s1).x,
{
    if s1.a == s1.b {
        assert(pt_on_seg(s1.a, s2));
    } else if s2.a == s2.b {
        assert(pt_on_seg(s2.a, s1));
    } else {
        let d1x = s1.b.x - s1.a.x;
        let d1y = s1.b.y - s1.a.y;
        let d2x = s2.b.x - s2.a.x;
        let d2y = s2.b.y - s2.a.y;
        let ex = s2.a.x - s1.a.x;
        let ey = s2.a.y - s1.a.y;
        let denom = d1x * d2y - d1y * d2x;
        if denom != 0 {
            let tn0 = ex * d2y - ey * d2x;
            let un0 = ex * d1y - ey * d1x;
            let den = if denom < 0 { -denom } else { denom };
            let tn = if denom < 0 { -tn0 } else { tn0 };
            let un = if denom < 0 { -un0 } else { un0 };
            assert(0 <= tn && tn <= den && 0 <= un && un <= den);
            // The same intersection point measured along both segments.
            lemma_cross_solve(d1x, d1y, d2x, d2y, ex, ey);
            assert(tn0 * d1x - un0 * d2x == ex * denom);
            assert(s2.a.x * denom == s1.a.x * denom + ex * denom) by (nonlinear_arith)
                requires
                    s2.a.x == s1.a.x + ex,
            {}
            assert(s1.a.x * denom + tn0 * d1x == s2.a.x * denom + un0 * d2x);
            let pxn = s1.a.x * den + tn * d1x;
            assert(pxn == s2.a.x * den + un * d2x) by (nonlinear_arith)
                requires
                    s1.a.x * denom + tn0 * d1x == s2.a.x * denom + un0 * d2x,
                    pxn == s1.a.x * den + tn * d1x,
                    den == if denom < 0 { -denom } else { denom },
                    tn == if denom < 0 { -tn0 } else { tn0 },
                    un == if denom < 0 { -un0 } else { un0 },
            {}
            // The point parameter lies in [0, 1] along s1 ...
            assert((d1x >= 0 ==> 0 <= tn * d1x && tn * d1x <= den * d1x) && (d1x < 0
                ==> den * d1x <= tn * d1x && tn * d1x <= 0)) by (nonlinear_arith)
                requires
                    0 <= tn,
                    tn <= den,
            {}
            assert(s1.b.x * den == s1.a.x * den + d1x * den) by (nonlinear_arith)
                requires
                    s1.b.x == s1.a.x + d1x,
            {}
            // ... and in [0, 1] along s2.
            assert((d2x >= 0 ==> 0 <= un * d2x && un * d2x <= den * d2x) && (d2x < 0
                ==> den * d2x <= un * d2x && un * d2x <= 0)) by (nonlinear_arith)
                requires
                    0 <= un,
                    un <= den,
            {}
            assert(s2.b.x * den == s2.a.x * den + d2x * den) by (nonlinear_arith)
                requires
                    s2.b.x == s2.a.x + d2x,
            {}
            assert(den * d1x == d1x * den);
            assert(den * d2x == d2x * den);
            assert(smin(s1).x * den <= pxn && pxn <= smax(s1).x * den);
            assert(smin(s2).x * den <= pxn && pxn <= smax(s2).x * den);
            lemma_le_cancel(smin(s1).x as int, smax(s2).x as int, den);
            lemma_le_cancel(smin(s2).x as int, smax(s1).x as int, den);
        } else {
            assert(cross(s1.a, s1.b, s2.a) == 0);
            let lo = if lex_le(smin(s1), smin(s2)) {
                smin(s2)
            } else {
                smin(s1)
            };
            let hi = if lex_le(smax(s1), smax(s2)) {
                smax(s1)
            } else {
                smax(s2)
            };
            assert(lex_le(lo, hi));
            assert(lex_le(smin(s1), lo));
            assert(lex_le(smin(s2), lo));
            assert(lex_le(hi, smax(s1)));
            assert(lex_le(hi, smax(s2)));
        }
    }
}


/// Input rejected before any sweep work begins.
#[derive(Clone, Copy, PartialEq, Eq, Structural, Debug)]
pub enum InputError {
    /// A coordinate lies outside the supported grid range.
    InvalidInput,
}

/// One raw input record: the four coordinates `x1, y1, x2, y2` of a segment.
pub open spec fn coords_ok(c: (i64, i64, i64, i64)) -> bool {
    &&& -COORD_BOUND <= c.0 <= COORD_BOUND
    &&& -COORD_BOUND <= c.1 <= COORD_BOUND
    &&& -COORD_BOUND <= c.2 <= COORD_BOUND
    &&& -COORD_BOUND <= c.3 <= COORD_BOUND
}

pub open spec fn segment_of_coords(c: (i64, i64, i64, i64)) -> Segment {
    Segment { a: Point { x: c.0, y: c.1 }, b: Point { x: c.2, y: c.3 } }
}

/// Validate a whole input batch up front: either every record is in range
/// and the segments are returned in input order, or the batch is rejected
/// as a whole and nothing is swept.
pub fn segments_from_coords(coords: &Vec<(i64, i64, i64, i64)>) -> (r: Result<
    Vec<Segment>,
    InputError,
>)
    ensures
        r is Ok <==> (forall|m: int| 0 <= m < coords@.len() ==> coords_ok(#[trigger] coords@[m])),
        r matches Ok(segs) ==> {
            &&& segs@.len() == coords@.len()
            &&& forall|m: int|
                0 <= m < coords@.len() ==> segs@[m] == segment_of_coords(#[trigger] coords@[m])
                    && segs@[m].wf()
        },
{
    let mut segs: Vec<Segment> = Vec::new();
    let mut m: usize = 0;
    while m < coords.len()
        invariant
            m <= coords@.len(),
            segs@.len() == m,
            forall|p: int| 0 <= p < m ==> coords_ok(#[trigger] coords@[p]),
            forall|p: int|
                0 <= p < m ==> segs@[p] == segment_of_coords(#[trigger] coords@[p])
                    && segs@[p].wf(),
        decreases coords@.len() - m,
    {
        let (x1, y1, x2, y2) = coords[m];
        if x1 < -COORD_BOUND || x1 > COORD_BOUND || y1 < -COORD_BOUND || y1 > COORD_BOUND || x2
            < -COORD_BOUND || x2 > COORD_BOUND || y2 < -COORD_BOUND || y2 > COORD_BOUND {
            return Err(InputError::InvalidInput);
        }
        segs.push(Segment { a: Point { x: x1, y: y1 }, b: Point { x: x2, y: y2 } });
        proof {
            assert(coords@[m as int] == (x1, y1, x2, y2));
            assert(segs@[m as int] == segment_of_coords(coords@[m as int]));
            assert(segs@[m as int].wf());
        }
        m = m + 1;
    }
    Ok(segs)
}


/// Companion identity to `lemma_cross_solve`, for the y coordinate.
proof fn lemma_cross_solve_y(d1x: int, d1y: int, d2x: int, d2y: int, ex: int, ey: int)
    ensures
        (ex * d2y - ey * d2x) * d1y - (ex * d1y - ey * d1x) * d2y == ey * (d1x * d2y - d1y
            * d2x),
{
    assert((ex * d2y - ey * d2x) * d1y - (ex * d1y - ey * d1x) * d2y == ey * (d1x * d2y - d1y
        * d2x)) by (nonlinear_arith) {}
}

/// A point written as `q + (t/den) * d` with `d` nonzero equals `q`
/// exactly when the parameter `t` is zero.
proof fn lemma_param_boundary(
    pxn: int,
    pyn: int,
    den: int,
    qx: int,
    qy: int,
    t: int,
    dx: int,
    dy: int,
)
    requires
        dx != 0 || dy != 0,
        pxn == qx * den + t * dx,
        pyn == qy * den + t * dy,
    ensures
        (pxn == qx * den && pyn == qy * den) <==> t == 0,
{
    if t == 0 {
        assert(t * dx == 0) by (nonlinear_arith)
            requires
                t == 0,
        {}
        assert(t * dy == 0) by (nonlinear_arith)
            requires
                t == 0,
        {}
    }
    if pxn == qx * den && pyn == qy * den {
        assert(t * dx == 0);
        assert(t * dy == 0);
        if t != 0 {
            lemma_zero_product(t, dx);
            lemma_zero_product(t, dy);
        }
    }
}

/// In the integers a product vanishes only if a factor does.
proof fn lemma_zero_product(a: int, b: int)
    requires
        a * b == 0,
    ensures
        a == 0 || b == 0,
{
    assert(a == 0 || b == 0) by (nonlinear_arith)
        requires
            a * b == 0,
    {}
}

/// The `proper` flag of a single intersection point means exactly that the
/// point is not an endpoint of either segment.
#[verifier::rlimit(100)]
pub proof fn lemma_proper_iff_endpoint(s1: Segment, s2: Segment, p: RatPoint, proper: bool)
    requires
        s1.wf(),
        s2.wf(),
        seg_intersection(s1, s2) == Some(IntersectionResult::SinglePoint { p, proper }),
    ensures
        proper <==> (!p.eqv(rat_of(s1.a)) && !p.eqv(rat_of(s1.b)) && !p.eqv(rat_of(s2.a))
            && !p.eqv(rat_of(s2.b))),
{
    if s1.a == s1.b {
        assert(p == rat_of(s1.a) && !proper);
        assert(p.eqv(rat_of(s1.a)));
    } else if s2.a == s2.b {
        assert(p == rat_of(s2.a) && !proper);
        assert(p.eqv(rat_of(s2.a)));
    } else {
        let d1x = s1.b.x - s1.a.x;
        let d1y = s1.b.y - s1.a.y;
        let d2x = s2.b.x - s2.a.x;
        let d2y = s2.b.y - s2.a.y;
        let ex = s2.a.x - s1.a.x;
        let ey = s2.a.y - s1.a.y;
        let denom = d1x * d2y - d1y * d2x;
        if denom != 0 {
            let tn0 = ex * d2y - ey * d2x;
            let un0 = ex * d1y - ey * d1x;
            let den = if denom < 0 { -denom } else { denom };
            let tn = if denom < 0 { -tn0 } else { tn0 };
            let un = if denom < 0 { -un0 } else { un0 };
            assert(0 <= tn && tn <= den && 0 <= un && un <= den);
            let pxn = s1.a.x * den + tn * d1x;
            let pyn = s1.a.y * den + tn * d1y;
            lemma_mul_bound(d1x, d2y, 1048576, 1048576);
            lemma_mul_bound(d1y, d2x, 1048576, 1048576);
            lemma_mul_bound(ex, d2y, 1048576, 1048576);
            lemma_mul_bound(ey, d2x, 1048576, 1048576);
            lemma_mul_bound(s1.a.x as int, den, 524288, 0x20000000000);
            lemma_mul_bound(s1.a.y as int, den, 524288, 0x20000000000);
            lemma_mul_bound(tn, d1x, 0x20000000000, 1048576);
            lemma_mul_bound(tn, d1y, 0x20000000000, 1048576);
            assert(p.x == Rat { num: pxn as i64, den: den as i64 });
            assert(p.x.num == pxn && p.x.den == den);
            assert(p.y.num == pyn && p.y.den == den);
            // The same point measured along the second segment.
            lemma_cross_solve(d1x, d1y, d2x, d2y, ex, ey);
            lemma_cross_solve_y(d1x, d1y, d2x, d2y, ex, ey);
            assert(s2.a.x * denom == s1.a.x * denom + ex * denom) by (nonlinear_arith)
                requires
                    s2.a.x == s1.a.x + ex,
            {}
            assert(s2.a.y * denom == s1.a.y * denom + ey * denom) by (nonlinear_arith)
                requires
                    s2.a.y == s1.a.y + ey,
            {}
            assert(s1.a.x * denom + tn0 * d1x == s2.a.x * denom + un0 * d2x);
            assert(s1.a.y * denom + tn0 * d1y == s2.a.y * denom + un0 * d2y);
            assert(pxn == s2.a.x * den + un * d2x) by (nonlinear_arith)
                requires
                    s1.a.x * denom + tn0 * d1x == s2.a.x * denom + un0 * d2x,
                    pxn == s1.a.x * den + tn * d1x,
                    den == if denom < 0 { -denom } else { denom },
                    tn == if denom < 0 { -tn0 } else { tn0 },
                    un == if denom < 0 { -un0 } else { un0 },
            {}
            assert(pyn == s2.a.y * den + un * d2y) by (nonlinear_arith)
                requires
                    s1.a.y * denom + tn0 * d1y == s2.a.y * denom + un0 * d2y,
                    pyn == s1.a.y * den + tn * d1y,
                    den == if denom < 0 { -denom } else { denom },
                    tn == if denom < 0 { -tn0 } else { tn0 },
                    un == if denom < 0 { -un0 } else { un0 },
            {}
            assert(s1.b.x * den == s1.a.x * den + d1x * den) by (nonlinear_arith)
                requires
                    s1.b.x == s1.a.x + d1x,
            {}
            assert(s1.b.y * den == s1.a.y * den + d1y * den) by (nonlinear_arith)
                requires
                    s1.b.y == s1.a.y + d1y,
            {}
            assert(s2.b.x * den == s2.a.x * den + d2x * den) by (nonlinear_arith)
                requires
                    s2.b.x == s2.a.x + d2x,
            {}
            assert(s2.b.y * den == s2.a.y * den + d2y * den) by (nonlinear_arith)
                requires
                    s2.b.y == s2.a.y + d2y,
            {}
            // Coinciding with an endpoint pins the parameter to a boundary.
            assert(d1x != 0 || d1y != 0);
            assert(d2x != 0 || d2y != 0);
            lemma_param_boundary(pxn, pyn, den, s1.a.x as int, s1.a.y as int, tn, d1x, d1y);
            assert(pxn == s1.b.x * den + (tn - den) * d1x) by (nonlinear_arith)
                requires
                    pxn == s1.a.x * den + tn * d1x,
                    s1.b.x == s1.a.x + d1x,
            {}
            assert(pyn == s1.b.y * den + (tn - den) * d1y) by (nonlinear_arith)
                requires
                    pyn == s1.a.y * den + tn * d1y,
                    s1.b.y == s1.a.y + d1y,
            {}
            lemma_param_boundary(pxn, pyn, den, s1.b.x as int, s1.b.y as int, tn - den, d1x, d1y);
            lemma_param_boundary(pxn, pyn, den, s2.a.x as int, s2.a.y as int, un, d2x, d2y);
            assert(pxn == s2.b.x * den + (un - den) * d2x) by (nonlinear_arith)
                requires
                    pxn == s2.a.x * den + un * d2x,
                    s2.b.x == s2.a.x + d2x,
            {}
            assert(pyn == s2.b.y * den + (un - den) * d2y) by (nonlinear_arith)
                requires
                    pyn == s2.a.y * den + un * d2y,
                    s2.b.y == s2.a.y + d2y,
            {}
            lemma_param_boundary(pxn, pyn, den, s2.b.x as int, s2.b.y as int, un - den, d2x, d2y);
            assert(p.eqv(rat_of(s1.a)) <==> tn == 0);
            assert(p.eqv(rat_of(s1.b)) <==> tn == den);
            assert(p.eqv(rat_of(s2.a)) <==> un == 0);
            assert(p.eqv(rat_of(s2.b)) <==> un == den);
        } else {
            // Collinear single-point touch: the point is a named endpoint.
            let lo = if lex_le(smin(s1), smin(s2)) {
                smin(s2)
            } else {
                smin(s1)
            };
            assert(p == rat_of(lo) && !proper);
            assert(lo == s1.a || lo == s1.b || lo == s2.a || lo == s2.b);
            assert(p.eqv(rat_of(lo)));
        }
    }
}


/// Collinearity is carried along a parallel segment: if the directions are
/// parallel and one endpoint of the second segment lies on the first
/// segment's line, so does the other.
proof fn lemma_parallel_carries(s1: Segment, s2: Segment)
    requires
        (s1.b.x - s1.a.x) * (s2.b.y - s2.a.y) - (s1.b.y - s1.a.y) * (s2.b.x - s2.a.x) == 0,
        cross(s1.a, s1.b, s2.a) == 0,
    ensures
        cross(s1.a, s1.b, s2.b) == 0,
{
    assert(cross(s1.a, s1.b, s2.b) == cross(s1.a, s1.b, s2.a) + ((s1.b.x - s1.a.x) * (s2.b.y
        - s2.a.y) - (s1.b.y - s1.a.y) * (s2.b.x - s2.a.x))) by (nonlinear_arith) {}
}

/// A point on a segment's line that lies lexicographically between the
/// segment's endpoints lies on the segment.
proof fn lemma_collinear_between(s: Segment, z: Point)
    requires
        s.wf(),
        cross(s.a, s.b, z) == 0,
        lex_le(smin(s), z),
        lex_le(z, smax(s)),
    ensures
        pt_on_seg(z, s),
{
    let dx = s.b.x - s.a.x;
    let dy = s.b.y - s.a.y;
    assert(vstd::math::min(s.a.x as int, s.b.x as int) <= z.x <= vstd::math::max(
        s.a.x as int,
        s.b.x as int,
    ));
    if dx == 0 {
        // Vertical line: the lexicographic order is the y order.
        assert(smin(s).y <= z.y <= smax(s).y);
    } else {
        // (z.y - a.y) * dx == (z.x - a.x) * dy, with z.x - a.x between
        // 0 and dx; cancelling the nonzero dx bounds z.y.
        assert((z.x - s.a.x) * dy == (z.y - s.a.y) * dx);
        assert(vstd::math::min(s.a.y as int, s.b.y as int) <= z.y <= vstd::math::max(
            s.a.y as int,
            s.b.y as int,
        )) by (nonlinear_arith)
            requires
                dx == s.b.x - s.a.x,
                dy == s.b.y - s.a.y,
                dx != 0,
                (z.x - s.a.x) * dy == (z.y - s.a.y) * dx,
                vstd::math::min(s.a.x as int, s.b.x as int) <= z.x <= vstd::math::max(
                    s.a.x as int,
                    s.b.x as int,
                ),
        {}
    }
}

/// The reported collinear overlap is a genuine common sub-segment: its two
/// distinct endpoints lie on both segments.
pub proof fn lemma_collinear_overlap_on_segments(s1: Segment, s2: Segment, a: Point, b: Point)
    requires
        s1.wf(),
        s2.wf(),
        seg_intersection(s1, s2) == Some(IntersectionResult::Collinear { a, b }),
    ensures
        a != b,
        lex_le(a, b),
        pt_on_seg(a, s1),
        pt_on_seg(a, s2),
        pt_on_seg(b, s1),
        pt_on_seg(b, s2),
{
    assert(!s1.is_degenerate() && !s2.is_degenerate());
    let d1x = s1.b.x - s1.a.x;
    let d1y = s1.b.y - s1.a.y;
    let d2x = s2.b.x - s2.a.x;
    let d2y = s2.b.y - s2.a.y;
    assert(d1x * d2y - d1y * d2x == 0);
    assert(cross(s1.a, s1.b, s2.a) == 0);
    lemma_parallel_carries(s1, s2);
    // All four endpoints lie on the common line, in both segments' terms.
    assert(cross(s1.a, s1.b, s1.a) == 0) by (nonlinear_arith) {}
    assert(cross(s1.a, s1.b, s1.b) == 0) by (nonlinear_arith) {}
    // A point on the line of s1 is also on the line of s2: both directions
    // are parallel, and s2.a lies on the first line.
    assert forall|z: Point| cross(s1.a, s1.b, z) == 0 implies cross(s2.a, s2.b, z) == 0 by {
        let vx = z.x - s2.a.x;
        let vy = z.y - s2.a.y;
        assert(d1x * vy - d1y * vx == 0) by (nonlinear_arith)
            requires
                cross(s1.a, s1.b, z) == 0,
                cross(s1.a, s1.b, s2.a) == 0,
                d1x == s1.b.x - s1.a.x,
                d1y == s1.b.y - s1.a.y,
                vx == z.x - s2.a.x,
                vy == z.y - s2.a.y,
                cross(s1.a, s1.b, z) == (s1.b.x - s1.a.x) * (z.y - s1.a.y) - (s1.b.y
                    - s1.a.y) * (z.x - s1.a.x),
                cross(s1.a, s1.b, s2.a) == (s1.b.x - s1.a.x) * (s2.a.y - s1.a.y) - (s1.b.y
                    - s1.a.y) * (s2.a.x - s1.a.x),
        {}
        let c = d2x * vy - d2y * vx;
        assert(c * d1x == 0 && c * d1y == 0) by (nonlinear_arith)
            requires
                c == d2x * vy - d2y * vx,
                d1x * vy - d1y * vx == 0,
                d1x * d2y - d1y * d2x == 0,
        {}
        if d1x != 0 {
            lemma_zero_product(c, d1x);
        } else {
            lemma_zero_product(c, d1y);
        }
        assert(cross(s2.a, s2.b, z) == c) by (nonlinear_arith)
            requires
                c == d2x * vy - d2y * vx,
                d2x == s2.b.x - s2.a.x,
                d2y == s2.b.y - s2.a.y,
                vx == z.x - s2.a.x,
                vy == z.y - s2.a.y,
                cross(s2.a, s2.b, z) == (s2.b.x - s2.a.x) * (z.y - s2.a.y) - (s2.b.y
                    - s2.a.y) * (z.x - s2.a.x),
        {}
    }
    let lo = if lex_le(smin(s1), smin(s2)) {
        smin(s2)
    } else {
        smin(s1)
    };
    let hi = if lex_le(smax(s1), smax(s2)) {
        smax(s1)
    } else {
        smax(s2)
    };
    assert(a == lo && b == hi && lex_le(lo, hi) && lo != hi);
    assert(cross(s1.a, s1.b, lo) == 0);
    assert(cross(s1.a, s1.b, hi) == 0);
    lemma_collinear_between(s1, lo);
    lemma_collinear_between(s1, hi);
    lemma_collinear_between(s2, lo);
    lemma_collinear_between(s2, hi);
}


/// The rational point `p` lies on the closed segment `s`: it is on the
/// segment's line and inside its bounding box, all stated with the
/// denominators cross-multiplied away (they are positive).
pub open spec fn rp_on_seg(p: RatPoint, s: Segment) -> bool {
    &&& (p.x.num - s.a.x * p.x.den) * ((s.b.y - s.a.y) * p.y.den) == (p.y.num - s.a.y
        * p.y.den) * ((s.b.x - s.a.x) * p.x.den)
    &&& vstd::math::min(s.a.x as int, s.b.x as int) * p.x.den <= p.x.num <= vstd::math::max(
        s.a.x as int,
        s.b.x as int,
    ) * p.x.den
    &&& vstd::math::min(s.a.y as int, s.b.y as int) * p.y.den <= p.y.num <= vstd::math::max(
        s.a.y as int,
        s.b.y as int,
    ) * p.y.den
}

/// A grid point on a segment is on it as a rational point too.
proof fn lemma_pt_on_seg_lift(z: Point, s: Segment)
    requires
        pt_on_seg(z, s),
    ensures
        rp_on_seg(rat_of(z), s),
{
    assert((z.x - s.a.x * 1) * ((s.b.y - s.a.y) * 1) == (z.y - s.a.y * 1) * ((s.b.x - s.a.x)
        * 1)) by (nonlinear_arith)
        requires
            (s.b.x - s.a.x) * (z.y - s.a.y) - (s.b.y - s.a.y) * (z.x - s.a.x) == 0,
    {}
    assert(cross(s.a, s.b, z) == (s.b.x - s.a.x) * (z.y - s.a.y) - (s.b.y - s.a.y) * (z.x
        - s.a.x)) by (nonlinear_arith) {}
}

/// `w = (q + (t/den) d) * den` lies between `q * den` and `(q + d) * den`
/// when the parameter is in range.
proof fn lemma_coord_between(q: int, qb: int, d: int, t: int, den: int, w: int)
    requires
        den > 0,
        0 <= t <= den,
        w == q * den + t * d,
        qb == q + d,
    ensures
        vstd::math::min(q, qb) * den <= w <= vstd::math::max(q, qb) * den,
{
    assert((d >= 0 ==> 0 <= t * d && t * d <= den * d) && (d < 0 ==> den * d <= t * d && t * d
        <= 0)) by (nonlinear_arith)
        requires
            0 <= t,
            t <= den,
    {}
    assert(qb * den == q * den + d * den) by (nonlinear_arith)
        requires
            qb == q + d,
    {}
    assert(den * d == d * den) by (nonlinear_arith) {}
    assert(vstd::math::min(q, qb) * den == if q <= qb {
        q * den
    } else {
        qb * den
    }) by (nonlinear_arith)
        requires
            den > 0,
    {}
    assert(vstd::math::max(q, qb) * den == if q <= qb {
        qb * den
    } else {
        q * den
    }) by (nonlinear_arith)
        requires
            den > 0,
    {}
}

/// The reported single intersection point lies on both closed segments.
#[verifier::rlimit(100)]
pub proof fn lemma_single_point_on_segments(s1: Segment, s2: Segment, p: RatPoint, proper: bool)
    requires
        s1.wf(),
        s2.wf(),
        seg_intersection(s1, s2) == Some(IntersectionResult::SinglePoint { p, proper }),
    ensures
        p.wf(),
        rp_on_seg(p, s1),
        rp_on_seg(p, s2),
{
    if s1.a == s1.b {
        assert(p == rat_of(s1.a) && pt_on_seg(s1.a, s2));
        assert(pt_on_seg(s1.a, s1)) by {
            assert(cross(s1.a, s1.b, s1.a) == 0) by (nonlinear_arith) {}
        }
        lemma_pt_on_seg_lift(s1.a, s1);
        lemma_pt_on_seg_lift(s1.a, s2);
    } else if s2.a == s2.b {
        assert(p == rat_of(s2.a) && pt_on_seg(s2.a, s1));
        assert(pt_on_seg(s2.a, s2)) by {
            assert(cross(s2.a, s2.b, s2.a) == 0) by (nonlinear_arith) {}
        }
        lemma_pt_on_seg_lift(s2.a, s1);
        lemma_pt_on_seg_lift(s2.a, s2);
    } else {
        let d1x = s1.b.x - s1.a.x;
        let d1y = s1.b.y - s1.a.y;
        let d2x = s2.b.x - s2.a.x;
        let d2y = s2.b.y - s2.a.y;
        let ex = s2.a.x - s1.a.x;
        let ey = s2.a.y - s1.a.y;
        let denom = d1x * d2y - d1y * d2x;
        if denom != 0 {
            let tn0 = ex * d2y - ey * d2x;
            let un0 = ex * d1y - ey * d1x;
            let den = if denom < 0 { -denom } else { denom };
            let tn = if denom < 0 { -tn0 } else { tn0 };
            let un = if denom < 0 { -un0 } else { un0 };
            assert(0 <= tn && tn <= den && 0 <= un && un <= den);
            let pxn = s1.a.x * den + tn * d1x;
            let pyn = s1.a.y * den + tn * d1y;
            lemma_mul_bound(d1x, d2y, 1048576, 1048576);
            lemma_mul_bound(d1y, d2x, 1048576, 1048576);
            lemma_mul_bound(ex, d2y, 1048576, 1048576);
            lemma_mul_bound(ey, d2x, 1048576, 1048576);
            lemma_mul_bound(s1.a.x as int, den, 524288, 0x20000000000);
            lemma_mul_bound(s1.a.y as int, den, 524288, 0x20000000000);
            lemma_mul_bound(tn, d1x, 0x20000000000, 1048576);
            lemma_mul_bound(tn, d1y, 0x20000000000, 1048576);
            assert(p.x.num == pxn && p.x.den == den);
            assert(p.y.num == pyn && p.y.den == den);
            // The same point measured along the second segment.
            lemma_cross_solve(d1x, d1y, d2x, d2y, ex, ey);
            lemma_cross_solve_y(d1x, d1y, d2x, d2y, ex, ey);
            assert(s2.a.x * denom == s1.a.x * denom + ex * denom) by (nonlinear_arith)
                requires
                    s2.a.x == s1.a.x + ex,
            {}
            assert(s2.a.y * denom == s1.a.y * denom + ey * denom) by (nonlinear_arith)
                requires
                    s2.a.y == s1.a.y + ey,
            {}
            assert(pxn == s2.a.x * den + un * d2x) by (nonlinear_arith)
                requires
                    s1.a.x * denom + tn0 * d1x == s2.a.x * denom + un0 * d2x,
                    pxn == s1.a.x * den + tn * d1x,
                    den == if denom < 0 { -denom } else { denom },
                    tn == if denom < 0 { -tn0 } else { tn0 },
                    un == if denom < 0 { -un0 } else { un0 },
            {}
            assert(pyn == s2.a.y * den + un * d2y) by (nonlinear_arith)
                requires
                    s1.a.y * denom + tn0 * d1y == s2.a.y * denom + un0 * d2y,
                    pyn == s1.a.y * den + tn * d1y,
                    den == if denom < 0 { -denom } else { denom },
                    tn == if denom < 0 { -tn0 } else { tn0 },
                    un == if denom < 0 { -un0 } else { un0 },
            {}
            // Bounding boxes, one coordinate and one segment at a time.
            lemma_coord_between(s1.a.x as int, s1.b.x as int, d1x, tn, den, pxn);
            lemma_coord_between(s1.a.y as int, s1.b.y as int, d1y, tn, den, pyn);
            lemma_coord_between(s2.a.x as int, s2.b.x as int, d2x, un, den, pxn);
            lemma_coord_between(s2.a.y as int, s2.b.y as int, d2y, un, den, pyn);
            // The point lies on both lines.
            assert((pxn - s1.a.x * den) * (d1y * den) == (pyn - s1.a.y * den) * (d1x * den))
                by (nonlinear_arith)
                requires
                    pxn == s1.a.x * den + tn * d1x,
                    pyn == s1.a.y * den + tn * d1y,
            {}
            assert((pxn - s2.a.x * den) * (d2y * den) == (pyn - s2.a.y * den) * (d2x * den))
                by (nonlinear_arith)
                requires
                    pxn == s2.a.x * den + un * d2x,
                    pyn == s2.a.y * den + un * d2y,
            {}
        } else {
            assert(cross(s1.a, s1.b, s2.a) == 0);
            let lo = if lex_le(smin(s1), smin(s2)) {
                smin(s2)
            } else {
                smin(s1)
            };
            let hi = if lex_le(smax(s1), smax(s2)) {
                smax(s1)
            } else {
                smax(s2)
            };
            assert(lex_le(lo, hi) && lo == hi && p == rat_of(lo));
            lemma_parallel_carries(s1, s2);
            assert(cross(s1.a, s1.b, s1.a) == 0) by (nonlinear_arith) {}
            assert(cross(s1.a, s1.b, s1.b) == 0) by (nonlinear_arith) {}
            assert(cross(s1.a, s1.b, lo) == 0);
            lemma_collinear_between(s1, lo);
            assert(cross(s2.a, s2.b, lo) == 0) by {
                let vx = lo.x - s2.a.x;
                let vy = lo.y - s2.a.y;
                assert(d1x * vy - d1y * vx == 0) by (nonlinear_arith)
                    requires
                        cross(s1.a, s1.b, lo) == 0,
                        cross(s1.a, s1.b, s2.a) == 0,
                        d1x == s1.b.x - s1.a.x,
                        d1y == s1.b.y - s1.a.y,
                        vx == lo.x - s2.a.x,
                        vy == lo.y - s2.a.y,
                        cross(s1.a, s1.b, lo) == (s1.b.x - s1.a.x) * (lo.y - s1.a.y) - (
                        s1.b.y - s1.a.y) * (lo.x - s1.a.x),
                        cross(s1.a, s1.b, s2.a) == (s1.b.x - s1.a.x) * (s2.a.y - s1.a.y) - (
                        s1.b.y - s1.a.y) * (s2.a.x - s1.a.x),
                {}
                let c = d2x * vy - d2y * vx;
                assert(c * d1x == 0 && c * d1y == 0) by (nonlinear_arith)
                    requires
                        c == d2x * vy - d2y * vx,
                        d1x * vy - d1y * vx == 0,
                        d1x * d2y - d1y * d2x == 0,
                {}
                if d1x != 0 {
                    lemma_zero_product(c, d1x);
                } else {
                    lemma_zero_product(c, d1y);
                }
                assert(cross(s2.a, s2.b, lo) == c) by (nonlinear_arith)
                    requires
                        c == d2x * vy - d2y * vx,
                        d2x == s2.b.x - s2.a.x,
                        d2y == s2.b.y - s2.a.y,
                        vx == lo.x - s2.a.x,
                        vy == lo.y - s2.a.y,
                        cross(s2.a, s2.b, lo) == (s2.b.x - s2.a.x) * (lo.y - s2.a.y) - (
                        s2.b.y - s2.a.y) * (lo.x - s2.a.x),
                {}
            }
            lemma_collinear_between(s2, lo);
            lemma_pt_on_seg_lift(lo, s1);
            lemma_pt_on_seg_lift(lo, s2);
        }
    }
}



} // verus!
