//! Floor plans: axis-aligned polygons over integer corners, the largest
//! rectangle spanned by two corners, and the largest such rectangle that
//! stays inside the polygon.

use vstd::prelude::*;

verus! {

/// A corner of the floor plan.
#[derive(Clone, Copy, PartialEq, Eq, Structural)]
pub struct Point {
    pub x: i32,
    pub y: i32,
}

impl Point {
    /// A point from its two coordinates.
    pub fn new(x: i32, y: i32) -> (r: Point)
        ensures
            r.x == x && r.y == y,
    {
        Point { x, y }
    }
}

/// The magnitude of v.
pub open spec fn iabs(v: int) -> int {
    if v < 0 {
        -v
    } else {
        v
    }
}

pub open spec fn imin(a: int, b: int) -> int {
    if a < b {
        a
    } else {
        b
    }
}

pub open spec fn imax(a: int, b: int) -> int {
    if a < b {
        b
    } else {
        a
    }
}

/// Both coordinates bounded enough that differences and areas fit the
/// machine words used.
pub open spec fn pt_ok(p: Point) -> bool {
    -0x2000_0000 <= p.x <= 0x2000_0000 && -0x2000_0000 <= p.y <= 0x2000_0000
}

pub open spec fn pts_ok(ps: Seq<Point>) -> bool {
    forall|i: int| 0 <= i < ps.len() ==> pt_ok(#[trigger] ps[i])
}

/// The area of the rectangle spanned by two corners, counting boundary
/// cells: width times height, each inclusive.
pub open spec fn rect_area(a: Point, b: Point) -> int {
    (iabs(a.x - b.x) + 1) * (iabs(a.y - b.y) + 1)
}

/// The point lies on the vertical polygon edge from a to b.
pub open spec fn on_v_edge(p: Point, a: Point, b: Point) -> bool {
    a.x == b.x && p.x == a.x && imin(a.y as int, b.y as int) <= p.y <= imax(a.y as int, b.y as int)
}

/// The point lies on the horizontal polygon edge from a to b.
pub open spec fn on_h_edge(p: Point, a: Point, b: Point) -> bool {
    a.y == b.y && a.x != b.x && p.y == a.y
        && imin(a.x as int, b.x as int) <= p.x <= imax(a.x as int, b.x as int)
}

/// The i-th polygon edge crosses the horizontal ray running right from p.
pub open spec fn edge_crosses_ray(poly: Seq<Point>, p: Point, i: int) -> bool {
    let a = poly[i];
    let b = poly[(i + 1) % (poly.len() as int)];
    a.x == b.x && ((a.y > p.y) != (b.y > p.y)) && p.x < a.x
}

/// The point lies on the i-th polygon edge.
pub open spec fn on_edge(poly: Seq<Point>, p: Point, i: int) -> bool {
    let a = poly[i];
    let b = poly[(i + 1) % (poly.len() as int)];
    on_v_edge(p, a, b) || on_h_edge(p, a, b)
}

/// How many of the first n edges cross the ray from p.
pub open spec fn ray_crossings(poly: Seq<Point>, p: Point, n: int) -> int
    decreases n,
{
    if n <= 0 {
        0
    } else {
        ray_crossings(poly, p, n - 1) + if edge_crosses_ray(poly, p, n - 1) { 1int } else { 0int }
    }
}

/// What the boundary-or-parity test decides: the point is on some edge, or
/// an odd number of vertical edges cross its rightward ray.
pub open spec fn spec_inside_or_on(poly: Seq<Point>, p: Point) -> bool {
    (exists|i: int| 0 <= i < poly.len() && on_edge(poly, p, i))
    || ray_crossings(poly, p, poly.len() as int) % 2 == 1
}

/// The i-th polygon edge passes strictly through the open rectangle
/// (min_x, max_x) by (min_y, max_y).
pub open spec fn edge_in_rect(
    poly: Seq<Point>, i: int, min_x: int, max_x: int, min_y: int, max_y: int,
) -> bool {
    let a = poly[i];
    let b = poly[(i + 1) % (poly.len() as int)];
    ||| (a.x == b.x && min_x < a.x < max_x
        && imin(a.y as int, b.y as int) < max_y && imax(a.y as int, b.y as int) > min_y)
    ||| (a.x != b.x && a.y == b.y && min_y < a.y < max_y
        && imin(a.x as int, b.x as int) < max_x && imax(a.x as int, b.x as int) > min_x)
}

/// Some polygon edge passes through the rectangle's interior.
pub open spec fn spec_edge_crosses_rect(
    poly: Seq<Point>, min_x: int, max_x: int, min_y: int, max_y: int,
) -> bool {
    exists|i: int| 0 <= i < poly.len() && edge_in_rect(poly, i, min_x, max_x, min_y, max_y)
}

/// The rectangle spanned by a and b lies inside the polygon: its other two
/// corners pass the boundary-or-parity test and no edge cuts its interior.
pub open spec fn spec_rect_inside(a: Point, b: Point, poly: Seq<Point>) -> bool {
    let min_x = imin(a.x as int, b.x as int);
    let max_x = imax(a.x as int, b.x as int);
    let min_y = imin(a.y as int, b.y as int);
    let max_y = imax(a.y as int, b.y as int);
    &&& spec_inside_or_on(poly, Point { x: min_x as i32, y: max_y as i32 })
    &&& spec_inside_or_on(poly, Point { x: max_x as i32, y: min_y as i32 })
    &&& !spec_edge_crosses_rect(poly, min_x, max_x, min_y, max_y)
}

/// A floor plan: the corners of an axis-aligned polygon, in order.
pub struct FloorPlan {
    pub points: Vec<Point>,
}

/// The inclusive width or height along one axis.
fn span(a: i32, b: i32) -> (r: u64)
    requires
        -0x2000_0000 <= a <= 0x2000_0000,
        -0x2000_0000 <= b <= 0x2000_0000,
    ensures
        r == iabs(a - b) + 1,
        1 <= r <= 0x4000_0001,
{
    if a >= b {
        (a - b) as u64 + 1
    } else {
        (b - a) as u64 + 1
    }
}

impl FloorPlan {
    /// The largest rectangle area spanned by any two corners.
    pub fn find_largest_area(&self) -> (r: u64)
        requires
            pts_ok(self.points@),
        ensures
            forall|i: int, j: int| 0 <= i < j < self.points@.len()
                ==> rect_area(self.points@[i], self.points@[j]) <= r,
            r != 0 ==> exists|i: int, j: int| 0 <= i < j < self.points@.len()
                && rect_area(self.points@[i], self.points@[j]) == r,
    {
        let ps = &self.points;
        let n = ps.len();
        let mut largest: u64 = 0;
        let mut i: usize = 0;
        while i < n
            invariant
                pts_ok(ps@),
                ps@ == self.points@,
                n == ps@.len(),
                i <= n,
                forall|i2: int, j2: int| 0 <= i2 < j2 < n && i2 < i
                    ==> rect_area(ps@[i2], ps@[j2]) <= largest,
                largest != 0 ==> exists|i2: int, j2: int| 0 <= i2 < j2 < n
                    && rect_area(ps@[i2], ps@[j2]) == largest,
            decreases n - i,
        {
            let mut j: usize = i + 1;
            while j < n
                invariant
                    pts_ok(ps@),
                    ps@ == self.points@,
                    n == ps@.len(),
                    i < n,
                    i < j <= n,
                    forall|i2: int, j2: int| 0 <= i2 < j2 < n && i2 < i
                        ==> rect_area(ps@[i2], ps@[j2]) <= largest,
                    forall|j2: int| i < j2 < j ==> rect_area(ps@[i as int], ps@[j2]) <= largest,
                    largest != 0 ==> exists|i2: int, j2: int| 0 <= i2 < j2 < n
                        && rect_area(ps@[i2], ps@[j2]) == largest,
                decreases n - j,
            {
                let a = ps[i];
                let b = ps[j];
                let w = span(a.x, b.x);
                let h = span(a.y, b.y);
                proof {
                    assert(w * h <= 0x4000_0001 * 0x4000_0001) by (nonlinear_arith)
                        requires 1 <= w <= 0x4000_0001, 1 <= h <= 0x4000_0001;
                    assert(w * h >= 1) by (nonlinear_arith)
                        requires w >= 1, h >= 1;
                }
                let area = w * h;
                if area > largest {
                    largest = area;
                    proof {
                        assert(rect_area(ps@[i as int], ps@[j as int]) == largest);
                    }
                }
                j += 1;
            }
            i += 1;
        }
        largest
    }

    /// The largest rectangle area spanned by two corners whose rectangle
    /// lies inside the polygon.
    pub fn find_largest_valid_rectangle(&self) -> (r: u64)
        requires
            pts_ok(self.points@),
            self.points@.len() >= 1,
        ensures
            forall|i: int, j: int| 0 <= i < j < self.points@.len()
                && spec_rect_inside(self.points@[i], self.points@[j], self.points@)
                ==> rect_area(self.points@[i], self.points@[j]) <= r,
            r != 0 ==> exists|i: int, j: int| 0 <= i < j < self.points@.len()
                && spec_rect_inside(self.points@[i], self.points@[j], self.points@)
                && rect_area(self.points@[i], self.points@[j]) == r,
    {
        let ps = &self.points;
        let n = ps.len();
        let mut largest: u64 = 0;
        let mut i: usize = 0;
        while i < n
            invariant
                pts_ok(ps@),
                ps@ == self.points@,
                n == ps@.len(),
                n >= 1,
                i <= n,
                forall|i2: int, j2: int| 0 <= i2 < j2 < n && i2 < i
                    && spec_rect_inside(ps@[i2], ps@[j2], ps@)
                    ==> rect_area(ps@[i2], ps@[j2]) <= largest,
                largest != 0 ==> exists|i2: int, j2: int| 0 <= i2 < j2 < n
                    && spec_rect_inside(ps@[i2], ps@[j2], ps@)
                    && rect_area(ps@[i2], ps@[j2]) == largest,
            decreases n - i,
        {
            let mut j: usize = i + 1;
            while j < n
                invariant
                    pts_ok(ps@),
                    ps@ == self.points@,
                    n == ps@.len(),
                    n >= 1,
                    i < n,
                    i < j <= n,
                    forall|i2: int, j2: int| 0 <= i2 < j2 < n && i2 < i
                        && spec_rect_inside(ps@[i2], ps@[j2], ps@)
                        ==> rect_area(ps@[i2], ps@[j2]) <= largest,
                    forall|j2: int| i < j2 < j && spec_rect_inside(ps@[i as int], ps@[j2], ps@)
                        ==> rect_area(ps@[i as int], ps@[j2]) <= largest,
                    largest != 0 ==> exists|i2: int, j2: int| 0 <= i2 < j2 < n
                        && spec_rect_inside(ps@[i2], ps@[j2], ps@)
                        && rect_area(ps@[i2], ps@[j2]) == largest,
                decreases n - j,
            {
                let a = ps[i];
                let b = ps[j];
                let w = span(a.x, b.x);
                let h = span(a.y, b.y);
                proof {
                    assert(w * h <= 0x4000_0001 * 0x4000_0001) by (nonlinear_arith)
                        requires 1 <= w <= 0x4000_0001, 1 <= h <= 0x4000_0001;
                    assert(w * h >= 1) by (nonlinear_arith)
                        requires w >= 1, h >= 1;
                }
                let area = w * h;
                if area > largest && Self::is_rectangle_inside_polygon(&a, &b, ps) {
                    largest = area;
                    proof {
                        assert(rect_area(ps@[i as int], ps@[j as int]) == largest);
                        assert(spec_rect_inside(ps@[i as int], ps@[j as int], ps@));
                    }
                }
                j += 1;
            }
            i += 1;
        }
        largest
    }

    /// Whether the rectangle spanned by a and b lies inside the polygon.
    pub fn is_rectangle_inside_polygon(a: &Point, b: &Point, polygon: &Vec<Point>) -> (r: bool)
        requires
            polygon@.len() >= 1,
        ensures
            r == spec_rect_inside(*a, *b, polygon@),
    {
        let min_x = if a.x < b.x { a.x } else { b.x };
        let max_x = if a.x < b.x { b.x } else { a.x };
        let min_y = if a.y < b.y { a.y } else { b.y };
        let max_y = if a.y < b.y { b.y } else { a.y };

        let c = Point::new(min_x, max_y);
        let d = Point::new(max_x, min_y);

        if !Self::point_inside_or_on_polygon(&c, polygon) {
            return false;
        }
        if !Self::point_inside_or_on_polygon(&d, polygon) {
            return false;
        }
        !Self::polygon_edge_crosses_rect_interior(polygon, min_x, max_x, min_y, max_y)
    }

    /// Whether the point lies on the polygon's boundary or passes the
    /// ray-parity test for its interior.
    pub fn point_inside_or_on_polygon(point: &Point, polygon: &Vec<Point>) -> (r: bool)
        requires
            polygon@.len() >= 1,
        ensures
            r == spec_inside_or_on(polygon@, *point),
    {
        let n = polygon.len();
        let px = point.x;
        let py = point.y;
        let mut inside = false;
        let mut i: usize = 0;
        while i < n
            invariant
                n == polygon@.len(),
                n >= 1,
                px == point.x,
                py == point.y,
                i <= n,
                forall|k: int| 0 <= k < i ==> !on_edge(polygon@, *point, k),
                inside == (ray_crossings(polygon@, *point, i as int) % 2 == 1),
            decreases n - i,
        {
            let j = (i + 1) % n;
            let pi = polygon[i];
            let pj = polygon[j];
            let (xi, yi) = (pi.x, pi.y);
            let (xj, yj) = (pj.x, pj.y);

            if xi == xj {
                let lo = if yi < yj { yi } else { yj };
                let hi = if yi < yj { yj } else { yi };
                if px == xi && py >= lo && py <= hi {
                    proof {
                        assert(on_edge(polygon@, *point, i as int));
                    }
                    return true;
                }
                if ((yi > py) != (yj > py)) && px < xi {
                    inside = !inside;
                }
            } else if yi == yj {
                let lo = if xi < xj { xi } else { xj };
                let hi = if xi < xj { xj } else { xi };
                if py == yi && px >= lo && px <= hi {
                    proof {
                        assert(on_edge(polygon@, *point, i as int));
                    }
                    return true;
                }
            }
            proof {
                assert(ray_crossings(polygon@, *point, i + 1)
                    == ray_crossings(polygon@, *point, i as int)
                        + if edge_crosses_ray(polygon@, *point, i as int) { 1int } else { 0int });
            }
            i += 1;
        }
        inside
    }

    /// Whether some polygon edge passes strictly through the rectangle's
    /// interior.
    pub fn polygon_edge_crosses_rect_interior(
        polygon: &Vec<Point>, min_x: i32, max_x: i32, min_y: i32, max_y: i32,
    ) -> (r: bool)
        requires
            polygon@.len() >= 1,
        ensures
            r == spec_edge_crosses_rect(
                polygon@, min_x as int, max_x as int, min_y as int, max_y as int,
            ),
    {
        let n = polygon.len();
        let mut i: usize = 0;
        while i < n
            invariant
                n == polygon@.len(),
                n >= 1,
                i <= n,
                forall|k: int| 0 <= k < i ==> !edge_in_rect(
                    polygon@, k, min_x as int, max_x as int, min_y as int, max_y as int,
                ),
            decreases n - i,
        {
            let j = (i + 1) % n;
            let pi = polygon[i];
            let pj = polygon[j];
            let (x1, y1) = (pi.x, pi.y);
            let (x2, y2) = (pj.x, pj.y);

            if x1 == x2 {
                if x1 > min_x && x1 < max_x {
                    let edge_min_y = if y1 < y2 { y1 } else { y2 };
                    let edge_max_y = if y1 < y2 { y2 } else { y1 };
                    if edge_min_y < max_y && edge_max_y > min_y {
                        proof {
                            assert(edge_in_rect(
                                polygon@, i as int,
                                min_x as int, max_x as int, min_y as int, max_y as int,
                            ));
                        }
                        return true;
                    }
                }
            } else if y1 == y2 {
                if y1 > min_y && y1 < max_y {
                    let edge_min_x = if x1 < x2 { x1 } else { x2 };
                    let edge_max_x = if x1 < x2 { x2 } else { x1 };
                    if edge_min_x < max_x && edge_max_x > min_x {
                        proof {
                            assert(edge_in_rect(
                                polygon@, i as int,
                                min_x as int, max_x as int, min_y as int, max_y as int,
                            ));
                        }
                        return true;
                    }
                }
            }
            i += 1;
        }
        false
    }
}

/// One coordinate read from a comma- or line-delimited field: an optional
/// minus sign and decimal digits, fitting an i32.
fn parse_i32_field(bs: &[u8], start: usize, end: usize) -> (r: Option<i32>)
    requires
        start <= end <= bs@.len(),
{
    let mut lo = start;
    let mut hi = end;
    // Trim spaces on both sides.
    while lo < hi && bs[lo] == 32
        invariant
            start <= lo <= hi <= bs@.len(),
        decreases hi - lo,
    {
        lo += 1;
    }
    while hi > lo && bs[hi - 1] == 32
        invariant
            start <= lo <= hi <= bs@.len(),
        decreases hi,
    {
        hi -= 1;
    }
    if lo >= hi {
        return None;
    }
    let neg = bs[lo] == 45;
    let mut k = if neg { lo + 1 } else { lo };
    if k >= hi {
        return None;
    }
    let mut acc: i64 = 0;
    while k < hi
        invariant
            lo <= k <= hi <= bs@.len(),
            0 <= acc <= 0x8000_0000,
        decreases hi - k,
    {
        let b = bs[k];
        if b < 48 || b > 57 {
            return None;
        }
        acc = acc * 10 + (b - 48) as i64;
        if acc > 0x8000_0000 {
            return None;
        }
        k += 1;
    }
    if neg {
        Some((-acc) as i32)
    } else {
        if acc == 0x8000_0000 {
            return None;
        }
        Some(acc as i32)
    }
}

/// One text line as a point: None when empty, the point when it parses,
/// and a parse failure otherwise.
fn parse_point_line(bs: &[u8], start: usize, end: usize) -> (r: Option<Option<Point>>)
    requires
        start <= end <= bs@.len(),
{
    if start >= end {
        return Some(None);
    }
    let mut comma = start;
    let mut found = false;
    let mut k = start;
    while k < end
        invariant
            start <= k <= end <= bs@.len(),
            found ==> start <= comma < end,
            !found ==> comma == start,
        decreases end - k,
    {
        if bs[k] == 44 && !found {
            comma = k;
            found = true;
        }
        k += 1;
    }
    if !found {
        return None;
    }
    let x = match parse_i32_field(bs, start, comma) {
        Some(v) => v,
        None => {
            return None;
        },
    };
    let y = match parse_i32_field(bs, comma + 1, end) {
        Some(v) => v,
        None => {
            return None;
        },
    };
    Some(Some(Point { x, y }))
}

/// A floor plan read from lines of two comma-separated integers. Returns
/// None when any non-empty line is not two integers in range.
pub fn parse_floorplan(s: &str) -> (r: Option<FloorPlan>) {
    let bs = s.as_bytes();
    let n = bs.len();
    let mut points: Vec<Point> = Vec::new();
    let mut line_start: usize = 0;
    let mut i: usize = 0;
    while i < n
        invariant
            n == bs@.len(),
            line_start <= i <= n,
        decreases n - i,
    {
        if bs[i] == 10 {
            match parse_point_line(bs, line_start, i) {
                Some(Some(p)) => {
                    points.push(p);
                },
                Some(None) => {},
                None => {
                    return None;
                },
            }
            line_start = i + 1;
        }
        i += 1;
    }
    if line_start < n {
        match parse_point_line(bs, line_start, n) {
            Some(Some(p)) => {
                points.push(p);
            },
            Some(None) => {},
            None => {
                return None;
            },
        }
    }
    Some(FloorPlan { points })
}

impl core::str::FromStr for FloorPlan {
    type Err = ();

    fn from_str(s: &str) -> Result<FloorPlan, ()> {
        match parse_floorplan(s) {
            Some(fp) => Ok(fp),
            None => Err(()),
        }
    }
}

} // verus!
