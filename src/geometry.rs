use vstd::prelude::*;

verus! {

/// One unit in the fixed-point representation: every coordinate, length and
/// fraction carries 16 fractional bits, so `ONE` stands for 1.0.
pub const ONE: i64 = 65536;

/// Half a unit, used for rounding to whole pixels.
pub const HALF: i64 = 32768;

/// A point, or an anchor given as fractions of a size.
#[derive(Clone, Copy, Debug, PartialEq, Eq, Structural)]
pub struct Point {
    pub x: i64,
    pub y: i64,
}

/// A width and a height.
#[derive(Clone, Copy, Debug, PartialEq, Eq, Structural)]
pub struct Size {
    pub width: i64,
    pub height: i64,
}

/// A rectangle: its origin and its size.
#[derive(Clone, Copy, Debug, PartialEq, Eq, Structural)]
pub struct Rect {
    pub origin: Point,
    pub size: Size,
}

/// `v` is representable as a coordinate.
pub open spec fn fits_i64(v: int) -> bool {
    i64::MIN <= v <= i64::MAX
}

/// Product of two fixed-point values, rounded towards negative infinity.
pub open spec fn fixed_mul_spec(a: int, b: int) -> int {
    (a * b) / (ONE as int)
}

/// The x coordinate of a frame's origin: `position - width * anchor`.
pub open spec fn frame_x(bounds: Rect, position: Point, anchor: Point) -> int {
    position.x - fixed_mul_spec(bounds.size.width as int, anchor.x as int)
}

/// The y coordinate of a frame's origin: `position - height * anchor`.
pub open spec fn frame_y(bounds: Rect, position: Point, anchor: Point) -> int {
    position.y - fixed_mul_spec(bounds.size.height as int, anchor.y as int)
}

/// The frame is representable: its origin fits the coordinate type.
pub open spec fn frame_fits(bounds: Rect, position: Point, anchor: Point) -> bool {
    &&& fits_i64(fixed_mul_spec(bounds.size.width as int, anchor.x as int))
    &&& fits_i64(fixed_mul_spec(bounds.size.height as int, anchor.y as int))
    &&& fits_i64(frame_x(bounds, position, anchor))
    &&& fits_i64(frame_y(bounds, position, anchor))
}

/// The frame derived from bounds, position and anchor point.
pub open spec fn frame_spec(bounds: Rect, position: Point, anchor: Point) -> Rect {
    Rect {
        origin: Point {
            x: frame_x(bounds, position, anchor) as i64,
            y: frame_y(bounds, position, anchor) as i64,
        },
        size: bounds.size,
    }
}

/// The x coordinate of the position for a frame: `origin + width * anchor`.
pub open spec fn position_x(frame: Rect, anchor: Point) -> int {
    frame.origin.x + fixed_mul_spec(frame.size.width as int, anchor.x as int)
}

/// The y coordinate of the position for a frame: `origin + height * anchor`.
pub open spec fn position_y(frame: Rect, anchor: Point) -> int {
    frame.origin.y + fixed_mul_spec(frame.size.height as int, anchor.y as int)
}

/// The position for a frame is representable.
pub open spec fn position_fits(frame: Rect, anchor: Point) -> bool {
    &&& fits_i64(fixed_mul_spec(frame.size.width as int, anchor.x as int))
    &&& fits_i64(fixed_mul_spec(frame.size.height as int, anchor.y as int))
    &&& fits_i64(position_x(frame, anchor))
    &&& fits_i64(position_y(frame, anchor))
}

/// The position that places a frame's origin where asked.
pub open spec fn position_spec(frame: Rect, anchor: Point) -> Point {
    Point { x: position_x(frame, anchor) as i64, y: position_y(frame, anchor) as i64 }
}

/// Bounds with a zero origin and the frame's size.
pub open spec fn bounds_for_frame_spec(frame: Rect) -> Rect {
    Rect { origin: Point { x: 0, y: 0 }, size: frame.size }
}

/// Half-open containment: `origin <= p < origin + size` on both axes.
pub open spec fn contains_spec(bounds: Rect, p: Point) -> bool {
    &&& bounds.origin.x <= p.x < bounds.origin.x + bounds.size.width
    &&& bounds.origin.y <= p.y < bounds.origin.y + bounds.size.height
}

/// A length rounded half away from zero to whole units.
pub open spec fn round_spec(v: int) -> int {
    if v >= 0 {
        (v + HALF) / (ONE as int)
    } else {
        -((-v + HALF) / (ONE as int))
    }
}

/// A length rounded to whole pixels, saturated to the `u32` range.
pub open spec fn pixel_dim_spec(v: int) -> int {
    let r = round_spec(v);
    if r < 0 {
        0
    } else if r > u32::MAX {
        u32::MAX as int
    } else {
        r
    }
}

/// Multiplies two fixed-point values; `None` when the product does not fit.
pub fn fixed_mul(a: i64, b: i64) -> (r: Option<i64>)
    ensures
        r.is_some() <==> fits_i64(fixed_mul_spec(a as int, b as int)),
        r.is_some() ==> r.unwrap() == fixed_mul_spec(a as int, b as int),
{
    let ai: i128 = a as i128;
    let bi: i128 = b as i128;
    proof {
        let ia = a as int;
        let ib = b as int;
        assert(-0x8000_0000_0000_0000 <= ia <= 0x7fff_ffff_ffff_ffff);
        assert(-0x8000_0000_0000_0000 <= ib <= 0x7fff_ffff_ffff_ffff);
        assert(-0x4000_0000_0000_0000_0000_0000_0000_0000 <= ia * ib
            <= 0x4000_0000_0000_0000_0000_0000_0000_0000) by (nonlinear_arith)
            requires
                -0x8000_0000_0000_0000 <= ia <= 0x7fff_ffff_ffff_ffff,
                -0x8000_0000_0000_0000 <= ib <= 0x7fff_ffff_ffff_ffff,
        ;
    }
    let p: i128 = ai * bi;
    match p.checked_div_euclid(65536) {
        Some(q) => {
            if q < i64::MIN as i128 || q > i64::MAX as i128 {
                None
            } else {
                Some(q as i64)
            }
        },
        None => None,
    }
}

/// The frame of a layer with the given bounds, position and anchor point;
/// `None` when its origin does not fit the coordinate type.
pub fn frame_of(bounds: Rect, position: Point, anchor: Point) -> (r: Option<Rect>)
    ensures
        r.is_some() <==> frame_fits(bounds, position, anchor),
        r.is_some() ==> r.unwrap() == frame_spec(bounds, position, anchor),
{
    let mx = match fixed_mul(bounds.size.width, anchor.x) {
        Some(v) => v,
        None => return None,
    };
    let my = match fixed_mul(bounds.size.height, anchor.y) {
        Some(v) => v,
        None => return None,
    };
    let x = match position.x.checked_sub(mx) {
        Some(v) => v,
        None => return None,
    };
    let y = match position.y.checked_sub(my) {
        Some(v) => v,
        None => return None,
    };
    Some(Rect { origin: Point { x, y }, size: bounds.size })
}

/// The position that gives a layer with this anchor point the requested frame;
/// `None` when it does not fit the coordinate type.
pub fn position_for_frame(frame: Rect, anchor: Point) -> (r: Option<Point>)
    ensures
        r.is_some() <==> position_fits(frame, anchor),
        r.is_some() ==> r.unwrap() == position_spec(frame, anchor),
{
    let mx = match fixed_mul(frame.size.width, anchor.x) {
        Some(v) => v,
        None => return None,
    };
    let my = match fixed_mul(frame.size.height, anchor.y) {
        Some(v) => v,
        None => return None,
    };
    let x = match frame.origin.x.checked_add(mx) {
        Some(v) => v,
        None => return None,
    };
    let y = match frame.origin.y.checked_add(my) {
        Some(v) => v,
        None => return None,
    };
    Some(Point { x, y })
}

/// Whether `p` lies in the half-open rectangle `bounds`.
pub fn rect_contains(bounds: Rect, p: Point) -> (r: bool)
    ensures
        r == contains_spec(bounds, p),
{
    let px = p.x as i128;
    let py = p.y as i128;
    let ox = bounds.origin.x as i128;
    let oy = bounds.origin.y as i128;
    let ex = ox + bounds.size.width as i128;
    let ey = oy + bounds.size.height as i128;
    ox <= px && px < ex && oy <= py && py < ey
}

/// A fixed-point length rounded half away from zero to whole pixels and
/// saturated to the `u32` range (negative lengths give zero).
pub fn pixel_dim(v: i64) -> (r: u32)
    ensures
        r == pixel_dim_spec(v as int),
{
    if v < 0 {
        0
    } else {
        let q: i128 = (v as i128 + 32768) / 65536;
        if q > u32::MAX as i128 {
            u32::MAX
        } else {
            q as u32
        }
    }
}

/// Setting a frame and reading it back gives the same frame, whatever the
/// bounds and position were, as long as the anchor point is the same.
pub proof fn lemma_frame_round_trip(frame: Rect, anchor: Point)
    requires
        position_fits(frame, anchor),
    ensures
        frame_fits(bounds_for_frame_spec(frame), position_spec(frame, anchor), anchor),
        frame_spec(bounds_for_frame_spec(frame), position_spec(frame, anchor), anchor) == frame,
{
}

} // verus!
