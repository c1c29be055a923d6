//! Drawing on a picture of 640 by 480 pixels, row by row from the top.

use vstd::prelude::*;

verus! {

/// How many pixels there are.
pub const PIXELS: usize = 307_200;

/// The picture with `color` on every pixel of a shape. What lies behind the
/// last pixel stays as it is.
pub open spec fn painted(
    dst: Seq<u32>,
    shape: spec_fn(int, int) -> bool,
    color: u32,
) -> Seq<u32> {
    Seq::new(
        dst.len(),
        |k: int|
            if k < PIXELS && shape(k % 640, k / 640) {
                color
            } else {
                dst[k]
            },
    )
}

/// The pixel lies in the disc around (`cx`, `cy`).
pub open spec fn in_disc(x: int, y: int, cx: int, cy: int, radius: int) -> bool {
    radius >= 0 && (x - cx) * (x - cx) + (y - cy) * (y - cy) <= radius * radius
}

proof fn lemma_disc_box(x: int, y: int, cx: int, cy: int, radius: int)
    requires
        in_disc(x, y, cx, cy, radius),
    ensures
        cx - radius <= x <= cx + radius,
        cy - radius <= y <= cy + radius,
{
    let dx = x - cx;
    let dy = y - cy;
    assert(-radius <= dx <= radius && -radius <= dy <= radius) by (nonlinear_arith)
        requires
            radius >= 0,
            dx * dx + dy * dy <= radius * radius,
    ;
}

/// The part of a disc that lies above row `y1`, or in it and left of `x1`.
spec fn disc_before(cx: int, cy: int, radius: int, y1: int, x1: int) -> spec_fn(int, int) -> bool {
    |x: int, y: int| in_disc(x, y, cx, cy, radius) && (y < y1 || (y == y1 && x < x1))
}

/// Where a range of the picture starts: no less than 0.
fn low_end(v: i64) -> (r: i64)
    ensures
        r == if v < 0 {
            0
        } else {
            v as int
        },
{
    if v < 0 {
        0
    } else {
        v
    }
}

/// Where a range of the picture ends: no more than `limit`.
fn high_end(v: i64, limit: i64) -> (r: i64)
    ensures
        r == if v > limit {
            limit
        } else {
            v
        },
{
    if v > limit {
        limit
    } else {
        v
    }
}

/// A slice of `len` pixels holds every pixel of the picture that lies in a disc.
/// One that holds the whole picture does so for every disc.
pub open spec fn disc_fits(len: nat, cx: int, cy: int, radius: int) -> bool {
    forall|x: int, y: int|
        0 <= x < 640 && 0 <= y < 480 && #[trigger] in_disc(x, y, cx, cy, radius) ==> y * 640 + x
            < len
}

/// Draws a filled disc, as far as it lies on the picture.
pub fn stamp(dst: &mut [u32], cx: i32, cy: i32, radius: i32, color: u32)
    requires
        disc_fits(old(dst)@.len(), cx as int, cy as int, radius as int),
    ensures
        final(dst)@ == painted(
            old(dst)@,
            |x: int, y: int| in_disc(x, y, cx as int, cy as int, radius as int),
            color,
        ),
{
    let ghost before = dst@;
    let ghost r = radius as int;
    let y0: i64 = low_end(cy as i64 - radius as i64);
    let y1: i64 = high_end(cy as i64 + radius as i64 + 1, 480);
    let x0: i64 = low_end(cx as i64 - radius as i64);
    let x1: i64 = high_end(cx as i64 + radius as i64 + 1, 640);
    let mut y: i64 = y0;
    proof {
        assert forall|k: int| 0 <= k < before.len() implies #[trigger] painted(
            before,
            disc_before(cx as int, cy as int, r, y as int, 0),
            color,
        )[k] == before[k] by {
            if disc_before(cx as int, cy as int, r, y as int, 0)(k % 640, k / 640) {
                lemma_disc_box(k % 640, k / 640, cx as int, cy as int, r);
            }
        }
        assert(dst@ =~= painted(before, disc_before(cx as int, cy as int, r, y as int, 0), color));
    }
    while y < y1
        invariant
            0 <= y0 <= y,
            y1 <= 480,
            0 <= x0,
            x1 <= 640,
            r == radius,
            y0 == if cy - r < 0 { 0 } else { cy - r },
            y1 == if cy + r + 1 > 480 { 480 } else { cy + r + 1 },
            x0 == if cx - r < 0 { 0 } else { cx - r },
            x1 == if cx + r + 1 > 640 { 640 } else { cx + r + 1 },
            disc_fits(before.len(), cx as int, cy as int, r),
            dst@ == painted(before, disc_before(cx as int, cy as int, r, y as int, 0), color),
            y1 > y0 ==> y <= y1,
        decreases y1 - y,
    {
        let mut x: i64 = x0;
        proof {
            assert forall|k: int| 0 <= k < before.len() implies #[trigger] painted(
                before,
                disc_before(cx as int, cy as int, r, y as int, x as int),
                color,
            )[k] == dst@[k] by {
                if disc_before(cx as int, cy as int, r, y as int, x as int)(k % 640, k / 640) {
                    lemma_disc_box(k % 640, k / 640, cx as int, cy as int, r);
                }
            }
            assert(dst@ =~= painted(before, disc_before(cx as int, cy as int, r, y as int, x as int), color));
        }
        while x < x1
            invariant
                0 <= y < y1 <= 480,
                0 <= x0 <= x,
                x1 <= 640,
                r == radius,
                cy - r <= y <= cy + r,
                x0 == if cx - r < 0 { 0 } else { cx - r },
                x1 == if cx + r + 1 > 640 { 640 } else { cx + r + 1 },
                disc_fits(before.len(), cx as int, cy as int, r),
                dst@ == painted(before, disc_before(cx as int, cy as int, r, y as int, x as int), color),
            decreases x1 - x,
        {
            let dx: i128 = x as i128 - cx as i128;
            let dy: i128 = y as i128 - cy as i128;
            let rr: i128 = radius as i128;
            assert(0 <= dx * dx <= 0x1_0000_0000 * 0x1_0000_0000 && 0 <= dy * dy <= 0x1_0000_0000
                * 0x1_0000_0000 && 0 <= rr * rr <= 0x1_0000_0000 * 0x1_0000_0000)
                by (nonlinear_arith)
                requires
                    -0x1_0000_0000 <= dx <= 0x1_0000_0000,
                    -0x1_0000_0000 <= dy <= 0x1_0000_0000,
                    -0x1_0000_0000 <= rr <= 0x1_0000_0000,
            ;
            let ghost now = dst@;
            let ghost at = y * 640 + x;
            let inside: bool = dx * dx + dy * dy <= rr * rr;
            proof {
                assert(at % 640 == x && at / 640 == y);
                assert(inside == in_disc(x as int, y as int, cx as int, cy as int, r));
            }
            if inside {
                dst[(y * 640 + x) as usize] = color;
            }
            proof {
                assert forall|k: int| 0 <= k < before.len() implies #[trigger] painted(
                    before,
                    disc_before(cx as int, cy as int, r, y as int, x + 1),
                    color,
                )[k] == dst@[k] by {
                    if k != at {
                        assert(!(k % 640 == x && k / 640 == y));
                        assert(dst@[k] == now[k]);
                    }
                }
                assert(dst@ =~= painted(before, disc_before(cx as int, cy as int, r, y as int, x + 1), color));
            }
            x = x + 1;
        }
        proof {
            assert forall|k: int| 0 <= k < before.len() implies #[trigger] painted(
                before,
                disc_before(cx as int, cy as int, r, y + 1, 0),
                color,
            )[k] == dst@[k] by {
                if in_disc(k % 640, k / 640, cx as int, cy as int, r) {
                    lemma_disc_box(k % 640, k / 640, cx as int, cy as int, r);
                }
            }
            assert(dst@ =~= painted(before, disc_before(cx as int, cy as int, r, y + 1, 0), color));
        }
        y = y + 1;
    }
    proof {
        let shape = |x: int, y: int| in_disc(x, y, cx as int, cy as int, r);
        assert forall|k: int| 0 <= k < before.len() implies #[trigger] painted(
            before,
            shape,
            color,
        )[k] == dst@[k] by {
            if k < PIXELS && in_disc(k % 640, k / 640, cx as int, cy as int, r) {
                lemma_disc_box(k % 640, k / 640, cx as int, cy as int, r);
            }
        }
        assert(dst@ =~= painted(before, shape, color));
    }
}

/// The quotient without its fraction, as the hardware divides.
pub open spec fn truncated(a: int, b: int) -> int {
    if a >= 0 {
        a / b
    } else {
        -((-a) / b)
    }
}

/// How many steps a line takes: the longer of its two extents, at least one.
pub open spec fn stroke_steps(from: (i32, i32), to: (i32, i32)) -> int {
    let dx = if to.0 >= from.0 {
        to.0 - from.0
    } else {
        from.0 - to.0
    };
    let dy = if to.1 >= from.1 {
        to.1 - from.1
    } else {
        from.1 - to.1
    };
    if dx >= dy && dx >= 1 {
        dx
    } else if dy >= 1 {
        dy
    } else {
        1
    }
}

/// The point of the line after `i` steps.
pub open spec fn stroke_point(from: (i32, i32), to: (i32, i32), i: int) -> (int, int) {
    let steps = stroke_steps(from, to);
    (
        from.0 + truncated((to.0 - from.0) * i, steps),
        from.1 + truncated((to.1 - from.1) * i, steps),
    )
}

/// The radius of the brush.
pub const BRUSH: i32 = 6;

/// The pixel lies under the brush at one of the first `n` points of the line.
pub open spec fn stroke_covers(from: (i32, i32), to: (i32, i32), n: int, x: int, y: int) -> bool {
    exists|i: int|
        0 <= i < n && in_disc(
            x,
            y,
            (#[trigger] stroke_point(from, to, i)).0,
            stroke_point(from, to, i).1,
            BRUSH as int,
        )
}

proof fn lemma_truncated(d: int, i: int, steps: int)
    requires
        0 <= i <= steps,
        1 <= steps,
    ensures
        d >= 0 ==> 0 <= truncated(d * i, steps) <= d,
        d <= 0 ==> d <= truncated(d * i, steps) <= 0,
{
    let m = if d >= 0 {
        d
    } else {
        -d
    };
    assert(0 <= m * i <= m * steps) by (nonlinear_arith)
        requires
            0 <= m,
            0 <= i <= steps,
    ;
    let q = (m * i) / steps;
    assert(0 <= q <= m) by (nonlinear_arith)
        requires
            0 <= m * i <= m * steps,
            q == (m * i) / steps,
            1 <= steps,
    ;
    assert((-d) * i == -(d * i)) by (nonlinear_arith);
    if d > 0 {
        assert(d * i >= 0);
    } else if d < 0 {
        assert(m * i == -(d * i));
        if d * i == 0 {
            assert(0int / steps == 0) by (nonlinear_arith)
                requires
                    1 <= steps,
            ;
        }
    } else {
        assert(d * i == 0) by (nonlinear_arith)
            requires
                d == 0,
        ;
        assert(0int / steps == 0) by (nonlinear_arith)
            requires
                1 <= steps,
        ;
    }
}

/// One coordinate of the line after `i` of `steps` steps.
fn along(start: i32, end: i32, i: i64, steps: i64) -> (v: i32)
    requires
        0 <= i <= steps,
        1 <= steps <= 0xffff_ffff,
    ensures
        v == start + truncated((end - start) * i, steps as int),
{
    let d: i128 = end as i128 - start as i128;
    let wide: i128 = steps as i128;
    let ghost gd = end - start;
    proof {
        lemma_truncated(gd, i as int, steps as int);
        assert(-0xffff_ffff * 0xffff_ffff <= gd * i <= 0xffff_ffff * 0xffff_ffff)
            by (nonlinear_arith)
            requires
                -0xffff_ffff <= gd <= 0xffff_ffff,
                0 <= i <= 0xffff_ffff,
        ;
        assert((-gd) * i == -(gd * i)) by (nonlinear_arith);
    }
    let product: i128 = d * i as i128;
    let moved: i128 = if product >= 0 {
        product / wide
    } else {
        -((-product) / wide)
    };
    (start as i128 + moved) as i32
}

fn distance(a: i32, b: i32) -> (d: i64)
    ensures
        d == if b >= a {
            b - a
        } else {
            a - b
        },
{
    if b >= a {
        b as i64 - a as i64
    } else {
        a as i64 - b as i64
    }
}

/// A slice of `len` pixels holds every pixel of the picture that a line covers.
/// One that holds the whole picture does so for every line.
pub open spec fn stroke_fits(len: nat, from: (i32, i32), to: (i32, i32)) -> bool {
    forall|x: int, y: int|
        0 <= x < 640 && 0 <= y < 480 && #[trigger] stroke_covers(
            from,
            to,
            stroke_steps(from, to) + 1,
            x,
            y,
        ) ==> y * 640 + x < len
}

/// Draws a line with a round brush.
pub fn stroke(dst: &mut [u32], from: (i32, i32), to: (i32, i32), color: u32)
    requires
        stroke_fits(old(dst)@.len(), from, to),
    ensures
        final(dst)@ == painted(
            old(dst)@,
            |x: int, y: int| stroke_covers(from, to, stroke_steps(from, to) + 1, x, y),
            color,
        ),
{
    let dx: i64 = distance(from.0, to.0);
    let dy: i64 = distance(from.1, to.1);
    let steps: i64 = if dx >= dy && dx >= 1 {
        dx
    } else if dy >= 1 {
        dy
    } else {
        1
    };
    let ghost before = dst@;
    let mut i: i64 = 0;
    proof {
        let shape = |x: int, y: int| stroke_covers(from, to, 0, x, y);
        assert(dst@ =~= painted(before, shape, color));
    }
    while i <= steps
        invariant
            0 <= i <= steps + 1,
            1 <= steps <= 0xffff_ffff,
            steps == stroke_steps(from, to),
            stroke_fits(before.len(), from, to),
            dst@ == painted(
                before,
                |x: int, y: int| stroke_covers(from, to, i as int, x, y),
                color,
            ),
        decreases steps + 1 - i,
    {
        let px: i32 = along(from.0, to.0, i, steps);
        let py: i32 = along(from.1, to.1, i, steps);
        proof {
            assert((px as int, py as int) == stroke_point(from, to, i as int));
            assert forall|x: int, y: int|
                0 <= x < 640 && 0 <= y < 480 && #[trigger] in_disc(
                    x,
                    y,
                    px as int,
                    py as int,
                    BRUSH as int,
                ) implies y * 640 + x < before.len() by {
                assert(stroke_covers(from, to, steps + 1, x, y));
            }
        }
        stamp(dst, px, py, BRUSH, color);
        proof {
            let shape = |x: int, y: int| stroke_covers(from, to, i + 1, x, y);
            assert forall|k: int| 0 <= k < before.len() implies #[trigger] painted(
                before,
                shape,
                color,
            )[k] == dst@[k] by {
                let x = k % 640;
                let y = k / 640;
                if in_disc(x, y, px as int, py as int, BRUSH as int) {
                    assert(stroke_covers(from, to, i + 1, x, y));
                } else if stroke_covers(from, to, i + 1, x, y) {
                    let j = choose|j: int|
                        0 <= j < i + 1 && in_disc(
                            x,
                            y,
                            (#[trigger] stroke_point(from, to, j)).0,
                            stroke_point(from, to, j).1,
                            BRUSH as int,
                        );
                    assert(j != i);
                    assert(stroke_covers(from, to, i as int, x, y));
                } else if stroke_covers(from, to, i as int, x, y) {
                    let j = choose|j: int|
                        0 <= j < i && in_disc(
                            x,
                            y,
                            (#[trigger] stroke_point(from, to, j)).0,
                            stroke_point(from, to, j).1,
                            BRUSH as int,
                        );
                    assert(stroke_covers(from, to, i + 1, x, y));
                }
            }
            assert(dst@ =~= painted(before, shape, color));
        }
        i = i + 1;
    }
}

/// The distance lies in one arm of the crosshair: beyond 2 and up to 8.
pub open spec fn in_arm(d: int) -> bool {
    2 < d <= 8 || -8 <= d < -2
}

/// The pixel lies on the crosshair around (`cx`, `cy`), which leaves its centre
/// free.
pub open spec fn on_crosshair(x: int, y: int, cx: int, cy: int) -> bool {
    (y == cy && in_arm(x - cx)) || (x == cx && in_arm(y - cy))
}

/// The part of the crosshair at distances below `d`.
spec fn crosshair_before(cx: int, cy: int, d: int) -> spec_fn(int, int) -> bool {
    |x: int, y: int|
        (y == cy && in_arm(x - cx) && x - cx < d) || (x == cx && in_arm(y - cy) && y - cy < d)
}

/// Colors one pixel, if there is such a pixel.
fn plot(dst: &mut [u32], px: i64, py: i64, color: u32)
    requires
        0 <= px < 640 && 0 <= py < 480 ==> py * 640 + px < old(dst)@.len(),
    ensures
        final(dst)@ == painted(old(dst)@, |x: int, y: int| x == px && y == py, color),
{
    let ghost before = dst@;
    if 0 <= px && px < 640 && 0 <= py && py < 480 {
        let ghost at = py * 640 + px;
        dst[(py * 640 + px) as usize] = color;
        proof {
            assert(at % 640 == px && at / 640 == py);
        }
    }
    proof {
        assert(dst@ =~= painted(before, |x: int, y: int| x == px && y == py, color));
    }
}

/// A slice of `len` pixels holds every pixel of the picture that lies on a
/// crosshair. One that holds the whole picture does so for every crosshair.
pub open spec fn crosshair_fits(len: nat, cx: int, cy: int) -> bool {
    forall|x: int, y: int|
        0 <= x < 640 && 0 <= y < 480 && #[trigger] on_crosshair(x, y, cx, cy) ==> y * 640 + x < len
}

/// Draws a crosshair, as far as it lies on the picture.
pub fn crosshair(dst: &mut [u32], x: i32, y: i32, color: u32)
    requires
        crosshair_fits(old(dst)@.len(), x as int, y as int),
    ensures
        final(dst)@ == painted(
            old(dst)@,
            |px: int, py: int| on_crosshair(px, py, x as int, y as int),
            color,
        ),
{
    let ghost before = dst@;
    let mut d: i64 = -8;
    proof {
        assert(dst@ =~= painted(before, crosshair_before(x as int, y as int, -8), color));
    }
    while d <= 8
        invariant
            -8 <= d <= 9,
            crosshair_fits(before.len(), x as int, y as int),
            dst@ == painted(before, crosshair_before(x as int, y as int, d as int), color),
        decreases 9 - d,
    {
        if d > 2 || d < -2 {
            proof {
                assert(on_crosshair(x + d, y as int, x as int, y as int));
                assert(on_crosshair(x as int, y + d, x as int, y as int));
            }
            plot(dst, x as i64 + d, y as i64, color);
            plot(dst, x as i64, y as i64 + d, color);
        }
        proof {
            assert(dst@ =~= painted(before, crosshair_before(x as int, y as int, d + 1), color));
        }
        d = d + 1;
    }
    proof {
        assert(dst@ =~= painted(
            before,
            |px: int, py: int| on_crosshair(px, py, x as int, y as int),
            color,
        ));
    }
}

/// Red, green and blue in one 0RGB number.
pub open spec fn packed(r: u8, g: u8, b: u8) -> u32 {
    (b + 0x100 * g + 0x1_0000 * r) as u32
}

/// Puts red, green and blue together: blue lowest, nothing above red.
pub fn rgb(r: u8, g: u8, b: u8) -> (color: u32)
    ensures
        color == packed(r, g, b),
{
    let (r32, g32, b32): (u32, u32, u32) = (r as u32, g as u32, b as u32);
    assert(b32 | (g32 << 8) | (r32 << 16) == b32 + 0x100 * g32 + 0x1_0000 * r32) by (bit_vector)
        requires
            r32 < 256,
            g32 < 256,
            b32 < 256,
    ;
    b32 | (g32 << 8) | (r32 << 16)
}

/// The color of a hue: which sixth of the circle it lies in, and the value `x`
/// of the channel that changes there.
pub open spec fn hue_color(sixth: int, x: u8) -> u32 {
    if sixth == 0 {
        packed(255, x, 0)
    } else if sixth == 1 {
        packed(x, 255, 0)
    } else if sixth == 2 {
        packed(0, 255, x)
    } else if sixth == 3 {
        packed(0, x, 255)
    } else if sixth == 4 {
        packed(x, 0, 255)
    } else {
        packed(255, 0, x)
    }
}

/// The fully saturated color of a hue.
pub fn hue_to_rgb(sixth: i32, x: u8) -> (color: u32)
    ensures
        color == hue_color(sixth as int, x),
{
    match sixth {
        0 => rgb(255, x, 0),
        1 => rgb(x, 255, 0),
        2 => rgb(0, 255, x),
        3 => rgb(0, x, 255),
        4 => rgb(x, 0, 255),
        _ => rgb(255, 0, x),
    }
}

/// Gives every pixel the color that `shade` computes for its position.
pub fn paint_background<F: Fn(i32, i32) -> u32>(dst: &mut [u32], shade: F)
    requires
        PIXELS <= old(dst)@.len(),
        forall|x: i32, y: i32|
            0 <= x < 640 && 0 <= y < 480 ==> #[trigger] call_requires(shade, (x, y)),
    ensures
        final(dst)@.len() == old(dst)@.len(),
        forall|k: int|
            0 <= k < PIXELS ==> call_ensures(
                shade,
                ((k % 640) as i32, (k / 640) as i32),
                #[trigger] final(dst)@[k],
            ),
        forall|k: int| PIXELS <= k < old(dst)@.len() ==> #[trigger] final(dst)@[k] == old(dst)@[k],
{
    let ghost before = dst@;
    let mut y: i32 = 0;
    while y < 480
        invariant
            0 <= y <= 480,
            PIXELS <= before.len(),
            dst@.len() == before.len(),
            forall|a: i32, b: i32|
                0 <= a < 640 && 0 <= b < 480 ==> #[trigger] call_requires(shade, (a, b)),
            forall|k: int|
                0 <= k < y * 640 ==> call_ensures(
                    shade,
                    ((k % 640) as i32, (k / 640) as i32),
                    #[trigger] dst@[k],
                ),
            forall|k: int| PIXELS <= k < before.len() ==> #[trigger] dst@[k] == before[k],
        decreases 480 - y,
    {
        let mut x: i32 = 0;
        while x < 640
            invariant
                0 <= y < 480,
                0 <= x <= 640,
                PIXELS <= before.len(),
                dst@.len() == before.len(),
                forall|a: i32, b: i32|
                    0 <= a < 640 && 0 <= b < 480 ==> #[trigger] call_requires(shade, (a, b)),
                forall|k: int|
                    0 <= k < y * 640 + x ==> call_ensures(
                        shade,
                        ((k % 640) as i32, (k / 640) as i32),
                        #[trigger] dst@[k],
                    ),
                forall|k: int| PIXELS <= k < before.len() ==> #[trigger] dst@[k] == before[k],
            decreases 640 - x,
        {
            let color: u32 = shade(x, y);
            let ghost at = y * 640 + x;
            proof {
                assert(at % 640 == x && at / 640 == y);
            }
            dst[(y * 640 + x) as usize] = color;
            x = x + 1;
        }
        y = y + 1;
    }
}

/// Shows the canvas with a crosshair over it.
pub fn show_canvas(fb: &mut [u32], canvas: &[u32], mouse: (i32, i32), color: u32)
    requires
        old(fb)@.len() == canvas@.len(),
        crosshair_fits(canvas@.len(), mouse.0 as int, mouse.1 as int),
    ensures
        final(fb)@ == painted(
            canvas@,
            |x: int, y: int| on_crosshair(x, y, mouse.0 as int, mouse.1 as int),
            color,
        ),
{
    let mut i: usize = 0;
    while i < canvas.len()
        invariant
            i <= canvas@.len(),
            fb@.len() == canvas@.len(),
            forall|k: int| 0 <= k < i ==> #[trigger] fb@[k] == canvas@[k],
        decreases canvas@.len() - i,
    {
        fb[i] = canvas[i];
        i = i + 1;
    }
    proof {
        assert(fb@ =~= canvas@);
    }
    crosshair(fb, mouse.0, mouse.1, color);
}

/// A line starts at its first point and ends at its last.
pub proof fn law_stroke_ends(from: (i32, i32), to: (i32, i32))
    ensures
        stroke_point(from, to, 0) == (from.0 as int, from.1 as int),
        stroke_point(from, to, stroke_steps(from, to)) == (to.0 as int, to.1 as int),
{
    let steps = stroke_steps(from, to);
    lemma_whole(to.0 - from.0, steps);
    lemma_whole(to.1 - from.1, steps);
}

proof fn lemma_whole(d: int, steps: int)
    requires
        1 <= steps,
    ensures
        truncated(d * 0, steps) == 0,
        truncated(d * steps, steps) == d,
{
    assert(d * 0 == 0) by (nonlinear_arith);
    assert(0int / steps == 0) by (nonlinear_arith)
        requires
            1 <= steps,
    ;
    assert((d * steps) / steps == d) by (nonlinear_arith)
        requires
            1 <= steps,
    ;
    assert((-(d * steps)) / steps == -d) by (nonlinear_arith)
        requires
            1 <= steps,
    ;
}

/// A line has no gaps: from one point to the next neither coordinate changes by
/// more than one pixel.
pub proof fn law_stroke_unbroken(from: (i32, i32), to: (i32, i32), i: int)
    requires
        0 <= i < stroke_steps(from, to),
    ensures
        ({
            let a = stroke_point(from, to, i);
            let b = stroke_point(from, to, i + 1);
            &&& -1 <= b.0 - a.0 <= 1
            &&& -1 <= b.1 - a.1 <= 1
        }),
{
    let steps = stroke_steps(from, to);
    lemma_next(to.0 - from.0, i, steps);
    lemma_next(to.1 - from.1, i, steps);
}

proof fn lemma_next(d: int, i: int, steps: int)
    requires
        0 <= i < steps,
        -steps <= d <= steps,
    ensures
        -1 <= truncated(d * (i + 1), steps) - truncated(d * i, steps) <= 1,
{
    let m = if d >= 0 {
        d
    } else {
        -d
    };
    let p = m * i;
    assert(0 <= p && m * (i + 1) == p + m) by (nonlinear_arith)
        requires
            0 <= m,
            0 <= i,
            p == m * i,
    ;
    assert(p / steps <= (p + m) / steps <= p / steps + 1) by (nonlinear_arith)
        requires
            0 <= p,
            0 <= m <= steps,
            1 <= steps,
    ;
    assert(d * i == if d >= 0 { p } else { -p }) by (nonlinear_arith)
        requires
            p == m * i,
            m == if d >= 0 { d } else { -d },
    ;
    assert(d * (i + 1) == if d >= 0 { p + m } else { -(p + m) }) by (nonlinear_arith)
        requires
            m * (i + 1) == p + m,
            m == if d >= 0 { d } else { -d },
    ;
    assert(0int / steps == 0) by (nonlinear_arith)
        requires
            1 <= steps,
    ;
}

/// A line that goes nowhere is a single dot.
pub proof fn law_stroke_of_a_point(at: (i32, i32), x: int, y: int)
    ensures
        stroke_covers(at, at, stroke_steps(at, at) + 1, x, y) == in_disc(
            x,
            y,
            at.0 as int,
            at.1 as int,
            BRUSH as int,
        ),
{
    law_stroke_ends(at, at);
    let n = stroke_steps(at, at) + 1;
    assert(n == 2);
    assert(stroke_point(at, at, 0) == stroke_point(at, at, 1));
}

/// Of two shapes painted one after the other, the later one's color shows
/// wherever both lie, and each shows where only it lies.
pub proof fn law_later_paint_covers(
    dst: Seq<u32>,
    first: spec_fn(int, int) -> bool,
    c1: u32,
    second: spec_fn(int, int) -> bool,
    c2: u32,
    k: int,
)
    requires
        0 <= k < PIXELS,
        k < dst.len(),
    ensures
        painted(painted(dst, first, c1), second, c2)[k] == if second(k % 640, k / 640) {
            c2
        } else if first(k % 640, k / 640) {
            c1
        } else {
            dst[k]
        },
{
}

/// The color of a hue is fully saturated: its largest channel is 255, its
/// smallest is 0, and nothing stands above red.
pub proof fn law_hue_saturated(sixth: int, x: u8)
    ensures
        ({
            let color = hue_color(sixth, x);
            let (r, g, b) = (color / 0x1_0000, color / 0x100 % 0x100, color % 0x100);
            &&& color < 0x100_0000
            &&& r <= 255 && g <= 255 && b <= 255
            &&& r == 255 || g == 255 || b == 255
            &&& r == 0 || g == 0 || b == 0
        }),
{
    law_channels(255, x, 0);
    law_channels(x, 255, 0);
    law_channels(0, 255, x);
    law_channels(0, x, 255);
    law_channels(x, 0, 255);
    law_channels(255, 0, x);
}

/// The channels of a color can be read back from it, and its top byte is zero.
pub proof fn law_channels(r: u8, g: u8, b: u8)
    ensures
        packed(r, g, b) % 0x100 == b,
        packed(r, g, b) / 0x100 % 0x100 == g,
        packed(r, g, b) / 0x1_0000 == r,
        packed(r, g, b) < 0x100_0000,
{
}

/// Painting colors exactly the pixels of the shape, pixel number `k` being column
/// `k % 640` of row `k / 640`, and leaves all others and what lies behind the
/// picture.
pub proof fn law_painted(dst: Seq<u32>, shape: spec_fn(int, int) -> bool, color: u32, k: int)
    requires
        0 <= k < dst.len(),
    ensures
        painted(dst, shape, color).len() == dst.len(),
        k < 307_200 && shape(k % 640, k / 640) ==> painted(dst, shape, color)[k] == color,
        k >= 307_200 || !shape(k % 640, k / 640) ==> painted(dst, shape, color)[k] == dst[k],
{
}

/// A disc holds the pixels whose distance from its centre is at most its radius.
pub proof fn law_disc(cx: int, cy: int, dx: int, dy: int, radius: int)
    ensures
        radius >= 0 ==> (in_disc(cx + dx, cy + dy, cx, cy, radius) <==> dx * dx + dy * dy <= radius
            * radius),
        radius < 0 ==> !in_disc(cx + dx, cy + dy, cx, cy, radius),
{
    assert(cx + dx - cx == dx && cy + dy - cy == dy);
}

/// A crosshair has four arms along its row and its column, from distance 3 to
/// distance 8, and nothing else.
pub proof fn law_crosshair(cx: int, cy: int, dx: int, dy: int)
    ensures
        on_crosshair(cx + dx, cy + dy, cx, cy) <==> {
            ||| dy == 0 && (3 <= dx <= 8 || 3 <= -dx <= 8)
            ||| dx == 0 && (3 <= dy <= 8 || 3 <= -dy <= 8)
        },
{
}

/// A line takes as many steps as its longer extent has pixels, and at least one.
pub proof fn law_stroke_steps(from: (i32, i32), to: (i32, i32))
    ensures
        ({
            let steps = stroke_steps(from, to);
            &&& steps >= 1
            &&& steps >= to.0 - from.0 && steps >= from.0 - to.0
            &&& steps >= to.1 - from.1 && steps >= from.1 - to.1
            &&& steps == 1 || steps == to.0 - from.0 || steps == from.0 - to.0 || steps == to.1
                - from.1 || steps == from.1 - to.1
        }),
{
}

/// The points of a line lie on the line, rounded towards its start: after `i` of
/// `steps` steps, each coordinate has moved in the direction of the end, by the
/// `i`th part of the way without its fraction.
pub proof fn law_stroke_points_on_line(from: (i32, i32), to: (i32, i32), i: int)
    requires
        0 <= i <= stroke_steps(from, to),
    ensures
        ({
            let steps = stroke_steps(from, to);
            let point = stroke_point(from, to, i);
            &&& to.0 >= from.0 ==> (point.0 - from.0) * steps <= (to.0 - from.0) * i < (point.0
                - from.0 + 1) * steps
            &&& to.0 < from.0 ==> (from.0 - point.0) * steps <= (from.0 - to.0) * i < (from.0
                - point.0 + 1) * steps
            &&& to.1 >= from.1 ==> (point.1 - from.1) * steps <= (to.1 - from.1) * i < (point.1
                - from.1 + 1) * steps
            &&& to.1 < from.1 ==> (from.1 - point.1) * steps <= (from.1 - to.1) * i < (from.1
                - point.1 + 1) * steps
        }),
{
    let steps = stroke_steps(from, to);
    lemma_part(to.0 - from.0, i, steps);
    lemma_part(to.1 - from.1, i, steps);
}

proof fn lemma_part(d: int, i: int, steps: int)
    requires
        0 <= i <= steps,
        1 <= steps,
    ensures
        ({
            let moved = truncated(d * i, steps);
            &&& d >= 0 ==> moved * steps <= d * i < (moved + 1) * steps
            &&& d < 0 ==> (-moved) * steps <= (-d) * i < (-moved + 1) * steps
        }),
{
    let m = if d >= 0 {
        d
    } else {
        -d
    };
    let p = m * i;
    let q = p / steps;
    assert(0 <= p && q * steps <= p < (q + 1) * steps) by (nonlinear_arith)
        requires
            0 <= m,
            0 <= i,
            p == m * i,
            q == p / steps,
            1 <= steps,
    ;
    assert((-d) * i == -(d * i)) by (nonlinear_arith);
    assert(0int / steps == 0) by (nonlinear_arith)
        requires
            1 <= steps,
    ;
}

/// A line covers the pixels within six of one of its points, from the first to the
/// last.
pub proof fn law_stroke_brush(from: (i32, i32), to: (i32, i32), x: int, y: int)
    ensures
        stroke_covers(from, to, stroke_steps(from, to) + 1, x, y) <==> exists|i: int|
            0 <= i <= stroke_steps(from, to) && {
                let point = #[trigger] stroke_point(from, to, i);
                (x - point.0) * (x - point.0) + (y - point.1) * (y - point.1) <= 36
            },
{
    let n = stroke_steps(from, to) + 1;
    if stroke_covers(from, to, n, x, y) {
        let i = choose|i: int|
            0 <= i < n && in_disc(
                x,
                y,
                (#[trigger] stroke_point(from, to, i)).0,
                stroke_point(from, to, i).1,
                BRUSH as int,
            );
        let point = stroke_point(from, to, i);
        assert((x - point.0) * (x - point.0) + (y - point.1) * (y - point.1) <= 36);
    }
    if exists|i: int|
        0 <= i <= stroke_steps(from, to) && {
            let point = #[trigger] stroke_point(from, to, i);
            (x - point.0) * (x - point.0) + (y - point.1) * (y - point.1) <= 36
        } {
        let i = choose|i: int|
            0 <= i <= stroke_steps(from, to) && {
                let point = #[trigger] stroke_point(from, to, i);
                (x - point.0) * (x - point.0) + (y - point.1) * (y - point.1) <= 36
            };
        let point = stroke_point(from, to, i);
        assert(in_disc(x, y, point.0, point.1, BRUSH as int));
    }
}

/// Around the color circle from red over yellow, green, cyan, blue and magenta, two
/// neighbouring sixths agree at the color between them, and within a sixth the one
/// channel that changes has the value `x`.
pub proof fn law_hue_circle(sixth: int, x: u8)
    ensures
        ({
            let color = hue_color(sixth, x);
            let (r, g, b) = (color / 0x1_0000, color / 0x100 % 0x100, color % 0x100);
            &&& sixth == 0 ==> r == 255 && g == x && b == 0
            &&& sixth == 1 ==> r == x && g == 255 && b == 0
            &&& sixth == 2 ==> r == 0 && g == 255 && b == x
            &&& sixth == 3 ==> r == 0 && g == x && b == 255
            &&& sixth == 4 ==> r == x && g == 0 && b == 255
            &&& sixth < 0 || sixth > 4 ==> r == 255 && g == 0 && b == x
        }),
        hue_color(0, 255) == hue_color(1, 255),
        hue_color(1, 0) == hue_color(2, 0),
        hue_color(2, 255) == hue_color(3, 255),
        hue_color(3, 0) == hue_color(4, 0),
        hue_color(4, 255) == hue_color(5, 255),
        hue_color(5, 0) == hue_color(0, 0),
{
    law_channels(255, x, 0);
    law_channels(x, 255, 0);
    law_channels(0, 255, x);
    law_channels(0, x, 255);
    law_channels(x, 0, 255);
    law_channels(255, 0, x);
}

} // verus!
