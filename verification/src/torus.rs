//! The torus guest: its mesh, its depth-tested triangles, and what its input
//! means. Positions and angles are computed by the caller; a depth stands here
//! as a number that grows towards the viewer, with 0 for nothing drawn.

use crate::abi::{
    InputEvent, SharedState, ABS_X, ABS_Y, BTN_LEFT, EV_ABS, EV_KEY, EV_REL, KEY_SPACE, REL_WHEEL,
};
use crate::canvas::PIXELS;
use crate::paint::event_value;
use vstd::prelude::*;

use crate::abi::pending_events;
use crate::paint::{button, moves, signed_value};

verus! {

/// Segments around the ring.
pub const SEG_U: usize = 48;

/// Segments around the tube.
pub const SEG_V: usize = 24;

/// Vertices of the mesh.
pub const VERTS: usize = 1152;

/// The vertex at segment `i` of the ring and `j` of the tube, both of which wrap
/// around.
pub open spec fn vertex(i: int, j: int) -> int {
    (i % 48) * 24 + j % 24
}

/// The four corners of the patch that starts at segments `i` and `j`.
pub open spec fn quad_corners(i: int, j: int) -> Seq<int> {
    seq![vertex(i, j), vertex(i + 1, j), vertex(i, j + 1), vertex(i + 1, j + 1)]
}

/// The vertex numbers of a patch's corners.
pub fn quad(i: usize, j: usize) -> (corners: [usize; 4])
    requires
        i < SEG_U,
        j < SEG_V,
    ensures
        forall|k: int| 0 <= k < 4 ==> #[trigger] corners@[k] == quad_corners(i as int, j as int)[k],
        forall|k: int| 0 <= k < 4 ==> #[trigger] corners@[k] < VERTS,
{
    let i1: usize = (i + 1) % SEG_U;
    let j1: usize = (j + 1) % SEG_V;
    [i * SEG_V + j, i1 * SEG_V + j, i * SEG_V + j1, i1 * SEG_V + j1]
}

/// The two triangles of a patch, in the order that gives outward faces a
/// positive area on screen.
pub fn triangles(corners: &[usize; 4]) -> (pair: ([usize; 3], [usize; 3]))
    ensures
        pair.0@ == seq![corners@[0], corners@[1], corners@[2]],
        pair.1@ == seq![corners@[2], corners@[1], corners@[3]],
{
    let first: [usize; 3] = [corners[0], corners[1], corners[2]];
    let second: [usize; 3] = [corners[2], corners[1], corners[3]];
    proof {
        assert(first@ =~= seq![corners@[0], corners@[1], corners@[2]]);
        assert(second@ =~= seq![corners@[2], corners@[1], corners@[3]]);
    }
    (first, second)
}

/// Which of the two colors of the checkered surface a patch has: fields of four
/// by four patches, the first color at the origin.
pub fn first_color(i: usize, j: usize) -> (first: bool)
    requires
        i < SEG_U,
        j < SEG_V,
    ensures
        first == ((i / 4 + j / 4) % 2 == 0),
{
    (i / 4 + j / 4) % 2 == 0
}

/// One patch of the surface: its corners, its two triangles and its color.
#[derive(Debug, Clone, Copy)]
pub struct Patch {
    pub corners: [usize; 4],
    pub first: [usize; 3],
    pub second: [usize; 3],
    pub first_color: bool,
}

/// The patch that starts at segments `i` and `j`.
pub open spec fn is_patch(p: Patch, i: int, j: int) -> bool {
    let q = quad_corners(i, j);
    &&& forall|k: int| 0 <= k < 4 ==> #[trigger] p.corners@[k] == q[k]
    &&& p.first@ == seq![p.corners@[0], p.corners@[1], p.corners@[2]]
    &&& p.second@ == seq![p.corners@[2], p.corners@[1], p.corners@[3]]
    &&& p.first_color == ((i / 4 + j / 4) % 2 == 0)
}

/// All patches in the order in which they are drawn: around the tube, then on
/// along the ring.
pub fn patches() -> (list: Vec<Patch>)
    ensures
        list@.len() == VERTS,
        forall|n: int| 0 <= n < VERTS ==> is_patch(#[trigger] list@[n], n / 24, n % 24),
{
    let mut list: Vec<Patch> = Vec::new();
    let mut n: usize = 0;
    while n < VERTS
        invariant
            n <= VERTS,
            list@.len() == n,
            forall|m: int| 0 <= m < n ==> is_patch(#[trigger] list@[m], m / 24, m % 24),
        decreases VERTS - n,
    {
        let i: usize = n / SEG_V;
        let j: usize = n % SEG_V;
        let corners: [usize; 4] = quad(i, j);
        let pair: ([usize; 3], [usize; 3]) = triangles(&corners);
        list.push(
            Patch { corners, first: pair.0, second: pair.1, first_color: first_color(i, j) },
        );
        n = n + 1;
    }
    list
}

/// The mesh is closed: each patch shares an edge with the next one around the
/// ring and with the next one around the tube, across the seams too.
pub proof fn law_mesh_closed(i: int, j: int)
    requires
        0 <= i < SEG_U,
        0 <= j < SEG_V,
    ensures
        ({
            let q = quad_corners(i, j);
            let ring = quad_corners((i + 1) % 48, j);
            let tube = quad_corners(i, (j + 1) % 24);
            &&& q[1] == ring[0] && q[3] == ring[2]
            &&& q[2] == tube[0] && q[3] == tube[1]
        }),
{
}

/// Vertices are numbered without repetition: different segments have different
/// numbers, all below `VERTS`.
pub proof fn law_vertices_distinct(i: int, j: int, k: int, l: int)
    requires
        0 <= i < SEG_U,
        0 <= j < SEG_V,
        0 <= k < SEG_U,
        0 <= l < SEG_V,
    ensures
        0 <= vertex(i, j) < VERTS,
        vertex(i, j) == vertex(k, l) ==> i == k && j == l,
{
}

/// A depth and a color after a sample of the given depth: the nearer one stays.
pub open spec fn tested(depth: u32, shown: u32, sample: Option<u32>, color: u32) -> (u32, u32) {
    match sample {
        Some(d) => if d > depth {
            (d, color)
        } else {
            (depth, shown)
        },
        None => (depth, shown),
    }
}

/// The pixels from the first to the last of a range, both ends counted, as far
/// as they are on the picture.
#[derive(Debug, Clone, Copy, PartialEq, Eq, Structural)]
pub struct Bounds {
    pub min_x: usize,
    pub min_y: usize,
    pub max_x: usize,
    pub max_y: usize,
}

/// Pixel number `k` lies on the picture and within the bounds.
pub open spec fn within(b: Bounds, k: int) -> bool {
    &&& 0 <= k < PIXELS
    &&& b.min_x <= k % 640 <= b.max_x
    &&& b.min_y <= k / 640 <= b.max_y
}

/// What pixel number `k` holds after a triangle: where the pixel lies within the
/// bounds, the outcome of the depth test on what `sample` gives for it.
pub open spec fn pixel_filled<F: Fn(usize, usize) -> Option<u32>>(
    fb: Seq<u32>,
    zb: Seq<u32>,
    fb2: Seq<u32>,
    zb2: Seq<u32>,
    b: Bounds,
    sample: F,
    color: u32,
    k: int,
) -> bool {
    if within(b, k) {
        exists|s: Option<u32>|
            #[trigger] call_ensures(sample, ((k % 640) as usize, (k / 640) as usize), s) && (
            zb2[k],
            fb2[k],
        ) == tested(zb[k], fb[k], s, color)
    } else {
        zb2[k] == zb[k] && fb2[k] == fb[k]
    }
}

/// A triangle with these corners is drawn: none lies behind the viewer, and it
/// faces the viewer.
pub open spec fn drawn(behind: Seq<bool>, front: bool) -> bool {
    !behind[0] && !behind[1] && !behind[2] && front
}

/// Slices of `len` pixels hold every pixel of the picture within the bounds that
/// the triangle covers. Those that hold the whole picture do so for every
/// triangle.
pub open spec fn samples_fit<F: Fn(usize, usize) -> Option<u32>>(
    len: nat,
    b: Bounds,
    sample: F,
) -> bool {
    forall|x: usize, y: usize, d: u32|
        b.min_x <= x <= b.max_x && x < 640 && b.min_y <= y <= b.max_y && y < 480
            && #[trigger] call_ensures(sample, (x, y), Some(d)) ==> y * 640 + x < len
}

/// What a triangle makes of picture and depths. One that is not drawn changes
/// nothing; of one that is, every pixel has been through its depth test, and what
/// lies behind the last pixel, or behind the end of the other slice, stays as it
/// is.
pub open spec fn filled<F: Fn(usize, usize) -> Option<u32>>(
    fb: Seq<u32>,
    zb: Seq<u32>,
    fb2: Seq<u32>,
    zb2: Seq<u32>,
    shown: bool,
    b: Bounds,
    sample: F,
    color: u32,
) -> bool {
    &&& fb2.len() == fb.len()
    &&& zb2.len() == zb.len()
    &&& !shown ==> fb2 == fb && zb2 == zb
    &&& shown ==> forall|k: int|
        0 <= k < PIXELS && k < fb.len() && k < zb.len() ==> #[trigger] pixel_filled(
            fb,
            zb,
            fb2,
            zb2,
            b,
            sample,
            color,
            k,
        )
    &&& forall|k: int|
        0 <= k < fb.len() && (PIXELS <= k || zb.len() <= k) ==> #[trigger] fb2[k] == fb[k]
    &&& forall|k: int|
        0 <= k < zb.len() && (PIXELS <= k || fb.len() <= k) ==> #[trigger] zb2[k] == zb[k]
}

/// Fills a triangle with a depth test. `sample` gives the depth of the triangle
/// at a pixel, or `None` where the triangle does not cover the pixel's centre. A
/// triangle that reaches behind the viewer, or that faces away, is not drawn.
pub fn fill_triangle<F: Fn(usize, usize) -> Option<u32>>(
    fb: &mut [u32],
    zb: &mut [u32],
    behind: [bool; 3],
    front: bool,
    bounds: Bounds,
    sample: F,
    color: u32,
)
    requires
        drawn(behind@, front) ==> samples_fit(old(fb)@.len(), bounds, sample),
        drawn(behind@, front) ==> samples_fit(old(zb)@.len(), bounds, sample),
        drawn(behind@, front) ==> forall|x: usize, y: usize|
            x < 640 && y < 480 ==> #[trigger] call_requires(sample, (x, y)),
    ensures
        filled(
            old(fb)@,
            old(zb)@,
            final(fb)@,
            final(zb)@,
            drawn(behind@, front),
            bounds,
            sample,
            color,
        ),
{
    if behind[0] || behind[1] || behind[2] || !front {
        return;
    }
    let max_x: usize = if bounds.max_x < 639 {
        bounds.max_x
    } else {
        639
    };
    let max_y: usize = if bounds.max_y < 479 {
        bounds.max_y
    } else {
        479
    };
    let ghost fb0 = fb@;
    let ghost zb0 = zb@;
    let mut y: usize = bounds.min_y;
    while y <= max_y
        invariant
            bounds.min_y <= y,
            max_y == if bounds.max_y < 479 { bounds.max_y } else { 479 },
            max_x == if bounds.max_x < 639 { bounds.max_x } else { 639 },
            y <= max_y + 1 || y == bounds.min_y,
            samples_fit(fb0.len(), bounds, sample),
            samples_fit(zb0.len(), bounds, sample),
            fb@.len() == fb0.len(),
            zb@.len() == zb0.len(),
            forall|a: usize, b: usize|
                a < 640 && b < 480 ==> #[trigger] call_requires(sample, (a, b)),
            forall|k: int|
                0 <= k < PIXELS && k < fb0.len() && k < zb0.len() && k / 640 < y
                    ==> #[trigger] pixel_filled(
                    fb0,
                    zb0,
                    fb@,
                    zb@,
                    bounds,
                    sample,
                    color,
                    k,
                ),
            forall|k: int|
                0 <= k < fb0.len() && (k / 640 >= y || k >= PIXELS || k >= zb0.len())
                    ==> #[trigger] fb@[k] == fb0[k],
            forall|k: int|
                0 <= k < zb0.len() && (k / 640 >= y || k >= PIXELS || k >= fb0.len())
                    ==> #[trigger] zb@[k] == zb0[k],
        decreases max_y + 1 - y,
    {
        let mut x: usize = bounds.min_x;
        while x <= max_x
            invariant
                bounds.min_y <= y <= max_y,
                bounds.min_x <= x,
                max_y == if bounds.max_y < 479 { bounds.max_y } else { 479 },
                max_x == if bounds.max_x < 639 { bounds.max_x } else { 639 },
                x <= max_x + 1 || x == bounds.min_x,
                samples_fit(fb0.len(), bounds, sample),
                samples_fit(zb0.len(), bounds, sample),
                fb@.len() == fb0.len(),
                zb@.len() == zb0.len(),
                forall|a: usize, b: usize|
                    a < 640 && b < 480 ==> #[trigger] call_requires(sample, (a, b)),
                forall|k: int|
                    0 <= k < PIXELS && k < fb0.len() && k < zb0.len() && (k / 640 < y || k / 640
                        == y && k % 640 < x)
                        ==> #[trigger] pixel_filled(fb0, zb0, fb@, zb@, bounds, sample, color, k),
                forall|k: int|
                    0 <= k < fb0.len() && (k / 640 > y || k / 640 == y && k % 640 >= x || k
                        >= PIXELS || k >= zb0.len()) ==> #[trigger] fb@[k] == fb0[k],
                forall|k: int|
                    0 <= k < zb0.len() && (k / 640 > y || k / 640 == y && k % 640 >= x || k
                        >= PIXELS || k >= fb0.len()) ==> #[trigger] zb@[k] == zb0[k],
            decreases max_x + 1 - x,
        {
            let ghost at = y * 640 + x;
            let ghost fb1 = fb@;
            let ghost zb1 = zb@;
            proof {
                assert(at % 640 == x && at / 640 == y);
            }
            let found: Option<u32> = sample(x, y);
            let index: usize = y * 640 + x;
            match found {
                Some(depth) => {
                    if depth > zb[index] {
                        zb[index] = depth;
                        fb[index] = color;
                    }
                },
                None => {},
            }
            proof {
                assert(call_ensures(
                    sample,
                    ((at % 640) as usize, (at / 640) as usize),
                    found,
                ));
                if at < fb0.len() && at < zb0.len() {
                    assert((zb@[at], fb@[at]) == tested(zb0[at], fb0[at], found, color));
                    assert(pixel_filled(fb0, zb0, fb@, zb@, bounds, sample, color, at));
                }
                assert forall|k: int|
                    0 <= k < PIXELS && k < fb0.len() && k < zb0.len() && (k / 640 < y || k / 640
                        == y && k % 640 < x + 1)
                    implies #[trigger] pixel_filled(
                    fb0,
                    zb0,
                    fb@,
                    zb@,
                    bounds,
                    sample,
                    color,
                    k,
                ) by {
                    if k != at {
                        assert(fb@[k] == fb1[k] && zb@[k] == zb1[k]);
                        assert(pixel_filled(fb0, zb0, fb1, zb1, bounds, sample, color, k));
                    }
                }
            }
            x = x + 1;
        }
        y = y + 1;
    }
}

/// A triangle never moves a pixel's depth away from the viewer, and shows its
/// color exactly where it is nearer than what was there.
pub proof fn law_depth_only_grows<F: Fn(usize, usize) -> Option<u32>>(
    fb: Seq<u32>,
    zb: Seq<u32>,
    fb2: Seq<u32>,
    zb2: Seq<u32>,
    shown: bool,
    b: Bounds,
    sample: F,
    color: u32,
    k: int,
)
    requires
        filled(fb, zb, fb2, zb2, shown, b, sample, color),
        0 <= k < PIXELS,
        k < fb.len(),
        k < zb.len(),
    ensures
        zb2[k] >= zb[k],
        zb2[k] > zb[k] ==> fb2[k] == color,
        zb2[k] == zb[k] ==> fb2[k] == fb[k],
{
    if shown {
        assert(pixel_filled(fb, zb, fb2, zb2, b, sample, color, k));
    }
}

/// The sample of a pixel is a function of the pixel.
pub open spec fn steady<F: Fn(usize, usize) -> Option<u32>>(sample: F) -> bool {
    forall|x: usize, y: usize, s: Option<u32>, t: Option<u32>|
        #[trigger] call_ensures(sample, (x, y), s) && #[trigger] call_ensures(sample, (x, y), t)
            ==> s == t
}

/// A triangle that is drawn has depth `d` at pixel number `k`.
pub open spec fn has_depth<F: Fn(usize, usize) -> Option<u32>>(
    shown: bool,
    b: Bounds,
    sample: F,
    k: int,
    d: u32,
) -> bool {
    &&& shown
    &&& within(b, k)
    &&& call_ensures(sample, ((k % 640) as usize, (k / 640) as usize), Some(d))
}

/// Drawing the same triangle again changes neither picture nor depths, whatever
/// the color: of equal depths the first drawn stays.
pub proof fn law_second_drawing_changes_nothing<F: Fn(usize, usize) -> Option<u32>>(
    fb: Seq<u32>,
    zb: Seq<u32>,
    fb1: Seq<u32>,
    zb1: Seq<u32>,
    fb2: Seq<u32>,
    zb2: Seq<u32>,
    shown: bool,
    b: Bounds,
    sample: F,
    c1: u32,
    c2: u32,
)
    requires
        steady(sample),
        filled(fb, zb, fb1, zb1, shown, b, sample, c1),
        filled(fb1, zb1, fb2, zb2, shown, b, sample, c2),
    ensures
        fb2 == fb1,
        zb2 == zb1,
{
    if shown {
        assert forall|k: int|
            0 <= k < PIXELS && k < fb.len() && k < zb.len() implies #[trigger] fb2[k] == fb1[k]
            && zb2[k] == zb1[k] by {
            assert(pixel_filled(fb, zb, fb1, zb1, b, sample, c1, k));
            assert(pixel_filled(fb1, zb1, fb2, zb2, b, sample, c2, k));
        }
        assert(zb2 =~= zb1) by {
            assert forall|k: int| 0 <= k < zb.len() implies zb2[k] == zb1[k] by {
                if k < PIXELS && k < fb.len() {
                    assert(fb2[k] == fb1[k]);
                }
            }
        }
        assert(fb2 =~= fb1);
    }
}

/// Visibility does not depend on drawing order. Of two triangles drawn one after
/// the other from the same start, both orders leave the same depths, and the same
/// color on every pixel where the two triangles do not have the same depth in
/// front of what was there.
pub proof fn law_draw_order_does_not_matter<
    F: Fn(usize, usize) -> Option<u32>,
    G: Fn(usize, usize) -> Option<u32>,
>(
    fb: Seq<u32>,
    zb: Seq<u32>,
    fb_f: Seq<u32>,
    zb_f: Seq<u32>,
    fb_fg: Seq<u32>,
    zb_fg: Seq<u32>,
    fb_g: Seq<u32>,
    zb_g: Seq<u32>,
    fb_gf: Seq<u32>,
    zb_gf: Seq<u32>,
    f_shown: bool,
    f_bounds: Bounds,
    f: F,
    f_color: u32,
    g_shown: bool,
    g_bounds: Bounds,
    g: G,
    g_color: u32,
)
    requires
        steady(f),
        steady(g),
        filled(fb, zb, fb_f, zb_f, f_shown, f_bounds, f, f_color),
        filled(fb_f, zb_f, fb_fg, zb_fg, g_shown, g_bounds, g, g_color),
        filled(fb, zb, fb_g, zb_g, g_shown, g_bounds, g, g_color),
        filled(fb_g, zb_g, fb_gf, zb_gf, f_shown, f_bounds, f, f_color),
    ensures
        zb_fg == zb_gf,
        fb_fg.len() == fb_gf.len(),
        forall|k: int|
            0 <= k < fb.len() && (forall|d: u32|
                #![trigger has_depth(f_shown, f_bounds, f, k, d)]
                #![trigger has_depth(g_shown, g_bounds, g, k, d)]
                d > zb[k] ==> !(has_depth(f_shown, f_bounds, f, k, d) && has_depth(
                    g_shown,
                    g_bounds,
                    g,
                    k,
                    d,
                ))) ==> #[trigger] fb_fg[k] == fb_gf[k],
{
    assert forall|k: int|
        0 <= k < PIXELS && k < fb.len() && k < zb.len() implies #[trigger] zb_fg[k] == zb_gf[k] && (fb_fg[k]
        == fb_gf[k] || exists|d: u32|
        d > zb[k] && #[trigger] has_depth(f_shown, f_bounds, f, k, d) && has_depth(
            g_shown,
            g_bounds,
            g,
            k,
            d,
        )) by {
        lemma_pixel_step(fb, zb, fb_f, zb_f, f_shown, f_bounds, f, f_color, k);
        lemma_pixel_step(fb_f, zb_f, fb_fg, zb_fg, g_shown, g_bounds, g, g_color, k);
        lemma_pixel_step(fb, zb, fb_g, zb_g, g_shown, g_bounds, g, g_color, k);
        lemma_pixel_step(fb_g, zb_g, fb_gf, zb_gf, f_shown, f_bounds, f, f_color, k);
        let s = depth_of(f_shown, f_bounds, f, k);
        let t = depth_of(g_shown, g_bounds, g, k);
        if let Some(d) = s {
            assert(has_depth(f_shown, f_bounds, f, k, d));
        }
        if let Some(d) = t {
            assert(has_depth(g_shown, g_bounds, g, k, d));
        }
    }
    assert forall|k: int| 0 <= k < zb.len() implies zb_fg[k] == zb_gf[k] by {
        if k < PIXELS && k < fb.len() {
            assert(zb_fg[k] == zb_gf[k]);
        }
    }
    assert(zb_fg =~= zb_gf);
    assert forall|k: int|
        0 <= k < fb.len() && (forall|d: u32|
            #![trigger has_depth(f_shown, f_bounds, f, k, d)]
            #![trigger has_depth(g_shown, g_bounds, g, k, d)]
            d > zb[k] ==> !(has_depth(f_shown, f_bounds, f, k, d) && has_depth(
                g_shown,
                g_bounds,
                g,
                k,
                d,
            ))) implies #[trigger] fb_fg[k] == fb_gf[k] by {
        if k < PIXELS && k < zb.len() {
            assert(zb_fg[k] == zb_gf[k]);
        }
    }
}

/// The depth of a triangle at pixel number `k`, if it is drawn and has one there.
spec fn depth_of<F: Fn(usize, usize) -> Option<u32>>(
    shown: bool,
    b: Bounds,
    sample: F,
    k: int,
) -> Option<u32> {
    if exists|d: u32| has_depth(shown, b, sample, k, d) {
        Some(choose|d: u32| has_depth(shown, b, sample, k, d))
    } else {
        None
    }
}

proof fn lemma_pixel_step<F: Fn(usize, usize) -> Option<u32>>(
    fb: Seq<u32>,
    zb: Seq<u32>,
    fb2: Seq<u32>,
    zb2: Seq<u32>,
    shown: bool,
    b: Bounds,
    sample: F,
    color: u32,
    k: int,
)
    requires
        steady(sample),
        filled(fb, zb, fb2, zb2, shown, b, sample, color),
        0 <= k < PIXELS,
        k < fb.len(),
        k < zb.len(),
    ensures
        (zb2[k], fb2[k]) == tested(zb[k], fb[k], depth_of(shown, b, sample, k), color),
        depth_of(shown, b, sample, k) matches Some(d) ==> has_depth(shown, b, sample, k, d),
{
    if shown {
        assert(pixel_filled(fb, zb, fb2, zb2, b, sample, color, k));
        if within(b, k) {
            let at = ((k % 640) as usize, (k / 640) as usize);
            let s = choose|s: Option<u32>|
                #[trigger] call_ensures(sample, at, s) && (zb2[k], fb2[k]) == tested(
                    zb[k],
                    fb[k],
                    s,
                    color,
                );
            assert(call_ensures(sample, at, s));
            if let Some(d) = s {
                assert(has_depth(shown, b, sample, k, d));
            }
        }
    }
}

/// Gives each row of the picture the one color that `row_color` computes for it,
/// and sets every depth back to nothing drawn.
pub fn clear<F: Fn(usize) -> u32>(fb: &mut [u32], zb: &mut [u32], row_color: F)
    requires
        PIXELS <= old(fb)@.len(),
        forall|y: usize| y < 480 ==> #[trigger] call_requires(row_color, (y,)),
    ensures
        final(fb)@.len() == old(fb)@.len(),
        final(zb)@.len() == old(zb)@.len(),
        forall|y: usize| y < 480 ==> #[trigger] row_cleared(final(fb)@, row_color, y),
        forall|k: int| PIXELS <= k < old(fb)@.len() ==> #[trigger] final(fb)@[k] == old(fb)@[k],
        forall|k: int| 0 <= k < old(zb)@.len() ==> #[trigger] final(zb)@[k] == 0,
{
    let ghost fb0 = fb@;
    let mut y: usize = 0;
    while y < 480
        invariant
            y <= 480,
            PIXELS <= fb0.len(),
            fb@.len() == fb0.len(),
            forall|a: usize| a < 480 ==> #[trigger] call_requires(row_color, (a,)),
            forall|a: usize| a < y ==> #[trigger] row_cleared(fb@, row_color, a),
            forall|k: int| PIXELS <= k < fb0.len() ==> #[trigger] fb@[k] == fb0[k],
        decreases 480 - y,
    {
        let color: u32 = row_color(y);
        let ghost fb1 = fb@;
        let mut x: usize = 0;
        while x < 640
            invariant
                y < 480,
                x <= 640,
                PIXELS <= fb0.len(),
                fb@.len() == fb0.len(),
                fb1.len() == fb0.len(),
                forall|k: int| y * 640 <= k < y * 640 + x ==> #[trigger] fb@[k] == color,
                forall|k: int|
                    0 <= k < fb0.len() && !(y * 640 <= k < y * 640 + 640) ==> #[trigger] fb@[k]
                        == fb1[k],
            decreases 640 - x,
        {
            fb[y * 640 + x] = color;
            x = x + 1;
        }
        proof {
            assert forall|a: usize| a < y + 1 implies #[trigger] row_cleared(
                fb@,
                row_color,
                a,
            ) by {
                if a == y {
                    assert(call_ensures(row_color, (a,), color));
                } else {
                    assert(row_cleared(fb1, row_color, a));
                    let c = choose|c: u32|
                        #[trigger] call_ensures(row_color, (a,), c) && forall|k: int|
                            a * 640 <= k < a * 640 + 640 ==> #[trigger] fb1[k] == c;
                    assert(forall|k: int|
                        a * 640 <= k < a * 640 + 640 ==> #[trigger] fb@[k] == c) by {
                        assert forall|k: int| a * 640 <= k < a * 640 + 640 implies #[trigger] fb@[k]
                            == c by {
                            assert(fb@[k] == fb1[k]);
                        }
                    }
                }
            }
        }
        y = y + 1;
    }
    let mut i: usize = 0;
    while i < zb.len()
        invariant
            i <= zb@.len(),
            zb@.len() == old(zb)@.len(),
            forall|k: int| 0 <= k < i ==> #[trigger] zb@[k] == 0,
        decreases zb@.len() - i,
    {
        zb[i] = 0;
        i = i + 1;
    }
}

/// Row `y` of the picture has one color, which `row_color` gave for it.
pub open spec fn row_cleared<F: Fn(usize) -> u32>(fb: Seq<u32>, row_color: F, y: usize) -> bool {
    exists|c: u32|
        #[trigger] call_ensures(row_color, (y,), c) && forall|k: int|
            y * 640 <= k < y * 640 + 640 ==> #[trigger] fb[k] == c
}

/// A triangle of a scene: whether it is drawn, its bounds, its depths and its
/// color.
pub struct Triangle<F> {
    pub shown: bool,
    pub bounds: Bounds,
    pub sample: F,
    pub color: u32,
}

/// Picture and depths on the way through a frame: cleared first, then with one
/// triangle of the scene after the other.
pub open spec fn frame_drawn<C: Fn(usize) -> u32, F: Fn(usize, usize) -> Option<u32>>(
    stages: Seq<(Seq<u32>, Seq<u32>)>,
    row_color: C,
    scene: Seq<Triangle<F>>,
) -> bool {
    &&& stages.len() == scene.len() + 1
    &&& PIXELS <= stages[0].0.len()
    &&& PIXELS <= stages[0].1.len()
    &&& forall|y: usize| y < 480 ==> #[trigger] row_cleared(stages[0].0, row_color, y)
    &&& forall|k: int| 0 <= k < PIXELS ==> #[trigger] stages[0].1[k] == 0
    &&& forall|n: int| 0 <= n < scene.len() ==> #[trigger] triangle_drawn(stages, scene, n)
}

/// Triangle number `n` of the scene leads from one stage to the next.
pub open spec fn triangle_drawn<F: Fn(usize, usize) -> Option<u32>>(
    stages: Seq<(Seq<u32>, Seq<u32>)>,
    scene: Seq<Triangle<F>>,
    n: int,
) -> bool {
    filled(
        stages[n].0,
        stages[n].1,
        stages[n + 1].0,
        stages[n + 1].1,
        scene[n].shown,
        scene[n].bounds,
        scene[n].sample,
        scene[n].color,
    )
}

/// A picture depends on its scene alone: two frames with the same triangles and
/// row colors agree on every pixel and every depth at every stage, whatever the
/// buffers held before.
pub proof fn law_picture_of_scene<C: Fn(usize) -> u32, F: Fn(usize, usize) -> Option<u32>>(
    a: Seq<(Seq<u32>, Seq<u32>)>,
    b: Seq<(Seq<u32>, Seq<u32>)>,
    row_color: C,
    scene: Seq<Triangle<F>>,
    n: int,
    k: int,
)
    requires
        forall|y: usize, c: u32, d: u32|
            #[trigger] call_ensures(row_color, (y,), c) && #[trigger] call_ensures(
                row_color,
                (y,),
                d,
            ) ==> c == d,
        forall|m: int| 0 <= m < scene.len() ==> steady((#[trigger] scene[m]).sample),
        frame_drawn(a, row_color, scene),
        frame_drawn(b, row_color, scene),
        0 <= n <= scene.len(),
        0 <= k < PIXELS,
    ensures
        PIXELS <= a[n].0.len() && PIXELS <= a[n].1.len(),
        PIXELS <= b[n].0.len() && PIXELS <= b[n].1.len(),
        a[n].0[k] == b[n].0[k],
        a[n].1[k] == b[n].1[k],
    decreases n,
{
    if n == 0 {
        let y = (k / 640) as usize;
        assert(y < 480);
        assert(row_cleared(a[0].0, row_color, y));
        assert(row_cleared(b[0].0, row_color, y));
        assert(y * 640 <= k < y * 640 + 640);
        assert(a[0].1[k] == 0 && b[0].1[k] == 0);
    } else {
        law_picture_of_scene(a, b, row_color, scene, n - 1, k);
        assert(triangle_drawn(a, scene, n - 1));
        assert(triangle_drawn(b, scene, n - 1));
        let t = scene[n - 1];
        assert(steady(t.sample));
        lemma_pixel_step(
            a[n - 1].0,
            a[n - 1].1,
            a[n].0,
            a[n].1,
            t.shown,
            t.bounds,
            t.sample,
            t.color,
            k,
        );
        lemma_pixel_step(
            b[n - 1].0,
            b[n - 1].1,
            b[n].0,
            b[n].1,
            t.shown,
            t.bounds,
            t.sample,
            t.color,
            k,
        );
    }
}

/// Where the pointer is, whether the button is down, and whether the torus spins
/// by itself.
#[derive(Debug, Clone, Copy, PartialEq, Eq, Structural)]
pub struct Orbit {
    pub mouse_x: i32,
    pub mouse_y: i32,
    pub down: bool,
    pub spin: bool,
}

/// What an event asks of the camera, in pixels or wheel steps.
#[derive(Debug, Clone, Copy, PartialEq, Eq, Structural)]
pub enum Motion {
    Yaw(i32),
    Pitch(i32),
    Zoom(i32),
}

/// What an event makes of the input state.
pub open spec fn orbit_after(o: Orbit, event: InputEvent) -> Orbit {
    if event.kind == EV_ABS && event.code == ABS_X {
        Orbit { mouse_x: signed_value(event.value) as i32, ..o }
    } else if event.kind == EV_ABS && event.code == ABS_Y {
        Orbit { mouse_y: signed_value(event.value) as i32, ..o }
    } else if event.kind == EV_KEY && event.code == BTN_LEFT {
        Orbit { down: event.value == 1, ..o }
    } else if event.kind == EV_KEY && event.code == KEY_SPACE && event.value == 1 {
        Orbit { spin: !o.spin, ..o }
    } else {
        o
    }
}

/// The motion that an event asks for: a drag turns, the wheel zooms.
pub open spec fn motion(o: Orbit, event: InputEvent) -> Option<Motion> {
    if event.kind == EV_ABS && event.code == ABS_X && o.down {
        Some(Motion::Yaw((signed_value(event.value) - o.mouse_x) as i32))
    } else if event.kind == EV_ABS && event.code == ABS_Y && o.down {
        Some(Motion::Pitch((signed_value(event.value) - o.mouse_y) as i32))
    } else if event.kind == EV_REL && event.code == REL_WHEEL {
        Some(Motion::Zoom(signed_value(event.value) as i32))
    } else {
        None
    }
}

/// The distance of a drag is a number that the machine can hold.
pub open spec fn drag_fits(o: Orbit, event: InputEvent) -> bool {
    &&& event.kind == EV_ABS && event.code == ABS_X && o.down ==> i32::MIN <= signed_value(
        event.value,
    ) - o.mouse_x <= i32::MAX
    &&& event.kind == EV_ABS && event.code == ABS_Y && o.down ==> i32::MIN <= signed_value(
        event.value,
    ) - o.mouse_y <= i32::MAX
}

/// What a list of events makes of the input state.
pub open spec fn orbit_after_all(o: Orbit, events: Seq<InputEvent>) -> Orbit
    decreases events.len(),
{
    if events.len() == 0 {
        o
    } else {
        orbit_after(orbit_after_all(o, events.drop_last()), events.last())
    }
}

/// The motions that a list of events asks for, in order.
pub open spec fn motions(o: Orbit, events: Seq<InputEvent>) -> Seq<Motion>
    decreases events.len(),
{
    if events.len() == 0 {
        Seq::empty()
    } else {
        let before = motions(o, events.drop_last());
        match motion(orbit_after_all(o, events.drop_last()), events.last()) {
            Some(m) => before.push(m),
            None => before,
        }
    }
}

/// Every drag of a list of events has a distance that the machine can hold.
pub open spec fn drags_fit(o: Orbit, events: Seq<InputEvent>) -> bool
    decreases events.len(),
{
    events.len() == 0 || (drags_fit(o, events.drop_last()) && drag_fits(
        orbit_after_all(o, events.drop_last()),
        events.last(),
    ))
}

proof fn lemma_drags_fit_prefix(o: Orbit, events: Seq<InputEvent>, n: int)
    requires
        0 <= n <= events.len(),
        drags_fit(o, events),
    ensures
        drags_fit(o, events.take(n)),
    decreases events.len(),
{
    if n == events.len() {
        assert(events.take(n) =~= events);
    } else {
        lemma_drags_fit_prefix(o, events.drop_last(), n);
        assert(events.drop_last().take(n) =~= events.take(n));
    }
}

impl Orbit {
    /// Pointer in the corner, button up, spinning.
    pub fn new() -> (o: Orbit)
        ensures
            o == (Orbit { mouse_x: 0, mouse_y: 0, down: false, spin: true }),
    {
        Orbit { mouse_x: 0, mouse_y: 0, down: false, spin: true }
    }

    /// Whether a drag's distance, if the event is a drag, can be held.
    pub fn accepts(&self, event: InputEvent) -> (ok: bool)
        ensures
            ok == drag_fits(*self, event),
    {
        if event.kind == EV_ABS && self.down {
            let value: i64 = event_value(event.value) as i64;
            if event.code == ABS_X {
                let d: i64 = value - self.mouse_x as i64;
                return -0x8000_0000 <= d && d <= 0x7fff_ffff;
            }
            if event.code == ABS_Y {
                let d: i64 = value - self.mouse_y as i64;
                return -0x8000_0000 <= d && d <= 0x7fff_ffff;
            }
        }
        true
    }

    /// Takes in one event.
    pub fn event(&mut self, event: InputEvent) -> (asked: Option<Motion>)
        requires
            drag_fits(*old(self), event),
        ensures
            asked == motion(*old(self), event),
            *final(self) == orbit_after(*old(self), event),
    {
        if event.kind == EV_ABS && event.code == ABS_X {
            let x: i32 = event_value(event.value);
            let asked: Option<Motion> = if self.down {
                Some(Motion::Yaw(x - self.mouse_x))
            } else {
                None
            };
            self.mouse_x = x;
            asked
        } else if event.kind == EV_ABS && event.code == ABS_Y {
            let y: i32 = event_value(event.value);
            let asked: Option<Motion> = if self.down {
                Some(Motion::Pitch(y - self.mouse_y))
            } else {
                None
            };
            self.mouse_y = y;
            asked
        } else if event.kind == EV_KEY && event.code == BTN_LEFT {
            self.down = event.value == 1;
            None
        } else if event.kind == EV_REL && event.code == REL_WHEEL {
            Some(Motion::Zoom(event_value(event.value)))
        } else if event.kind == EV_KEY && event.code == KEY_SPACE && event.value == 1 {
            self.spin = !self.spin;
            None
        } else {
            None
        }
    }

    /// Takes in a frame's events and returns the motions that they ask for, or
    /// `None`, with nothing taken in, where a drag's distance cannot be held.
    pub fn frame(&mut self, state: &SharedState) -> (asked: Option<Vec<Motion>>)
        ensures
            drags_fit(*old(self), pending_events(*state)) ==> (asked matches Some(list) && list@
                == motions(*old(self), pending_events(*state)) && *final(self) == orbit_after_all(
                *old(self),
                pending_events(*state),
            )),
            !drags_fit(*old(self), pending_events(*state)) ==> asked is None && *final(self)
                == *old(self),
    {
        let n: usize = state.pending();
        let ghost events = pending_events(*state);
        let start: Orbit = *self;
        let mut o: Orbit = *self;
        let mut list: Vec<Motion> = Vec::new();
        let mut i: usize = 0;
        proof {
            assert(events.take(0) =~= Seq::<InputEvent>::empty());
        }
        while i < n
            invariant
                i <= n <= 256,
                start == *old(self),
                *self == start,
                events == pending_events(*state),
                n == events.len(),
                events == state.events@.take(n as int),
                o == orbit_after_all(start, events.take(i as int)),
                list@ == motions(start, events.take(i as int)),
                drags_fit(start, events.take(i as int)),
            decreases n - i,
        {
            let event: InputEvent = state.events[i];
            proof {
                assert(event == events[i as int]);
                assert(events.take(i + 1).drop_last() =~= events.take(i as int));
                assert(events.take(i + 1).last() == event);
            }
            if !o.accepts(event) {
                proof {
                    if drags_fit(start, events) {
                        lemma_drags_fit_prefix(start, events, i + 1);
                    }
                }
                return None;
            }
            match o.event(event) {
                Some(m) => {
                    list.push(m);
                },
                None => {},
            }
            i = i + 1;
        }
        proof {
            assert(events.take(n as int) =~= events);
        }
        *self = o;
        Some(list)
    }
}

/// As long as the button stays up, nothing but the wheel moves the camera.
pub proof fn law_only_drags_turn(o: Orbit, events: Seq<InputEvent>, n: int)
    requires
        !o.down,
        forall|i: int|
            0 <= i < events.len() ==> !((#[trigger] events[i]).kind == EV_KEY && events[i].code
                == BTN_LEFT),
        0 <= n < motions(o, events).len(),
    ensures
        motions(o, events)[n] is Zoom,
        !orbit_after_all(o, events).down,
    decreases events.len(),
{
    let init = events.drop_last();
    assert forall|i: int| 0 <= i < init.len() implies !((#[trigger] init[i]).kind == EV_KEY
        && init[i].code == BTN_LEFT) by {
        assert(init[i] == events[i]);
    }
    lemma_button_stays_up(o, init);
    assert(events[events.len() - 1] == events.last());
    if n < motions(o, init).len() {
        law_only_drags_turn(o, init, n);
    }
}

proof fn lemma_button_stays_up(o: Orbit, events: Seq<InputEvent>)
    requires
        !o.down,
        forall|i: int|
            0 <= i < events.len() ==> !((#[trigger] events[i]).kind == EV_KEY && events[i].code
                == BTN_LEFT),
    ensures
        !orbit_after_all(o, events).down,
    decreases events.len(),
{
    if events.len() > 0 {
        let init = events.drop_last();
        assert forall|i: int| 0 <= i < init.len() implies !((#[trigger] init[i]).kind == EV_KEY
            && init[i].code == BTN_LEFT) by {
            assert(init[i] == events[i]);
        }
        lemma_button_stays_up(o, init);
        assert(events[events.len() - 1] == events.last());
    }
}

/// Moving the pointer with the button up asks for no motion, however many events
/// report it: the button stays up and the spin as it was.
pub proof fn law_moves_without_button(o: Orbit, events: Seq<InputEvent>)
    requires
        !o.down,
        forall|i: int| 0 <= i < events.len() ==> (#[trigger] events[i]).kind == EV_ABS,
    ensures
        drags_fit(o, events),
        motions(o, events) == Seq::<Motion>::empty(),
        !orbit_after_all(o, events).down,
        orbit_after_all(o, events).spin == o.spin,
    decreases events.len(),
{
    if events.len() > 0 {
        let init = events.drop_last();
        assert forall|i: int| 0 <= i < init.len() implies (#[trigger] init[i]).kind == EV_ABS by {
            assert(init[i] == events[i]);
        }
        law_moves_without_button(o, init);
        assert(events[events.len() - 1] == events.last());
    }
}

/// The input state after a list of frames, each with its events.
pub open spec fn orbit_after_frames(o: Orbit, frames: Seq<Seq<InputEvent>>) -> Orbit
    decreases frames.len(),
{
    if frames.len() == 0 {
        o
    } else {
        orbit_after_all(orbit_after_frames(o, frames.drop_last()), frames.last())
    }
}

/// Once the spin is off, the torus stands still. Where the first frame of a fresh
/// state brings one press of the space bar, and later frames nothing but pointer
/// positions, no frame asks for a motion and none finds the spin on, so nothing
/// that the camera is computed from ever changes.
pub proof fn law_still_without_spin(frames: Seq<Seq<InputEvent>>, n: int)
    requires
        0 <= n < frames.len(),
        frames[0].len() == 1,
        frames[0][0] == (InputEvent { kind: EV_KEY, code: KEY_SPACE, value: 1 }),
        forall|m: int, i: int|
            1 <= m < frames.len() && 0 <= i < frames[m].len() ==> (#[trigger] frames[m][i]).kind
                == EV_ABS,
    ensures
        ({
            let fresh = Orbit { mouse_x: 0, mouse_y: 0, down: false, spin: true };
            let before = orbit_after_frames(fresh, frames.take(n));
            let after = orbit_after_frames(fresh, frames.take(n + 1));
            &&& drags_fit(before, frames[n])
            &&& motions(before, frames[n]) == Seq::<Motion>::empty()
            &&& !after.spin
            &&& !after.down
        }),
    decreases n,
{
    let fresh = Orbit { mouse_x: 0, mouse_y: 0, down: false, spin: true };
    let before = orbit_after_frames(fresh, frames.take(n));
    assert(frames.take(n + 1).drop_last() =~= frames.take(n));
    assert(frames.take(n + 1).last() == frames[n]);
    if n == 0 {
        let events = frames[0];
        assert(events.drop_last() =~= Seq::<InputEvent>::empty());
        assert(events.last() == events[0]);
        reveal_with_fuel(orbit_after_all, 2);
        reveal_with_fuel(motions, 2);
        reveal_with_fuel(drags_fit, 2);
    } else {
        law_still_without_spin(frames, n - 1);
        assert forall|i: int| 0 <= i < frames[n].len() implies (#[trigger] frames[n][i]).kind
            == EV_ABS by {}
        law_moves_without_button(before, frames[n]);
    }
}

/// The sum of what the drags of a list of motions turn to the side.
pub open spec fn total_yaw(list: Seq<Motion>) -> int
    decreases list.len(),
{
    if list.len() == 0 {
        0
    } else {
        total_yaw(list.drop_last()) + match list.last() {
            Motion::Yaw(d) => d as int,
            _ => 0,
        }
    }
}

/// The sum of what the drags of a list of motions turn up or down.
pub open spec fn total_pitch(list: Seq<Motion>) -> int
    decreases list.len(),
{
    if list.len() == 0 {
        0
    } else {
        total_pitch(list.drop_last()) + match list.last() {
            Motion::Pitch(d) => d as int,
            _ => 0,
        }
    }
}

/// A drag turns by the way that the pointer has gone, however many events report
/// it: while the button stays down, the sum of the turns is the difference of
/// the positions.
pub proof fn law_drag_adds_up(o: Orbit, events: Seq<InputEvent>)
    requires
        o.down,
        drags_fit(o, events),
        forall|i: int|
            0 <= i < events.len() ==> !((#[trigger] events[i]).kind == EV_KEY && events[i].code
                == BTN_LEFT),
    ensures
        orbit_after_all(o, events).down,
        total_yaw(motions(o, events)) == orbit_after_all(o, events).mouse_x - o.mouse_x,
        total_pitch(motions(o, events)) == orbit_after_all(o, events).mouse_y - o.mouse_y,
    decreases events.len(),
{
    if events.len() > 0 {
        let init = events.drop_last();
        let last = events.last();
        assert forall|i: int| 0 <= i < init.len() implies !((#[trigger] init[i]).kind == EV_KEY
            && init[i].code == BTN_LEFT) by {
            assert(init[i] == events[i]);
        }
        law_drag_adds_up(o, init);
        assert(events[events.len() - 1] == last);
        let before = motions(o, init);
        let at = orbit_after_all(o, init);
        if let Some(m) = motion(at, last) {
            assert(before.push(m).drop_last() =~= before);
        }
    }
}

/// A triangle is drawn exactly where none of its corners lies behind the viewer
/// and it faces the viewer.
pub proof fn law_drawn(behind: Seq<bool>, front: bool)
    ensures
        drawn(behind, front) ==> front,
        drawn(behind, front) ==> forall|i: int| 0 <= i < 3 ==> !#[trigger] behind[i],
        front && (forall|i: int| 0 <= i < 3 ==> !#[trigger] behind[i]) ==> drawn(behind, front),
{
}

/// A triangle is seen wherever it is nearer than what was there: a pixel of the
/// picture within its bounds takes the triangle's depth, whatever its size, and
/// its color. Where the triangle is not nearer or does not cover the pixel, outside
/// its bounds, and where it is not drawn, the pixel stays.
pub proof fn law_nearer_is_seen<F: Fn(usize, usize) -> Option<u32>>(
    fb: Seq<u32>,
    zb: Seq<u32>,
    fb2: Seq<u32>,
    zb2: Seq<u32>,
    shown: bool,
    b: Bounds,
    sample: F,
    color: u32,
    x: usize,
    y: usize,
    s: Option<u32>,
)
    requires
        steady(sample),
        filled(fb, zb, fb2, zb2, shown, b, sample, color),
        x < 640 && y < 480,
        y * 640 + x < fb.len() && y * 640 + x < zb.len(),
        call_ensures(sample, (x, y), s),
    ensures
        ({
            let k = y * 640 + x;
            let inside = b.min_x <= x && x <= b.max_x && b.min_y <= y && y <= b.max_y;
            let nearer = s matches Some(d) && d > zb[k];
            &&& fb2.len() == fb.len() && zb2.len() == zb.len()
            &&& shown && inside && nearer ==> s == Some(zb2[k]) && fb2[k] == color
            &&& !(shown && inside && nearer) ==> zb2[k] == zb[k] && fb2[k] == fb[k]
        }),
{
    let k = y * 640 + x;
    assert(k % 640 == x && k / 640 == y);
    if shown {
        assert(pixel_filled(fb, zb, fb2, zb2, b, sample, color, k));
    }
}

/// What lies behind the last pixel of the picture is never touched by a triangle.
pub proof fn law_behind_picture_untouched<F: Fn(usize, usize) -> Option<u32>>(
    fb: Seq<u32>,
    zb: Seq<u32>,
    fb2: Seq<u32>,
    zb2: Seq<u32>,
    shown: bool,
    b: Bounds,
    sample: F,
    color: u32,
    k: int,
)
    requires
        filled(fb, zb, fb2, zb2, shown, b, sample, color),
        307_200 <= k,
    ensures
        k < fb.len() ==> fb2[k] == fb[k],
        k < zb.len() ==> zb2[k] == zb[k],
{
}

/// Every pixel of a cleared row has the color that was computed for that row.
pub proof fn law_row_cleared<F: Fn(usize) -> u32>(fb: Seq<u32>, row_color: F, x: usize, y: usize)
    requires
        row_cleared(fb, row_color, y),
        x < 640,
    ensures
        call_ensures(row_color, (y,), fb[y * 640 + x]),
{
    let c = choose|c: u32|
        #[trigger] call_ensures(row_color, (y,), c) && forall|k: int|
            y * 640 <= k < y * 640 + 640 ==> #[trigger] fb[k] == c;
    assert(fb[y * 640 + x] == c);
}

/// The vertices of a patch, by number: 24 for each segment around the ring, the
/// segments of the tube in between, and both wrapping around at their ends; and
/// its two triangles, which share the edge from the second corner to the third.
pub proof fn law_patch(p: Patch, i: int, j: int)
    requires
        0 <= i < 48,
        0 <= j < 24,
        is_patch(p, i, j),
    ensures
        ({
            let i1 = if i == 47 {
                0
            } else {
                i + 1
            };
            let j1 = if j == 23 {
                0
            } else {
                j + 1
            };
            &&& p.corners@[0] == 24 * i + j
            &&& p.corners@[1] == 24 * i1 + j
            &&& p.corners@[2] == 24 * i + j1
            &&& p.corners@[3] == 24 * i1 + j1
            &&& p.first@[0] == 24 * i + j && p.first@[1] == 24 * i1 + j && p.first@[2] == 24 * i + j1
            &&& p.second@[0] == 24 * i + j1 && p.second@[1] == 24 * i1 + j && p.second@[2] == 24 * i1
                + j1
        }),
{
}

/// The colors make a checkerboard of fields of four by four patches: patches of one
/// field agree, those of neighbouring fields differ, and the field at the origin
/// has the first color.
pub proof fn law_checkered(p: Patch, q: Patch, i: int, j: int, k: int, l: int)
    requires
        0 <= i < 48 && 0 <= j < 24 && 0 <= k < 48 && 0 <= l < 24,
        is_patch(p, i, j),
        is_patch(q, k, l),
    ensures
        i < 4 && j < 4 ==> p.first_color,
        i / 4 == k / 4 && j / 4 == l / 4 ==> p.first_color == q.first_color,
        k == i + 4 && l == j ==> p.first_color != q.first_color,
        k == i && l == j + 4 ==> p.first_color != q.first_color,
{
}

/// Pointer, button and spin after a list of events: each coordinate as the last
/// event of its axis gave it, as a signed number; the button as its last event
/// says; and without such an event as before.
pub proof fn law_orbit_follows(o: Orbit, events: Seq<InputEvent>, i: int)
    ensures
        ({
            let after = orbit_after_all(o, events);
            let v = events[i].value;
            let given = 0 <= i < events.len();
            &&& given && moves(events[i], 0) && (forall|n: int|
                i < n < events.len() ==> !moves(#[trigger] events[n], 0)) ==> after.mouse_x == v
                || after.mouse_x == v - 0x1_0000_0000
            &&& given && moves(events[i], 1) && (forall|n: int|
                i < n < events.len() ==> !moves(#[trigger] events[n], 1)) ==> after.mouse_y == v
                || after.mouse_y == v - 0x1_0000_0000
            &&& given && button(events[i]) && (forall|n: int|
                i < n < events.len() ==> !button(#[trigger] events[n])) ==> after.down == (v == 1)
            &&& (forall|n: int| 0 <= n < events.len() ==> !moves(#[trigger] events[n], 0))
                ==> after.mouse_x == o.mouse_x
            &&& (forall|n: int| 0 <= n < events.len() ==> !moves(#[trigger] events[n], 1))
                ==> after.mouse_y == o.mouse_y
            &&& (forall|n: int| 0 <= n < events.len() ==> !button(#[trigger] events[n]))
                ==> after.down == o.down
        }),
    decreases events.len(),
{
    if events.len() > 0 {
        let init = events.drop_last();
        law_orbit_follows(o, init, i);
        assert(events.last() == events[events.len() - 1]);
        assert(forall|n: int| 0 <= n < init.len() ==> init[n] == #[trigger] events[n]);
    }
}

/// The spin changes with each press of the space bar (key 57), and with nothing
/// else.
pub proof fn law_space_toggles_spin(o: Orbit, events: Seq<InputEvent>)
    ensures
        ({
            let presses = events.filter(
                |e: InputEvent| e.kind == 1 && e.code == 57 && e.value == 1,
            ).len();
            orbit_after_all(o, events).spin == if presses % 2 == 0 {
                o.spin
            } else {
                !o.spin
            }
        }),
    decreases events.len(),
{
    reveal(Seq::filter);
    if events.len() > 0 {
        law_space_toggles_spin(o, events.drop_last());
    }
}

/// What one more event asks for, after the others: a position with the button down
/// turns by the distance from the last position along its axis, the wheel (type 2,
/// code 8) zooms by its signed number of steps, and nothing else asks for anything.
pub proof fn law_event_asks(o: Orbit, events: Seq<InputEvent>, e: InputEvent)
    requires
        drags_fit(o, events.push(e)),
    ensures
        ({
            let at = orbit_after_all(o, events);
            let before = motions(o, events);
            let after = motions(o, events.push(e));
            let turns = at.down && (moves(e, 0) || moves(e, 1));
            let zooms = e.kind == 2 && e.code == 8;
            &&& !turns && !zooms ==> after == before
            &&& turns || zooms ==> after.len() == before.len() + 1 && after.drop_last() == before
            &&& at.down && moves(e, 0) ==> (after.last() matches Motion::Yaw(d) && (d + at.mouse_x
                == e.value || d + at.mouse_x == e.value - 0x1_0000_0000) && -0x8000_0000 <= d
                + at.mouse_x < 0x8000_0000)
            &&& at.down && moves(e, 1) ==> (after.last() matches Motion::Pitch(d) && (d + at.mouse_y
                == e.value || d + at.mouse_y == e.value - 0x1_0000_0000) && -0x8000_0000 <= d
                + at.mouse_y < 0x8000_0000)
            &&& zooms ==> (after.last() matches Motion::Zoom(n) && (n == e.value || n == e.value
                - 0x1_0000_0000))
            &&& motions(o, Seq::empty()) == Seq::<Motion>::empty()
        }),
{
    let all = events.push(e);
    assert(all.drop_last() =~= events);
    assert(all.last() == e);
    let before = motions(o, events);
    if let Some(m) = motion(orbit_after_all(o, events), e) {
        assert(before.push(m).drop_last() =~= before);
    }
}

/// Drags between positions of a picture of any size can always be held: where the
/// pointer starts at no negative position and every position is none, no frame is
/// turned down.
pub proof fn law_drags_on_screen_fit(o: Orbit, events: Seq<InputEvent>)
    requires
        o.mouse_x >= 0 && o.mouse_y >= 0,
        forall|n: int|
            0 <= n < events.len() && (#[trigger] events[n]).kind == 3 ==> events[n].value
                < 0x8000_0000,
    ensures
        drags_fit(o, events),
        orbit_after_all(o, events).mouse_x >= 0 && orbit_after_all(o, events).mouse_y >= 0,
    decreases events.len(),
{
    if events.len() > 0 {
        let init = events.drop_last();
        assert(forall|n: int| 0 <= n < init.len() ==> init[n] == #[trigger] events[n]);
        law_drags_on_screen_fit(o, init);
        assert(events.last() == events[events.len() - 1]);
    }
}

/// Event number `n` is a drag over a distance that an `i32` cannot hold.
pub open spec fn long_drag(o: Orbit, events: Seq<InputEvent>, n: int) -> bool {
    let at = orbit_after_all(o, events.take(n));
    let v = if events[n].value < 0x8000_0000 {
        events[n].value as int
    } else {
        events[n].value - 0x1_0000_0000
    };
    let d = if events[n].code == 0 {
        v - at.mouse_x
    } else {
        v - at.mouse_y
    };
    &&& at.down
    &&& moves(events[n], 0) || moves(events[n], 1)
    &&& d < -0x8000_0000 || d > 0x7fff_ffff
}

/// A frame is turned down exactly where some drag is longer than an `i32` can
/// hold.
pub proof fn law_long_drag_is_turned_down(o: Orbit, events: Seq<InputEvent>)
    ensures
        drags_fit(o, events) <==> forall|n: int|
            0 <= n < events.len() ==> !#[trigger] long_drag(o, events, n),
    decreases events.len(),
{
    if events.len() > 0 {
        let init = events.drop_last();
        let last = events.len() - 1;
        law_long_drag_is_turned_down(o, init);
        assert(events.take(last) =~= init);
        assert(events.last() == events[last]);
        assert forall|n: int| 0 <= n < last implies long_drag(o, init, n) == #[trigger] long_drag(
            o,
            events,
            n,
        ) by {
            assert(init.take(n) =~= events.take(n));
            assert(init[n] == events[n]);
        }
        assert(drag_fits(orbit_after_all(o, init), events.last()) == !long_drag(o, events, last));
        if forall|n: int| 0 <= n < events.len() ==> !#[trigger] long_drag(o, events, n) {
            assert forall|n: int| 0 <= n < init.len() implies !#[trigger] long_drag(o, init, n) by {
                assert(!long_drag(o, events, n));
            }
        }
        if drags_fit(o, events) {
            assert forall|n: int| 0 <= n < events.len() implies !#[trigger] long_drag(
                o,
                events,
                n,
            ) by {
                if n < last {
                    assert(!long_drag(o, init, n));
                }
            }
        }
    }
}

} // verus!
