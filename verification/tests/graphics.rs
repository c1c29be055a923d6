use rust_kvm_os::abi::{InputEvent, SharedState, MAX_EVENTS};
use rust_kvm_os::canvas::{
    crosshair, hue_to_rgb, paint_background, rgb, show_canvas, stamp, stroke, PIXELS,
};
use rust_kvm_os::paint::{draw_line, event_value, FramePlan, Painter};
use rust_kvm_os::torus::{
    clear, fill_triangle, first_color, patches, quad, triangles, Bounds, Motion, Orbit, SEG_U, SEG_V, VERTS,
};

fn at(x: usize, y: usize) -> usize {
    y * 640 + x
}

fn count(picture: &[u32], color: u32) -> usize {
    picture.iter().filter(|c| **c == color).count()
}

fn mailbox(list: &[(u16, u16, u32)]) -> SharedState {
    let mut events = [InputEvent { kind: 0, code: 0, value: 0 }; MAX_EVENTS];
    for (slot, e) in events.iter_mut().zip(list) {
        *slot = InputEvent { kind: e.0, code: e.1, value: e.2 };
    }
    SharedState { frame: 0, time_ns: 0, event_count: list.len() as u32, _pad: 0, events }
}

#[test]
fn stamp_fills_a_disc() {
    let mut p = vec![0u32; PIXELS + 1];
    stamp(&mut p, 100, 50, 2, 9);
    assert_eq!(count(&p, 9), 13);
    assert_eq!(p[at(102, 50)], 9);
    assert_eq!(p[at(101, 51)], 9);
    assert_eq!(p[at(102, 51)], 0);
    assert_eq!(p[at(103, 50)], 0);
    stamp(&mut p, 10, 10, 0, 8);
    assert_eq!(count(&p, 8), 1);
    stamp(&mut p, 10, 10, -3, 7);
    assert_eq!(count(&p, 7), 0);
}

#[test]
fn stamp_is_clipped_to_the_picture() {
    let mut p = vec![0u32; PIXELS + 640];
    stamp(&mut p, 0, 0, 1, 9);
    assert_eq!(count(&p, 9), 3);
    stamp(&mut p, 639, 479, 1, 8);
    assert_eq!(count(&p, 8), 3);
    stamp(&mut p, -5, 200, 3, 7);
    stamp(&mut p, i32::MAX, i32::MIN, 100, 7);
    assert_eq!(count(&p, 7), 0);
    stamp(&mut p, 320, 240, 30_000, 5);
    assert_eq!(count(&p, 5), PIXELS);
    assert_eq!(p[PIXELS], 0);
}

#[test]
fn stroke_joins_its_ends_without_gaps() {
    let mut p = vec![0u32; PIXELS];
    stroke(&mut p, (100, 100), (140, 117), 9);
    assert_eq!(p[at(100, 100)], 9);
    assert_eq!(p[at(94, 100)], 9);
    assert_eq!(p[at(93, 100)], 0);
    assert_eq!(p[at(146, 117)], 9);
    assert_eq!(p[at(147, 117)], 0);
    for x in 100..=140 {
        assert_eq!(p[at(x, 100 + (x - 100) * 17 / 40)], 9);
    }
    let mut q = vec![0u32; PIXELS];
    stroke(&mut q, (140, 117), (100, 100), 9);
    assert_eq!(q[at(100, 100)], 9);
    assert_eq!(q[at(94, 100)], 9);
}

#[test]
fn stroke_of_a_point_is_a_dot() {
    let mut p = vec![0u32; PIXELS];
    stroke(&mut p, (300, 200), (300, 200), 9);
    let mut q = vec![0u32; PIXELS];
    stamp(&mut q, 300, 200, 6, 9);
    assert!(p == q);
    assert_eq!(count(&p, 9), 113);
}

#[test]
fn crosshair_leaves_its_centre_free() {
    let mut p = vec![0u32; PIXELS];
    crosshair(&mut p, 50, 60, 9);
    assert_eq!(count(&p, 9), 24);
    assert_eq!(p[at(50, 60)], 0);
    assert_eq!(p[at(52, 60)], 0);
    assert_eq!(p[at(53, 60)], 9);
    assert_eq!(p[at(58, 60)], 9);
    assert_eq!(p[at(59, 60)], 0);
    assert_eq!(p[at(50, 52)], 9);
    assert_eq!(p[at(51, 52)], 0);
    let mut p = vec![0u32; PIXELS];
    crosshair(&mut p, 0, 479, 9);
    assert_eq!(count(&p, 9), 12);
    crosshair(&mut p, i32::MAX, i32::MIN, 8);
    assert_eq!(count(&p, 8), 0);
}

#[test]
fn colors_are_packed_as_0rgb() {
    assert_eq!(rgb(0x12, 0x34, 0x56), 0x12_3456);
    assert_eq!(rgb(255, 255, 255), 0xff_ffff);
    let x = 0x20;
    assert_eq!(hue_to_rgb(0, x), 0xff_2000);
    assert_eq!(hue_to_rgb(1, x), 0x20_ff00);
    assert_eq!(hue_to_rgb(2, x), 0x00_ff20);
    assert_eq!(hue_to_rgb(3, x), 0x00_20ff);
    assert_eq!(hue_to_rgb(4, x), 0x20_00ff);
    assert_eq!(hue_to_rgb(5, x), 0xff_0020);
    assert_eq!(hue_to_rgb(-1, x), 0xff_0020);
}

#[test]
fn background_is_computed_for_every_pixel() {
    let mut p = vec![0xffff_ffffu32; PIXELS + 2];
    paint_background(&mut p, |x, y| (y * 1000 + x) as u32);
    assert_eq!(p[0], 0);
    assert_eq!(p[at(639, 479)], 479_639);
    assert_eq!(p[at(7, 3)], 3007);
    assert_eq!(p[PIXELS], 0xffff_ffff);
}

#[test]
fn canvas_is_shown_with_a_crosshair_over_it() {
    let canvas = vec![3u32; PIXELS];
    let mut fb = vec![0u32; PIXELS];
    show_canvas(&mut fb, &canvas, (320, 240), 9);
    assert_eq!(count(&fb, 9), 24);
    assert_eq!(count(&fb, 3), PIXELS - 24);
    assert_eq!(fb[at(325, 240)], 9);
}

#[test]
fn pointer_stays_on_the_picture() {
    let mut p = Painter::new();
    assert_eq!((p.mouse, p.prev, p.down), ((320, 240), (320, 240), false));
    p.frame(&mailbox(&[(3, 0, 5000), (3, 1, 0xffff_fff0)]));
    assert_eq!(p.mouse, (639, 0));
    p.frame(&mailbox(&[(3, 0, 0x8000_0000), (3, 1, 480)]));
    assert_eq!(p.mouse, (0, 479));
    assert_eq!(event_value(0xffff_ffff), -1);
    assert_eq!(event_value(0x8000_0000), i32::MIN);
}

#[test]
fn press_starts_a_line_of_its_own() {
    let mut p = Painter::new();
    let plan = p.frame(&mailbox(&[(3, 0, 10), (3, 1, 20), (1, 0x110, 1), (3, 0, 30)]));
    assert_eq!(plan.line, Some(((10, 20), (30, 20))));
    let plan = p.frame(&mailbox(&[(3, 0, 40)]));
    assert_eq!(plan.line, Some(((30, 20), (40, 20))));
    let plan = p.frame(&mailbox(&[(1, 0x110, 0), (3, 0, 90)]));
    assert_eq!(plan.line, None);
    let plan = p.frame(&mailbox(&[(1, 0x110, 2)]));
    assert_eq!((plan.line, p.down), (None, false));
}

#[test]
fn keys_step_the_hue_and_clear_the_canvas() {
    let mut p = Painter::new();
    let plan = p.frame(&mailbox(&[(1, 46, 1), (1, 46, 0), (1, 46, 2), (1, 46, 1), (1, 57, 0)]));
    assert_eq!(plan, FramePlan { hue_steps: 2, clear: false, line: None });
    let plan = p.frame(&mailbox(&[(1, 57, 1), (2, 46, 1)]));
    assert_eq!(plan, FramePlan { hue_steps: 0, clear: true, line: None });
    let mut late = mailbox(&[(1, 46, 1)]);
    late.event_count = 0;
    assert_eq!(p.frame(&late).hue_steps, 0);
}

#[test]
fn plan_with_a_line_is_drawn() {
    let mut canvas = vec![0u32; PIXELS];
    draw_line(&mut canvas, &FramePlan { hue_steps: 0, clear: false, line: None }, 9);
    assert_eq!(count(&canvas, 9), 0);
    draw_line(
        &mut canvas,
        &FramePlan { hue_steps: 0, clear: false, line: Some(((100, 100), (100, 100))) },
        9,
    );
    assert_eq!(count(&canvas, 9), 113);
}

#[test]
fn mesh_wraps_around_both_ways() {
    assert_eq!(quad(0, 0), [0, 24, 1, 25]);
    assert_eq!(quad(47, 23), [47 * 24 + 23, 23, 47 * 24, 0]);
    assert_eq!(triangles(&[5, 6, 7, 8]), ([5, 6, 7], [7, 6, 8]));
    assert!(first_color(0, 0));
    assert!(!first_color(4, 0));
    assert!(!first_color(3, 4));
    assert!(first_color(4, 4));
    let list = patches();
    assert_eq!(list.len(), SEG_U * SEG_V);
    assert_eq!(list.len(), VERTS);
    let mut uses = vec![0; VERTS];
    for p in &list {
        for c in p.corners {
            uses[c] += 1;
        }
        assert_eq!(triangles(&p.corners), (p.first, p.second));
    }
    assert!(uses.iter().all(|n| *n == 4));
    assert_eq!(list[25].corners, quad(1, 1));
    assert_eq!(list[4].first_color, false);
}

#[test]
fn nearer_samples_win_whatever_the_order() {
    let b = Bounds { min_x: 1, min_y: 2, max_x: 3, max_y: 2 };
    for far_first in [true, false] {
        let mut fb = vec![0u32; PIXELS];
        let mut zb = vec![0u32; PIXELS];
        let draws: [(u32, u32); 2] = if far_first { [(10, 1), (20, 2)] } else { [(20, 2), (10, 1)] };
        for (depth, color) in draws {
            let covers = |x: usize, _y: usize| if x == 3 { None } else { Some(depth) };
            fill_triangle(&mut fb, &mut zb, [false; 3], true, b, covers, color);
        }
        assert_eq!(count(&fb, 2), 2);
        assert_eq!(fb[at(1, 2)], 2);
        assert_eq!(fb[at(2, 2)], 2);
        assert_eq!(fb[at(3, 2)], 0);
        assert_eq!(zb[at(1, 2)], 20);
        assert_eq!(zb[at(3, 2)], 0);
    }
}

#[test]
fn triangle_is_clipped_to_the_picture() {
    let mut fb = vec![0u32; PIXELS + 1];
    let mut zb = vec![0u32; PIXELS + 1];
    let b = Bounds { min_x: 638, min_y: 479, max_x: 9999, max_y: usize::MAX };
    fill_triangle(&mut fb, &mut zb, [false; 3], true, b, |_, _| Some(1), 7);
    assert_eq!(count(&fb, 7), 2);
    assert_eq!(fb[at(639, 479)], 7);
    let off = Bounds { min_x: 640, min_y: 0, max_x: 700, max_y: 5 };
    fill_triangle(&mut fb, &mut zb, [false; 3], true, off, |_, _| Some(9), 8);
    let below = Bounds { min_x: 0, min_y: 480, max_x: 5, max_y: 500 };
    fill_triangle(&mut fb, &mut zb, [false; 3], true, below, |_, _| Some(9), 8);
    assert_eq!(count(&fb, 8), 0);
}

#[test]
fn triangles_behind_or_facing_away_are_not_drawn() {
    let mut fb = vec![0u32; PIXELS];
    let mut zb = vec![0u32; PIXELS];
    let b = Bounds { min_x: 0, min_y: 0, max_x: 5, max_y: 5 };
    fill_triangle(&mut fb, &mut zb, [false, false, true], true, b, |_, _| Some(1), 7);
    fill_triangle(&mut fb, &mut zb, [false; 3], false, b, |_, _| Some(1), 7);
    fill_triangle(&mut fb, &mut zb, [false; 3], true, b, |_, _| Some(0), 7);
    assert_eq!(count(&fb, 7), 0);
    assert!(zb.iter().all(|z| *z == 0));
}

#[test]
fn clearing_colors_rows_and_forgets_depths() {
    let mut fb = vec![1u32; PIXELS + 1];
    let mut zb = vec![1u32; PIXELS];
    clear(&mut fb, &mut zb, |y| y as u32 + 100);
    assert_eq!(fb[at(0, 0)], 100);
    assert_eq!(fb[at(639, 0)], 100);
    assert_eq!(fb[at(0, 479)], 579);
    assert_eq!(fb[PIXELS], 1);
    assert!(zb.iter().all(|z| *z == 0));
}

#[test]
fn drags_turn_and_the_wheel_zooms() {
    let mut o = Orbit::new();
    assert_eq!(o, Orbit { mouse_x: 0, mouse_y: 0, down: false, spin: true });
    let asked = o.frame(&mailbox(&[(3, 0, 10), (3, 1, 20), (2, 8, 0xffff_ffff)])).unwrap();
    assert_eq!(asked, vec![Motion::Zoom(-1)]);
    let asked = o
        .frame(&mailbox(&[(1, 0x110, 1), (3, 0, 15), (3, 1, 18), (3, 0, 11), (1, 0x110, 0), (3, 0, 99)]))
        .unwrap();
    assert_eq!(asked, vec![Motion::Yaw(5), Motion::Pitch(-2), Motion::Yaw(-4)]);
    assert_eq!((o.mouse_x, o.mouse_y, o.down), (99, 18, false));
}

#[test]
fn space_toggles_the_spin() {
    let mut o = Orbit::new();
    o.frame(&mailbox(&[(1, 57, 1), (1, 57, 0)])).unwrap();
    assert!(!o.spin);
    o.frame(&mailbox(&[(1, 57, 1), (1, 57, 2)])).unwrap();
    assert!(o.spin);
}

#[test]
fn drag_too_long_to_hold_is_not_taken_in() {
    let mut o = Orbit::new();
    o.frame(&mailbox(&[(3, 0, 1), (1, 0x110, 1)])).unwrap();
    let before = o;
    let jump = InputEvent { kind: 3, code: 0, value: 0x8000_0000 };
    assert!(!o.accepts(jump));
    assert_eq!(o.frame(&mailbox(&[(1, 57, 1), (3, 0, 0x8000_0000)])), None);
    assert_eq!(o, before);
    assert!(o.accepts(InputEvent { kind: 3, code: 0, value: 0x8000_0001 }));
    assert_eq!(o.event(InputEvent { kind: 3, code: 0, value: 0x8000_0001 }), Some(Motion::Yaw(i32::MIN)));
}

#[test]
fn later_paint_covers_earlier_paint() {
    let mut p = vec![0u32; PIXELS];
    stamp(&mut p, 100, 100, 5, 1);
    stamp(&mut p, 104, 100, 5, 2);
    assert_eq!(p[at(96, 100)], 1);
    assert_eq!(p[at(102, 100)], 2);
    assert_eq!(p[at(109, 100)], 2);
    assert_eq!(p[at(110, 100)], 0);
}

#[test]
fn channels_read_back() {
    let color = rgb(250, 128, 3);
    assert_eq!((color % 0x100, color / 0x100 % 0x100, color / 0x1_0000), (3, 128, 250));
}

#[test]
fn neighbouring_patches_share_edges_and_vertices_differ() {
    for (i, j) in [(0, 0), (47, 23), (12, 23), (47, 5)] {
        let (q, ring, tube) = (quad(i, j), quad((i + 1) % 48, j), quad(i, (j + 1) % 24));
        assert_eq!((q[1], q[3]), (ring[0], ring[2]));
        assert_eq!((q[2], q[3]), (tube[0], tube[1]));
    }
    let mut first: Vec<usize> = patches().iter().map(|p| p.corners[0]).collect();
    first.sort();
    first.dedup();
    assert_eq!(first.len(), VERTS);
}

#[test]
fn a_drag_turns_by_the_whole_way() {
    let mut o = Orbit::new();
    o.frame(&mailbox(&[(3, 0, 100), (3, 1, 50), (1, 0x110, 1)])).unwrap();
    let asked = o.frame(&mailbox(&[(3, 0, 90), (3, 1, 55), (3, 0, 140), (3, 1, 20)])).unwrap();
    let yaw: i32 = asked.iter().map(|m| if let Motion::Yaw(d) = m { *d } else { 0 }).sum();
    let pitch: i32 = asked.iter().map(|m| if let Motion::Pitch(d) = m { *d } else { 0 }).sum();
    assert_eq!((yaw, pitch), (40, -30));
}

#[test]
fn triangle_that_is_not_drawn_needs_no_picture() {
    let b = Bounds { min_x: 0, min_y: 0, max_x: 5, max_y: 5 };
    let (mut fb, mut zb) = (vec![1u32], Vec::new());
    fill_triangle(&mut fb, &mut zb, [true, false, false], true, b, |_, _| Some(9), 7);
    fill_triangle(&mut fb, &mut zb, [false; 3], false, b, |_, _| Some(9), 7);
    assert_eq!((fb, zb), (vec![1], vec![]));
}

#[test]
fn same_triangle_drawn_again_changes_nothing() {
    let b = Bounds { min_x: 2, min_y: 1, max_x: 8, max_y: 3 };
    let sample = |x: usize, y: usize| if x % 2 == 0 { Some((x + y) as u32) } else { None };
    let (mut fb, mut zb) = (vec![0u32; PIXELS], vec![0u32; PIXELS]);
    fill_triangle(&mut fb, &mut zb, [false; 3], true, b, sample, 7);
    let (fb1, zb1) = (fb.clone(), zb.clone());
    fill_triangle(&mut fb, &mut zb, [false; 3], true, b, sample, 8);
    assert!(fb == fb1 && zb == zb1);
    assert_eq!(count(&fb, 7), 12);
}

#[test]
fn overlapping_triangles_look_the_same_in_either_order() {
    let b = Bounds { min_x: 0, min_y: 0, max_x: 9, max_y: 9 };
    let c = Bounds { min_x: 5, min_y: 0, max_x: 14, max_y: 9 };
    let f = |x: usize, _y: usize| Some(x as u32 + 1);
    let g = |x: usize, y: usize| Some(20 - x as u32 + y as u32);
    let (mut fb, mut zb) = (vec![0u32; PIXELS], vec![0u32; PIXELS]);
    let (mut fb2, mut zb2) = (fb.clone(), zb.clone());
    fill_triangle(&mut fb, &mut zb, [false; 3], true, b, f, 1);
    fill_triangle(&mut fb, &mut zb, [false; 3], true, c, g, 2);
    fill_triangle(&mut fb2, &mut zb2, [false; 3], true, c, g, 2);
    fill_triangle(&mut fb2, &mut zb2, [false; 3], true, b, f, 1);
    assert!(zb == zb2);
    for k in 0..PIXELS {
        let (x, y) = (k % 640, k / 640);
        assert!(fb[k] == fb2[k] || f(x, y) == g(x, y));
    }
}

#[test]
fn torus_stands_still_without_spin() {
    let mut o = Orbit::new();
    assert_eq!(o.frame(&mailbox(&[(1, 57, 1)])), Some(vec![]));
    assert!(!o.spin);
    for x in [5, 0x8000_0000, 639, 0x7fff_ffff] {
        assert_eq!(o.frame(&mailbox(&[(3, 0, x), (3, 1, 7), (3, 9, x)])), Some(vec![]));
        assert!(!o.spin && !o.down);
    }
}

#[test]
fn hues_are_fully_saturated() {
    for sixth in -1..7 {
        for x in [0, 1, 128, 255] {
            let color = hue_to_rgb(sixth, x);
            let channels = [color % 0x100, color / 0x100 % 0x100, color / 0x1_0000];
            assert_eq!(channels.iter().max(), Some(&255));
            assert_eq!(channels.iter().min(), Some(&0));
        }
    }
}

#[test]
fn drawing_needs_only_the_pixels_it_touches() {
    let mut top = vec![0u32; 640 * 20];
    stamp(&mut top, 10, 10, 3, 9);
    stroke(&mut top, (20, 8), (40, 8), 9);
    crosshair(&mut top, 100, 10, 9);
    assert!(top[10 * 640 + 10] == 9 && top[8 * 640 + 40] == 9 && top[10 * 640 + 105] == 9);
    draw_line(&mut [], &FramePlan { hue_steps: 0, clear: false, line: None }, 9);
}

#[test]
fn same_scene_gives_the_same_picture() {
    let b = Bounds { min_x: 0, min_y: 0, max_x: 30, max_y: 30 };
    let (mut fb, mut zb) = (vec![3u32; PIXELS], vec![4u32; PIXELS]);
    let mut seen: Vec<Vec<u32>> = vec![];
    for _ in 0..2 {
        clear(&mut fb, &mut zb, |y| y as u32);
        fill_triangle(&mut fb, &mut zb, [false; 3], true, b, |x, y| Some((x * y) as u32), 1000);
        fill_triangle(&mut fb, &mut zb, [false; 3], true, b, |x, _| Some(10 * x as u32), 2000);
        seen.push(fb.clone());
    }
    assert!(seen[0] == seen[1]);
    assert_eq!((seen[0][at(3, 3)], seen[0][at(3, 20)], seen[0][at(0, 5)]), (2000, 1000, 5));
}
