//! The paint guest: what its input means.

use crate::abi::{InputEvent, SharedState, ABS_X, ABS_Y, BTN_LEFT, EV_ABS, EV_KEY, KEY_C, KEY_SPACE};
use crate::canvas::stroke;
use vstd::prelude::*;

use crate::abi::pending_events;
use crate::canvas::{painted, stroke_covers, stroke_fits, stroke_steps};

verus! {

/// The number that the bits of an event's value stand for as a signed one.
pub open spec fn signed_value(v: u32) -> int {
    if v <= 0x7fff_ffff {
        v as int
    } else {
        v - 0x1_0000_0000
    }
}

/// The event's value as a signed number.
pub fn event_value(v: u32) -> (n: i32)
    ensures
        n == signed_value(v),
{
    if v <= 0x7fff_ffff {
        v as i32
    } else {
        -1 - (0xffff_ffff - v) as i32
    }
}

/// The nearest number to `v` in `0..n`.
pub open spec fn clamped(v: int, n: int) -> int {
    if v < 0 {
        0
    } else if v >= n {
        n - 1
    } else {
        v
    }
}

fn clamp(v: i32, n: i32) -> (r: i32)
    requires
        n >= 1,
    ensures
        r == clamped(v as int, n as int),
{
    if v < 0 {
        0
    } else if v >= n {
        n - 1
    } else {
        v
    }
}

/// Where the pointer is, where it was when the last frame ended or the button
/// went down, and whether the button is down.
#[derive(Debug, Clone, Copy, PartialEq, Eq)]
pub struct Painter {
    pub mouse: (i32, i32),
    pub prev: (i32, i32),
    pub down: bool,
}

/// What a frame's input asks for: so many steps of the hue, then, where `clear`
/// is set, a fresh background, then perhaps a line.
#[derive(Debug, Clone, Copy, PartialEq, Eq)]
pub struct FramePlan {
    pub hue_steps: u32,
    pub clear: bool,
    pub line: Option<((i32, i32), (i32, i32))>,
}

/// The event is a press of the key.
pub open spec fn presses(event: InputEvent, key: u16) -> bool {
    event.kind == EV_KEY && event.code == key && event.value == 1
}

/// How often a key is pressed in a list of events.
pub open spec fn press_count(events: Seq<InputEvent>, key: u16) -> nat
    decreases events.len(),
{
    if events.len() == 0 {
        0
    } else {
        press_count(events.drop_last(), key) + if presses(events.last(), key) {
            1nat
        } else {
            0nat
        }
    }
}

/// What an event makes of the pointer. A press starts a line of its own: it is
/// not connected to the one before.
pub open spec fn after_event(p: Painter, event: InputEvent) -> Painter {
    if event.kind == EV_ABS && event.code == ABS_X {
        Painter { mouse: (clamped(signed_value(event.value), 640) as i32, p.mouse.1), ..p }
    } else if event.kind == EV_ABS && event.code == ABS_Y {
        Painter { mouse: (p.mouse.0, clamped(signed_value(event.value), 480) as i32), ..p }
    } else if event.kind == EV_KEY && event.code == BTN_LEFT {
        Painter {
            down: event.value == 1,
            prev: if event.value == 1 {
                p.mouse
            } else {
                p.prev
            },
            ..p
        }
    } else {
        p
    }
}

/// What a list of events makes of the pointer.
pub open spec fn after_events(p: Painter, events: Seq<InputEvent>) -> Painter
    decreases events.len(),
{
    if events.len() == 0 {
        p
    } else {
        after_event(after_events(p, events.drop_last()), events.last())
    }
}

/// What a frame with these events asks for.
pub open spec fn frame_plan(p: Painter, events: Seq<InputEvent>) -> FramePlan {
    let after = after_events(p, events);
    FramePlan {
        hue_steps: press_count(events, KEY_C) as u32,
        clear: press_count(events, KEY_SPACE) > 0,
        line: if after.down {
            Some((after.prev, after.mouse))
        } else {
            None
        },
    }
}

/// What a frame with these events leaves: the next line starts where the pointer
/// is.
pub open spec fn after_frame(p: Painter, events: Seq<InputEvent>) -> Painter {
    Painter { prev: after_events(p, events).mouse, ..after_events(p, events) }
}

/// The pointer is on the picture.
pub open spec fn on_picture(p: Painter) -> bool {
    &&& 0 <= p.mouse.0 < 640 && 0 <= p.mouse.1 < 480
    &&& 0 <= p.prev.0 < 640 && 0 <= p.prev.1 < 480
}

impl Painter {
    /// The pointer in the middle of the picture, the button up.
    pub fn new() -> (p: Painter)
        ensures
            p == (Painter { mouse: (320, 240), prev: (320, 240), down: false }),
            on_picture(p),
    {
        Painter { mouse: (320, 240), prev: (320, 240), down: false }
    }

    fn event(&mut self, event: InputEvent)
        ensures
            *final(self) == after_event(*old(self), event),
    {
        if event.kind == EV_ABS && event.code == ABS_X {
            self.mouse = (clamp(event_value(event.value), 640), self.mouse.1);
        } else if event.kind == EV_ABS && event.code == ABS_Y {
            self.mouse = (self.mouse.0, clamp(event_value(event.value), 480));
        } else if event.kind == EV_KEY && event.code == BTN_LEFT {
            self.down = event.value == 1;
            if self.down {
                self.prev = self.mouse;
            }
        }
    }

    /// Takes in a frame's events and says what to draw. The next line starts
    /// where this frame leaves the pointer.
    pub fn frame(&mut self, state: &SharedState) -> (plan: FramePlan)
        ensures
            plan == frame_plan(*old(self), pending_events(*state)),
            *final(self) == (Painter {
                prev: after_events(*old(self), pending_events(*state)).mouse,
                ..after_events(*old(self), pending_events(*state))
            }),
            *final(self) == after_frame(*old(self), pending_events(*state)),
    {
        let n: usize = state.pending();
        let ghost events = pending_events(*state);
        let mut hue_steps: u32 = 0;
        let mut clear: bool = false;
        let mut i: usize = 0;
        proof {
            assert(events.take(0) =~= Seq::<InputEvent>::empty());
        }
        while i < n
            invariant
                i <= n <= 256,
                events == pending_events(*state),
                n == events.len(),
                events == state.events@.take(n as int),
                hue_steps as nat == press_count(events.take(i as int), KEY_C),
                hue_steps <= i,
                clear == (press_count(events.take(i as int), KEY_SPACE) > 0),
                *self == after_events(*old(self), events.take(i as int)),
            decreases n - i,
        {
            let event: InputEvent = state.events[i];
            proof {
                assert(events.take(i + 1).drop_last() =~= events.take(i as int));
                assert(events.take(i + 1).last() == event);
            }
            self.event(event);
            if event.kind == EV_KEY && event.value == 1 {
                if event.code == KEY_C {
                    hue_steps = hue_steps + 1;
                } else if event.code == KEY_SPACE {
                    clear = true;
                }
            }
            i = i + 1;
        }
        proof {
            assert(events.take(n as int) =~= events);
        }
        let line: Option<((i32, i32), (i32, i32))> = if self.down {
            Some((self.prev, self.mouse))
        } else {
            None
        };
        self.prev = self.mouse;
        FramePlan { hue_steps, clear, line }
    }
}

/// Draws the line of a plan, if it has one.
pub fn draw_line(canvas: &mut [u32], plan: &FramePlan, brush: u32)
    requires
        plan.line matches Some((from, to)) ==> stroke_fits(old(canvas)@.len(), from, to),
    ensures
        final(canvas)@ == match plan.line {
            Some((from, to)) => painted(
                old(canvas)@,
                |x: int, y: int| stroke_covers(from, to, stroke_steps(from, to) + 1, x, y),
                brush,
            ),
            None => old(canvas)@,
        },
{
    match plan.line {
        Some((from, to)) => {
            stroke(canvas, from, to, brush);
        },
        None => {},
    }
}

/// Whatever the events say, the pointer stays on the picture.
pub proof fn law_pointer_stays_on_picture(p: Painter, events: Seq<InputEvent>)
    requires
        on_picture(p),
    ensures
        on_picture(after_events(p, events)),
    decreases events.len(),
{
    if events.len() > 0 {
        law_pointer_stays_on_picture(p, events.drop_last());
    }
}

/// Separate lines are never connected: after a press, and as long as the button
/// does not change again, the line starts where the pointer was at the press.
pub proof fn law_press_starts_line(
    p: Painter,
    earlier: Seq<InputEvent>,
    press: InputEvent,
    later: Seq<InputEvent>,
)
    requires
        presses(press, BTN_LEFT),
        forall|i: int|
            0 <= i < later.len() ==> !((#[trigger] later[i]).kind == EV_KEY && later[i].code
                == BTN_LEFT),
    ensures
        ({
            let after = after_events(p, earlier.push(press) + later);
            &&& after.down
            &&& after.prev == after_events(p, earlier).mouse
            &&& frame_plan(p, earlier.push(press) + later).line == Some(
                (after_events(p, earlier).mouse, after.mouse),
            )
        }),
    decreases later.len(),
{
    let pressed = earlier.push(press);
    if later.len() == 0 {
        assert(pressed + later =~= pressed);
        assert(pressed.drop_last() =~= earlier);
    } else {
        let init = later.drop_last();
        assert forall|i: int| 0 <= i < init.len() implies !((#[trigger] init[i]).kind == EV_KEY
            && init[i].code == BTN_LEFT) by {
            assert(init[i] == later[i]);
        }
        law_press_starts_line(p, earlier, press, init);
        assert((pressed + later).drop_last() =~= pressed + init);
        assert((pressed + later).last() == later.last());
        assert(later[later.len() - 1] == later.last());
    }
}

/// Nothing is drawn while the button is up and no event touches it.
pub proof fn law_no_line_while_up(p: Painter, events: Seq<InputEvent>)
    requires
        !p.down,
        forall|i: int|
            0 <= i < events.len() ==> !((#[trigger] events[i]).kind == EV_KEY && events[i].code
                == BTN_LEFT),
    ensures
        !after_events(p, events).down,
        frame_plan(p, events).line is None,
    decreases events.len(),
{
    if events.len() > 0 {
        let init = events.drop_last();
        assert forall|i: int| 0 <= i < init.len() implies !((#[trigger] init[i]).kind == EV_KEY
            && init[i].code == BTN_LEFT) by {
            assert(init[i] == events[i]);
        }
        law_no_line_while_up(p, init);
        assert(events[events.len() - 1] == events.last());
    }
}

/// The bits of an event's value are taken as a signed number: the one in the range
/// of an `i32` that differs from it by nothing or by the size of that range.
pub proof fn law_signed_value(v: u32)
    ensures
        -0x8000_0000 <= signed_value(v) < 0x8000_0000,
        signed_value(v) == v || signed_value(v) == v - 0x1_0000_0000,
{
}

/// An event of type 3 that gives a position along an axis, 0 across and 1 down.
pub open spec fn moves(event: InputEvent, axis: u16) -> bool {
    event.kind == 3 && event.code == axis
}

/// An event of the left button, which has code 0x110.
pub open spec fn button(event: InputEvent) -> bool {
    event.kind == 1 && event.code == 0x110
}

/// The pointer follows the mouse, whatever the button does: each coordinate is
/// that of the last event that gave one, moved to the nearer edge where it is off
/// the picture.
pub proof fn law_pointer_follows(p: Painter, events: Seq<InputEvent>, i: int)
    requires
        0 <= i < events.len(),
    ensures
        moves(events[i], 0) && (forall|j: int|
            i < j < events.len() ==> !moves(#[trigger] events[j], 0)) ==> {
            let v = events[i].value;
            let x = after_events(p, events).mouse.0;
            &&& v < 640 ==> x == v
            &&& 640 <= v < 0x8000_0000 ==> x == 639
            &&& v >= 0x8000_0000 ==> x == 0
        },
        moves(events[i], 1) && (forall|j: int|
            i < j < events.len() ==> !moves(#[trigger] events[j], 1)) ==> {
            let v = events[i].value;
            let y = after_events(p, events).mouse.1;
            &&& v < 480 ==> y == v
            &&& 480 <= v < 0x8000_0000 ==> y == 479
            &&& v >= 0x8000_0000 ==> y == 0
        },
    decreases events.len(),
{
    let init = events.drop_last();
    assert(events.last() == events[events.len() - 1]);
    if i < events.len() - 1 {
        law_pointer_follows(p, init, i);
        assert(init[i] == events[i]);
        assert(forall|j: int| 0 <= j < init.len() ==> init[j] == #[trigger] events[j]);
    }
}

/// A coordinate that no event gives stays.
pub proof fn law_pointer_waits(p: Painter, events: Seq<InputEvent>)
    ensures
        (forall|j: int| 0 <= j < events.len() ==> !moves(#[trigger] events[j], 0)) ==> after_events(
            p,
            events,
        ).mouse.0 == p.mouse.0,
        (forall|j: int| 0 <= j < events.len() ==> !moves(#[trigger] events[j], 1)) ==> after_events(
            p,
            events,
        ).mouse.1 == p.mouse.1,
    decreases events.len(),
{
    if events.len() > 0 {
        let init = events.drop_last();
        law_pointer_waits(p, init);
        assert(events.last() == events[events.len() - 1]);
        assert(forall|j: int| 0 <= j < init.len() ==> init[j] == #[trigger] events[j]);
    }
}

/// The button is as the last event of the button says, down where its value is 1;
/// without such an event it is as it was.
pub proof fn law_button_follows(p: Painter, events: Seq<InputEvent>, i: int)
    ensures
        0 <= i < events.len() && button(events[i]) && (forall|j: int|
            i < j < events.len() ==> !button(#[trigger] events[j])) ==> after_events(
            p,
            events,
        ).down == (events[i].value == 1),
        (forall|j: int| 0 <= j < events.len() ==> !button(#[trigger] events[j])) ==> after_events(
            p,
            events,
        ).down == p.down,
    decreases events.len(),
{
    if events.len() > 0 {
        let init = events.drop_last();
        law_button_follows(p, init, i);
        assert(events.last() == events[events.len() - 1]);
        assert(forall|j: int| 0 <= j < init.len() ==> init[j] == #[trigger] events[j]);
    }
}

/// A line starts where the pointer was at the last press, event number `i`, and
/// without a press where the last frame left it.
pub proof fn law_line_starts_at_press(p: Painter, events: Seq<InputEvent>, i: int)
    ensures
        0 <= i < events.len() && button(events[i]) && events[i].value == 1 && (forall|j: int|
            i < j < events.len() ==> !(button(#[trigger] events[j]) && events[j].value == 1))
            ==> after_events(p, events).prev == after_events(p, events.take(i)).mouse,
        (forall|j: int|
            0 <= j < events.len() ==> !(button(#[trigger] events[j]) && events[j].value == 1))
            ==> after_events(p, events).prev == p.prev,
    decreases events.len(),
{
    if events.len() > 0 {
        let init = events.drop_last();
        law_line_starts_at_press(p, init, i);
        assert(events.last() == events[events.len() - 1]);
        assert(forall|j: int| 0 <= j < init.len() ==> init[j] == #[trigger] events[j]);
        if 0 <= i < init.len() {
            assert(init.take(i) =~= events.take(i));
        } else if i == init.len() {
            assert(events.take(i) =~= init);
        }
    }
}

/// What a frame asks for: a step of the hue for each press of C (key 46), a fresh
/// background where the space bar (key 57) was pressed, and, where the button is
/// down at the end, the line from its start to the pointer.
pub proof fn law_frame_asks(p: Painter, events: Seq<InputEvent>)
    requires
        events.len() <= u32::MAX,
    ensures
        frame_plan(p, events).hue_steps as nat == events.filter(
            |e: InputEvent| e.kind == 1 && e.code == 46 && e.value == 1,
        ).len(),
        frame_plan(p, events).clear <==> exists|i: int|
            0 <= i < events.len() && #[trigger] events[i].kind == 1 && events[i].code == 57
                && events[i].value == 1,
        after_events(p, events).down ==> frame_plan(p, events).line == Some(
            (after_events(p, events).prev, after_events(p, events).mouse),
        ),
        !after_events(p, events).down ==> frame_plan(p, events).line is None,
{
    lemma_press_count(events, 46);
    lemma_press_count(events, 57);
}

proof fn lemma_press_count(events: Seq<InputEvent>, key: u16)
    ensures
        press_count(events, key) == events.filter(
            |e: InputEvent| e.kind == 1 && e.code == key && e.value == 1,
        ).len(),
        press_count(events, key) <= events.len(),
        press_count(events, key) > 0 <==> exists|i: int|
            0 <= i < events.len() && #[trigger] events[i].kind == 1 && events[i].code == key
                && events[i].value == 1,
        key == 46 ==> press_count(events, key) == events.filter(
            |e: InputEvent| e.kind == 1 && e.code == 46 && e.value == 1,
        ).len(),
    decreases events.len(),
{
    reveal(Seq::filter);
    if events.len() > 0 {
        let init = events.drop_last();
        lemma_press_count(init, key);
        assert(events.last() == events[events.len() - 1]);
        if press_count(init, key) > 0 {
            let i = choose|i: int|
                0 <= i < init.len() && #[trigger] init[i].kind == 1 && init[i].code == key
                    && init[i].value == 1;
            assert(events[i].kind == 1 && events[i].code == key && events[i].value == 1);
        }
        if exists|i: int|
            0 <= i < events.len() && #[trigger] events[i].kind == 1 && events[i].code == key
                && events[i].value == 1 {
            let i = choose|i: int|
                0 <= i < events.len() && #[trigger] events[i].kind == 1 && events[i].code == key
                    && events[i].value == 1;
            if i < init.len() {
                assert(init[i].kind == 1 && init[i].code == key && init[i].value == 1);
            }
        }
    }
}

/// While the button stays down, the lines of two frames join: the second starts
/// where the first ends.
pub proof fn law_lines_join(p: Painter, first: Seq<InputEvent>, second: Seq<InputEvent>)
    requires
        after_events(p, first).down,
        forall|j: int| 0 <= j < second.len() ==> !button(#[trigger] second[j]),
    ensures
        ({
            let between = after_frame(p, first);
            let end = after_events(p, first).mouse;
            &&& frame_plan(p, first).line == Some((after_events(p, first).prev, end))
            &&& frame_plan(between, second).line == Some(
                (end, after_events(between, second).mouse),
            )
            &&& between.mouse == end
        }),
{
    let between = after_frame(p, first);
    law_button_follows(between, second, 0);
    assert forall|j: int| 0 <= j < second.len() implies !(button(#[trigger] second[j])
        && second[j].value == 1) by {}
    law_line_starts_at_press(between, second, 0);
}

} // verus!
