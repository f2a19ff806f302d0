//! The decisions of a first-person fly camera: when the cursor is grabbed
//! and released, when mouse motion turns the camera, and which movements the
//! held keys ask for in a frame.

use vstd::prelude::*;

verus! {

/// One movement step of the camera along its own axes.
#[derive(Clone, Copy, Debug, PartialEq, Eq, Structural)]
pub enum Movement {
    /// `W`: along the view direction.
    Forward,
    /// `S`: against the view direction.
    Backward,
    /// `A`: against the camera's right vector.
    Left,
    /// `D`: along the camera's right vector.
    Right,
}

/// What the input looked like in one event callback.
#[derive(Clone, Copy, Debug, PartialEq, Eq, Structural)]
pub struct ControlInput {
    /// The left mouse button was pressed in this frame.
    pub mouse_pressed: bool,
    /// The event being handled is a mouse-motion device event.
    pub mouse_motion: bool,
    /// `Escape` was pressed in this frame.
    pub escape_pressed: bool,
    /// A shift key is held.
    pub shift_held: bool,
    /// `W` is held.
    pub forward_held: bool,
    /// `S` is held.
    pub backward_held: bool,
    /// `A` is held.
    pub left_held: bool,
    /// `D` is held.
    pub right_held: bool,
}

/// What the caller has to do for one event callback, in this order:
/// grab the cursor, turn the camera by the mouse motion, release the cursor,
/// then apply the movements, each one scaled by `speed_multiplier`.
#[derive(Debug)]
pub struct ControlActions {
    /// Confine and hide the cursor.
    pub grab_cursor: bool,
    /// Turn the camera by the mouse motion of this event.
    pub look: bool,
    /// Release and show the cursor.
    pub release_cursor: bool,
    /// Factor on the camera speed for the movements: 3 with shift, else 1.
    pub speed_multiplier: u32,
    /// The movements to apply, in the order `W`, `S`, `A`, `D`.
    pub moves: Vec<Movement>,
}

/// A fly camera. `M` holds the camera's own motion state (angles, speeds,
/// timer), which the decisions here never read.
pub struct FlyCamera<M> {
    /// The motion state, carried for the caller.
    pub motion: M,
    /// Whether the window holds the cursor and the camera follows input.
    pub is_focus: bool,
    /// How often `test` was called.
    pub test_counter: u32,
}

/// Whether the camera is focused once the mouse press of this frame is seen.
pub open spec fn focused_after_press(was_focused: bool, input: ControlInput) -> bool {
    was_focused || input.mouse_pressed
}

/// Whether the camera is focused after a frame: focused by the press,
/// unless `Escape` released it.
pub open spec fn focused_after_frame(was_focused: bool, input: ControlInput) -> bool {
    focused_after_press(was_focused, input) && !input.escape_pressed
}

/// The movements that the held keys ask for, in the order `W`, `S`, `A`, `D`.
pub open spec fn requested_moves(input: ControlInput) -> Seq<Movement> {
    (if input.forward_held { seq![Movement::Forward] } else { Seq::empty() })
    + (if input.backward_held { seq![Movement::Backward] } else { Seq::empty() })
    + (if input.left_held { seq![Movement::Left] } else { Seq::empty() })
    + (if input.right_held { seq![Movement::Right] } else { Seq::empty() })
}

impl<M> FlyCamera<M> {
    /// A camera that does not hold the cursor yet.
    pub fn new(motion: M) -> (camera: Self)
        ensures
            camera.motion == motion,
            !camera.is_focus,
            camera.test_counter == 0,
    {
        FlyCamera { motion, is_focus: false, test_counter: 0 }
    }

    /// Counts one more call and returns the new count.
    pub fn test(&mut self) -> (count: u32)
        requires
            old(self).test_counter < u32::MAX,
        ensures
            count == old(self).test_counter + 1,
            final(self).test_counter == count,
            final(self).is_focus == old(self).is_focus,
            final(self).motion == old(self).motion,
    {
        self.test_counter = self.test_counter + 1;
        self.test_counter
    }

    /// Decides one event callback: the cursor is grabbed on a mouse press
    /// while unfocused; while focused, mouse motion turns the camera,
    /// `Escape` releases the cursor, shift triples the speed and the held
    /// keys move the camera. The movements of the frame in which `Escape`
    /// releases the cursor are still applied.
    pub fn control(&mut self, input: ControlInput) -> (actions: ControlActions)
        ensures
            ({
                let focused = focused_after_press(old(self).is_focus, input);
                &&& actions.grab_cursor == (input.mouse_pressed && !old(self).is_focus)
                &&& actions.look == (focused && input.mouse_motion)
                &&& actions.release_cursor == (focused && input.escape_pressed)
                &&& actions.speed_multiplier == (if focused && input.shift_held { 3u32 } else { 1u32 })
                &&& actions.moves@ == (if focused { requested_moves(input) } else { Seq::empty() })
                &&& final(self).is_focus == focused_after_frame(old(self).is_focus, input)
            }),
            final(self).motion == old(self).motion,
            final(self).test_counter == old(self).test_counter,
    {
        let mut grab_cursor = false;
        if input.mouse_pressed && !self.is_focus {
            grab_cursor = true;
            self.is_focus = true;
        }
        let mut actions = ControlActions {
            grab_cursor,
            look: false,
            release_cursor: false,
            speed_multiplier: 1,
            moves: Vec::new(),
        };
        if self.is_focus {
            actions.look = input.mouse_motion;
            if input.escape_pressed {
                actions.release_cursor = true;
                self.is_focus = false;
            }
            if input.shift_held {
                actions.speed_multiplier = 3;
            }
            if input.forward_held {
                actions.moves.push(Movement::Forward);
            }
            if input.backward_held {
                actions.moves.push(Movement::Backward);
            }
            if input.left_held {
                actions.moves.push(Movement::Left);
            }
            if input.right_held {
                actions.moves.push(Movement::Right);
            }
        }
        actions
    }
}

/// Law of the focus: once `Escape` was pressed in a frame, the next frame
/// without a mouse press grabs nothing, turns nothing and moves nothing,
/// whatever keys are held.
pub proof fn law_escape_stops_control(was_focused: bool, escape_frame: ControlInput, next: ControlInput)
    requires
        escape_frame.escape_pressed,
        !next.mouse_pressed,
    ensures
        !focused_after_frame(was_focused, escape_frame),
        !focused_after_press(focused_after_frame(was_focused, escape_frame), next),
{
}

/// Law of the grab: the cursor is grabbed only on the frame in which an
/// unfocused camera becomes focused, so never twice without a release in
/// between.
pub proof fn law_grab_once(was_focused: bool, first: ControlInput, second: ControlInput)
    requires
        first.mouse_pressed,
        !first.escape_pressed,
    ensures
        focused_after_frame(was_focused, first),
        !(second.mouse_pressed && !focused_after_frame(was_focused, first)),
{
}

/// Law of the focus over one frame, whatever the other keys: a frame with
/// `Escape` always ends unfocused; without `Escape`, a focused camera stays
/// focused and a mouse press focuses it; an unfocused camera that sees no
/// mouse press stays unfocused and follows no input in that frame.
pub proof fn law_focus(was_focused: bool, input: ControlInput)
    ensures
        input.escape_pressed ==> !focused_after_frame(was_focused, input),
        was_focused && !input.escape_pressed ==> focused_after_frame(was_focused, input),
        input.mouse_pressed && !input.escape_pressed ==> focused_after_frame(was_focused, input),
        !was_focused && !input.mouse_pressed ==> !focused_after_frame(was_focused, input),
        was_focused ==> focused_after_press(was_focused, input),
        input.mouse_pressed ==> focused_after_press(was_focused, input),
        !was_focused && !input.mouse_pressed ==> !focused_after_press(was_focused, input),
{
}

/// The place of a movement in the fixed key order `W`, `S`, `A`, `D`.
pub open spec fn movement_rank(m: Movement) -> int {
    match m {
        Movement::Forward => 0,
        Movement::Backward => 1,
        Movement::Left => 2,
        Movement::Right => 3,
    }
}

/// Law of the key bindings: `W` asks for `Forward`, `S` for `Backward`, `A`
/// for `Left` and `D` for `Right`, each exactly when its key is held, each
/// at most once, and in the order `W`, `S`, `A`, `D`.
pub proof fn law_key_bindings(input: ControlInput)
    ensures
        requested_moves(input).contains(Movement::Forward) <==> input.forward_held,
        requested_moves(input).contains(Movement::Backward) <==> input.backward_held,
        requested_moves(input).contains(Movement::Left) <==> input.left_held,
        requested_moves(input).contains(Movement::Right) <==> input.right_held,
        forall|i: int, j: int|
            0 <= i < j < requested_moves(input).len() ==> movement_rank(#[trigger] requested_moves(input)[i])
                < movement_rank(#[trigger] requested_moves(input)[j]),
{
    let f: Seq<Movement> = if input.forward_held { seq![Movement::Forward] } else { Seq::empty() };
    let b: Seq<Movement> = if input.backward_held { seq![Movement::Backward] } else { Seq::empty() };
    let l: Seq<Movement> = if input.left_held { seq![Movement::Left] } else { Seq::empty() };
    let r: Seq<Movement> = if input.right_held { seq![Movement::Right] } else { Seq::empty() };
    let moves = requested_moves(input);
    assert(moves =~= f + b + l + r);
    let n = moves.len();
    if input.forward_held {
        assert(moves[0] == Movement::Forward);
    }
    if input.backward_held {
        assert(moves[f.len() as int] == Movement::Backward);
    }
    if input.left_held {
        assert(moves[(f.len() + b.len()) as int] == Movement::Left);
    }
    if input.right_held {
        assert(moves[(f.len() + b.len() + l.len()) as int] == Movement::Right);
    }
    assert forall|k: int| 0 <= k < n implies {
        let m = #[trigger] moves[k];
        &&& (m == Movement::Forward ==> input.forward_held)
        &&& (m == Movement::Backward ==> input.backward_held)
        &&& (m == Movement::Left ==> input.left_held)
        &&& (m == Movement::Right ==> input.right_held)
        &&& (k < f.len() ==> m == Movement::Forward)
        &&& (f.len() <= k < f.len() + b.len() ==> m == Movement::Backward)
        &&& (f.len() + b.len() <= k < f.len() + b.len() + l.len() ==> m == Movement::Left)
        &&& (f.len() + b.len() + l.len() <= k ==> m == Movement::Right)
    } by {}
}

} // verus!
