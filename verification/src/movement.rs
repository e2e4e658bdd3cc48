//! Directional input state and the integer part of movement: which way the
//! pressed keys point. Scaling that direction by speed and frame time is the
//! caller's concern.

use vstd::prelude::*;

verus! {

/// Which movement keys are held down.
#[derive(Clone, Copy, Debug, Default)]
pub struct InputState {
    pub up: bool,
    pub down: bool,
    pub left: bool,
    pub right: bool,
}

/// The unit steps the input points at, one per axis: opposite keys cancel,
/// and the y axis grows downward.
pub fn movement_direction(input: InputState) -> (r: (i64, i64))
    ensures
        r.0 == (if input.right { 1int } else { 0int }) - (if input.left { 1int } else { 0int }),
        r.1 == (if input.down { 1int } else { 0int }) - (if input.up { 1int } else { 0int }),
{
    let mut dx: i64 = 0;
    let mut dy: i64 = 0;
    if input.up {
        dy = dy - 1;
    }
    if input.down {
        dy = dy + 1;
    }
    if input.left {
        dx = dx - 1;
    }
    if input.right {
        dx = dx + 1;
    }
    (dx, dy)
}

} // verus!
