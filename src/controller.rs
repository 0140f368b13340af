//! Interaction: pointer clicks and motion, zoom and hint toggles, turned into
//! operations on the board.
use vstd::prelude::*;
use rand::Rng;
use crate::board::{
    Board, BoardError, PieceState, can_lock, drag_outcome, locks_justified, settled, first_hint, is_free, groups_grew, move_fits, moved, selected_only, toggled,
};
use crate::descriptor::PieceDescriptor;

verus! {

/// Camera scale bounds, in hundredths.
pub const MIN_SCALE: i64 = 50;
pub const MAX_SCALE: i64 = 300;
/// Zoom step of one key press, in hundredths.
pub const ZOOM_STEP: i64 = 10;

/// A request to change the camera scale by the given hundredths.
#[derive(Clone, Copy, Debug, PartialEq, Eq, Structural)]
pub struct AdjustScale(pub i64);

/// A request to show or hide the picture behind the board.
#[derive(Clone, Copy, Debug, PartialEq, Eq, Structural)]
pub struct ToggleBackgroundHint;

/// A request to highlight a pair of pieces that fit together.
#[derive(Clone, Copy, Debug, PartialEq, Eq, Structural)]
pub struct TogglePuzzleHint;

#[derive(Clone, Copy, Debug, PartialEq, Eq, Structural)]
pub enum Key {
    PageUp,
    PageDown,
    Space,
    H,
    Other,
}

#[derive(Clone, Copy, Debug, PartialEq, Eq, Structural)]
pub enum Command {
    Zoom(AdjustScale),
    Background(ToggleBackgroundHint),
    Hint(TogglePuzzleHint),
}

/// What a key press asks for.
pub fn command_for_key(key: Key) -> (r: Option<Command>)
    ensures
        key == Key::PageUp ==> r == Some(Command::Zoom(AdjustScale(ZOOM_STEP))),
        key == Key::PageDown ==> r == Some(Command::Zoom(AdjustScale((-ZOOM_STEP) as i64))),
        key == Key::Space ==> r == Some(Command::Background(ToggleBackgroundHint)),
        key == Key::H ==> r == Some(Command::Hint(TogglePuzzleHint)),
        key == Key::Other ==> r is None,
{
    match key {
        Key::PageUp => Some(Command::Zoom(AdjustScale(ZOOM_STEP))),
        Key::PageDown => Some(Command::Zoom(AdjustScale(-ZOOM_STEP))),
        Key::Space => Some(Command::Background(ToggleBackgroundHint)),
        Key::H => Some(Command::Hint(TogglePuzzleHint)),
        Key::Other => None,
    }
}

/// The command of the keys pressed in one tick: zoom in wins over zoom out,
/// which wins over the picture toggle, which wins over the hint.
pub open spec fn command_for_pressed(keys: Seq<Key>) -> Option<Command> {
    if keys.contains(Key::PageUp) {
        Some(Command::Zoom(AdjustScale(ZOOM_STEP)))
    } else if keys.contains(Key::PageDown) {
        Some(Command::Zoom(AdjustScale((-ZOOM_STEP) as i64)))
    } else if keys.contains(Key::Space) {
        Some(Command::Background(ToggleBackgroundHint))
    } else if keys.contains(Key::H) {
        Some(Command::Hint(TogglePuzzleHint))
    } else {
        None
    }
}

fn is_pressed(keys: &Vec<Key>, key: Key) -> (r: bool)
    ensures
        r == keys@.contains(key),
{
    let mut i: usize = 0;
    while i < keys.len()
        invariant
            i <= keys@.len(),
            forall|j: int| 0 <= j < i ==> keys@[j] != key,
        decreases keys@.len() - i,
    {
        if keys[i] == key {
            return true;
        }
        i = i + 1;
    }
    false
}

/// What the keys pressed in one tick ask for; one command per tick.
pub fn command_for_keys(keys: &Vec<Key>) -> (r: Option<Command>)
    ensures
        r == command_for_pressed(keys@),
{
    if is_pressed(keys, Key::PageUp) {
        command_for_key(Key::PageUp)
    } else if is_pressed(keys, Key::PageDown) {
        command_for_key(Key::PageDown)
    } else if is_pressed(keys, Key::Space) {
        command_for_key(Key::Space)
    } else if is_pressed(keys, Key::H) {
        command_for_key(Key::H)
    } else {
        None
    }
}

pub open spec fn clamp_scale(v: int) -> int {
    if v < MIN_SCALE {
        MIN_SCALE as int
    } else if v > MAX_SCALE {
        MAX_SCALE as int
    } else {
        v
    }
}

/// Where the pointer holds the carried piece: the piece and the pointer's
/// offset from the piece's position at the time of the click.
#[derive(Clone, Copy, Debug, PartialEq, Eq, Structural)]
pub struct Grab {
    pub piece: usize,
    pub offset_x: i128,
    pub offset_y: i128,
}

pub struct Controller {
    pub scale: i64,
    pub background_visible: bool,
    pub grab: Option<Grab>,
}

/// The shift that brings the grabbed piece under the pointer at
/// `(px, py)`, keeping the offset captured at the click.
pub open spec fn drag_delta(s: Seq<PieceState>, g: Grab, px: i64, py: i64) -> (int, int) {
    (px - g.offset_x - s[g.piece as int].x, py - g.offset_y - s[g.piece as int].y)
}

/// The carried unit can follow the pointer to `(px, py)`: a piece is held,
/// its unit is dragging, and the move stays within the coordinate range.
pub open spec fn follow_ok(s: Seq<PieceState>, grab: Option<Grab>, px: i64, py: i64) -> bool {
    match grab {
        Some(g) => {
            let (dx, dy) = drag_delta(s, g, px, py);
            &&& s[g.piece as int].dragging
            &&& i64::MIN <= dx <= i64::MAX
            &&& i64::MIN <= dy <= i64::MAX
            &&& move_fits(s, dx as i64, dy as i64)
        },
        None => false,
    }
}

/// The board after the carried unit followed the pointer to `(px, py)`.
pub open spec fn followed(s: Seq<PieceState>, g: Grab, px: i64, py: i64) -> Seq<PieceState> {
    moved(s, drag_delta(s, g, px, py).0 as i64, drag_delta(s, g, px, py).1 as i64)
}

impl Controller {
    /// The scale is within its bounds, and a held offset is one that a
    /// click between two positions can produce.
    pub open spec fn wf(&self) -> bool {
        &&& MIN_SCALE <= self.scale <= MAX_SCALE
        &&& self.grab matches Some(g) ==> {
            &&& -0x1_0000_0000_0000_0000 <= g.offset_x <= 0x1_0000_0000_0000_0000
            &&& -0x1_0000_0000_0000_0000 <= g.offset_y <= 0x1_0000_0000_0000_0000
        }
    }

    /// Scale 1, picture hidden, nothing carried.
    pub fn new() -> (r: Controller)
        ensures
            r.wf(),
            r.scale == 100,
            !r.background_visible,
            r.grab is None,
    {
        Controller { scale: 100, background_visible: false, grab: None }
    }

    /// Changes the scale, clamped to its bounds.
    pub fn adjust_scale(&mut self, e: AdjustScale)
        requires
            old(self).wf(),
        ensures
            final(self).wf(),
            final(self).scale == clamp_scale(old(self).scale + e.0),
            final(self).background_visible == old(self).background_visible,
            final(self).grab == old(self).grab,
    {
        let v: i128 = self.scale as i128 + e.0 as i128;
        self.scale = if v < MIN_SCALE as i128 {
            MIN_SCALE
        } else if v > MAX_SCALE as i128 {
            MAX_SCALE
        } else {
            v as i64
        };
    }

    pub fn toggle_background(&mut self, _e: ToggleBackgroundHint)
        ensures
            final(self).background_visible == !old(self).background_visible,
            final(self).scale == old(self).scale,
            final(self).grab == old(self).grab,
    {
        self.background_visible = !self.background_visible;
    }

    /// Highlights the first pair of free pieces that fit together, clearing
    /// any earlier highlight.
    pub fn toggle_puzzle_hint(&self, board: &mut Board, _e: TogglePuzzleHint) -> (r: Option<(usize, usize)>)
        requires
            old(board).wf(),
        ensures
            final(board).wf(),
            final(board).descs() == old(board).descs(),
            first_hint(old(board).states(), old(board).descs(), r),
            final(board).states() == selected_only(old(board).states(), r),
    {
        board.select_hint()
    }

    /// A click on piece `i` with the pointer at `(px, py)`: picks its unit up,
    /// remembering where the pointer holds it, or puts it down. A click on a
    /// piece whose image is not installed changes nothing.
    pub fn click(&mut self, board: &mut Board, i: usize, px: i64, py: i64) -> (r: Result<(), BoardError>)
        requires
            old(self).wf(),
            old(board).wf(),
        ensures
            final(self).wf(),
            final(board).wf(),
            final(board).descs() == old(board).descs(),
            final(self).scale == old(self).scale,
            final(self).background_visible == old(self).background_visible,
            r == drag_outcome(old(board).states(), i as int),
            r is Err ==> final(board).states() == old(board).states() && final(self).grab == old(self).grab,
            r is Ok ==> final(board).states() == toggled(old(board).states(), i as int),
            r is Ok && !old(board).states()[i as int].dragging ==> final(self).grab == Some(
                Grab {
                    piece: i,
                    offset_x: (px - old(board).states()[i as int].x) as i128,
                    offset_y: (py - old(board).states()[i as int].y) as i128,
                },
            ),
            r is Ok && old(board).states()[i as int].dragging ==> final(self).grab is None,
    {
        match board.toggle_drag(i) {
            Err(e) => Err(e),
            Ok(()) => {
                let st = board.piece(i);
                if st.dragging {
                    self.grab = Some(
                        Grab {
                            piece: i,
                            offset_x: px as i128 - st.x as i128,
                            offset_y: py as i128 - st.y as i128,
                        },
                    );
                } else {
                    self.grab = None;
                }
                Ok(())
            },
        }
    }

    /// The pointer moved to `(px, py)`: the carried unit follows it, then
    /// every free piece that now fits against it locks on, until no more can. Tells whether
    /// anything moved; nothing does when no unit is carried or the move would
    /// leave the coordinate range.
    pub fn pointer_moved(&mut self, board: &mut Board, px: i64, py: i64) -> (r: bool)
        requires
            old(self).wf(),
            old(board).wf(),
            old(self).grab matches Some(g) ==> g.piece < old(board).states().len(),
        ensures
            final(self).wf(),
            final(board).wf(),
            final(board).descs() == old(board).descs(),
            final(self).scale == old(self).scale,
            final(self).grab == old(self).grab,
            !r ==> final(board).states() == old(board).states(),
            r == follow_ok(old(board).states(), old(self).grab, px, py),
            r ==> groups_grew(followed(old(board).states(), old(self).grab->0, px, py), final(board).states()),
            r ==> {
                let t = followed(old(board).states(), old(self).grab->0, px, py);
                let p = old(self).grab->0.piece as int;
                &&& is_free(t, p) && can_lock(t, old(board).descs(), p) ==> !is_free(final(board).states(), p)
                &&& locks_justified(t, final(board).states(), old(board).descs(), p)
                &&& settled(final(board).states(), old(board).descs(), p)
            },
    {
        let g = match self.grab {
            Some(g) => g,
            None => {
                return false;
            },
        };
        let st = board.piece(g.piece);
        if !st.dragging {
            return false;
        }
        let dx: i128 = px as i128 - g.offset_x - st.x as i128;
        let dy: i128 = py as i128 - g.offset_y - st.y as i128;
        if dx < i64::MIN as i128 || dx > i64::MAX as i128 || dy < i64::MIN as i128 || dy > i64::MAX as i128 {
            return false;
        }
        if !board.move_dragged(dx as i64, dy as i64) {
            return false;
        }
        board.settle(g.piece);
        true
    }
}

/// Relies on `rand::Rng::gen_range` of the thread's generator: a value in
/// `lo..hi`, which must not be empty.
#[verifier::external_body]
fn random_in(lo: i64, hi: i64) -> (r: i64)
    requires
        lo < hi,
    ensures
        lo <= r < hi,
{
    rand::thread_rng().gen_range(lo..hi)
}

/// A random position that keeps piece `d` inside a window reaching
/// `half_width` and `half_height` from the centre; `None` when the window is
/// too small for it.
pub fn random_position(d: &PieceDescriptor, half_width: i64, half_height: i64) -> (r: Option<(i64, i64)>)
    requires
        half_width >= 0,
        half_height >= 0,
    ensures
        r is None <==> (half_width - d.crop_width <= d.crop_width - half_width || half_height - d.crop_height
            <= d.crop_height - half_height),
        r matches Some((x, y)) ==> {
            &&& d.crop_width - half_width <= x < half_width - d.crop_width
            &&& d.crop_height - half_height <= y < half_height - d.crop_height
        },
{
    let min_x: i64 = d.crop_width as i64 - half_width;
    let max_x: i64 = half_width - d.crop_width as i64;
    let min_y: i64 = d.crop_height as i64 - half_height;
    let max_y: i64 = half_height - d.crop_height as i64;
    if max_x <= min_x || max_y <= min_y {
        return None;
    }
    Some((random_in(min_x, max_x), random_in(min_y, max_y)))
}

} // verus!
