//! The virtual position of the cursor, kept by relative movements, and the
//! edge of the screen that a movement crosses.

use vstd::prelude::*;

verus! {

/// The direction in which the cursor left the screen.
#[derive(Debug, Clone, Copy, PartialEq, Eq, Structural)]
pub enum Direction {
    Left,
    Right,
    Up,
    Down,
}

/// Adds up relative movements on a screen of `width` by `height` and tells
/// when the position crosses an edge.
pub struct CursorTracker {
    x: i64,
    y: i64,
    width: u32,
    height: u32,
}

/// A position on a screen.
pub struct CursorView {
    pub x: int,
    pub y: int,
    pub width: nat,
    pub height: nat,
}

impl CursorView {
    /// The centre of the screen.
    pub open spec fn centred(width: nat, height: nat) -> CursorView {
        CursorView {
            x: (width / 2) as int,
            y: (height / 2) as int,
            width,
            height,
        }
    }

    /// The position after a movement, the edges left aside.
    pub open spec fn shifted(self, dx: int, dy: int) -> CursorView {
        CursorView { x: self.x + dx, y: self.y + dy, ..self }
    }

    /// The edge beyond which the position lies. A horizontal edge counts before
    /// a vertical one.
    pub open spec fn beyond(self) -> Option<Direction> {
        if self.x < 0 {
            Some(Direction::Left)
        } else if self.x >= self.width {
            Some(Direction::Right)
        } else if self.y < 0 {
            Some(Direction::Up)
        } else if self.y >= self.height {
            Some(Direction::Down)
        } else {
            None
        }
    }

    /// The position put back to the centre along the crossed dimension only.
    pub open spec fn recentred(self, crossed: Option<Direction>) -> CursorView {
        match crossed {
            Some(Direction::Left) | Some(Direction::Right) => CursorView {
                x: (self.width / 2) as int,
                ..self
            },
            Some(Direction::Up) | Some(Direction::Down) => CursorView {
                y: (self.height / 2) as int,
                ..self
            },
            None => self,
        }
    }

    /// The horizontal position is on the screen; on a screen without width it
    /// is zero.
    pub open spec fn x_on_screen(self) -> bool {
        0 <= self.x && (self.x < self.width || self.x == 0)
    }

    /// The vertical position is on the screen; on a screen without height it is
    /// zero.
    pub open spec fn y_on_screen(self) -> bool {
        0 <= self.y && (self.y < self.height || self.y == 0)
    }
}

impl View for CursorTracker {
    type V = CursorView;

    closed spec fn view(&self) -> CursorView {
        CursorView {
            x: self.x as int,
            y: self.y as int,
            width: self.width as nat,
            height: self.height as nat,
        }
    }
}

impl CursorTracker {
    /// The horizontal position never leaves the screen.
    pub open spec fn wf(&self) -> bool {
        &&& self@.x_on_screen()
        &&& self@.width <= u32::MAX
        &&& self@.height <= u32::MAX
    }

    /// The vertical position is a machine number.
    pub proof fn lemma_y_range(&self)
        ensures
            i64::MIN <= self@.y <= i64::MAX,
    {
    }

    /// Starts in the centre of the screen, the place farthest from any edge.
    pub fn new(width: u32, height: u32) -> (r: CursorTracker)
        ensures
            r@ == CursorView::centred(width as nat, height as nat),
            r.wf(),
            r@.y_on_screen(),
    {
        CursorTracker {
            x: (width / 2) as i64,
            y: (height / 2) as i64,
            width,
            height,
        }
    }

    /// Whether the screen has some width.
    pub fn has_width(&self) -> (r: bool)
        ensures
            r == (self@.width > 0),
    {
        self.width > 0
    }

    /// Whether a vertical movement keeps the position within `i64`.
    pub fn can_move(&self, dy: i32) -> (r: bool)
        ensures
            r == (i64::MIN <= self@.y + dy <= i64::MAX),
    {
        self.y.checked_add(dy as i64).is_some()
    }

    /// Adds a movement and returns the direction crossed, if any. On a crossing
    /// the position along that dimension goes back to the centre: a place to
    /// enter the neighbouring screen that does not depend on where the cursor
    /// left this one.
    pub fn accumulate(&mut self, dx: i32, dy: i32) -> (r: Option<Direction>)
        requires
            old(self).wf(),
            i64::MIN <= old(self)@.y + dy <= i64::MAX,
        ensures
            r == old(self)@.shifted(dx as int, dy as int).beyond(),
            final(self)@ == old(self)@.shifted(dx as int, dy as int).recentred(r),
            final(self).wf(),
    {
        self.x = self.x + dx as i64;
        self.y = self.y + dy as i64;
        if self.x < 0 {
            self.x = (self.width / 2) as i64;
            return Some(Direction::Left);
        }
        if self.x >= self.width as i64 {
            self.x = (self.width / 2) as i64;
            return Some(Direction::Right);
        }
        if self.y < 0 {
            self.y = (self.height / 2) as i64;
            return Some(Direction::Up);
        }
        if self.y >= self.height as i64 {
            self.y = (self.height / 2) as i64;
            return Some(Direction::Down);
        }
        None
    }
}

/// No edge is reported exactly when the movement stays on the screen, and then
/// the position is the sum.
pub proof fn law_no_crossing_means_on_screen(c: CursorView, dx: int, dy: int)
    ensures
        c.shifted(dx, dy).beyond() is None <==> {
            &&& 0 <= c.x + dx < c.width
            &&& 0 <= c.y + dy < c.height
        },
        c.shifted(dx, dy).beyond() is None ==> c.shifted(dx, dy).recentred(None) == c.shifted(
            dx,
            dy,
        ),
{
}

/// A crossing resets the crossed dimension alone: the other one keeps the sum.
pub proof fn law_crossing_recentres_one_dimension(c: CursorView, dx: int, dy: int)
    ensures
        ({
            let moved = c.shifted(dx, dy);
            let after = moved.recentred(moved.beyond());
            match moved.beyond() {
                Some(Direction::Left) | Some(Direction::Right) => {
                    &&& after.x == c.width / 2
                    &&& after.y == c.y + dy
                },
                Some(Direction::Up) | Some(Direction::Down) => {
                    &&& after.x == c.x + dx
                    &&& after.y == c.height / 2
                },
                None => after == moved,
            }
        }),
{
}

/// Movements along one axis at a time keep the position on a screen that has
/// some width.
pub proof fn law_single_axis_moves_stay_on_screen(c: CursorView, dx: int, dy: int)
    requires
        c.width > 0,
        c.x_on_screen(),
        c.y_on_screen(),
        dx == 0 || dy == 0,
    ensures
        ({
            let after = c.shifted(dx, dy).recentred(c.shifted(dx, dy).beyond());
            after.x_on_screen() && after.y_on_screen()
        }),
{
}

/// The edge that a movement crosses follows from where it leads: left of the
/// screen, right of it, and, only where it stays between these two, above it or
/// below it.
pub proof fn law_crossed_edge_is_where_the_movement_leads(c: CursorView, dx: int, dy: int)
    ensures
        ({
            let edge = c.shifted(dx, dy).beyond();
            let (x, y) = (c.x + dx, c.y + dy);
            &&& x < 0 <==> edge == Some(Direction::Left)
            &&& x >= c.width && x >= 0 <==> edge == Some(Direction::Right)
            &&& 0 <= x < c.width && y < 0 <==> edge == Some(Direction::Up)
            &&& 0 <= x < c.width && y >= c.height && y >= 0 <==> edge == Some(Direction::Down)
            &&& 0 <= x < c.width && 0 <= y < c.height <==> edge is None
        }),
{
}

/// After a movement each dimension holds the sum, or the middle of the screen
/// where that dimension was crossed; the size of the screen stays.
pub proof fn law_position_after_a_movement(c: CursorView, dx: int, dy: int)
    ensures
        ({
            let moved = c.shifted(dx, dy);
            let after = moved.recentred(moved.beyond());
            let (x, y) = (c.x + dx, c.y + dy);
            &&& after.width == c.width
            &&& after.height == c.height
            &&& after.x == if 0 <= x < c.width {
                x
            } else {
                (c.width / 2) as int
            }
            &&& after.y == if 0 <= x < c.width && !(0 <= y < c.height) {
                (c.height / 2) as int
            } else {
                y
            }
        }),
{
}

/// The start is the middle of the screen in both dimensions: as far from the
/// left edge as from the right one, but for one step, and likewise above and
/// below.
pub proof fn law_start_is_the_middle(width: nat, height: nat)
    ensures
        ({
            let c = CursorView::centred(width, height);
            &&& c.width == width
            &&& c.height == height
            &&& 0 <= width - 2 * c.x <= 1
            &&& 0 <= height - 2 * c.y <= 1
        }),
{
}

} // verus!
