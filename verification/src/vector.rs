use vstd::prelude::*;

verus! {

/// One diagonal ray of the board: the ordered squares reachable from a
/// starting square in one diagonal direction, the starting square included
/// as `points[0]`.
///
/// `direction` is 0 (up-right), 1 (up-left), 2 (down-left) or 3 (down-right).
#[derive(Clone, Debug)]
pub struct Vector<T> {
    pub points: Vec<T>,
    pub direction: i8,
}

impl<T> Vector<T> {
    pub fn new(direction: i8, points: Vec<T>) -> (r: Vector<T>)
        ensures
            r.direction == direction,
            r.points == points,
    {
        Vector { points, direction }
    }

    /// The direction banned for the hop that immediately follows a capture
    /// along this ray: the reverse diagonal, which would undo the jump.
    pub open spec fn spec_ban_direction(self) -> int {
        if self.direction < 2 {
            self.direction + 2
        } else {
            self.direction - 2
        }
    }

    pub fn get_ban_direction(&self) -> (r: i8)
        requires
            0 <= self.direction < 4,
        ensures
            r as int == self.spec_ban_direction(),
    {
        if self.direction < 2 {
            self.direction + 2
        } else {
            self.direction - 2
        }
    }
}

} // verus!
