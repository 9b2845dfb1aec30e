use vstd::prelude::*;
use crate::geometry::WorldDimension;

verus! {

/// Index returned for a point that lies outside a rectangle.
pub const BAD_INDEX: u32 = 0xffff_ffff;

/// A rectangle on the toroidal world map. Its right and bottom edges may lie
/// numerically before its left and top edges, in which case it wraps around
/// the map's seam.
#[derive(Debug, Clone, Copy, PartialEq, Eq, Structural)]
pub struct Rectangle {
    dimensions: WorldDimension,
    left: u32,
    right: u32,
    top: u32,
    bottom: u32,
}

/// `v` lies in `lo..hi`, directly or one period `side` further on.
pub open spec fn span_contains(lo: int, hi: int, v: int, side: int) -> bool {
    (lo <= v && v < hi) || (lo <= v + side && v + side < hi)
}

/// `v` shifted by one period when it lies before `lo`, then made relative to `lo`.
pub open spec fn local_coord(v: int, lo: int, side: int) -> int {
    (if v < lo { v + side } else { v }) - lo
}

/// `after` is `before` grown to take in `(x, y)`: a point above the top
/// edge moves the top edge, one below the bottom edge moves the bottom edge,
/// and likewise left and right; the world dimensions stay.
pub open spec fn enlarged_to_contain(before: Rectangle, after: Rectangle, x: u32, y: u32) -> bool {
    &&& after.spec_dimensions() == before.spec_dimensions()
    &&& after.spec_top() == if y < before.spec_top() {
        y
    } else {
        before.spec_top()
    }
    &&& after.spec_bottom() == if y < before.spec_top() {
        before.spec_bottom()
    } else if y > before.spec_bottom() {
        y
    } else {
        before.spec_bottom()
    }
    &&& after.spec_left() == if x < before.spec_left() {
        x
    } else {
        before.spec_left()
    }
    &&& after.spec_right() == if x < before.spec_left() {
        before.spec_right()
    } else if x > before.spec_right() {
        x
    } else {
        before.spec_right()
    }
}

impl Rectangle {
    pub closed spec fn spec_dimensions(self) -> WorldDimension {
        self.dimensions
    }

    pub closed spec fn spec_left(self) -> u32 {
        self.left
    }

    pub closed spec fn spec_right(self) -> u32 {
        self.right
    }

    pub closed spec fn spec_top(self) -> u32 {
        self.top
    }

    pub closed spec fn spec_bottom(self) -> u32 {
        self.bottom
    }

    /// Right edge, moved one period on when it lies before the left edge.
    pub open spec fn unwrapped_right(self) -> int {
        self.spec_right() + if self.spec_right() < self.spec_left() {
            self.spec_dimensions().spec_width() as int
        } else {
            0
        }
    }

    /// Bottom edge, moved one period on when it lies before the top edge.
    pub open spec fn unwrapped_bottom(self) -> int {
        self.spec_bottom() + if self.spec_bottom() < self.spec_top() {
            self.spec_dimensions().spec_height() as int
        } else {
            0
        }
    }

    /// The world point `(x, y)`, reduced into the map, lies in the rectangle.
    pub open spec fn contains_point(self, x: u32, y: u32) -> bool {
        let w = self.spec_dimensions().spec_width() as int;
        let h = self.spec_dimensions().spec_height() as int;
        &&& span_contains(self.spec_left() as int, self.unwrapped_right(), (x as int) % w, w)
        &&& span_contains(self.spec_top() as int, self.unwrapped_bottom(), (y as int) % h, h)
    }

    /// Column of the world point `x` relative to the left edge.
    pub open spec fn local_x(self, x: u32) -> int {
        let w = self.spec_dimensions().spec_width() as int;
        local_coord((x as int) % w, self.spec_left() as int, w)
    }

    /// Row of the world point `y` relative to the top edge.
    pub open spec fn local_y(self, y: u32) -> int {
        let h = self.spec_dimensions().spec_height() as int;
        local_coord((y as int) % h, self.spec_top() as int, h)
    }

    /// The computation of a map index for `(x, y)` stays within 32 bits: the
    /// unwrapped edges, the point moved by one period and its local
    /// coordinates do not leave `u32`, and neither does the local index of a
    /// contained point.
    pub open spec fn map_index_in_range(self, x: u32, y: u32) -> bool {
        let w = self.spec_dimensions().spec_width() as int;
        let h = self.spec_dimensions().spec_height() as int;
        &&& self.unwrapped_right() <= u32::MAX
        &&& self.unwrapped_bottom() <= u32::MAX
        &&& self.spec_left() <= self.unwrapped_right()
        &&& self.spec_top() <= self.unwrapped_bottom()
        &&& (x as int) % w + w <= u32::MAX
        &&& (y as int) % h + h <= u32::MAX
        &&& self.local_x(x) >= 0
        &&& self.local_y(y) >= 0
        &&& self.contains_point(x, y) ==> self.local_y(y) * (self.unwrapped_right()
            - self.spec_left()) + self.local_x(x) <= u32::MAX
    }

    pub fn new(dimensions: WorldDimension, left: u32, right: u32, top: u32, bottom: u32) -> (r:
        Self)
        ensures
            r.spec_dimensions() == dimensions,
            r.spec_left() == left,
            r.spec_right() == right,
            r.spec_top() == top,
            r.spec_bottom() == bottom,
    {
        Self { dimensions, left, right, top, bottom }
    }

    /// Maps the world point `(*px, *py)` to the row-major index of the cell
    /// inside the rectangle. For a contained point the coordinates are
    /// replaced by the local ones; otherwise they are left alone and
    /// `BAD_INDEX` is returned.
    pub fn get_map_index(&self, px: &mut u32, py: &mut u32) -> (index: u32)
        requires
            self.map_index_in_range(*old(px), *old(py)),
        ensures
            self.contains_point(*old(px), *old(py)) ==> {
                &&& *final(px) == self.local_x(*old(px))
                &&& *final(py) == self.local_y(*old(py))
                &&& index == self.local_y(*old(py)) * (self.unwrapped_right() - self.spec_left())
                    + self.local_x(*old(px))
            },
            !self.contains_point(*old(px), *old(py)) ==> {
                &&& index == BAD_INDEX
                &&& *final(px) == *old(px)
                &&& *final(py) == *old(py)
            },
    {
        let world_width = self.dimensions.width();
        let world_height = self.dimensions.height();
        let mut x = *px % world_width;
        let mut y = *py % world_height;
        let ilft = self.left;
        let itop = self.top;
        let irgt = self.right + if self.right < ilft {
            world_width
        } else {
            0
        };
        let ibtm = self.bottom + if self.bottom < itop {
            world_height
        } else {
            0
        };
        let width = irgt - ilft;

        let x_plus_width = x + world_width;
        let x_ok = (x >= ilft && x < irgt) || (x_plus_width >= ilft && x_plus_width < irgt);
        let y_plus_height = y + world_height;
        let y_ok = (y >= itop && y < ibtm) || (y_plus_height >= itop && y_plus_height < ibtm);

        if x < ilft {
            x += world_width;
        }
        if y < itop {
            y += world_height;
        }
        x -= ilft;
        y -= itop;

        if x_ok && y_ok {
            *px = x;
            *py = y;
            y * width + x
        } else {
            BAD_INDEX
        }
    }

    /// Grows the rectangle just enough, on one side per axis, to take in `(x, y)`.
    pub fn enlarge_to_contain(&mut self, x: u32, y: u32)
        ensures
            enlarged_to_contain(*old(self), *final(self), x, y),
    {
        if y < self.top {
            self.top = y;
        } else if y > self.bottom {
            self.bottom = y;
        }
        if x < self.left {
            self.left = x;
        } else if x > self.right {
            self.right = x;
        }
    }

    /// Moves the rectangle by `(dx, dy)`.
    pub fn shift(&mut self, dx: u32, dy: u32)
        requires
            old(self).spec_left() + dx <= u32::MAX,
            old(self).spec_right() + dx <= u32::MAX,
            old(self).spec_top() + dy <= u32::MAX,
            old(self).spec_bottom() + dy <= u32::MAX,
        ensures
            final(self).spec_dimensions() == old(self).spec_dimensions(),
            final(self).spec_left() == old(self).spec_left() + dx,
            final(self).spec_right() == old(self).spec_right() + dx,
            final(self).spec_top() == old(self).spec_top() + dy,
            final(self).spec_bottom() == old(self).spec_bottom() + dy,
    {
        self.left = self.left + dx;
        self.right = self.right + dx;
        self.top = self.top + dy;
        self.bottom = self.bottom + dy;
    }

    #[verifier::when_used_as_spec(spec_left)]
    pub fn left(self) -> (v: u32)
        ensures
            v == self.spec_left(),
    {
        self.left
    }

    #[verifier::when_used_as_spec(spec_right)]
    pub fn right(self) -> (v: u32)
        ensures
            v == self.spec_right(),
    {
        self.right
    }

    #[verifier::when_used_as_spec(spec_top)]
    pub fn top(self) -> (v: u32)
        ensures
            v == self.spec_top(),
    {
        self.top
    }

    #[verifier::when_used_as_spec(spec_bottom)]
    pub fn bottom(self) -> (v: u32)
        ensures
            v == self.spec_bottom(),
    {
        self.bottom
    }

    pub fn set_left(&mut self, value: u32)
        ensures
            final(self).spec_dimensions() == old(self).spec_dimensions(),
            final(self).spec_left() == value,
            final(self).spec_right() == old(self).spec_right(),
            final(self).spec_top() == old(self).spec_top(),
            final(self).spec_bottom() == old(self).spec_bottom(),
    {
        self.left = value;
    }

    pub fn set_right(&mut self, value: u32)
        ensures
            final(self).spec_dimensions() == old(self).spec_dimensions(),
            final(self).spec_left() == old(self).spec_left(),
            final(self).spec_right() == value,
            final(self).spec_top() == old(self).spec_top(),
            final(self).spec_bottom() == old(self).spec_bottom(),
    {
        self.right = value;
    }

    pub fn set_top(&mut self, value: u32)
        ensures
            final(self).spec_dimensions() == old(self).spec_dimensions(),
            final(self).spec_left() == old(self).spec_left(),
            final(self).spec_right() == old(self).spec_right(),
            final(self).spec_top() == value,
            final(self).spec_bottom() == old(self).spec_bottom(),
    {
        self.top = value;
    }

    pub fn set_bottom(&mut self, value: u32)
        ensures
            final(self).spec_dimensions() == old(self).spec_dimensions(),
            final(self).spec_left() == old(self).spec_left(),
            final(self).spec_right() == old(self).spec_right(),
            final(self).spec_top() == old(self).spec_top(),
            final(self).spec_bottom() == value,
    {
        self.bottom = value;
    }
}

} // verus!
