use vstd::prelude::*;
use crate::rectangle::{Rectangle, enlarged_to_contain};

verus! {

/// Bookkeeping of one continent segment of a plate: its bounding rectangle,
/// the number of cells it covers and how many collisions it took part in.
#[derive(Debug, Clone, Copy, PartialEq, Eq, Structural)]
pub struct SegmentData {
    rectangle: Rectangle,
    area: u32,
    coll_count: u32,
}

impl SegmentData {
    pub closed spec fn spec_rectangle(self) -> Rectangle {
        self.rectangle
    }

    pub closed spec fn spec_area(self) -> u32 {
        self.area
    }

    pub closed spec fn spec_coll_count(self) -> u32 {
        self.coll_count
    }

    pub fn new(rectangle: Rectangle, area: u32) -> (d: Self)
        ensures
            d.spec_rectangle() == rectangle,
            d.spec_area() == area,
            d.spec_coll_count() == 0,
    {
        Self { rectangle, area, coll_count: 0 }
    }

    /// Grows the bounding rectangle to take in `(x, y)`.
    pub fn enlarge_to_contain(&mut self, x: u32, y: u32)
        ensures
            final(self).spec_area() == old(self).spec_area(),
            final(self).spec_coll_count() == old(self).spec_coll_count(),
            enlarged_to_contain(old(self).spec_rectangle(), final(self).spec_rectangle(), x, y),
    {
        self.rectangle.enlarge_to_contain(x, y);
    }

    /// Moves the bounding rectangle by `(dx, dy)`.
    pub fn shift(&mut self, dx: u32, dy: u32)
        requires
            old(self).spec_rectangle().spec_left() + dx <= u32::MAX,
            old(self).spec_rectangle().spec_right() + dx <= u32::MAX,
            old(self).spec_rectangle().spec_top() + dy <= u32::MAX,
            old(self).spec_rectangle().spec_bottom() + dy <= u32::MAX,
        ensures
            final(self).spec_area() == old(self).spec_area(),
            final(self).spec_coll_count() == old(self).spec_coll_count(),
            final(self).spec_rectangle().spec_dimensions() == old(
                self,
            ).spec_rectangle().spec_dimensions(),
            final(self).spec_rectangle().spec_left() == old(self).spec_rectangle().spec_left() + dx,
            final(self).spec_rectangle().spec_right() == old(self).spec_rectangle().spec_right()
                + dx,
            final(self).spec_rectangle().spec_top() == old(self).spec_rectangle().spec_top() + dy,
            final(self).spec_rectangle().spec_bottom() == old(self).spec_rectangle().spec_bottom()
                + dy,
    {
        self.rectangle.shift(dx, dy);
    }

    pub fn inc_coll_count(&mut self)
        requires
            old(self).spec_coll_count() < u32::MAX,
        ensures
            final(self).spec_coll_count() == old(self).spec_coll_count() + 1,
            final(self).spec_area() == old(self).spec_area(),
            final(self).spec_rectangle() == old(self).spec_rectangle(),
    {
        self.coll_count += 1;
    }

    pub fn inc_area(&mut self)
        requires
            old(self).spec_area() < u32::MAX,
        ensures
            final(self).spec_area() == old(self).spec_area() + 1,
            final(self).spec_coll_count() == old(self).spec_coll_count(),
            final(self).spec_rectangle() == old(self).spec_rectangle(),
    {
        self.area += 1;
    }

    pub fn inc_area_by(&mut self, amount: u32)
        requires
            old(self).spec_area() + amount <= u32::MAX,
        ensures
            final(self).spec_area() == old(self).spec_area() + amount,
            final(self).spec_coll_count() == old(self).spec_coll_count(),
            final(self).spec_rectangle() == old(self).spec_rectangle(),
    {
        self.area += amount;
    }

    /// Marks the segment as gone by setting its area to zero.
    pub fn mark_non_existent(&mut self)
        ensures
            final(self).spec_area() == 0,
            final(self).spec_coll_count() == old(self).spec_coll_count(),
            final(self).spec_rectangle() == old(self).spec_rectangle(),
    {
        self.area = 0;
    }

    pub fn left(&self) -> (v: u32)
        ensures
            v == self.spec_rectangle().spec_left(),
    {
        self.rectangle.left()
    }

    pub fn right(&self) -> (v: u32)
        ensures
            v == self.spec_rectangle().spec_right(),
    {
        self.rectangle.right()
    }

    pub fn top(&self) -> (v: u32)
        ensures
            v == self.spec_rectangle().spec_top(),
    {
        self.rectangle.top()
    }

    pub fn bottom(&self) -> (v: u32)
        ensures
            v == self.spec_rectangle().spec_bottom(),
    {
        self.rectangle.bottom()
    }

    pub fn area(&self) -> (v: u32)
        ensures
            v == self.spec_area(),
    {
        self.area
    }

    pub fn coll_count(&self) -> (v: u32)
        ensures
            v == self.spec_coll_count(),
    {
        self.coll_count
    }

    /// A segment with no area no longer exists.
    pub fn is_empty(&self) -> (b: bool)
        ensures
            b == (self.spec_area() == 0),
    {
        self.area == 0
    }

    pub fn set_left(&mut self, value: u32)
        ensures
            final(self).spec_area() == old(self).spec_area(),
            final(self).spec_coll_count() == old(self).spec_coll_count(),
            final(self).spec_rectangle().spec_dimensions() == old(
                self,
            ).spec_rectangle().spec_dimensions(),
            final(self).spec_rectangle().spec_left() == value,
            final(self).spec_rectangle().spec_right() == old(self).spec_rectangle().spec_right(),
            final(self).spec_rectangle().spec_top() == old(self).spec_rectangle().spec_top(),
            final(self).spec_rectangle().spec_bottom() == old(self).spec_rectangle().spec_bottom(),
    {
        self.rectangle.set_left(value);
    }

    pub fn set_right(&mut self, value: u32)
        ensures
            final(self).spec_area() == old(self).spec_area(),
            final(self).spec_coll_count() == old(self).spec_coll_count(),
            final(self).spec_rectangle().spec_dimensions() == old(
                self,
            ).spec_rectangle().spec_dimensions(),
            final(self).spec_rectangle().spec_left() == old(self).spec_rectangle().spec_left(),
            final(self).spec_rectangle().spec_right() == value,
            final(self).spec_rectangle().spec_top() == old(self).spec_rectangle().spec_top(),
            final(self).spec_rectangle().spec_bottom() == old(self).spec_rectangle().spec_bottom(),
    {
        self.rectangle.set_right(value);
    }

    pub fn set_top(&mut self, value: u32)
        ensures
            final(self).spec_area() == old(self).spec_area(),
            final(self).spec_coll_count() == old(self).spec_coll_count(),
            final(self).spec_rectangle().spec_dimensions() == old(
                self,
            ).spec_rectangle().spec_dimensions(),
            final(self).spec_rectangle().spec_left() == old(self).spec_rectangle().spec_left(),
            final(self).spec_rectangle().spec_right() == old(self).spec_rectangle().spec_right(),
            final(self).spec_rectangle().spec_top() == value,
            final(self).spec_rectangle().spec_bottom() == old(self).spec_rectangle().spec_bottom(),
    {
        self.rectangle.set_top(value);
    }

    pub fn set_bottom(&mut self, value: u32)
        ensures
            final(self).spec_area() == old(self).spec_area(),
            final(self).spec_coll_count() == old(self).spec_coll_count(),
            final(self).spec_rectangle().spec_dimensions() == old(
                self,
            ).spec_rectangle().spec_dimensions(),
            final(self).spec_rectangle().spec_left() == old(self).spec_rectangle().spec_left(),
            final(self).spec_rectangle().spec_right() == old(self).spec_rectangle().spec_right(),
            final(self).spec_rectangle().spec_top() == old(self).spec_rectangle().spec_top(),
            final(self).spec_rectangle().spec_bottom() == value,
    {
        self.rectangle.set_bottom(value);
    }
}

} // verus!
