use vstd::prelude::*;

verus! {

/// Size of the toroidal world map. Both sides are non-zero.
#[derive(Debug, Clone, Copy, PartialEq, Eq, Structural)]
pub struct WorldDimension {
    width: u32,
    height: u32,
}

/// The value of `x.wrapping_add(side) % side`: `x` reduced into `0..side`
/// after a 32-bit wrapping addition of one period.
pub open spec fn wrap_mod(x: u32, side: u32) -> int {
    ((x + side) % 0x1_0000_0000) % (side as int)
}

impl WorldDimension {
    #[verifier::type_invariant]
    spec fn sides_non_zero(self) -> bool {
        self.width != 0 && self.height != 0
    }

    pub closed spec fn spec_width(self) -> u32 {
        self.width
    }

    pub closed spec fn spec_height(self) -> u32 {
        self.height
    }

    pub fn new(width: u32, height: u32) -> (d: Self)
        requires
            width != 0 && height != 0,
        ensures
            d.spec_width() == width,
            d.spec_height() == height,
    {
        Self { width, height }
    }

    #[verifier::when_used_as_spec(spec_width)]
    pub fn width(self) -> (w: u32)
        ensures
            w == self.spec_width(),
            w > 0,
    {
        proof {
            use_type_invariant(self);
        }
        self.width
    }

    #[verifier::when_used_as_spec(spec_height)]
    pub fn height(self) -> (h: u32)
        ensures
            h == self.spec_height(),
            h > 0,
    {
        proof {
            use_type_invariant(self);
        }
        self.height
    }

    /// Number of cells of the map.
    pub fn area(self) -> (a: u32)
        requires
            self.spec_width() * self.spec_height() <= u32::MAX,
        ensures
            a == self.spec_width() * self.spec_height(),
    {
        self.width * self.height
    }

    /// `x` wrapped into `0..width` after adding one period with 32-bit wrap-around.
    pub fn x_mod(self, x: u32) -> (r: u32)
        ensures
            r == wrap_mod(x, self.spec_width()),
            r < self.spec_width(),
    {
        proof {
            use_type_invariant(self);
        }
        x.wrapping_add(self.width) % self.width
    }

    /// `y` wrapped into `0..height` after adding one period with 32-bit wrap-around.
    pub fn y_mod(self, y: u32) -> (r: u32)
        ensures
            r == wrap_mod(y, self.spec_height()),
            r < self.spec_height(),
    {
        proof {
            use_type_invariant(self);
        }
        y.wrapping_add(self.height) % self.height
    }

    /// Row-major index of the cell `(x, y)`.
    pub fn index_of(self, x: u32, y: u32) -> (i: usize)
        requires
            y * self.spec_width() + x <= u32::MAX,
        ensures
            i == y * self.spec_width() + x,
    {
        (y * self.width + x) as usize
    }

    /// Index of the first cell of row `y`.
    pub fn line_index(self, y: u32) -> (i: usize)
        requires
            y < self.spec_height(),
            y * self.spec_width() <= u32::MAX,
        ensures
            i == y * self.spec_width(),
    {
        self.index_of(0, y)
    }

    /// Row of a row-major index.
    pub fn y_from_index(self, index: u32) -> (y: u32)
        ensures
            y == index / self.spec_width(),
    {
        proof {
            use_type_invariant(self);
        }
        index / self.width
    }

    /// Column of a row-major index.
    pub fn x_from_index(self, index: u32) -> (x: u32)
        ensures
            x == index % self.spec_width(),
    {
        proof {
            use_type_invariant(self);
        }
        let y = self.y_from_index(index);
        proof {
            vstd::arithmetic::div_mod::lemma_fundamental_div_mod(index as int, self.width as int);
            vstd::arithmetic::mul::lemma_mul_is_commutative(y as int, self.width as int);
        }
        index - y * self.width
    }

    /// Index of `(x, y)` after both coordinates are wrapped into the map.
    pub fn normalized_index_of(self, x: u32, y: u32) -> (i: usize)
        requires
            self.spec_width() * self.spec_height() <= u32::MAX + 1,
        ensures
            i == wrap_mod(y, self.spec_height()) * self.spec_width() + wrap_mod(
                x,
                self.spec_width(),
            ),
            i < self.spec_width() * self.spec_height(),
    {
        let xm = self.x_mod(x);
        let ym = self.y_mod(y);
        proof {
            let w = self.width as int;
            let h = self.height as int;
            assert(ym * w + xm < w * h) by (nonlinear_arith)
                requires
                    0 <= ym < h,
                    0 <= xm < w,
            ;
        }
        self.index_of(xm, ym)
    }

    /// `x` clamped to the last column.
    pub fn x_cap(self, x: u32) -> (r: u32)
        ensures
            r == if x < self.spec_width() { x } else { (self.spec_width() - 1) as u32 },
    {
        proof {
            use_type_invariant(self);
        }
        if x < self.width {
            x
        } else {
            self.width - 1
        }
    }

    /// `y` clamped to the last row.
    pub fn y_cap(self, y: u32) -> (r: u32)
        ensures
            r == if y < self.spec_height() { y } else { (self.spec_height() - 1) as u32 },
    {
        proof {
            use_type_invariant(self);
        }
        if y < self.height {
            y
        } else {
            self.height - 1
        }
    }

    /// Reduces a point into the map by taking both coordinates modulo the sides.
    pub fn normalize(self, x: &mut u32, y: &mut u32)
        ensures
            *final(x) == *old(x) % self.spec_width(),
            *final(y) == *old(y) % self.spec_height(),
    {
        proof {
            use_type_invariant(self);
        }
        *x = *x % self.width;
        *y = *y % self.height;
    }
}

/// Splitting an index of the map into column and row and joining them
/// again gives the index back, and the column and row of an index of the
/// map lie on the map.
pub proof fn lemma_index_round_trip(d: WorldDimension, index: u32)
    requires
        d.spec_width() > 0,
        index < d.spec_width() * d.spec_height(),
    ensures
        (index / d.spec_width()) * d.spec_width() + index % d.spec_width() == index,
        index % d.spec_width() < d.spec_width(),
        index / d.spec_width() < d.spec_height(),
{
    let w = d.spec_width() as int;
    vstd::arithmetic::div_mod::lemma_fundamental_div_mod(index as int, w);
    vstd::arithmetic::mul::lemma_mul_is_commutative(w, index as int / w);
    vstd::arithmetic::div_mod::lemma_multiply_divide_lt(index as int, w, d.spec_height() as int);
}

/// A point with signed integer coordinates.
#[derive(Debug, Clone, Copy, PartialEq, Eq, Structural)]
pub struct IntPoint {
    pub x: i32,
    pub y: i32,
}

impl IntPoint {
    pub fn new(x: i32, y: i32) -> (p: Self)
        ensures
            p.x == x,
            p.y == y,
    {
        Self { x, y }
    }

    /// The displacement from `rhs` to `self`.
    pub fn sub(self, rhs: IntPoint) -> (v: IntVector)
        requires
            i32::MIN <= self.x - rhs.x <= i32::MAX,
            i32::MIN <= self.y - rhs.y <= i32::MAX,
        ensures
            v.x == self.x - rhs.x,
            v.y == self.y - rhs.y,
    {
        IntVector { x: self.x - rhs.x, y: self.y - rhs.y }
    }
}

/// A displacement with signed integer coordinates.
#[derive(Debug, Clone, Copy, PartialEq, Eq, Structural)]
pub struct IntVector {
    pub x: i32,
    pub y: i32,
}

} // verus!
