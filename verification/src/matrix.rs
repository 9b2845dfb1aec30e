use vstd::prelude::*;

verus! {

/// A `width` by `height` grid of values stored row by row. Both sides are
/// non-zero and the grid holds exactly `width * height` values.
#[derive(Debug, Clone, PartialEq)]
pub struct Matrix<T> {
    width: u32,
    height: u32,
    values: Vec<T>,
}

impl<T> Matrix<T> {
    pub closed spec fn spec_width(&self) -> u32 {
        self.width
    }

    pub closed spec fn spec_height(&self) -> u32 {
        self.height
    }

    /// The values, row by row.
    pub closed spec fn values_view(&self) -> Seq<T> {
        self.values@
    }

    /// The matrix's shape holds: non-zero sides and one value per cell.
    pub open spec fn wf(&self) -> bool {
        &&& self.spec_width() != 0
        &&& self.spec_height() != 0
        &&& self.spec_width() * self.spec_height() <= u32::MAX
        &&& self.values_view().len() == self.spec_width() * self.spec_height()
    }
}

impl<T: Clone> Matrix<T> {
    /// A `width` by `height` matrix with every cell a clone of `value`.
    pub fn new(width: u32, height: u32, value: T) -> (m: Self)
        requires
            width != 0 && height != 0,
            width * height <= u32::MAX,
        ensures
            m.wf(),
            m.spec_width() == width,
            m.spec_height() == height,
            forall|i: int| 0 <= i < width * height ==> cloned(value, #[trigger] m.values_view()[i]),
    {
        Self { width, height, values: vec![value; (width * height) as usize] }
    }
}

impl<T> Matrix<T> {
    /// A `width` by `height` matrix holding `values` row by row.
    pub fn from_vec(width: u32, height: u32, values: Vec<T>) -> (m: Self)
        requires
            width != 0 && height != 0,
            width * height <= u32::MAX,
            values@.len() == width * height,
        ensures
            m.wf(),
            m.spec_width() == width,
            m.spec_height() == height,
            m.values_view() == values@,
    {
        Self { width, height, values }
    }

    /// Index of the first value of row `y`.
    pub fn line_index(&self, y: u32) -> (i: usize)
        requires
            self.wf(),
            y < self.spec_height(),
        ensures
            i == y * self.spec_width(),
    {
        proof {
            assert(y * self.width <= self.width * self.height) by (nonlinear_arith)
                requires
                    y < self.height,
            ;
        }
        (y * self.width) as usize
    }

    pub fn as_slice(&self) -> (s: &[T])
        ensures
            s@ == self.values_view(),
    {
        self.values.as_slice()
    }

    pub fn as_mut_slice(&mut self) -> (s: &mut [T])
        ensures
            s@ == old(self).values_view(),
            final(self).values_view() == final(s)@,
            final(self).spec_width() == old(self).spec_width(),
            final(self).spec_height() == old(self).spec_height(),
    {
        self.values.as_mut_slice()
    }
}

} // verus!
