use vstd::prelude::*;
use crate::geometry::WorldDimension;

verus! {

/// The four neighbours of a cell of a plate's map, with whether each lies
/// on the map: west, east, north and south.
#[derive(Debug, Clone, Copy, PartialEq, Eq, Structural)]
pub struct CrustNeighbors {
    pub west: usize,
    pub east: usize,
    pub north: usize,
    pub south: usize,
    pub west_valid: bool,
    pub east_valid: bool,
    pub north_valid: bool,
    pub south_valid: bool,
}

/// The coordinate before `c` on a wrapping axis of length `side`.
pub open spec fn wrap_before(c: int, side: int) -> int {
    if c % side == 0 {
        side - 1
    } else {
        c % side - 1
    }
}

/// The coordinate after `c` on a wrapping axis of length `side`.
pub open spec fn wrap_after(c: int, side: int) -> int {
    if c % side + 1 == side {
        0
    } else {
        c % side + 1
    }
}

/// The neighbours of cell `(x, y)` of a `width` x `height` plate map: a
/// neighbour lies on the map when it is inside the map or the map spans the
/// whole world along that axis (then the neighbour wraps round). A
/// neighbour off the map is reported at column (or row) 0.
pub open spec fn crust_neighbors_of(
    x: int,
    y: int,
    world_width: int,
    world_height: int,
    width: int,
    height: int,
) -> CrustNeighbors {
    let width_bit = width == world_width;
    let height_bit = height == world_height;
    let w_valid = x > 0 || width_bit;
    let e_valid = x < width - 1 || width_bit;
    let n_valid = y > 0 || height_bit;
    let s_valid = y < height - 1 || height_bit;
    CrustNeighbors {
        west: (y * width + if w_valid { wrap_before(x, world_width) } else { 0 }) as usize,
        east: (y * width + if e_valid { wrap_after(x, world_width) } else { 0 }) as usize,
        north: ((if n_valid { wrap_before(y, world_height) } else { 0 }) * width + x) as usize,
        south: ((if s_valid { wrap_after(y, world_height) } else { 0 }) * width + x) as usize,
        west_valid: w_valid,
        east_valid: e_valid,
        north_valid: n_valid,
        south_valid: s_valid,
    }
}

/// The neighbours through which crust and rivers leave the cell `(x, y)` of
/// a plate's `width` x `height` map; every reported index lies on the map.
pub fn crust_neighbors(x: u32, y: u32, dimensions: WorldDimension, width: u32, height: u32) -> (n:
    CrustNeighbors)
    requires
        x < width <= dimensions.spec_width(),
        y < height <= dimensions.spec_height(),
        width * height <= u32::MAX,
    ensures
        n == crust_neighbors_of(
            x as int,
            y as int,
            dimensions.spec_width() as int,
            dimensions.spec_height() as int,
            width as int,
            height as int,
        ),
        n.west < width * height,
        n.east < width * height,
        n.north < width * height,
        n.south < width * height,
{
    let world_width = dimensions.width();
    let world_height = dimensions.height();
    let width_bit = width == world_width;
    let height_bit = height == world_height;
    let w_valid = x > 0 || width_bit;
    let e_valid = x < width - 1 || width_bit;
    let n_valid = y > 0 || height_bit;
    let s_valid = y < height - 1 || height_bit;

    let x_mod = x % world_width;
    let y_mod = y % world_height;
    let x_minus = if x_mod == 0 {
        world_width - 1
    } else {
        x_mod - 1
    };
    let x_plus = if x_mod + 1 == world_width {
        0
    } else {
        x_mod + 1
    };
    let y_minus = if y_mod == 0 {
        world_height - 1
    } else {
        y_mod - 1
    };
    let y_plus = if y_mod + 1 == world_height {
        0
    } else {
        y_mod + 1
    };
    proof {
        vstd::arithmetic::div_mod::lemma_small_mod(x as nat, world_width as nat);
        vstd::arithmetic::div_mod::lemma_small_mod(y as nat, world_height as nat);
    }
    let wx: u32 = if w_valid {
        x_minus
    } else {
        0
    };
    let ex: u32 = if e_valid {
        x_plus
    } else {
        0
    };
    let ny: u32 = if n_valid {
        y_minus
    } else {
        0
    };
    let sy: u32 = if s_valid {
        y_plus
    } else {
        0
    };
    proof {
        assert(wx < width && ex < width && ny < height && sy < height);
        assert(y * width + width <= width * height) by (nonlinear_arith)
            requires
                y < height,
        ;
        assert(ny * width + width <= width * height) by (nonlinear_arith)
            requires
                ny < height,
        ;
        assert(sy * width + width <= width * height) by (nonlinear_arith)
            requires
                sy < height,
        ;
    }
    CrustNeighbors {
        west: (y * width + wx) as usize,
        east: (y * width + ex) as usize,
        north: (ny * width + x) as usize,
        south: (sy * width + x) as usize,
        west_valid: w_valid,
        east_valid: e_valid,
        north_valid: n_valid,
        south_valid: s_valid,
    }
}


/// A neighbour that lies inside the plate's map is reported on the map, at
/// its own index; one beyond the map's edge is reported on it only when
/// the map spans the whole world along that axis.
pub proof fn lemma_inside_neighbors(x: int, y: int, world_width: int, world_height: int, width: int, height: int)
    requires
        0 <= x < width <= world_width,
        0 <= y < height <= world_height,
        width * height <= u32::MAX,
    ensures
        ({
            let n = crust_neighbors_of(x, y, world_width, world_height, width, height);
            &&& x > 0 ==> n.west_valid && n.west == y * width + x - 1
            &&& x + 1 < width ==> n.east_valid && n.east == y * width + x + 1
            &&& y > 0 ==> n.north_valid && n.north == (y - 1) * width + x
            &&& y + 1 < height ==> n.south_valid && n.south == (y + 1) * width + x
            &&& x == 0 ==> (n.west_valid <==> width == world_width)
            &&& x + 1 == width ==> (n.east_valid <==> width == world_width)
            &&& y == 0 ==> (n.north_valid <==> height == world_height)
            &&& y + 1 == height ==> (n.south_valid <==> height == world_height)
        }),
{
    let n = crust_neighbors_of(x, y, world_width, world_height, width, height);
    vstd::arithmetic::div_mod::lemma_small_mod(x as nat, world_width as nat);
    vstd::arithmetic::div_mod::lemma_small_mod(y as nat, world_height as nat);
    assert(x % world_width == x);
    assert(y % world_height == y);
    assert(y * width + width <= width * height) by (nonlinear_arith)
        requires
            0 <= y < height,
            0 <= width,
    ;
    assert(0 <= y * width) by (nonlinear_arith)
        requires
            0 <= y,
            0 <= width,
    ;
    if x > 0 {
        assert(wrap_before(x, world_width) == x - 1);
        assert(n.west == y * width + x - 1);
    }
    if x + 1 < width {
        assert(wrap_after(x, world_width) == x + 1);
        assert(n.east == y * width + x + 1);
    }
    if y > 0 {
        assert(wrap_before(y, world_height) == y - 1);
        assert((y - 1) * width == y * width - width) by (nonlinear_arith);
        assert(n.north == (y - 1) * width + x);
    }
    if y + 1 < height {
        assert(wrap_after(y, world_height) == y + 1);
        assert((y + 1) * width == y * width + width) by (nonlinear_arith);
        assert((y + 1) * width + width <= width * height) by (nonlinear_arith)
            requires
                0 <= y + 1 < height,
                0 <= width,
        ;
        assert(n.south == (y + 1) * width + x);
    }
}

} // verus!
