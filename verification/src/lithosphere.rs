use vstd::prelude::*;
use crate::geometry::{WorldDimension, wrap_mod};
use crate::random::{SimpleRandom, lcg_iter, lcg_step};
use crate::plate::{mask, wrapped_diff};
use crate::segments::{count_of, lemma_count_le_len};

verus! {

/// Why a simulation could not be set up.
#[derive(Debug, Clone, Copy, PartialEq, Eq, Structural)]
pub enum PlatecError {
    DimensionsTooSmall,
    ZeroPlates,
}

/// The region a plate grows into while the map is divided among plates:
/// the cells still to expand from and a bounding box on the wrapping map.
#[derive(Debug, Clone, Default, PartialEq, Eq)]
pub struct PlateArea {
    pub border: Vec<u32>,
    pub bottom: u32,
    pub left: u32,
    pub right: u32,
    pub top: u32,
    pub width: u32,
    pub height: u32,
}

/// Row above the cell `c`, wrapping to the last row.
pub open spec fn row_above(width: int, height: int, c: int) -> int {
    if c / width > 0 {
        c / width - 1
    } else {
        height - 1
    }
}

/// Row below the cell `c`, wrapping to the first row.
pub open spec fn row_below(width: int, height: int, c: int) -> int {
    if c / width < height - 1 {
        c / width + 1
    } else {
        0
    }
}

/// Column left of the cell `c`, wrapping to the last column.
pub open spec fn col_left(width: int, c: int) -> int {
    if c % width > 0 {
        c % width - 1
    } else {
        width - 1
    }
}

/// Column right of the cell `c`, wrapping to the first column.
pub open spec fn col_right(width: int, c: int) -> int {
    if c % width < width - 1 {
        c % width + 1
    } else {
        0
    }
}

pub open spec fn north_of(width: int, height: int, c: int) -> int {
    row_above(width, height, c) * width + c % width
}

pub open spec fn south_of(width: int, height: int, c: int) -> int {
    row_below(width, height, c) * width + c % width
}

pub open spec fn west_of(width: int, c: int) -> int {
    (c / width) * width + col_left(width, c)
}

pub open spec fn east_of(width: int, c: int) -> int {
    (c / width) * width + col_right(width, c)
}

/// The cell `c` belongs to a plate.
pub open spec fn assigned(imap: Seq<u32>, plate_count: u32, c: int) -> bool {
    imap[c] < plate_count
}

/// The four neighbours of `c` on the wrapping map belong to plates.
pub open spec fn neighbours_assigned(
    imap: Seq<u32>,
    plate_count: u32,
    width: int,
    height: int,
    c: int,
) -> bool {
    &&& assigned(imap, plate_count, north_of(width, height, c))
    &&& assigned(imap, plate_count, south_of(width, height, c))
    &&& assigned(imap, plate_count, west_of(width, c))
    &&& assigned(imap, plate_count, east_of(width, c))
}

/// The cell `c` is still on the border of some plate.
pub open spec fn in_some_border(areas: Seq<PlateArea>, c: u32) -> bool {
    exists|k: int, j: int|
        0 <= k < areas.len() && 0 <= j < areas[k].border@.len() && #[trigger] areas[k].border@[j]
            == c
}

/// Number of cells that belong to a plate.
pub open spec fn count_assigned(imap: Seq<u32>, plate_count: u32) -> nat
    decreases imap.len(),
{
    if imap.len() == 0 {
        0
    } else {
        count_assigned(imap.drop_last(), plate_count) + if imap.last() < plate_count {
            1nat
        } else {
            0nat
        }
    }
}

/// Total length of the borders of the first `n` plates.
pub open spec fn border_total(areas: Seq<PlateArea>, n: nat) -> int
    decreases n,
{
    if n == 0 {
        0
    } else {
        border_total(areas, (n - 1) as nat) + areas[n - 1].border@.len()
    }
}

proof fn lemma_count_assigned_le(imap: Seq<u32>, plate_count: u32)
    ensures
        count_assigned(imap, plate_count) <= imap.len(),
    decreases imap.len(),
{
    if imap.len() > 0 {
        lemma_count_assigned_le(imap.drop_last(), plate_count);
    }
}

proof fn lemma_count_assigned_lt(imap: Seq<u32>, plate_count: u32, i: int)
    requires
        0 <= i < imap.len(),
        imap[i] >= plate_count,
    ensures
        count_assigned(imap, plate_count) < imap.len(),
    decreases imap.len(),
{
    if i < imap.len() - 1 {
        lemma_count_assigned_lt(imap.drop_last(), plate_count, i);
    } else {
        lemma_count_assigned_le(imap.drop_last(), plate_count);
    }
}

proof fn lemma_count_assigned_update(imap: Seq<u32>, plate_count: u32, i: int, v: u32)
    requires
        0 <= i < imap.len(),
        imap[i] >= plate_count,
        v < plate_count,
    ensures
        count_assigned(imap.update(i, v), plate_count) == count_assigned(imap, plate_count) + 1,
    decreases imap.len(),
{
    let t = imap.update(i, v);
    if i == imap.len() - 1 {
        assert(t.drop_last() =~= imap.drop_last());
    } else {
        assert(t.drop_last() =~= imap.drop_last().update(i, v));
        lemma_count_assigned_update(imap.drop_last(), plate_count, i, v);
    }
}

proof fn lemma_border_total_update(areas: Seq<PlateArea>, n: nat, l: int, a: PlateArea)
    requires
        n <= areas.len(),
        0 <= l < areas.len(),
    ensures
        border_total(areas.update(l, a), n) == border_total(areas, n) + if l < n {
            a.border@.len() - areas[l].border@.len()
        } else {
            0
        },
    decreases n,
{
    if n > 0 {
        lemma_border_total_update(areas, (n - 1) as nat, l, a);
    }
}

proof fn lemma_border_total_nonneg(areas: Seq<PlateArea>, n: nat)
    requires
        n <= areas.len(),
    ensures
        border_total(areas, n) >= 0,
        forall|k: int| 0 <= k < n ==> #[trigger] areas[k].border@.len() <= border_total(areas, n),
    decreases n,
{
    if n > 0 {
        lemma_border_total_nonneg(areas, (n - 1) as nat);
    }
}

proof fn lemma_border_total_zero(areas: Seq<PlateArea>, n: nat)
    requires
        n <= areas.len(),
        forall|k: int| 0 <= k < n ==> (#[trigger] areas[k]).border@.len() == 0,
    ensures
        border_total(areas, n) == 0,
    decreases n,
{
    if n > 0 {
        lemma_border_total_zero(areas, (n - 1) as nat);
    }
}


/// The side of a cell that a plate grows across.
#[derive(Debug, Clone, Copy, PartialEq, Eq, Structural)]
pub enum Side {
    North,
    South,
    West,
    East,
}

/// The state kept while plates grow over the map: sizes and bounds hold,
/// every plate's bounding box, border length and extent stay within one
/// more than the number of assigned cells, and every assigned cell is on a
/// border or has all four neighbours assigned.
#[verifier::opaque]
pub open spec fn grow_state(
    imap: Seq<u32>,
    areas: Seq<PlateArea>,
    plate_count: u32,
    width: int,
    height: int,
) -> bool {
    let area = width * height;
    let count = count_assigned(imap, plate_count);
    &&& width > 0
    &&& height > 0
    &&& imap.len() == area
    &&& areas.len() == plate_count
    &&& area < u32::MAX
    &&& forall|i: int|
        0 <= i < plate_count ==> {
            let a = #[trigger] areas[i];
            &&& a.left < width
            &&& a.right < width
            &&& a.top < height
            &&& a.bottom < height
            &&& a.border@.len() <= 1 + count
            &&& a.width <= 1 + count
            &&& a.height <= 1 + count
            &&& forall|j: int| 0 <= j < a.border@.len() ==> #[trigger] a.border@[j] < area
        }
    &&& forall|c: int|
        0 <= c < area && #[trigger] assigned(imap, plate_count, c) ==> in_some_border(
            areas,
            c as u32,
        ) || neighbours_assigned(imap, plate_count, width, height, c)
    &&& border_total(areas, plate_count as nat) > 0 || exists|c: int|
        0 <= c < area && #[trigger] assigned(imap, plate_count, c)
}

/// The amount of growing left: border cells plus twice the unassigned cells.
pub open spec fn grow_measure(imap: Seq<u32>, areas: Seq<PlateArea>, plate_count: u32) -> int {
    border_total(areas, plate_count as nat) + 2 * (imap.len() - count_assigned(imap, plate_count))
}

/// How far `x` lies past `start` going forward round a circle of `size`
/// positions.
pub open spec fn wrap_offset(x: int, start: int, size: int) -> int {
    if x >= start {
        x - start
    } else {
        x + size - start
    }
}

/// The cell `c` of a `w` x `h` world lies in the bounding box of `a`:
/// within `a.width` columns from `a.left` and `a.height` rows from
/// `a.top`, going round the world.
pub open spec fn area_holds(a: PlateArea, w: int, h: int, c: int) -> bool {
    &&& wrap_offset(c % w, a.left as int, w) < a.width
    &&& wrap_offset(c / w, a.top as int, h) < a.height
}

/// The bounding box of `a` is well formed: its sides lie in the world, it
/// is at least one cell wide and high, and, while it is narrower (lower)
/// than the world, its right (bottom) side is `width - 1` columns (`height
/// - 1` rows) from its left (top) side.
pub open spec fn area_shape(a: PlateArea, w: int, h: int) -> bool {
    &&& a.left < w
    &&& a.right < w
    &&& a.top < h
    &&& a.bottom < h
    &&& 1 <= a.width
    &&& 1 <= a.height
    &&& a.width <= w ==> wrap_offset(a.right as int, a.left as int, w) == a.width - 1
    &&& a.height <= h ==> wrap_offset(a.bottom as int, a.top as int, h) == a.height - 1
}

/// Each plate's bounding box is well formed and holds the plate's border
/// cells and every cell given to the plate.
#[verifier::opaque]
pub open spec fn grow_boxes(
    imap: Seq<u32>,
    areas: Seq<PlateArea>,
    plate_count: u32,
    w: int,
    h: int,
) -> bool {
    &&& forall|i: int| 0 <= i < plate_count ==> area_shape(#[trigger] areas[i], w, h)
    &&& forall|i: int, j: int|
        0 <= i < plate_count && 0 <= j < areas[i].border@.len() ==> #[trigger] areas[i].border@[j]
            < imap.len() && area_holds(areas[i], w, h, areas[i].border@[j] as int)
    &&& forall|c: int|
        0 <= c < imap.len() && #[trigger] imap[c] < plate_count ==> area_holds(
            areas[imap[c] as int],
            w,
            h,
            c,
        )
}

/// Every plate's bounding box is well formed, and every cell lies in the
/// bounding box of the plate it belongs to.
pub open spec fn plates_in_boxes(
    imap: Seq<u32>,
    areas: Seq<PlateArea>,
    plate_count: u32,
    w: int,
    h: int,
) -> bool {
    &&& forall|i: int| 0 <= i < plate_count ==> area_shape(#[trigger] areas[i], w, h)
    &&& forall|c: int|
        0 <= c < imap.len() && #[trigger] imap[c] < plate_count ==> area_holds(
            areas[imap[c] as int],
            w,
            h,
            c,
        )
}

/// A cell in the bounding box of a plate lies in the box that `plate_box`
/// cuts out for the plate: within its width of columns from its left side
/// and its height of rows from its top, going round the world.
pub proof fn lemma_cell_in_plate_box(a: PlateArea, w: int, h: int, c: int)
    requires
        w > 0,
        h > 0,
        0 <= c < w * h,
        area_shape(a, w, h),
        area_holds(a, w, h, c),
    ensures
        wrap_offset(c % w, a.left as int, w) < (if a.width < w {
            a.width as int
        } else {
            w - 1
        }) + 1,
        wrap_offset(c / w, a.top as int, h) < (if a.height < h {
            a.height as int
        } else {
            h - 1
        }) + 1,
{
    lemma_cell_split(w, h, c);
}

/// `n` is one of the four neighbours of the cell `c` on the wrapping map.
pub open spec fn map_step(w: int, h: int, c: int, n: int) -> bool {
    ||| n == north_of(w, h, c)
    ||| n == south_of(w, h, c)
    ||| n == west_of(w, c)
    ||| n == east_of(w, c)
}

/// `path` walks the wrapping map from neighbour to neighbour, every cell
/// after its first belonging to plate `i`.
pub open spec fn plate_walk(imap: Seq<u32>, w: int, h: int, i: u32, path: Seq<int>) -> bool {
    &&& path.len() > 0
    &&& forall|k: int| 0 <= k < path.len() ==> 0 <= #[trigger] path[k] < imap.len()
    &&& forall|k: int| 0 < k < path.len() ==> imap[#[trigger] path[k]] == i
    &&& forall|k: int| 0 < k < path.len() ==> #[trigger] map_step(w, h, path[k - 1], path[k])
}

/// The cell `c` is joined to the cell `s` through cells of plate `i`.
pub open spec fn joined_from(imap: Seq<u32>, w: int, h: int, i: u32, s: int, c: int) -> bool {
    exists|path: Seq<int>|
        #[trigger] plate_walk(imap, w, h, i, path) && path[0] == s && path.last() == c
}

/// What growing keeps of how the plates spread from the borders `starts`
/// they started with: every cell a plate owns that belonged to no plate in
/// `imap0` is joined through the plate's cells to one of the plate's
/// starting border cells, and each border cell is a starting one or such a
/// cell of its plate.
#[verifier::opaque]
pub open spec fn grow_joined(
    imap0: Seq<u32>,
    imap: Seq<u32>,
    starts: Seq<Seq<u32>>,
    areas: Seq<PlateArea>,
    plate_count: u32,
    w: int,
    h: int,
) -> bool {
    &&& forall|c: int|
        0 <= c < imap.len() && #[trigger] imap[c] < plate_count && imap0[c] >= plate_count
            ==> exists|j: int|
            0 <= j < starts[imap[c] as int].len() && #[trigger] joined_from(
                imap,
                w,
                h,
                imap[c],
                starts[imap[c] as int][j] as int,
                c,
            )
    &&& forall|i: int, j: int|
        0 <= i < plate_count && 0 <= j < areas[i].border@.len() ==> {
            let b = #[trigger] areas[i].border@[j];
            ||| exists|j0: int| 0 <= j0 < starts[i].len() && starts[i][j0] == b
            ||| (b < imap.len() && imap0[b as int] >= plate_count && imap[b as int] == i)
        }
}

/// A walk stays a walk when cells that belonged to no plate get a plate.
proof fn lemma_walk_persists(
    imap: Seq<u32>,
    imap2: Seq<u32>,
    plate_count: u32,
    w: int,
    h: int,
    i: u32,
    path: Seq<int>,
)
    requires
        plate_walk(imap, w, h, i, path),
        i < plate_count,
        imap2.len() == imap.len(),
        forall|c: int| 0 <= c < imap.len() && imap[c] < plate_count ==> #[trigger] imap2[c] == imap[c],
    ensures
        plate_walk(imap2, w, h, i, path),
{
    assert forall|k: int| 0 < k < path.len() implies imap2[#[trigger] path[k]] == i by {
        assert(imap[path[k]] == i);
    }
}

proof fn lemma_joined_init(
    imap: Seq<u32>,
    areas: Seq<PlateArea>,
    plate_count: u32,
    w: int,
    h: int,
)
    requires
        areas.len() == plate_count,
    ensures
        grow_joined(
            imap,
            imap,
            Seq::new(plate_count as nat, |k: int| areas[k].border@),
            areas,
            plate_count,
            w,
            h,
        ),
{
    reveal(grow_joined);
    let starts = Seq::new(plate_count as nat, |k: int| areas[k].border@);
    assert forall|i: int, j: int|
        0 <= i < plate_count && 0 <= j < areas[i].border@.len() implies {
        let b = #[trigger] areas[i].border@[j];
        ||| exists|j0: int| 0 <= j0 < starts[i].len() && starts[i][j0] == b
        ||| (b < imap.len() && imap[b as int] >= plate_count && imap[b as int] == i)
    } by {
        assert(starts[i][j] == areas[i].border@[j]);
    }
}

/// Plate `i` claiming the unowned neighbour `n` of its border cell
/// `areas[i].border@[jp]` keeps every new cell joined to a start.
#[verifier::spinoff_prover]
proof fn lemma_joined_claim(
    imap0: Seq<u32>,
    imap: Seq<u32>,
    starts: Seq<Seq<u32>>,
    areas: Seq<PlateArea>,
    imap2: Seq<u32>,
    areas2: Seq<PlateArea>,
    plate_count: u32,
    w: int,
    h: int,
    i: int,
    jp: int,
    n: int,
)
    requires
        grow_joined(imap0, imap, starts, areas, plate_count, w, h),
        imap.len() == imap0.len(),
        forall|c: int| 0 <= c < imap0.len() && imap0[c] < plate_count ==> #[trigger] imap[c] == imap0[c],
        areas.len() == plate_count,
        0 <= i < plate_count,
        0 <= jp < areas[i].border@.len(),
        areas[i].border@[jp] < imap.len(),
        map_step(w, h, areas[i].border@[jp] as int, n),
        0 <= n < imap.len(),
        imap.len() <= u32::MAX,
        imap[n] >= plate_count,
        imap2 == imap.update(n, i as u32),
        areas2.len() == areas.len(),
        forall|k: int| 0 <= k < areas.len() && k != i ==> #[trigger] areas2[k] == areas[k],
        areas2[i].border@ == areas[i].border@.push(n as u32),
    ensures
        grow_joined(imap0, imap2, starts, areas2, plate_count, w, h),
{
    reveal(grow_joined);
    let p = areas[i].border@[jp] as int;
    let iu = i as u32;
    assert(imap0[n] >= plate_count);
    assert forall|c: int| 0 <= c < imap.len() && imap[c] < plate_count implies #[trigger] imap2[c]
        == imap[c] by {}
    // a walk from a start to `n`
    assert(exists|j: int|
        0 <= j < starts[i].len() && #[trigger] joined_from(imap2, w, h, iu, starts[i][j] as int, n))
        by {
        let b = areas[i].border@[jp];
        if exists|j0: int| 0 <= j0 < starts[i].len() && starts[i][j0] == b {
            let j0 = choose|j0: int| 0 <= j0 < starts[i].len() && starts[i][j0] == b;
            let path = seq![p, n];
            assert(plate_walk(imap2, w, h, iu, path));
            assert(joined_from(imap2, w, h, iu, starts[i][j0] as int, n));
        } else {
            assert(imap0[p] >= plate_count && imap[p] == iu);
            let j = choose|j: int|
                0 <= j < starts[imap[p] as int].len() && #[trigger] joined_from(
                    imap,
                    w,
                    h,
                    imap[p],
                    starts[imap[p] as int][j] as int,
                    p,
                );
            let path = choose|path: Seq<int>|
                #[trigger] plate_walk(imap, w, h, iu, path) && path[0] == starts[i][j] as int
                    && path.last() == p;
            lemma_walk_persists(imap, imap2, plate_count, w, h, iu, path);
            let path2 = path.push(n);
            assert forall|k: int| 0 <= k < path2.len() implies 0 <= #[trigger] path2[k] < imap2.len() by {
                if k < path.len() {
                    assert(path2[k] == path[k]);
                }
            }
            assert forall|k: int| 0 < k < path2.len() implies imap2[#[trigger] path2[k]] == iu by {
                if k < path.len() {
                    assert(path2[k] == path[k]);
                }
            }
            assert forall|k: int| 0 < k < path2.len() implies #[trigger] map_step(
                w,
                h,
                path2[k - 1],
                path2[k],
            ) by {
                if k < path.len() {
                    assert(path2[k] == path[k] && path2[k - 1] == path[k - 1]);
                }
            }
            assert(plate_walk(imap2, w, h, iu, path2));
            assert(joined_from(imap2, w, h, iu, starts[i][j] as int, n));
        }
    }
    assert forall|c: int|
        0 <= c < imap2.len() && #[trigger] imap2[c] < plate_count && imap0[c] >= plate_count
            implies exists|j: int|
        0 <= j < starts[imap2[c] as int].len() && #[trigger] joined_from(
            imap2,
            w,
            h,
            imap2[c],
            starts[imap2[c] as int][j] as int,
            c,
        ) by {
        if c != n {
            assert(imap2[c] == imap[c]);
            let j = choose|j: int|
                0 <= j < starts[imap[c] as int].len() && #[trigger] joined_from(
                    imap,
                    w,
                    h,
                    imap[c],
                    starts[imap[c] as int][j] as int,
                    c,
                );
            let path = choose|path: Seq<int>|
                #[trigger] plate_walk(imap, w, h, imap[c], path) && path[0] == starts[imap[c] as int][j]
                    as int && path.last() == c;
            lemma_walk_persists(imap, imap2, plate_count, w, h, imap[c], path);
            assert(joined_from(imap2, w, h, imap2[c], starts[imap2[c] as int][j] as int, c));
        }
    }
    assert forall|k: int, j: int|
        0 <= k < plate_count && 0 <= j < areas2[k].border@.len() implies {
        let b = #[trigger] areas2[k].border@[j];
        ||| exists|j0: int| 0 <= j0 < starts[k].len() && starts[k][j0] == b
        ||| (b < imap2.len() && imap0[b as int] >= plate_count && imap2[b as int] == k)
    } by {
        if k != i {
            assert(areas2[k] == areas[k]);
            let b = areas[k].border@[j];
            if b < imap.len() && imap0[b as int] >= plate_count && imap[b as int] == k {
                assert(imap2[b as int] == imap[b as int]);
            }
        } else if j < areas[i].border@.len() {
            assert(areas2[k].border@[j] == areas[i].border@[j]);
            let b = areas[i].border@[j];
            if b < imap.len() && imap0[b as int] >= plate_count && imap[b as int] == k {
                assert(imap2[b as int] == imap[b as int]);
            }
        } else {
            assert(areas2[k].border@[j] == n as u32);
        }
    }
}

/// Dropping a border cell keeps what growing knows.
proof fn lemma_joined_remove(
    imap0: Seq<u32>,
    imap: Seq<u32>,
    starts: Seq<Seq<u32>>,
    areas: Seq<PlateArea>,
    areas2: Seq<PlateArea>,
    plate_count: u32,
    w: int,
    h: int,
    i: int,
    j: int,
)
    requires
        grow_joined(imap0, imap, starts, areas, plate_count, w, h),
        0 <= i < plate_count,
        0 <= j < areas[i].border@.len(),
        areas.len() == plate_count,
        areas2.len() == areas.len(),
        forall|k: int| 0 <= k < areas.len() && k != i ==> #[trigger] areas2[k] == areas[k],
        areas2[i].border@ == areas[i].border@.update(j, areas[i].border@.last()).drop_last(),
    ensures
        grow_joined(imap0, imap, starts, areas2, plate_count, w, h),
{
    reveal(grow_joined);
    let bd = areas[i].border@;
    assert forall|k: int, q: int|
        0 <= k < plate_count && 0 <= q < areas2[k].border@.len() implies {
        let b = #[trigger] areas2[k].border@[q];
        ||| exists|j0: int| 0 <= j0 < starts[k].len() && starts[k][j0] == b
        ||| (b < imap.len() && imap0[b as int] >= plate_count && imap[b as int] == k)
    } by {
        if k != i {
            assert(areas2[k] == areas[k]);
            assert(areas[k].border@[q] == areas2[k].border@[q]);
        } else if q == j {
            assert(areas2[k].border@[q] == bd[bd.len() - 1]);
            assert(areas[i].border@[bd.len() - 1] == bd[bd.len() - 1]);
        } else {
            assert(areas2[k].border@[q] == bd[q]);
            assert(areas[i].border@[q] == bd[q]);
        }
    }
}

/// A plate's region as plain values: its border cells, then the left,
/// right, top and bottom sides and the width and height of its box.
pub open spec fn area_model(a: PlateArea) -> (Seq<u32>, u32, u32, u32, u32, u32, u32) {
    (a.border@, a.left, a.right, a.top, a.bottom, a.width, a.height)
}

/// The regions of all plates as plain values.
pub open spec fn areas_model(areas: Seq<PlateArea>) -> Seq<(Seq<u32>, u32, u32, u32, u32, u32, u32)> {
    Seq::new(areas.len(), |k: int| area_model(areas[k]))
}

/// What `claim_plate_neighbor` does, on plain values: plate `i` takes the
/// cell `index` if it belongs to no plate, adding it to its border and
/// growing its box by one row or column on `side` when the cell lies right
/// beyond that edge (`edge` being the cell's row or column).
pub open spec fn claim_model(
    imap: Seq<u32>,
    areas: Seq<(Seq<u32>, u32, u32, u32, u32, u32, u32)>,
    plate_count: u32,
    w: u32,
    h: u32,
    i: int,
    index: int,
    side: Side,
    edge: u32,
) -> (Seq<u32>, Seq<(Seq<u32>, u32, u32, u32, u32, u32, u32)>) {
    if imap[index] >= plate_count {
        let a = areas[i];
        let border = a.0.push(index as u32);
        let b = match side {
            Side::North => if a.3 == wrap_mod((edge + 1) as u32, h) {
                (border, a.1, a.2, edge, a.4, a.5, (a.6 + 1) as u32)
            } else {
                (border, a.1, a.2, a.3, a.4, a.5, a.6)
            },
            Side::South => if edge == wrap_mod((a.4 + 1) as u32, h) {
                (border, a.1, a.2, a.3, edge, a.5, (a.6 + 1) as u32)
            } else {
                (border, a.1, a.2, a.3, a.4, a.5, a.6)
            },
            Side::West => if a.1 == wrap_mod((edge + 1) as u32, w) {
                (border, edge, a.2, a.3, a.4, (a.5 + 1) as u32, a.6)
            } else {
                (border, a.1, a.2, a.3, a.4, a.5, a.6)
            },
            Side::East => if edge == wrap_mod((a.2 + 1) as u32, w) {
                (border, a.1, edge, a.3, a.4, (a.5 + 1) as u32, a.6)
            } else {
                (border, a.1, a.2, a.3, a.4, a.5, a.6)
            },
        };
        (imap.update(index, i as u32), areas.update(i, b))
    } else {
        (imap, areas)
    }
}

/// One growth step of plate `i` on plain values: the generator moves on
/// from `state`, its new state modulo the border's length picks the border
/// cell `p`, the plate claims the cells north, south, west and east of `p`
/// (in that order), and `p` leaves the border, the last border cell taking
/// its place.
pub open spec fn step_model(
    imap: Seq<u32>,
    areas: Seq<(Seq<u32>, u32, u32, u32, u32, u32, u32)>,
    state: u32,
    plate_count: u32,
    w: u32,
    h: u32,
    i: int,
) -> (Seq<u32>, Seq<(Seq<u32>, u32, u32, u32, u32, u32, u32)>, u32) {
    let st = lcg_step(state);
    let j = (st as int) % (areas[i].0.len() as int);
    let p = areas[i].0[j] as int;
    let cx = p % (w as int);
    let cy = p / (w as int);
    let top = (if cy > 0 { cy - 1 } else { h - 1 }) as u32;
    let bottom = (if cy < h - 1 { cy + 1 } else { 0 }) as u32;
    let left = (if cx > 0 { cx - 1 } else { w - 1 }) as u32;
    let right = (if cx < w - 1 { cx + 1 } else { 0 }) as u32;
    let c1 = claim_model(imap, areas, plate_count, w, h, i, top * w + cx, Side::North, top);
    let c2 = claim_model(c1.0, c1.1, plate_count, w, h, i, bottom * w + cx, Side::South, bottom);
    let c3 = claim_model(c2.0, c2.1, plate_count, w, h, i, cy * w + left, Side::West, left);
    let c4 = claim_model(c3.0, c3.1, plate_count, w, h, i, cy * w + right, Side::East, right);
    let a = c4.1[i];
    let border = a.0.update(j, a.0.last()).drop_last();
    (c4.0, c4.1.update(i, (border, a.1, a.2, a.3, a.4, a.5, a.6)), st)
}

/// A claim on plain values changes at most the cell `index`, giving it to
/// plate `i` when it belonged to no plate; afterwards that cell belongs to
/// some plate.
proof fn lemma_claim_model_map(
    imap: Seq<u32>,
    areas: Seq<(Seq<u32>, u32, u32, u32, u32, u32, u32)>,
    plate_count: u32,
    w: u32,
    h: u32,
    i: int,
    index: int,
    side: Side,
    edge: u32,
)
    requires
        0 <= index < imap.len(),
        index <= u32::MAX,
        0 <= i < plate_count,
        i < areas.len(),
    ensures
        ({
            let r = claim_model(imap, areas, plate_count, w, h, i, index, side, edge);
            &&& r.0.len() == imap.len()
            &&& r.0[index] < plate_count
            &&& forall|c: int| 0 <= c < imap.len() && imap[c] < plate_count ==> #[trigger] r.0[c] == imap[c]
            &&& forall|c: int|
                0 <= c < imap.len() && #[trigger] r.0[c] != imap[c] ==> c == index && r.0[c] == i
            &&& r.1.len() == areas.len()
            &&& forall|k: int| 0 <= k < areas.len() && k != i ==> #[trigger] r.1[k] == areas[k]
            &&& r.1[i].0.len() >= areas[i].0.len()
            &&& forall|k: int| 0 <= k < areas[i].0.len() ==> #[trigger] r.1[i].0[k] == areas[i].0[k]
            &&& forall|v: u32|
                #[trigger] r.1[i].0.to_multiset().count(v) == areas[i].0.to_multiset().count(v) + (
                if v as int == index && imap[index] >= plate_count {
                    1int
                } else {
                    0int
                })
        }),
{
    broadcast use vstd::seq_lib::group_to_multiset_ensures;

    if imap[index] >= plate_count {
        let r = claim_model(imap, areas, plate_count, w, h, i, index, side, edge);
        assert(r.1[i].0 == areas[i].0.push(index as u32));
    }
}

/// Moving the last entry into slot `j` and dropping the last slot removes
/// the entry at `j` once, as a multiset.
proof fn lemma_swap_remove_multiset(s: Seq<u32>, j: int)
    requires
        0 <= j < s.len(),
    ensures
        s.update(j, s.last()).drop_last().to_multiset() =~= s.to_multiset().remove(s[j]),
{
    broadcast use vstd::seq_lib::group_to_multiset_ensures;

    let t = s.update(j, s.last());
    let nb = t.drop_last();
    assert(t.remove(j) =~= s.remove(j));
    assert(nb =~= t.remove(t.len() - 1));
    assert(t.remove(j).to_multiset() == t.to_multiset().remove(t[j]));
    assert(s.remove(j).to_multiset() == s.to_multiset().remove(s[j]));
    assert(nb.to_multiset() == t.to_multiset().remove(t[t.len() - 1]));
}

/// Four claims in a row add a cell to the border once exactly when they
/// take it from no plate: the counts `k0` to `k4` of `v` in the border
/// grow by one at a claim that takes `v`.
proof fn lemma_four_claims_count(
    m0: Seq<u32>,
    m1: Seq<u32>,
    m2: Seq<u32>,
    m3: Seq<u32>,
    m4: Seq<u32>,
    plate_count: u32,
    x1: int,
    x2: int,
    x3: int,
    x4: int,
    v: int,
    k0: int,
    k1: int,
    k2: int,
    k3: int,
    k4: int,
)
    requires
        m1[v] != m0[v] ==> v == x1 && m1[v] < plate_count,
        m2[v] != m1[v] ==> v == x2 && m2[v] < plate_count,
        m3[v] != m2[v] ==> v == x3 && m3[v] < plate_count,
        m4[v] != m3[v] ==> v == x4 && m4[v] < plate_count,
        m0[v] < plate_count ==> m1[v] == m0[v],
        m1[v] < plate_count ==> m2[v] == m1[v],
        m2[v] < plate_count ==> m3[v] == m2[v],
        m3[v] < plate_count ==> m4[v] == m3[v],
        v == x1 ==> m1[v] < plate_count,
        v == x2 ==> m2[v] < plate_count,
        v == x3 ==> m3[v] < plate_count,
        v == x4 ==> m4[v] < plate_count,
        k1 == k0 + (if v == x1 && m0[x1] >= plate_count { 1int } else { 0int }),
        k2 == k1 + (if v == x2 && m1[x2] >= plate_count { 1int } else { 0int }),
        k3 == k2 + (if v == x3 && m2[x3] >= plate_count { 1int } else { 0int }),
        k4 == k3 + (if v == x4 && m3[x4] >= plate_count { 1int } else { 0int }),
    ensures
        k4 == k0 + (if m0[v] >= plate_count && m4[v] < plate_count { 1int } else { 0int }),
{
}

/// The border side of a growth step: plate `i`'s border loses the drawn
/// cell once and gains each cell the step took, once; the other plates'
/// regions are untouched.
proof fn lemma_step_border(
    imap: Seq<u32>,
    areas: Seq<(Seq<u32>, u32, u32, u32, u32, u32, u32)>,
    state: u32,
    plate_count: u32,
    w: u32,
    h: u32,
    i: int,
)
    requires
        w > 0,
        h > 0,
        w * h <= u32::MAX,
        imap.len() == w * h,
        0 <= i < areas.len(),
        i < plate_count,
        areas[i].0.len() > 0,
        forall|k: int| 0 <= k < areas[i].0.len() ==> #[trigger] areas[i].0[k] < w * h,
    ensures
        ({
            let st = lcg_step(state);
            let p = areas[i].0[(st as int) % (areas[i].0.len() as int)] as int;
            let s = step_model(imap, areas, state, plate_count, w, h, i);
            &&& s.1.len() == areas.len()
            &&& forall|k: int| 0 <= k < areas.len() && k != i ==> #[trigger] s.1[k] == areas[k]
            &&& forall|v: u32|
                #[trigger] s.1[i].0.to_multiset().count(v) == areas[i].0.to_multiset().count(v) - (
                if v as int == p {
                    1int
                } else {
                    0int
                }) + (if v < imap.len() && imap[v as int] >= plate_count && s.0[v as int]
                    < plate_count {
                    1int
                } else {
                    0int
                })
        }),
{
    let st = lcg_step(state);
    let len = areas[i].0.len() as int;
    let j = (st as int) % len;
    let p = areas[i].0[j] as int;
    let wi = w as int;
    let hi = h as int;
    lemma_cell_split(wi, hi, p);
    lemma_neighbours_in_map(wi, hi, p);
    let cx = p % wi;
    let cy = p / wi;
    let top = (if cy > 0 { cy - 1 } else { hi - 1 }) as u32;
    let bottom = (if cy < hi - 1 { cy + 1 } else { 0 }) as u32;
    let left = (if cx > 0 { cx - 1 } else { wi - 1 }) as u32;
    let right = (if cx < wi - 1 { cx + 1 } else { 0 }) as u32;
    assert(top as int == row_above(wi, hi, p));
    assert(bottom as int == row_below(wi, hi, p));
    assert(left as int == col_left(wi, p));
    assert(right as int == col_right(wi, p));
    let n = north_of(wi, hi, p);
    let so = south_of(wi, hi, p);
    let we = west_of(wi, p);
    let ea = east_of(wi, p);
    assert(top * w + cx == n);
    assert(bottom * w + cx == so);
    assert(cy * w + left == we);
    assert(cy * w + right == ea);
    let c1 = claim_model(imap, areas, plate_count, w, h, i, n, Side::North, top);
    lemma_claim_model_map(imap, areas, plate_count, w, h, i, n, Side::North, top);
    let c2 = claim_model(c1.0, c1.1, plate_count, w, h, i, so, Side::South, bottom);
    lemma_claim_model_map(c1.0, c1.1, plate_count, w, h, i, so, Side::South, bottom);
    let c3 = claim_model(c2.0, c2.1, plate_count, w, h, i, we, Side::West, left);
    lemma_claim_model_map(c2.0, c2.1, plate_count, w, h, i, we, Side::West, left);
    let c4 = claim_model(c3.0, c3.1, plate_count, w, h, i, ea, Side::East, right);
    lemma_claim_model_map(c3.0, c3.1, plate_count, w, h, i, ea, Side::East, right);
    let s = step_model(imap, areas, state, plate_count, w, h, i);
    assert(s.0 == c4.0);
    let a = c4.1[i];
    let b0 = areas[i].0;
    assert(a.0[j] == b0[j]);
    let nb = a.0.update(j, a.0.last()).drop_last();
    assert(s.1[i].0 == nb);
    lemma_swap_remove_multiset(a.0, j);
    assert(b0.to_multiset().count(p as u32) > 0) by {
        broadcast use vstd::seq_lib::group_to_multiset_ensures;

        assert(b0[j] == p as u32);
        assert(b0.contains(p as u32));
    }
    assert forall|v: u32| #[trigger] s.1[i].0.to_multiset().count(v) == areas[i].0.to_multiset().count(v)
        - (if v as int == p { 1int } else { 0int }) + (if v < imap.len() && imap[v as int]
        >= plate_count && s.0[v as int] < plate_count { 1int } else { 0int }) by {
        let vi = v as int;
        let k0 = b0.to_multiset().count(v) as int;
        let k1 = c1.1[i].0.to_multiset().count(v) as int;
        let k2 = c2.1[i].0.to_multiset().count(v) as int;
        let k3 = c3.1[i].0.to_multiset().count(v) as int;
        let k4 = a.0.to_multiset().count(v) as int;
        if vi < imap.len() {
            assert(c1.0[vi] != imap[vi] ==> vi == n && c1.0[vi] < plate_count);
            assert(c2.0[vi] != c1.0[vi] ==> vi == so && c2.0[vi] < plate_count);
            assert(c3.0[vi] != c2.0[vi] ==> vi == we && c3.0[vi] < plate_count);
            assert(c4.0[vi] != c3.0[vi] ==> vi == ea && c4.0[vi] < plate_count);
            lemma_four_claims_count(imap, c1.0, c2.0, c3.0, c4.0, plate_count, n, so, we, ea, vi, k0, k1, k2, k3, k4);
        } else {
            assert(k1 == k0);
            assert(k2 == k1);
            assert(k3 == k2);
            assert(k4 == k3);
        }
    }
    assert forall|k: int| 0 <= k < areas.len() && k != i implies #[trigger] s.1[k] == areas[k] by {
        assert(c1.1[k] == areas[k]);
        assert(c2.1[k] == c1.1[k]);
        assert(c3.1[k] == c2.1[k]);
        assert(c4.1[k] == c3.1[k]);
    }
}

/// A growth step expands from the border cell that the generator's draw
/// picks: the generator moves on once, and with `p` the border entry at
/// the new state modulo the border's length, the four neighbours of `p`
/// belong to a plate afterwards, cells that belonged to a plate keep it,
/// and the only cells that change are unassigned neighbours of `p`, which
/// go to plate `i`. Plate `i`'s border loses `p` once and gains each cell
/// it took, once; the other plates' regions are untouched.
pub proof fn lemma_growth_step_expands_drawn_cell(
    imap: Seq<u32>,
    areas: Seq<(Seq<u32>, u32, u32, u32, u32, u32, u32)>,
    state: u32,
    plate_count: u32,
    w: u32,
    h: u32,
    i: int,
)
    requires
        w > 0,
        h > 0,
        w * h <= u32::MAX,
        imap.len() == w * h,
        0 <= i < areas.len(),
        i < plate_count,
        areas[i].0.len() > 0,
        forall|k: int| 0 <= k < areas[i].0.len() ==> #[trigger] areas[i].0[k] < w * h,
    ensures
        ({
            let st = lcg_step(state);
            let p = areas[i].0[(st as int) % (areas[i].0.len() as int)] as int;
            let s = step_model(imap, areas, state, plate_count, w, h, i);
            let (n, so, we, ea) = (
                north_of(w as int, h as int, p),
                south_of(w as int, h as int, p),
                west_of(w as int, p),
                east_of(w as int, p),
            );
            &&& s.2 == st
            &&& s.0.len() == imap.len()
            &&& s.0[n] < plate_count
            &&& s.0[so] < plate_count
            &&& s.0[we] < plate_count
            &&& s.0[ea] < plate_count
            &&& forall|c: int|
                0 <= c < imap.len() && imap[c] < plate_count ==> #[trigger] s.0[c] == imap[c]
            &&& forall|c: int|
                0 <= c < imap.len() && #[trigger] s.0[c] != imap[c] ==> s.0[c] == i && (c == n
                    || c == so || c == we || c == ea)
            &&& s.1.len() == areas.len()
            &&& forall|k: int| 0 <= k < areas.len() && k != i ==> #[trigger] s.1[k] == areas[k]
            &&& forall|v: u32|
                #[trigger] s.1[i].0.to_multiset().count(v) == areas[i].0.to_multiset().count(v) - (
                if v as int == p {
                    1int
                } else {
                    0int
                }) + (if v < imap.len() && imap[v as int] >= plate_count && s.0[v as int]
                    < plate_count {
                    1int
                } else {
                    0int
                })
        }),
{
    broadcast use vstd::seq_lib::group_to_multiset_ensures;

    let st = lcg_step(state);
    let len = areas[i].0.len() as int;
    let j = (st as int) % len;
    assert(0 <= j < len);
    let p = areas[i].0[j] as int;
    assert(p < w * h);
    let wi = w as int;
    let hi = h as int;
    lemma_cell_split(wi, hi, p);
    lemma_neighbours_in_map(wi, hi, p);
    let cx = p % wi;
    let cy = p / wi;
    let top = (if cy > 0 { cy - 1 } else { hi - 1 }) as u32;
    let bottom = (if cy < hi - 1 { cy + 1 } else { 0 }) as u32;
    let left = (if cx > 0 { cx - 1 } else { wi - 1 }) as u32;
    let right = (if cx < wi - 1 { cx + 1 } else { 0 }) as u32;
    assert(top as int == row_above(wi, hi, p));
    assert(bottom as int == row_below(wi, hi, p));
    assert(left as int == col_left(wi, p));
    assert(right as int == col_right(wi, p));
    let n = north_of(wi, hi, p);
    let so = south_of(wi, hi, p);
    let we = west_of(wi, p);
    let ea = east_of(wi, p);
    assert(top * w + cx == n);
    assert(bottom * w + cx == so);
    assert(cy * w + left == we);
    assert(cy * w + right == ea);
    let c1 = claim_model(imap, areas, plate_count, w, h, i, n, Side::North, top);
    lemma_claim_model_map(imap, areas, plate_count, w, h, i, n, Side::North, top);
    let c2 = claim_model(c1.0, c1.1, plate_count, w, h, i, so, Side::South, bottom);
    lemma_claim_model_map(c1.0, c1.1, plate_count, w, h, i, so, Side::South, bottom);
    let c3 = claim_model(c2.0, c2.1, plate_count, w, h, i, we, Side::West, left);
    lemma_claim_model_map(c2.0, c2.1, plate_count, w, h, i, we, Side::West, left);
    let c4 = claim_model(c3.0, c3.1, plate_count, w, h, i, ea, Side::East, right);
    lemma_claim_model_map(c3.0, c3.1, plate_count, w, h, i, ea, Side::East, right);
    let s = step_model(imap, areas, state, plate_count, w, h, i);
    assert(s.0 == c4.0);
    assert(c2.0[n] == c1.0[n]);
    assert(c3.0[n] == c2.0[n]);
    assert(c3.0[so] == c2.0[so]);
    assert(c4.0[n] == c3.0[n]);
    assert(c4.0[so] == c3.0[so]);
    assert(c4.0[we] == c3.0[we]);
    assert forall|c: int| 0 <= c < imap.len() && imap[c] < plate_count implies #[trigger] s.0[c]
        == imap[c] by {
        assert(c1.0[c] == imap[c]);
        assert(c2.0[c] == c1.0[c]);
        assert(c3.0[c] == c2.0[c]);
        assert(c4.0[c] == c3.0[c]);
    }
    assert forall|c: int| 0 <= c < imap.len() && #[trigger] s.0[c] != imap[c] implies s.0[c] == i
        && (c == n || c == so || c == we || c == ea) by {
        if c4.0[c] != c3.0[c] {
        } else if c3.0[c] != c2.0[c] {
            assert(c4.0[c] == c3.0[c]);
        } else if c2.0[c] != c1.0[c] {
            assert(c3.0[c] < plate_count);
        } else {
            assert(c1.0[c] != imap[c]);
            assert(c1.0[c] < plate_count);
        }
    }
    lemma_step_border(imap, areas, state, plate_count, w, h, i);
}

/// One round of growth on plain values from plate `i` on: each plate with
/// border cells takes a growth step; also answers the largest border
/// length seen, starting from `max_border`.
pub open spec fn round_model(
    imap: Seq<u32>,
    areas: Seq<(Seq<u32>, u32, u32, u32, u32, u32, u32)>,
    state: u32,
    plate_count: u32,
    w: u32,
    h: u32,
    i: nat,
    max_border: nat,
) -> (Seq<u32>, Seq<(Seq<u32>, u32, u32, u32, u32, u32, u32)>, u32, nat)
    decreases plate_count - i,
{
    if i >= plate_count {
        (imap, areas, state, max_border)
    } else {
        let len = areas[i as int].0.len();
        let max2 = if len > max_border {
            len
        } else {
            max_border
        };
        if len == 0 {
            round_model(imap, areas, state, plate_count, w, h, i + 1, max2)
        } else {
            let s = step_model(imap, areas, state, plate_count, w, h, i as int);
            round_model(s.0, s.1, s.2, plate_count, w, h, i + 1, max2)
        }
    }
}

/// Growth on plain values: rounds are run until one finds every border
/// empty, for at most `rounds` rounds. Answers the plate of each cell, the
/// plates' regions and the generator's state.
pub open spec fn grow_model(
    imap: Seq<u32>,
    areas: Seq<(Seq<u32>, u32, u32, u32, u32, u32, u32)>,
    state: u32,
    plate_count: u32,
    w: u32,
    h: u32,
    rounds: nat,
) -> (Seq<u32>, Seq<(Seq<u32>, u32, u32, u32, u32, u32, u32)>, u32)
    decreases rounds,
{
    if rounds == 0 {
        (imap, areas, state)
    } else {
        let r = round_model(imap, areas, state, plate_count, w, h, 0, 0);
        if r.3 == 0 {
            (r.0, r.1, r.2)
        } else {
            grow_model(r.0, r.1, r.2, plate_count, w, h, (rounds - 1) as nat)
        }
    }
}

/// The regions plates start from, as plain values: each plate's border is
/// its seed and its box is the seed's cell.
pub open spec fn seed_models(seeds: Seq<u32>, w: u32) -> Seq<(Seq<u32>, u32, u32, u32, u32, u32, u32)> {
    Seq::new(
        seeds.len(),
        |k: int| (seq![seeds[k]], seeds[k] % w, seeds[k] % w, seeds[k] / w, seeds[k] / w, 1u32, 1u32),
    )
}

proof fn lemma_border_total_ones(areas: Seq<PlateArea>, n: nat)
    requires
        n <= areas.len(),
        forall|k: int| 0 <= k < n ==> (#[trigger] areas[k]).border@.len() == 1,
    ensures
        border_total(areas, n) == n,
    decreases n,
{
    if n > 0 {
        lemma_border_total_ones(areas, (n - 1) as nat);
    }
}

/// The next position round a circle of `n`, as the world's `x_mod` and
/// `y_mod` compute it.
proof fn lemma_wrap_next(x: u32, n: u32)
    requires
        x < n,
        2 * n < u32::MAX,
    ensures
        wrap_mod((x + 1) as u32, n) == if x + 1 < n {
            x + 1
        } else {
            0
        },
{
    assert(((x + 1) as u32 + n) % 0x1_0000_0000 == x + 1 + n);
    if x + 1 < n {
        vstd::arithmetic::div_mod::lemma_mod_add_multiples_vanish((x + 1) as int, n as int);
        vstd::arithmetic::div_mod::lemma_small_mod((x + 1) as nat, n as nat);
    } else {
        assert(x + 1 + n == 2 * n);
        vstd::arithmetic::div_mod::lemma_mod_multiples_basic(2, n as int);
    }
}

/// Growing a box along one axis by the position `t` just before the
/// position `x` it holds: the box starts at `t` when `x` was its first
/// position.
proof fn lemma_extend_before(s: int, e: int, len: int, n: int, x: int, t: int, s2: int, len2: int)
    requires
        0 <= s < n,
        0 <= e < n,
        0 <= x < n,
        1 <= len,
        wrap_offset(x, s, n) < len,
        len <= n ==> wrap_offset(e, s, n) == len - 1,
        t == if x > 0 {
            x - 1
        } else {
            n - 1
        },
        s == x ==> s2 == t && len2 == len + 1,
        s != x ==> s2 == s && len2 == len,
    ensures
        0 <= s2 < n,
        len <= len2,
        wrap_offset(t, s2, n) < len2,
        forall|y: int| 0 <= y < n && wrap_offset(y, s, n) < len ==> wrap_offset(y, s2, n) < len2,
        len2 <= n ==> wrap_offset(e, s2, n) == len2 - 1,
{
}

/// Growing a box along one axis by the position `t` just after the
/// position `x` it holds: the box ends at `t` when `x` was its last
/// position.
proof fn lemma_extend_after(s: int, e: int, len: int, n: int, x: int, t: int, e2: int, len2: int)
    requires
        0 <= s < n,
        0 <= e < n,
        0 <= x < n,
        1 <= len,
        wrap_offset(x, s, n) < len,
        len <= n ==> wrap_offset(e, s, n) == len - 1,
        t == if x < n - 1 {
            x + 1
        } else {
            0
        },
        e == x ==> e2 == t && len2 == len + 1,
        e != x ==> e2 == e && len2 == len,
    ensures
        0 <= e2 < n,
        len <= len2,
        wrap_offset(t, s, n) < len2,
        len2 <= n ==> wrap_offset(e2, s, n) == len2 - 1,
{
}

/// What `claim_plate_neighbor` does to the box of the claiming plate keeps
/// it well formed, keeps every cell it held, and takes in the claimed
/// neighbour `index` of its cell `p`.
#[verifier::spinoff_prover]
proof fn lemma_box_claim(a: PlateArea, b: PlateArea, w: u32, h: u32, p: int, index: int, side: Side, edge: u32)
    requires
        0 < w,
        0 < h,
        2 * w < u32::MAX,
        2 * h < u32::MAX,
        0 <= p < w * h,
        area_shape(a, w as int, h as int),
        area_holds(a, w as int, h as int, p),
        ({
            let cx = p % (w as int);
            let cy = p / (w as int);
            match side {
                Side::North => {
                    &&& edge == (if cy > 0 { cy - 1 } else { h - 1 })
                    &&& index == edge * w + cx
                    &&& b.left == a.left && b.right == a.right && b.bottom == a.bottom
                    &&& b.width == a.width
                    &&& if a.top == wrap_mod((edge + 1) as u32, h) {
                        b.top == edge && b.height == a.height + 1
                    } else {
                        b.top == a.top && b.height == a.height
                    }
                },
                Side::South => {
                    &&& edge == (if cy < h - 1 { cy + 1 } else { 0 })
                    &&& index == edge * w + cx
                    &&& b.left == a.left && b.right == a.right && b.top == a.top
                    &&& b.width == a.width
                    &&& if edge == wrap_mod((a.bottom + 1) as u32, h) {
                        b.bottom == edge && b.height == a.height + 1
                    } else {
                        b.bottom == a.bottom && b.height == a.height
                    }
                },
                Side::West => {
                    &&& edge == (if cx > 0 { cx - 1 } else { w - 1 })
                    &&& index == cy * w + edge
                    &&& b.top == a.top && b.bottom == a.bottom && b.right == a.right
                    &&& b.height == a.height
                    &&& if a.left == wrap_mod((edge + 1) as u32, w) {
                        b.left == edge && b.width == a.width + 1
                    } else {
                        b.left == a.left && b.width == a.width
                    }
                },
                Side::East => {
                    &&& edge == (if cx < w - 1 { cx + 1 } else { 0 })
                    &&& index == cy * w + edge
                    &&& b.top == a.top && b.bottom == a.bottom && b.left == a.left
                    &&& b.height == a.height
                    &&& if edge == wrap_mod((a.right + 1) as u32, w) {
                        b.right == edge && b.width == a.width + 1
                    } else {
                        b.right == a.right && b.width == a.width
                    }
                },
            }
        }),
    ensures
        area_shape(b, w as int, h as int),
        area_holds(b, w as int, h as int, index),
        forall|c: int|
            0 <= c < w * h && area_holds(a, w as int, h as int, c) ==> #[trigger] area_holds(
                b,
                w as int,
                h as int,
                c,
            ),
{
    let wi = w as int;
    let hi = h as int;
    let cx = p % wi;
    let cy = p / wi;
    lemma_cell_split(wi, hi, p);
    match side {
        Side::North => {
            lemma_wrap_next(edge, h);
            lemma_coords(wi, hi, cx, edge as int);
            lemma_extend_before(
                a.top as int,
                a.bottom as int,
                a.height as int,
                hi,
                cy,
                edge as int,
                b.top as int,
                b.height as int,
            );
        },
        Side::South => {
            lemma_wrap_next(a.bottom, h);
            lemma_coords(wi, hi, cx, edge as int);
            lemma_extend_after(
                a.top as int,
                a.bottom as int,
                a.height as int,
                hi,
                cy,
                edge as int,
                b.bottom as int,
                b.height as int,
            );
        },
        Side::West => {
            lemma_wrap_next(edge, w);
            lemma_coords(wi, hi, edge as int, cy);
            lemma_extend_before(
                a.left as int,
                a.right as int,
                a.width as int,
                wi,
                cx,
                edge as int,
                b.left as int,
                b.width as int,
            );
        },
        Side::East => {
            lemma_wrap_next(a.right, w);
            lemma_coords(wi, hi, edge as int, cy);
            lemma_extend_after(
                a.left as int,
                a.right as int,
                a.width as int,
                wi,
                cx,
                edge as int,
                b.right as int,
                b.width as int,
            );
        },
    }
    assert forall|c: int|
        0 <= c < w * h && area_holds(a, wi, hi, c) implies #[trigger] area_holds(b, wi, hi, c) by {
        lemma_cell_split(wi, hi, c);
    }
}

/// The world is small enough that stepping one cell round it never
/// overflows, as the bounding boxes' growth assumes.
pub open spec fn box_safe(w: int, h: int) -> bool {
    2 * w < u32::MAX && 2 * h < u32::MAX
}

/// The cell `index` lies on side `side` of the cell `p`, `edge` being its
/// row (north, south) or column (west, east).
pub open spec fn side_step(w: int, h: int, p: int, index: int, side: Side, edge: int) -> bool {
    let cx = p % w;
    let cy = p / w;
    match side {
        Side::North => edge == (if cy > 0 { cy - 1 } else { h - 1 }) && index == edge * w + cx,
        Side::South => edge == (if cy < h - 1 { cy + 1 } else { 0 }) && index == edge * w + cx,
        Side::West => edge == (if cx > 0 { cx - 1 } else { w - 1 }) && index == cy * w + edge,
        Side::East => edge == (if cx < w - 1 { cx + 1 } else { 0 }) && index == cy * w + edge,
    }
}

/// A claim by plate `i` of the neighbour `index` of its box's cell `p`
/// keeps every box well formed and holding its plate's cells.
#[verifier::spinoff_prover]
proof fn lemma_boxes_claim(
    imap: Seq<u32>,
    areas: Seq<PlateArea>,
    imap2: Seq<u32>,
    areas2: Seq<PlateArea>,
    plate_count: u32,
    w: u32,
    h: u32,
    i: int,
    index: int,
    p: int,
    side: Side,
    edge: u32,
)
    requires
        grow_boxes(imap, areas, plate_count, w as int, h as int),
        0 < w,
        0 < h,
        box_safe(w as int, h as int),
        imap.len() == w * h,
        w * h < u32::MAX,
        areas.len() == plate_count,
        0 <= i < plate_count,
        0 <= p < w * h,
        0 <= index < w * h,
        area_holds(areas[i], w as int, h as int, p),
        side_step(w as int, h as int, p, index, side, edge as int),
        imap[index] >= plate_count,
        imap2 == imap.update(index, i as u32),
        areas2.len() == areas.len(),
        forall|k: int| 0 <= k < areas.len() && k != i ==> #[trigger] areas2[k] == areas[k],
        areas2[i].border@ == areas[i].border@.push(index as u32),
        ({
            let a = areas[i];
            let b = areas2[i];
            match side {
                Side::North => {
                    &&& b.left == a.left && b.right == a.right && b.bottom == a.bottom
                    &&& b.width == a.width
                    &&& if a.top == wrap_mod((edge + 1) as u32, h) {
                        b.top == edge && b.height == a.height + 1
                    } else {
                        b.top == a.top && b.height == a.height
                    }
                },
                Side::South => {
                    &&& b.left == a.left && b.right == a.right && b.top == a.top
                    &&& b.width == a.width
                    &&& if edge == wrap_mod((a.bottom + 1) as u32, h) {
                        b.bottom == edge && b.height == a.height + 1
                    } else {
                        b.bottom == a.bottom && b.height == a.height
                    }
                },
                Side::West => {
                    &&& b.top == a.top && b.bottom == a.bottom && b.right == a.right
                    &&& b.height == a.height
                    &&& if a.left == wrap_mod((edge + 1) as u32, w) {
                        b.left == edge && b.width == a.width + 1
                    } else {
                        b.left == a.left && b.width == a.width
                    }
                },
                Side::East => {
                    &&& b.top == a.top && b.bottom == a.bottom && b.left == a.left
                    &&& b.height == a.height
                    &&& if edge == wrap_mod((a.right + 1) as u32, w) {
                        b.right == edge && b.width == a.width + 1
                    } else {
                        b.right == a.right && b.width == a.width
                    }
                },
            }
        }),
    ensures
        grow_boxes(imap2, areas2, plate_count, w as int, h as int),
        area_holds(areas2[i], w as int, h as int, p),
{
    reveal(grow_boxes);
    let a = areas[i];
    let b = areas2[i];
    assert(area_shape(a, w as int, h as int));
    lemma_box_claim(a, b, w, h, p, index, side, edge);
    assert forall|k: int| 0 <= k < plate_count implies area_shape(#[trigger] areas2[k], w as int, h as int) by {
        if k != i {
            assert(areas2[k] == areas[k]);
        }
    }
    assert forall|k: int, j: int|
        0 <= k < plate_count && 0 <= j < areas2[k].border@.len() implies #[trigger] areas2[k].border@[j]
        < imap2.len() && area_holds(areas2[k], w as int, h as int, areas2[k].border@[j] as int) by {
        if k != i {
            assert(areas2[k] == areas[k]);
        } else if j < a.border@.len() {
            assert(areas2[k].border@[j] == a.border@[j]);
            assert(a.border@[j] < imap.len() && area_holds(a, w as int, h as int, a.border@[j] as int));
        } else {
            assert(areas2[k].border@[j] == index as u32);
        }
    }
    assert forall|c: int|
        0 <= c < imap2.len() && #[trigger] imap2[c] < plate_count implies area_holds(
        areas2[imap2[c] as int],
        w as int,
        h as int,
        c,
    ) by {
        if c != index {
            assert(imap2[c] == imap[c]);
            if imap[c] != i {
                assert(areas2[imap[c] as int] == areas[imap[c] as int]);
            } else {
                assert(area_holds(a, w as int, h as int, c));
            }
        }
    }
}

/// A border cell of a plate lies in the map and in the plate's box.
proof fn lemma_boxes_border(
    imap: Seq<u32>,
    areas: Seq<PlateArea>,
    plate_count: u32,
    w: int,
    h: int,
    i: int,
    j: int,
)
    requires
        grow_boxes(imap, areas, plate_count, w, h),
        0 <= i < plate_count,
        0 <= j < areas[i].border@.len(),
    ensures
        areas[i].border@[j] < imap.len(),
        area_holds(areas[i], w, h, areas[i].border@[j] as int),
{
    reveal(grow_boxes);
}

/// Dropping a cell from a plate's border keeps the boxes holding its
/// remaining border cells.
proof fn lemma_boxes_remove(
    imap: Seq<u32>,
    areas: Seq<PlateArea>,
    areas2: Seq<PlateArea>,
    plate_count: u32,
    w: int,
    h: int,
    i: int,
    j: int,
)
    requires
        grow_boxes(imap, areas, plate_count, w, h),
        0 <= i < plate_count,
        0 <= j < areas[i].border@.len(),
        areas.len() == plate_count,
        areas2.len() == areas.len(),
        forall|k: int| 0 <= k < areas.len() && k != i ==> #[trigger] areas2[k] == areas[k],
        areas2[i].border@ == areas[i].border@.update(j, areas[i].border@.last()).drop_last(),
        areas2[i].left == areas[i].left,
        areas2[i].right == areas[i].right,
        areas2[i].top == areas[i].top,
        areas2[i].bottom == areas[i].bottom,
        areas2[i].width == areas[i].width,
        areas2[i].height == areas[i].height,
    ensures
        grow_boxes(imap, areas2, plate_count, w, h),
{
    reveal(grow_boxes);
    let bd = areas[i].border@;
    assert forall|k: int| 0 <= k < plate_count implies area_shape(#[trigger] areas2[k], w, h) by {
        if k != i {
            assert(areas2[k] == areas[k]);
        }
    }
    assert forall|k: int, q: int|
        0 <= k < plate_count && 0 <= q < areas2[k].border@.len() implies #[trigger] areas2[k].border@[q]
        < imap.len() && area_holds(areas2[k], w, h, areas2[k].border@[q] as int) by {
        if k != i {
            assert(areas2[k] == areas[k]);
        } else if q == j {
            assert(bd[bd.len() - 1] < imap.len() && area_holds(areas[i], w, h, bd[bd.len() - 1] as int));
        } else {
            assert(bd[q] < imap.len() && area_holds(areas[i], w, h, bd[q] as int));
        }
    }
    assert forall|c: int|
        0 <= c < imap.len() && #[trigger] imap[c] < plate_count implies area_holds(
        areas2[imap[c] as int],
        w,
        h,
        c,
    ) by {
        if imap[c] != i {
            assert(areas2[imap[c] as int] == areas[imap[c] as int]);
        }
    }
}

/// Each seed's one-cell box is well formed and holds the seed, and no cell
/// belongs to a plate yet.
proof fn lemma_seeds_boxes(imap: Seq<u32>, areas: Seq<PlateArea>, plate_count: u32, w: int, h: int)
    requires
        w > 0,
        h > 0,
        imap.len() == w * h,
        areas.len() == plate_count,
        forall|c: int| 0 <= c < imap.len() ==> #[trigger] imap[c] == u32::MAX,
        forall|i: int|
            0 <= i < plate_count ==> {
                let a = #[trigger] areas[i];
                &&& a.border@.len() == 1
                &&& a.border@[0] < w * h
                &&& a.left == a.border@[0] as int % w
                &&& a.right == a.left
                &&& a.top == a.border@[0] as int / w
                &&& a.bottom == a.top
                &&& a.width == 1
                &&& a.height == 1
            },
    ensures
        grow_boxes(imap, areas, plate_count, w, h),
{
    reveal(grow_boxes);
    assert forall|i: int| 0 <= i < plate_count implies area_shape(#[trigger] areas[i], w, h) by {
        lemma_cell_split(w, h, areas[i].border@[0] as int);
    }
    assert forall|i: int, j: int|
        0 <= i < plate_count && 0 <= j < areas[i].border@.len() implies #[trigger] areas[i].border@[j]
        < imap.len() && area_holds(areas[i], w, h, areas[i].border@[j] as int) by {
        assert(j == 0);
        lemma_cell_split(w, h, areas[i].border@[0] as int);
    }
}

/// Gives the cell `index` to plate `plate_id` when it belongs to no plate
/// yet: the cell joins the plate's border and the plate's bounding box
/// grows by one row or column on `side` when the cell lies right beyond
/// that edge, its coordinate across the edge being `edge`.
pub fn claim_plate_neighbor(
    imap: &mut Vec<u32>,
    plate_areas: &mut Vec<PlateArea>,
    dimensions: WorldDimension,
    plate_count: u32,
    plate_id: u32,
    index: u32,
    side: Side,
    edge: u32,
)
    requires
        plate_id < plate_count,
        plate_count == old(plate_areas)@.len(),
        index < old(imap)@.len(),
        edge < u32::MAX,
        old(imap)@[index as int] >= plate_count ==> {
            let a = old(plate_areas)@[plate_id as int];
            &&& a.bottom < u32::MAX
            &&& a.right < u32::MAX
            &&& a.width < u32::MAX
            &&& a.height < u32::MAX
        },
    ensures
        final(plate_areas)@.len() == old(plate_areas)@.len(),
        forall|k: int|
            0 <= k < old(plate_areas)@.len() && k != plate_id ==> #[trigger] final(plate_areas)@[k]
                == old(plate_areas)@[k],
        ({
            let a = old(plate_areas)@[plate_id as int];
            let b = final(plate_areas)@[plate_id as int];
            let w = dimensions.spec_width();
            let h = dimensions.spec_height();
            if old(imap)@[index as int] >= plate_count {
                &&& final(imap)@ == old(imap)@.update(index as int, plate_id)
                &&& b.border@ == a.border@.push(index)
                &&& match side {
                    Side::North => {
                        &&& b.left == a.left && b.right == a.right && b.bottom == a.bottom
                        &&& b.width == a.width
                        &&& if a.top == wrap_mod((edge + 1) as u32, h) {
                            b.top == edge && b.height == a.height + 1
                        } else {
                            b.top == a.top && b.height == a.height
                        }
                    },
                    Side::South => {
                        &&& b.left == a.left && b.right == a.right && b.top == a.top
                        &&& b.width == a.width
                        &&& if edge == wrap_mod((a.bottom + 1) as u32, h) {
                            b.bottom == edge && b.height == a.height + 1
                        } else {
                            b.bottom == a.bottom && b.height == a.height
                        }
                    },
                    Side::West => {
                        &&& b.top == a.top && b.bottom == a.bottom && b.right == a.right
                        &&& b.height == a.height
                        &&& if a.left == wrap_mod((edge + 1) as u32, w) {
                            b.left == edge && b.width == a.width + 1
                        } else {
                            b.left == a.left && b.width == a.width
                        }
                    },
                    Side::East => {
                        &&& b.top == a.top && b.bottom == a.bottom && b.left == a.left
                        &&& b.height == a.height
                        &&& if edge == wrap_mod((a.right + 1) as u32, w) {
                            b.right == edge && b.width == a.width + 1
                        } else {
                            b.right == a.right && b.width == a.width
                        }
                    },
                }
            } else {
                &&& final(imap)@ == old(imap)@
                &&& b == a
            }
        }),
{
    if imap[index as usize] >= plate_count {
        imap.set(index as usize, plate_id);
        let area = &mut plate_areas[plate_id as usize];
        area.border.push(index);
        match side {
            Side::North => {
                if area.top == dimensions.y_mod(edge + 1) {
                    area.top = edge;
                    area.height += 1;
                }
            },
            Side::South => {
                if edge == dimensions.y_mod(area.bottom + 1) {
                    area.bottom = edge;
                    area.height += 1;
                }
            },
            Side::West => {
                if area.left == dimensions.x_mod(edge + 1) {
                    area.left = edge;
                    area.width += 1;
                }
            },
            Side::East => {
                if edge == dimensions.x_mod(area.right + 1) {
                    area.right = edge;
                    area.width += 1;
                }
            },
        }
    }
}

proof fn lemma_coords(width: int, height: int, x: int, y: int)
    requires
        0 <= x < width,
        0 <= y < height,
    ensures
        (y * width + x) / width == y,
        (y * width + x) % width == x,
        0 <= y * width + x < width * height,
{
    vstd::arithmetic::div_mod::lemma_fundamental_div_mod_converse(y * width + x, width, y, x);
    assert(0 <= y * width + x < width * height) by (nonlinear_arith)
        requires
            0 <= x < width,
            0 <= y < height,
    ;
}

proof fn lemma_cell_split(width: int, height: int, c: int)
    requires
        width > 0,
        0 <= c < width * height,
    ensures
        0 <= c / width < height,
        0 <= c % width < width,
        c == (c / width) * width + c % width,
{
    vstd::arithmetic::div_mod::lemma_fundamental_div_mod(c, width);
    vstd::arithmetic::div_mod::lemma_div_pos_is_pos(c, width);
    vstd::arithmetic::div_mod::lemma_multiply_divide_lt(c, width, height);
    vstd::arithmetic::mul::lemma_mul_is_commutative(width, c / width);
}

/// The four neighbours of a cell lie on the map.
proof fn lemma_neighbours_in_map(width: int, height: int, c: int)
    requires
        width > 0,
        height > 0,
        0 <= c < width * height,
    ensures
        0 <= north_of(width, height, c) < width * height,
        0 <= south_of(width, height, c) < width * height,
        0 <= west_of(width, c) < width * height,
        0 <= east_of(width, c) < width * height,
{
    lemma_cell_split(width, height, c);
    lemma_coords(width, height, c % width, row_above(width, height, c));
    lemma_coords(width, height, c % width, row_below(width, height, c));
    lemma_coords(width, height, col_left(width, c), c / width);
    lemma_coords(width, height, col_right(width, c), c / width);
}

proof fn lemma_row_walk(imap: Seq<u32>, plate_count: u32, width: int, height: int, x0: int, y: int, k: nat)
    requires
        width > 0,
        height > 0,
        0 <= x0 < width,
        0 <= y < height,
        imap.len() == width * height,
        assigned(imap, plate_count, y * width + x0),
        forall|c: int|
            0 <= c < width * height && #[trigger] assigned(imap, plate_count, c)
                ==> neighbours_assigned(imap, plate_count, width, height, c),
    ensures
        assigned(imap, plate_count, y * width + (x0 + k) % width),
    decreases k,
{
    if k == 0 {
        vstd::arithmetic::div_mod::lemma_small_mod(x0 as nat, width as nat);
    } else {
        lemma_row_walk(imap, plate_count, width, height, x0, y, (k - 1) as nat);
        let x = (x0 + k - 1) % width;
        vstd::arithmetic::div_mod::lemma_mod_bound(x0 + k - 1, width);
        lemma_coords(width, height, x, y);
        let c = y * width + x;
        assert(neighbours_assigned(imap, plate_count, width, height, c));
        let q = (x0 + k - 1) / width;
        vstd::arithmetic::div_mod::lemma_fundamental_div_mod(x0 + k - 1, width);
        if x < width - 1 {
            assert(x0 + k == q * width + (x + 1)) by (nonlinear_arith)
                requires
                    x0 + k - 1 == width * q + x,
            ;
            vstd::arithmetic::div_mod::lemma_fundamental_div_mod_converse(x0 + k, width, q, x + 1);
        } else {
            assert(x0 + k == (q + 1) * width + 0) by (nonlinear_arith)
                requires
                    x0 + k - 1 == width * q + x,
                    x == width - 1,
            ;
            vstd::arithmetic::div_mod::lemma_fundamental_div_mod_converse(x0 + k, width, q + 1, 0);
        }
        assert(east_of(width, c) == y * width + (x0 + k) % width);
    }
}

proof fn lemma_column_walk(imap: Seq<u32>, plate_count: u32, width: int, height: int, x: int, y0: int, k: nat)
    requires
        width > 0,
        height > 0,
        0 <= x < width,
        0 <= y0 < height,
        imap.len() == width * height,
        assigned(imap, plate_count, y0 * width + x),
        forall|c: int|
            0 <= c < width * height && #[trigger] assigned(imap, plate_count, c)
                ==> neighbours_assigned(imap, plate_count, width, height, c),
    ensures
        assigned(imap, plate_count, ((y0 + k) % height) * width + x),
    decreases k,
{
    if k == 0 {
        vstd::arithmetic::div_mod::lemma_small_mod(y0 as nat, height as nat);
    } else {
        lemma_column_walk(imap, plate_count, width, height, x, y0, (k - 1) as nat);
        let y = (y0 + k - 1) % height;
        vstd::arithmetic::div_mod::lemma_mod_bound(y0 + k - 1, height);
        lemma_coords(width, height, x, y);
        let c = y * width + x;
        assert(neighbours_assigned(imap, plate_count, width, height, c));
        let q = (y0 + k - 1) / height;
        vstd::arithmetic::div_mod::lemma_fundamental_div_mod(y0 + k - 1, height);
        if y < height - 1 {
            assert(y0 + k == q * height + (y + 1)) by (nonlinear_arith)
                requires
                    y0 + k - 1 == height * q + y,
            ;
            vstd::arithmetic::div_mod::lemma_fundamental_div_mod_converse(y0 + k, height, q, y + 1);
        } else {
            assert(y0 + k == (q + 1) * height + 0) by (nonlinear_arith)
                requires
                    y0 + k - 1 == height * q + y,
                    y == height - 1,
            ;
            vstd::arithmetic::div_mod::lemma_fundamental_div_mod_converse(y0 + k, height, q + 1, 0);
        }
        assert(south_of(width, height, c) == ((y0 + k) % height) * width + x);
    }
}

/// On the wrapping map, a set of plate cells that holds a cell and the four
/// neighbours of each of its cells covers the whole map.
pub proof fn lemma_closed_region_covers_map(
    imap: Seq<u32>,
    plate_count: u32,
    width: int,
    height: int,
    c0: int,
)
    requires
        width > 0,
        height > 0,
        imap.len() == width * height,
        0 <= c0 < width * height,
        assigned(imap, plate_count, c0),
        forall|c: int|
            0 <= c < width * height && #[trigger] assigned(imap, plate_count, c)
                ==> neighbours_assigned(imap, plate_count, width, height, c),
    ensures
        forall|c: int| 0 <= c < width * height ==> #[trigger] assigned(imap, plate_count, c),
{
    lemma_cell_split(width, height, c0);
    let x0 = c0 % width;
    let y0 = c0 / width;
    assert forall|c: int| 0 <= c < width * height implies #[trigger] assigned(
        imap,
        plate_count,
        c,
    ) by {
        lemma_cell_split(width, height, c);
        let x = c % width;
        let y = c / width;
        lemma_row_walk(imap, plate_count, width, height, x0, y0, (x + width - x0) as nat);
        vstd::arithmetic::div_mod::lemma_mod_add_multiples_vanish(x, width);
        vstd::arithmetic::div_mod::lemma_small_mod(x as nat, width as nat);
        assert((x0 + (x + width - x0)) % width == x);
        lemma_column_walk(imap, plate_count, width, height, x, y0, (y + height - y0) as nat);
        vstd::arithmetic::div_mod::lemma_mod_add_multiples_vanish(y, height);
        vstd::arithmetic::div_mod::lemma_small_mod(y as nat, height as nat);
        assert((y0 + (y + height - y0)) % height == y);
    }
}

proof fn lemma_grow_facts(
    imap: Seq<u32>,
    areas: Seq<PlateArea>,
    plate_count: u32,
    width: int,
    height: int,
    i: int,
)
    requires
        grow_state(imap, areas, plate_count, width, height),
        0 <= i < plate_count,
    ensures
        width > 0,
        height > 0,
        imap.len() == width * height,
        areas.len() == plate_count,
        width * height < u32::MAX,
        count_assigned(imap, plate_count) <= imap.len(),
        areas[i].left < width,
        areas[i].right < width,
        areas[i].top < height,
        areas[i].bottom < height,
        areas[i].border@.len() <= 1 + count_assigned(imap, plate_count),
        areas[i].width <= 1 + count_assigned(imap, plate_count),
        areas[i].height <= 1 + count_assigned(imap, plate_count),
        forall|j: int| 0 <= j < areas[i].border@.len() ==> #[trigger] areas[i].border@[j] < width
            * height,
        border_total(areas, plate_count as nat) >= 0,
{
    reveal(grow_state);
    lemma_count_assigned_le(imap, plate_count);
    lemma_border_total_nonneg(areas, plate_count as nat);
}

proof fn lemma_grow_claim(
    imap: Seq<u32>,
    areas: Seq<PlateArea>,
    imap2: Seq<u32>,
    areas2: Seq<PlateArea>,
    plate_count: u32,
    width: int,
    height: int,
    plate_id: int,
    index: int,
)
    requires
        grow_state(imap, areas, plate_count, width, height),
        0 <= plate_id < plate_count,
        0 <= index < width * height,
        imap[index] >= plate_count,
        imap2 == imap.update(index, plate_id as u32),
        areas2.len() == areas.len(),
        forall|k: int| 0 <= k < areas.len() && k != plate_id ==> #[trigger] areas2[k] == areas[k],
        areas2[plate_id].border@ == areas[plate_id].border@.push(index as u32),
        areas2[plate_id].left < width,
        areas2[plate_id].right < width,
        areas2[plate_id].top < height,
        areas2[plate_id].bottom < height,
        areas2[plate_id].width <= areas[plate_id].width + 1,
        areas2[plate_id].height <= areas[plate_id].height + 1,
    ensures
        grow_state(imap2, areas2, plate_count, width, height),
        grow_measure(imap2, areas2, plate_count) == grow_measure(imap, areas, plate_count) - 1,
        forall|c: int|
            0 <= c < imap.len() && #[trigger] assigned(imap, plate_count, c) ==> imap2[c]
                == imap[c],
{
    reveal(grow_state);
    let area = width * height;
    lemma_count_assigned_update(imap, plate_count, index, plate_id as u32);
    assert(areas2 =~= areas.update(plate_id, areas2[plate_id]));
    lemma_border_total_update(areas, plate_count as nat, plate_id, areas2[plate_id]);
    let b = areas2[plate_id];
    assert forall|i: int| 0 <= i < plate_count implies {
        let a = #[trigger] areas2[i];
        &&& a.left < width
        &&& a.right < width
        &&& a.top < height
        &&& a.bottom < height
        &&& a.border@.len() <= 1 + count_assigned(imap2, plate_count)
        &&& a.width <= 1 + count_assigned(imap2, plate_count)
        &&& a.height <= 1 + count_assigned(imap2, plate_count)
        &&& forall|j: int| 0 <= j < a.border@.len() ==> #[trigger] a.border@[j] < area
    } by {
        let a0 = areas[i];
        if i == plate_id {
            assert forall|j: int| 0 <= j < b.border@.len() implies #[trigger] b.border@[j] < area by {
                if j < a0.border@.len() {
                    assert(b.border@[j] == a0.border@[j]);
                }
            }
        }
    }
    assert forall|c: int|
        0 <= c < area && #[trigger] assigned(imap2, plate_count, c) implies in_some_border(
        areas2,
        c as u32,
    ) || neighbours_assigned(imap2, plate_count, width, height, c) by {
        if c == index {
            assert(areas2[plate_id].border@[areas2[plate_id].border@.len() - 1] == c as u32);
        } else {
            assert(assigned(imap, plate_count, c));
            if in_some_border(areas, c as u32) {
                let (k, j) = choose|k: int, j: int|
                    0 <= k < areas.len() && 0 <= j < areas[k].border@.len()
                        && #[trigger] areas[k].border@[j] == c as u32;
                if k == plate_id {
                    assert(areas2[k].border@[j] == c as u32);
                } else {
                    assert(areas2[k] == areas[k]);
                }
            } else {
                assert(neighbours_assigned(imap, plate_count, width, height, c));
                let n = north_of(width, height, c);
                let s = south_of(width, height, c);
                let w = west_of(width, c);
                let e = east_of(width, c);
                lemma_neighbours_in_map(width, height, c);
                assert(imap2[n] < plate_count);
                assert(imap2[s] < plate_count);
                assert(imap2[w] < plate_count);
                assert(imap2[e] < plate_count);
            }
        }
    }
    assert(assigned(imap2, plate_count, index));
}

proof fn lemma_grow_remove(
    imap: Seq<u32>,
    areas: Seq<PlateArea>,
    areas2: Seq<PlateArea>,
    plate_count: u32,
    width: int,
    height: int,
    i: int,
    j: int,
)
    requires
        grow_state(imap, areas, plate_count, width, height),
        0 <= i < plate_count,
        0 <= j < areas[i].border@.len(),
        neighbours_assigned(imap, plate_count, width, height, areas[i].border@[j] as int),
        areas2.len() == areas.len(),
        forall|k: int| 0 <= k < areas.len() && k != i ==> #[trigger] areas2[k] == areas[k],
        areas2[i].border@ == areas[i].border@.update(j, areas[i].border@.last()).drop_last(),
        areas2[i].left == areas[i].left,
        areas2[i].right == areas[i].right,
        areas2[i].top == areas[i].top,
        areas2[i].bottom == areas[i].bottom,
        areas2[i].width == areas[i].width,
        areas2[i].height == areas[i].height,
    ensures
        grow_state(imap, areas2, plate_count, width, height),
        grow_measure(imap, areas2, plate_count) == grow_measure(imap, areas, plate_count) - 1,
{
    reveal(grow_state);
    let area = width * height;
    let old_b = areas[i].border@;
    let new_b = areas2[i].border@;
    let p = old_b[j];
    assert(areas2 =~= areas.update(i, areas2[i]));
    lemma_border_total_update(areas, plate_count as nat, i, areas2[i]);
    assert forall|k: int| 0 <= k < plate_count implies {
        let a = #[trigger] areas2[k];
        &&& a.left < width
        &&& a.right < width
        &&& a.top < height
        &&& a.bottom < height
        &&& a.border@.len() <= 1 + count_assigned(imap, plate_count)
        &&& a.width <= 1 + count_assigned(imap, plate_count)
        &&& a.height <= 1 + count_assigned(imap, plate_count)
        &&& forall|t: int| 0 <= t < a.border@.len() ==> #[trigger] a.border@[t] < area
    } by {
        if k == i {
            assert forall|t: int| 0 <= t < new_b.len() implies #[trigger] new_b[t] < area by {
                if t == j {
                    assert(new_b[t] == old_b[old_b.len() - 1]);
                } else {
                    assert(new_b[t] == old_b[t]);
                }
            }
        }
    }
    assert forall|c: int|
        0 <= c < area && #[trigger] assigned(imap, plate_count, c) implies in_some_border(
        areas2,
        c as u32,
    ) || neighbours_assigned(imap, plate_count, width, height, c) by {
        if c as u32 != p && in_some_border(areas, c as u32) {
            let (k, t) = choose|k: int, t: int|
                0 <= k < areas.len() && 0 <= t < areas[k].border@.len()
                    && #[trigger] areas[k].border@[t] == c as u32;
            if k != i {
                assert(areas2[k] == areas[k]);
            } else if t == old_b.len() - 1 {
                assert(new_b[j] == c as u32);
            } else {
                assert(new_b[t] == c as u32);
            }
        } else if c as u32 == p {
            assert(p < area);
            assert(c == p as int);
        }
    }
    assert(p < area);
    lemma_neighbours_in_map(width, height, p as int);
    assert(assigned(imap, plate_count, north_of(width, height, p as int)));
}

/// Grows every plate from its border over the cells that belong to no
/// plate, choosing for each plate in turn a random border cell and claiming
/// its four neighbours, until no plate has border cells left.
///
/// Afterwards every cell of the map belongs to a plate, cells that already
/// did keep their plate, every border is empty, and every cell a plate
/// gained is joined through the plate's own cells to one of the plate's
/// border cells at the start. The plates, regions and generator state that
/// come out are exactly those of `grow_model`.
pub fn grow_plates(
    imap: &mut Vec<u32>,
    plate_areas: &mut Vec<PlateArea>,
    random: &mut SimpleRandom,
    dimensions: WorldDimension,
    plate_count: u32,
)
    requires
        grow_state(
            old(imap)@,
            old(plate_areas)@,
            plate_count,
            dimensions.spec_width() as int,
            dimensions.spec_height() as int,
        ),
        box_safe(dimensions.spec_width() as int, dimensions.spec_height() as int) ==> grow_boxes(old(imap)@, old(plate_areas)@, plate_count, dimensions.spec_width() as int, dimensions.spec_height() as int),
    ensures
        final(imap)@.len() == old(imap)@.len(),
        forall|c: int| 0 <= c < final(imap)@.len() ==> #[trigger] final(imap)@[c] < plate_count,
        forall|c: int|
            0 <= c < old(imap)@.len() && #[trigger] old(imap)@[c] < plate_count ==> final(imap)@[c]
                == old(imap)@[c],
        final(plate_areas)@.len() == plate_count,
        forall|i: int|
            0 <= i < plate_count ==> {
                let a = #[trigger] final(plate_areas)@[i];
                &&& a.border@.len() == 0
                &&& a.left < dimensions.spec_width()
                &&& a.right < dimensions.spec_width()
                &&& a.top < dimensions.spec_height()
                &&& a.bottom < dimensions.spec_height()
            },
        box_safe(dimensions.spec_width() as int, dimensions.spec_height() as int) ==> plates_in_boxes(final(imap)@, final(plate_areas)@, plate_count, dimensions.spec_width() as int, dimensions.spec_height() as int),
        forall|c: int|
            0 <= c < old(imap)@.len() && old(imap)@[c] >= plate_count ==> exists|j: int|
                0 <= j < old(plate_areas)@[final(imap)@[c] as int].border@.len() && #[trigger] joined_from(
                    final(imap)@,
                    dimensions.spec_width() as int,
                    dimensions.spec_height() as int,
                    final(imap)@[c],
                    old(plate_areas)@[final(imap)@[c] as int].border@[j] as int,
                    c,
                ),
        (final(imap)@, areas_model(final(plate_areas)@), final(random).state()) == grow_model(
            old(imap)@,
            areas_model(old(plate_areas)@),
            old(random).state(),
            plate_count,
            dimensions.spec_width(),
            dimensions.spec_height(),
            (grow_measure(old(imap)@, old(plate_areas)@, plate_count) + 1) as nat,
        ),
{
    let ghost w = dimensions.spec_width() as int;
    let ghost h = dimensions.spec_height() as int;
    let ghost imap0 = old(imap)@;
    let ghost starts = Seq::new(plate_count as nat, |k: int| old(plate_areas)@[k].border@);
    proof {
        reveal(grow_state);
        lemma_joined_init(imap0, plate_areas@, plate_count, w, h);
    }
    let ghost wu = dimensions.spec_width();
    let ghost hu = dimensions.spec_height();
    let ghost total = grow_measure(imap0, plate_areas@, plate_count);
    let ghost target = grow_model(
        imap0,
        areas_model(plate_areas@),
        random.state(),
        plate_count,
        wu,
        hu,
        (total + 1) as nat,
    );
    let ghost mut rounds: int = 0;
    proof {
        reveal(grow_state);
        lemma_border_total_nonneg(plate_areas@, plate_count as nat);
        lemma_count_assigned_le(imap@, plate_count);
    }
    let width = dimensions.width();
    let height = dimensions.height();
    let mut max_border: u32;
    loop
        invariant_except_break
            grow_model(
                imap@,
                areas_model(plate_areas@),
                random.state(),
                plate_count,
                wu,
                hu,
                (total + 1 - rounds) as nat,
            ) == target,
        invariant
            wu == dimensions.spec_width(),
            hu == dimensions.spec_height(),
            0 <= rounds,
            rounds + grow_measure(imap@, plate_areas@, plate_count) <= total,
            w == width,
            h == height,
            w == dimensions.spec_width(),
            h == dimensions.spec_height(),
            grow_state(imap@, plate_areas@, plate_count, w, h),
            grow_joined(imap0, imap@, starts, plate_areas@, plate_count, w, h),
            box_safe(w, h) ==> grow_boxes(imap@, plate_areas@, plate_count, w, h),
            imap@.len() == imap0.len(),
            forall|c: int|
                0 <= c < imap0.len() && #[trigger] assigned(imap0, plate_count, c) ==> imap@[c]
                    == imap0[c],
        ensures
            forall|k: int| 0 <= k < plate_count ==> (#[trigger] plate_areas@[k]).border@.len() == 0,
            (imap@, areas_model(plate_areas@), random.state()) == target,
        decreases grow_measure(imap@, plate_areas@, plate_count),
    {
        let ghost m0 = grow_measure(imap@, plate_areas@, plate_count);
        let ghost imap_r = imap@;
        let ghost model_r = areas_model(plate_areas@);
        let ghost state_r = random.state();
        proof {
            reveal(grow_state);
            lemma_border_total_nonneg(plate_areas@, plate_count as nat);
            lemma_count_assigned_le(imap@, plate_count);
        }
        max_border = 0;
        let mut i: u32 = 0;
        while i < plate_count
            invariant
                wu == dimensions.spec_width(),
                hu == dimensions.spec_height(),
                round_model(imap_r, model_r, state_r, plate_count, wu, hu, 0, 0) == round_model(
                    imap@,
                    areas_model(plate_areas@),
                    random.state(),
                    plate_count,
                    wu,
                    hu,
                    i as nat,
                    max_border as nat,
                ),
                w == width,
                h == height,
                w == dimensions.spec_width(),
                h == dimensions.spec_height(),
                grow_state(imap@, plate_areas@, plate_count, w, h),
                grow_joined(imap0, imap@, starts, plate_areas@, plate_count, w, h),
                box_safe(w, h) ==> grow_boxes(imap@, plate_areas@, plate_count, w, h),
                imap@.len() == imap0.len(),
                forall|c: int|
                    0 <= c < imap0.len() && #[trigger] assigned(imap0, plate_count, c) ==> imap@[c]
                        == imap0[c],
                i <= plate_count,
                max_border == 0 ==> forall|k: int|
                    0 <= k < i ==> (#[trigger] plate_areas@[k]).border@.len() == 0,
                grow_measure(imap@, plate_areas@, plate_count) + if max_border > 0 {
                    1int
                } else {
                    0int
                } <= m0,
            decreases plate_count - i,
        {
            let area_index = i as usize;
            proof {
                lemma_grow_facts(imap@, plate_areas@, plate_count, w, h, i as int);
            }
            let border_len = plate_areas[area_index].border.len() as u32;
            let ghost m_b = grow_measure(imap@, plate_areas@, plate_count);
            proof {
                assert(areas_model(plate_areas@)[i as int].0.len() == border_len);
            }
            if border_len > max_border {
                max_border = border_len;
            }
            if border_len != 0 {
                let ghost im = imap@;
                proof {
                    assert forall|c: int| 0 <= c < imap0.len() && imap0[c] < plate_count implies #[trigger] imap@[c]
                        == imap0[c] by {
                        assert(assigned(imap0, plate_count, c));
                    }
                }
                grow_plate_once(
                    imap,
                    plate_areas,
                    random,
                    dimensions,
                    plate_count,
                    i,
                    border_len,
                    Ghost(imap0),
                    Ghost(starts),
                );
                proof {
                    assert forall|c: int|
                        0 <= c < imap0.len() && #[trigger] assigned(imap0, plate_count, c)
                            implies imap@[c] == imap0[c] by {
                        assert(assigned(im, plate_count, c));
                    }
                }
            }
            i += 1;
        }
        proof {
            reveal(grow_state);
            lemma_border_total_nonneg(plate_areas@, plate_count as nat);
            lemma_count_assigned_le(imap@, plate_count);
            assert(total + 1 - rounds > 0);
        }
        if max_border == 0 {
            proof {
                let r = round_model(imap_r, model_r, state_r, plate_count, wu, hu, 0, 0);
                assert(r == (imap@, areas_model(plate_areas@), random.state(), 0nat));
                let f = (total + 1 - rounds) as nat;
                assert(grow_model(imap_r, model_r, state_r, plate_count, wu, hu, f) == (
                    imap@,
                    areas_model(plate_areas@),
                    random.state(),
                ));
            }
            break;
        }
        proof {
            let r = round_model(imap_r, model_r, state_r, plate_count, wu, hu, 0, 0);
            assert(r == (imap@, areas_model(plate_areas@), random.state(), max_border as nat));
            let f = (total + 1 - rounds) as nat;
            assert(grow_model(imap_r, model_r, state_r, plate_count, wu, hu, f) == grow_model(
                imap@,
                areas_model(plate_areas@),
                random.state(),
                plate_count,
                wu,
                hu,
                (f - 1) as nat,
            ));
            rounds = rounds + 1;
        }
    }
    proof {
        reveal(grow_state);
        lemma_border_total_zero(plate_areas@, plate_count as nat);
        let c0 = choose|c: int| 0 <= c < w * h && #[trigger] assigned(imap@, plate_count, c);
        assert forall|c: int|
            0 <= c < w * h && #[trigger] assigned(imap@, plate_count, c) implies neighbours_assigned(
            imap@,
            plate_count,
            w,
            h,
            c,
        ) by {
            if in_some_border(plate_areas@, c as u32) {
                let (k, j) = choose|k: int, j: int|
                    0 <= k < plate_areas@.len() && 0 <= j < plate_areas@[k].border@.len()
                        && #[trigger] plate_areas@[k].border@[j] == c as u32;
                assert(plate_areas@[k].border@.len() == 0);
            }
        }
        lemma_closed_region_covers_map(imap@, plate_count, w, h, c0);
        assert forall|c: int| 0 <= c < imap@.len() implies #[trigger] imap@[c] < plate_count by {
            assert(assigned(imap@, plate_count, c));
        }
        assert forall|c: int|
            0 <= c < imap0.len() && #[trigger] imap0[c] < plate_count implies imap@[c]
                == imap0[c] by {
            assert(assigned(imap0, plate_count, c));
        }
        if box_safe(w, h) {
            reveal(grow_boxes);
        }
        reveal(grow_joined);
        assert forall|c: int|
            0 <= c < imap0.len() && imap0[c] >= plate_count implies exists|j: int|
            0 <= j < old(plate_areas)@[imap@[c] as int].border@.len() && #[trigger] joined_from(
                imap@,
                w,
                h,
                imap@[c],
                old(plate_areas)@[imap@[c] as int].border@[j] as int,
                c,
            ) by {
            assert(imap@[c] < plate_count);
            let k = imap@[c] as int;
            assert(starts[k] == old(plate_areas)@[k].border@);
        }
    }
}

/// One growth step of plate `i`: picks a random cell of its border, claims
/// the cell's four neighbours for the plate where they belong to no plate,
/// and drops the cell from the border.
#[verifier::rlimit(100)]
fn grow_plate_once(
    imap: &mut Vec<u32>,
    plate_areas: &mut Vec<PlateArea>,
    random: &mut SimpleRandom,
    dimensions: WorldDimension,
    plate_count: u32,
    i: u32,
    border_len: u32,
    Ghost(imap0): Ghost<Seq<u32>>,
    Ghost(starts): Ghost<Seq<Seq<u32>>>,
)
    requires
        grow_joined(imap0, old(imap)@, starts, old(plate_areas)@, plate_count, dimensions.spec_width() as int, dimensions.spec_height() as int),
        imap0.len() == old(imap)@.len(),
        forall|c: int|
            0 <= c < imap0.len() && imap0[c] < plate_count ==> #[trigger] old(imap)@[c] == imap0[c],
        grow_state(
            old(imap)@,
            old(plate_areas)@,
            plate_count,
            dimensions.spec_width() as int,
            dimensions.spec_height() as int,
        ),
        i < plate_count,
        border_len > 0,
        border_len == old(plate_areas)@[i as int].border@.len(),
        box_safe(dimensions.spec_width() as int, dimensions.spec_height() as int) ==> grow_boxes(old(imap)@, old(plate_areas)@, plate_count, dimensions.spec_width() as int, dimensions.spec_height() as int),
    ensures
        box_safe(dimensions.spec_width() as int, dimensions.spec_height() as int) ==> grow_boxes(final(imap)@, final(plate_areas)@, plate_count, dimensions.spec_width() as int, dimensions.spec_height() as int),
        grow_joined(imap0, final(imap)@, starts, final(plate_areas)@, plate_count, dimensions.spec_width() as int, dimensions.spec_height() as int),
        grow_state(
            final(imap)@,
            final(plate_areas)@,
            plate_count,
            dimensions.spec_width() as int,
            dimensions.spec_height() as int,
        ),
        grow_measure(final(imap)@, final(plate_areas)@, plate_count) < grow_measure(
            old(imap)@,
            old(plate_areas)@,
            plate_count,
        ),
        final(imap)@.len() == old(imap)@.len(),
        forall|c: int|
            0 <= c < old(imap)@.len() && #[trigger] assigned(old(imap)@, plate_count, c)
                ==> final(imap)@[c] == old(imap)@[c],
        (final(imap)@, areas_model(final(plate_areas)@), final(random).state()) == step_model(
            old(imap)@,
            areas_model(old(plate_areas)@),
            old(random).state(),
            plate_count,
            dimensions.spec_width(),
            dimensions.spec_height(),
            i as int,
        ),
{
    let ghost w = dimensions.spec_width() as int;
    let ghost h = dimensions.spec_height() as int;
    let width = dimensions.width();
    let height = dimensions.height();
    let area_index = i as usize;
    proof {
        lemma_grow_facts(imap@, plate_areas@, plate_count, w, h, i as int);
    }
    let j = (random.next_u32() % border_len) as usize;
    let p = plate_areas[area_index].border[j];
    proof {
        if box_safe(w, h) {
            lemma_boxes_border(imap@, plate_areas@, plate_count, w, h, i as int, j as int);
        }
    }
    let cy = dimensions.y_from_index(p);
    let cx = dimensions.x_from_index(p);
    proof {
        lemma_cell_split(w, h, p as int);
    }
    let left = if cx > 0 {
        cx - 1
    } else {
        width - 1
    };
    let right = if cx < width - 1 {
        cx + 1
    } else {
        0
    };
    let top = if cy > 0 {
        cy - 1
    } else {
        height - 1
    };
    let bottom = if cy < height - 1 {
        cy + 1
    } else {
        0
    };
    proof {
        lemma_coords(w, h, cx as int, top as int);
        lemma_coords(w, h, cx as int, bottom as int);
        lemma_coords(w, h, left as int, cy as int);
        lemma_coords(w, h, right as int, cy as int);
    }
    let north = top * width + cx;
    let south = bottom * width + cx;
    let west = cy * width + left;
    let east = cy * width + right;
    proof {
        assert(north as int == north_of(w, h, p as int));
        assert(south as int == south_of(w, h, p as int));
        assert(west as int == west_of(w, p as int));
        assert(east as int == east_of(w, p as int));
    }

    let ghost im0 = imap@;
    let ghost b0 = plate_areas@[i as int].border@;
    claim_for_growth(
        imap,
        plate_areas,
        dimensions,
        plate_count,
        i,
        north,
        Side::North,
        top,
        Ghost(p as int),
        Ghost(j as int),
        Ghost(imap0),
        Ghost(starts),
    );
    let ghost im1 = imap@;
    claim_for_growth(
        imap,
        plate_areas,
        dimensions,
        plate_count,
        i,
        south,
        Side::South,
        bottom,
        Ghost(p as int),
        Ghost(j as int),
        Ghost(imap0),
        Ghost(starts),
    );
    let ghost im2 = imap@;
    claim_for_growth(
        imap,
        plate_areas,
        dimensions,
        plate_count,
        i,
        west,
        Side::West,
        left,
        Ghost(p as int),
        Ghost(j as int),
        Ghost(imap0),
        Ghost(starts),
    );
    let ghost im3 = imap@;
    claim_for_growth(
        imap,
        plate_areas,
        dimensions,
        plate_count,
        i,
        east,
        Side::East,
        right,
        Ghost(p as int),
        Ghost(j as int),
        Ghost(imap0),
        Ghost(starts),
    );
    proof {
        assert(assigned(im1, plate_count, north as int));
        assert(assigned(im2, plate_count, north as int));
        assert(assigned(im3, plate_count, north as int));
        assert(assigned(im2, plate_count, south as int));
        assert(assigned(im3, plate_count, south as int));
        assert(assigned(im3, plate_count, west as int));
        assert forall|c: int|
            0 <= c < im0.len() && #[trigger] assigned(im0, plate_count, c) implies imap@[c]
                == im0[c] by {
            assert(assigned(im1, plate_count, c));
            assert(assigned(im2, plate_count, c));
            assert(assigned(im3, plate_count, c));
        }
    }

    let ghost ar = plate_areas@;
    proof {
        lemma_grow_facts(imap@, plate_areas@, plate_count, w, h, i as int);
        assert(plate_areas@[i as int].border@[j as int] == p);
        assert(neighbours_assigned(imap@, plate_count, w, h, p as int));
    }
    let ghost model4 = areas_model(plate_areas@);
    let area = &mut plate_areas[area_index];
    let last = area.border[area.border.len() - 1];
    area.border.set(j, last);
    area.border.pop();
    proof {
        let a = model4[i as int];
        assert(areas_model(plate_areas@) =~= model4.update(
            i as int,
            (a.0.update(j as int, a.0.last()).drop_last(), a.1, a.2, a.3, a.4, a.5, a.6),
        ));
    }
    proof {
        lemma_grow_remove(imap@, ar, plate_areas@, plate_count, w, h, i as int, j as int);
        if box_safe(w, h) {
            lemma_boxes_remove(imap@, ar, plate_areas@, plate_count, w, h, i as int, j as int);
        }
        lemma_joined_remove(imap0, imap@, starts, ar, plate_areas@, plate_count, w, h, i as int, j as int);
    }
}

/// Claims the cell `index` for plate `i` as `claim_plate_neighbor` does,
/// keeping the growth state and not increasing the work left.
fn claim_for_growth(
    imap: &mut Vec<u32>,
    plate_areas: &mut Vec<PlateArea>,
    dimensions: WorldDimension,
    plate_count: u32,
    i: u32,
    index: u32,
    side: Side,
    edge: u32,
    Ghost(p): Ghost<int>,
    Ghost(jp): Ghost<int>,
    Ghost(imap0): Ghost<Seq<u32>>,
    Ghost(starts): Ghost<Seq<Seq<u32>>>,
)
    requires
        grow_joined(imap0, old(imap)@, starts, old(plate_areas)@, plate_count, dimensions.spec_width() as int, dimensions.spec_height() as int),
        imap0.len() == old(imap)@.len(),
        forall|c: int|
            0 <= c < imap0.len() && imap0[c] < plate_count ==> #[trigger] old(imap)@[c] == imap0[c],
        0 <= jp < old(plate_areas)@[i as int].border@.len(),
        old(plate_areas)@[i as int].border@[jp] as int == p,
        map_step(dimensions.spec_width() as int, dimensions.spec_height() as int, p, index as int),
        grow_state(
            old(imap)@,
            old(plate_areas)@,
            plate_count,
            dimensions.spec_width() as int,
            dimensions.spec_height() as int,
        ),
        box_safe(dimensions.spec_width() as int, dimensions.spec_height() as int) ==> {
            &&& grow_boxes(old(imap)@, old(plate_areas)@, plate_count, dimensions.spec_width() as int, dimensions.spec_height() as int)
            &&& 0 <= p < dimensions.spec_width() * dimensions.spec_height()
            &&& area_holds(old(plate_areas)@[i as int], dimensions.spec_width() as int, dimensions.spec_height() as int, p)
            &&& side_step(dimensions.spec_width() as int, dimensions.spec_height() as int, p, index as int, side, edge as int)
        },
        i < plate_count,
        index < dimensions.spec_width() * dimensions.spec_height(),
        side == Side::North || side == Side::South ==> edge < dimensions.spec_height(),
        side == Side::West || side == Side::East ==> edge < dimensions.spec_width(),
    ensures
        grow_state(
            final(imap)@,
            final(plate_areas)@,
            plate_count,
            dimensions.spec_width() as int,
            dimensions.spec_height() as int,
        ),
        grow_measure(final(imap)@, final(plate_areas)@, plate_count) <= grow_measure(
            old(imap)@,
            old(plate_areas)@,
            plate_count,
        ),
        final(imap)@.len() == old(imap)@.len(),
        forall|c: int|
            0 <= c < old(imap)@.len() && #[trigger] assigned(old(imap)@, plate_count, c)
                ==> final(imap)@[c] == old(imap)@[c],
        assigned(final(imap)@, plate_count, index as int),
        final(plate_areas)@[i as int].border@.len() >= old(plate_areas)@[i as int].border@.len(),
        forall|k: int|
            0 <= k < old(plate_areas)@[i as int].border@.len() ==> #[trigger] final(plate_areas)@[i as int].border@[k]
                == old(plate_areas)@[i as int].border@[k],
        box_safe(dimensions.spec_width() as int, dimensions.spec_height() as int) ==> {
            &&& grow_boxes(final(imap)@, final(plate_areas)@, plate_count, dimensions.spec_width() as int, dimensions.spec_height() as int)
            &&& area_holds(final(plate_areas)@[i as int], dimensions.spec_width() as int, dimensions.spec_height() as int, p)
        },
        grow_joined(imap0, final(imap)@, starts, final(plate_areas)@, plate_count, dimensions.spec_width() as int, dimensions.spec_height() as int),
        forall|c: int|
            0 <= c < imap0.len() && imap0[c] < plate_count ==> #[trigger] final(imap)@[c] == imap0[c],
        (final(imap)@, areas_model(final(plate_areas)@)) == claim_model(
            old(imap)@,
            areas_model(old(plate_areas)@),
            plate_count,
            dimensions.spec_width(),
            dimensions.spec_height(),
            i as int,
            index as int,
            side,
            edge,
        ),
{
    let ghost w = dimensions.spec_width() as int;
    let ghost h = dimensions.spec_height() as int;
    let ghost im = imap@;
    let ghost ar = plate_areas@;
    proof {
        lemma_grow_facts(im, ar, plate_count, w, h, i as int);
        if im[index as int] >= plate_count {
            lemma_count_assigned_lt(im, plate_count, index as int);
        }
    }
    claim_plate_neighbor(imap, plate_areas, dimensions, plate_count, i, index, side, edge);
    proof {
        if im[index as int] >= plate_count {
            lemma_grow_claim(im, ar, imap@, plate_areas@, plate_count, w, h, i as int, index as int);
            lemma_grow_facts(im, ar, plate_count, w, h, i as int);
            lemma_joined_claim(
                imap0,
                im,
                starts,
                ar,
                imap@,
                plate_areas@,
                plate_count,
                w,
                h,
                i as int,
                jp,
                index as int,
            );
            if box_safe(w, h) {
                lemma_grow_facts(im, ar, plate_count, w, h, i as int);
                lemma_boxes_claim(
                    im,
                    ar,
                    imap@,
                    plate_areas@,
                    plate_count,
                    dimensions.spec_width(),
                    dimensions.spec_height(),
                    i as int,
                    index as int,
                    p,
                    side,
                    edge,
                );
            }
        } else {
            assert(plate_areas@ =~= ar);
        }
    }
    proof {
        assert forall|c: int| 0 <= c < imap0.len() && imap0[c] < plate_count implies #[trigger] imap@[c]
            == imap0[c] by {
            assert(im[c] == imap0[c]);
            assert(assigned(im, plate_count, c));
        }
    }
    proof {
        let cm = claim_model(
            im,
            areas_model(ar),
            plate_count,
            dimensions.spec_width(),
            dimensions.spec_height(),
            i as int,
            index as int,
            side,
            edge,
        );
        if im[index as int] >= plate_count {
            assert(areas_model(plate_areas@) =~= cm.1);
        } else {
            assert(areas_model(plate_areas@) =~= cm.1);
        }
    }
}

/// The first `n` seed draws from a pool of the `area` cells, starting from
/// the generator state `s`: answers the seeds drawn, the pool left, and the
/// generator state. Draw `t` takes a new state `s'`, picks the pool entry at
/// `s' % (area - t)` as seed `p`, and then writes the pool entry at
/// `area - t - 1` over the pool entry at position `p`.
pub open spec fn seed_draws(area: nat, s: u32, n: nat) -> (Seq<u32>, Seq<u32>, u32)
    decreases n,
{
    if n == 0 {
        (Seq::empty(), Seq::new(area, |c: int| c as u32), s)
    } else {
        let (seeds, pool, st) = seed_draws(area, s, (n - 1) as nat);
        let st2 = lcg_step(st);
        let left = area - (n - 1);
        let p = pool[(st2 as int) % left];
        (seeds.push(p), pool.update(p as int, pool[left - 1]), st2)
    }
}

/// The pool stays a sequence of `area` cells, and the state after `n` draws
/// is the state `n` steps on.
proof fn lemma_seed_draws_shape(area: nat, s: u32, n: nat)
    requires
        n <= area,
        area <= u32::MAX + 1,
    ensures
        seed_draws(area, s, n).0.len() == n,
        seed_draws(area, s, n).1.len() == area,
        forall|c: int| 0 <= c < area ==> #[trigger] seed_draws(area, s, n).1[c] < area,
        seed_draws(area, s, n).2 == lcg_iter(s, n),
    decreases n,
{
    if n > 0 {
        lemma_seed_draws_shape(area, s, (n - 1) as nat);
        let (seeds, pool, st) = seed_draws(area, s, (n - 1) as nat);
        let st2 = lcg_step(st);
        let left = area - (n - 1);
        let r = (st2 as int) % left;
        assert(0 <= r < left);
        assert(pool[r] < area);
        assert(pool[left - 1] < area);
    }
}

/// Chooses a seed cell for each of the `plate_count` plates by drawing
/// from a shrinking pool of cells, and starts each plate's region at its
/// seed: a one-cell bounding box and a border holding just the seed.
/// The seeds are the ones `seed_draws` gives for the generator's state, and
/// the generator ends `plate_count` steps on. Afterwards no cell belongs to
/// a plate yet.
pub fn choose_plate_seeds(
    imap: &mut Vec<u32>,
    plate_areas: &mut Vec<PlateArea>,
    random: &mut SimpleRandom,
    dimensions: WorldDimension,
    plate_count: u32,
)
    requires
        dimensions.spec_width() * dimensions.spec_height() <= u32::MAX,
        old(imap)@.len() == dimensions.spec_width() * dimensions.spec_height(),
        old(plate_areas)@.len() == plate_count,
        plate_count <= dimensions.spec_width() * dimensions.spec_height(),
    ensures
        final(imap)@.len() == old(imap)@.len(),
        forall|c: int| 0 <= c < final(imap)@.len() ==> #[trigger] final(imap)@[c] == u32::MAX,
        final(plate_areas)@.len() == plate_count,
        forall|i: int|
            0 <= i < plate_count ==> {
                let a = #[trigger] final(plate_areas)@[i];
                &&& a.border@.len() == 1
                &&& a.border@[0] < dimensions.spec_width() * dimensions.spec_height()
                &&& a.left == a.border@[0] % dimensions.spec_width()
                &&& a.right == a.left
                &&& a.top == a.border@[0] / dimensions.spec_width()
                &&& a.bottom == a.top
                &&& a.width == 1
                &&& a.height == 1
                &&& a.border@[0] == seed_draws(
                    (dimensions.spec_width() * dimensions.spec_height()) as nat,
                    old(random).state(),
                    plate_count as nat,
                ).0[i]
            },
        final(random).state() == lcg_iter(old(random).state(), plate_count as nat),
{
    let ghost w = dimensions.spec_width() as int;
    let ghost h = dimensions.spec_height() as int;
    let map_area = dimensions.area();
    let mut k: u32 = 0;
    while k < map_area
        invariant
            map_area == w * h,
            imap@.len() == map_area,
            k <= map_area,
            forall|c: int| 0 <= c < k ==> #[trigger] imap@[c] == c,
        decreases map_area - k,
    {
        imap.set(k as usize, k);
        k += 1;
    }
    let ghost s0 = random.state();
    let ghost cells = map_area as nat;
    proof {
        assert(imap@ =~= seed_draws(cells, s0, 0).1);
    }
    let mut i: u32 = 0;
    while i < plate_count
        invariant
            w == dimensions.spec_width(),
            h == dimensions.spec_height(),
            map_area == w * h,
            plate_count <= map_area,
            imap@.len() == map_area,
            forall|c: int| 0 <= c < map_area ==> #[trigger] imap@[c] < map_area,
            plate_areas@.len() == plate_count,
            i <= plate_count,
            forall|t: int|
                0 <= t < i ==> {
                    let a = #[trigger] plate_areas@[t];
                    &&& a.border@.len() == 1
                    &&& a.border@[0] < w * h
                    &&& a.left == a.border@[0] as int % w
                    &&& a.right == a.left
                    &&& a.top == a.border@[0] as int / w
                    &&& a.bottom == a.top
                    &&& a.width == 1
                    &&& a.height == 1
                    &&& a.border@[0] == seed_draws(cells, s0, i as nat).0[t]
                },
            cells == map_area,
            imap@ == seed_draws(cells, s0, i as nat).1,
            random.state() == seed_draws(cells, s0, i as nat).2,
        decreases plate_count - i,
    {
        proof {
            lemma_seed_draws_shape(cells, s0, i as nat);
            lemma_seed_draws_shape(cells, s0, (i + 1) as nat);
        }
        let ghost prev = seed_draws(cells, s0, i as nat);
        let p = imap[(random.next_u32() % (map_area - i)) as usize];
        let y = dimensions.y_from_index(p);
        let x = dimensions.x_from_index(p);
        let ghost before = plate_areas@;
        let area = &mut plate_areas[i as usize];
        area.left = x;
        area.right = x;
        area.top = y;
        area.bottom = y;
        area.width = 1;
        area.height = 1;
        area.border.clear();
        area.border.push(p);
        proof {
            assert forall|t: int| 0 <= t < i implies #[trigger] plate_areas@[t] == before[t] by {}
        }
        let last = imap[(map_area - i - 1) as usize];
        imap.set(p as usize, last);
        proof {
            let next = seed_draws(cells, s0, (i + 1) as nat);
            assert(next.0 == prev.0.push(p));
            assert forall|t: int| 0 <= t < i + 1 implies #[trigger] plate_areas@[t].border@[0] == next.0[t] by {
                if t < i {
                    assert(next.0[t] == prev.0[t]);
                }
            }
        }
        i += 1;
    }
    proof {
        lemma_seed_draws_shape(cells, s0, plate_count as nat);
    }
    let mut k: usize = 0;
    while k < imap.len()
        invariant
            imap@.len() == map_area,
            k <= imap@.len(),
            forall|c: int| 0 <= c < k ==> #[trigger] imap@[c] == u32::MAX,
        decreases imap@.len() - k,
    {
        imap.set(k, u32::MAX);
        k += 1;
    }
}

/// Divides the whole map among `plate_count` plates: seeds each plate at a
/// randomly drawn cell and grows the plates until every cell belongs to
/// one of them: the outcome is that of `grow_model` from the seeds that
/// `seed_draws` gives. Every cell is then joined to its plate's seed through the
/// plate's own cells, and each plate's bounding box holds every cell of the
/// plate (for a world small enough that stepping round it cannot
/// overflow).
pub fn create_plate_areas(
    imap: &mut Vec<u32>,
    plate_areas: &mut Vec<PlateArea>,
    random: &mut SimpleRandom,
    dimensions: WorldDimension,
    plate_count: u32,
)
    requires
        dimensions.spec_width() * dimensions.spec_height() < u32::MAX,
        old(imap)@.len() == dimensions.spec_width() * dimensions.spec_height(),
        old(plate_areas)@.len() == plate_count,
        0 < plate_count <= dimensions.spec_width() * dimensions.spec_height(),
    ensures
        final(imap)@.len() == old(imap)@.len(),
        forall|c: int| 0 <= c < final(imap)@.len() ==> #[trigger] final(imap)@[c] < plate_count,
        final(plate_areas)@.len() == plate_count,
        forall|i: int|
            0 <= i < plate_count ==> {
                let a = #[trigger] final(plate_areas)@[i];
                &&& a.border@.len() == 0
                &&& a.left < dimensions.spec_width()
                &&& a.right < dimensions.spec_width()
                &&& a.top < dimensions.spec_height()
                &&& a.bottom < dimensions.spec_height()
            },
        box_safe(dimensions.spec_width() as int, dimensions.spec_height() as int) ==> plates_in_boxes(final(imap)@, final(plate_areas)@, plate_count, dimensions.spec_width() as int, dimensions.spec_height() as int),
        forall|c: int|
            0 <= c < final(imap)@.len() ==> #[trigger] joined_from(
                final(imap)@,
                dimensions.spec_width() as int,
                dimensions.spec_height() as int,
                final(imap)@[c],
                seed_draws(
                    (dimensions.spec_width() * dimensions.spec_height()) as nat,
                    old(random).state(),
                    plate_count as nat,
                ).0[final(imap)@[c] as int] as int,
                c,
            ),
        (final(imap)@, areas_model(final(plate_areas)@), final(random).state()) == grow_model(
            Seq::new(old(imap)@.len(), |c: int| u32::MAX),
            seed_models(
                seed_draws(
                    (dimensions.spec_width() * dimensions.spec_height()) as nat,
                    old(random).state(),
                    plate_count as nat,
                ).0,
                dimensions.spec_width(),
            ),
            lcg_iter(old(random).state(), plate_count as nat),
            plate_count,
            dimensions.spec_width(),
            dimensions.spec_height(),
            (plate_count + 2 * old(imap)@.len() + 1) as nat,
        ),
{
    let width = dimensions.width();
    let height = dimensions.height();
    let ghost s0 = random.state();
    choose_plate_seeds(imap, plate_areas, random, dimensions, plate_count);
    let ghost seeded = plate_areas@;
    let ghost imap_s = imap@;
    proof {
        let seeds = seed_draws((width * height) as nat, s0, plate_count as nat).0;
        lemma_seed_draws_shape((width * height) as nat, s0, plate_count as nat);
        assert forall|k: int| 0 <= k < plate_count implies #[trigger] areas_model(seeded)[k]
            == seed_models(seeds, width)[k] by {
            let a = seeded[k];
            assert(a.border@ =~= seq![seeds[k]]);
        }
        assert(areas_model(seeded) =~= seed_models(seeds, width));
        assert(imap_s =~= Seq::new(imap_s.len(), |c: int| u32::MAX));
        lemma_border_total_ones(seeded, plate_count as nat);
        lemma_count_none_assigned(imap_s, plate_count);
    }
    proof {
        lemma_seeds_start_growth(imap@, plate_areas@, plate_count, width as int, height as int);
        lemma_seeds_boxes(imap@, plate_areas@, plate_count, width as int, height as int);
    }
    grow_plates(imap, plate_areas, random, dimensions, plate_count);
    proof {
        let seeds = seed_draws((width * height) as nat, s0, plate_count as nat).0;
        assert forall|c: int| 0 <= c < imap@.len() implies #[trigger] joined_from(
            imap@,
            width as int,
            height as int,
            imap@[c],
            seeds[imap@[c] as int] as int,
            c,
        ) by {
            assert(imap@[c] < plate_count);
            assert(imap_s[c] == u32::MAX);
            assert(imap_s[c] >= plate_count);
            let k = imap@[c] as int;
            assert(seeded[k].border@.len() == 1);
            let j = choose|j: int|
                0 <= j < seeded[k].border@.len() && #[trigger] joined_from(
                    imap@,
                    width as int,
                    height as int,
                    imap@[c],
                    seeded[k].border@[j] as int,
                    c,
                );
            assert(j == 0);
        }
    }
}

proof fn lemma_count_none_assigned(imap: Seq<u32>, plate_count: u32)
    requires
        forall|c: int| 0 <= c < imap.len() ==> #[trigger] imap[c] >= plate_count,
    ensures
        count_assigned(imap, plate_count) == 0,
    decreases imap.len(),
{
    if imap.len() > 0 {
        lemma_count_none_assigned(imap.drop_last(), plate_count);
    }
}

proof fn lemma_border_total_pos(areas: Seq<PlateArea>, n: nat)
    requires
        0 < n <= areas.len(),
        areas[n - 1].border@.len() > 0,
    ensures
        border_total(areas, n) > 0,
{
    lemma_border_total_nonneg(areas, (n - 1) as nat);
}

proof fn lemma_seeds_start_growth(
    imap: Seq<u32>,
    areas: Seq<PlateArea>,
    plate_count: u32,
    width: int,
    height: int,
)
    requires
        width > 0,
        height > 0,
        width * height < u32::MAX,
        imap.len() == width * height,
        areas.len() == plate_count,
        0 < plate_count,
        forall|c: int| 0 <= c < imap.len() ==> #[trigger] imap[c] == u32::MAX,
        forall|i: int|
            0 <= i < plate_count ==> {
                let a = #[trigger] areas[i];
                &&& a.border@.len() == 1
                &&& a.border@[0] < width * height
                &&& a.left == a.border@[0] as int % width
                &&& a.right == a.left
                &&& a.top == a.border@[0] as int / width
                &&& a.bottom == a.top
                &&& a.width == 1
                &&& a.height == 1
            },
    ensures
        grow_state(imap, areas, plate_count, width, height),
{
    reveal(grow_state);
    lemma_count_none_assigned(imap, plate_count);
    lemma_border_total_pos(areas, plate_count as nat);
    assert forall|i: int| 0 <= i < plate_count implies {
        let a = #[trigger] areas[i];
        &&& a.left < width
        &&& a.right < width
        &&& a.top < height
        &&& a.bottom < height
        &&& forall|j: int| 0 <= j < a.border@.len() ==> #[trigger] a.border@[j] < width * height
    } by {
        lemma_cell_split(width, height, areas[i].border@[0] as int);
    }
}

/// Checks the sizes a simulation is set up with: both sides of the map at
/// least 5 cells, and at least one plate.
pub fn validate_config(width: u32, height: u32, plate_count: u32) -> (r: Result<(), PlatecError>)
    ensures
        r == if width < 5 || height < 5 {
            Err(PlatecError::DimensionsTooSmall)
        } else if plate_count == 0 {
            Err(PlatecError::ZeroPlates)
        } else {
            Ok(())
        },
{
    if width < 5 || height < 5 {
        return Err(PlatecError::DimensionsTooSmall);
    }
    if plate_count == 0 {
        return Err(PlatecError::ZeroPlates);
    }
    Ok(())
}

/// Age of crust above which it gets no buoyancy bonus.
pub const MAX_BUOYANCY_AGE: u32 = 20;

/// How much buoyancy young crust still has: `MAX_BUOYANCY_AGE` minus the
/// crust's age in steps, or zero once it is older than that. The age is the
/// difference of the step counter and the crust's time stamp, on 32-bit
/// words with wrap-around.
pub fn buoyancy_age(iter_count: u32, timestamp: u32) -> (r: u32)
    ensures
        ({
            let age = wrapped_diff(iter_count as int, timestamp as int);
            r == if age <= MAX_BUOYANCY_AGE { MAX_BUOYANCY_AGE - age } else { 0 }
        }),
{
    let crust_age = iter_count.wrapping_sub(timestamp);
    let left = MAX_BUOYANCY_AGE.wrapping_sub(crust_age);
    let m = mask(left <= MAX_BUOYANCY_AGE);
    assert(left & 0xffff_ffffu32 == left) by (bit_vector);
    assert(left & 0u32 == 0) by (bit_vector);
    left & m
}

/// The number of steps without a continental collision after one more
/// step: one more than before when the step had none, zero otherwise.
pub fn quiet_steps_after(last_collision_count: u32, continental_collisions: u32) -> (r: u32)
    requires
        last_collision_count < u32::MAX,
    ensures
        r == if continental_collisions == 0 { last_collision_count + 1 } else { 0 },
{
    let next = last_collision_count + 1;
    let m = mask(continental_collisions == 0);
    assert(next & 0xffff_ffffu32 == next) by (bit_vector);
    assert(next & 0u32 == 0) by (bit_vector);
    next & m
}

/// What a restart of the simulation leads to.
#[derive(Debug, Clone, Copy, PartialEq, Eq, Structural)]
pub enum RestartAction {
    /// All cycles are done: the plates are dropped and the simulation ends.
    Finish,
    /// The crust is gathered and split into new plates for another cycle.
    Reseed,
    /// The last cycle ends: the crust is gathered and settles with its
    /// buoyancy bonus, and no new plates are made.
    Settle,
}

/// Counts a restart and decides what it leads to, given how many restarts
/// there were and the configured number of cycles. With zero cycles the
/// count stays at zero and every restart reseeds.
pub fn restart_plan(cycle_count: u32, max_cycles: u32) -> (r: (u32, RestartAction))
    requires
        max_cycles > 0 ==> cycle_count < u32::MAX,
    ensures
        r.0 == if max_cycles > 0 { cycle_count + 1 } else { cycle_count as int },
        r.1 == if r.0 > max_cycles {
            RestartAction::Finish
        } else if r.0 < max_cycles + if max_cycles == 0 { 1int } else { 0 } {
            RestartAction::Reseed
        } else {
            RestartAction::Settle
        },
{
    let count = if max_cycles > 0 {
        cycle_count + 1
    } else {
        cycle_count
    };
    if count > max_cycles {
        return (count, RestartAction::Finish);
    }
    let limit: u64 = max_cycles as u64 + if max_cycles == 0 {
        1
    } else {
        0
    };
    if (count as u64) < limit {
        (count, RestartAction::Reseed)
    } else {
        (count, RestartAction::Settle)
    }
}

/// A plate's box on the world map: its top-left cell and its size.
#[derive(Debug, Clone, Copy, PartialEq, Eq, Structural)]
pub struct PlateBox {
    pub left: u32,
    pub top: u32,
    pub width: u32,
    pub height: u32,
}

/// The box of the plate grown over `area`: it starts at the area's top-left
/// cell and is one cell wider and taller than the area's extent capped to
/// the world's last column and row.
pub fn plate_box(area: &PlateArea, dimensions: WorldDimension) -> (b: PlateBox)
    requires
        area.left < dimensions.spec_width(),
        area.top < dimensions.spec_height(),
        area.left + dimensions.spec_width() <= u32::MAX,
        area.top + dimensions.spec_height() <= u32::MAX,
    ensures
        b.left == area.left,
        b.top == area.top,
        b.width == (if area.width < dimensions.spec_width() {
            area.width as int
        } else {
            dimensions.spec_width() - 1
        }) + 1,
        b.height == (if area.height < dimensions.spec_height() {
            area.height as int
        } else {
            dimensions.spec_height() - 1
        }) + 1,
        0 < b.width <= dimensions.spec_width(),
        0 < b.height <= dimensions.spec_height(),
{
    let width = dimensions.x_cap(area.width);
    let height = dimensions.y_cap(area.height);
    let x0 = area.left;
    let x1 = 1 + x0 + width;
    let y0 = area.top;
    let y1 = 1 + y0 + height;
    PlateBox { left: x0, top: y0, width: x1 - x0, height: y1 - y0 }
}

/// Index of the world cell under the cell at row `r`, column `c` of a plate
/// whose box starts at `(left, top)`: the box wraps round the world.
pub open spec fn world_cell(
    world_width: int,
    world_height: int,
    left: int,
    top: int,
    r: int,
    c: int,
) -> int {
    ((top + r) % world_height) * world_width + (left + c) % world_width
}

/// For each cell of a plate's `width` x `height` map, in row-major order,
/// the index of the world cell under it.
pub fn plate_world_indices(
    dimensions: WorldDimension,
    left: u32,
    top: u32,
    width: u32,
    height: u32,
) -> (out: Vec<usize>)
    requires
        width * height <= u32::MAX,
        dimensions.spec_width() * dimensions.spec_height() <= u32::MAX,
    ensures
        out@.len() == width * height,
        forall|r: int, c: int|
            0 <= r < height && 0 <= c < width ==> #[trigger] out@[r * width + c] == world_cell(
                dimensions.spec_width() as int,
                dimensions.spec_height() as int,
                left as int,
                top as int,
                r,
                c,
            ),
        forall|i: int| 0 <= i < out@.len() ==> #[trigger] out@[i] < dimensions.spec_width()
            * dimensions.spec_height(),
{
    let world_width = dimensions.width();
    let world_height = dimensions.height();
    let ghost ww = world_width as int;
    let ghost wh = world_height as int;
    assert(ww > 0 && wh > 0);
    let x_mod_start = left % world_width;
    let mut y_mod = top % world_height;
    let mut out: Vec<usize> = Vec::new();
    let mut r: u32 = 0;
    while r < height
        invariant
            ww == dimensions.spec_width(),
            wh == dimensions.spec_height(),
            ww > 0,
            wh > 0,
            world_width == ww,
            world_height == wh,
            ww * wh <= u32::MAX,
            width * height <= u32::MAX,
            x_mod_start == left as int % ww,
            x_mod_start < ww,
            y_mod < wh,
            r <= height,
            y_mod == (top + r) as int % wh,
            out@.len() == r * width,
            forall|rr: int, cc: int|
                0 <= rr < r && 0 <= cc < width ==> #[trigger] out@[rr * width + cc] == world_cell(
                    ww,
                    wh,
                    left as int,
                    top as int,
                    rr,
                    cc,
                ),
            forall|i: int| 0 <= i < out@.len() ==> #[trigger] out@[i] < ww * wh,
        decreases height - r,
    {
        let mut x_mod = x_mod_start;
        let mut c: u32 = 0;
        proof {
            assert(y_mod * ww + ww <= ww * wh) by (nonlinear_arith)
                requires
                    0 <= y_mod < wh,
                    ww > 0,
            ;
        }
        let y_width = y_mod * world_width;
        while c < width
            invariant
                ww == dimensions.spec_width(),
                wh == dimensions.spec_height(),
                ww > 0,
                wh > 0,
                world_width == ww,
                world_height == wh,
                ww * wh <= u32::MAX,
                width * height <= u32::MAX,
                r < height,
                c <= width,
                x_mod == (left + c) as int % ww,
                x_mod < ww,
                y_mod < wh,
                y_mod == (top + r) as int % wh,
                y_width == y_mod * ww,
                y_width + ww <= ww * wh,
                out@.len() == r * width + c,
                forall|rr: int, cc: int|
                    0 <= rr < r && 0 <= cc < width ==> #[trigger] out@[rr * width + cc]
                        == world_cell(ww, wh, left as int, top as int, rr, cc),
                forall|cc: int|
                    0 <= cc < c ==> #[trigger] out@[r * width + cc] == world_cell(
                        ww,
                        wh,
                        left as int,
                        top as int,
                        r as int,
                        cc,
                    ),
                forall|i: int| 0 <= i < out@.len() ==> #[trigger] out@[i] < ww * wh,
            decreases width - c,
        {
            proof {
                assert(r * width + c < (r + 1) * width) by (nonlinear_arith)
                    requires
                        c < width,
                ;
                assert((r + 1) * width <= height * width) by (nonlinear_arith)
                    requires
                        r < height,
                ;
            }
            out.push((x_mod + y_width) as usize);
            proof {
                assert forall|rr: int, cc: int|
                    0 <= rr < r && 0 <= cc < width implies #[trigger] out@[rr * width + cc]
                    == world_cell(ww, wh, left as int, top as int, rr, cc) by {
                    assert(rr * width + cc < r * width) by (nonlinear_arith)
                        requires
                            0 <= rr < r,
                            0 <= cc < width,
                    ;
                }
                lemma_mod_step(left as int + c, ww);
            }
            x_mod = x_mod + 1;
            if x_mod >= world_width {
                x_mod = x_mod - world_width;
            }
            c += 1;
        }
        proof {
            assert(out@.len() == (r + 1) * width) by (nonlinear_arith)
                requires
                    out@.len() == r * width + width,
            ;
            lemma_mod_step(top as int + r, wh);
        }
        y_mod = y_mod + 1;
        if y_mod >= world_height {
            y_mod = y_mod - world_height;
        }
        r += 1;
    }
    assert(out@.len() == width * height) by (nonlinear_arith)
        requires
            out@.len() == r * width,
            r == height,
    ;
    out
}

/// Stepping one cell along a wrapping axis.
proof fn lemma_mod_step(a: int, side: int)
    requires
        a >= 0,
        side > 0,
    ensures
        (a + 1) % side == if a % side + 1 >= side { a % side + 1 - side } else { a % side + 1 },
{
    vstd::arithmetic::div_mod::lemma_add_mod_noop(a, 1, side);
    if side == 1 {
        vstd::arithmetic::div_mod::lemma_mod_self_0(1);
        vstd::arithmetic::div_mod::lemma_mod_twice(a + 1, 1);
        return;
    }
    vstd::arithmetic::div_mod::lemma_small_mod(1, side as nat);
    if a % side + 1 >= side {
        vstd::arithmetic::div_mod::lemma_mod_self_0(side);
    } else {
        vstd::arithmetic::div_mod::lemma_small_mod((a % side + 1) as nat, side as nat);
    }
}

/// A plate no larger than the world lies over distinct world cells: two
/// different cells of its map never map to the same world cell.
pub proof fn lemma_plate_cells_distinct(
    world_width: int,
    world_height: int,
    left: int,
    top: int,
    width: int,
    height: int,
    r1: int,
    c1: int,
    r2: int,
    c2: int,
)
    requires
        0 < width <= world_width,
        0 < height <= world_height,
        left >= 0,
        top >= 0,
        0 <= r1 < height,
        0 <= r2 < height,
        0 <= c1 < width,
        0 <= c2 < width,
        r1 != r2 || c1 != c2,
    ensures
        world_cell(world_width, world_height, left, top, r1, c1) != world_cell(
            world_width,
            world_height,
            left,
            top,
            r2,
            c2,
        ),
{
    let y1 = (top + r1) % world_height;
    let y2 = (top + r2) % world_height;
    let x1 = (left + c1) % world_width;
    let x2 = (left + c2) % world_width;
    if y1 == y2 && x1 == x2 {
        lemma_offsets_distinct(top, r1, r2, world_height);
        lemma_offsets_distinct(left, c1, c2, world_width);
    } else if y1 != y2 {
        if y1 * world_width + x1 == y2 * world_width + x2 {
            vstd::arithmetic::div_mod::lemma_fundamental_div_mod_converse(
                y1 * world_width + x1,
                world_width,
                y1,
                x1,
            );
            vstd::arithmetic::div_mod::lemma_fundamental_div_mod_converse(
                y2 * world_width + x2,
                world_width,
                y2,
                x2,
            );
        }
    } else {
    }
}

proof fn lemma_offsets_distinct(base: int, a: int, b: int, side: int)
    requires
        side > 0,
        base >= 0,
        0 <= a < side,
        0 <= b < side,
        (base + a) % side == (base + b) % side,
    ensures
        a == b,
{
    vstd::arithmetic::div_mod::lemma_fundamental_div_mod(base + a, side);
    vstd::arithmetic::div_mod::lemma_fundamental_div_mod(base + b, side);
    let qa = (base + a) / side;
    let qb = (base + b) / side;
    let r = (base + a) % side;
    assert(side * qa - side * qb == a - b);
    assert(side * (qa - qb) == a - b) by (nonlinear_arith)
        requires
            side * qa - side * qb == a - b,
    ;
    if qa > qb {
        assert(side * (qa - qb) >= side) by (nonlinear_arith)
            requires
                qa - qb >= 1,
                side > 0,
        ;
        assert(false);
    } else if qa < qb {
        assert(side * (qb - qa) >= side) by (nonlinear_arith)
            requires
                qb - qa >= 1,
                side > 0,
        ;
        assert(side * (qb - qa) == b - a) by (nonlinear_arith)
            requires
                side * (qa - qb) == a - b,
        ;
        assert(false);
    } else {
        assert(side * (qa - qb) == 0) by (nonlinear_arith)
            requires
                qa == qb,
        ;
    }
}


/// Points every cell that belongs to plate `from` at plate `to` instead.
fn relabel_plate(imap: &mut Vec<u32>, from: u32, to: u32)
    ensures
        final(imap)@.len() == old(imap)@.len(),
        forall|c: int|
            0 <= c < old(imap)@.len() ==> #[trigger] final(imap)@[c] == if old(imap)@[c] == from {
                to
            } else {
                old(imap)@[c]
            },
{
    let ghost start = imap@;
    let mut c: usize = 0;
    while c < imap.len()
        invariant
            imap@.len() == start.len(),
            c <= imap@.len(),
            forall|k: int|
                0 <= k < c ==> #[trigger] imap@[k] == if start[k] == from {
                    to
                } else {
                    start[k]
                },
            forall|k: int| c <= k < imap@.len() ==> #[trigger] imap@[k] == start[k],
        decreases imap@.len() - c,
    {
        if imap[c] == from {
            imap.set(c, to);
        }
        c += 1;
    }
}

/// The order of the plates left when the plates at `origin` (their
/// indices before) are scanned from position `i` on, dropping each plate
/// whose count in `found` is zero by moving the last plate into its place,
/// until the scan passes the end or one plate is left.
pub open spec fn drop_order(found: Seq<u32>, origin: Seq<int>, i: nat) -> Seq<int>
    decreases 2 * origin.len() - i,
{
    if i >= origin.len() || origin.len() == 1 {
        origin
    } else if found[origin[i as int]] == 0 {
        drop_order(found, origin.update(i as int, origin.last()).drop_last(), i)
    } else {
        drop_order(found, origin, i + 1)
    }
}

/// The label a cell labelled `v` ends up with when the plates at `origin`
/// are scanned from position `i` on as `drop_order` does: each time a plate
/// is dropped by moving the last plate into its place, cells labelled with
/// the last plate's position take the dropped plate's position.
pub open spec fn drop_label(found: Seq<u32>, origin: Seq<int>, i: nat, v: int) -> int
    decreases 2 * origin.len() - i,
{
    if i >= origin.len() || origin.len() == 1 {
        v
    } else if found[origin[i as int]] == 0 {
        let last = origin.len() - 1;
        let v2 = if i != last && v == last {
            i as int
        } else {
            v
        };
        drop_label(found, origin.update(i as int, origin.last()).drop_last(), i, v2)
    } else {
        drop_label(found, origin, i + 1, v)
    }
}

/// Drops the plates that no cell belongs to any more (those whose count in
/// `found` is zero), unless only one plate is left, and keeps the cell
/// owners pointing at the same plates. A plate is dropped by moving the
/// last plate into its place, so the returned `origin` gives for each
/// remaining plate its index before the call; cells labelled with the moved
/// plate take its new index, and cells of a dropped plate keep their label
/// (`drop_label`).
pub fn remove_empty_plates<T>(plates: &mut Vec<T>, found: &mut Vec<u32>, imap: &mut Vec<u32>) -> (origin:
    Ghost<Seq<int>>)
    requires
        old(found)@.len() == old(plates)@.len(),
        old(plates)@.len() <= u32::MAX,
    ensures
        origin@ == drop_order(old(found)@, Seq::new(old(plates)@.len(), |k: int| k), 0),
        forall|c: int|
            0 <= c < old(imap)@.len() && old(imap)@[c] < old(plates)@.len() ==> #[trigger] final(imap)@[c]
                == drop_label(
                old(found)@,
                Seq::new(old(plates)@.len(), |k: int| k),
                0,
                old(imap)@[c] as int,
            ),
        final(plates)@.len() == origin@.len(),
        final(found)@.len() == origin@.len(),
        final(imap)@.len() == old(imap)@.len(),
        old(plates)@.len() > 0 ==> origin@.len() > 0,
        forall|k: int|
            0 <= k < origin@.len() ==> {
                &&& 0 <= #[trigger] origin@[k] < old(plates)@.len()
                &&& final(plates)@[k] == old(plates)@[origin@[k]]
                &&& final(found)@[k] == old(found)@[origin@[k]]
            },
        forall|k1: int, k2: int|
            0 <= k1 < origin@.len() && 0 <= k2 < origin@.len() && k1 != k2 ==> #[trigger] origin@[k1]
                != #[trigger] origin@[k2],
        forall|j: int|
            0 <= j < old(plates)@.len() && #[trigger] old(found)@[j] != 0 ==> exists|k: int|
                0 <= k < origin@.len() && #[trigger] origin@[k] == j,
        forall|k: int| 0 <= k < origin@.len() ==> #[trigger] final(found)@[k] != 0 || origin@.len() == 1,
        forall|c: int|
            0 <= c < old(imap)@.len() && old(imap)@[c] < old(plates)@.len() && old(found)@[old(imap)@[c] as int] != 0
                ==> #[trigger] final(imap)@[c] < origin@.len() && origin@[final(imap)@[c] as int] == old(imap)@[c],
        forall|c: int|
            0 <= c < old(imap)@.len() && old(imap)@[c] >= old(plates)@.len() ==> #[trigger] final(imap)@[c]
                == old(imap)@[c],
{
    let ghost p0 = plates@;
    let ghost f0 = found@;
    let ghost m0 = imap@;
    let ghost n0 = p0.len();
    let ghost mut origin: Seq<int> = Seq::new(n0, |k: int| k);
    assert forall|j: int| 0 <= j < n0 && #[trigger] f0[j] != 0 implies exists|k: int|
        0 <= k < origin.len() && #[trigger] origin[k] == j by {
        assert(origin[j] == j);
    }
    let mut i: usize = 0;
    while i < plates.len() && plates.len() != 1
        invariant
            n0 == p0.len(),
            f0.len() == n0,
            n0 <= u32::MAX,
            origin.len() == plates@.len(),
            found@.len() == plates@.len(),
            imap@.len() == m0.len(),
            i <= plates@.len(),
            plates@.len() <= n0,
            n0 > 0 ==> plates@.len() > 0,
            forall|k: int|
                0 <= k < origin.len() ==> {
                    &&& 0 <= #[trigger] origin[k] < n0
                    &&& plates@[k] == p0[origin[k]]
                    &&& found@[k] == f0[origin[k]]
                },
            forall|k1: int, k2: int|
                0 <= k1 < origin.len() && 0 <= k2 < origin.len() && k1 != k2 ==> #[trigger] origin[k1]
                    != #[trigger] origin[k2],
            forall|j: int|
                0 <= j < n0 && #[trigger] f0[j] != 0 ==> exists|k: int|
                    0 <= k < origin.len() && #[trigger] origin[k] == j,
            forall|k: int| 0 <= k < i ==> #[trigger] found@[k] != 0,
            forall|c: int|
                0 <= c < m0.len() && m0[c] < n0 && f0[m0[c] as int] != 0 ==> #[trigger] imap@[c]
                    < origin.len() && origin[imap@[c] as int] == m0[c],
            forall|c: int| 0 <= c < m0.len() && m0[c] >= n0 ==> #[trigger] imap@[c] == m0[c],
            drop_order(f0, origin, i as nat) == drop_order(f0, Seq::new(n0, |k: int| k), 0),
            forall|c: int|
                0 <= c < m0.len() && m0[c] < n0 ==> drop_label(f0, origin, i as nat, #[trigger] imap@[c] as int)
                    == drop_label(f0, Seq::new(n0, |k: int| k), 0, m0[c] as int),
        decreases plates@.len() - i,
    {
        if found[i] == 0 {
            let last = plates.len() - 1;
            let ghost before = origin;
            let ghost imap_before = imap@;
            plates.swap_remove(i);
            found.swap_remove(i);
            proof {
                assert(f0[before[i as int]] == 0);
                origin = before.update(i as int, before.last()).drop_last();
                assert forall|j: int| 0 <= j < n0 && #[trigger] f0[j] != 0 implies exists|k: int|
                    0 <= k < origin.len() && #[trigger] origin[k] == j by {
                    let k = choose|k: int| 0 <= k < before.len() && #[trigger] before[k] == j;
                    if k == last {
                        assert(origin[i as int] == j);
                    } else {
                        assert(k != i);
                        assert(origin[k] == j);
                    }
                }
                assert forall|k1: int, k2: int|
                    0 <= k1 < origin.len() && 0 <= k2 < origin.len() && k1 != k2 implies #[trigger] origin[k1]
                    != #[trigger] origin[k2] by {
                    let o1 = if k1 == i { last as int } else { k1 };
                    let o2 = if k2 == i { last as int } else { k2 };
                    assert(before[o1] != before[o2]);
                }
            }
            if i != last {
                relabel_plate(imap, last as u32, i as u32);
            }
            proof {
                assert forall|c: int|
                    0 <= c < m0.len() && m0[c] < n0 && f0[m0[c] as int] != 0 implies #[trigger] imap@[c]
                    < origin.len() && origin[imap@[c] as int] == m0[c] by {
                    let v = imap_before[c] as int;
                    assert(before[v] == m0[c]);
                    assert(v != i);
                }
            }
        } else {
            proof {
                assert(found@[i as int] == f0[origin[i as int]]);
            }
            i += 1;
        }
    }
    proof {
        assert(drop_order(f0, origin, i as nat) == origin);
        assert forall|c: int| 0 <= c < m0.len() && m0[c] < n0 implies #[trigger] imap@[c]
            == drop_label(f0, Seq::new(n0, |k: int| k), 0, m0[c] as int) by {
            assert(drop_label(f0, origin, i as nat, imap@[c] as int) == imap@[c] as int);
        }
    }
    Ghost(origin)
}


/// The remainder of `a` divided by `m > 0`, with the sign of `a`, as
/// machine integers compute it.
pub open spec fn truncated_rem(a: int, m: int) -> int {
    if a >= 0 {
        a % m
    } else {
        -((-a) % m)
    }
}

/// The four offsets into the noise field that a seed selects; they place
/// the noise samples of one world apart from those of another.
#[derive(Debug, Clone, Copy, PartialEq, Eq, Structural)]
pub struct NoiseOffsets {
    pub ka: i64,
    pub kb: i64,
    pub kc: i64,
    pub kd: i64,
}

/// The noise offsets for a non-zero `seed`. All products stay small (the
/// square is taken of the seed reduced modulo 256), so no seed overflows.
pub fn noise_offsets(seed: u32) -> (o: NoiseOffsets)
    requires
        seed != 0,
    ensures
        o.ka == 256int / (seed as int),
        o.kb == (seed as int * 567) % 256,
        o.kc == ((seed as int % 256) * (seed as int % 256)) % 256,
        o.kd == truncated_rem(567 - seed as int, 256),
{
    let seed = seed as i64;
    let ka = 256i64 / seed;
    let kb = seed * 567 % 256;
    let seed_mod = seed % 256;
    assert(0 <= seed_mod < 256);
    assert(seed_mod * seed_mod < 65536) by (nonlinear_arith)
        requires
            0 <= seed_mod < 256,
    ;
    let kc = seed_mod * seed_mod % 256;
    let kd = (567 - seed) % 256;
    NoiseOffsets { ka, kb, kc, kd }
}


/// After the plates have moved, hands every cell that no plate covers
/// (its owner is not below `plate_count`) back to its owner before the step,
/// and counts for each plate the cells it does cover. Answers the counts
/// and, in increasing order, the cells handed back.
#[verifier::spinoff_prover]
pub fn reclaim_uncovered(imap: &mut Vec<u32>, prev_imap: &[u32], plate_count: u32) -> (r: (
    Vec<u32>,
    Vec<usize>,
))
    requires
        old(imap)@.len() == prev_imap@.len(),
        old(imap)@.len() <= u32::MAX,
    ensures
        final(imap)@.len() == old(imap)@.len(),
        forall|c: int|
            0 <= c < old(imap)@.len() ==> #[trigger] final(imap)@[c] == if old(imap)@[c]
                >= plate_count {
                prev_imap@[c]
            } else {
                old(imap)@[c]
            },
        r.0@.len() == plate_count,
        forall|k: int| 0 <= k < plate_count ==> #[trigger] r.0@[k] == count_of(old(imap)@, k as u32),
        forall|j: int|
            0 <= j < r.1@.len() ==> #[trigger] r.1@[j] < old(imap)@.len() && old(imap)@[r.1@[j] as int]
                >= plate_count,
        forall|j1: int, j2: int| 0 <= j1 < j2 < r.1@.len() ==> #[trigger] r.1@[j1] < #[trigger] r.1@[j2],
        forall|c: int|
            0 <= c < old(imap)@.len() && #[trigger] old(imap)@[c] >= plate_count ==> exists|j: int|
                0 <= j < r.1@.len() && #[trigger] r.1@[j] == c,
{
    let ghost start = imap@;
    let mut found: Vec<u32> = Vec::new();
    let mut k: u32 = 0;
    while k < plate_count
        invariant
            found@.len() == k,
            k <= plate_count,
            forall|q: int| 0 <= q < k ==> #[trigger] found@[q] == 0,
        decreases plate_count - k,
    {
        found.push(0);
        k += 1;
    }
    let mut reclaimed: Vec<usize> = Vec::new();
    let mut c: usize = 0;
    while c < imap.len()
        invariant
            imap@.len() == start.len(),
            start.len() == prev_imap@.len(),
            start.len() <= u32::MAX,
            c <= start.len(),
            found@.len() == plate_count,
            forall|q: int|
                0 <= q < plate_count ==> #[trigger] found@[q] == count_of(
                    start.subrange(0, c as int),
                    q as u32,
                ),
            forall|i: int|
                0 <= i < c ==> #[trigger] imap@[i] == if start[i] >= plate_count {
                    prev_imap@[i]
                } else {
                    start[i]
                },
            forall|i: int| c <= i < start.len() ==> #[trigger] imap@[i] == start[i],
            forall|j: int|
                0 <= j < reclaimed@.len() ==> #[trigger] reclaimed@[j] < c && start[reclaimed@[j] as int]
                    >= plate_count,
            forall|j1: int, j2: int|
                0 <= j1 < j2 < reclaimed@.len() ==> #[trigger] reclaimed@[j1] < #[trigger] reclaimed@[j2],
            forall|i: int|
                0 <= i < c && #[trigger] start[i] >= plate_count ==> exists|j: int|
                    0 <= j < reclaimed@.len() && #[trigger] reclaimed@[j] == i,
        decreases start.len() - c,
    {
        proof {
            assert(start.subrange(0, c as int + 1).drop_last() =~= start.subrange(0, c as int));
            lemma_count_prefix_le(start, c as int, start[c as int]);
        }
        let owner = imap[c];
        if owner >= plate_count {
            imap.set(c, prev_imap[c]);
            let ghost before = reclaimed@;
            reclaimed.push(c);
            proof {
                assert forall|i: int|
                    0 <= i < c + 1 && #[trigger] start[i] >= plate_count implies exists|j: int|
                    0 <= j < reclaimed@.len() && #[trigger] reclaimed@[j] == i by {
                    if i == c {
                        assert(reclaimed@[before.len() as int] == i);
                    } else {
                        let j = choose|j: int| 0 <= j < before.len() && #[trigger] before[j] == i;
                        assert(reclaimed@[j] == i);
                    }
                }
            }
        } else {
            let n = found[owner as usize];
            found.set(owner as usize, n + 1);
        }
        c += 1;
    }
    proof {
        assert(start.subrange(0, start.len() as int) =~= start);
    }
    let ghost rec = reclaimed@;
    let r = (found, reclaimed);
    assert forall|i: int|
        0 <= i < old(imap)@.len() && #[trigger] old(imap)@[i] >= plate_count implies exists|j: int|
        0 <= j < r.1@.len() && #[trigger] r.1@[j] == i by {
        assert(start[i] >= plate_count);
        let j = choose|j: int| 0 <= j < rec.len() && #[trigger] rec[j] == i;
        assert(r.1@[j] == i);
    }
    r
}

/// Entries of a prefix equal to `v` number at most the prefix's length,
/// and one more entry adds at most one.
proof fn lemma_count_prefix_le(s: Seq<u32>, c: int, v: u32)
    requires
        0 <= c < s.len(),
        s.len() <= u32::MAX,
    ensures
        count_of(s.subrange(0, c), v) < u32::MAX,
        count_of(s.subrange(0, c + 1), v) == count_of(s.subrange(0, c), v) + if s[c] == v {
            1nat
        } else {
            0nat
        },
{
    assert(s.subrange(0, c + 1).drop_last() =~= s.subrange(0, c));
    lemma_count_le_len(s.subrange(0, c), v);
}


/// A plate that covers a cell is counted by `reclaim_uncovered` as covering
/// at least one cell, so `remove_empty_plates`, which drops only plates
/// counted as covering none, keeps every covered cell pointing at the
/// plate that covers it.
pub proof fn lemma_covered_cells_keep_their_plate(imap: Seq<u32>, plate_count: u32, c: int)
    requires
        0 <= c < imap.len(),
        imap[c] < plate_count,
    ensures
        count_of(imap, imap[c]) > 0,
    decreases imap.len(),
{
    if c < imap.len() - 1 {
        lemma_covered_cells_keep_their_plate(imap.drop_last(), plate_count, c);
    }
}


/// Mutable access to two different entries of a slice at once.
pub fn two_mut<T>(slice: &mut [T], first: usize, second: usize) -> (r: (&mut T, &mut T))
    requires
        first != second,
        first < old(slice)@.len(),
        second < old(slice)@.len(),
    ensures
        *r.0 == old(slice)@[first as int],
        *r.1 == old(slice)@[second as int],
        final(slice)@ == old(slice)@.update(first as int, *final(r.0)).update(
            second as int,
            *final(r.1),
        ),
{
    if first < second {
        let (left, right) = slice.split_at_mut(second);
        (&mut left[first], &mut right[0])
    } else {
        let (left, right) = slice.split_at_mut(first);
        (&mut right[0], &mut left[second])
    }
}

} // verus!
