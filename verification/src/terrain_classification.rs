use vstd::prelude::*;
use vstd::string::*;
use std::collections::VecDeque;
use crate::text::{length_mismatch_message, length_mismatch_text};

verus! {

/// `x` wrapped into the columns `0..width`.
pub fn wrap_x(x: i32, width: u32) -> (r: u32)
    requires
        0 < width <= 0x4000_0000,
    ensures
        r == x as int % width as int,
{
    let width = width as i32;
    let t = x % width;
    proof {
        let xi = x as int;
        let wi = width as int;
        if xi >= 0 {
            assert(t as int == xi % wi);
            vstd::arithmetic::div_mod::lemma_fundamental_div_mod_converse(t + wi, wi, 1, t as int);
        } else {
            let a = (-xi) % wi;
            let q = (-xi) / wi;
            assert(t as int == -a);
            vstd::arithmetic::div_mod::lemma_fundamental_div_mod(-xi, wi);
            if a > 0 {
                assert(xi == (-q - 1) * wi + (wi - a)) by (nonlinear_arith)
                    requires
                        -xi == wi * q + a,
                ;
                vstd::arithmetic::div_mod::lemma_fundamental_div_mod_converse(xi, wi, -q - 1, wi - a);
                vstd::arithmetic::div_mod::lemma_fundamental_div_mod_converse(wi - a, wi, 0, wi - a);
            } else {
                assert(xi == (-q) * wi + 0) by (nonlinear_arith)
                    requires
                        -xi == wi * q + a,
                        a == 0,
                ;
                vstd::arithmetic::div_mod::lemma_fundamental_div_mod_converse(xi, wi, -q, 0);
                vstd::arithmetic::div_mod::lemma_fundamental_div_mod_converse(wi, wi, 1, 0);
            }
        }
    }
    ((t + width) % width) as u32
}


/// Relief class of a map cell.
#[derive(Debug, Clone, Copy, PartialEq, Eq, Structural)]
pub enum ReliefKind {
    Ocean,
    Valley,
    Plain,
    Hill,
    Mountain,
    HighMountain,
}

/// Why a terrain classification was refused.
#[derive(Debug, Clone, PartialEq, Eq)]
pub struct TerrainClassificationError {
    message: String,
}

impl TerrainClassificationError {
    pub closed spec fn message_view(self) -> Seq<char> {
        self.message@
    }

    /// The error's message.
    pub fn to_string(&self) -> (s: String)
        ensures
            s@ == self.message_view(),
    {
        self.message.clone()
    }
}

/// Row-major index of the cell `(x, y)` of a map `width` cells wide.
pub fn index_of(width: u32, x: u32, y: u32) -> (i: usize)
    requires
        y * width + x <= u32::MAX,
    ensures
        i == y * width + x,
{
    (y * width + x) as usize
}

/// Ocean and valley cells hold water.
pub open spec fn is_water_kind(kind: ReliefKind) -> bool {
    kind == ReliefKind::Ocean || kind == ReliefKind::Valley
}

/// Ocean and valley cells hold water.
pub fn is_water(kind: ReliefKind) -> (b: bool)
    ensures
        b == is_water_kind(kind),
{
    match kind {
        ReliefKind::Ocean | ReliefKind::Valley => true,
        _ => false,
    }
}

/// The number of cells of a `width` by `height` map, refused when a side
/// is zero or the count does not fit in 32 bits.
pub fn checked_area(width: u32, height: u32) -> (r: Result<usize, TerrainClassificationError>)
    ensures
        match r {
            Ok(area) => width != 0 && height != 0 && width * height <= u32::MAX && area == width
                * height,
            Err(e) => {
                ||| (width == 0 || height == 0) && e.message_view()
                    == "terrain dimensions must be non-zero"@
                ||| (width != 0 && height != 0 && width * height > u32::MAX && e.message_view()
                    == "terrain area overflows u32"@)
            },
        },
{
    if width == 0 || height == 0 {
        return Err(
            TerrainClassificationError {
                message: String::from_str("terrain dimensions must be non-zero"),
            },
        );
    }
    match width.checked_mul(height) {
        Some(area) => Ok(area as usize),
        None => Err(
            TerrainClassificationError { message: String::from_str("terrain area overflows u32") },
        ),
    }
}

/// Refuses a layer called `name` whose length is not the map's area.
pub fn validate_len(name: &str, actual: usize, expected: usize) -> (r: Result<
    (),
    TerrainClassificationError,
>)
    ensures
        match r {
            Ok(()) => actual == expected,
            Err(e) => actual != expected && e.message_view() == length_mismatch_text(
                name@,
                actual as nat,
                expected as nat,
            ),
        },
{
    if actual == expected {
        Ok(())
    } else {
        Err(TerrainClassificationError { message: length_mismatch_message(name, actual, expected) })
    }
}

/// The cells `i` and `j` of a map `width` cells wide are equal or among the
/// eight neighbours of each other, columns wrapping around.
pub open spec fn touches(width: int, i: int, j: int) -> bool {
    let xi = i % width;
    let yi = i / width;
    let xj = j % width;
    let yj = j / width;
    &&& -1 <= yj - yi <= 1
    &&& (xj == (xi + width - 1) % width || xj == xi || xj == (xi + 1) % width)
}

/// The cell `i` lies on the first or the last row.
pub open spec fn on_border_row(width: int, height: int, i: int) -> bool {
    i / width == 0 || i / width == height - 1
}

/// `p` is a chain of touching cells below sea level that starts on the
/// first or last row.
pub open spec fn is_sea_path(low: Seq<bool>, width: int, height: int, p: Seq<int>) -> bool {
    &&& p.len() > 0
    &&& on_border_row(width, height, p[0])
    &&& forall|k: int| 0 <= k < p.len() ==> 0 <= #[trigger] p[k] < width * height && low[p[k]]
    &&& forall|k: int| 0 <= k < p.len() - 1 ==> touches(width, #[trigger] p[k], p[k + 1])
}

/// Water can flow from the top or bottom edge of the map to cell `i`
/// through cells below sea level.
pub open spec fn connected_to_border(low: Seq<bool>, width: int, height: int, i: int) -> bool {
    exists|p: Seq<int>| #[trigger] is_sea_path(low, width, height, p) && p.last() == i
}

/// Land, sea connected to the map's top or bottom edge, or enclosed water.
pub open spec fn water_class(low: Seq<bool>, width: int, height: int, i: int) -> ReliefKind {
    if !low[i] {
        ReliefKind::Plain
    } else if connected_to_border(low, width, height, i) {
        ReliefKind::Ocean
    } else {
        ReliefKind::Valley
    }
}

/// Every touching low neighbour of the cell `i` has been reached.
pub open spec fn closed_cell(
    relief: Seq<ReliefKind>,
    low: Seq<bool>,
    width: int,
    height: int,
    i: int,
) -> bool {
    forall|j: int|
        0 <= j < width * height && #[trigger] touches(width, i, j) && low[j] ==> relief[j]
            != ReliefKind::Plain
}

/// The cell `i` is the cell of some entry of `queue`.
pub open spec fn queued(queue: Seq<(u32, u32)>, width: int, i: int) -> bool {
    exists|k: int| 0 <= k < queue.len() && (#[trigger] queue[k]).1 * width + queue[k].0 == i
}

/// Number of entries of `s` equal to `v`.
pub open spec fn count_kind(s: Seq<ReliefKind>, v: ReliefKind) -> nat
    decreases s.len(),
{
    if s.len() == 0 {
        0
    } else {
        count_kind(s.drop_last(), v) + if s.last() == v {
            1nat
        } else {
            0nat
        }
    }
}

proof fn lemma_count_kind_update(s: Seq<ReliefKind>, i: int, v: ReliefKind, w: ReliefKind)
    requires
        0 <= i < s.len(),
        s[i] == v,
        w != v,
    ensures
        count_kind(s.update(i, w), v) + 1 == count_kind(s, v),
    decreases s.len(),
{
    let t = s.update(i, w);
    if i == s.len() - 1 {
        assert(t.drop_last() =~= s.drop_last());
    } else {
        assert(t.drop_last() =~= s.drop_last().update(i, w));
        lemma_count_kind_update(s.drop_last(), i, v, w);
    }
}

proof fn lemma_cell_coords(width: int, height: int, x: int, y: int)
    requires
        0 <= x < width,
        0 <= y < height,
    ensures
        (y * width + x) / width == y,
        (y * width + x) % width == x,
        0 <= y * width + x < width * height,
{
    vstd::arithmetic::div_mod::lemma_fundamental_div_mod_converse(y * width + x, width, y, x);
    assert(y * width + x < width * height) by (nonlinear_arith)
        requires
            0 <= x < width,
            0 <= y < height,
    ;
    assert(0 <= y * width) by (nonlinear_arith)
        requires
            0 <= y,
            0 <= width,
    ;
}

proof fn lemma_cell_index(width: int, height: int, j: int)
    requires
        0 <= j < width * height,
        width > 0,
    ensures
        0 <= j / width < height,
        0 <= j % width < width,
        j == (j / width) * width + j % width,
{
    vstd::arithmetic::div_mod::lemma_fundamental_div_mod(j, width);
    vstd::arithmetic::div_mod::lemma_div_pos_is_pos(j, width);
    vstd::arithmetic::div_mod::lemma_multiply_divide_lt(j, width, height);
    vstd::arithmetic::mul::lemma_mul_is_commutative(width, j / width);
}

/// The state of the ocean flood fill after seeding and during the search.
spec fn sea_state(
    relief: Seq<ReliefKind>,
    low: Seq<bool>,
    width: int,
    height: int,
    queue: Seq<(u32, u32)>,
    paths: Seq<Seq<int>>,
) -> bool {
    &&& relief.len() == width * height
    &&& low.len() == width * height
    &&& paths.len() == width * height
    &&& forall|i: int|
        0 <= i < relief.len() ==> #[trigger] relief[i] == ReliefKind::Plain || relief[i]
            == ReliefKind::Ocean
    &&& forall|i: int|
        0 <= i < relief.len() && #[trigger] relief[i] == ReliefKind::Ocean ==> low[i]
            && is_sea_path(low, width, height, paths[i]) && paths[i].last() == i
    &&& forall|k: int|
        0 <= k < queue.len() ==> (#[trigger] queue[k]).0 < width && queue[k].1 < height
            && relief[queue[k].1 * width + queue[k].0] == ReliefKind::Ocean
}

proof fn lemma_sea_path_is_ocean(
    relief: Seq<ReliefKind>,
    low: Seq<bool>,
    width: int,
    height: int,
    p: Seq<int>,
    k: int,
)
    requires
        width > 0,
        is_sea_path(low, width, height, p),
        0 <= k < p.len(),
        forall|i: int|
            0 <= i < width * height && on_border_row(width, height, i) && low[i] ==> #[trigger] relief[i]
                == ReliefKind::Ocean,
        forall|i: int|
            0 <= i < width * height && #[trigger] relief[i] == ReliefKind::Ocean ==> closed_cell(
                relief,
                low,
                width,
                height,
                i,
            ),
        forall|i: int|
            0 <= i < width * height ==> #[trigger] relief[i] == ReliefKind::Plain || relief[i]
                == ReliefKind::Ocean,
    ensures
        relief[p[k]] == ReliefKind::Ocean,
    decreases k,
{
    if k == 0 {
        assert(0 <= p[0] < width * height && low[p[0]]);
    } else {
        lemma_sea_path_is_ocean(relief, low, width, height, p, k - 1);
        assert(touches(width, p[k - 1], p[k]));
        assert(0 <= p[k] < width * height && low[p[k]]);
        assert(closed_cell(relief, low, width, height, p[k - 1]));
    }
}

/// Puts the cell `(x, y)` into the ocean and the search queue when it is
/// below sea level and not yet classified.
pub fn seed_ocean(
    low: &[bool],
    relief_kind: &mut Vec<ReliefKind>,
    queue: &mut VecDeque<(u32, u32)>,
    width: u32,
    x: u32,
    y: u32,
)
    requires
        x < width,
        y * width + x < old(relief_kind)@.len(),
        old(relief_kind)@.len() == low@.len(),
        old(relief_kind)@.len() <= u32::MAX,
    ensures
        ({
            let i = y * width + x;
            if low@[i] && old(relief_kind)@[i] == ReliefKind::Plain {
                &&& final(relief_kind)@ == old(relief_kind)@.update(i, ReliefKind::Ocean)
                &&& final(queue)@ == old(queue)@.push((x, y))
            } else {
                &&& final(relief_kind)@ == old(relief_kind)@
                &&& final(queue)@ == old(queue)@
            }
        }),
{
    let index = index_of(width, x, y);
    if low[index] && relief_kind[index] == ReliefKind::Plain {
        relief_kind.set(index, ReliefKind::Ocean);
        queue.push_back((x, y));
    }
}

/// The cell reached from `(x, y)` by the offsets `(dx, dy)`, columns
/// wrapping, touches `(x, y)`.
proof fn lemma_touch_offset(width: int, x: int, y: int, dx: int, dy: int)
    requires
        width > 0,
        0 <= x < width,
        -1 <= dx <= 1,
        -1 <= dy <= 1,
        y + dy >= 0,
    ensures
        touches(width, y * width + x, (y + dy) * width + (x + dx) % width),
{
    let nx = (x + dx) % width;
    vstd::arithmetic::div_mod::lemma_fundamental_div_mod_converse(y * width + x, width, y, x);
    vstd::arithmetic::div_mod::lemma_mod_bound(x + dx, width);
    vstd::arithmetic::div_mod::lemma_fundamental_div_mod_converse((y + dy) * width + nx, width, y + dy, nx);
    if dx == -1 {
        vstd::arithmetic::div_mod::lemma_mod_add_multiples_vanish(x - 1, width);
    } else if dx == 0 {
        vstd::arithmetic::div_mod::lemma_small_mod(x as nat, width as nat);
    }
}

/// A column touching column `x` that is not among those handled before
/// offset `dx` is the column at offset `dx` when that offset is next.
proof fn lemma_col_offset(width: int, x: int, dx: int, xj: int)
    requires
        width > 0,
        0 <= x < width,
        -1 <= dx <= 1,
        xj == (x + width - 1) % width || xj == x || xj == (x + 1) % width,
        !col_done(xj, x, width, dx),
        col_done(xj, x, width, dx + 1),
    ensures
        xj == (x + dx) % width,
{
    if dx == -1 {
        vstd::arithmetic::div_mod::lemma_mod_add_multiples_vanish(x - 1, width);
    } else if dx == 0 {
        vstd::arithmetic::div_mod::lemma_small_mod(x as nat, width as nat);
    }
}

/// The column `xj` is among those handled before column offset `dx` when
/// the neighbours of column `x` are visited from offset -1 to 1.
spec fn col_done(xj: int, x: int, width: int, dx: int) -> bool {
    (dx > -1 && xj == (x + width - 1) % width) || (dx > 0 && xj == x) || (dx > 1 && xj == (x + 1)
        % width)
}

proof fn lemma_closed_monotone(
    relief: Seq<ReliefKind>,
    relief2: Seq<ReliefKind>,
    low: Seq<bool>,
    width: int,
    height: int,
    i: int,
)
    requires
        closed_cell(relief, low, width, height, i),
        relief.len() == relief2.len(),
        forall|j: int|
            0 <= j < relief.len() && #[trigger] relief2[j] == ReliefKind::Plain ==> relief[j]
                == ReliefKind::Plain,
        relief.len() == width * height,
    ensures
        closed_cell(relief2, low, width, height, i),
{
    assert forall|j: int|
        0 <= j < width * height && #[trigger] touches(width, i, j) && low[j] implies relief2[j]
        != ReliefKind::Plain by {
        assert(relief[j] != ReliefKind::Plain);
    }
}

proof fn lemma_sea_path_push(low: Seq<bool>, width: int, height: int, p: Seq<int>, n: int)
    requires
        is_sea_path(low, width, height, p),
        touches(width, p.last(), n),
        0 <= n < width * height,
        low[n],
    ensures
        is_sea_path(low, width, height, p.push(n)),
        p.push(n).last() == n,
{
    let q = p.push(n);
    assert forall|k: int| 0 <= k < q.len() implies 0 <= #[trigger] q[k] < width * height
        && low[q[k]] by {
        if k < p.len() {
            assert(q[k] == p[k]);
        }
    }
    assert forall|k: int| 0 <= k < q.len() - 1 implies touches(width, #[trigger] q[k], q[k + 1]) by {
        if k < p.len() - 1 {
            assert(q[k] == p[k]);
            assert(q[k + 1] == p[k + 1]);
            assert(touches(width, p[k], p[k + 1]));
        }
    }
}

proof fn lemma_water_class(relief: Seq<ReliefKind>, low: Seq<bool>, width: int, height: int, i: int)
    requires
        width > 0,
        0 <= i < width * height,
        relief.len() == width * height,
        relief[i] == ReliefKind::Ocean ==> connected_to_border(low, width, height, i) && low[i],
        forall|j: int|
            0 <= j < width * height && on_border_row(width, height, j) && low[j] ==> #[trigger] relief[j]
                == ReliefKind::Ocean,
        forall|j: int|
            0 <= j < width * height && #[trigger] relief[j] == ReliefKind::Ocean ==> closed_cell(
                relief,
                low,
                width,
                height,
                j,
            ),
        forall|j: int|
            0 <= j < width * height ==> #[trigger] relief[j] == ReliefKind::Plain || relief[j]
                == ReliefKind::Ocean,
    ensures
        water_class(low, width, height, i) == if relief[i] == ReliefKind::Ocean {
            ReliefKind::Ocean
        } else if low[i] {
            ReliefKind::Valley
        } else {
            ReliefKind::Plain
        },
{
    if relief[i] != ReliefKind::Ocean && low[i] && connected_to_border(low, width, height, i) {
        let p = choose|p: Seq<int>| #[trigger] is_sea_path(low, width, height, p) && p.last() == i;
        lemma_sea_path_is_ocean(relief, low, width, height, p, p.len() - 1);
    }
}

/// Classifies every cell of a `width` by `height` map as plain land, ocean
/// or valley from `low`, which tells which cells lie at or below sea level:
/// low cells joined to the top or bottom row through low cells (touching
/// sideways or diagonally, columns wrapping around) are ocean, other low
/// cells are valleys, all others are plain.
pub fn fill_ocean_valley_plain(low: &[bool], width: u32, height: u32) -> (relief: Vec<ReliefKind>)
    requires
        0 < width <= 0x4000_0000,
        0 < height <= 0x7fff_ffff,
        width * height <= u32::MAX,
        low@.len() == width * height,
    ensures
        relief@.len() == width * height,
        forall|i: int|
            0 <= i < width * height ==> #[trigger] relief@[i] == water_class(
                low@,
                width as int,
                height as int,
                i,
            ),
{
    let ghost w = width as int;
    let ghost h = height as int;
    let area = (width * height) as usize;
    let mut relief_kind: Vec<ReliefKind> = Vec::new();
    let mut k: usize = 0;
    while k < area
        invariant
            k <= area,
            relief_kind@.len() == k,
            forall|i: int| 0 <= i < k ==> #[trigger] relief_kind@[i] == ReliefKind::Plain,
        decreases area - k,
    {
        relief_kind.push(ReliefKind::Plain);
        k += 1;
    }
    let mut queue: VecDeque<(u32, u32)> = VecDeque::new();
    let ghost mut paths: Seq<Seq<int>> = Seq::new(area as nat, |i: int| Seq::<int>::empty());

    let mut x: u32 = 0;
    while x < width
        invariant
            w == width,
            h == height,
            area == w * h,
            0 < width <= 0x4000_0000,
            0 < height <= 0x7fff_ffff,
            w * h <= u32::MAX,
            low@.len() == w * h,
            x <= width,
            sea_state(relief_kind@, low@, w, h, queue@, paths),
            forall|i: int|
                0 <= i < w * h && on_border_row(w, h, i) && low@[i] && i % w < x ==> #[trigger] relief_kind@[i]
                    == ReliefKind::Ocean,
            forall|i: int|
                0 <= i < w * h && #[trigger] relief_kind@[i] == ReliefKind::Ocean ==> queued(
                    queue@,
                    w,
                    i,
                ),
        decreases width - x,
    {
        let ghost r0 = relief_kind@;
        let ghost q0 = queue@;
        proof {
            lemma_cell_coords(w, h, x as int, 0);
            lemma_cell_coords(w, h, x as int, h - 1);
        }
        seed_ocean(low, &mut relief_kind, &mut queue, width, x, 0);
        proof {
            let i = x as int;
            if low@[i] && r0[i] == ReliefKind::Plain {
                let p = seq![i];
                assert(p[0] == i);
                paths = paths.update(i, p);
                assert(is_sea_path(low@, w, h, p));
                assert forall|k: int|
                    0 <= k < queue@.len() implies (#[trigger] queue@[k]).0 < w && queue@[k].1 < h
                    && relief_kind@[queue@[k].1 * w + queue@[k].0] == ReliefKind::Ocean by {
                    lemma_cell_coords(w, h, queue@[k].0 as int, queue@[k].1 as int);
                    if k < q0.len() {
                        assert(queue@[k] == q0[k]);
                    }
                }
            }
            assert forall|j: int|
                0 <= j < w * h && #[trigger] relief_kind@[j] == ReliefKind::Ocean implies queued(
                queue@,
                w,
                j,
            ) by {
                if low@[i] && r0[i] == ReliefKind::Plain && j == i {
                    assert(queue@[queue@.len() - 1] == (x, 0u32));
                } else {
                    assert(r0[j] == ReliefKind::Ocean);
                    let k = choose|k: int| 0 <= k < q0.len() && (#[trigger] q0[k]).1 * w + q0[k].0 == j;
                    assert(queue@[k] == q0[k]);
                }
            }
        }
        let ghost r1 = relief_kind@;
        let ghost q1 = queue@;
        seed_ocean(low, &mut relief_kind, &mut queue, width, x, height - 1);
        proof {
            let i = (h - 1) * w + x;
            if low@[i] && r1[i] == ReliefKind::Plain {
                let p = seq![i];
                assert(p[0] == i);
                paths = paths.update(i, p);
                assert(is_sea_path(low@, w, h, p));
                assert forall|k: int|
                    0 <= k < queue@.len() implies (#[trigger] queue@[k]).0 < w && queue@[k].1 < h
                    && relief_kind@[queue@[k].1 * w + queue@[k].0] == ReliefKind::Ocean by {
                    lemma_cell_coords(w, h, queue@[k].0 as int, queue@[k].1 as int);
                    if k < q1.len() {
                        assert(queue@[k] == q1[k]);
                    }
                }
            }
            assert forall|j: int|
                0 <= j < w * h && #[trigger] relief_kind@[j] == ReliefKind::Ocean implies queued(
                queue@,
                w,
                j,
            ) by {
                if low@[i] && r1[i] == ReliefKind::Plain && j == i {
                    assert(queue@[queue@.len() - 1] == (x, (height - 1) as u32));
                } else {
                    assert(r1[j] == ReliefKind::Ocean);
                    let k = choose|k: int| 0 <= k < q1.len() && (#[trigger] q1[k]).1 * w + q1[k].0 == j;
                    assert(queue@[k] == q1[k]);
                }
            }
            assert forall|j: int|
                0 <= j < w * h && on_border_row(w, h, j) && low@[j] && j % w < x + 1 implies #[trigger] relief_kind@[j]
                == ReliefKind::Ocean by {
                lemma_cell_index(w, h, j);
                if j % w == x {
                    if j / w == 0 {
                        assert(j == x);
                    } else {
                        assert(j == (h - 1) * w + x);
                    }
                } else {
                    assert(r0[j] == ReliefKind::Ocean);
                }
            }
        }
        x += 1;
    }

    while queue.len() > 0
        invariant
            w == width,
            h == height,
            area == w * h,
            0 < width <= 0x4000_0000,
            0 < height <= 0x7fff_ffff,
            w * h <= u32::MAX,
            low@.len() == w * h,
            sea_state(relief_kind@, low@, w, h, queue@, paths),
            forall|i: int|
                0 <= i < w * h && on_border_row(w, h, i) && low@[i] ==> #[trigger] relief_kind@[i]
                    == ReliefKind::Ocean,
            forall|i: int|
                0 <= i < w * h && #[trigger] relief_kind@[i] == ReliefKind::Ocean ==> queued(
                    queue@,
                    w,
                    i,
                ) || closed_cell(relief_kind@, low@, w, h, i),
        decreases queue@.len() + 2 * count_kind(relief_kind@, ReliefKind::Plain),
    {
        let ghost q0 = queue@;
        let ghost m0 = queue@.len() + 2 * count_kind(relief_kind@, ReliefKind::Plain);
        let (x, y) = queue.pop_front().unwrap();
        let ghost c = y * w + x;
        proof {
            assert(q0[0] == (x, y));
            assert(queue@ =~= q0.subrange(1, q0.len() as int));
            lemma_cell_coords(w, h, x as int, y as int);
            assert forall|k: int|
                0 <= k < queue@.len() implies (#[trigger] queue@[k]).0 < w && queue@[k].1 < h
                && relief_kind@[queue@[k].1 * w + queue@[k].0] == ReliefKind::Ocean by {
                assert(queue@[k] == q0[k + 1]);
                lemma_cell_coords(w, h, queue@[k].0 as int, queue@[k].1 as int);
            }
            assert forall|i: int|
                0 <= i < w * h && #[trigger] relief_kind@[i] == ReliefKind::Ocean && i != c
                    && !closed_cell(relief_kind@, low@, w, h, i) implies queued(queue@, w, i) by {
                let k = choose|k: int| 0 <= k < q0.len() && (#[trigger] q0[k]).1 * w + q0[k].0 == i;
                assert(k != 0);
                assert(queue@[k - 1] == q0[k]);
            }
        }
        let mut dy: i32 = -1;
        while dy <= 1
            invariant
                w == width,
                h == height,
                area == w * h,
                0 < width <= 0x4000_0000,
                0 < height <= 0x7fff_ffff,
                w * h <= u32::MAX,
                low@.len() == w * h,
                x < width,
                y < height,
                c == y * w + x,
                0 <= c < w * h,
                c / w == y,
                c % w == x,
                -1 <= dy <= 2,
                sea_state(relief_kind@, low@, w, h, queue@, paths),
                relief_kind@[c] == ReliefKind::Ocean,
                forall|i: int|
                    0 <= i < w * h && on_border_row(w, h, i) && low@[i] ==> #[trigger] relief_kind@[i]
                        == ReliefKind::Ocean,
                forall|i: int|
                    0 <= i < w * h && #[trigger] relief_kind@[i] == ReliefKind::Ocean && i != c
                        ==> queued(queue@, w, i) || closed_cell(relief_kind@, low@, w, h, i),
                forall|j: int|
                    0 <= j < w * h && #[trigger] touches(w, c, j) && low@[j] && j / w - y < dy
                        ==> relief_kind@[j] != ReliefKind::Plain,
                queue@.len() + 2 * count_kind(relief_kind@, ReliefKind::Plain) + 1 <= m0,
            decreases 2 - dy,
        {
            let mut dx: i32 = -1;
            while dx <= 1
                invariant
                    w == width,
                    h == height,
                    area == w * h,
                    0 < width <= 0x4000_0000,
                    0 < height <= 0x7fff_ffff,
                    w * h <= u32::MAX,
                    low@.len() == w * h,
                    x < width,
                    y < height,
                    c == y * w + x,
                    0 <= c < w * h,
                    c / w == y,
                    c % w == x,
                    -1 <= dy <= 1,
                    -1 <= dx <= 2,
                    sea_state(relief_kind@, low@, w, h, queue@, paths),
                    relief_kind@[c] == ReliefKind::Ocean,
                    forall|i: int|
                        0 <= i < w * h && on_border_row(w, h, i) && low@[i] ==> #[trigger] relief_kind@[i]
                            == ReliefKind::Ocean,
                    forall|i: int|
                        0 <= i < w * h && #[trigger] relief_kind@[i] == ReliefKind::Ocean && i != c
                            ==> queued(queue@, w, i) || closed_cell(relief_kind@, low@, w, h, i),
                    forall|j: int|
                        0 <= j < w * h && #[trigger] touches(w, c, j) && low@[j] && (j / w - y < dy
                            || (j / w - y == dy && col_done(j % w, x as int, w, dx as int)))
                            ==> relief_kind@[j] != ReliefKind::Plain,
                    queue@.len() + 2 * count_kind(relief_kind@, ReliefKind::Plain) + 1 <= m0,
                decreases 2 - dx,
            {
                let ghost r0 = relief_kind@;
                let ghost qb = queue@;
                let ghost nxs = (x as int + dx as int) % w;
                if !(dx == 0 && dy == 0) {
                    let nx = wrap_x(x as i32 + dx, width);
                    let ny = y as i32 + dy;
                    if ny >= 0 && ny < height as i32 {
                        let ny = ny as u32;
                        proof {
                            lemma_cell_coords(w, h, nx as int, ny as int);
                        }
                        let index = index_of(width, nx, ny);
                        if relief_kind[index] == ReliefKind::Plain && low[index] {
                            proof {
                                lemma_count_kind_update(
                                    relief_kind@,
                                    index as int,
                                    ReliefKind::Plain,
                                    ReliefKind::Ocean,
                                );
                                lemma_touch_offset(w, x as int, y as int, dx as int, dy as int);
                                lemma_sea_path_push(low@, w, h, paths[c], index as int);
                                paths = paths.update(index as int, paths[c].push(index as int));
                            }
                            relief_kind.set(index, ReliefKind::Ocean);
                            queue.push_back((nx, ny));
                            proof {
                                assert forall|k: int|
                                    0 <= k < queue@.len() implies (#[trigger] queue@[k]).0 < w
                                    && queue@[k].1 < h && relief_kind@[queue@[k].1 * w
                                    + queue@[k].0] == ReliefKind::Ocean by {
                                    lemma_cell_coords(
                                        w,
                                        h,
                                        queue@[k].0 as int,
                                        queue@[k].1 as int,
                                    );
                                    if k < qb.len() {
                                        assert(queue@[k] == qb[k]);
                                    }
                                }
                                assert forall|i: int|
                                    0 <= i < w * h && #[trigger] relief_kind@[i]
                                        == ReliefKind::Ocean && i != c implies queued(
                                    queue@,
                                    w,
                                    i,
                                ) || closed_cell(relief_kind@, low@, w, h, i) by {
                                    if i == index {
                                        assert(queue@[queue@.len() - 1] == (nx, ny));
                                    } else if queued(qb, w, i) {
                                        let k = choose|k: int|
                                            0 <= k < qb.len() && (#[trigger] qb[k]).1 * w
                                                + qb[k].0 == i;
                                        assert(queue@[k] == qb[k]);
                                    } else {
                                        lemma_closed_monotone(r0, relief_kind@, low@, w, h, i);
                                    }
                                }
                            }
                        }
                        proof {
                            assert forall|j: int|
                                0 <= j < w * h && #[trigger] touches(w, c, j) && low@[j] && (j / w
                                    - y < dy || (j / w - y == dy && col_done(
                                    j % w,
                                    x as int,
                                    w,
                                    dx + 1,
                                ))) implies relief_kind@[j] != ReliefKind::Plain by {
                                if j / w - y == dy && !col_done(j % w, x as int, w, dx as int) {
                                    lemma_col_offset(w, x as int, dx as int, j % w);
                                    lemma_cell_index(w, h, j);
                                    assert(j == index);
                                } else {
                                    assert(r0[j] != ReliefKind::Plain);
                                }
                            }
                        }
                    } else {
                        proof {
                            assert forall|j: int|
                                0 <= j < w * h && #[trigger] touches(w, c, j) && low@[j] && (j / w
                                    - y < dy || (j / w - y == dy && col_done(
                                    j % w,
                                    x as int,
                                    w,
                                    dx + 1,
                                ))) implies relief_kind@[j] != ReliefKind::Plain by {
                                lemma_cell_index(w, h, j);
                            }
                        }
                    }
                } else {
                    proof {
                        assert forall|j: int|
                            0 <= j < w * h && #[trigger] touches(w, c, j) && low@[j] && (j / w - y
                                < dy || (j / w - y == dy && col_done(j % w, x as int, w, dx + 1)))
                                implies relief_kind@[j] != ReliefKind::Plain by {
                            if j / w - y == dy && !col_done(j % w, x as int, w, dx as int) {
                                lemma_col_offset(w, x as int, 0, j % w);
                                lemma_cell_index(w, h, j);
                                assert(j == c);
                            }
                        }
                    }
                }
                dx += 1;
            }
            proof {
                assert forall|j: int|
                    0 <= j < w * h && #[trigger] touches(w, c, j) && low@[j] && j / w - y < dy + 1
                        implies relief_kind@[j] != ReliefKind::Plain by {
                    if j / w - y == dy {
                        assert(col_done(j % w, x as int, w, 2));
                    }
                }
            }
            dy += 1;
        }
        proof {
            assert(closed_cell(relief_kind@, low@, w, h, c));
        }
    }

    let ghost searched = relief_kind@;
    let mut index: usize = 0;
    while index < area
        invariant
            w == width,
            h == height,
            area == w * h,
            low@.len() == w * h,
            index <= area,
            relief_kind@.len() == area,
            searched.len() == area,
            forall|i: int| 0 <= i < index ==> #[trigger] relief_kind@[i] == if searched[i]
                == ReliefKind::Ocean {
                ReliefKind::Ocean
            } else if low@[i] {
                ReliefKind::Valley
            } else {
                ReliefKind::Plain
            },
            forall|i: int| index <= i < area ==> #[trigger] relief_kind@[i] == searched[i],
            forall|i: int|
                0 <= i < area ==> #[trigger] searched[i] == ReliefKind::Plain || searched[i]
                    == ReliefKind::Ocean,
        decreases area - index,
    {
        if relief_kind[index] == ReliefKind::Plain && low[index] {
            relief_kind.set(index, ReliefKind::Valley);
        }
        index += 1;
    }
    proof {
        assert forall|i: int| 0 <= i < w * h implies #[trigger] relief_kind@[i] == water_class(
            low@,
            w,
            h,
            i,
        ) by {
            lemma_water_class(searched, low@, w, h, i);
        }
    }
    relief_kind
}


/// The cell `dx` columns and `dy` rows away from `(x, y)`, columns wrapping
/// round a map `width` cells wide.
pub open spec fn window_cell(width: int, x: int, y: int, dx: int, dy: int) -> int {
    (y + dy) * width + (x + dx) % width
}

/// The offset `(dx, dy)` lies within `radius` of `(x, y)` in both
/// directions, is not the cell itself, and its row is on the map.
pub open spec fn window_offset(height: int, y: int, radius: int, dx: int, dy: int) -> bool {
    &&& -radius <= dx <= radius
    &&& -radius <= dy <= radius
    &&& !(dx == 0 && dy == 0)
    &&& 0 <= y + dy < height
}

/// Cell `j` lies in the window of `radius` around `(x, y)`: within
/// `radius` rows (not wrapping) and `radius` columns (wrapping), other than
/// `(x, y)` itself.
pub open spec fn in_window(width: int, height: int, x: int, y: int, radius: int, j: int) -> bool {
    exists|dx: int, dy: int|
        #![trigger window_cell(width, x, y, dx, dy)]
        window_offset(height, y, radius, dx, dy) && j == window_cell(width, x, y, dx, dy)
}

/// The land cells (not ocean or valley) in the window of `radius` around
/// `(x, y)`, scanned row by row; a cell may be listed more than once where
/// the window is wider than the map. Local relief is measured against the
/// lowest of them.
pub fn land_neighbors(
    relief_kind: &[ReliefKind],
    width: u32,
    height: u32,
    x: u32,
    y: u32,
    radius: u32,
) -> (out: Vec<usize>)
    requires
        0 < width <= 0x4000_0000,
        width * height <= u32::MAX,
        relief_kind@.len() == width * height,
        x < width,
        y < height,
        radius <= 0x1000_0000,
    ensures
        forall|k: int|
            0 <= k < out@.len() ==> {
                &&& #[trigger] out@[k] < relief_kind@.len()
                &&& !is_water_kind(relief_kind@[out@[k] as int])
                &&& in_window(width as int, height as int, x as int, y as int, radius as int, out@[k] as int)
            },
        forall|j: int|
            0 <= j < relief_kind@.len() && !is_water_kind(relief_kind@[j]) && in_window(
                width as int,
                height as int,
                x as int,
                y as int,
                radius as int,
                j,
            ) ==> exists|k: int| 0 <= k < out@.len() && #[trigger] out@[k] == j,
{
    let ghost w = width as int;
    let ghost h = height as int;
    let ghost xi = x as int;
    let ghost yi = y as int;
    let r = radius as i64;
    let ghost ri = r as int;
    let mut out: Vec<usize> = Vec::new();
    let mut dy: i64 = -r;
    while dy <= r
        invariant
            w == width,
            h == height,
            xi == x,
            yi == y,
            ri == r,
            0 < w <= 0x4000_0000,
            w * h <= u32::MAX,
            relief_kind@.len() == w * h,
            x < width,
            y < height,
            0 <= r <= 0x1000_0000,
            -r <= dy <= r + 1,
            forall|k: int|
                0 <= k < out@.len() ==> {
                    &&& #[trigger] out@[k] < relief_kind@.len()
                    &&& !is_water_kind(relief_kind@[out@[k] as int])
                    &&& in_window(w, h, xi, yi, ri, out@[k] as int)
                },
            forall|ddx: int, ddy: int|
                window_offset(h, yi, ri, ddx, ddy) && ddy < dy && !is_water_kind(
                    relief_kind@[window_cell(w, xi, yi, ddx, ddy)],
                ) ==> exists|k: int|
                    0 <= k < out@.len() && #[trigger] out@[k] == window_cell(w, xi, yi, ddx, ddy),
        decreases r + 1 - dy,
    {
        let ny = y as i64 + dy;
        if ny >= 0 && ny < height as i64 {
            let mut dx: i64 = -r;
            while dx <= r
                invariant
                    w == width,
                    h == height,
                    xi == x,
                    yi == y,
                    ri == r,
                    0 < w <= 0x4000_0000,
                    w * h <= u32::MAX,
                    relief_kind@.len() == w * h,
                    x < width,
                    y < height,
                    0 <= r <= 0x1000_0000,
                    -r <= dy <= r,
                    ny == yi + dy,
                    0 <= ny < h,
                    -r <= dx <= r + 1,
                    forall|k: int|
                        0 <= k < out@.len() ==> {
                            &&& #[trigger] out@[k] < relief_kind@.len()
                            &&& !is_water_kind(relief_kind@[out@[k] as int])
                            &&& in_window(w, h, xi, yi, ri, out@[k] as int)
                        },
                    forall|ddx: int, ddy: int|
                        window_offset(h, yi, ri, ddx, ddy) && (ddy < dy || (ddy == dy && ddx < dx))
                            && !is_water_kind(relief_kind@[window_cell(w, xi, yi, ddx, ddy)])
                            ==> exists|k: int|
                            0 <= k < out@.len() && #[trigger] out@[k] == window_cell(
                                w,
                                xi,
                                yi,
                                ddx,
                                ddy,
                            ),
                decreases r + 1 - dx,
            {
                if !(dx == 0 && dy == 0) {
                    let nx = wrap_x((x as i64 + dx) as i32, width);
                    proof {
                        assert(ny * w + w <= w * h) by (nonlinear_arith)
                            requires
                                0 <= ny < h,
                                w > 0,
                        ;
                    }
                    let idx = index_of(width, nx, ny as u32);
                    proof {
                        assert(idx as int == window_cell(w, xi, yi, dx as int, dy as int));
                        assert(window_offset(h, yi, ri, dx as int, dy as int));
                    }
                    if !is_water(relief_kind[idx]) {
                        let ghost before = out@;
                        out.push(idx);
                        proof {
                            assert forall|ddx: int, ddy: int|
                                window_offset(h, yi, ri, ddx, ddy) && (ddy < dy || (ddy == dy && ddx
                                    < dx + 1)) && !is_water_kind(
                                    relief_kind@[window_cell(w, xi, yi, ddx, ddy)],
                                ) implies exists|k: int|
                                0 <= k < out@.len() && #[trigger] out@[k] == window_cell(
                                    w,
                                    xi,
                                    yi,
                                    ddx,
                                    ddy,
                                ) by {
                                if ddy == dy && ddx == dx {
                                    assert(out@[before.len() as int] == window_cell(
                                        w,
                                        xi,
                                        yi,
                                        ddx,
                                        ddy,
                                    ));
                                } else {
                                    let k = choose|k: int|
                                        0 <= k < before.len() && #[trigger] before[k]
                                            == window_cell(w, xi, yi, ddx, ddy);
                                    assert(out@[k] == before[k]);
                                }
                            }
                        }
                    }
                }
                dx += 1;
            }
        } else {
            proof {
                assert forall|ddx: int, ddy: int|
                    window_offset(h, yi, ri, ddx, ddy) && ddy < dy + 1 && !is_water_kind(
                        relief_kind@[window_cell(w, xi, yi, ddx, ddy)],
                    ) implies exists|k: int|
                    0 <= k < out@.len() && #[trigger] out@[k] == window_cell(w, xi, yi, ddx, ddy) by {
                    assert(ddy != dy);
                }
            }
        }
        dy += 1;
    }
    proof {
        assert forall|j: int|
            0 <= j < relief_kind@.len() && !is_water_kind(relief_kind@[j]) && in_window(
                w,
                h,
                xi,
                yi,
                ri,
                j,
            ) implies exists|k: int| 0 <= k < out@.len() && #[trigger] out@[k] == j by {
            let (ddx, ddy) = choose|ddx: int, ddy: int|
                #![trigger window_cell(w, xi, yi, ddx, ddy)]
                window_offset(h, yi, ri, ddx, ddy) && j == window_cell(w, xi, yi, ddx, ddy);
            assert(window_offset(h, yi, ri, ddx, ddy));
        }
    }
    out
}

} // verus!
