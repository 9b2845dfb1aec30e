use vstd::prelude::*;
use crate::geometry::WorldDimension;
use crate::rectangle::{BAD_INDEX, Rectangle, enlarged_to_contain};
use crate::segment_data::SegmentData;

verus! {

/// Identifier of a continent segment within a plate.
pub type ContinentId = u32;

/// Number of entries of `s` equal to `v`.
pub open spec fn count_of(s: Seq<u32>, v: u32) -> nat
    decreases s.len(),
{
    if s.len() == 0 {
        0
    } else {
        count_of(s.drop_last(), v) + if s.last() == v {
            1nat
        } else {
            0nat
        }
    }
}

pub(crate) proof fn lemma_count_le_len(s: Seq<u32>, v: u32)
    ensures
        count_of(s, v) <= s.len(),
    decreases s.len(),
{
    if s.len() > 0 {
        lemma_count_le_len(s.drop_last(), v);
    }
}

proof fn lemma_count_update(s: Seq<u32>, i: int, v: u32)
    requires
        0 <= i < s.len(),
        s[i] != v,
    ensures
        count_of(s.update(i, v), v) == count_of(s, v) + 1,
    decreases s.len(),
{
    let t = s.update(i, v);
    if i == s.len() - 1 {
        assert(t.drop_last() =~= s.drop_last());
    } else {
        assert(t.drop_last() =~= s.drop_last().update(i, v));
        lemma_count_update(s.drop_last(), i, v);
    }
}

/// Sum of the lengths of the spans stored in `row` as `start, end` pairs.
pub open spec fn span_total(row: Seq<u32>) -> int
    decreases row.len(),
{
    if row.len() < 2 {
        0
    } else {
        span_total(row.subrange(0, row.len() - 2)) + row[row.len() - 1] - row[row.len() - 2] + 1
    }
}

/// Sum of `span_total` over the first `n` rows.
pub open spec fn spans_total(rows: Seq<Vec<u32>>, n: nat) -> int
    decreases n,
{
    if n == 0 {
        0
    } else {
        spans_total(rows, (n - 1) as nat) + span_total(rows[n - 1]@)
    }
}

/// A list of pending spans: `start, end` pairs inside `0..width` with `start <= end`.
pub open spec fn spans_wf(row: Seq<u32>, width: u32) -> bool {
    &&& row.len() % 2 == 0
    &&& forall|i: int| 0 <= i < row.len() ==> #[trigger] row[i] < width
    &&& forall|i: int| 0 <= i < row.len() && i % 2 == 0 ==> #[trigger] row[i] <= row[i + 1]
}

/// A list of finished spans: pairs of columns inside `0..width`.
pub open spec fn done_wf(row: Seq<u32>, width: u32) -> bool {
    &&& row.len() % 2 == 0
    &&& forall|i: int| 0 <= i < row.len() ==> #[trigger] row[i] < width
}

proof fn lemma_span_total_nonneg(row: Seq<u32>, width: u32)
    requires
        spans_wf(row, width),
    ensures
        span_total(row) >= 0,
    decreases row.len(),
{
    if row.len() >= 2 {
        let p = row.subrange(0, row.len() - 2);
        assert(row[row.len() - 2] <= row[row.len() - 1]);
        assert(spans_wf(p, width)) by {
            assert forall|i: int| 0 <= i < p.len() && i % 2 == 0 implies #[trigger] p[i] <= p[i
                + 1] by {
                assert(row[i] <= row[i + 1]);
            }
        }
        lemma_span_total_nonneg(p, width);
    }
}

proof fn lemma_span_total_prefix(row: Seq<u32>, k: int, width: u32)
    requires
        spans_wf(row, width),
        0 <= k <= row.len(),
        k % 2 == 0,
    ensures
        span_total(row.subrange(0, k)) <= span_total(row),
        spans_wf(row.subrange(0, k), width),
    decreases row.len(),
{
    let q = row.subrange(0, k);
    assert(spans_wf(q, width)) by {
        assert forall|i: int| 0 <= i < q.len() && i % 2 == 0 implies #[trigger] q[i] <= q[i + 1] by {
            assert(row[i] <= row[i + 1]);
        }
    }
    if k < row.len() {
        let p = row.subrange(0, row.len() - 2);
        assert(row[row.len() - 2] <= row[row.len() - 1]);
        assert(spans_wf(p, width)) by {
            assert forall|i: int| 0 <= i < p.len() && i % 2 == 0 implies #[trigger] p[i] <= p[i
                + 1] by {
                assert(row[i] <= row[i + 1]);
            }
        }
        assert(p.subrange(0, k) =~= q);
        lemma_span_total_prefix(p, k, width);
    } else {
        assert(q =~= row);
    }
}

proof fn lemma_span_total_push(row: Seq<u32>, a: u32, b: u32, width: u32)
    requires
        spans_wf(row, width),
        a <= b < width,
    ensures
        span_total(row.push(a).push(b)) == span_total(row) + b - a + 1,
        spans_wf(row.push(a).push(b), width),
{
    let r = row.push(a).push(b);
    assert(r.subrange(0, r.len() - 2) =~= row);
    assert forall|i: int| 0 <= i < r.len() && i % 2 == 0 implies #[trigger] r[i] <= r[i + 1] by {
        if i < row.len() {
            assert(row[i] <= row[i + 1]);
        }
    }
}

proof fn lemma_spans_total_nonneg(rows: Seq<Vec<u32>>, n: nat, width: u32)
    requires
        n <= rows.len(),
        forall|l: int| 0 <= l < rows.len() ==> spans_wf(#[trigger] rows[l]@, width),
    ensures
        spans_total(rows, n) >= 0,
    decreases n,
{
    if n > 0 {
        lemma_spans_total_nonneg(rows, (n - 1) as nat, width);
        lemma_span_total_nonneg(rows[n - 1]@, width);
    }
}

proof fn lemma_spans_total_zero(rows: Seq<Vec<u32>>, n: nat)
    requires
        n <= rows.len(),
        forall|l: int| 0 <= l < n ==> span_total(#[trigger] rows[l]@) == 0,
    ensures
        spans_total(rows, n) == 0,
    decreases n,
{
    if n > 0 {
        lemma_spans_total_zero(rows, (n - 1) as nat);
    }
}

proof fn lemma_spans_total_update(rows: Seq<Vec<u32>>, n: nat, l: int, r: Vec<u32>)
    requires
        n <= rows.len(),
        0 <= l < rows.len(),
    ensures
        spans_total(rows.update(l, r), n) == spans_total(rows, n) + if l < n {
            span_total(r@) - span_total(rows[l]@)
        } else {
            0
        },
    decreases n,
{
    if n > 0 {
        lemma_spans_total_update(rows, (n - 1) as nat, l, r);
    }
}

/// The continent segments of a plate: for every cell of the plate the id of
/// the segment it belongs to (`u32::MAX` when unassigned), and for every id
/// the segment's bookkeeping.
#[derive(Debug, Clone, PartialEq)]
pub struct Segments {
    ids: Vec<ContinentId>,
    data: Vec<SegmentData>,
}

/// The segment id that `create_segment` borrows from a direct land neighbour
/// of `origin` (west, east, north, south in that order, without wrapping),
/// or `id` when none of them belongs to an older segment.
pub open spec fn neighbor_segment(
    ids: Seq<u32>,
    land: Seq<bool>,
    x: u32,
    y: u32,
    origin: int,
    id: u32,
    width: u32,
    height: u32,
) -> u32 {
    let w = width as int;
    if x > 0 && land[origin - 1] && ids[origin - 1] < id {
        ids[origin - 1]
    } else if x < width - 1 && land[origin + 1] && ids[origin + 1] < id {
        ids[origin + 1]
    } else if y > 0 && land[origin - w] && ids[origin - w] < id {
        ids[origin - w]
    } else if y < height - 1 && land[origin + w] && ids[origin + w] < id {
        ids[origin + w]
    } else {
        id
    }
}

/// Every cell whose id differs between `before` and `after` went from an id
/// above `id` to `id`, and is land or the cell `origin`.
pub open spec fn only_claimed(
    before: Seq<u32>,
    after: Seq<u32>,
    land: Seq<bool>,
    id: u32,
    origin: int,
) -> bool {
    &&& after.len() == before.len()
    &&& forall|c: int|
        0 <= c < after.len() && #[trigger] after[c] != before[c] ==> after[c] == id && before[c]
            > id && (land[c] || c == origin)
}

proof fn lemma_count_pos(s: Seq<u32>, i: int, v: u32)
    requires
        0 <= i < s.len(),
        s[i] == v,
    ensures
        count_of(s, v) >= 1,
    decreases s.len(),
{
    if i < s.len() - 1 {
        lemma_count_pos(s.drop_last(), i, v);
    }
}

proof fn lemma_claim_one(a: Seq<u32>, b: Seq<u32>, land: Seq<bool>, id: u32, origin: int, i: int)
    requires
        only_claimed(a, b, land, id, origin),
        0 <= i < b.len(),
        b[i] > id,
        land[i] || i == origin,
    ensures
        only_claimed(a, b.update(i, id), land, id, origin),
{
    let c = b.update(i, id);
    assert forall|k: int| 0 <= k < c.len() && #[trigger] c[k] != a[k] implies c[k] == id && a[k]
        > id && (land[k] || k == origin) by {
        if k != i {
            assert(b[k] != a[k]);
        } else {
            if b[i] != a[i] {
                assert(b[i] == id);
            }
        }
    }
}

proof fn lemma_claim_chain(
    a: Seq<u32>,
    b: Seq<u32>,
    c: Seq<u32>,
    land: Seq<bool>,
    id: u32,
    origin: int,
)
    requires
        only_claimed(a, b, land, id, origin),
        only_claimed(b, c, land, id, -1),
    ensures
        only_claimed(a, c, land, id, origin),
{
    assert forall|k: int| 0 <= k < c.len() && #[trigger] c[k] != a[k] implies c[k] == id && a[k]
        > id && (land[k] || k == origin) by {
        if c[k] != b[k] {
            assert(b[k] > id);
            if b[k] != a[k] {
                assert(b[k] == id);
            }
        } else {
            assert(b[k] != a[k]);
        }
    }
}

proof fn lemma_row_offset(row: u32, width: u32, height: u32)
    requires
        row < height,
    ensures
        row * width + width <= width * height,
{
    assert(row * width + width <= width * height) by (nonlinear_arith)
        requires
            row < height,
    ;
}

proof fn lemma_row_step(row: u32, width: u32)
    ensures
        (row + 1) * width == row * width + width,
        row > 0 ==> row * width >= width,
{
    assert((row + 1) * width == row * width + width) by (nonlinear_arith);
    assert(row > 0 ==> row * width >= width) by (nonlinear_arith);
}

/// The shape of the state kept by the span flood fill that builds segment
/// `id`: the maps have the plate's size, only claims for `id` happened, the
/// origin carries `id`, and every row of pending and finished spans is well formed.
#[verifier::opaque]
spec fn fill_shape(
    ids0: Seq<u32>,
    ids: Seq<u32>,
    land: Seq<bool>,
    id: u32,
    origin: int,
    todo: Seq<Vec<u32>>,
    done: Seq<Vec<u32>>,
    width: u32,
    height: u32,
) -> bool {
    &&& ids0.len() == width * height
    &&& land.len() == width * height
    &&& width * height <= u32::MAX
    &&& 0 <= origin < ids.len()
    &&& only_claimed(ids0, ids, land, id, origin)
    &&& ids[origin] == id
    &&& todo.len() == height
    &&& done.len() == height
    &&& forall|l: int| 0 <= l < height ==> spans_wf(#[trigger] todo[l]@, width)
    &&& forall|l: int| 0 <= l < height ==> done_wf(#[trigger] done[l]@, width)
}

/// The cells carrying `id` that the span flood fill of segment `id` did not
/// take: those that carried it before, except the origin.
spec fn fill_base(ids0: Seq<u32>, id: u32, origin: int) -> int {
    count_of(ids0, id) - if ids0[origin] == id {
        1int
    } else {
        0int
    }
}

proof fn lemma_fill_base_nonneg(ids0: Seq<u32>, id: u32, origin: int)
    requires
        0 <= origin < ids0.len(),
    ensures
        fill_base(ids0, id, origin) >= 0,
{
    if ids0[origin] == id {
        lemma_count_pos(ids0, origin, id);
    }
}

/// Marks the cells that the fill of segment `id` took (see `claimed_cell`).
pub open spec fn taken_marks(ids0: Seq<u32>, ids1: Seq<u32>, id: u32, origin: int) -> Seq<u32> {
    Seq::new(
        ids1.len(),
        |c: int|
            if claimed_cell(ids0, ids1, id, origin, c) {
                1u32
            } else {
                0u32
            },
    )
}

/// Number of cells that the fill of segment `id` took: the cells that
/// carry `id` now and did not before, and its origin.
pub open spec fn taken_count(ids0: Seq<u32>, ids1: Seq<u32>, id: u32, origin: int) -> nat {
    count_of(taken_marks(ids0, ids1, id, origin), 1)
}

proof fn lemma_taken_prefix(
    ids0: Seq<u32>,
    ids1: Seq<u32>,
    land: Seq<bool>,
    id: u32,
    origin: int,
    n: int,
)
    requires
        only_claimed(ids0, ids1, land, id, origin),
        0 <= origin < ids1.len(),
        ids1[origin] == id,
        0 <= n <= ids1.len(),
    ensures
        count_of(taken_marks(ids0, ids1, id, origin).subrange(0, n), 1) + count_of(
            ids0.subrange(0, n),
            id,
        ) == count_of(ids1.subrange(0, n), id) + if origin < n && ids0[origin] == id {
            1int
        } else {
            0int
        },
    decreases n,
{
    let m = taken_marks(ids0, ids1, id, origin);
    if n > 0 {
        lemma_taken_prefix(ids0, ids1, land, id, origin, n - 1);
        assert(m.subrange(0, n).drop_last() =~= m.subrange(0, n - 1));
        assert(ids0.subrange(0, n).drop_last() =~= ids0.subrange(0, n - 1));
        assert(ids1.subrange(0, n).drop_last() =~= ids1.subrange(0, n - 1));
        let c = n - 1;
        if ids1[c] != ids0[c] {
            assert(ids1[c] == id && ids0[c] > id);
        }
    }
}

/// The cells a fill took are counted by how the count of `id` grew.
proof fn lemma_taken_count(
    ids0: Seq<u32>,
    ids1: Seq<u32>,
    land: Seq<bool>,
    id: u32,
    origin: int,
)
    requires
        only_claimed(ids0, ids1, land, id, origin),
        0 <= origin < ids1.len(),
        ids1[origin] == id,
    ensures
        taken_count(ids0, ids1, id, origin) == count_of(ids1, id) - fill_base(ids0, id, origin),
{
    let n = ids1.len() as int;
    lemma_taken_prefix(ids0, ids1, land, id, origin, n);
    assert(taken_marks(ids0, ids1, id, origin).subrange(0, n) =~= taken_marks(
        ids0,
        ids1,
        id,
        origin,
    ));
    assert(ids0.subrange(0, n) =~= ids0);
    assert(ids1.subrange(0, n) =~= ids1);
}

/// Work left to the span flood fill: pending span cells plus cells not yet
/// carrying `id`.
spec fn fill_measure(ids: Seq<u32>, id: u32, todo: Seq<Vec<u32>>, height: u32) -> int {
    spans_total(todo, height as nat) + ids.len() - count_of(ids, id)
}

proof fn lemma_shape_facts(
    ids0: Seq<u32>,
    ids: Seq<u32>,
    land: Seq<bool>,
    id: u32,
    origin: int,
    todo: Seq<Vec<u32>>,
    done: Seq<Vec<u32>>,
    width: u32,
    height: u32,
)
    requires
        fill_shape(ids0, ids, land, id, origin, todo, done, width, height),
    ensures
        ids0.len() == width * height,
        ids.len() == width * height,
        land.len() == width * height,
        width * height <= u32::MAX,
        0 <= origin < ids.len(),
        only_claimed(ids0, ids, land, id, origin),
        ids[origin] == id,
        todo.len() == height,
        done.len() == height,
        forall|l: int| 0 <= l < height ==> spans_wf(#[trigger] todo[l]@, width),
        forall|l: int| 0 <= l < height ==> done_wf(#[trigger] done[l]@, width),
        count_of(ids, id) <= ids.len(),
        spans_total(todo, height as nat) >= 0,
{
    reveal(fill_shape);
    lemma_count_le_len(ids, id);
    lemma_spans_total_nonneg(todo, height as nat, width);
}

proof fn lemma_shape_claim(
    ids0: Seq<u32>,
    ids: Seq<u32>,
    land: Seq<bool>,
    id: u32,
    origin: int,
    todo: Seq<Vec<u32>>,
    done: Seq<Vec<u32>>,
    width: u32,
    height: u32,
    i: int,
)
    requires
        fill_shape(ids0, ids, land, id, origin, todo, done, width, height),
        0 <= i < ids.len(),
        ids[i] > id,
        land[i],
    ensures
        fill_shape(ids0, ids.update(i, id), land, id, origin, todo, done, width, height),
        count_of(ids.update(i, id), id) == count_of(ids, id) + 1,
{
    reveal(fill_shape);
    lemma_count_update(ids, i, id);
    lemma_claim_one(ids0, ids, land, id, origin, i);
}

/// Replacing one row of pending spans by another well-formed row, while the
/// cell ids move on by claims for `id` only, keeps the shape.
proof fn lemma_shape_step(
    ids0: Seq<u32>,
    ids: Seq<u32>,
    ids2: Seq<u32>,
    land: Seq<bool>,
    id: u32,
    origin: int,
    todo: Seq<Vec<u32>>,
    todo2: Seq<Vec<u32>>,
    done: Seq<Vec<u32>>,
    width: u32,
    height: u32,
    l: int,
)
    requires
        fill_shape(ids0, ids, land, id, origin, todo, done, width, height),
        only_claimed(ids, ids2, land, id, -1),
        0 <= l < height,
        todo2.len() == todo.len(),
        forall|k: int| 0 <= k < todo.len() && k != l ==> #[trigger] todo2[k] == todo[k],
        spans_wf(todo2[l]@, width),
    ensures
        fill_shape(ids0, ids2, land, id, origin, todo2, done, width, height),
        spans_total(todo2, height as nat) == spans_total(todo, height as nat) + span_total(
            todo2[l]@,
        ) - span_total(todo[l]@),
{
    reveal(fill_shape);
    lemma_claim_chain(ids0, ids, ids2, land, id, origin);
    assert(todo2 =~= todo.update(l, todo2[l]));
    lemma_spans_total_update(todo, height as nat, l, todo2[l]);
    assert forall|k: int| 0 <= k < height implies spans_wf(#[trigger] todo2[k]@, width) by {
        if k != l {
            assert(todo2[k] == todo[k]);
        }
    }
    assert(ids2[origin] == ids[origin]);
}

proof fn lemma_shape_done(
    ids0: Seq<u32>,
    ids: Seq<u32>,
    land: Seq<bool>,
    id: u32,
    origin: int,
    todo: Seq<Vec<u32>>,
    done: Seq<Vec<u32>>,
    done2: Seq<Vec<u32>>,
    width: u32,
    height: u32,
    l: int,
    start: u32,
    end: u32,
)
    requires
        fill_shape(ids0, ids, land, id, origin, todo, done, width, height),
        0 <= l < height,
        start < width,
        end < width,
        done2.len() == done.len(),
        forall|k: int| 0 <= k < done.len() && k != l ==> #[trigger] done2[k] == done[k],
        done2[l]@ == done[l]@.push(start).push(end),
    ensures
        fill_shape(ids0, ids, land, id, origin, todo, done2, width, height),
{
    reveal(fill_shape);
    assert forall|k: int| 0 <= k < height implies done_wf(#[trigger] done2[k]@, width) by {
        if k != l {
            assert(done2[k] == done[k]);
        } else {
            assert(done_wf(done[k]@, width));
        }
    }
}

proof fn lemma_shape_init(
    ids0: Seq<u32>,
    ids: Seq<u32>,
    land: Seq<bool>,
    id: u32,
    origin: int,
    todo: Seq<Vec<u32>>,
    done: Seq<Vec<u32>>,
    width: u32,
    height: u32,
)
    requires
        ids0.len() == width * height,
        land.len() == width * height,
        width * height <= u32::MAX,
        0 <= origin < ids.len(),
        only_claimed(ids0, ids, land, id, origin),
        ids[origin] == id,
        todo.len() == height,
        done.len() == height,
        forall|l: int| 0 <= l < height ==> (#[trigger] todo[l])@.len() == 0,
        forall|l: int| 0 <= l < height ==> (#[trigger] done[l])@.len() == 0,
    ensures
        fill_shape(ids0, ids, land, id, origin, todo, done, width, height),
{
    reveal(fill_shape);
}

/// Column `j` lies in one of the `start, end` pairs of `row`.
pub open spec fn in_spans(row: Seq<u32>, j: int) -> bool {
    exists|i: int|
        #![trigger row[i]]
        0 <= i && i + 1 < row.len() && i % 2 == 0 && row[i] <= j <= row[i + 1]
}

/// The cell `c` is land not yet in segment `id` nor in an older one.
pub open spec fn open_land(ids: Seq<u32>, land: Seq<bool>, id: u32, c: int) -> bool {
    ids[c] > id && land[c]
}

/// The cell `c` was claimed by the fill of segment `id`, or is its origin.
pub open spec fn claimed_cell(ids0: Seq<u32>, ids: Seq<u32>, id: u32, origin: int, c: int) -> bool {
    ids[c] == id && (ids0[c] != id || c == origin)
}

/// The row above row `l`, wrapping to the last row.
pub open spec fn row_up(l: int, height: int) -> int {
    if l > 0 {
        l - 1
    } else {
        height - 1
    }
}

/// The row below row `l`, wrapping to the first row.
pub open spec fn row_down(l: int, height: int) -> int {
    if l < height - 1 {
        l + 1
    } else {
        0
    }
}

/// The finished span `s..=e` of row `l` carries `id`, and no open land is
/// left beside it in its row or next to it in the rows above and below, as
/// far as the fill steps there: within the plate, and around a side that
/// spans the whole world (`ww` x `wh`).
pub open spec fn span_closed(
    ids: Seq<u32>,
    land: Seq<bool>,
    id: u32,
    bw: int,
    bh: int,
    ww: int,
    wh: int,
    l: int,
    s: int,
    e: int,
) -> bool {
    &&& forall|c: int| l * bw + s <= c <= l * bw + e ==> #[trigger] ids[c] == id
    &&& s > 0 ==> !open_land(ids, land, id, l * bw + s - 1)
    &&& s == 0 && bw == ww ==> !open_land(ids, land, id, l * bw + bw - 1)
    &&& e < bw - 1 ==> !open_land(ids, land, id, l * bw + e + 1)
    &&& e == bw - 1 && bw == ww ==> !open_land(ids, land, id, l * bw)
    &&& (l > 0 || bh == wh) ==> forall|c: int|
        row_up(l, bh) * bw + s <= c <= row_up(l, bh) * bw + e ==> !#[trigger] open_land(
            ids,
            land,
            id,
            c,
        )
    &&& (l < bh - 1 || bh == wh) ==> forall|c: int|
        row_down(l, bh) * bw + s <= c <= row_down(l, bh) * bw + e ==> !#[trigger] open_land(
            ids,
            land,
            id,
            c,
        )
}

/// What the span fill of segment `id` keeps true besides its shape: every
/// claimed cell lies in a pending span, in a finished span or in the span
/// `ps..=pe` of row `pl` being worked on; the cells of pending spans and of
/// the span being worked on carry `id`; and every finished span is closed.
#[verifier::opaque]
spec fn fill_cover(
    ids0: Seq<u32>,
    ids: Seq<u32>,
    land: Seq<bool>,
    id: u32,
    origin: int,
    todo: Seq<Vec<u32>>,
    done: Seq<Vec<u32>>,
    bw: int,
    bh: int,
    ww: int,
    wh: int,
    pl: int,
    ps: int,
    pe: int,
) -> bool {
    &&& forall|c: int|
        0 <= c < ids.len() && #[trigger] claimed_cell(ids0, ids, id, origin, c) ==> {
            ||| in_spans(todo[c / bw]@, c % bw)
            ||| in_spans(done[c / bw]@, c % bw)
            ||| (c / bw == pl && ps <= c % bw <= pe)
        }
    &&& forall|l: int, j: int|
        0 <= l < bh && 0 <= j < bw && #[trigger] in_spans(todo[l]@, j) ==> ids[l * bw + j] == id
    &&& forall|c: int| pl * bw + ps <= c <= pl * bw + pe ==> #[trigger] ids[c] == id
    &&& forall|l: int, i: int|
        0 <= l < bh && 0 <= i && i + 1 < done[l]@.len() && i % 2 == 0 ==> span_closed(
            ids,
            land,
            id,
            bw,
            bh,
            ww,
            wh,
            l,
            #[trigger] done[l]@[i] as int,
            done[l]@[i + 1] as int,
        )
}

/// Row and column of a cell of a `bw`-wide plate.
proof fn lemma_cell_split(c: int, bw: int, bh: int)
    requires
        0 <= c < bw * bh,
        bw > 0,
    ensures
        0 <= c / bw < bh,
        0 <= c % bw < bw,
        c == (c / bw) * bw + c % bw,
{
    vstd::arithmetic::div_mod::lemma_fundamental_div_mod(c, bw);
    vstd::arithmetic::div_mod::lemma_div_pos_is_pos(c, bw);
    vstd::arithmetic::div_mod::lemma_multiply_divide_lt(c, bw, bh);
    vstd::arithmetic::mul::lemma_mul_is_commutative(bw, c / bw);
}

/// The cell in column `j` of row `l` splits back into `l` and `j`.
proof fn lemma_cell_join(l: int, j: int, bw: int)
    requires
        0 <= l,
        0 <= j < bw,
    ensures
        (l * bw + j) / bw == l,
        (l * bw + j) % bw == j,
{
    vstd::arithmetic::div_mod::lemma_fundamental_div_mod_converse(l * bw + j, bw, l, j);
}

/// Claims keep a finished span closed.
#[verifier::spinoff_prover]
proof fn lemma_span_closed_claims(
    ids: Seq<u32>,
    ids2: Seq<u32>,
    land: Seq<bool>,
    id: u32,
    bw: int,
    bh: int,
    ww: int,
    wh: int,
    l: int,
    s: int,
    e: int,
)
    requires
        span_closed(ids, land, id, bw, bh, ww, wh, l, s, e),
        only_claimed(ids, ids2, land, id, -1),
        ids.len() == bw * bh,
        0 <= l < bh,
        0 <= s < bw,
        0 <= e < bw,
    ensures
        span_closed(ids2, land, id, bw, bh, ww, wh, l, s, e),
{
    let n = bw * bh;
    assert forall|c: int| 0 <= c < n && !open_land(ids, land, id, c) implies !open_land(
        ids2,
        land,
        id,
        c,
    ) by {
        if ids2[c] != ids[c] {
            assert(ids2[c] == id);
        }
    }
    assert forall|c: int| l * bw + s <= c <= l * bw + e implies #[trigger] ids2[c] == id by {
        lemma_cell_in_plate(l, c - l * bw, bw, bh);
        assert(ids[c] == id);
        if ids2[c] != ids[c] {
            assert(ids[c] > id);
        }
    }
    if s > 0 {
        lemma_cell_in_plate(l, s - 1, bw, bh);
    }
    if e < bw - 1 {
        lemma_cell_in_plate(l, e + 1, bw, bh);
    }
    if s == 0 && bw == ww {
        lemma_cell_in_plate(l, bw - 1, bw, bh);
    }
    if e == bw - 1 && bw == ww {
        lemma_cell_in_plate(l, 0, bw, bh);
    }
    let up = row_up(l, bh);
    let down = row_down(l, bh);
    if l > 0 || bh == wh {
        assert forall|c: int| up * bw + s <= c <= up * bw + e implies !#[trigger] open_land(
            ids2,
            land,
            id,
            c,
        ) by {
            lemma_cell_in_plate(up, c - up * bw, bw, bh);
            assert(!open_land(ids, land, id, c));
        }
    }
    if l < bh - 1 || bh == wh {
        assert forall|c: int| down * bw + s <= c <= down * bw + e implies !#[trigger] open_land(
            ids2,
            land,
            id,
            c,
        ) by {
            lemma_cell_in_plate(down, c - down * bw, bw, bh);
            assert(!open_land(ids, land, id, c));
        }
    }
}

/// The cell in row `r` and column `j` of a `bw` x `bh` plate lies on it.
proof fn lemma_cell_in_plate(r: int, j: int, bw: int, bh: int)
    requires
        0 <= r < bh,
        0 <= j < bw,
    ensures
        0 <= r * bw + j < bw * bh,
{
    assert(0 <= r * bw + j < bw * bh) by (nonlinear_arith)
        requires
            0 <= r < bh,
            0 <= j < bw,
    ;
}

/// One step of the span fill: cells are claimed, pending spans are added,
/// and the span being worked on may widen; every newly claimed cell lands
/// in a pending span or in the span being worked on, and the new pending
/// cells and worked-on cells carry `id`.
#[verifier::spinoff_prover]
proof fn lemma_cover_step(
    ids0: Seq<u32>,
    ids: Seq<u32>,
    ids2: Seq<u32>,
    land: Seq<bool>,
    id: u32,
    origin: int,
    todo: Seq<Vec<u32>>,
    todo2: Seq<Vec<u32>>,
    done: Seq<Vec<u32>>,
    bw: int,
    bh: int,
    ww: int,
    wh: int,
    pl: int,
    ps: int,
    pe: int,
    ps2: int,
    pe2: int,
)
    requires
        fill_cover(ids0, ids, land, id, origin, todo, done, bw, bh, ww, wh, pl, ps, pe),
        only_claimed(ids, ids2, land, id, -1),
        ids.len() == bw * bh,
        bw > 0,
        bw <= u32::MAX,
        todo2.len() == todo.len(),
        todo.len() == bh,
        done.len() == bh,
        forall|l: int| 0 <= l < bh ==> done_wf(#[trigger] done[l]@, bw as u32),
        forall|l: int, j: int|
            0 <= l < bh && in_spans(todo[l]@, j) ==> #[trigger] in_spans(todo2[l]@, j),
        forall|l: int, j: int|
            0 <= l < bh && 0 <= j < bw && #[trigger] in_spans(todo2[l]@, j) ==> in_spans(
                todo[l]@,
                j,
            ) || ids2[l * bw + j] == id,
        forall|c: int|
            pl * bw + ps2 <= c <= pl * bw + pe2 && !(pl * bw + ps <= c <= pl * bw + pe)
                ==> #[trigger] ids2[c] == id,
        ps2 <= ps || pe < ps,
        pe <= pe2 || pe < ps,
        ps2 <= pe2 ==> 0 <= pl < bh && 0 <= ps2 && pe2 < bw,
        forall|c: int|
            0 <= c < ids.len() && #[trigger] ids2[c] != ids[c] ==> in_spans(todo2[c / bw]@, c % bw)
                || (c / bw == pl && ps2 <= c % bw <= pe2),
    ensures
        fill_cover(ids0, ids2, land, id, origin, todo2, done, bw, bh, ww, wh, pl, ps2, pe2),
{
    reveal(fill_cover);
    assert forall|c: int|
        0 <= c < ids2.len() && #[trigger] claimed_cell(ids0, ids2, id, origin, c) implies {
        ||| in_spans(todo2[c / bw]@, c % bw)
        ||| in_spans(done[c / bw]@, c % bw)
        ||| (c / bw == pl && ps2 <= c % bw <= pe2)
    } by {
        if ids2[c] == ids[c] {
            assert(claimed_cell(ids0, ids, id, origin, c));
            lemma_cell_split(c, bw, bh);
            if in_spans(todo[c / bw]@, c % bw) {
                assert(in_spans(todo2[c / bw]@, c % bw));
            }
        }
    }
    assert forall|l: int, j: int|
        0 <= l < bh && 0 <= j < bw && #[trigger] in_spans(todo2[l]@, j) implies ids2[l * bw + j]
        == id by {
        lemma_cell_in_plate(l, j, bw, bh);
        if in_spans(todo[l]@, j) {
            assert(ids[l * bw + j] == id);
        }
    }
    assert forall|c: int| pl * bw + ps2 <= c <= pl * bw + pe2 implies #[trigger] ids2[c] == id by {
        if pl * bw + ps <= c <= pl * bw + pe {
            lemma_cell_in_plate(pl, c - pl * bw, bw, bh);
            assert(ids[c] == id);
            if ids2[c] != ids[c] {
                assert(ids[c] > id);
            }
        }
    }
    assert forall|l: int, i: int|
        0 <= l < bh && 0 <= i && i + 1 < done[l]@.len() && i % 2 == 0 implies span_closed(
        ids2,
        land,
        id,
        bw,
        bh,
        ww,
        wh,
        l,
        #[trigger] done[l]@[i] as int,
        done[l]@[i + 1] as int,
    ) by {
        assert(done_wf(done[l]@, bw as u32));
        lemma_span_closed_claims(
            ids,
            ids2,
            land,
            id,
            bw,
            bh,
            ww,
            wh,
            l,
            done[l]@[i] as int,
            done[l]@[i + 1] as int,
        );
    }
}

/// Spans kept at the front of a row still hold their columns.
proof fn lemma_in_spans_prefix(row: Seq<u32>, longer: Seq<u32>, j: int)
    requires
        row.len() <= longer.len(),
        longer.subrange(0, row.len() as int) == row,
        in_spans(row, j),
    ensures
        in_spans(longer, j),
{
    let i = choose|i: int|
        #![trigger row[i]]
        0 <= i && i + 1 < row.len() && i % 2 == 0 && row[i] <= j <= row[i + 1];
    assert(longer[i] == row[i] && longer[i + 1] == row[i + 1]);
}

/// Taking a span out of the pending spans of `line` to work on it keeps
/// the cover: what left the pending spans is finished or worked on.
#[verifier::spinoff_prover]
proof fn lemma_cover_scan(
    ids0: Seq<u32>,
    ids: Seq<u32>,
    land: Seq<bool>,
    id: u32,
    origin: int,
    todo: Seq<Vec<u32>>,
    todo2: Seq<Vec<u32>>,
    done: Seq<Vec<u32>>,
    bw: int,
    bh: int,
    ww: int,
    wh: int,
    line: int,
    s: int,
    e: int,
)
    requires
        fill_cover(ids0, ids, land, id, origin, todo, done, bw, bh, ww, wh, 0, 0, -1),
        ids.len() == bw * bh,
        bw > 0,
        0 <= line < bh,
        todo.len() == bh,
        todo2.len() == bh,
        forall|l: int| 0 <= l < bh && l != line ==> #[trigger] todo2[l] == todo[l],
        todo2[line]@.len() <= todo[line]@.len(),
        todo2[line]@ == todo[line]@.subrange(0, todo2[line]@.len() as int),
        forall|j: int|
            #[trigger] in_spans(todo[line]@, j) ==> in_spans(todo2[line]@, j) || in_spans(
                done[line]@,
                j,
            ) || s <= j <= e,
        forall|j: int| s <= j <= e ==> #[trigger] in_spans(todo[line]@, j),
        s <= e ==> 0 <= s && e < bw,
    ensures
        fill_cover(
            ids0,
            ids,
            land,
            id,
            origin,
            todo2,
            done,
            bw,
            bh,
            ww,
            wh,
            if s <= e {
                line
            } else {
                0
            },
            s,
            e,
        ),
{
    reveal(fill_cover);
    let pl2 = if s <= e {
        line
    } else {
        0
    };
    assert forall|c: int|
        0 <= c < ids.len() && #[trigger] claimed_cell(ids0, ids, id, origin, c) implies {
        ||| in_spans(todo2[c / bw]@, c % bw)
        ||| in_spans(done[c / bw]@, c % bw)
        ||| (c / bw == pl2 && s <= c % bw <= e)
    } by {
        lemma_cell_split(c, bw, bh);
        if c / bw != line {
            assert(todo2[c / bw] == todo[c / bw]);
        } else if in_spans(todo[line]@, c % bw) {
        }
    }
    assert forall|l: int, j: int|
        0 <= l < bh && 0 <= j < bw && #[trigger] in_spans(todo2[l]@, j) implies ids[l * bw + j]
        == id by {
        if l == line {
            lemma_in_spans_prefix(todo2[line]@, todo[line]@, j);
        } else {
            assert(todo2[l] == todo[l]);
        }
    }
    assert forall|c: int| pl2 * bw + s <= c <= pl2 * bw + e implies #[trigger] ids[c] == id by {
        let j = c - line * bw;
        assert(in_spans(todo[line]@, j));
        assert(ids[line * bw + j] == id);
    }
}

/// Finishing the span `start..=end` of `line` once it is closed keeps the
/// cover with nothing left being worked on.
#[verifier::spinoff_prover]
proof fn lemma_cover_done(
    ids0: Seq<u32>,
    ids: Seq<u32>,
    land: Seq<bool>,
    id: u32,
    origin: int,
    todo: Seq<Vec<u32>>,
    done: Seq<Vec<u32>>,
    done2: Seq<Vec<u32>>,
    bw: int,
    bh: int,
    ww: int,
    wh: int,
    line: int,
    start: u32,
    end: u32,
)
    requires
        fill_cover(ids0, ids, land, id, origin, todo, done, bw, bh, ww, wh, line, start as int, end as int),
        ids.len() == bw * bh,
        bw > 0,
        0 <= line < bh,
        start <= end < bw,
        done.len() == bh,
        done2.len() == bh,
        forall|l: int| 0 <= l < bh && l != line ==> #[trigger] done2[l] == done[l],
        done2[line]@ == done[line]@.push(start).push(end),
        done[line]@.len() % 2 == 0,
        start > 0 ==> !open_land(ids, land, id, line * bw + start - 1),
        start == 0 && bw == ww ==> !open_land(ids, land, id, line * bw + bw - 1),
        end < bw - 1 ==> !open_land(ids, land, id, line * bw + end + 1),
        end == bw - 1 && bw == ww ==> !open_land(ids, land, id, line * bw),
        (line > 0 || bh == wh) ==> forall|c: int|
            row_up(line, bh) * bw + start <= c <= row_up(line, bh) * bw + end ==> !#[trigger] open_land(
                ids,
                land,
                id,
                c,
            ),
        (line < bh - 1 || bh == wh) ==> forall|c: int|
            row_down(line, bh) * bw + start <= c <= row_down(line, bh) * bw + end ==> !#[trigger] open_land(
                ids,
                land,
                id,
                c,
            ),
    ensures
        fill_cover(ids0, ids, land, id, origin, todo, done2, bw, bh, ww, wh, 0, 0, -1),
{
    reveal(fill_cover);
    let d = done[line]@;
    let d2 = done2[line]@;
    assert(d2.subrange(0, d.len() as int) =~= d);
    assert(span_closed(ids, land, id, bw, bh, ww, wh, line, start as int, end as int));
    assert forall|c: int|
        0 <= c < ids.len() && #[trigger] claimed_cell(ids0, ids, id, origin, c) implies {
        ||| in_spans(todo[c / bw]@, c % bw)
        ||| in_spans(done2[c / bw]@, c % bw)
        ||| (c / bw == 0 && 0 <= c % bw <= -1)
    } by {
        lemma_cell_split(c, bw, bh);
        if in_spans(done[c / bw]@, c % bw) {
            if c / bw == line {
                lemma_in_spans_prefix(d, d2, c % bw);
            } else {
                assert(done2[c / bw] == done[c / bw]);
            }
        } else if c / bw == line && start <= c % bw <= end {
            assert(d2[d.len() as int] == start && d2[d.len() as int + 1] == end);
        }
    }
    assert forall|l: int, i: int|
        0 <= l < bh && 0 <= i && i + 1 < done2[l]@.len() && i % 2 == 0 implies span_closed(
        ids,
        land,
        id,
        bw,
        bh,
        ww,
        wh,
        l,
        #[trigger] done2[l]@[i] as int,
        done2[l]@[i + 1] as int,
    ) by {
        if l != line {
            assert(done2[l] == done[l]);
        } else if i < d.len() {
            assert(d2[i] == d[i] && d2[i + 1] == d[i + 1]);
        } else {
            assert(i == d.len());
        }
    }
}

/// The fill starts with just the origin claimed and pending.
#[verifier::spinoff_prover]
proof fn lemma_cover_init(
    ids0: Seq<u32>,
    ids: Seq<u32>,
    land: Seq<bool>,
    id: u32,
    origin: int,
    todo: Seq<Vec<u32>>,
    done: Seq<Vec<u32>>,
    bw: int,
    bh: int,
    ww: int,
    wh: int,
    x: u32,
    y: u32,
)
    requires
        ids0.len() == bw * bh,
        ids == ids0.update(origin, id),
        origin == y * bw + x,
        x < bw,
        y < bh,
        todo.len() == bh,
        done.len() == bh,
        todo[y as int]@ == seq![x, x],
        forall|l: int| 0 <= l < bh && l != y ==> (#[trigger] todo[l])@.len() == 0,
        forall|l: int| 0 <= l < bh ==> (#[trigger] done[l])@.len() == 0,
    ensures
        fill_cover(ids0, ids, land, id, origin, todo, done, bw, bh, ww, wh, 0, 0, -1),
{
    reveal(fill_cover);
    lemma_cell_join(y as int, x as int, bw);
    lemma_cell_in_plate(y as int, x as int, bw, bh);
    assert(in_spans(todo[y as int]@, x as int)) by {
        assert(todo[y as int]@[0] == x && todo[y as int]@[1] == x);
    }
    assert forall|c: int|
        0 <= c < ids.len() && #[trigger] claimed_cell(ids0, ids, id, origin, c) implies {
        ||| in_spans(todo[c / bw]@, c % bw)
        ||| in_spans(done[c / bw]@, c % bw)
        ||| (c / bw == 0 && 0 <= c % bw <= -1)
    } by {
        if c != origin {
            assert(ids[c] == ids0[c]);
        }
    }
    assert forall|l: int, j: int|
        0 <= l < bh && 0 <= j < bw && #[trigger] in_spans(todo[l]@, j) implies ids[l * bw + j]
        == id by {
        if l != y {
            assert(todo[l]@.len() == 0);
        } else {
            let i = choose|i: int|
                #![trigger todo[l]@[i]]
                0 <= i && i + 1 < todo[l]@.len() && i % 2 == 0 && todo[l]@[i] <= j <= todo[l]@[i + 1];
            assert(j == x);
        }
    }
}

proof fn lemma_only_claimed_refl(ids: Seq<u32>, land: Seq<bool>, id: u32)
    ensures
        only_claimed(ids, ids, land, id, -1),
{
}

/// First column of the `p`-th span of a row of `start, end` pairs.
pub open spec fn span_lo(row: Seq<u32>, p: int) -> int {
    row[2 * p] as int
}

/// Last column of the `p`-th span of a row of `start, end` pairs.
pub open spec fn span_hi(row: Seq<u32>, p: int) -> int {
    row[2 * p + 1] as int
}

/// The `p`-th span of `row` holds column `j`.
proof fn lemma_in_span_at(row: Seq<u32>, p: int, j: int)
    requires
        0 <= p,
        2 * p + 1 < row.len(),
        span_lo(row, p) <= j <= span_hi(row, p),
    ensures
        in_spans(row, j),
{
    assert(row[2 * p] <= j <= row[2 * p + 1]);
}

/// The span of `row` that holds column `j`.
proof fn lemma_span_of(row: Seq<u32>, j: int) -> (p: int)
    requires
        in_spans(row, j),
    ensures
        0 <= p,
        2 * p + 1 < row.len(),
        span_lo(row, p) <= j <= span_hi(row, p),
{
    let i = choose|i: int|
        #![trigger row[i]]
        0 <= i && i + 1 < row.len() && i % 2 == 0 && row[i] <= j <= row[i + 1];
    let p = i / 2;
    assert(2 * p == i);
    p
}

/// The pending spans of each row are apart from one another and from the
/// finished spans of their row, and none of them meets the span `ps..=pe`
/// of row `pl` being worked on. So no pending span is ever trimmed, and
/// each claimed cell is counted in one span only.
#[verifier::opaque]
spec fn fill_apart(
    todo: Seq<Vec<u32>>,
    done: Seq<Vec<u32>>,
    bh: int,
    pl: int,
    ps: int,
    pe: int,
) -> bool {
    &&& forall|l: int, p: int, q: int|
        #![trigger span_lo(todo[l]@, p), span_lo(todo[l]@, q)]
        0 <= l < bh && 0 <= p < q && 2 * q + 1 < todo[l]@.len() ==> span_hi(todo[l]@, p)
            < span_lo(todo[l]@, q) || span_hi(todo[l]@, q) < span_lo(todo[l]@, p)
    &&& forall|l: int, j: int|
        0 <= l < bh && #[trigger] in_spans(todo[l]@, j) ==> !in_spans(done[l]@, j)
    &&& forall|j: int| ps <= j <= pe ==> !#[trigger] in_spans(todo[pl]@, j)
}

proof fn lemma_apart_init(todo: Seq<Vec<u32>>, done: Seq<Vec<u32>>, bh: int, x: u32, y: int)
    requires
        0 <= y < bh,
        todo.len() == bh,
        done.len() == bh,
        todo[y]@ == seq![x, x],
        forall|l: int| 0 <= l < bh && l != y ==> (#[trigger] todo[l])@.len() == 0,
        forall|l: int| 0 <= l < bh ==> (#[trigger] done[l])@.len() == 0,
    ensures
        fill_apart(todo, done, bh, 0, 0, -1),
{
    reveal(fill_apart);
    assert forall|l: int, j: int|
        0 <= l < bh && #[trigger] in_spans(todo[l]@, j) implies !in_spans(done[l]@, j) by {
        assert(done[l]@.len() == 0);
    }
}

/// A row with pending spans is never trimmed.
proof fn lemma_apart_untrimmed(
    todo: Seq<Vec<u32>>,
    done: Seq<Vec<u32>>,
    bh: int,
    pl: int,
    ps: int,
    pe: int,
    l: int,
)
    requires
        fill_apart(todo, done, bh, pl, ps, pe),
        0 <= l < bh,
        todo[l]@.len() > 0,
    ensures
        untrimmed(todo[l]@, done[l]@),
{
    reveal(fill_apart);
}

/// Taking the last pending span of row `l` out to work on it.
#[verifier::spinoff_prover]
proof fn lemma_apart_pop(
    todo: Seq<Vec<u32>>,
    todo2: Seq<Vec<u32>>,
    done: Seq<Vec<u32>>,
    bh: int,
    l: int,
)
    requires
        fill_apart(todo, done, bh, 0, 0, -1),
        0 <= l < bh,
        todo.len() == bh,
        todo2.len() == bh,
        todo[l]@.len() >= 2,
        todo[l]@.len() % 2 == 0,
        forall|k: int| 0 <= k < bh && k != l ==> #[trigger] todo2[k] == todo[k],
        todo2[l]@ == todo[l]@.subrange(0, todo[l]@.len() - 2),
    ensures
        fill_apart(
            todo2,
            done,
            bh,
            l,
            todo[l]@[todo[l]@.len() - 2] as int,
            todo[l]@[todo[l]@.len() - 1] as int,
        ),
{
    reveal(fill_apart);
    let r = todo[l]@;
    let r2 = todo2[l]@;
    let n = r.len() - 2;
    assert forall|q: int, a: int, b: int|
        #![trigger span_lo(todo2[q]@, a), span_lo(todo2[q]@, b)]
        0 <= q < bh && 0 <= a < b && 2 * b + 1 < todo2[q]@.len() implies span_hi(todo2[q]@, a)
        < span_lo(todo2[q]@, b) || span_hi(todo2[q]@, b) < span_lo(todo2[q]@, a) by {
        if q != l {
            assert(todo2[q] == todo[q]);
        } else {
            assert(span_lo(r2, a) == span_lo(r, a) && span_hi(r2, a) == span_hi(r, a));
            assert(span_lo(r2, b) == span_lo(r, b) && span_hi(r2, b) == span_hi(r, b));
        }
    }
    assert forall|q: int, j: int|
        0 <= q < bh && #[trigger] in_spans(todo2[q]@, j) implies !in_spans(done[q]@, j) by {
        if q != l {
            assert(todo2[q] == todo[q]);
        } else {
            lemma_in_spans_prefix(r2, r, j);
        }
    }
    assert forall|j: int| r[n] <= j <= r[n + 1] implies !#[trigger] in_spans(r2, j) by {
        if in_spans(r2, j) {
            let p = lemma_span_of(r2, j);
            let last = n / 2;
            assert(2 * last == n);
            assert(span_lo(r2, p) == span_lo(r, p) && span_hi(r2, p) == span_hi(r, p));
            assert(span_lo(r, last) == r[n] && span_hi(r, last) == r[n + 1]);
        }
    }
}

/// Widening the span being worked on by a cell that is open land.
proof fn lemma_apart_widen(
    ids0: Seq<u32>,
    ids: Seq<u32>,
    land: Seq<bool>,
    id: u32,
    origin: int,
    todo: Seq<Vec<u32>>,
    done: Seq<Vec<u32>>,
    bw: int,
    bh: int,
    ww: int,
    wh: int,
    pl: int,
    ps: int,
    pe: int,
    ps2: int,
    pe2: int,
)
    requires
        fill_apart(todo, done, bh, pl, ps, pe),
        fill_cover(ids0, ids, land, id, origin, todo, done, bw, bh, ww, wh, pl, ps, pe),
        0 <= pl < bh,
        0 <= ps2 <= ps <= pe <= pe2 < bw,
        (ps2 == ps - 1 && pe2 == pe) || (ps2 == ps && pe2 == pe + 1),
        open_land(ids, land, id, if ps2 < ps { pl * bw + ps2 } else { pl * bw + pe2 }),
    ensures
        fill_apart(todo, done, bh, pl, ps2, pe2),
{
    reveal(fill_apart);
    reveal(fill_cover);
    let j = if ps2 < ps {
        ps2
    } else {
        pe2
    };
    if in_spans(todo[pl]@, j) {
        assert(ids[pl * bw + j] == id);
    }
}

/// A cell of row `row` that does not carry `id` lies in no pending or
/// finished span of its row, nor in the span being worked on.
#[verifier::spinoff_prover]
proof fn lemma_apart_fresh_cell(
    ids0: Seq<u32>,
    ids: Seq<u32>,
    land: Seq<bool>,
    id: u32,
    origin: int,
    todo: Seq<Vec<u32>>,
    done: Seq<Vec<u32>>,
    bw: int,
    bh: int,
    ww: int,
    wh: int,
    pl: int,
    ps: int,
    pe: int,
    row: int,
    j: int,
)
    requires
        fill_cover(ids0, ids, land, id, origin, todo, done, bw, bh, ww, wh, pl, ps, pe),
        0 <= row < bh,
        0 <= j < bw,
        ids[row * bw + j] != id,
    ensures
        !in_spans(todo[row]@, j),
        !in_spans(done[row]@, j),
        !(row == pl && ps <= j <= pe),
{
    reveal(fill_cover);
    if in_spans(done[row]@, j) {
        let q = choose|q: int|
            #![trigger done[row]@[q]]
            0 <= q && q + 1 < done[row]@.len() && q % 2 == 0 && done[row]@[q] <= j <= done[row]@[q
                + 1];
        assert(span_closed(
            ids,
            land,
            id,
            bw,
            bh,
            ww,
            wh,
            row,
            done[row]@[q] as int,
            done[row]@[q + 1] as int,
        ));
        assert(ids[row * bw + j] == id);
    }
    if row == pl && ps <= j <= pe {
        assert(ids[pl * bw + j] == id);
    }
}

/// What the new pending spans of row `row` (the entries of `todo2[row]` past
/// those of `todo[row]`) bring along: they are in order from left to right
/// and their cells did not carry `id`.
spec fn fresh_suffix(
    ids: Seq<u32>,
    id: u32,
    todo: Seq<Vec<u32>>,
    todo2: Seq<Vec<u32>>,
    bw: int,
    bh: int,
    row: int,
) -> bool {
    &&& 0 <= row < bh
    &&& 0 < bw <= u32::MAX
    &&& todo.len() == bh
    &&& todo2.len() == bh
    &&& forall|l: int| 0 <= l < bh && l != row ==> #[trigger] todo2[l] == todo[l]
    &&& spans_wf(todo[row]@, bw as u32)
    &&& spans_wf(todo2[row]@, bw as u32)
    &&& todo[row]@.len() <= todo2[row]@.len()
    &&& todo2[row]@.subrange(0, todo[row]@.len() as int) == todo[row]@
    &&& queued_fresh(ids, id, todo[row]@, todo2[row]@, row * bw, bw)
}

/// A cell in a span of the extended row lies in an old span of the row or
/// did not carry `id`.
proof fn lemma_suffix_cell(
    ids: Seq<u32>,
    id: u32,
    todo: Seq<Vec<u32>>,
    todo2: Seq<Vec<u32>>,
    bw: int,
    bh: int,
    row: int,
    j: int,
)
    requires
        fresh_suffix(ids, id, todo, todo2, bw, bh, row),
        in_spans(todo2[row]@, j),
    ensures
        0 <= j < bw,
        in_spans(todo[row]@, j) || ids[row * bw + j] != id,
{
    let r = todo[row]@;
    let r2 = todo2[row]@;
    let n = r.len() as int;
    let p = lemma_span_of(r2, j);
    assert(r2[2 * p + 1] < bw);
    if 2 * p < n {
        assert(r2.subrange(0, n)[2 * p] == r2[2 * p]);
        assert(r2.subrange(0, n)[2 * p + 1] == r2[2 * p + 1]);
        lemma_in_span_at(r, p, j);
    } else {
        assert(ids[row * bw + j] != id);
    }
}

#[verifier::spinoff_prover]
proof fn lemma_suffix_pairs(
    ids0: Seq<u32>,
    ids: Seq<u32>,
    land: Seq<bool>,
    id: u32,
    origin: int,
    todo: Seq<Vec<u32>>,
    todo2: Seq<Vec<u32>>,
    done: Seq<Vec<u32>>,
    bw: int,
    bh: int,
    ww: int,
    wh: int,
    pl: int,
    ps: int,
    pe: int,
    row: int,
)
    requires
        fill_apart(todo, done, bh, pl, ps, pe),
        fill_cover(ids0, ids, land, id, origin, todo, done, bw, bh, ww, wh, pl, ps, pe),
        fresh_suffix(ids, id, todo, todo2, bw, bh, row),
    ensures
        forall|q: int, a: int, b: int|
            #![trigger span_lo(todo2[q]@, a), span_lo(todo2[q]@, b)]
            0 <= q < bh && 0 <= a < b && 2 * b + 1 < todo2[q]@.len() ==> span_hi(todo2[q]@, a)
                < span_lo(todo2[q]@, b) || span_hi(todo2[q]@, b) < span_lo(todo2[q]@, a),
{
    let r = todo[row]@;
    let r2 = todo2[row]@;
    let n = r.len() as int;
    assert forall|i: int| 0 <= i < n implies r2[i] == r[i] by {
        assert(r2.subrange(0, n)[i] == r2[i]);
    }
    assert forall|q: int, a: int, b: int|
        #![trigger span_lo(todo2[q]@, a), span_lo(todo2[q]@, b)]
        0 <= q < bh && 0 <= a < b && 2 * b + 1 < todo2[q]@.len() implies span_hi(todo2[q]@, a)
        < span_lo(todo2[q]@, b) || span_hi(todo2[q]@, b) < span_lo(todo2[q]@, a) by {
        if q != row {
            assert(todo2[q] == todo[q]);
            reveal(fill_apart);
        } else if 2 * b < n {
            assert(span_lo(r2, a) == span_lo(r, a) && span_hi(r2, a) == span_hi(r, a));
            assert(span_lo(r2, b) == span_lo(r, b) && span_hi(r2, b) == span_hi(r, b));
            reveal(fill_apart);
        } else if 2 * a < n {
            assert(span_lo(r2, a) == span_lo(r, a) && span_hi(r2, a) == span_hi(r, a));
            if !(span_hi(r2, a) < span_lo(r2, b) || span_hi(r2, b) < span_lo(r2, a)) {
                let j = if span_lo(r2, a) < span_lo(r2, b) {
                    span_lo(r2, b)
                } else {
                    span_lo(r2, a)
                };
                lemma_in_span_at(r, a, j);
                assert(span_lo(r2, b) <= j <= span_hi(r2, b));
                assert(ids[row * bw + j] != id);
                assert(r2[2 * b + 1] < bw);
                lemma_apart_fresh_cell(
                    ids0, ids, land, id, origin, todo, done, bw, bh, ww, wh, pl, ps, pe, row, j);
            }
        }
    }
}

/// Queueing on row `row` new pending spans whose cells did not carry `id`,
/// in order from left to right, keeps the spans apart.
#[verifier::spinoff_prover]
proof fn lemma_apart_extend(
    ids0: Seq<u32>,
    ids: Seq<u32>,
    land: Seq<bool>,
    id: u32,
    origin: int,
    todo: Seq<Vec<u32>>,
    todo2: Seq<Vec<u32>>,
    done: Seq<Vec<u32>>,
    bw: int,
    bh: int,
    ww: int,
    wh: int,
    pl: int,
    ps: int,
    pe: int,
    row: int,
)
    requires
        fill_apart(todo, done, bh, pl, ps, pe),
        fill_cover(ids0, ids, land, id, origin, todo, done, bw, bh, ww, wh, pl, ps, pe),
        fresh_suffix(ids, id, todo, todo2, bw, bh, row),
        ps <= pe ==> 0 <= pl < bh,
    ensures
        fill_apart(todo2, done, bh, pl, ps, pe),
{
    lemma_suffix_pairs(ids0, ids, land, id, origin, todo, todo2, done, bw, bh, ww, wh, pl, ps, pe, row);
    assert forall|q: int, j: int|
        0 <= q < bh && #[trigger] in_spans(todo2[q]@, j) implies !in_spans(done[q]@, j) by {
        if q != row {
            assert(todo2[q] == todo[q]);
            reveal(fill_apart);
        } else {
            lemma_suffix_cell(ids, id, todo, todo2, bw, bh, row, j);
            if in_spans(todo[row]@, j) {
                reveal(fill_apart);
            } else {
                lemma_apart_fresh_cell(
                    ids0, ids, land, id, origin, todo, done, bw, bh, ww, wh, pl, ps, pe, row, j);
            }
        }
    }
    assert forall|j: int| ps <= j <= pe implies !#[trigger] in_spans(todo2[pl]@, j) by {
        if pl != row {
            assert(todo2[pl] == todo[pl]);
            reveal(fill_apart);
        } else if in_spans(todo2[row]@, j) {
            lemma_suffix_cell(ids, id, todo, todo2, bw, bh, row, j);
            if in_spans(todo[row]@, j) {
                reveal(fill_apart);
            } else {
                lemma_apart_fresh_cell(
                    ids0, ids, land, id, origin, todo, done, bw, bh, ww, wh, pl, ps, pe, row, j);
            }
        }
    }
    reveal(fill_apart);
}

/// Queueing on row `pl` the single open cell at column `j` keeps the spans
/// apart.
#[verifier::rlimit(50)]
#[verifier::spinoff_prover]
proof fn lemma_apart_wrap(
    ids0: Seq<u32>,
    ids: Seq<u32>,
    land: Seq<bool>,
    id: u32,
    origin: int,
    todo: Seq<Vec<u32>>,
    todo2: Seq<Vec<u32>>,
    done: Seq<Vec<u32>>,
    bw: int,
    bh: int,
    ww: int,
    wh: int,
    pl: int,
    ps: int,
    pe: int,
    j: u32,
)
    requires
        fill_apart(todo, done, bh, pl, ps, pe),
        fill_cover(ids0, ids, land, id, origin, todo, done, bw, bh, ww, wh, pl, ps, pe),
        0 <= pl < bh,
        0 < bw <= u32::MAX,
        j < bw,
        todo.len() == bh,
        todo2.len() == bh,
        spans_wf(todo[pl]@, bw as u32),
        open_land(ids, land, id, pl * bw + j),
        forall|l: int| 0 <= l < bh && l != pl ==> #[trigger] todo2[l] == todo[l],
        todo2[pl]@ == todo[pl]@.push(j).push(j),
    ensures
        fill_apart(todo2, done, bh, pl, ps, pe),
        fresh_suffix(ids, id, todo, todo2, bw, bh, pl),
{
    let r = todo[pl]@;
    let r2 = todo2[pl]@;
    let m = (r.len() / 2) as int;
    assert(2 * m == r.len());
    assert(r2.subrange(0, r.len() as int) =~= r);
    assert forall|i: int| 0 <= i < r2.len() implies #[trigger] r2[i] < bw as u32 by {
        if i < r.len() {
            assert(r2[i] == r[i]);
        }
    }
    assert forall|i: int| 0 <= i < r2.len() && i % 2 == 0 implies #[trigger] r2[i] <= r2[i + 1] by {
        if i < r.len() {
            assert(r2[i] == r[i]);
            assert(r2[i + 1] == r[i + 1]);
        }
    }
    assert(spans_wf(r2, bw as u32));
    assert forall|p: int|
        #![trigger span_hi(r2, p)]
        r.len() <= 2 * p && 2 * p + 1 < r2.len() implies span_hi(r2, p) < bw && forall|c: int|
        pl * bw + span_lo(r2, p) <= c <= pl * bw + span_hi(r2, p) ==> #[trigger] ids[c] != id by {
        assert(p == m);
        assert(span_lo(r2, p) == j && span_hi(r2, p) == j);
    }
    assert(queued_fresh(ids, id, r, r2, pl * bw, bw));
    assert(fresh_suffix(ids, id, todo, todo2, bw, bh, pl));
    lemma_apart_extend(ids0, ids, land, id, origin, todo, todo2, done, bw, bh, ww, wh, pl, ps, pe, pl);
}

/// Finishing the span being worked on.
#[verifier::spinoff_prover]
proof fn lemma_apart_done(
    todo: Seq<Vec<u32>>,
    done: Seq<Vec<u32>>,
    done2: Seq<Vec<u32>>,
    bh: int,
    pl: int,
    ps: u32,
    pe: u32,
)
    requires
        fill_apart(todo, done, bh, pl, ps as int, pe as int),
        0 <= pl < bh,
        done[pl]@.len() % 2 == 0,
        done.len() == bh,
        done2.len() == bh,
        forall|k: int| 0 <= k < bh && k != pl ==> #[trigger] done2[k] == done[k],
        done2[pl]@ == done[pl]@.push(ps).push(pe),
    ensures
        fill_apart(todo, done2, bh, 0, 0, -1),
{
    reveal(fill_apart);
    let d = done[pl]@;
    let d2 = done2[pl]@;
    assert forall|q: int, j: int|
        0 <= q < bh && #[trigger] in_spans(todo[q]@, j) implies !in_spans(done2[q]@, j) by {
        if q != pl {
            assert(done2[q] == done[q]);
        } else if in_spans(d2, j) {
            let i = choose|i: int|
                #![trigger d2[i]]
                0 <= i && i + 1 < d2.len() && i % 2 == 0 && d2[i] <= j <= d2[i + 1];
            if i < d.len() {
                assert(d[i] == d2[i] && d[i + 1] == d2[i + 1]);
                assert(in_spans(d, j));
            } else {
                assert(i == d.len());
                assert(ps <= j <= pe);
            }
        }
    }
}

/// The cell `c` did not carry `id` before the fill, or is its origin.
pub open spec fn fresh_cell(ids0: Seq<u32>, id: u32, origin: int, c: int) -> bool {
    ids0[c] != id || c == origin
}

/// Every cell of a pending span and of the span `ps..=pe` of row `pl`
/// being worked on is fresh: the fill of segment `id` took it.
#[verifier::opaque]
spec fn fill_fresh(
    ids0: Seq<u32>,
    id: u32,
    origin: int,
    todo: Seq<Vec<u32>>,
    bw: int,
    bh: int,
    pl: int,
    ps: int,
    pe: int,
) -> bool {
    &&& forall|l: int, j: int|
        0 <= l < bh && 0 <= j < bw && #[trigger] in_spans(todo[l]@, j) ==> fresh_cell(
            ids0,
            id,
            origin,
            l * bw + j,
        )
    &&& forall|c: int| pl * bw + ps <= c <= pl * bw + pe ==> #[trigger] fresh_cell(ids0, id, origin, c)
}

proof fn lemma_fresh_init(
    ids0: Seq<u32>,
    id: u32,
    origin: int,
    todo: Seq<Vec<u32>>,
    bw: int,
    bh: int,
    x: u32,
    y: int,
)
    requires
        0 <= y < bh,
        origin == y * bw + x,
        todo.len() == bh,
        todo[y]@ == seq![x, x],
        forall|l: int| 0 <= l < bh && l != y ==> (#[trigger] todo[l])@.len() == 0,
    ensures
        fill_fresh(ids0, id, origin, todo, bw, bh, 0, 0, -1),
{
    reveal(fill_fresh);
    assert forall|l: int, j: int|
        0 <= l < bh && 0 <= j < bw && #[trigger] in_spans(todo[l]@, j) implies fresh_cell(
        ids0,
        id,
        origin,
        l * bw + j,
    ) by {
        if l != y {
            assert(todo[l]@.len() == 0);
        } else {
            let i = choose|i: int|
                #![trigger todo[l]@[i]]
                0 <= i && i + 1 < todo[l]@.len() && i % 2 == 0 && todo[l]@[i] <= j <= todo[l]@[i
                    + 1];
            assert(j == x);
        }
    }
}

/// Taking the last pending span of row `l` out to work on it.
#[verifier::spinoff_prover]
proof fn lemma_fresh_pop(
    ids0: Seq<u32>,
    id: u32,
    origin: int,
    todo: Seq<Vec<u32>>,
    todo2: Seq<Vec<u32>>,
    bw: int,
    bh: int,
    l: int,
)
    requires
        fill_fresh(ids0, id, origin, todo, bw, bh, 0, 0, -1),
        0 <= l < bh,
        bw > 0,
        todo.len() == bh,
        todo2.len() == bh,
        spans_wf(todo[l]@, bw as u32),
        todo[l]@.len() >= 2,
        forall|k: int| 0 <= k < bh && k != l ==> #[trigger] todo2[k] == todo[k],
        todo2[l]@ == todo[l]@.subrange(0, todo[l]@.len() - 2),
    ensures
        fill_fresh(
            ids0,
            id,
            origin,
            todo2,
            bw,
            bh,
            l,
            todo[l]@[todo[l]@.len() - 2] as int,
            todo[l]@[todo[l]@.len() - 1] as int,
        ),
{
    reveal(fill_fresh);
    let r = todo[l]@;
    let n = r.len() - 2;
    assert forall|q: int, j: int|
        0 <= q < bh && 0 <= j < bw && #[trigger] in_spans(todo2[q]@, j) implies fresh_cell(
        ids0,
        id,
        origin,
        q * bw + j,
    ) by {
        if q != l {
            assert(todo2[q] == todo[q]);
        } else {
            lemma_in_spans_prefix(todo2[l]@, r, j);
        }
    }
    assert forall|c: int| l * bw + r[n] <= c <= l * bw + r[n + 1] implies #[trigger] fresh_cell(
        ids0,
        id,
        origin,
        c,
    ) by {
        let j = c - l * bw;
        assert(r[n] <= j <= r[n + 1]);
        assert(in_spans(r, j));
        assert(r[n + 1] < bw);
        assert(c == l * bw + j);
    }
}

/// Widening the span being worked on by an open land cell keeps it fresh.
proof fn lemma_fresh_widen(
    ids0: Seq<u32>,
    ids: Seq<u32>,
    land: Seq<bool>,
    id: u32,
    origin: int,
    todo: Seq<Vec<u32>>,
    bw: int,
    bh: int,
    pl: int,
    ps: int,
    pe: int,
    ps2: int,
    pe2: int,
)
    requires
        fill_fresh(ids0, id, origin, todo, bw, bh, pl, ps, pe),
        only_claimed(ids0, ids, land, id, origin),
        (ps2 == ps - 1 && pe2 == pe) || (ps2 == ps && pe2 == pe + 1),
        0 <= (if ps2 < ps { pl * bw + ps2 } else { pl * bw + pe2 }) < ids.len(),
        open_land(ids, land, id, if ps2 < ps { pl * bw + ps2 } else { pl * bw + pe2 }),
    ensures
        fill_fresh(ids0, id, origin, todo, bw, bh, pl, ps2, pe2),
{
    reveal(fill_fresh);
    let k = if ps2 < ps {
        pl * bw + ps2
    } else {
        pl * bw + pe2
    };
    if ids[k] != ids0[k] {
        assert(ids[k] == id);
    }
    assert(fresh_cell(ids0, id, origin, k));
}

/// Queueing new pending spans whose cells did not carry `id` keeps the
/// pending spans fresh.
#[verifier::spinoff_prover]
proof fn lemma_fresh_extend(
    ids0: Seq<u32>,
    ids: Seq<u32>,
    land: Seq<bool>,
    id: u32,
    origin: int,
    todo: Seq<Vec<u32>>,
    todo2: Seq<Vec<u32>>,
    bw: int,
    bh: int,
    pl: int,
    ps: int,
    pe: int,
    row: int,
)
    requires
        fill_fresh(ids0, id, origin, todo, bw, bh, pl, ps, pe),
        only_claimed(ids0, ids, land, id, origin),
        ids.len() == bw * bh,
        fresh_suffix(ids, id, todo, todo2, bw, bh, row),
    ensures
        fill_fresh(ids0, id, origin, todo2, bw, bh, pl, ps, pe),
{
    reveal(fill_fresh);
    assert forall|q: int, j: int|
        0 <= q < bh && 0 <= j < bw && #[trigger] in_spans(todo2[q]@, j) implies fresh_cell(
        ids0,
        id,
        origin,
        q * bw + j,
    ) by {
        if q != row {
            assert(todo2[q] == todo[q]);
        } else {
            lemma_suffix_cell(ids, id, todo, todo2, bw, bh, row, j);
            if !in_spans(todo[row]@, j) {
                let c = row * bw + j;
                lemma_cell_in_plate(row, j, bw, bh);
                if ids[c] != ids0[c] {
                    assert(ids[c] == id);
                }
            }
        }
    }
}

/// The rectangle `left..=right` x `top..=bottom` holds every finished span
/// of the fill of segment `id`, and each of its sides passes through a cell
/// that the fill took.
#[verifier::opaque]
spec fn fill_box(
    ids0: Seq<u32>,
    ids: Seq<u32>,
    id: u32,
    origin: int,
    done: Seq<Vec<u32>>,
    bw: int,
    bh: int,
    left: int,
    right: int,
    top: int,
    bottom: int,
) -> bool {
    &&& box_holds_done(done, bh, left, right, top, bottom)
    &&& side_cell(ids0, ids, id, origin, bw, left, 0)
    &&& side_cell(ids0, ids, id, origin, bw, right, 0)
    &&& side_cell(ids0, ids, id, origin, bw, top, 1)
    &&& side_cell(ids0, ids, id, origin, bw, bottom, 1)
}

/// Row `l` and column `v` lie in the rectangle `left..=right` x
/// `top..=bottom`.
pub open spec fn in_box(l: int, v: int, left: int, right: int, top: int, bottom: int) -> bool {
    top <= l <= bottom && left <= v <= right
}

/// Every finished span lies in the rectangle `left..=right` x `top..=bottom`.
pub open spec fn box_holds_done(
    done: Seq<Vec<u32>>,
    bh: int,
    left: int,
    right: int,
    top: int,
    bottom: int,
) -> bool {
    forall|l: int, i: int|
        0 <= l < bh && 0 <= i < done[l]@.len() ==> in_box(
            l,
            #[trigger] done[l]@[i] as int,
            left,
            right,
            top,
            bottom,
        )
}

/// Some cell that the fill of segment `id` took lies in column `v`
/// (`axis == 0`) or in row `v` (`axis == 1`) of a `bw`-wide plate.
pub open spec fn side_cell(
    ids0: Seq<u32>,
    ids: Seq<u32>,
    id: u32,
    origin: int,
    bw: int,
    v: int,
    axis: int,
) -> bool {
    exists|c: int|
        0 <= c < ids.len() && #[trigger] claimed_cell(ids0, ids, id, origin, c) && (if axis == 0 {
            c % bw
        } else {
            c / bw
        }) == v
}

/// The rectangle `left..=right` x `top..=bottom` is the bounding box of the
/// cells that the fill of segment `id` took in a `bw`-wide plate: it holds
/// every one of them, and each of its sides passes through one of them.
pub open spec fn bounds_taken(
    ids0: Seq<u32>,
    ids: Seq<u32>,
    id: u32,
    origin: int,
    bw: int,
    left: int,
    right: int,
    top: int,
    bottom: int,
) -> bool {
    &&& forall|c: int|
        0 <= c < ids.len() && #[trigger] claimed_cell(ids0, ids, id, origin, c) ==> left <= c % bw
            <= right && top <= c / bw <= bottom
    &&& side_cell(ids0, ids, id, origin, bw, left, 0)
    &&& side_cell(ids0, ids, id, origin, bw, right, 0)
    &&& side_cell(ids0, ids, id, origin, bw, top, 1)
    &&& side_cell(ids0, ids, id, origin, bw, bottom, 1)
}

/// A cell the fill took stays taken through further claims.
proof fn lemma_side_persists(
    ids0: Seq<u32>,
    ids: Seq<u32>,
    ids2: Seq<u32>,
    land: Seq<bool>,
    id: u32,
    origin: int,
    bw: int,
    v: int,
    axis: int,
)
    requires
        side_cell(ids0, ids, id, origin, bw, v, axis),
        only_claimed(ids, ids2, land, id, -1),
    ensures
        side_cell(ids0, ids2, id, origin, bw, v, axis),
{
    let c = choose|c: int|
        0 <= c < ids.len() && #[trigger] claimed_cell(ids0, ids, id, origin, c) && (if axis == 0 {
            c % bw
        } else {
            c / bw
        }) == v;
    assert(ids2[c] == ids[c]);
    assert(claimed_cell(ids0, ids2, id, origin, c));
}

proof fn lemma_box_persists(
    ids0: Seq<u32>,
    ids: Seq<u32>,
    ids2: Seq<u32>,
    land: Seq<bool>,
    id: u32,
    origin: int,
    done: Seq<Vec<u32>>,
    bw: int,
    bh: int,
    left: int,
    right: int,
    top: int,
    bottom: int,
)
    requires
        fill_box(ids0, ids, id, origin, done, bw, bh, left, right, top, bottom),
        only_claimed(ids, ids2, land, id, -1),
    ensures
        fill_box(ids0, ids2, id, origin, done, bw, bh, left, right, top, bottom),
{
    reveal(fill_box);
    lemma_side_persists(ids0, ids, ids2, land, id, origin, bw, left, 0);
    lemma_side_persists(ids0, ids, ids2, land, id, origin, bw, right, 0);
    lemma_side_persists(ids0, ids, ids2, land, id, origin, bw, top, 1);
    lemma_side_persists(ids0, ids, ids2, land, id, origin, bw, bottom, 1);
}

proof fn lemma_box_init(
    ids0: Seq<u32>,
    ids: Seq<u32>,
    id: u32,
    origin: int,
    done: Seq<Vec<u32>>,
    bw: int,
    bh: int,
    x: int,
    y: int,
)
    requires
        0 <= x < bw,
        0 <= y < bh,
        origin == y * bw + x,
        0 <= origin < ids.len(),
        ids[origin] == id,
        done.len() == bh,
        forall|l: int| 0 <= l < bh ==> (#[trigger] done[l])@.len() == 0,
    ensures
        fill_box(ids0, ids, id, origin, done, bw, bh, x, x, y, y),
{
    reveal(fill_box);
    lemma_cell_join(y, x, bw);
    assert(claimed_cell(ids0, ids, id, origin, origin));
    assert forall|l: int, i: int|
        0 <= l < bh && 0 <= i < done[l]@.len() implies in_box(
        l,
        #[trigger] done[l]@[i] as int,
        x,
        x,
        y,
        y,
    ) by {
        assert(done[l]@.len() == 0);
    }
}

proof fn lemma_holds_grow(
    done: Seq<Vec<u32>>,
    bh: int,
    left: int,
    right: int,
    top: int,
    bottom: int,
    left2: int,
    right2: int,
    top2: int,
    bottom2: int,
)
    requires
        box_holds_done(done, bh, left, right, top, bottom),
        left2 <= left,
        right <= right2,
        top2 <= top,
        bottom <= bottom2,
    ensures
        box_holds_done(done, bh, left2, right2, top2, bottom2),
{
    assert forall|l: int, i: int|
        0 <= l < bh && 0 <= i < done[l]@.len() implies in_box(
        l,
        #[trigger] done[l]@[i] as int,
        left2,
        right2,
        top2,
        bottom2,
    ) by {
        assert(in_box(l, done[l]@[i] as int, left, right, top, bottom));
    }
}

proof fn lemma_holds_push(
    done: Seq<Vec<u32>>,
    done2: Seq<Vec<u32>>,
    bh: int,
    left: int,
    right: int,
    top: int,
    bottom: int,
    line: int,
    start: u32,
    end: u32,
)
    requires
        box_holds_done(done, bh, left, right, top, bottom),
        0 <= line < bh,
        top <= line <= bottom,
        left <= start <= end <= right,
        done.len() == bh,
        done2.len() == bh,
        done[line]@.len() % 2 == 0,
        forall|k: int| 0 <= k < bh && k != line ==> #[trigger] done2[k] == done[k],
        done2[line]@ == done[line]@.push(start).push(end),
    ensures
        box_holds_done(done2, bh, left, right, top, bottom),
{
    let d = done[line]@;
    let d2 = done2[line]@;
    assert forall|l: int, i: int|
        0 <= l < bh && 0 <= i < done2[l]@.len() implies in_box(
        l,
        #[trigger] done2[l]@[i] as int,
        left,
        right,
        top,
        bottom,
    ) by {
        if l != line {
            assert(done2[l] == done[l]);
            assert(in_box(l, done[l]@[i] as int, left, right, top, bottom));
        } else if i < d.len() {
            assert(d2[i] == d[i]);
            assert(in_box(l, done[l]@[i] as int, left, right, top, bottom));
        } else {
            assert(d2[i] == start || d2[i] == end);
        }
    }
}

/// Finishing the span `start..=end` of `line`, whose end cells the fill
/// took, with the rectangle grown to hold it.
#[verifier::spinoff_prover]
proof fn lemma_box_done(
    ids0: Seq<u32>,
    ids: Seq<u32>,
    id: u32,
    origin: int,
    done: Seq<Vec<u32>>,
    done2: Seq<Vec<u32>>,
    bw: int,
    bh: int,
    left: int,
    right: int,
    top: int,
    bottom: int,
    line: int,
    start: u32,
    end: u32,
)
    requires
        fill_box(ids0, ids, id, origin, done, bw, bh, left, right, top, bottom),
        0 <= line < bh,
        start <= end < bw,
        ids.len() == bw * bh,
        done.len() == bh,
        done2.len() == bh,
        done[line]@.len() % 2 == 0,
        forall|k: int| 0 <= k < bh && k != line ==> #[trigger] done2[k] == done[k],
        done2[line]@ == done[line]@.push(start).push(end),
        claimed_cell(ids0, ids, id, origin, line * bw + start),
        claimed_cell(ids0, ids, id, origin, line * bw + end),
    ensures
        fill_box(
            ids0,
            ids,
            id,
            origin,
            done2,
            bw,
            bh,
            if start < left { start as int } else { left },
            if end > right { end as int } else { right },
            if line < top { line } else { top },
            if line > bottom { line } else { bottom },
        ),
{
    reveal(fill_box);
    let l2 = if start < left {
        start as int
    } else {
        left
    };
    let r2 = if end > right {
        end as int
    } else {
        right
    };
    let t2 = if line < top {
        line
    } else {
        top
    };
    let b2 = if line > bottom {
        line
    } else {
        bottom
    };
    let cs = line * bw + start;
    let ce = line * bw + end;
    lemma_cell_join(line, start as int, bw);
    lemma_cell_join(line, end as int, bw);
    lemma_cell_in_plate(line, start as int, bw, bh);
    lemma_cell_in_plate(line, end as int, bw, bh);
    if start < left {
        assert(side_cell(ids0, ids, id, origin, bw, l2, 0)) by {
            assert(claimed_cell(ids0, ids, id, origin, cs));
        }
    }
    if end > right {
        assert(side_cell(ids0, ids, id, origin, bw, r2, 0)) by {
            assert(claimed_cell(ids0, ids, id, origin, ce));
        }
    }
    if line < top {
        assert(side_cell(ids0, ids, id, origin, bw, t2, 1)) by {
            assert(claimed_cell(ids0, ids, id, origin, cs));
        }
    }
    if line > bottom {
        assert(side_cell(ids0, ids, id, origin, bw, b2, 1)) by {
            assert(claimed_cell(ids0, ids, id, origin, cs));
        }
    }
    lemma_holds_grow(done, bh, left, right, top, bottom, l2, r2, t2, b2);
    lemma_holds_push(done, done2, bh, l2, r2, t2, b2, line, start, end);
    assert(box_holds_done(done2, bh, l2, r2, t2, b2));
    assert(side_cell(ids0, ids, id, origin, bw, l2, 0));
    assert(side_cell(ids0, ids, id, origin, bw, r2, 0));
    assert(side_cell(ids0, ids, id, origin, bw, t2, 1));
    assert(side_cell(ids0, ids, id, origin, bw, b2, 1));
}

/// The rectangle of `data` bounds the finished spans, as `fill_box` says.
spec fn data_box(
    ids0: Seq<u32>,
    ids: Seq<u32>,
    id: u32,
    origin: int,
    done: Seq<Vec<u32>>,
    bw: int,
    bh: int,
    data: SegmentData,
) -> bool {
    fill_box(
        ids0,
        ids,
        id,
        origin,
        done,
        bw,
        bh,
        data.spec_rectangle().spec_left() as int,
        data.spec_rectangle().spec_right() as int,
        data.spec_rectangle().spec_top() as int,
        data.spec_rectangle().spec_bottom() as int,
    )
}

/// A cell of the span being worked on was taken by the fill.
proof fn lemma_current_claimed(
    ids0: Seq<u32>,
    ids: Seq<u32>,
    land: Seq<bool>,
    id: u32,
    origin: int,
    todo: Seq<Vec<u32>>,
    done: Seq<Vec<u32>>,
    bw: int,
    bh: int,
    ww: int,
    wh: int,
    pl: int,
    ps: int,
    pe: int,
    c: int,
)
    requires
        fill_cover(ids0, ids, land, id, origin, todo, done, bw, bh, ww, wh, pl, ps, pe),
        fill_fresh(ids0, id, origin, todo, bw, bh, pl, ps, pe),
        pl * bw + ps <= c <= pl * bw + pe,
    ensures
        claimed_cell(ids0, ids, id, origin, c),
{
    reveal(fill_cover);
    reveal(fill_fresh);
    assert(ids[c] == id);
    assert(fresh_cell(ids0, id, origin, c));
}

/// Finishing the span being worked on keeps the pending spans fresh.
proof fn lemma_fresh_done(
    ids0: Seq<u32>,
    id: u32,
    origin: int,
    todo: Seq<Vec<u32>>,
    bw: int,
    bh: int,
    pl: int,
    ps: int,
    pe: int,
)
    requires
        fill_fresh(ids0, id, origin, todo, bw, bh, pl, ps, pe),
    ensures
        fill_fresh(ids0, id, origin, todo, bw, bh, 0, 0, -1),
{
    reveal(fill_fresh);
}

/// When no span is pending any more, the rectangle is the bounding box of
/// the cells the fill took.
#[verifier::spinoff_prover]
proof fn lemma_box_final(
    ids0: Seq<u32>,
    ids: Seq<u32>,
    land: Seq<bool>,
    id: u32,
    origin: int,
    todo: Seq<Vec<u32>>,
    done: Seq<Vec<u32>>,
    bw: int,
    bh: int,
    ww: int,
    wh: int,
    left: int,
    right: int,
    top: int,
    bottom: int,
)
    requires
        fill_box(ids0, ids, id, origin, done, bw, bh, left, right, top, bottom),
        fill_cover(ids0, ids, land, id, origin, todo, done, bw, bh, ww, wh, 0, 0, -1),
        ids.len() == bw * bh,
        bw > 0,
        todo.len() == bh,
        forall|l: int| 0 <= l < bh ==> (#[trigger] todo[l])@.len() == 0,
    ensures
        bounds_taken(ids0, ids, id, origin, bw, left, right, top, bottom),
{
    reveal(fill_box);
    reveal(fill_cover);
    assert forall|c: int|
        0 <= c < ids.len() && #[trigger] claimed_cell(ids0, ids, id, origin, c) implies left <= c
        % bw <= right && top <= c / bw <= bottom by {
        lemma_cell_split(c, bw, bh);
        let l = c / bw;
        let j = c % bw;
        assert(todo[l]@.len() == 0);
        assert(in_spans(done[l]@, j));
        let i = choose|i: int|
            #![trigger done[l]@[i]]
            0 <= i && i + 1 < done[l]@.len() && i % 2 == 0 && done[l]@[i] <= j <= done[l]@[i + 1];
        assert(in_box(l, done[l]@[i] as int, left, right, top, bottom));
        assert(in_box(l, done[l]@[i + 1] as int, left, right, top, bottom));
    }
}

/// `n` is a cell the span fill steps to from cell `c` of a `bw` x `bh`
/// plate: the next cell along its row or column, and around a side of the
/// plate that spans the whole world (`ww` x `wh`).
pub open spec fn fill_neighbor(bw: int, bh: int, ww: int, wh: int, c: int, n: int) -> bool {
    let l = c / bw;
    let j = c % bw;
    ||| (j > 0 && n == c - 1)
    ||| (j == 0 && bw == ww && n == c + bw - 1)
    ||| (j < bw - 1 && n == c + 1)
    ||| (j == bw - 1 && bw == ww && n == c - j)
    ||| (l > 0 && n == c - bw)
    ||| (l == 0 && bh == wh && n == (bh - 1) * bw + j)
    ||| (l < bh - 1 && n == c + bw)
    ||| (l == bh - 1 && bh == wh && n == j)
}

/// `path` is a walk of the span fill from the origin of segment `id`: it
/// starts at `origin`, each next cell is one the fill steps to from the
/// cell before, and every cell after the first was unassigned land before
/// the fill.
pub open spec fn fill_path(
    ids0: Seq<u32>,
    land: Seq<bool>,
    id: u32,
    origin: int,
    bw: int,
    bh: int,
    ww: int,
    wh: int,
    path: Seq<int>,
) -> bool {
    &&& path.len() > 0
    &&& path[0] == origin
    &&& forall|k: int| 0 <= k < path.len() ==> 0 <= #[trigger] path[k] < ids0.len()
    &&& forall|k: int| 0 < k < path.len() ==> ids0[#[trigger] path[k]] > id && land[path[k]]
    &&& forall|k: int|
        0 < k < path.len() ==> #[trigger] fill_neighbor(bw, bh, ww, wh, path[k - 1], path[k])
}

/// The cell `c` is reached from the origin of segment `id` by a walk of
/// the span fill through land that was unassigned.
pub open spec fn reached(
    ids0: Seq<u32>,
    land: Seq<bool>,
    id: u32,
    origin: int,
    bw: int,
    bh: int,
    ww: int,
    wh: int,
    c: int,
) -> bool {
    exists|path: Seq<int>|
        #[trigger] fill_path(ids0, land, id, origin, bw, bh, ww, wh, path) && path.last() == c
}

/// Every cell the fill of segment `id` took so far is reached from its
/// origin.
#[verifier::opaque]
spec fn fill_reach(
    ids0: Seq<u32>,
    ids: Seq<u32>,
    land: Seq<bool>,
    id: u32,
    origin: int,
    bw: int,
    bh: int,
    ww: int,
    wh: int,
) -> bool {
    forall|c: int|
        0 <= c < ids.len() && #[trigger] claimed_cell(ids0, ids, id, origin, c) ==> reached(
            ids0,
            land,
            id,
            origin,
            bw,
            bh,
            ww,
            wh,
            c,
        )
}

proof fn lemma_reach_init(
    ids0: Seq<u32>,
    land: Seq<bool>,
    id: u32,
    origin: int,
    bw: int,
    bh: int,
    ww: int,
    wh: int,
)
    requires
        0 <= origin < ids0.len(),
    ensures
        fill_reach(ids0, ids0.update(origin, id), land, id, origin, bw, bh, ww, wh),
{
    reveal(fill_reach);
    let ids = ids0.update(origin, id);
    let p = seq![origin];
    assert(fill_path(ids0, land, id, origin, bw, bh, ww, wh, p));
    assert forall|c: int|
        0 <= c < ids.len() && #[trigger] claimed_cell(ids0, ids, id, origin, c) implies reached(
        ids0,
        land,
        id,
        origin,
        bw,
        bh,
        ww,
        wh,
        c,
    ) by {
        if c != origin {
            assert(ids[c] == ids0[c]);
        }
        assert(p.last() == origin);
    }
}

/// A cell reached from the origin leads on to each unassigned land cell
/// the fill steps to from it.
proof fn lemma_reach_step(
    ids0: Seq<u32>,
    land: Seq<bool>,
    id: u32,
    origin: int,
    bw: int,
    bh: int,
    ww: int,
    wh: int,
    c: int,
    n: int,
)
    requires
        reached(ids0, land, id, origin, bw, bh, ww, wh, c),
        fill_neighbor(bw, bh, ww, wh, c, n),
        0 <= n < ids0.len(),
        ids0[n] > id,
        land[n],
    ensures
        reached(ids0, land, id, origin, bw, bh, ww, wh, n),
{
    let p = choose|path: Seq<int>|
        #[trigger] fill_path(ids0, land, id, origin, bw, bh, ww, wh, path) && path.last() == c;
    let p2 = p.push(n);
    assert forall|k: int| 0 < k < p2.len() implies #[trigger] fill_neighbor(
        bw,
        bh,
        ww,
        wh,
        p2[k - 1],
        p2[k],
    ) by {
        if k < p.len() {
            assert(p2[k - 1] == p[k - 1] && p2[k] == p[k]);
        }
    }
    assert forall|k: int| 0 < k < p2.len() implies ids0[#[trigger] p2[k]] > id && land[p2[k]] by {
        if k < p.len() {
            assert(p2[k] == p[k]);
        }
    }
    assert forall|k: int| 0 <= k < p2.len() implies 0 <= #[trigger] p2[k] < ids0.len() by {
        if k < p.len() {
            assert(p2[k] == p[k]);
        }
    }
    assert(fill_path(ids0, land, id, origin, bw, bh, ww, wh, p2));
    assert(p2.last() == n);
}

/// Claiming an open land cell `n` that the fill steps to from a cell `c`
/// it took keeps every taken cell reached.
proof fn lemma_reach_claim(
    ids0: Seq<u32>,
    ids: Seq<u32>,
    land: Seq<bool>,
    id: u32,
    origin: int,
    bw: int,
    bh: int,
    ww: int,
    wh: int,
    c: int,
    n: int,
)
    requires
        fill_reach(ids0, ids, land, id, origin, bw, bh, ww, wh),
        only_claimed(ids0, ids, land, id, origin),
        0 <= c < ids.len(),
        0 <= n < ids.len(),
        claimed_cell(ids0, ids, id, origin, c),
        fill_neighbor(bw, bh, ww, wh, c, n),
        open_land(ids, land, id, n),
    ensures
        fill_reach(ids0, ids.update(n, id), land, id, origin, bw, bh, ww, wh),
{
    reveal(fill_reach);
    let ids2 = ids.update(n, id);
    assert(reached(ids0, land, id, origin, bw, bh, ww, wh, c));
    if ids[n] != ids0[n] {
        assert(ids[n] == id);
    }
    lemma_reach_step(ids0, land, id, origin, bw, bh, ww, wh, c, n);
    assert forall|k: int|
        0 <= k < ids2.len() && #[trigger] claimed_cell(ids0, ids2, id, origin, k) implies reached(
        ids0,
        land,
        id,
        origin,
        bw,
        bh,
        ww,
        wh,
        k,
    ) by {
        if k != n {
            assert(claimed_cell(ids0, ids, id, origin, k));
        }
    }
}

/// The cell left of `k` changed between `ids` and `ids2`.
#[verifier::opaque]
pub open spec fn left_changed(ids: Seq<u32>, ids2: Seq<u32>, k: int) -> bool {
    ids2[k - 1] != ids[k - 1]
}

/// A cell the queue claimed in row `row` is reached from the origin: the
/// first cell of its run lies next to a taken cell of the span worked on,
/// and each later one next to the cell before it.
proof fn lemma_reach_run(
    ids0: Seq<u32>,
    ids_b: Seq<u32>,
    ids2: Seq<u32>,
    land: Seq<bool>,
    id: u32,
    origin: int,
    bw: int,
    bh: int,
    ww: int,
    wh: int,
    row: int,
    line: int,
    start: int,
    end: int,
    c: int,
)
    requires
        fill_reach(ids0, ids_b, land, id, origin, bw, bh, ww, wh),
        only_claimed(ids0, ids_b, land, id, origin),
        only_claimed(ids_b, ids2, land, id, -1),
        ids_b.len() == bw * bh,
        0 <= row < bh,
        0 <= line < bh,
        bw > 0,
        forall|k: int|
            0 <= k < ids_b.len() && #[trigger] ids2[k] != ids_b[k] ==> row * bw <= k < row * bw + bw
                && (row * bw + start <= k <= row * bw + end || (k > row * bw && left_changed(
                ids_b,
                ids2,
                k,
            ))),
        forall|j: int|
            start <= j <= end ==> #[trigger] claimed_cell(ids0, ids_b, id, origin, line * bw + j)
                && fill_neighbor(bw, bh, ww, wh, line * bw + j, row * bw + j),
        0 <= c < ids_b.len(),
        ids2[c] != ids_b[c],
    ensures
        reached(ids0, land, id, origin, bw, bh, ww, wh, c),
    decreases c - row * bw,
{
    assert(ids_b[c] > id && land[c]);
    if ids_b[c] != ids0[c] {
        assert(ids_b[c] == id);
    }
    if row * bw + start <= c <= row * bw + end {
        let j = c - row * bw;
        assert(claimed_cell(ids0, ids_b, id, origin, line * bw + j));
        lemma_cell_in_plate(line, j, bw, bh);
        reveal(fill_reach);
        assert(reached(ids0, land, id, origin, bw, bh, ww, wh, line * bw + j));
        lemma_reach_step(ids0, land, id, origin, bw, bh, ww, wh, line * bw + j, c);
    } else {
        assert(c > row * bw && left_changed(ids_b, ids2, c));
        reveal(left_changed);
        lemma_reach_run(
            ids0,
            ids_b,
            ids2,
            land,
            id,
            origin,
            bw,
            bh,
            ww,
            wh,
            row,
            line,
            start,
            end,
            c - 1,
        );
        lemma_cell_join(row, c - 1 - row * bw, bw);
        assert(fill_neighbor(bw, bh, ww, wh, c - 1, c));
        lemma_reach_step(ids0, land, id, origin, bw, bh, ww, wh, c - 1, c);
    }
}

/// Every taken cell stays reached after the queue claimed runs of row `row`.
proof fn lemma_reach_queue(
    ids0: Seq<u32>,
    ids_b: Seq<u32>,
    ids2: Seq<u32>,
    land: Seq<bool>,
    id: u32,
    origin: int,
    bw: int,
    bh: int,
    ww: int,
    wh: int,
    row: int,
    line: int,
    start: int,
    end: int,
)
    requires
        fill_reach(ids0, ids_b, land, id, origin, bw, bh, ww, wh),
        only_claimed(ids0, ids_b, land, id, origin),
        only_claimed(ids_b, ids2, land, id, -1),
        ids_b.len() == bw * bh,
        0 <= row < bh,
        0 <= line < bh,
        bw > 0,
        forall|k: int|
            0 <= k < ids_b.len() && #[trigger] ids2[k] != ids_b[k] ==> row * bw <= k < row * bw + bw
                && (row * bw + start <= k <= row * bw + end || (k > row * bw && left_changed(
                ids_b,
                ids2,
                k,
            ))),
        forall|j: int|
            start <= j <= end ==> #[trigger] claimed_cell(ids0, ids_b, id, origin, line * bw + j)
                && fill_neighbor(bw, bh, ww, wh, line * bw + j, row * bw + j),
    ensures
        fill_reach(ids0, ids2, land, id, origin, bw, bh, ww, wh),
{
    assert forall|c: int|
        0 <= c < ids2.len() && #[trigger] claimed_cell(ids0, ids2, id, origin, c) implies reached(
        ids0,
        land,
        id,
        origin,
        bw,
        bh,
        ww,
        wh,
        c,
    ) by {
        if ids2[c] != ids_b[c] {
            lemma_reach_run(
                ids0,
                ids_b,
                ids2,
                land,
                id,
                origin,
                bw,
                bh,
                ww,
                wh,
                row,
                line,
                start,
                end,
                c,
            );
        } else {
            assert(claimed_cell(ids0, ids_b, id, origin, c));
            reveal(fill_reach);
        }
    }
    reveal(fill_reach);
}

/// The vertical step from column `j` of `line` to the row above or below
/// it that the queue works on.
proof fn lemma_vertical_step(bw: int, bh: int, ww: int, wh: int, line: int, row: int, j: int)
    requires
        0 <= line < bh,
        0 <= j < bw,
        (row == line - 1 && line > 0) || (row == bh - 1 && line == 0 && bh == wh) || (row == line + 1
            && line < bh - 1) || (row == 0 && line == bh - 1 && bh == wh),
    ensures
        fill_neighbor(bw, bh, ww, wh, line * bw + j, row * bw + j),
{
    lemma_cell_join(line, j, bw);
    assert((line - 1) * bw == line * bw - bw) by (nonlinear_arith);
    assert((line + 1) * bw == line * bw + bw) by (nonlinear_arith);
    assert(0 * bw == 0);
}

/// Every taken cell stays reached after the queue claimed runs of the row
/// `row` next to the span `start..=end` of `line` being worked on.
#[verifier::spinoff_prover]
proof fn lemma_reach_after_queue(
    ids0: Seq<u32>,
    ids_b: Seq<u32>,
    ids2: Seq<u32>,
    land: Seq<bool>,
    id: u32,
    origin: int,
    todo: Seq<Vec<u32>>,
    done: Seq<Vec<u32>>,
    bw: int,
    bh: int,
    ww: int,
    wh: int,
    line: int,
    start: int,
    end: int,
    row: int,
)
    requires
        fill_reach(ids0, ids_b, land, id, origin, bw, bh, ww, wh),
        fill_cover(ids0, ids_b, land, id, origin, todo, done, bw, bh, ww, wh, line, start, end),
        fill_fresh(ids0, id, origin, todo, bw, bh, line, start, end),
        only_claimed(ids0, ids_b, land, id, origin),
        only_claimed(ids_b, ids2, land, id, -1),
        ids_b.len() == bw * bh,
        0 <= line < bh,
        0 <= start <= end < bw,
        (row == line - 1 && line > 0) || (row == bh - 1 && line == 0 && bh == wh) || (row == line + 1
            && line < bh - 1) || (row == 0 && line == bh - 1 && bh == wh),
        run_chain(ids_b, ids2, row * bw, start, end),
        forall|c: int|
            0 <= c < ids_b.len() && #[trigger] ids2[c] != ids_b[c] ==> row * bw <= c < row * bw + bw,
    ensures
        fill_reach(ids0, ids2, land, id, origin, bw, bh, ww, wh),
{
    assert(0 <= row < bh);
    assert forall|j: int| start <= j <= end implies #[trigger] claimed_cell(
        ids0,
        ids_b,
        id,
        origin,
        line * bw + j,
    ) && fill_neighbor(bw, bh, ww, wh, line * bw + j, row * bw + j) by {
        lemma_current_claimed(
            ids0,
            ids_b,
            land,
            id,
            origin,
            todo,
            done,
            bw,
            bh,
            ww,
            wh,
            line,
            start,
            end,
            line * bw + j,
        );
        lemma_vertical_step(bw, bh, ww, wh, line, row, j);
    }
    lemma_reach_queue(ids0, ids_b, ids2, land, id, origin, bw, bh, ww, wh, row, line, start, end);
}

/// The new segment `id` is closed: from each of its cells, every cell the
/// fill steps to that was unassigned land before belongs to it now. So the
/// segment takes in every unassigned land cell connected to its origin
/// through unassigned land.
pub open spec fn segment_closed(
    ids0: Seq<u32>,
    ids1: Seq<u32>,
    land: Seq<bool>,
    id: u32,
    origin: int,
    bw: int,
    bh: int,
    ww: int,
    wh: int,
) -> bool {
    forall|c: int, n: int|
        0 <= c < ids1.len() && 0 <= n < ids1.len() && #[trigger] claimed_cell(
            ids0,
            ids1,
            id,
            origin,
            c,
        ) && #[trigger] fill_neighbor(bw, bh, ww, wh, c, n) && ids0[n] > id && land[n] ==> ids1[n]
            == id
}

/// A new segment takes in every cell reached from its origin by steps of
/// the fill through land that was unassigned: the last cell of such a path
/// belongs to the segment.
pub proof fn lemma_segment_takes_in_component(
    ids0: Seq<u32>,
    ids1: Seq<u32>,
    land: Seq<bool>,
    id: u32,
    origin: int,
    bw: int,
    bh: int,
    ww: int,
    wh: int,
    path: Seq<int>,
)
    requires
        segment_closed(ids0, ids1, land, id, origin, bw, bh, ww, wh),
        0 <= origin < ids1.len(),
        ids1[origin] == id,
        path.len() > 0,
        path[0] == origin,
        forall|k: int| 0 <= k < path.len() ==> 0 <= #[trigger] path[k] < ids1.len(),
        forall|k: int|
            0 < k < path.len() ==> ids0[#[trigger] path[k]] > id && land[path[k]],
        forall|k: int|
            0 < k < path.len() ==> #[trigger] fill_neighbor(bw, bh, ww, wh, path[k - 1], path[k]),
    ensures
        ids1[path.last()] == id,
    decreases path.len(),
{
    if path.len() > 1 {
        let prefix = path.drop_last();
        assert forall|k: int| 0 < k < prefix.len() implies #[trigger] fill_neighbor(
            bw,
            bh,
            ww,
            wh,
            prefix[k - 1],
            prefix[k],
        ) by {
            assert(fill_neighbor(bw, bh, ww, wh, path[k - 1], path[k]));
        }
        assert forall|k: int| 0 < k < prefix.len() implies ids0[#[trigger] prefix[k]] > id
            && land[prefix[k]] by {
            assert(ids0[path[k]] > id);
        }
        lemma_segment_takes_in_component(ids0, ids1, land, id, origin, bw, bh, ww, wh, prefix);
        let c = prefix.last();
        let n = path.last();
        assert(fill_neighbor(bw, bh, ww, wh, path[path.len() - 2], path[path.len() - 1]));
        if prefix.len() > 1 {
            assert(ids0[path[prefix.len() - 1]] > id);
        }
        assert(claimed_cell(ids0, ids1, id, origin, c));
        assert(ids0[path[path.len() - 1]] > id);
    }
}

/// A new segment is exactly the connected land around its origin: given
/// that it is closed and that each of its cells is reached from the origin,
/// a cell belongs to it (was taken by its fill) if and only if a walk of
/// the fill through unassigned land leads from the origin to the cell.
pub proof fn lemma_segment_is_component(
    ids0: Seq<u32>,
    ids1: Seq<u32>,
    land: Seq<bool>,
    id: u32,
    origin: int,
    bw: int,
    bh: int,
    ww: int,
    wh: int,
    c: int,
)
    requires
        segment_closed(ids0, ids1, land, id, origin, bw, bh, ww, wh),
        ids0.len() == ids1.len(),
        0 <= origin < ids1.len(),
        ids1[origin] == id,
        forall|k: int|
            0 <= k < ids1.len() && #[trigger] claimed_cell(ids0, ids1, id, origin, k) ==> reached(
                ids0,
                land,
                id,
                origin,
                bw,
                bh,
                ww,
                wh,
                k,
            ),
        0 <= c < ids1.len(),
    ensures
        claimed_cell(ids0, ids1, id, origin, c) <==> reached(ids0, land, id, origin, bw, bh, ww, wh, c),
{
    if reached(ids0, land, id, origin, bw, bh, ww, wh, c) {
        let path = choose|path: Seq<int>|
            #[trigger] fill_path(ids0, land, id, origin, bw, bh, ww, wh, path) && path.last() == c;
        lemma_segment_takes_in_component(ids0, ids1, land, id, origin, bw, bh, ww, wh, path);
        if path.len() > 1 {
            assert(ids0[path[path.len() - 1]] > id);
        }
    }
}

/// When no span is pending any more, every claimed cell lies in a closed
/// finished span, so the segment is closed.
#[verifier::spinoff_prover]
proof fn lemma_cover_final(
    ids0: Seq<u32>,
    ids: Seq<u32>,
    land: Seq<bool>,
    id: u32,
    origin: int,
    todo: Seq<Vec<u32>>,
    done: Seq<Vec<u32>>,
    bw: int,
    bh: int,
    ww: int,
    wh: int,
)
    requires
        fill_cover(ids0, ids, land, id, origin, todo, done, bw, bh, ww, wh, 0, 0, -1),
        only_claimed(ids0, ids, land, id, origin),
        ids.len() == bw * bh,
        ids0.len() == bw * bh,
        bw > 0,
        bw <= u32::MAX,
        todo.len() == bh,
        done.len() == bh,
        forall|l: int| 0 <= l < bh ==> (#[trigger] todo[l])@.len() == 0,
        forall|l: int| 0 <= l < bh ==> done_wf(#[trigger] done[l]@, bw as u32),
    ensures
        segment_closed(ids0, ids, land, id, origin, bw, bh, ww, wh),
{
    reveal(fill_cover);
    assert forall|c: int, n: int|
        0 <= c < ids.len() && 0 <= n < ids.len() && #[trigger] claimed_cell(
            ids0,
            ids,
            id,
            origin,
            c,
        ) && #[trigger] fill_neighbor(bw, bh, ww, wh, c, n) && ids0[n] > id && land[n] implies ids[n]
        == id by {
        lemma_cell_split(c, bw, bh);
        let l = c / bw;
        let j = c % bw;
        assert(todo[l]@.len() == 0);
        assert(in_spans(done[l]@, j));
        let i = choose|i: int|
            #![trigger done[l]@[i]]
            0 <= i && i + 1 < done[l]@.len() && i % 2 == 0 && done[l]@[i] <= j <= done[l]@[i + 1];
        let s = done[l]@[i] as int;
        let e = done[l]@[i + 1] as int;
        assert(done_wf(done[l]@, bw as u32));
        assert(e < bw);
        assert(span_closed(ids, land, id, bw, bh, ww, wh, l, s, e));
        if ids[n] != id {
            if ids[n] != ids0[n] {
                assert(ids[n] == id);
            }
            assert(open_land(ids, land, id, n));
            assert(ids[l * bw + j] == id);
            if j > 0 && n == c - 1 {
                if j > s {
                    assert(ids[l * bw + (j - 1)] == id);
                } else {
                    assert(n == l * bw + s - 1);
                }
                assert(false);
            } else if j == 0 && bw == ww && n == c + bw - 1 {
                assert(s == 0);
                assert(n == l * bw + bw - 1);
                assert(false);
            } else if j < bw - 1 && n == c + 1 {
                if j < e {
                    assert(ids[l * bw + (j + 1)] == id);
                } else {
                    assert(n == l * bw + e + 1);
                }
                assert(false);
            } else if j == bw - 1 && bw == ww && n == c - j {
                assert(e == bw - 1);
                assert(n == l * bw);
                assert(false);
            } else if l > 0 && n == c - bw {
                assert((l - 1) * bw == l * bw - bw) by (nonlinear_arith);
                assert(row_up(l, bh) * bw + s <= n <= row_up(l, bh) * bw + e);
                assert(false);
            } else if l == 0 && bh == wh && n == (bh - 1) * bw + j {
                assert(row_up(l, bh) == bh - 1);
                assert(row_up(l, bh) * bw + s <= n <= row_up(l, bh) * bw + e);
                assert(false);
            } else if l < bh - 1 && n == c + bw {
                assert((l + 1) * bw == l * bw + bw) by (nonlinear_arith);
                assert(row_down(l, bh) * bw + s <= n <= row_down(l, bh) * bw + e);
                assert(false);
            } else {
                assert(l == bh - 1 && bh == wh && n == j);
                assert(row_down(l, bh) == 0);
                assert(0 * bw == 0);
                assert(row_down(l, bh) * bw + s <= n <= row_down(l, bh) * bw + e);
                assert(false);
            }
        }
    }
}

/// What looking up the segment of the plate cell `(x, y)` does, going from
/// the ids and segments `ids0`, `data0` to `ids1`, `data1` and answering `r`.
///
/// A cell that already belongs to a segment answers it and changes nothing.
/// Otherwise a cell with an older segment on a direct land neighbour joins
/// it: the cell takes its id and the segment grows by one cell and to take
/// in the cell. Otherwise a new segment with the next id is appended: the
/// cell and only unassigned land cells take its id, every unassigned land
/// cell the fill steps to from one of its cells takes it too, each cell it
/// took is reached from the cell through unassigned land (so the segment is
/// exactly the unassigned land around the cell; see
/// `lemma_segment_is_component`), its area is the number of cells it took,
/// and its rectangle is their bounding box in plate coordinates.
pub open spec fn segment_lookup(
    ids0: Seq<u32>,
    data0: Seq<SegmentData>,
    ids1: Seq<u32>,
    data1: Seq<SegmentData>,
    land: Seq<bool>,
    x: u32,
    y: u32,
    width: u32,
    height: u32,
    dimensions: WorldDimension,
    r: u32,
) -> bool {
    let origin = y * width + x;
    let size = data0.len() as u32;
    let n = neighbor_segment(ids0, land, x, y, origin, size, width, height);
    if ids0[origin] < size {
        &&& r == ids0[origin]
        &&& ids1 == ids0
        &&& data1 == data0
    } else if n < size {
        &&& r == n
        &&& ids1 == ids0.update(origin, n)
        &&& data1.len() == data0.len()
        &&& forall|k: int| 0 <= k < data0.len() && k != n ==> #[trigger] data1[k] == data0[k]
        &&& data1[n as int].spec_area() == data0[n as int].spec_area() + 1
        &&& data1[n as int].spec_coll_count() == data0[n as int].spec_coll_count()
        &&& enlarged_to_contain(data0[n as int].spec_rectangle(), data1[n as int].spec_rectangle(), x, y)
    } else {
        &&& r == size
        &&& data1.len() == data0.len() + 1
        &&& data1.subrange(0, data0.len() as int) == data0
        &&& only_claimed(ids0, ids1, land, r, origin)
        &&& ids1[origin] == r
        &&& data1[r as int].spec_coll_count() == 0
        &&& data1[r as int].spec_rectangle().spec_dimensions() == dimensions
        &&& forall|c: int|
            0 <= c < ids1.len() && #[trigger] claimed_cell(ids0, ids1, r, origin, c) ==> reached(
                ids0,
                land,
                r,
                origin,
                width as int,
                height as int,
                dimensions.spec_width() as int,
                dimensions.spec_height() as int,
                c,
            )
        &&& bounds_taken(
            ids0,
            ids1,
            r,
            origin,
            width as int,
            data1[r as int].spec_rectangle().spec_left() as int,
            data1[r as int].spec_rectangle().spec_right() as int,
            data1[r as int].spec_rectangle().spec_top() as int,
            data1[r as int].spec_rectangle().spec_bottom() as int,
        )
        &&& data1[r as int].spec_area() == taken_count(ids0, ids1, r, origin)
        &&& segment_closed(
            ids0,
            ids1,
            land,
            r,
            origin,
            width as int,
            height as int,
            dimensions.spec_width() as int,
            dimensions.spec_height() as int,
        )
    }
}

/// The cell `c` is a direct neighbour of the cell `(x, y)` of a `width` by
/// `height` plate map, without wrapping: west, east, north or south of it
/// and on the map.
pub open spec fn direct_neighbor(x: u32, y: u32, width: u32, height: u32, c: int) -> bool {
    let origin = y * width + x;
    ||| x > 0 && c == origin - 1
    ||| x + 1 < width && c == origin + 1
    ||| y > 0 && c == origin - width
    ||| y + 1 < height && c == origin + width
}

/// An unassigned cell next to land of an older segment joins one of those
/// segments: when a direct neighbour `nb` of the cell is land that belongs
/// to a segment, the answer is the segment of such a land neighbour, the
/// cell takes its id, that segment grows by one cell, and no segment is
/// added.
pub proof fn lemma_lookup_joins_older_neighbor(
    ids0: Seq<u32>,
    data0: Seq<SegmentData>,
    ids1: Seq<u32>,
    data1: Seq<SegmentData>,
    land: Seq<bool>,
    x: u32,
    y: u32,
    width: u32,
    height: u32,
    dimensions: WorldDimension,
    r: u32,
    nb: int,
)
    requires
        segment_lookup(ids0, data0, ids1, data1, land, x, y, width, height, dimensions, r),
        x < width,
        y < height,
        ids0.len() == width * height,
        data0.len() < u32::MAX,
        ids0[y * width + x] >= data0.len(),
        direct_neighbor(x, y, width, height, nb),
        land[nb],
        ids0[nb] < data0.len(),
    ensures
        r < data0.len(),
        data1.len() == data0.len(),
        ids1[y * width + x] == r,
        data1[r as int].spec_area() == data0[r as int].spec_area() + 1,
        exists|m: int|
            #![trigger direct_neighbor(x, y, width, height, m)]
            direct_neighbor(x, y, width, height, m) && land[m] && ids0[m] == r,
{
    let origin = y * width + x;
    let size = data0.len() as u32;
    let w = width as int;
    let n = neighbor_segment(ids0, land, x, y, origin, size, width, height);
    assert(y * width + x < width * height) by (nonlinear_arith)
        requires
            x < width,
            y < height,
    ;
    if x > 0 && land[origin - 1] && ids0[origin - 1] < size {
        assert(direct_neighbor(x, y, width, height, origin - 1));
    } else if x < width - 1 && land[origin + 1] && ids0[origin + 1] < size {
        assert(direct_neighbor(x, y, width, height, origin + 1));
    } else if y > 0 && land[origin - w] && ids0[origin - w] < size {
        assert(direct_neighbor(x, y, width, height, origin - w));
    } else if y < height - 1 && land[origin + w] && ids0[origin + w] < size {
        assert(direct_neighbor(x, y, width, height, origin + w));
    } else {
        assert(false);
    }
    assert(n < size);
}

/// An unassigned cell with no land of an older segment among its direct
/// neighbours starts a new segment: the answer is the next id, the cell
/// takes it, and exactly one segment is added.
pub proof fn lemma_lookup_starts_segment_when_isolated(
    ids0: Seq<u32>,
    data0: Seq<SegmentData>,
    ids1: Seq<u32>,
    data1: Seq<SegmentData>,
    land: Seq<bool>,
    x: u32,
    y: u32,
    width: u32,
    height: u32,
    dimensions: WorldDimension,
    r: u32,
)
    requires
        segment_lookup(ids0, data0, ids1, data1, land, x, y, width, height, dimensions, r),
        x < width,
        y < height,
        data0.len() < u32::MAX,
        ids0[y * width + x] >= data0.len(),
        forall|c: int|
            #[trigger] direct_neighbor(x, y, width, height, c) && land[c] ==> ids0[c] >= data0.len(),
    ensures
        r == data0.len(),
        data1.len() == data0.len() + 1,
        ids1[y * width + x] == r,
{
    let origin = y * width + x;
    let w = width as int;
    assert(x > 0 ==> direct_neighbor(x, y, width, height, origin - 1));
    assert(x + 1 < width ==> direct_neighbor(x, y, width, height, origin + 1));
    assert(y > 0 ==> direct_neighbor(x, y, width, height, origin - w));
    assert(y + 1 < height ==> direct_neighbor(x, y, width, height, origin + w));
}

impl Segments {
    pub closed spec fn ids_view(self) -> Seq<u32> {
        self.ids@
    }

    pub closed spec fn data_view(self) -> Seq<SegmentData> {
        self.data@
    }

    /// A fresh set of segments for a plate of `area` cells, all unassigned.
    pub fn new(area: u32) -> (s: Self)
        ensures
            s.ids_view().len() == area,
            forall|i: int| 0 <= i < area ==> #[trigger] s.ids_view()[i] == u32::MAX,
            s.data_view().len() == 0,
    {
        let mut ids: Vec<u32> = Vec::new();
        let mut i: u32 = 0;
        while i < area
            invariant
                i <= area,
                ids@.len() == i,
                forall|j: int| 0 <= j < i ==> #[trigger] ids@[j] == u32::MAX,
            decreases area - i,
        {
            ids.push(u32::MAX);
            i += 1;
        }
        Self { ids, data: Vec::new() }
    }

    /// Number of cells, truncated to 32 bits.
    pub fn area(&self) -> (a: u32)
        ensures
            a == self.ids_view().len() as u32,
    {
        self.ids.len() as u32
    }

    /// Unassigns every cell and forgets every segment.
    pub fn reset(&mut self)
        ensures
            final(self).ids_view().len() == old(self).ids_view().len(),
            forall|i: int|
                0 <= i < final(self).ids_view().len() ==> #[trigger] final(self).ids_view()[i]
                    == u32::MAX,
            final(self).data_view().len() == 0,
    {
        let n = self.ids.len();
        let mut i: usize = 0;
        while i < n
            invariant
                i <= n,
                self.ids@.len() == n,
                forall|j: int| 0 <= j < i ==> #[trigger] self.ids@[j] == u32::MAX,
            decreases n - i,
        {
            self.ids.set(i, u32::MAX);
            i += 1;
        }
        self.data.clear();
    }

    /// Replaces the cell ids, keeping the segments.
    pub fn reassign(&mut self, ids: Vec<ContinentId>)
        ensures
            final(self).ids_view() == ids@,
            final(self).data_view() == old(self).data_view(),
    {
        self.ids = ids;
    }

    /// Moves the rectangle of every segment by `(dx, dy)`.
    pub fn shift(&mut self, dx: u32, dy: u32)
        requires
            forall|k: int|
                0 <= k < old(self).data_view().len() ==> {
                    let r = #[trigger] old(self).data_view()[k].spec_rectangle();
                    &&& r.spec_left() + dx <= u32::MAX
                    &&& r.spec_right() + dx <= u32::MAX
                    &&& r.spec_top() + dy <= u32::MAX
                    &&& r.spec_bottom() + dy <= u32::MAX
                },
        ensures
            final(self).ids_view() == old(self).ids_view(),
            final(self).data_view().len() == old(self).data_view().len(),
            forall|k: int|
                0 <= k < final(self).data_view().len() ==> {
                    let o = old(self).data_view()[k];
                    let n = #[trigger] final(self).data_view()[k];
                    &&& n.spec_area() == o.spec_area()
                    &&& n.spec_coll_count() == o.spec_coll_count()
                    &&& n.spec_rectangle().spec_dimensions()
                        == o.spec_rectangle().spec_dimensions()
                    &&& n.spec_rectangle().spec_left() == o.spec_rectangle().spec_left() + dx
                    &&& n.spec_rectangle().spec_right() == o.spec_rectangle().spec_right() + dx
                    &&& n.spec_rectangle().spec_top() == o.spec_rectangle().spec_top() + dy
                    &&& n.spec_rectangle().spec_bottom() == o.spec_rectangle().spec_bottom() + dy
                },
    {
        let n = self.data.len();
        let mut k: usize = 0;
        while k < n
            invariant
                k <= n,
                self.ids@ == old(self).ids@,
                self.data@.len() == n,
                n == old(self).data@.len(),
                forall|j: int|
                    k <= j < n ==> #[trigger] self.data@[j] == old(self).data@[j],
                forall|j: int|
                    0 <= j < k ==> {
                        let o = old(self).data@[j];
                        let m = #[trigger] self.data@[j];
                        &&& m.spec_area() == o.spec_area()
                        &&& m.spec_coll_count() == o.spec_coll_count()
                        &&& m.spec_rectangle().spec_dimensions()
                            == o.spec_rectangle().spec_dimensions()
                        &&& m.spec_rectangle().spec_left() == o.spec_rectangle().spec_left() + dx
                        &&& m.spec_rectangle().spec_right() == o.spec_rectangle().spec_right()
                            + dx
                        &&& m.spec_rectangle().spec_top() == o.spec_rectangle().spec_top() + dy
                        &&& m.spec_rectangle().spec_bottom() == o.spec_rectangle().spec_bottom()
                            + dy
                    },
                forall|j: int|
                    0 <= j < n ==> {
                        let r = #[trigger] old(self).data_view()[j].spec_rectangle();
                        &&& r.spec_left() + dx <= u32::MAX
                        &&& r.spec_right() + dx <= u32::MAX
                        &&& r.spec_top() + dy <= u32::MAX
                        &&& r.spec_bottom() + dy <= u32::MAX
                    },
            decreases n - k,
        {
            let mut d = self.data[k];
            assert(d == old(self).data_view()[k as int]);
            let ghost r = old(self).data_view()[k as int].spec_rectangle();
            d.shift(dx, dy);
            self.data.set(k, d);
            k += 1;
        }
    }

    /// Number of segments, truncated to 32 bits.
    pub fn size(&self) -> (s: u32)
        ensures
            s == self.data_view().len() as u32,
    {
        self.data.len() as u32
    }

    pub fn id(&self, index: usize) -> (id: ContinentId)
        requires
            index < self.ids_view().len(),
        ensures
            id == self.ids_view()[index as int],
    {
        self.ids[index]
    }

    pub fn set_id(&mut self, index: usize, id: ContinentId)
        requires
            index < old(self).ids_view().len(),
        ensures
            final(self).ids_view() == old(self).ids_view().update(index as int, id),
            final(self).data_view() == old(self).data_view(),
    {
        self.ids.set(index, id);
    }

    pub fn ids(&self) -> (s: &[ContinentId])
        ensures
            s@ == self.ids_view(),
    {
        self.ids.as_slice()
    }

    pub fn data(&self, id: ContinentId) -> (d: &SegmentData)
        requires
            id < self.data_view().len(),
        ensures
            *d == self.data_view()[id as int],
    {
        &self.data[id as usize]
    }

    pub fn data_mut(&mut self, id: ContinentId) -> (d: &mut SegmentData)
        requires
            id < old(self).data_view().len(),
        ensures
            *d == old(self).data_view()[id as int],
            final(self).data_view() == old(self).data_view().update(id as int, *final(d)),
            final(self).ids_view() == old(self).ids_view(),
    {
        &mut self.data[id as usize]
    }

    /// The segment of the world cell `(x, y)` of a plate whose extent on the
    /// map is `bounds` and whose cells with continental crust are `land`,
    /// found or built as `segment_lookup` describes for the cell's
    /// coordinates within the plate.
    pub fn get_continent_at(
        &mut self,
        x: u32,
        y: u32,
        bounds: Rectangle,
        land: &[bool],
        dimensions: WorldDimension,
    ) -> (r: ContinentId)
        requires
            bounds.spec_left() <= bounds.spec_right(),
            bounds.spec_top() <= bounds.spec_bottom(),
            bounds.map_index_in_range(x, y),
            bounds.contains_point(x, y),
            old(self).ids_view().len() == (bounds.spec_right() - bounds.spec_left()) * (
            bounds.spec_bottom() - bounds.spec_top()),
            land@.len() == old(self).ids_view().len(),
            old(self).ids_view().len() <= u32::MAX,
            old(self).data_view().len() < u32::MAX,
            forall|k: int|
                0 <= k < old(self).data_view().len() ==> #[trigger] old(
                    self,
                ).data_view()[k].spec_area() < u32::MAX,
        ensures
            r < final(self).data_view().len(),
            segment_lookup(
                old(self).ids_view(),
                old(self).data_view(),
                final(self).ids_view(),
                final(self).data_view(),
                land@,
                bounds.local_x(x) as u32,
                bounds.local_y(y) as u32,
                (bounds.spec_right() - bounds.spec_left()) as u32,
                (bounds.spec_bottom() - bounds.spec_top()) as u32,
                dimensions,
                r,
            ),
    {
        let bounds_width = bounds.right() - bounds.left();
        let bounds_height = bounds.bottom() - bounds.top();
        let mut lx = x;
        let mut ly = y;
        let index = bounds.get_map_index(&mut lx, &mut ly);
        proof {
            assert(ly * bounds_width + lx < bounds_width * bounds_height) by (nonlinear_arith)
                requires
                    lx < bounds_width,
                    ly < bounds_height,
            ;
        }
        let mut segment = self.id(index as usize);
        if segment >= self.size() {
            segment = self.create_segment(lx, ly, bounds_width, bounds_height, land, dimensions);
        }
        segment
    }
}


/// The row of pending spans `todo` is not empty, and none of its cells lies
/// in a finished span of `done`.
pub open spec fn untrimmed(todo: Seq<u32>, done: Seq<u32>) -> bool {
    &&& todo.len() > 0
    &&& forall|j: int| #[trigger] in_spans(todo, j) ==> !in_spans(done, j)
}

/// Trims the span `start..=end` against the finished spans in `done`: a
/// start inside a finished span moves past it, an end inside one moves
/// before it (to `u32::MAX` when that span begins at column 0). The cells
/// trimmed off lie in finished spans.
#[verifier::spinoff_prover]
fn trim_span(start: u32, end: u32, done: &Vec<u32>, bounds_width: u32) -> (r: (u32, u32))
    requires
        start <= end < bounds_width,
        done_wf(done@, bounds_width),
    ensures
        start <= r.0 <= bounds_width,
        r.1 <= end || r.1 == u32::MAX,
        forall|j: int| start <= j < r.0 ==> #[trigger] in_spans(done@, j),
        forall|j: int|
            (if r.1 == u32::MAX {
                -1
            } else {
                r.1 as int
            }) < j <= end ==> #[trigger] in_spans(done@, j),
        !in_spans(done@, start as int) && !in_spans(done@, end as int) ==> r == (start, end),
{
    let a = start;
    let b = end;
    let mut start = start;
    let mut end = end;
    let done_len = done.len();
    let mut k: usize = 0;
    while k + 1 < done_len
        invariant
            done_len == done@.len(),
            k <= done_len,
            k % 2 == 0,
            done_wf(done@, bounds_width),
            a <= start <= bounds_width,
            end <= b || end == u32::MAX,
            b < bounds_width,
            forall|j: int| a <= j < start ==> #[trigger] in_spans(done@, j),
            forall|j: int|
                (if end == u32::MAX {
                    -1
                } else {
                    end as int
                }) < j <= b ==> #[trigger] in_spans(done@, j),
            !in_spans(done@, a as int) && !in_spans(done@, b as int) ==> start == a && end == b,
        decreases done_len - k,
    {
        let d0 = done[k];
        let d1 = done[k + 1];
        assert(done@[k as int + 1] < bounds_width);
        proof {
            if start == a && start >= d0 && start <= d1 {
                assert(done@[k as int] <= a <= done@[k as int + 1]);
                assert(in_spans(done@, a as int));
            }
            if end == b && end >= d0 && end <= d1 {
                assert(done@[k as int] <= b <= done@[k as int + 1]);
                assert(in_spans(done@, b as int));
            }
        }
        if start >= d0 && start <= d1 {
            proof {
                assert forall|j: int| a <= j < d1 + 1 implies #[trigger] in_spans(done@, j) by {
                    if j >= start {
                        assert(done@[k as int] <= j <= done@[k as int + 1]);
                    }
                }
            }
            start = d1 + 1;
        }
        if end >= d0 && end <= d1 {
            proof {
                assert forall|j: int| d0 as int - 1 < j <= b implies #[trigger] in_spans(done@, j) by {
                    if j <= end {
                        assert(done@[k as int] <= j <= done@[k as int + 1]);
                    }
                }
            }
            end = d0.wrapping_sub(1);
        }
        k += 2;
    }
    (start, end)
}

/// Takes the next pending span of `line` out of `spans_todo`, trimmed against
/// the spans already finished on that line. Pending spans that trim to
/// nothing are dropped on the way.
#[verifier::rlimit(100)]
#[verifier::spinoff_prover]
fn scan_spans(
    line: u32,
    bounds_width: u32,
    spans_todo: &mut Vec<Vec<u32>>,
    spans_done: &Vec<Vec<u32>>,
) -> (r: Option<(u32, u32)>)
    requires
        line < old(spans_todo).len(),
        line < spans_done.len(),
        spans_wf(old(spans_todo)[line as int]@, bounds_width),
        done_wf(spans_done[line as int]@, bounds_width),
    ensures
        final(spans_todo).len() == old(spans_todo).len(),
        forall|l: int|
            0 <= l < final(spans_todo).len() && l != line ==> #[trigger] final(spans_todo)[l]
                == old(spans_todo)[l],
        spans_wf(final(spans_todo)[line as int]@, bounds_width),
        final(spans_todo)[line as int]@.len() <= old(spans_todo)[line as int]@.len(),
        match r {
            Some((start, end)) => {
                &&& start <= end < bounds_width
                &&& span_total(final(spans_todo)[line as int]@) + end - start + 1 <= span_total(
                    old(spans_todo)[line as int]@,
                )
            },
            None => {
                &&& final(spans_todo)[line as int]@.len() == 0
                &&& span_total(final(spans_todo)[line as int]@) <= span_total(
                    old(spans_todo)[line as int]@,
                )
            },
        },
        forall|j: int|
            #[trigger] in_spans(old(spans_todo)[line as int]@, j) ==> {
                ||| in_spans(final(spans_todo)[line as int]@, j)
                ||| in_spans(spans_done[line as int]@, j)
                ||| (r matches Some((start, end)) && start <= j <= end)
            },
        final(spans_todo)[line as int]@ == old(spans_todo)[line as int]@.subrange(
            0,
            final(spans_todo)[line as int]@.len() as int,
        ),
        r matches Some((start, end)) ==> forall|j: int|
            start <= j <= end ==> #[trigger] in_spans(old(spans_todo)[line as int]@, j),
        untrimmed(old(spans_todo)[line as int]@, spans_done[line as int]@) ==> {
            let row0 = old(spans_todo)[line as int]@;
            &&& r == Some((row0[row0.len() - 2], row0[row0.len() - 1]))
            &&& final(spans_todo)[line as int]@ == row0.subrange(0, row0.len() - 2)
        },
{
    let line_index = line as usize;
    let ghost row0 = old(spans_todo)[line as int]@;
    let ghost done_row = spans_done[line as int]@;
    let ghost clean = untrimmed(row0, done_row);
    while !spans_todo[line_index].is_empty()
        invariant
            line_index == line,
            line_index < spans_todo.len(),
            spans_todo.len() == old(spans_todo).len(),
            line < spans_done.len(),
            done_row == spans_done[line as int]@,
            done_wf(spans_done[line as int]@, bounds_width),
            forall|l: int|
                0 <= l < spans_todo.len() && l != line ==> #[trigger] spans_todo[l] == old(
                    spans_todo,
                )[l],
            spans_todo[line as int]@.len() <= row0.len(),
            spans_todo[line as int]@.len() % 2 == 0,
            spans_todo[line as int]@ == row0.subrange(0, spans_todo[line as int]@.len() as int),
            spans_wf(row0, bounds_width),
            row0 == old(spans_todo)[line as int]@,
            forall|i: int, j: int|
                #![trigger row0[i], in_spans(done_row, j)]
                spans_todo[line as int]@.len() <= i && i + 1 < row0.len() && i % 2 == 0 && row0[i]
                    <= j <= row0[i + 1] ==> in_spans(done_row, j),
            clean == untrimmed(row0, done_row),
            clean ==> spans_todo[line as int]@.len() == row0.len(),
        decreases spans_todo[line as int]@.len(),
    {
        let ghost before = spans_todo[line as int]@;
        proof {
            lemma_span_total_prefix(row0, before.len() as int, bounds_width);
        }
        let mut end = spans_todo[line_index].pop().unwrap();
        let mut start = spans_todo[line_index].pop().unwrap();
        let ghost a = start;
        let ghost b = end;
        let ghost now = spans_todo[line as int]@;
        proof {
            let after = spans_todo[line as int]@;
            assert(after =~= before.subrange(0, before.len() - 2));
            assert(after =~= row0.subrange(0, after.len() as int));
            assert(before[before.len() - 2] <= before[before.len() - 1]);
            assert(a == before[before.len() - 2]);
            assert(b == before[before.len() - 1]);
            assert(a == row0[now.len() as int]);
            assert(b == row0[now.len() as int + 1]);
            lemma_span_total_prefix(row0, after.len() as int, bounds_width);
            if clean {
                assert(row0[now.len() as int] <= a <= row0[now.len() as int + 1]);
                assert(row0[now.len() as int] <= b <= row0[now.len() as int + 1]);
                assert(in_spans(row0, a as int));
                assert(in_spans(row0, b as int));
            }
        }
        let trimmed = trim_span(start, end, &spans_done[line_index], bounds_width);
        start = trimmed.0;
        end = trimmed.1;
        let ghost s_t = start;
        let ghost e_t = if end == u32::MAX {
            -1
        } else {
            end as int
        };
        if end >= bounds_width {
            start = u32::MAX;
            end -= 1;
        }
        if start <= end {
            proof {
                assert forall|j: int| #[trigger] in_spans(row0, j) implies {
                    ||| in_spans(spans_todo[line as int]@, j)
                    ||| in_spans(done_row, j)
                    ||| start <= j <= end
                } by {
                    let i = choose|i: int|
                        #![trigger row0[i]]
                        0 <= i && i + 1 < row0.len() && i % 2 == 0 && row0[i] <= j <= row0[i + 1];
                    if i < now.len() {
                        assert(now[i] == row0[i] && now[i + 1] == row0[i + 1]);
                    } else if i == now.len() {
                        if j < start {
                        } else if j > end {
                        }
                    } else {
                        assert(i >= before.len());
                    }
                }
                assert forall|j: int| start <= j <= end implies #[trigger] in_spans(row0, j) by {
                    assert(row0[now.len() as int] <= j <= row0[now.len() as int + 1]);
                }
            }
            return Some((start, end));
        }
        proof {
            assert forall|i: int, j: int|
                #![trigger row0[i], in_spans(done_row, j)]
                now.len() <= i && i + 1 < row0.len() && i % 2 == 0 && row0[i] <= j <= row0[i
                    + 1] implies in_spans(done_row, j) by {
                if i == now.len() {
                    if j < s_t {
                    } else {
                        assert(e_t < j);
                    }
                } else {
                    assert(i >= before.len());
                }
            }
        }
    }
    proof {
        lemma_span_total_prefix(row0, 0, bounds_width);
        assert(spans_todo[line as int]@ =~= row0.subrange(0, 0));
        assert forall|j: int| #[trigger] in_spans(row0, j) implies in_spans(done_row, j) by {
            let i = choose|i: int|
                #![trigger row0[i]]
                0 <= i && i + 1 < row0.len() && i % 2 == 0 && row0[i] <= j <= row0[i + 1];
        }
    }
    None
}

/// Claims for `id` the run of open land that starts at column `a` of the
/// row starting at `line_offset` and goes on to the right, and queues it as
/// a pending span of `row`. Answers the column just past the run.
#[verifier::spinoff_prover]
fn claim_run(
    segments: &mut Segments,
    land: &[bool],
    id: ContinentId,
    bounds_width: u32,
    a: u32,
    line_offset: u32,
    row: u32,
    spans_todo: &mut Vec<Vec<u32>>,
) -> (next: u32)
    requires
        a < bounds_width,
        line_offset + bounds_width <= old(segments).ids_view().len(),
        old(segments).ids_view().len() == land@.len(),
        old(segments).ids_view().len() <= u32::MAX,
        row < old(spans_todo).len(),
        spans_wf(old(spans_todo)[row as int]@, bounds_width),
        open_land(old(segments).ids_view(), land@, id, line_offset + a),
    ensures
        a < next <= bounds_width,
        final(segments).data_view() == old(segments).data_view(),
        final(segments).ids_view().len() == old(segments).ids_view().len(),
        forall|c: int|
            0 <= c < old(segments).ids_view().len() ==> #[trigger] final(segments).ids_view()[c]
                == if line_offset + a <= c < line_offset + next {
                id
            } else {
                old(segments).ids_view()[c]
            },
        forall|c: int|
            line_offset + a <= c < line_offset + next ==> #[trigger] open_land(
                old(segments).ids_view(),
                land@,
                id,
                c,
            ),
        next == bounds_width || !open_land(final(segments).ids_view(), land@, id, line_offset + next),
        count_of(final(segments).ids_view(), id) == count_of(old(segments).ids_view(), id) + (next
            - a),
        final(spans_todo).len() == old(spans_todo).len(),
        forall|l: int|
            0 <= l < final(spans_todo).len() && l != row ==> #[trigger] final(spans_todo)[l]
                == old(spans_todo)[l],
        final(spans_todo)[row as int]@ == old(spans_todo)[row as int]@.push(a).push(
            (next - 1) as u32,
        ),
{
    let ghost ids0 = old(segments).ids_view();
    let ghost off = line_offset as int;
    let index = (line_offset + a) as usize;
    proof {
        lemma_count_update(segments.ids_view(), index as int, id);
    }
    segments.set_id(index, id);
    let mut j = a + 1;
    while j < bounds_width
        invariant
            a < j <= bounds_width,
            off == line_offset,
            line_offset + bounds_width <= ids0.len(),
            ids0.len() == land@.len(),
            ids0.len() <= u32::MAX,
            segments.data_view() == old(segments).data_view(),
            segments.ids_view().len() == ids0.len(),
            forall|c: int|
                0 <= c < ids0.len() ==> #[trigger] segments.ids_view()[c] == if off + a <= c < off
                    + j {
                    id
                } else {
                    ids0[c]
                },
            forall|c: int| off + a <= c < off + j ==> #[trigger] open_land(ids0, land@, id, c),
            count_of(segments.ids_view(), id) == count_of(ids0, id) + (j - a),
        ensures
            j == bounds_width || !open_land(segments.ids_view(), land@, id, off + j),
        decreases bounds_width - j,
    {
        let next = (line_offset + j) as usize;
        if !(segments.id(next) > id && land[next]) {
            break;
        }
        proof {
            lemma_count_update(segments.ids_view(), next as int, id);
        }
        segments.set_id(next, id);
        j += 1;
    }
    spans_todo[row as usize].push(a);
    spans_todo[row as usize].push(j - 1);
    j
}

/// The new spans of a row (the entries past `row0`) are in order from left
/// to right, end before column `bound`, and their cells (at `off`) did not
/// carry `id` in `ids0`.
pub open spec fn queued_fresh(
    ids0: Seq<u32>,
    id: u32,
    row0: Seq<u32>,
    row: Seq<u32>,
    off: int,
    bound: int,
) -> bool {
    &&& forall|p: int, q: int|
        #![trigger span_hi(row, p), span_lo(row, q)]
        row0.len() <= 2 * p && p < q && 2 * q + 1 < row.len() ==> span_hi(row, p) < span_lo(row, q)
    &&& forall|p: int|
        #![trigger span_hi(row, p)]
        row0.len() <= 2 * p && 2 * p + 1 < row.len() ==> span_hi(row, p) < bound && forall|c: int|
            off + span_lo(row, p) <= c <= off + span_hi(row, p) ==> #[trigger] ids0[c] != id
}

/// The bound on the ends of the queued spans can be raised, or replaced by
/// the width of a well-formed row.
proof fn lemma_queued_rebound(
    ids0: Seq<u32>,
    id: u32,
    row0: Seq<u32>,
    row: Seq<u32>,
    off: int,
    bound: int,
    bound2: int,
)
    requires
        queued_fresh(ids0, id, row0, row, off, bound),
        bound <= bound2 || (0 <= bound2 <= u32::MAX && spans_wf(row, bound2 as u32)),
    ensures
        queued_fresh(ids0, id, row0, row, off, bound2),
{
    assert forall|p: int|
        #![trigger span_hi(row, p)]
        row0.len() <= 2 * p && 2 * p + 1 < row.len() implies span_hi(row, p) < bound2 && forall|c: int|
        off + span_lo(row, p) <= c <= off + span_hi(row, p) ==> #[trigger] ids0[c] != id by {
        assert(span_lo(row, p) == row[2 * p]);
        assert(span_hi(row, p) < bound);
        assert forall|c: int| off + span_lo(row, p) <= c <= off + span_hi(row, p) implies #[trigger] ids0[c] != id by {
        }
        if bound > bound2 {
            assert(0 <= 2 * p + 1 < row.len());
            assert(row[2 * p + 1] < bound2 as u32);
        }
    }
}

/// Queueing the run `a..next` after the runs already queued keeps them in
/// order and fresh.
proof fn lemma_queue_fresh(
    ids0: Seq<u32>,
    ids_b: Seq<u32>,
    land: Seq<bool>,
    id: u32,
    row0: Seq<u32>,
    row_b: Seq<u32>,
    row2: Seq<u32>,
    off: int,
    bound: int,
    a: int,
    next: int,
)
    requires
        queued_fresh(ids0, id, row0, row_b, off, bound),
        bound <= a < next,
        a <= u32::MAX,
        next - 1 <= u32::MAX,
        row2 == row_b.push(a as u32).push((next - 1) as u32),
        row0.len() <= row_b.len(),
        row_b.len() % 2 == 0,
        only_claimed(ids0, ids_b, land, id, -1),
        0 <= off,
        off + next <= ids0.len(),
        forall|c: int| off + a <= c < off + next ==> #[trigger] open_land(ids_b, land, id, c),
        0 <= a,
    ensures
        queued_fresh(ids0, id, row0, row2, off, next),
{
    let m: int = (row_b.len() / 2) as int;
    assert(2 * m == row_b.len());
    assert(span_lo(row2, m) == a && span_hi(row2, m) == next - 1);
    assert forall|p: int| 0 <= p < m implies span_lo(row2, p) == span_lo(row_b, p) && span_hi(
        row2,
        p,
    ) == span_hi(row_b, p) by {
        assert(row2[2 * p] == row_b[2 * p]);
        assert(row2[2 * p + 1] == row_b[2 * p + 1]);
    }
    assert forall|p: int, q: int|
        #![trigger span_hi(row2, p), span_lo(row2, q)]
        row0.len() <= 2 * p && p < q && 2 * q + 1 < row2.len() implies span_hi(row2, p) < span_lo(
        row2,
        q,
    ) by {
        if q < m {
            assert(span_lo(row_b, p) == span_lo(row2, p));
            assert(span_lo(row_b, q) == span_lo(row2, q));
        } else {
            assert(q == m);
            assert(span_lo(row_b, p) == span_lo(row2, p));
        }
    }
    assert forall|p: int|
        #![trigger span_hi(row2, p)]
        row0.len() <= 2 * p && 2 * p + 1 < row2.len() implies span_hi(row2, p) < next && forall|c: int|
        off + span_lo(row2, p) <= c <= off + span_hi(row2, p) ==> #[trigger] ids0[c] != id by {
        if p < m {
            assert(span_lo(row_b, p) == span_lo(row2, p));
        } else {
            assert(p == m);
            assert forall|c: int| off + span_lo(row2, p) <= c <= off + span_hi(row2, p) implies #[trigger] ids0[c]
                != id by {
                assert(open_land(ids_b, land, id, c));
                if ids_b[c] != ids0[c] {
                    assert(ids_b[c] == id);
                }
            }
        }
    }
}

/// Each cell the queue changed lies over the span `start..=end` or right
/// of another changed cell.
pub open spec fn run_chain(ids0: Seq<u32>, ids: Seq<u32>, off: int, start: int, end: int) -> bool {
    forall|c: int|
        0 <= c < ids0.len() && #[trigger] ids[c] != ids0[c] ==> (off + start <= c <= off + end || (c
            > off && left_changed(ids0, ids, c)))
}

/// Claiming the run `a..next`, which starts over the span, keeps the chain.
proof fn lemma_queue_chain(
    ids0: Seq<u32>,
    ids_b: Seq<u32>,
    ids2: Seq<u32>,
    land: Seq<bool>,
    id: u32,
    off: int,
    start: int,
    end: int,
    a: int,
    next: int,
)
    requires
        run_chain(ids0, ids_b, off, start, end),
        only_claimed(ids0, ids_b, land, id, -1),
        ids_b.len() == ids0.len(),
        ids2.len() == ids0.len(),
        0 <= off,
        off + next <= ids0.len(),
        0 <= start <= a <= end,
        a < next,
        forall|c: int|
            0 <= c < ids0.len() ==> #[trigger] ids2[c] == if off + a <= c < off + next {
                id
            } else {
                ids_b[c]
            },
        forall|c: int| off + a <= c < off + next ==> #[trigger] open_land(ids_b, land, id, c),
    ensures
        run_chain(ids0, ids2, off, start, end),
{
    reveal(left_changed);
    assert forall|c: int|
        0 <= c < ids0.len() && #[trigger] ids2[c] != ids0[c] implies (off + start <= c <= off + end
        || (c > off && left_changed(ids0, ids2, c))) by {
        if off + a < c < off + next {
            assert(0 <= c - 1 < ids0.len());
            assert(off + a <= c - 1 < off + next);
            assert(ids2[c - 1] == id);
            assert(open_land(ids_b, land, id, c - 1));
            if ids_b[c - 1] != ids0[c - 1] {
                assert(ids_b[c - 1] == id);
            }
            assert(ids2[c - 1] == id);
        } else if c == off + a {
        } else {
            assert(ids2[c] == ids_b[c]);
            if !(off + start <= c <= off + end) {
                assert(left_changed(ids0, ids_b, c));
                if !(off + a <= c - 1 < off + next) {
                    assert(ids2[c - 1] == ids_b[c - 1]);
                } else {
                    assert(open_land(ids_b, land, id, c - 1));
                    if ids_b[c - 1] != ids0[c - 1] {
                        assert(ids_b[c - 1] == id);
                    }
                }
            }
        }
    }
}

/// On the row starting at `line_offset`, claims for `id` every run of
/// unassigned land cells that meets the columns `start..=end`, and queues
/// each run as a pending span of `row`.
#[verifier::rlimit(100)]
#[verifier::spinoff_prover]
fn queue_neighbor_spans(
    segments: &mut Segments,
    land: &[bool],
    id: ContinentId,
    bounds_width: u32,
    start: u32,
    end: u32,
    line_offset: u32,
    row: u32,
    spans_todo: &mut Vec<Vec<u32>>,
)
    requires
        start <= end < bounds_width,
        line_offset + bounds_width <= old(segments).ids_view().len(),
        old(segments).ids_view().len() == land@.len(),
        old(segments).ids_view().len() <= u32::MAX,
        row < old(spans_todo).len(),
        spans_wf(old(spans_todo)[row as int]@, bounds_width),
    ensures
        final(segments).data_view() == old(segments).data_view(),
        only_claimed(old(segments).ids_view(), final(segments).ids_view(), land@, id, -1),
        count_of(final(segments).ids_view(), id) - count_of(old(segments).ids_view(), id)
            == span_total(final(spans_todo)[row as int]@) - span_total(
            old(spans_todo)[row as int]@,
        ),
        final(spans_todo).len() == old(spans_todo).len(),
        forall|l: int|
            0 <= l < final(spans_todo).len() && l != row ==> #[trigger] final(spans_todo)[l]
                == old(spans_todo)[l],
        spans_wf(final(spans_todo)[row as int]@, bounds_width),
        old(spans_todo)[row as int]@.len() <= final(spans_todo)[row as int]@.len(),
        final(spans_todo)[row as int]@.subrange(0, old(spans_todo)[row as int]@.len() as int)
            == old(spans_todo)[row as int]@,
        forall|c: int|
            0 <= c < old(segments).ids_view().len() && #[trigger] final(segments).ids_view()[c]
                != old(segments).ids_view()[c] ==> line_offset <= c < line_offset + bounds_width
                && in_spans(final(spans_todo)[row as int]@, c - line_offset),
        forall|c: int|
            line_offset + start <= c <= line_offset + end ==> !#[trigger] open_land(
                final(segments).ids_view(),
                land@,
                id,
                c,
            ),
        forall|j: int|
            0 <= j < bounds_width && #[trigger] in_spans(final(spans_todo)[row as int]@, j)
                ==> in_spans(old(spans_todo)[row as int]@, j) || final(segments).ids_view()[line_offset
                + j] == id,
        queued_fresh(
            old(segments).ids_view(),
            id,
            old(spans_todo)[row as int]@,
            final(spans_todo)[row as int]@,
            line_offset as int,
            bounds_width as int,
        ),
        run_chain(
            old(segments).ids_view(),
            final(segments).ids_view(),
            line_offset as int,
            start as int,
            end as int,
        ),
{
    let ghost ids0 = old(segments).ids_view();
    let ghost row0 = old(spans_todo)[row as int]@;
    let ghost off = line_offset as int;
    let mut j = start;
    while j <= end
        invariant
            start <= end < bounds_width,
            line_offset + bounds_width <= ids0.len(),
            ids0.len() == land@.len(),
            ids0.len() <= u32::MAX,
            off == line_offset,
            row < spans_todo.len(),
            spans_todo.len() == old(spans_todo).len(),
            forall|l: int|
                0 <= l < spans_todo.len() && l != row ==> #[trigger] spans_todo[l] == old(
                    spans_todo,
                )[l],
            spans_wf(spans_todo[row as int]@, bounds_width),
            segments.data_view() == old(segments).data_view(),
            only_claimed(ids0, segments.ids_view(), land@, id, -1),
            count_of(segments.ids_view(), id) - count_of(ids0, id) == span_total(
                spans_todo[row as int]@,
            ) - span_total(row0),
            start <= j <= bounds_width + 1,
            row0.len() <= spans_todo[row as int]@.len(),
            spans_todo[row as int]@.subrange(0, row0.len() as int) == row0,
            forall|c: int|
                0 <= c < ids0.len() && #[trigger] segments.ids_view()[c] != ids0[c] ==> off <= c
                    < off + bounds_width && in_spans(spans_todo[row as int]@, c - off),
            forall|c: int|
                off + start <= c < off + j && c <= off + end ==> !#[trigger] open_land(
                    segments.ids_view(),
                    land@,
                    id,
                    c,
                ),
            forall|jj: int|
                0 <= jj < bounds_width && #[trigger] in_spans(spans_todo[row as int]@, jj) ==> in_spans(
                    row0,
                    jj,
                ) || segments.ids_view()[off + jj] == id,
            queued_fresh(ids0, id, row0, spans_todo[row as int]@, off, j as int),
            run_chain(ids0, segments.ids_view(), off, start as int, end as int),
        ensures
            j > end,
            queued_fresh(ids0, id, row0, spans_todo[row as int]@, off, bounds_width as int),
        decreases bounds_width + 1 - j,
    {
        let index = (line_offset + j) as usize;
        if segments.id(index) > id && land[index] {
            let a = j;
            let ghost row_b = spans_todo[row as int]@;
            let ghost ids_b = segments.ids_view();
            let next = claim_run(segments, land, id, bounds_width, a, line_offset, row, spans_todo);
            proof {
                lemma_run_step(
                    ids0,
                    ids_b,
                    segments.ids_view(),
                    land@,
                    id,
                    row0,
                    row_b,
                    spans_todo[row as int]@,
                    off,
                    bounds_width as int,
                    start as int,
                    end as int,
                    a as int,
                    next as int,
                );
                lemma_queue_chain(
                    ids0,
                    ids_b,
                    segments.ids_view(),
                    land@,
                    id,
                    off,
                    start as int,
                    end as int,
                    a as int,
                    next as int,
                );
                lemma_queue_fresh(
                    ids0,
                    ids_b,
                    land@,
                    id,
                    row0,
                    row_b,
                    spans_todo[row as int]@,
                    off,
                    j as int,
                    a as int,
                    next as int,
                );
            }
            j = next;
        }
        if j == u32::MAX {
            proof {
                lemma_queued_rebound(
                    ids0,
                    id,
                    row0,
                    spans_todo[row as int]@,
                    off,
                    j as int,
                    bounds_width as int,
                );
            }
            break;
        }
        proof {
            lemma_queued_rebound(ids0, id, row0, spans_todo[row as int]@, off, j as int, j + 1);
        }
        j += 1;
    }
    proof {
        lemma_queued_rebound(
            ids0,
            id,
            row0,
            spans_todo[row as int]@,
            off,
            j as int,
            bounds_width as int,
        );
    }
}

/// The bookkeeping of `queue_neighbor_spans` after one run `a..next` of
/// its row (at `off`) was claimed and queued.
#[verifier::rlimit(50)]
#[verifier::spinoff_prover]
proof fn lemma_run_step(
    ids0: Seq<u32>,
    ids_b: Seq<u32>,
    ids2: Seq<u32>,
    land: Seq<bool>,
    id: u32,
    row0: Seq<u32>,
    row_b: Seq<u32>,
    row2: Seq<u32>,
    off: int,
    bw: int,
    start: int,
    end: int,
    a: int,
    next: int,
)
    requires
        0 <= off,
        off + bw <= ids0.len(),
        ids0.len() == land.len(),
        ids_b.len() == ids0.len(),
        ids2.len() == ids0.len(),
        0 <= start <= a <= end < bw,
        a < next <= bw,
        spans_wf(row_b, bw as u32),
        bw <= u32::MAX,
        forall|c: int|
            0 <= c < ids0.len() ==> #[trigger] ids2[c] == if off + a <= c < off + next {
                id
            } else {
                ids_b[c]
            },
        forall|c: int| off + a <= c < off + next ==> #[trigger] open_land(ids_b, land, id, c),
        next == bw || !open_land(ids2, land, id, off + next),
        row2 == row_b.push(a as u32).push((next - 1) as u32),
        only_claimed(ids0, ids_b, land, id, -1),
        row0.len() <= row_b.len(),
        row_b.subrange(0, row0.len() as int) == row0,
        forall|c: int|
            0 <= c < ids0.len() && #[trigger] ids_b[c] != ids0[c] ==> off <= c < off + bw
                && in_spans(row_b, c - off),
        forall|c: int|
            off + start <= c < off + a && c <= off + end ==> !#[trigger] open_land(
                ids_b,
                land,
                id,
                c,
            ),
        forall|jj: int|
            0 <= jj < bw && #[trigger] in_spans(row_b, jj) ==> in_spans(row0, jj) || ids_b[off
                + jj] == id,
    ensures
        only_claimed(ids0, ids2, land, id, -1),
        spans_wf(row2, bw as u32),
        row0.len() <= row2.len(),
        row2.subrange(0, row0.len() as int) == row0,
        forall|c: int|
            0 <= c < ids0.len() && #[trigger] ids2[c] != ids0[c] ==> off <= c < off + bw
                && in_spans(row2, c - off),
        forall|c: int|
            off + start <= c < off + next + 1 && c <= off + end ==> !#[trigger] open_land(
                ids2,
                land,
                id,
                c,
            ),
        forall|jj: int|
            0 <= jj < bw && #[trigger] in_spans(row2, jj) ==> in_spans(row0, jj) || ids2[off + jj]
                == id,
        span_total(row2) == span_total(row_b) + (next - a),
{
    lemma_span_total_push(row_b, a as u32, (next - 1) as u32, bw as u32);
    assert(row2.subrange(0, row0.len() as int) =~= row_b.subrange(0, row0.len() as int));
    assert(row2.subrange(0, row_b.len() as int) =~= row_b);
    assert forall|c: int| 0 <= c < ids2.len() && #[trigger] ids2[c] != ids0[c] implies ids2[c] == id
        && ids0[c] > id && (land[c] || c == -1) by {
        if ids2[c] != ids_b[c] {
            assert(open_land(ids_b, land, id, c));
            if ids_b[c] != ids0[c] {
                assert(ids_b[c] == id);
            }
        } else {
            assert(ids_b[c] != ids0[c]);
        }
    }
    assert forall|c: int|
        0 <= c < ids0.len() && #[trigger] ids2[c] != ids0[c] implies off <= c < off + bw && in_spans(
        row2,
        c - off,
    ) by {
        if off + a <= c < off + next {
            assert(row2[row_b.len() as int] == a && row2[row_b.len() as int + 1] == next - 1);
        } else {
            assert(ids_b[c] != ids0[c]);
            lemma_in_spans_prefix(row_b, row2, c - off);
        }
    }
    assert forall|c: int|
        off + start <= c < off + next + 1 && c <= off + end implies !#[trigger] open_land(
        ids2,
        land,
        id,
        c,
    ) by {
        if c < off + a {
            assert(!open_land(ids_b, land, id, c));
        }
    }
    assert forall|jj: int|
        0 <= jj < bw && #[trigger] in_spans(row2, jj) implies in_spans(row0, jj) || ids2[off + jj]
        == id by {
        let i = choose|i: int|
            #![trigger row2[i]]
            0 <= i && i + 1 < row2.len() && i % 2 == 0 && row2[i] <= jj <= row2[i + 1];
        if i < row_b.len() {
            assert(row2[i] == row_b[i] && row2[i + 1] == row_b[i + 1]);
            assert(in_spans(row_b, jj));
            if !in_spans(row0, jj) {
                assert(ids_b[off + jj] == id);
            }
        }
    }
}

impl Segments {
    /// The id of an older segment on a direct land neighbour of the origin
    /// cell, or `id` when there is none.
    fn calc_direction(
        &self,
        x: u32,
        y: u32,
        origin_index: usize,
        id: ContinentId,
        bounds_width: u32,
        bounds_height: u32,
        land: &[bool],
    ) -> (r: ContinentId)
        requires
            x < bounds_width,
            y < bounds_height,
            origin_index == y * bounds_width + x,
            bounds_width * bounds_height <= u32::MAX,
            self.ids_view().len() == bounds_width * bounds_height,
            land@.len() == bounds_width * bounds_height,
        ensures
            r == neighbor_segment(
                self.ids_view(),
                land@,
                x,
                y,
                origin_index as int,
                id,
                bounds_width,
                bounds_height,
            ),
    {
        proof {
            lemma_row_offset(y, bounds_width, bounds_height);
            lemma_row_step(y, bounds_width);
            if y + 1 < bounds_height {
                lemma_row_offset((y + 1) as u32, bounds_width, bounds_height);
            }
        }
        let width = bounds_width as usize;
        let can_go_left = x > 0 && land[origin_index - 1];
        let can_go_right = x < bounds_width - 1 && land[origin_index + 1];
        let can_go_up = y > 0 && land[origin_index - width];
        let can_go_down = y < bounds_height - 1 && land[origin_index + width];

        if can_go_left && self.id(origin_index - 1) < id {
            self.id(origin_index - 1)
        } else if can_go_right && self.id(origin_index + 1) < id {
            self.id(origin_index + 1)
        } else if can_go_up && self.id(origin_index - width) < id {
            self.id(origin_index - width)
        } else if can_go_down && self.id(origin_index + width) < id {
            self.id(origin_index + width)
        } else {
            id
        }
    }

    /// Finds or builds the segment of the cell `(x, y)` of a plate of
    /// `bounds_width` by `bounds_height` cells, where `land` tells which
    /// cells hold continental crust.
    ///
    /// A cell that already belongs to a segment keeps it. A cell next to an
    /// older segment joins that one. Otherwise a new segment is flood-filled
    /// from the cell by spans: it claims every unassigned land cell it
    /// reaches, row by row, wrapping around a side that spans the whole world.
    fn create_segment(
        &mut self,
        x: u32,
        y: u32,
        bounds_width: u32,
        bounds_height: u32,
        land: &[bool],
        dimensions: WorldDimension,
    ) -> (r: ContinentId)
        requires
            x < bounds_width,
            y < bounds_height,
            old(self).ids_view().len() == bounds_width * bounds_height,
            land@.len() == bounds_width * bounds_height,
            bounds_width * bounds_height <= u32::MAX,
            old(self).data_view().len() < u32::MAX,
            forall|k: int|
                0 <= k < old(self).data_view().len() ==> #[trigger] old(
                    self,
                ).data_view()[k].spec_area() < u32::MAX,
        ensures
            segment_lookup(
                old(self).ids_view(),
                old(self).data_view(),
                final(self).ids_view(),
                final(self).data_view(),
                land@,
                x,
                y,
                bounds_width,
                bounds_height,
                dimensions,
                r,
            ),
    {
        proof {
            lemma_row_offset(y, bounds_width, bounds_height);
        }
        let bw = bounds_width;
        let bh = bounds_height;
        let origin_index = (y * bw + x) as usize;
        let id = self.size();
        let ghost ids0 = old(self).ids_view();
        let ghost n_cells = ids0.len();

        if self.id(origin_index) < id {
            return self.id(origin_index);
        }

        let neighbor_id = self.calc_direction(x, y, origin_index, id, bw, bh, land);
        if neighbor_id < id {
            self.set_id(origin_index, neighbor_id);
            let data = self.data_mut(neighbor_id);
            data.inc_area();
            data.enlarge_to_contain(x, y);
            return neighbor_id;
        }

        let mut data = SegmentData::new(Rectangle::new(dimensions, x, x, y, y), 0);
        let mut spans_todo: Vec<Vec<u32>> = Vec::new();
        let mut spans_done: Vec<Vec<u32>> = Vec::new();
        let mut k: u32 = 0;
        while k < bh
            invariant
                k <= bh,
                spans_todo.len() == k,
                spans_done.len() == k,
                forall|l: int| 0 <= l < k ==> (#[trigger] spans_todo[l])@.len() == 0,
                forall|l: int| 0 <= l < k ==> (#[trigger] spans_done[l])@.len() == 0,
            decreases bh - k,
        {
            spans_todo.push(Vec::new());
            spans_done.push(Vec::new());
            k += 1;
        }
        proof {
            assert forall|l: int| 0 <= l < bh implies span_total(#[trigger] spans_todo[l]@) == 0 by {
            }
            lemma_spans_total_zero(spans_todo@, bh as nat);
            if self.ids_view()[origin_index as int] != id {
                lemma_count_update(self.ids_view(), origin_index as int, id);
                lemma_claim_one(
                    ids0,
                    self.ids_view(),
                    land@,
                    id,
                    origin_index as int,
                    origin_index as int,
                );
            } else {
                assert(self.ids_view().update(origin_index as int, id) =~= self.ids_view());
            }
            lemma_count_pos(self.ids_view().update(origin_index as int, id), origin_index as int, id);
        }
        self.set_id(origin_index, id);
        let ghost todo_before = spans_todo@;
        proof {
            lemma_shape_init(
                ids0,
                self.ids_view(),
                land@,
                id,
                origin_index as int,
                spans_todo@,
                spans_done@,
                bw,
                bh,
            );
        }
        spans_todo[y as usize].push(x);
        spans_todo[y as usize].push(x);
        proof {
            lemma_span_total_push(todo_before[y as int]@, x, x, bw);
            lemma_only_claimed_refl(self.ids_view(), land@, id);
            lemma_shape_step(
                ids0,
                self.ids_view(),
                self.ids_view(),
                land@,
                id,
                origin_index as int,
                todo_before,
                spans_todo@,
                spans_done@,
                bw,
                bh,
                y as int,
            );
        }
        proof {
            assert(spans_todo[y as int]@ =~= seq![x, x]);
            assert forall|l: int| 0 <= l < bh && l != y implies (#[trigger] spans_todo[l])@.len()
                == 0 by {
                assert(spans_todo[l] == todo_before[l]);
            }
            lemma_apart_init(spans_todo@, spans_done@, bh as int, x, y as int);
            lemma_fresh_init(ids0, id, origin_index as int, spans_todo@, bw as int, bh as int, x, y as int);
            lemma_reach_init(
                ids0,
                land@,
                id,
                origin_index as int,
                bw as int,
                bh as int,
                dimensions.spec_width() as int,
                dimensions.spec_height() as int,
            );
            lemma_box_init(
                ids0,
                self.ids_view(),
                id,
                origin_index as int,
                spans_done@,
                bw as int,
                bh as int,
                x as int,
                y as int,
            );
            lemma_cover_init(
                ids0,
                self.ids_view(),
                land@,
                id,
                origin_index as int,
                spans_todo@,
                spans_done@,
                bw as int,
                bh as int,
                dimensions.spec_width() as int,
                dimensions.spec_height() as int,
                x,
                y,
            );
        }
        self.fill_spans(
            bw,
            bh,
            land,
            dimensions,
            id,
            &mut data,
            &mut spans_todo,
            &mut spans_done,
            Ghost(ids0),
            Ghost(origin_index as int),
        );
        proof {
            lemma_shape_facts(
                ids0,
                self.ids_view(),
                land@,
                id,
                origin_index as int,
                spans_todo@,
                spans_done@,
                bw,
                bh,
            );
            lemma_cover_final(
                ids0,
                self.ids_view(),
                land@,
                id,
                origin_index as int,
                spans_todo@,
                spans_done@,
                bw as int,
                bh as int,
                dimensions.spec_width() as int,
                dimensions.spec_height() as int,
            );
        }

        proof {
            lemma_spans_total_zero(spans_todo@, bh as nat);
            lemma_taken_count(ids0, self.ids_view(), land@, id, origin_index as int);
            reveal(fill_reach);
            lemma_box_final(
                ids0,
                self.ids_view(),
                land@,
                id,
                origin_index as int,
                spans_todo@,
                spans_done@,
                bw as int,
                bh as int,
                dimensions.spec_width() as int,
                dimensions.spec_height() as int,
                data.spec_rectangle().spec_left() as int,
                data.spec_rectangle().spec_right() as int,
                data.spec_rectangle().spec_top() as int,
                data.spec_rectangle().spec_bottom() as int,
            );
        }
        self.data.push(data);
        proof {
            assert(self.data_view().subrange(0, old(self).data_view().len() as int) =~= old(
                self,
            ).data_view());
            lemma_shape_facts(
                ids0,
                self.ids_view(),
                land@,
                id,
                origin_index as int,
                spans_todo@,
                spans_done@,
                bw,
                bh,
            );
        }
        id
    }
}

impl Segments {
    /// Runs the span flood fill of `create_segment` until a full pass over
    /// the rows finds no pending span left.
    #[verifier::spinoff_prover]
    fn fill_spans(
        &mut self,
        bounds_width: u32,
        bounds_height: u32,
        land: &[bool],
        dimensions: WorldDimension,
        id: ContinentId,
        data: &mut SegmentData,
        spans_todo: &mut Vec<Vec<u32>>,
        spans_done: &mut Vec<Vec<u32>>,
        Ghost(ids0): Ghost<Seq<u32>>,
        Ghost(origin): Ghost<int>,
    )
        requires
            fill_reach(ids0, old(self).ids_view(), land@, id, origin, bounds_width as int, bounds_height as int, dimensions.spec_width() as int, dimensions.spec_height() as int),
            fill_fresh(ids0, id, origin, old(spans_todo)@, bounds_width as int, bounds_height as int, 0, 0, -1),
            data_box(ids0, old(self).ids_view(), id, origin, old(spans_done)@, bounds_width as int, bounds_height as int, *old(data)),
            fill_apart(old(spans_todo)@, old(spans_done)@, bounds_height as int, 0, 0, -1),
            fill_shape(
                ids0,
                old(self).ids_view(),
                land@,
                id,
                origin,
                old(spans_todo)@,
                old(spans_done)@,
                bounds_width,
                bounds_height,
            ),
            old(data).spec_area() + spans_total(old(spans_todo)@, bounds_height as nat) + fill_base(ids0, id, origin) == count_of(
                old(self).ids_view(),
                id,
            ),
            fill_cover(
                ids0,
                old(self).ids_view(),
                land@,
                id,
                origin,
                old(spans_todo)@,
                old(spans_done)@,
                bounds_width as int,
                bounds_height as int,
                dimensions.spec_width() as int,
                dimensions.spec_height() as int,
                0,
                0,
                -1,
            ),
        ensures
            fill_reach(ids0, final(self).ids_view(), land@, id, origin, bounds_width as int, bounds_height as int, dimensions.spec_width() as int, dimensions.spec_height() as int),
            fill_fresh(ids0, id, origin, final(spans_todo)@, bounds_width as int, bounds_height as int, 0, 0, -1),
            data_box(ids0, final(self).ids_view(), id, origin, final(spans_done)@, bounds_width as int, bounds_height as int, *final(data)),
            fill_apart(final(spans_todo)@, final(spans_done)@, bounds_height as int, 0, 0, -1),
            fill_shape(
                ids0,
                final(self).ids_view(),
                land@,
                id,
                origin,
                final(spans_todo)@,
                final(spans_done)@,
                bounds_width,
                bounds_height,
            ),
            final(data).spec_area() + spans_total(final(spans_todo)@, bounds_height as nat)
                + fill_base(ids0, id, origin) == count_of(final(self).ids_view(), id),
            fill_cover(
                ids0,
                final(self).ids_view(),
                land@,
                id,
                origin,
                final(spans_todo)@,
                final(spans_done)@,
                bounds_width as int,
                bounds_height as int,
                dimensions.spec_width() as int,
                dimensions.spec_height() as int,
                0,
                0,
                -1,
            ),
            forall|l: int| 0 <= l < bounds_height ==> (#[trigger] final(spans_todo)[l])@.len() == 0,
            final(self).data_view() == old(self).data_view(),
            final(data).spec_coll_count() == old(data).spec_coll_count(),
            final(data).spec_rectangle().spec_dimensions() == old(
                data,
            ).spec_rectangle().spec_dimensions(),
    {
        let bw = bounds_width;
        let bh = bounds_height;
        loop
            invariant
                fill_reach(ids0, self.ids_view(), land@, id, origin, bw as int, bh as int, dimensions.spec_width() as int, dimensions.spec_height() as int),
                fill_fresh(ids0, id, origin, spans_todo@, bw as int, bh as int, 0, 0, -1),
                data_box(ids0, self.ids_view(), id, origin, spans_done@, bw as int, bh as int, *data),
                fill_apart(spans_todo@, spans_done@, bh as int, 0, 0, -1),
                fill_shape(
                    ids0,
                    self.ids_view(),
                    land@,
                    id,
                    origin,
                    spans_todo@,
                    spans_done@,
                    bw,
                    bh,
                ),
                data.spec_area() + spans_total(spans_todo@, bh as nat) + fill_base(ids0, id, origin) == count_of(
                    self.ids_view(),
                    id,
                ),
                fill_cover(
                    ids0,
                    self.ids_view(),
                    land@,
                    id,
                    origin,
                    spans_todo@,
                    spans_done@,
                    bw as int,
                    bh as int,
                    dimensions.spec_width() as int,
                    dimensions.spec_height() as int,
                    0,
                    0,
                    -1,
                ),
                self.data_view() == old(self).data_view(),
                data.spec_coll_count() == old(data).spec_coll_count(),
                data.spec_rectangle().spec_dimensions() == old(
                    data,
                ).spec_rectangle().spec_dimensions(),
            ensures
                forall|l: int| 0 <= l < bh ==> (#[trigger] spans_todo[l])@.len() == 0,
            decreases fill_measure(self.ids_view(), id, spans_todo@, bh),
        {
            let ghost m0 = fill_measure(self.ids_view(), id, spans_todo@, bh);
            let mut lines_processed: u32 = 0;
            let mut line: u32 = 0;
            while line < bh
                invariant
                    fill_reach(ids0, self.ids_view(), land@, id, origin, bw as int, bh as int, dimensions.spec_width() as int, dimensions.spec_height() as int),
                    fill_fresh(ids0, id, origin, spans_todo@, bw as int, bh as int, 0, 0, -1),
                data_box(ids0, self.ids_view(), id, origin, spans_done@, bw as int, bh as int, *data),
                    fill_apart(spans_todo@, spans_done@, bh as int, 0, 0, -1),
                    fill_shape(
                        ids0,
                        self.ids_view(),
                        land@,
                        id,
                        origin,
                        spans_todo@,
                        spans_done@,
                        bw,
                        bh,
                    ),
                    data.spec_area() + spans_total(spans_todo@, bh as nat) + fill_base(ids0, id, origin) == count_of(
                        self.ids_view(),
                        id,
                    ),
                    self.data_view() == old(self).data_view(),
                    data.spec_coll_count() == old(data).spec_coll_count(),
                    data.spec_rectangle().spec_dimensions() == old(
                        data,
                    ).spec_rectangle().spec_dimensions(),
                    fill_cover(
                        ids0,
                        self.ids_view(),
                        land@,
                        id,
                        origin,
                        spans_todo@,
                        spans_done@,
                        bw as int,
                        bh as int,
                        dimensions.spec_width() as int,
                        dimensions.spec_height() as int,
                        0,
                        0,
                        -1,
                    ),
                    lines_processed == 0 ==> forall|l: int|
                        0 <= l < line ==> (#[trigger] spans_todo[l])@.len() == 0,
                    line <= bh,
                    lines_processed <= line,
                    fill_measure(self.ids_view(), id, spans_todo@, bh) + lines_processed <= m0,
                decreases bh - line,
            {
                let li = line as usize;
                proof {
                    lemma_shape_facts(
                        ids0,
                        self.ids_view(),
                        land@,
                        id,
                        origin,
                        spans_todo@,
                        spans_done@,
                        bw,
                        bh,
                    );
                }
                if !spans_todo[li].is_empty() {
                    let ghost todo_b = spans_todo@;
                    let ghost m_b = fill_measure(self.ids_view(), id, spans_todo@, bh);
                    let scanned = scan_spans(line, bw, spans_todo, spans_done);
                    proof {
                        lemma_apart_untrimmed(todo_b, spans_done@, bh as int, 0, 0, -1, line as int);
                        lemma_apart_pop(todo_b, spans_todo@, spans_done@, bh as int, line as int);
                        lemma_fresh_pop(ids0, id, origin, todo_b, spans_todo@, bw as int, bh as int, line as int);
                        let (cs, ce) = match scanned {
                            Some((a, b)) => (a as int, b as int),
                            None => (0int, -1int),
                        };
                        lemma_cover_scan(
                            ids0,
                            self.ids_view(),
                            land@,
                            id,
                            origin,
                            todo_b,
                            spans_todo@,
                            spans_done@,
                            bw as int,
                            bh as int,
                            dimensions.spec_width() as int,
                            dimensions.spec_height() as int,
                            line as int,
                            cs,
                            ce,
                        );
                        lemma_only_claimed_refl(self.ids_view(), land@, id);
                        lemma_shape_step(
                            ids0,
                            self.ids_view(),
                            self.ids_view(),
                            land@,
                            id,
                            origin,
                            todo_b,
                            spans_todo@,
                            spans_done@,
                            bw,
                            bh,
                            line as int,
                        );
                    }
                    match scanned {
                        Some((s, e)) => {
                            self.process_span(
                                s,
                                e,
                                line,
                                bw,
                                bh,
                                land,
                                dimensions,
                                id,
                                data,
                                spans_todo,
                                spans_done,
                                Ghost(ids0),
                                Ghost(origin),
                                Ghost(m_b),
                            );
                            lines_processed += 1;
                        },
                        None => {},
                    }
                }
                line += 1;
            }
            proof {
                lemma_shape_facts(
                    ids0,
                    self.ids_view(),
                    land@,
                    id,
                    origin,
                    spans_todo@,
                    spans_done@,
                    bw,
                    bh,
                );
            }
            if lines_processed == 0 {
                break;
            }
        }
    }
}

/// A claim made in the plate never opens a cell again.
proof fn lemma_not_open_persists(ids: Seq<u32>, ids2: Seq<u32>, land: Seq<bool>, id: u32, c: int)
    requires
        only_claimed(ids, ids2, land, id, -1),
        0 <= c < ids.len(),
        !open_land(ids, land, id, c),
    ensures
        !open_land(ids2, land, id, c),
{
    if ids2[c] != ids[c] {
        assert(ids2[c] == id);
    }
}

/// A claim made in the plate never opens a cell of the row `r` in columns
/// `s..=e` again.
proof fn lemma_not_open_row_persists(
    ids: Seq<u32>,
    ids2: Seq<u32>,
    land: Seq<bool>,
    id: u32,
    bw: int,
    bh: int,
    r: int,
    s: int,
    e: int,
)
    requires
        only_claimed(ids, ids2, land, id, -1),
        ids.len() == bw * bh,
        0 <= r < bh,
        0 <= s,
        e < bw,
        forall|c: int| r * bw + s <= c <= r * bw + e ==> !#[trigger] open_land(ids, land, id, c),
    ensures
        forall|c: int| r * bw + s <= c <= r * bw + e ==> !#[trigger] open_land(ids2, land, id, c),
{
    assert forall|c: int| r * bw + s <= c <= r * bw + e implies !#[trigger] open_land(
        ids2,
        land,
        id,
        c,
    ) by {
        lemma_cell_in_plate(r, c - r * bw, bw, bh);
        assert(!open_land(ids, land, id, c));
        lemma_not_open_persists(ids, ids2, land, id, c);
    }
}

/// The cover after `queue_neighbor_spans` claimed and queued runs of row `row`.
#[verifier::spinoff_prover]
proof fn lemma_cover_queue(
    ids0: Seq<u32>,
    ids: Seq<u32>,
    ids2: Seq<u32>,
    land: Seq<bool>,
    id: u32,
    origin: int,
    todo: Seq<Vec<u32>>,
    todo2: Seq<Vec<u32>>,
    done: Seq<Vec<u32>>,
    bw: int,
    bh: int,
    ww: int,
    wh: int,
    pl: int,
    ps: int,
    pe: int,
    row: int,
)
    requires
        fill_cover(ids0, ids, land, id, origin, todo, done, bw, bh, ww, wh, pl, ps, pe),
        only_claimed(ids, ids2, land, id, -1),
        ids.len() == bw * bh,
        bw > 0,
        bw <= u32::MAX,
        0 <= row < bh,
        todo.len() == bh,
        todo2.len() == bh,
        done.len() == bh,
        forall|l: int| 0 <= l < bh ==> done_wf(#[trigger] done[l]@, bw as u32),
        forall|l: int| 0 <= l < bh && l != row ==> #[trigger] todo2[l] == todo[l],
        todo[row]@.len() <= todo2[row]@.len(),
        todo2[row]@.subrange(0, todo[row]@.len() as int) == todo[row]@,
        forall|c: int|
            0 <= c < ids.len() && #[trigger] ids2[c] != ids[c] ==> row * bw <= c < row * bw + bw
                && in_spans(todo2[row]@, c - row * bw),
        forall|j: int|
            0 <= j < bw && #[trigger] in_spans(todo2[row]@, j) ==> in_spans(todo[row]@, j)
                || ids2[row * bw + j] == id,
        ps <= pe ==> 0 <= pl < bh && 0 <= ps && pe < bw,
    ensures
        fill_cover(ids0, ids2, land, id, origin, todo2, done, bw, bh, ww, wh, pl, ps, pe),
{
    assert forall|l: int, j: int| 0 <= l < bh && in_spans(todo[l]@, j) implies #[trigger] in_spans(
        todo2[l]@,
        j,
    ) by {
        if l == row {
            lemma_in_spans_prefix(todo[row]@, todo2[row]@, j);
        } else {
            assert(todo2[l] == todo[l]);
        }
    }
    assert forall|l: int, j: int|
        0 <= l < bh && 0 <= j < bw && #[trigger] in_spans(todo2[l]@, j) implies in_spans(
        todo[l]@,
        j,
    ) || ids2[l * bw + j] == id by {
        if l != row {
            assert(todo2[l] == todo[l]);
        }
    }
    assert forall|c: int|
        0 <= c < ids.len() && #[trigger] ids2[c] != ids[c] implies in_spans(todo2[c / bw]@, c % bw)
        || (c / bw == pl && ps <= c % bw <= pe) by {
        lemma_cell_join(row, c - row * bw, bw);
    }
    lemma_cover_step(
        ids0,
        ids,
        ids2,
        land,
        id,
        origin,
        todo,
        todo2,
        done,
        bw,
        bh,
        ww,
        wh,
        pl,
        ps,
        pe,
        ps,
        pe,
    );
}

/// The cover after one more cell `c` of the row `pl` right next to the
/// span `ps..=pe` being worked on was claimed and taken into that span.
#[verifier::spinoff_prover]
proof fn lemma_cover_widen(
    ids0: Seq<u32>,
    ids: Seq<u32>,
    land: Seq<bool>,
    id: u32,
    origin: int,
    todo: Seq<Vec<u32>>,
    done: Seq<Vec<u32>>,
    bw: int,
    bh: int,
    ww: int,
    wh: int,
    pl: int,
    ps: int,
    pe: int,
    ps2: int,
    pe2: int,
)
    requires
        fill_cover(ids0, ids, land, id, origin, todo, done, bw, bh, ww, wh, pl, ps, pe),
        ids.len() == bw * bh,
        bw > 0,
        bw <= u32::MAX,
        todo.len() == bh,
        done.len() == bh,
        forall|l: int| 0 <= l < bh ==> done_wf(#[trigger] done[l]@, bw as u32),
        0 <= pl < bh,
        0 <= ps2 <= ps <= pe <= pe2 < bw,
        (ps2 == ps - 1 && pe2 == pe) || (ps2 == ps && pe2 == pe + 1),
        open_land(ids, land, id, if ps2 < ps { pl * bw + ps2 } else { pl * bw + pe2 }),
    ensures
        fill_cover(
            ids0,
            ids.update(if ps2 < ps { pl * bw + ps2 } else { pl * bw + pe2 }, id),
            land,
            id,
            origin,
            todo,
            done,
            bw,
            bh,
            ww,
            wh,
            pl,
            ps2,
            pe2,
        ),
        only_claimed(
            ids,
            ids.update(if ps2 < ps { pl * bw + ps2 } else { pl * bw + pe2 }, id),
            land,
            id,
            -1,
        ),
{
    let k = if ps2 < ps {
        pl * bw + ps2
    } else {
        pl * bw + pe2
    };
    let ids2 = ids.update(k, id);
    lemma_cell_in_plate(pl, k - pl * bw, bw, bh);
    lemma_cell_join(pl, k - pl * bw, bw);
    lemma_only_claimed_refl(ids, land, id);
    lemma_claim_one(ids, ids, land, id, -1, k);
    lemma_cover_step(
        ids0,
        ids,
        ids2,
        land,
        id,
        origin,
        todo,
        todo,
        done,
        bw,
        bh,
        ww,
        wh,
        pl,
        ps,
        pe,
        ps2,
        pe2,
    );
}

/// The cover after the cell `c` (column `j` of row `pl`) was claimed and
/// queued on its own as a pending span of its row.
#[verifier::rlimit(50)]
#[verifier::spinoff_prover]
proof fn lemma_cover_wrap(
    ids0: Seq<u32>,
    ids: Seq<u32>,
    land: Seq<bool>,
    id: u32,
    origin: int,
    todo: Seq<Vec<u32>>,
    todo2: Seq<Vec<u32>>,
    done: Seq<Vec<u32>>,
    bw: int,
    bh: int,
    ww: int,
    wh: int,
    pl: int,
    ps: int,
    pe: int,
    j: u32,
)
    requires
        fill_cover(ids0, ids, land, id, origin, todo, done, bw, bh, ww, wh, pl, ps, pe),
        ids.len() == bw * bh,
        bw > 0,
        bw <= u32::MAX,
        todo.len() == bh,
        todo2.len() == bh,
        done.len() == bh,
        forall|l: int| 0 <= l < bh ==> done_wf(#[trigger] done[l]@, bw as u32),
        0 <= pl < bh,
        0 <= ps <= pe < bw,
        j < bw,
        spans_wf(todo[pl]@, bw as u32),
        open_land(ids, land, id, pl * bw + j),
        forall|l: int| 0 <= l < bh && l != pl ==> #[trigger] todo2[l] == todo[l],
        todo2[pl]@ == todo[pl]@.push(j).push(j),
    ensures
        fill_cover(ids0, ids.update(pl * bw + j, id), land, id, origin, todo2, done, bw, bh, ww, wh, pl, ps, pe),
        only_claimed(ids, ids.update(pl * bw + j, id), land, id, -1),
{
    let k = pl * bw + j;
    let ids2 = ids.update(k, id);
    let r = todo[pl]@;
    let r2 = todo2[pl]@;
    lemma_cell_in_plate(pl, j as int, bw, bh);
    lemma_cell_join(pl, j as int, bw);
    lemma_only_claimed_refl(ids, land, id);
    lemma_claim_one(ids, ids, land, id, -1, k);
    assert(r2.subrange(0, r.len() as int) =~= r);
    assert(r2[r.len() as int] == j && r2[r.len() as int + 1] == j);
    assert forall|c: int|
        0 <= c < ids.len() && #[trigger] ids2[c] != ids[c] implies pl * bw <= c < pl * bw + bw
        && in_spans(r2, c - pl * bw) by {
        assert(c == k);
    }
    assert forall|jj: int| 0 <= jj < bw && #[trigger] in_spans(r2, jj) implies in_spans(r, jj)
        || ids2[pl * bw + jj] == id by {
        let i = choose|i: int|
            #![trigger r2[i]]
            0 <= i && i + 1 < r2.len() && i % 2 == 0 && r2[i] <= jj <= r2[i + 1];
        if i < r.len() {
            assert(r2[i] == r[i] && r2[i + 1] == r[i + 1]);
        }
    }
    lemma_cover_queue(
        ids0,
        ids,
        ids2,
        land,
        id,
        origin,
        todo,
        todo2,
        done,
        bw,
        bh,
        ww,
        wh,
        pl,
        ps,
        pe,
        pl,
    );
}

impl Segments {
    /// Widens the span `start..=end` of `line` over the open land right next
    /// to it in its row, and answers the widened span.
    #[verifier::spinoff_prover]
    fn widen_span(
        &mut self,
        start: u32,
        end: u32,
        line: u32,
        bounds_width: u32,
        bounds_height: u32,
        land: &[bool],
        dimensions: WorldDimension,
        id: ContinentId,
        data: &SegmentData,
        spans_todo: &Vec<Vec<u32>>,
        spans_done: &Vec<Vec<u32>>,
        Ghost(ids0): Ghost<Seq<u32>>,
        Ghost(origin): Ghost<int>,
        Ghost(m_b): Ghost<int>,
    ) -> (r: (u32, u32))
        requires
            fill_reach(ids0, old(self).ids_view(), land@, id, origin, bounds_width as int, bounds_height as int, dimensions.spec_width() as int, dimensions.spec_height() as int),
            fill_fresh(ids0, id, origin, spans_todo@, bounds_width as int, bounds_height as int, line as int, start as int, end as int),
            fill_apart(
                spans_todo@,
                spans_done@,
                bounds_height as int,
                line as int,
                start as int,
                end as int,
            ),
            fill_shape(
                ids0,
                old(self).ids_view(),
                land@,
                id,
                origin,
                spans_todo@,
                spans_done@,
                bounds_width,
                bounds_height,
            ),
            data.spec_area() + spans_total(spans_todo@, bounds_height as nat) + end - start + 1
                + fill_base(ids0, id, origin) == count_of(old(self).ids_view(), id),
            fill_measure(old(self).ids_view(), id, spans_todo@, bounds_height) + end - start + 1
                <= m_b,
            start <= end < bounds_width,
            line < bounds_height,
            fill_cover(
                ids0,
                old(self).ids_view(),
                land@,
                id,
                origin,
                spans_todo@,
                spans_done@,
                bounds_width as int,
                bounds_height as int,
                dimensions.spec_width() as int,
                dimensions.spec_height() as int,
                line as int,
                start as int,
                end as int,
            ),
        ensures
            fill_reach(ids0, final(self).ids_view(), land@, id, origin, bounds_width as int, bounds_height as int, dimensions.spec_width() as int, dimensions.spec_height() as int),
            fill_fresh(ids0, id, origin, spans_todo@, bounds_width as int, bounds_height as int, line as int, r.0 as int, r.1 as int),
            fill_apart(
                spans_todo@,
                spans_done@,
                bounds_height as int,
                line as int,
                r.0 as int,
                r.1 as int,
            ),
            fill_shape(
                ids0,
                final(self).ids_view(),
                land@,
                id,
                origin,
                spans_todo@,
                spans_done@,
                bounds_width,
                bounds_height,
            ),
            data.spec_area() + spans_total(spans_todo@, bounds_height as nat) + r.1 - r.0 + 1
                + fill_base(ids0, id, origin) == count_of(final(self).ids_view(), id),
            fill_measure(final(self).ids_view(), id, spans_todo@, bounds_height) + r.1 - r.0 + 1
                <= m_b,
            r.0 <= start,
            end <= r.1 < bounds_width,
            fill_cover(
                ids0,
                final(self).ids_view(),
                land@,
                id,
                origin,
                spans_todo@,
                spans_done@,
                bounds_width as int,
                bounds_height as int,
                dimensions.spec_width() as int,
                dimensions.spec_height() as int,
                line as int,
                r.0 as int,
                r.1 as int,
            ),
            only_claimed(old(self).ids_view(), final(self).ids_view(), land@, id, -1),
            r.0 > 0 ==> !open_land(
                final(self).ids_view(),
                land@,
                id,
                line * bounds_width + r.0 - 1,
            ),
            r.1 < bounds_width - 1 ==> !open_land(
                final(self).ids_view(),
                land@,
                id,
                line * bounds_width + r.1 + 1,
            ),
            final(self).data_view() == old(self).data_view(),
    {
        let bw = bounds_width;
        let bh = bounds_height;
        let ghost ww = dimensions.spec_width() as int;
        let ghost wh = dimensions.spec_height() as int;
        let ghost ids_in = self.ids_view();
        let ghost start0 = start;
        let ghost end0 = end;
        let mut start = start;
        let mut end = end;
        proof {
            lemma_shape_facts(
                ids0,
                self.ids_view(),
                land@,
                id,
                origin,
                spans_todo@,
                spans_done@,
                bw,
                bh,
            );
            lemma_row_offset(line, bw, bh);
            lemma_only_claimed_refl(self.ids_view(), land@, id);
        }
        let line_here = line * bw;
        while start > 0 && self.id((line_here + start - 1) as usize) > id && land[(line_here + start
            - 1) as usize]
            invariant
                fill_reach(ids0, self.ids_view(), land@, id, origin, bw as int, bh as int, ww, wh),
                fill_fresh(ids0, id, origin, spans_todo@, bw as int, bh as int, line as int, start as int, end as int),
                fill_apart(spans_todo@, spans_done@, bh as int, line as int, start as int, end as int),
                fill_shape(
                    ids0,
                    self.ids_view(),
                    land@,
                    id,
                    origin,
                    spans_todo@,
                    spans_done@,
                    bw,
                    bh,
                ),
                fill_cover(
                    ids0,
                    self.ids_view(),
                    land@,
                    id,
                    origin,
                    spans_todo@,
                    spans_done@,
                    bw as int,
                    bh as int,
                    ww,
                    wh,
                    line as int,
                    start as int,
                    end as int,
                ),
                only_claimed(ids_in, self.ids_view(), land@, id, -1),
                start <= start0,
                end0 <= end,
                self.ids_view().len() == bw * bh,
                land@.len() == bw * bh,
                bw * bh <= u32::MAX,
                data.spec_area() + spans_total(spans_todo@, bh as nat) + end - start + 1
                    + fill_base(ids0, id, origin) == count_of(self.ids_view(), id),
                fill_measure(self.ids_view(), id, spans_todo@, bh) + end - start + 1 <= m_b,
                start <= end < bw,
                line < bh,
                line_here == line * bw,
                line_here + bw <= bw * bh,
                self.data_view() == old(self).data_view(),
            decreases start,
        {
            let ghost ids_b = self.ids_view();
            proof {
                lemma_shape_facts(
                    ids0,
                    ids_b,
                    land@,
                    id,
                    origin,
                    spans_todo@,
                    spans_done@,
                    bw,
                    bh,
                );
                lemma_shape_claim(
                    ids0,
                    ids_b,
                    land@,
                    id,
                    origin,
                    spans_todo@,
                    spans_done@,
                    bw,
                    bh,
                    (line_here + start - 1) as int,
                );
                lemma_cover_widen(
                    ids0,
                    ids_b,
                    land@,
                    id,
                    origin,
                    spans_todo@,
                    spans_done@,
                    bw as int,
                    bh as int,
                    ww,
                    wh,
                    line as int,
                    start as int,
                    end as int,
                    start - 1,
                    end as int,
                );
                lemma_apart_widen(
                    ids0,
                    ids_b,
                    land@,
                    id,
                    origin,
                    spans_todo@,
                    spans_done@,
                    bw as int,
                    bh as int,
                    ww,
                    wh,
                    line as int,
                    start as int,
                    end as int,
                    start - 1,
                    end as int,
                );
                lemma_fresh_widen(ids0, ids_b, land@, id, origin, spans_todo@, bw as int, bh as int, line as int, start as int, end as int, start - 1, end as int);
                lemma_current_claimed(ids0, ids_b, land@, id, origin, spans_todo@, spans_done@,
                    bw as int, bh as int, ww, wh, line as int, start as int, end as int,
                    (line_here + start) as int);
                lemma_cell_join(line as int, start as int, bw as int);
                lemma_reach_claim(ids0, ids_b, land@, id, origin, bw as int, bh as int, ww, wh,
                    (line_here + start) as int, (line_here + start - 1) as int);
                lemma_claim_chain(ids_in, ids_b, ids_b.update((line_here + start - 1) as int, id), land@, id, -1);
            }
            start -= 1;
            self.set_id((line_here + start) as usize, id);
        }
        let ghost left_ids = self.ids_view();
        while end < bw - 1 && self.id((line_here + end + 1) as usize) > id && land[(line_here + end
            + 1) as usize]
            invariant
                fill_reach(ids0, self.ids_view(), land@, id, origin, bw as int, bh as int, ww, wh),
                fill_fresh(ids0, id, origin, spans_todo@, bw as int, bh as int, line as int, start as int, end as int),
                fill_apart(spans_todo@, spans_done@, bh as int, line as int, start as int, end as int),
                fill_shape(
                    ids0,
                    self.ids_view(),
                    land@,
                    id,
                    origin,
                    spans_todo@,
                    spans_done@,
                    bw,
                    bh,
                ),
                fill_cover(
                    ids0,
                    self.ids_view(),
                    land@,
                    id,
                    origin,
                    spans_todo@,
                    spans_done@,
                    bw as int,
                    bh as int,
                    ww,
                    wh,
                    line as int,
                    start as int,
                    end as int,
                ),
                only_claimed(ids_in, self.ids_view(), land@, id, -1),
                only_claimed(left_ids, self.ids_view(), land@, id, -1),
                start > 0 ==> !open_land(left_ids, land@, id, line_here + start - 1),
                start <= start0,
                end0 <= end,
                self.ids_view().len() == bw * bh,
                land@.len() == bw * bh,
                bw * bh <= u32::MAX,
                data.spec_area() + spans_total(spans_todo@, bh as nat) + end - start + 1
                    + fill_base(ids0, id, origin) == count_of(self.ids_view(), id),
                fill_measure(self.ids_view(), id, spans_todo@, bh) + end - start + 1 <= m_b,
                start <= end < bw,
                line < bh,
                line_here == line * bw,
                line_here + bw <= bw * bh,
                self.data_view() == old(self).data_view(),
            decreases bw - end,
        {
            let ghost ids_b = self.ids_view();
            proof {
                lemma_shape_facts(
                    ids0,
                    ids_b,
                    land@,
                    id,
                    origin,
                    spans_todo@,
                    spans_done@,
                    bw,
                    bh,
                );
                lemma_shape_claim(
                    ids0,
                    ids_b,
                    land@,
                    id,
                    origin,
                    spans_todo@,
                    spans_done@,
                    bw,
                    bh,
                    (line_here + end + 1) as int,
                );
                lemma_cover_widen(
                    ids0,
                    ids_b,
                    land@,
                    id,
                    origin,
                    spans_todo@,
                    spans_done@,
                    bw as int,
                    bh as int,
                    ww,
                    wh,
                    line as int,
                    start as int,
                    end as int,
                    start as int,
                    end + 1,
                );
                lemma_apart_widen(
                    ids0,
                    ids_b,
                    land@,
                    id,
                    origin,
                    spans_todo@,
                    spans_done@,
                    bw as int,
                    bh as int,
                    ww,
                    wh,
                    line as int,
                    start as int,
                    end as int,
                    start as int,
                    end + 1,
                );
                lemma_fresh_widen(ids0, ids_b, land@, id, origin, spans_todo@, bw as int, bh as int, line as int, start as int, end as int, start as int, end + 1);
                lemma_current_claimed(ids0, ids_b, land@, id, origin, spans_todo@, spans_done@,
                    bw as int, bh as int, ww, wh, line as int, start as int, end as int,
                    (line_here + end) as int);
                lemma_cell_join(line as int, end as int, bw as int);
                lemma_reach_claim(ids0, ids_b, land@, id, origin, bw as int, bh as int, ww, wh,
                    (line_here + end) as int, (line_here + end + 1) as int);
                lemma_claim_chain(ids_in, ids_b, ids_b.update((line_here + end + 1) as int, id), land@, id, -1);
                lemma_claim_chain(left_ids, ids_b, ids_b.update((line_here + end + 1) as int, id), land@, id, -1);
            }
            end += 1;
            self.set_id((line_here + end) as usize, id);
        }
        proof {
            if start > 0 {
                lemma_not_open_persists(left_ids, self.ids_view(), land@, id, (line_here + start - 1) as int);
            }
        }
        (start, end)
    }

    /// Where the plate spans the whole world's width, a span reaching one
    /// side of the plate also claims and queues the open cell on the other
    /// side.
    #[verifier::rlimit(100)]
    #[verifier::spinoff_prover]
    fn wrap_span(
        &mut self,
        start: u32,
        end: u32,
        line: u32,
        bounds_width: u32,
        bounds_height: u32,
        land: &[bool],
        dimensions: WorldDimension,
        id: ContinentId,
        data: &SegmentData,
        spans_todo: &mut Vec<Vec<u32>>,
        spans_done: &Vec<Vec<u32>>,
        Ghost(ids0): Ghost<Seq<u32>>,
        Ghost(origin): Ghost<int>,
        Ghost(m_b): Ghost<int>,
    )
        requires
            fill_reach(ids0, old(self).ids_view(), land@, id, origin, bounds_width as int, bounds_height as int, dimensions.spec_width() as int, dimensions.spec_height() as int),
            fill_fresh(ids0, id, origin, old(spans_todo)@, bounds_width as int, bounds_height as int, line as int, start as int, end as int),
            fill_apart(
                old(spans_todo)@,
                spans_done@,
                bounds_height as int,
                line as int,
                start as int,
                end as int,
            ),
            fill_shape(
                ids0,
                old(self).ids_view(),
                land@,
                id,
                origin,
                old(spans_todo)@,
                spans_done@,
                bounds_width,
                bounds_height,
            ),
            data.spec_area() + spans_total(old(spans_todo)@, bounds_height as nat) + end - start + 1
                + fill_base(ids0, id, origin) == count_of(old(self).ids_view(), id),
            fill_measure(old(self).ids_view(), id, old(spans_todo)@, bounds_height) + end - start
                + 1 <= m_b,
            start <= end < bounds_width,
            line < bounds_height,
            fill_cover(
                ids0,
                old(self).ids_view(),
                land@,
                id,
                origin,
                old(spans_todo)@,
                spans_done@,
                bounds_width as int,
                bounds_height as int,
                dimensions.spec_width() as int,
                dimensions.spec_height() as int,
                line as int,
                start as int,
                end as int,
            ),
            start > 0 ==> !open_land(
                old(self).ids_view(),
                land@,
                id,
                line * bounds_width + start - 1,
            ),
            end < bounds_width - 1 ==> !open_land(
                old(self).ids_view(),
                land@,
                id,
                line * bounds_width + end + 1,
            ),
        ensures
            fill_reach(ids0, final(self).ids_view(), land@, id, origin, bounds_width as int, bounds_height as int, dimensions.spec_width() as int, dimensions.spec_height() as int),
            fill_fresh(ids0, id, origin, final(spans_todo)@, bounds_width as int, bounds_height as int, line as int, start as int, end as int),
            fill_apart(
                final(spans_todo)@,
                spans_done@,
                bounds_height as int,
                line as int,
                start as int,
                end as int,
            ),
            fill_shape(
                ids0,
                final(self).ids_view(),
                land@,
                id,
                origin,
                final(spans_todo)@,
                spans_done@,
                bounds_width,
                bounds_height,
            ),
            data.spec_area() + spans_total(final(spans_todo)@, bounds_height as nat) + end - start
                + 1 + fill_base(ids0, id, origin) == count_of(final(self).ids_view(), id),
            fill_measure(final(self).ids_view(), id, final(spans_todo)@, bounds_height) + end
                - start + 1 <= m_b,
            fill_cover(
                ids0,
                final(self).ids_view(),
                land@,
                id,
                origin,
                final(spans_todo)@,
                spans_done@,
                bounds_width as int,
                bounds_height as int,
                dimensions.spec_width() as int,
                dimensions.spec_height() as int,
                line as int,
                start as int,
                end as int,
            ),
            only_claimed(old(self).ids_view(), final(self).ids_view(), land@, id, -1),
            start > 0 ==> !open_land(
                final(self).ids_view(),
                land@,
                id,
                line * bounds_width + start - 1,
            ),
            start == 0 && bounds_width == dimensions.spec_width() ==> !open_land(
                final(self).ids_view(),
                land@,
                id,
                line * bounds_width + bounds_width - 1,
            ),
            end < bounds_width - 1 ==> !open_land(
                final(self).ids_view(),
                land@,
                id,
                line * bounds_width + end + 1,
            ),
            end == bounds_width - 1 && bounds_width == dimensions.spec_width() ==> !open_land(
                final(self).ids_view(),
                land@,
                id,
                line * bounds_width,
            ),
            final(self).data_view() == old(self).data_view(),
    {
        let bw = bounds_width;
        let bh = bounds_height;
        let ghost ww = dimensions.spec_width() as int;
        let ghost wh = dimensions.spec_height() as int;
        let ghost ids_in = self.ids_view();
        proof {
            lemma_shape_facts(
                ids0,
                self.ids_view(),
                land@,
                id,
                origin,
                spans_todo@,
                spans_done@,
                bw,
                bh,
            );
            lemma_row_offset(line, bw, bh);
            lemma_only_claimed_refl(self.ids_view(), land@, id);
        }
        let line_here = line * bw;
        if bw == dimensions.width() && start == 0 && self.id((line_here + bw - 1) as usize) > id
            && land[(line_here + bw - 1) as usize] {
            let ghost ids_b = self.ids_view();
            let ghost todo_b = spans_todo@;
            proof {
                lemma_shape_claim(
                    ids0,
                    ids_b,
                    land@,
                    id,
                    origin,
                    todo_b,
                    spans_done@,
                    bw,
                    bh,
                    (line_here + bw - 1) as int,
                );
                lemma_span_total_push(todo_b[line as int]@, (bw - 1) as u32, (bw - 1) as u32, bw);
                lemma_shape_facts(ids0, ids_b, land@, id, origin, todo_b, spans_done@, bw, bh);
                lemma_current_claimed(ids0, ids_b, land@, id, origin, todo_b, spans_done@,
                    bw as int, bh as int, ww, wh, line as int, start as int, end as int,
                    line_here as int);
                lemma_cell_join(line as int, 0, bw as int);
                lemma_reach_claim(ids0, ids_b, land@, id, origin, bw as int, bh as int, ww, wh,
                    line_here as int, (line_here + bw - 1) as int);
            }
            self.set_id((line_here + bw - 1) as usize, id);
            spans_todo[line as usize].push(bw - 1);
            spans_todo[line as usize].push(bw - 1);
            proof {
                lemma_only_claimed_refl(self.ids_view(), land@, id);
                lemma_shape_step(
                    ids0,
                    self.ids_view(),
                    self.ids_view(),
                    land@,
                    id,
                    origin,
                    todo_b,
                    spans_todo@,
                    spans_done@,
                    bw,
                    bh,
                    line as int,
                );
                lemma_cover_wrap(
                    ids0,
                    ids_b,
                    land@,
                    id,
                    origin,
                    todo_b,
                    spans_todo@,
                    spans_done@,
                    bw as int,
                    bh as int,
                    ww,
                    wh,
                    line as int,
                    start as int,
                    end as int,
                    (bw - 1) as u32,
                );
                lemma_apart_wrap(
                    ids0,
                    ids_b,
                    land@,
                    id,
                    origin,
                    todo_b,
                    spans_todo@,
                    spans_done@,
                    bw as int,
                    bh as int,
                    ww,
                    wh,
                    line as int,
                    start as int,
                    end as int,
                    (bw - 1) as u32,
                );
                lemma_fresh_extend(ids0, ids_b, land@, id, origin, todo_b, spans_todo@, bw as int, bh as int, line as int, start as int, end as int, line as int);
                if end < bw - 1 {
                    lemma_not_open_persists(ids_b, self.ids_view(), land@, id, (line_here + end + 1) as int);
                }
            }
        }
        let ghost ids_m = self.ids_view();
        if bw == dimensions.width() && end == bw - 1 && self.id(line_here as usize) > id
            && land[line_here as usize] {
            let ghost ids_b = self.ids_view();
            let ghost todo_b = spans_todo@;
            proof {
                lemma_shape_facts(ids0, ids_b, land@, id, origin, todo_b, spans_done@, bw, bh);
                lemma_shape_claim(
                    ids0,
                    ids_b,
                    land@,
                    id,
                    origin,
                    todo_b,
                    spans_done@,
                    bw,
                    bh,
                    line_here as int,
                );
                lemma_span_total_push(todo_b[line as int]@, 0, 0, bw);
                lemma_current_claimed(ids0, ids_b, land@, id, origin, todo_b, spans_done@,
                    bw as int, bh as int, ww, wh, line as int, start as int, end as int,
                    (line_here + bw - 1) as int);
                lemma_cell_join(line as int, (bw - 1) as int, bw as int);
                lemma_reach_claim(ids0, ids_b, land@, id, origin, bw as int, bh as int, ww, wh,
                    (line_here + bw - 1) as int, line_here as int);
            }
            self.set_id(line_here as usize, id);
            spans_todo[line as usize].push(0);
            spans_todo[line as usize].push(0);
            proof {
                lemma_only_claimed_refl(self.ids_view(), land@, id);
                lemma_shape_step(
                    ids0,
                    self.ids_view(),
                    self.ids_view(),
                    land@,
                    id,
                    origin,
                    todo_b,
                    spans_todo@,
                    spans_done@,
                    bw,
                    bh,
                    line as int,
                );
                lemma_cover_wrap(
                    ids0,
                    ids_b,
                    land@,
                    id,
                    origin,
                    todo_b,
                    spans_todo@,
                    spans_done@,
                    bw as int,
                    bh as int,
                    ww,
                    wh,
                    line as int,
                    start as int,
                    end as int,
                    0,
                );
                lemma_apart_wrap(
                    ids0,
                    ids_b,
                    land@,
                    id,
                    origin,
                    todo_b,
                    spans_todo@,
                    spans_done@,
                    bw as int,
                    bh as int,
                    ww,
                    wh,
                    line as int,
                    start as int,
                    end as int,
                    0,
                );
                lemma_fresh_extend(ids0, ids_b, land@, id, origin, todo_b, spans_todo@, bw as int, bh as int, line as int, start as int, end as int, line as int);
                lemma_claim_chain(ids_in, ids_b, self.ids_view(), land@, id, -1);
                if start > 0 {
                    lemma_not_open_persists(ids_b, self.ids_view(), land@, id, (line_here + start - 1) as int);
                }
                if start == 0 && bw == ww {
                    lemma_not_open_persists(ids_b, self.ids_view(), land@, id, (line_here + bw - 1) as int);
                }
            }
        }
    }

    /// Claims and queues the open land above and below the span
    /// `start..=end` of `line`, in the rows the fill steps to.
    #[verifier::rlimit(100)]
    #[verifier::spinoff_prover]
    fn queue_rows(
        &mut self,
        start: u32,
        end: u32,
        line: u32,
        bounds_width: u32,
        bounds_height: u32,
        land: &[bool],
        dimensions: WorldDimension,
        id: ContinentId,
        spans_todo: &mut Vec<Vec<u32>>,
        spans_done: &Vec<Vec<u32>>,
        Ghost(ids0): Ghost<Seq<u32>>,
        Ghost(origin): Ghost<int>,
        Ghost(m_b): Ghost<int>,
        Ghost(area): Ghost<int>,
    )
        requires
            fill_reach(ids0, old(self).ids_view(), land@, id, origin, bounds_width as int, bounds_height as int, dimensions.spec_width() as int, dimensions.spec_height() as int),
            fill_fresh(ids0, id, origin, old(spans_todo)@, bounds_width as int, bounds_height as int, line as int, start as int, end as int),
            fill_apart(
                old(spans_todo)@,
                spans_done@,
                bounds_height as int,
                line as int,
                start as int,
                end as int,
            ),
            fill_shape(
                ids0,
                old(self).ids_view(),
                land@,
                id,
                origin,
                old(spans_todo)@,
                spans_done@,
                bounds_width,
                bounds_height,
            ),
            area + spans_total(old(spans_todo)@, bounds_height as nat) + fill_base(ids0, id, origin) == count_of(
                old(self).ids_view(),
                id,
            ),
            fill_measure(old(self).ids_view(), id, old(spans_todo)@, bounds_height) + 1 <= m_b,
            start <= end < bounds_width,
            line < bounds_height,
            fill_cover(
                ids0,
                old(self).ids_view(),
                land@,
                id,
                origin,
                old(spans_todo)@,
                spans_done@,
                bounds_width as int,
                bounds_height as int,
                dimensions.spec_width() as int,
                dimensions.spec_height() as int,
                line as int,
                start as int,
                end as int,
            ),
            start > 0 ==> !open_land(
                old(self).ids_view(),
                land@,
                id,
                line * bounds_width + start - 1,
            ),
            start == 0 && bounds_width == dimensions.spec_width() ==> !open_land(
                old(self).ids_view(),
                land@,
                id,
                line * bounds_width + bounds_width - 1,
            ),
            end < bounds_width - 1 ==> !open_land(
                old(self).ids_view(),
                land@,
                id,
                line * bounds_width + end + 1,
            ),
            end == bounds_width - 1 && bounds_width == dimensions.spec_width() ==> !open_land(
                old(self).ids_view(),
                land@,
                id,
                line * bounds_width,
            ),
        ensures
            fill_reach(ids0, final(self).ids_view(), land@, id, origin, bounds_width as int, bounds_height as int, dimensions.spec_width() as int, dimensions.spec_height() as int),
            only_claimed(old(self).ids_view(), final(self).ids_view(), land@, id, -1),
            fill_fresh(ids0, id, origin, final(spans_todo)@, bounds_width as int, bounds_height as int, line as int, start as int, end as int),
            fill_apart(
                final(spans_todo)@,
                spans_done@,
                bounds_height as int,
                line as int,
                start as int,
                end as int,
            ),
            fill_shape(
                ids0,
                final(self).ids_view(),
                land@,
                id,
                origin,
                final(spans_todo)@,
                spans_done@,
                bounds_width,
                bounds_height,
            ),
            area + spans_total(final(spans_todo)@, bounds_height as nat) + fill_base(ids0, id, origin) == count_of(
                final(self).ids_view(),
                id,
            ),
            fill_measure(final(self).ids_view(), id, final(spans_todo)@, bounds_height) + 1 <= m_b,
            fill_cover(
                ids0,
                final(self).ids_view(),
                land@,
                id,
                origin,
                final(spans_todo)@,
                spans_done@,
                bounds_width as int,
                bounds_height as int,
                dimensions.spec_width() as int,
                dimensions.spec_height() as int,
                line as int,
                start as int,
                end as int,
            ),
            start > 0 ==> !open_land(
                final(self).ids_view(),
                land@,
                id,
                line * bounds_width + start - 1,
            ),
            start == 0 && bounds_width == dimensions.spec_width() ==> !open_land(
                final(self).ids_view(),
                land@,
                id,
                line * bounds_width + bounds_width - 1,
            ),
            end < bounds_width - 1 ==> !open_land(
                final(self).ids_view(),
                land@,
                id,
                line * bounds_width + end + 1,
            ),
            end == bounds_width - 1 && bounds_width == dimensions.spec_width() ==> !open_land(
                final(self).ids_view(),
                land@,
                id,
                line * bounds_width,
            ),
            (line > 0 || bounds_height == dimensions.spec_height()) ==> forall|c: int|
                row_up(line as int, bounds_height as int) * bounds_width + start <= c <= row_up(
                    line as int,
                    bounds_height as int,
                ) * bounds_width + end ==> !#[trigger] open_land(
                    final(self).ids_view(),
                    land@,
                    id,
                    c,
                ),
            (line < bounds_height - 1 || bounds_height == dimensions.spec_height()) ==> forall|c: int|
                row_down(line as int, bounds_height as int) * bounds_width + start <= c <= row_down(
                    line as int,
                    bounds_height as int,
                ) * bounds_width + end ==> !#[trigger] open_land(
                    final(self).ids_view(),
                    land@,
                    id,
                    c,
                ),
            final(self).data_view() == old(self).data_view(),
    {
        let bw = bounds_width;
        let bh = bounds_height;
        let ghost ww = dimensions.spec_width() as int;
        let ghost wh = dimensions.spec_height() as int;
        let ghost ids_x = self.ids_view();
        proof {
            lemma_shape_facts(
                ids0,
                self.ids_view(),
                land@,
                id,
                origin,
                spans_todo@,
                spans_done@,
                bw,
                bh,
            );
            lemma_only_claimed_refl(ids_x, land@, id);
        }
        let row_above = if line > 0 {
            line - 1
        } else {
            bh - 1
        };
        let row_below = if line < bh - 1 {
            line + 1
        } else {
            0
        };
        proof {
            lemma_row_offset(row_above, bw, bh);
            lemma_row_offset(row_below, bw, bh);
        }
        let line_above = row_above * bw;
        let line_below = row_below * bw;
        if line > 0 || bh == dimensions.height() {
            let ghost ids_b = self.ids_view();
            let ghost todo_b = spans_todo@;
            proof {
                lemma_shape_facts(ids0, ids_b, land@, id, origin, todo_b, spans_done@, bw, bh);
            }
            queue_neighbor_spans(self, land, id, bw, start, end, line_above, row_above, spans_todo);
            proof {
                lemma_shape_step(
                    ids0,
                    ids_b,
                    self.ids_view(),
                    land@,
                    id,
                    origin,
                    todo_b,
                    spans_todo@,
                    spans_done@,
                    bw,
                    bh,
                    row_above as int,
                );
                lemma_cover_queue(
                    ids0,
                    ids_b,
                    self.ids_view(),
                    land@,
                    id,
                    origin,
                    todo_b,
                    spans_todo@,
                    spans_done@,
                    bw as int,
                    bh as int,
                    ww,
                    wh,
                    line as int,
                    start as int,
                    end as int,
                    row_above as int,
                );
                lemma_apart_extend(
                    ids0,
                    ids_b,
                    land@,
                    id,
                    origin,
                    todo_b,
                    spans_todo@,
                    spans_done@,
                    bw as int,
                    bh as int,
                    ww,
                    wh,
                    line as int,
                    start as int,
                    end as int,
                    row_above as int,
                );
                lemma_fresh_extend(ids0, ids_b, land@, id, origin, todo_b, spans_todo@, bw as int, bh as int, line as int, start as int, end as int, row_above as int);
                lemma_reach_after_queue(ids0, ids_b, self.ids_view(), land@, id, origin, todo_b,
                    spans_done@, bw as int, bh as int, ww, wh, line as int, start as int, end as int,
                    row_above as int);
                lemma_claim_chain(ids_x, ids_b, self.ids_view(), land@, id, -1);
            }
        }
        let ghost ids_u = self.ids_view();
        if line < bh - 1 || bh == dimensions.height() {
            let ghost ids_b = self.ids_view();
            let ghost todo_b = spans_todo@;
            proof {
                lemma_shape_facts(ids0, ids_b, land@, id, origin, todo_b, spans_done@, bw, bh);
            }
            queue_neighbor_spans(self, land, id, bw, start, end, line_below, row_below, spans_todo);
            proof {
                lemma_shape_step(
                    ids0,
                    ids_b,
                    self.ids_view(),
                    land@,
                    id,
                    origin,
                    todo_b,
                    spans_todo@,
                    spans_done@,
                    bw,
                    bh,
                    row_below as int,
                );
                lemma_cover_queue(
                    ids0,
                    ids_b,
                    self.ids_view(),
                    land@,
                    id,
                    origin,
                    todo_b,
                    spans_todo@,
                    spans_done@,
                    bw as int,
                    bh as int,
                    ww,
                    wh,
                    line as int,
                    start as int,
                    end as int,
                    row_below as int,
                );
                lemma_apart_extend(
                    ids0,
                    ids_b,
                    land@,
                    id,
                    origin,
                    todo_b,
                    spans_todo@,
                    spans_done@,
                    bw as int,
                    bh as int,
                    ww,
                    wh,
                    line as int,
                    start as int,
                    end as int,
                    row_below as int,
                );
                lemma_fresh_extend(ids0, ids_b, land@, id, origin, todo_b, spans_todo@, bw as int, bh as int, line as int, start as int, end as int, row_below as int);
                lemma_reach_after_queue(ids0, ids_b, self.ids_view(), land@, id, origin, todo_b,
                    spans_done@, bw as int, bh as int, ww, wh, line as int, start as int, end as int,
                    row_below as int);
                lemma_claim_chain(ids_x, ids_b, self.ids_view(), land@, id, -1);
                if line > 0 || bh == wh {
                    lemma_not_open_row_persists(
                        ids_b,
                        self.ids_view(),
                        land@,
                        id,
                        bw as int,
                        bh as int,
                        row_above as int,
                        start as int,
                        end as int,
                    );
                }
            }
        }

        let ghost ids_f = self.ids_view();
        proof {
            let lh = (line * bw) as int;
            lemma_row_offset(line, bw, bh);
            if start > 0 {
                lemma_not_open_persists(ids_x, ids_f, land@, id, lh + start - 1);
            }
            if start == 0 && bw == ww {
                lemma_not_open_persists(ids_x, ids_f, land@, id, lh + bw - 1);
            }
            if end < bw - 1 {
                lemma_not_open_persists(ids_x, ids_f, land@, id, lh + end + 1);
            }
            if end == bw - 1 && bw == ww {
                lemma_not_open_persists(ids_x, ids_f, land@, id, lh);
            }
            assert(row_up(line as int, bh as int) == row_above);
            assert(row_down(line as int, bh as int) == row_below);
        }
    }

    /// One step of the span flood fill of `create_segment`: widens the span
    /// `start..=end` of `line` over adjacent unassigned land, wraps it around
    /// a side that spans the whole world, adds it to the segment and queues
    /// the unassigned land runs above and below it.
    #[verifier::rlimit(100)]
    #[verifier::spinoff_prover]
    fn process_span(
        &mut self,
        start: u32,
        end: u32,
        line: u32,
        bounds_width: u32,
        bounds_height: u32,
        land: &[bool],
        dimensions: WorldDimension,
        id: ContinentId,
        data: &mut SegmentData,
        spans_todo: &mut Vec<Vec<u32>>,
        spans_done: &mut Vec<Vec<u32>>,
        Ghost(ids0): Ghost<Seq<u32>>,
        Ghost(origin): Ghost<int>,
        Ghost(m_b): Ghost<int>,
    )
        requires
            fill_reach(ids0, old(self).ids_view(), land@, id, origin, bounds_width as int, bounds_height as int, dimensions.spec_width() as int, dimensions.spec_height() as int),
            fill_fresh(ids0, id, origin, old(spans_todo)@, bounds_width as int, bounds_height as int, line as int, start as int, end as int),
            data_box(ids0, old(self).ids_view(), id, origin, old(spans_done)@, bounds_width as int, bounds_height as int, *old(data)),
            fill_apart(
                old(spans_todo)@,
                old(spans_done)@,
                bounds_height as int,
                line as int,
                start as int,
                end as int,
            ),
            fill_shape(
                ids0,
                old(self).ids_view(),
                land@,
                id,
                origin,
                old(spans_todo)@,
                old(spans_done)@,
                bounds_width,
                bounds_height,
            ),
            old(data).spec_area() + spans_total(old(spans_todo)@, bounds_height as nat) + end
                - start + 1 + fill_base(ids0, id, origin) == count_of(old(self).ids_view(), id),
            fill_measure(old(self).ids_view(), id, old(spans_todo)@, bounds_height) + end - start
                + 1 <= m_b,
            start <= end < bounds_width,
            line < bounds_height,
            fill_cover(
                ids0,
                old(self).ids_view(),
                land@,
                id,
                origin,
                old(spans_todo)@,
                old(spans_done)@,
                bounds_width as int,
                bounds_height as int,
                dimensions.spec_width() as int,
                dimensions.spec_height() as int,
                line as int,
                start as int,
                end as int,
            ),
        ensures
            fill_reach(ids0, final(self).ids_view(), land@, id, origin, bounds_width as int, bounds_height as int, dimensions.spec_width() as int, dimensions.spec_height() as int),
            fill_fresh(ids0, id, origin, final(spans_todo)@, bounds_width as int, bounds_height as int, 0, 0, -1),
            data_box(ids0, final(self).ids_view(), id, origin, final(spans_done)@, bounds_width as int, bounds_height as int, *final(data)),
            fill_apart(final(spans_todo)@, final(spans_done)@, bounds_height as int, 0, 0, -1),
            fill_shape(
                ids0,
                final(self).ids_view(),
                land@,
                id,
                origin,
                final(spans_todo)@,
                final(spans_done)@,
                bounds_width,
                bounds_height,
            ),
            final(data).spec_area() + spans_total(final(spans_todo)@, bounds_height as nat)
                + fill_base(ids0, id, origin) == count_of(final(self).ids_view(), id),
            fill_measure(final(self).ids_view(), id, final(spans_todo)@, bounds_height) + 1 <= m_b,
            fill_cover(
                ids0,
                final(self).ids_view(),
                land@,
                id,
                origin,
                final(spans_todo)@,
                final(spans_done)@,
                bounds_width as int,
                bounds_height as int,
                dimensions.spec_width() as int,
                dimensions.spec_height() as int,
                0,
                0,
                -1,
            ),
            final(self).data_view() == old(self).data_view(),
            final(data).spec_coll_count() == old(data).spec_coll_count(),
            final(data).spec_rectangle().spec_dimensions() == old(
                data,
            ).spec_rectangle().spec_dimensions(),
    {
        let bw = bounds_width;
        let bh = bounds_height;
        let ghost ww = dimensions.spec_width() as int;
        let ghost wh = dimensions.spec_height() as int;
        proof {
            lemma_shape_facts(
                ids0,
                self.ids_view(),
                land@,
                id,
                origin,
                spans_todo@,
                spans_done@,
                bw,
                bh,
            );
            lemma_row_offset(line, bw, bh);
        }
        let ghost ids_s = self.ids_view();
        let ghost rect0 = data.spec_rectangle();
        let (start, end) = self.widen_span(
            start,
            end,
            line,
            bw,
            bh,
            land,
            dimensions,
            id,
            data,
            spans_todo,
            spans_done,
            Ghost(ids0),
            Ghost(origin),
            Ghost(m_b),
        );
        let ghost ids_w = self.ids_view();
        self.wrap_span(
            start,
            end,
            line,
            bw,
            bh,
            land,
            dimensions,
            id,
            data,
            spans_todo,
            spans_done,
            Ghost(ids0),
            Ghost(origin),
            Ghost(m_b),
        );
        let ghost ids_x = self.ids_view();

        proof {
            lemma_shape_facts(
                ids0,
                self.ids_view(),
                land@,
                id,
                origin,
                spans_todo@,
                spans_done@,
                bw,
                bh,
            );
        }
        proof {
            lemma_fill_base_nonneg(ids0, id, origin);
            lemma_count_le_len(self.ids_view(), id);
        }
        data.inc_area_by(1 + end - start);
        if line < data.top() {
            data.set_top(line);
        }
        if line > data.bottom() {
            data.set_bottom(line);
        }
        if start < data.left() {
            data.set_left(start);
        }
        if end > data.right() {
            data.set_right(end);
        }

        self.queue_rows(
            start,
            end,
            line,
            bw,
            bh,
            land,
            dimensions,
            id,
            spans_todo,
            spans_done,
            Ghost(ids0),
            Ghost(origin),
            Ghost(m_b),
            Ghost(data.spec_area() as int),
        );

        let ghost done_b = spans_done@;
        let ghost ids_f = self.ids_view();
        proof {
            lemma_shape_facts(
                ids0,
                self.ids_view(),
                land@,
                id,
                origin,
                spans_todo@,
                done_b,
                bw,
                bh,
            );
        }
        proof {
            lemma_claim_chain(ids_s, ids_w, ids_x, land@, id, -1);
            lemma_claim_chain(ids_s, ids_x, ids_f, land@, id, -1);
            lemma_box_persists(
                ids0,
                ids_s,
                ids_f,
                land@,
                id,
                origin,
                done_b,
                bw as int,
                bh as int,
                rect0.spec_left() as int,
                rect0.spec_right() as int,
                rect0.spec_top() as int,
                rect0.spec_bottom() as int,
            );
            lemma_row_offset(line, bw, bh);
            lemma_current_claimed(ids0, ids_f, land@, id, origin, spans_todo@, done_b, bw as int,
                bh as int, ww, wh, line as int, start as int, end as int, line * bw + start);
            lemma_current_claimed(ids0, ids_f, land@, id, origin, spans_todo@, done_b, bw as int,
                bh as int, ww, wh, line as int, start as int, end as int, line * bw + end);
        }
        spans_done[line as usize].push(start);
        spans_done[line as usize].push(end);
        proof {
            lemma_box_done(
                ids0,
                ids_f,
                id,
                origin,
                done_b,
                spans_done@,
                bw as int,
                bh as int,
                rect0.spec_left() as int,
                rect0.spec_right() as int,
                rect0.spec_top() as int,
                rect0.spec_bottom() as int,
                line as int,
                start,
                end,
            );
            lemma_fresh_done(ids0, id, origin, spans_todo@, bw as int, bh as int, line as int,
                start as int, end as int);
            lemma_shape_done(
                ids0,
                self.ids_view(),
                land@,
                id,
                origin,
                spans_todo@,
                done_b,
                spans_done@,
                bw,
                bh,
                line as int,
                start,
                end,
            );
            lemma_apart_done(spans_todo@, done_b, spans_done@, bh as int, line as int, start, end);
            lemma_cover_done(
                ids0,
                self.ids_view(),
                land@,
                id,
                origin,
                spans_todo@,
                done_b,
                spans_done@,
                bw as int,
                bh as int,
                ww,
                wh,
                line as int,
                start,
                end,
            );
        }
    }
}

} // verus!
