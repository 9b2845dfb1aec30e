use vstd::prelude::*;
use vstd::string::*;
use crate::text::{decimal, length_mismatch_message, length_mismatch_text, push_decimal};

verus! {

/// Kind of crust of a map cell.
#[derive(Debug, Clone, Copy, PartialEq, Eq, Structural)]
pub enum CrustKind {
    Oceanic,
    Transitional,
    Continental,
}

/// Kind of boundary between two plates at a map cell.
#[derive(Debug, Clone, Copy, PartialEq, Eq, Structural)]
pub enum BoundaryKind {
    NoBoundary,
    OceanicBoundary,
    DivergentBoundary,
    TransformBoundary,
    SubductionCandidate,
    ContinentalCollision,
}

/// How two neighbouring plates move relative to each other.
#[derive(Debug, Clone, Copy, PartialEq, Eq, Structural)]
pub enum MotionRelation {
    Convergent,
    Divergent,
    Transform,
    Still,
}

/// Why a geology analysis was refused.
#[derive(Debug, Clone, PartialEq, Eq)]
pub struct GeologyError {
    message: String,
}

impl GeologyError {
    pub closed spec fn message_view(self) -> Seq<char> {
        self.message@
    }

    /// The error's message.
    pub fn to_string(&self) -> (s: String)
        ensures
            s@ == self.message_view(),
    {
        self.message.clone()
    }
}

/// The number of cells of a `width` by `height` map, refused when a side
/// is zero or the count does not fit in 32 bits.
pub fn checked_area(width: u32, height: u32) -> (r: Result<usize, GeologyError>)
    ensures
        match r {
            Ok(area) => width != 0 && height != 0 && width * height <= u32::MAX && area == width
                * height,
            Err(e) => {
                ||| (width == 0 || height == 0) && e.message_view()
                    == "map dimensions must be non-zero"@
                ||| (width != 0 && height != 0 && width * height > u32::MAX && e.message_view()
                    == "map area overflows u32"@)
            },
        },
{
    if width == 0 || height == 0 {
        return Err(GeologyError { message: String::from_str("map dimensions must be non-zero") });
    }
    match width.checked_mul(height) {
        Some(area) => Ok(area as usize),
        None => Err(GeologyError { message: String::from_str("map area overflows u32") }),
    }
}

/// Refuses a layer called `name` whose length is not the map's area.
pub fn validate_len(name: &str, actual: usize, expected: usize) -> (r: Result<(), GeologyError>)
    ensures
        match r {
            Ok(()) => actual == expected,
            Err(e) => actual != expected && e.message_view() == length_mismatch_text(
                name@,
                actual as nat,
                expected as nat,
            ),
        },
{
    if actual == expected {
        Ok(())
    } else {
        Err(GeologyError { message: length_mismatch_message(name, actual, expected) })
    }
}

/// The largest plate id of a non-empty plate map.
pub open spec fn max_plate_id(plates: Seq<u32>) -> u32
    decreases plates.len(),
{
    if plates.len() <= 1 {
        plates[0]
    } else {
        let m = max_plate_id(plates.drop_last());
        if plates.last() > m {
            plates.last()
        } else {
            m
        }
    }
}

/// `"plate_velocities length {len} does not contain plate id {id}"`.
pub open spec fn missing_velocity_text(len: nat, id: nat) -> Seq<char> {
    "plate_velocities length "@ + decimal(len) + " does not contain plate id "@ + decimal(id)
}

proof fn lemma_max_plate_id(plates: Seq<u32>)
    requires
        plates.len() > 0,
    ensures
        forall|i: int| 0 <= i < plates.len() ==> #[trigger] plates[i] <= max_plate_id(plates),
        exists|i: int| 0 <= i < plates.len() && #[trigger] plates[i] == max_plate_id(plates),
    decreases plates.len(),
{
    if plates.len() > 1 {
        let p = plates.drop_last();
        lemma_max_plate_id(p);
        assert forall|i: int| 0 <= i < plates.len() implies #[trigger] plates[i] <= max_plate_id(
            plates,
        ) by {
            if i < p.len() {
                assert(plates[i] == p[i]);
            }
        }
        if plates.last() <= max_plate_id(p) {
            let i = choose|i: int| 0 <= i < p.len() && #[trigger] p[i] == max_plate_id(p);
            assert(plates[i] == p[i]);
        }
    } else {
        assert(plates[0] == max_plate_id(plates));
    }
}

/// When velocities are given (as a table of `velocity_count` entries),
/// refuses a plate map naming a plate the table does not cover.
pub fn validate_plate_velocities(plates_map: &[u32], velocity_count: Option<usize>) -> (r: Result<
    (),
    GeologyError,
>)
    ensures
        match r {
            Ok(()) => velocity_count matches Some(n) ==> forall|i: int|
                0 <= i < plates_map@.len() ==> (#[trigger] plates_map@[i]) < n,
            Err(e) => velocity_count matches Some(n) && plates_map@.len() > 0 && max_plate_id(
                plates_map@,
            ) >= n && e.message_view() == missing_velocity_text(
                n as nat,
                max_plate_id(plates_map@) as nat,
            ),
        },
{
    let count = match velocity_count {
        Some(count) => count,
        None => {
            return Ok(());
        },
    };
    if plates_map.len() == 0 {
        return Ok(());
    }
    let mut max_plate_id_found = plates_map[0];
    let mut i: usize = 1;
    while i < plates_map.len()
        invariant
            1 <= i <= plates_map@.len(),
            max_plate_id_found == max_plate_id(plates_map@.subrange(0, i as int)),
        decreases plates_map@.len() - i,
    {
        proof {
            assert(plates_map@.subrange(0, i + 1).drop_last() =~= plates_map@.subrange(0, i as int));
        }
        if plates_map[i] > max_plate_id_found {
            max_plate_id_found = plates_map[i];
        }
        i += 1;
    }
    proof {
        assert(plates_map@.subrange(0, i as int) =~= plates_map@);
        lemma_max_plate_id(plates_map@);
    }
    if max_plate_id_found as usize >= count {
        let mut message = String::from_str("plate_velocities length ");
        push_decimal(&mut message, count);
        message.append(" does not contain plate id ");
        push_decimal(&mut message, max_plate_id_found as usize);
        return Err(GeologyError { message });
    }
    Ok(())
}

/// The boundary between crusts `a` and `b` of two plates: a known relative
/// motion decides divergent, transform and still boundaries; converging or
/// unknown motion is decided by the crusts.
pub fn classify_boundary(a: CrustKind, b: CrustKind, motion: Option<MotionRelation>) -> (k:
    BoundaryKind)
    ensures
        k == boundary_of(a, b, motion),
{
    match motion {
        Some(MotionRelation::Divergent) => {
            return BoundaryKind::DivergentBoundary;
        },
        Some(MotionRelation::Transform) => {
            return BoundaryKind::TransformBoundary;
        },
        Some(MotionRelation::Still) => {
            return BoundaryKind::OceanicBoundary;
        },
        Some(MotionRelation::Convergent) | None => {},
    }

    match (a, b) {
        (CrustKind::Continental, CrustKind::Continental) => BoundaryKind::ContinentalCollision,
        (CrustKind::Oceanic, CrustKind::Continental)
        | (CrustKind::Continental, CrustKind::Oceanic)
        | (CrustKind::Oceanic, CrustKind::Transitional)
        | (CrustKind::Transitional, CrustKind::Oceanic) => BoundaryKind::SubductionCandidate,
        (CrustKind::Oceanic, CrustKind::Oceanic) => BoundaryKind::OceanicBoundary,
        (CrustKind::Transitional, CrustKind::Continental)
        | (CrustKind::Continental, CrustKind::Transitional)
        | (CrustKind::Transitional, CrustKind::Transitional) => BoundaryKind::ContinentalCollision,
    }
}

/// The boundary kind for crusts `a`, `b` and relative motion `motion`.
pub open spec fn boundary_of(a: CrustKind, b: CrustKind, motion: Option<MotionRelation>) -> BoundaryKind {
    match motion {
        Some(MotionRelation::Divergent) => BoundaryKind::DivergentBoundary,
        Some(MotionRelation::Transform) => BoundaryKind::TransformBoundary,
        Some(MotionRelation::Still) => BoundaryKind::OceanicBoundary,
        _ => if a == CrustKind::Oceanic && b == CrustKind::Oceanic {
            BoundaryKind::OceanicBoundary
        } else if a == CrustKind::Oceanic || b == CrustKind::Oceanic {
            BoundaryKind::SubductionCandidate
        } else {
            BoundaryKind::ContinentalCollision
        },
    }
}

/// The classification of a boundary does not depend on which side of it
/// each crust lies.
pub proof fn lemma_boundary_symmetric(a: CrustKind, b: CrustKind, motion: Option<MotionRelation>)
    ensures
        boundary_of(a, b, motion) == boundary_of(b, a, motion),
{
}

/// The rank of a boundary kind; a cell keeps the highest-ranked kind it meets.
pub fn boundary_priority(kind: BoundaryKind) -> (p: u8)
    ensures
        p == priority_of(kind),
{
    match kind {
        BoundaryKind::NoBoundary => 0,
        BoundaryKind::OceanicBoundary => 1,
        BoundaryKind::DivergentBoundary => 2,
        BoundaryKind::TransformBoundary => 3,
        BoundaryKind::SubductionCandidate => 4,
        BoundaryKind::ContinentalCollision => 5,
    }
}

/// Ranks from `NoBoundary` (0) through oceanic, divergent, transform and
/// subduction boundaries to continental collision (5).
pub open spec fn priority_of(kind: BoundaryKind) -> u8 {
    match kind {
        BoundaryKind::NoBoundary => 0,
        BoundaryKind::OceanicBoundary => 1,
        BoundaryKind::DivergentBoundary => 2,
        BoundaryKind::TransformBoundary => 3,
        BoundaryKind::SubductionCandidate => 4,
        BoundaryKind::ContinentalCollision => 5,
    }
}

/// Distinct boundary kinds have distinct ranks, so the highest-ranked kind
/// met at a cell is well defined.
pub proof fn lemma_priority_distinct(a: BoundaryKind, b: BoundaryKind)
    ensures
        priority_of(a) == priority_of(b) <==> a == b,
{
}

/// Row-major index of the cell `(x, y)` of a map `width` cells wide.
pub fn index_of(width: u32, x: u32, y: u32) -> (i: usize)
    requires
        y * width + x <= u32::MAX,
    ensures
        i == y * width + x,
{
    (y * width + x) as usize
}


/// The higher-ranked of two boundary kinds.
pub open spec fn stronger(a: BoundaryKind, b: BoundaryKind) -> BoundaryKind {
    if priority_of(b) > priority_of(a) {
        b
    } else {
        a
    }
}

/// Keeps the higher-ranked of a cell's current boundary kind and a newly
/// met one.
pub fn apply_boundary_kind(current: BoundaryKind, kind: BoundaryKind) -> (r: BoundaryKind)
    ensures
        r == stronger(current, kind),
{
    if boundary_priority(kind) > boundary_priority(current) {
        kind
    } else {
        current
    }
}

/// The kinds a cell meets can be applied in any order, and more than once:
/// keeping the higher-ranked kind is commutative, associative and
/// idempotent, and `NoBoundary` changes nothing.
pub proof fn lemma_stronger_order_free(a: BoundaryKind, b: BoundaryKind, c: BoundaryKind)
    ensures
        stronger(a, b) == stronger(b, a),
        stronger(stronger(a, b), c) == stronger(a, stronger(b, c)),
        stronger(a, a) == a,
        stronger(a, BoundaryKind::NoBoundary) == a,
{
    lemma_priority_distinct(a, b);
}

/// A boundary between two plates is never classified as no boundary.
pub proof fn lemma_boundary_is_some(a: CrustKind, b: CrustKind, motion: Option<MotionRelation>)
    ensures
        boundary_of(a, b, motion) != BoundaryKind::NoBoundary,
{
}

/// The boundary kind of the pair of neighbouring cells `a` and `b`: none
/// when both belong to the same plate.
pub open spec fn pair_kind(
    plates_map: Seq<u32>,
    crust_kind: Seq<CrustKind>,
    motion: Option<MotionRelation>,
    a: int,
    b: int,
) -> BoundaryKind {
    if plates_map[a] == plates_map[b] {
        BoundaryKind::NoBoundary
    } else {
        boundary_of(crust_kind[a], crust_kind[b], motion)
    }
}

/// Whether the cell in column `x` is paired with its east neighbour (the
/// columns wrap round): not on a map one column wide, and on a map two
/// columns wide only from the first column, so no pair is met twice.
pub open spec fn has_east_pair(width: int, x: int) -> bool {
    width > 1 && !(width == 2 && x == 1)
}

/// The boundary kind of cell `i` of a `width` x `height` map: the
/// highest-ranked kind of the pairs it belongs to, with its east and west
/// neighbours (wrapping round) and its south and north neighbours (not
/// wrapping). `east_motion[j]` and `south_motion[j]` give the relative
/// motion of the pair that cell `j` forms with its east and its south
/// neighbour.
pub open spec fn cell_boundary(
    width: int,
    height: int,
    plates_map: Seq<u32>,
    crust_kind: Seq<CrustKind>,
    east_motion: Seq<Option<MotionRelation>>,
    south_motion: Seq<Option<MotionRelation>>,
    i: int,
) -> BoundaryKind {
    let x = i % width;
    let y = i / width;
    let wx = (x + width - 1) % width;
    let west = y * width + wx;
    let east_kind = if has_east_pair(width, x) {
        pair_kind(plates_map, crust_kind, east_motion[i], i, y * width + (x + 1) % width)
    } else {
        BoundaryKind::NoBoundary
    };
    let west_kind = if has_east_pair(width, wx) {
        pair_kind(plates_map, crust_kind, east_motion[west], west, i)
    } else {
        BoundaryKind::NoBoundary
    };
    let south_kind = if y + 1 < height {
        pair_kind(plates_map, crust_kind, south_motion[i], i, i + width)
    } else {
        BoundaryKind::NoBoundary
    };
    let north_kind = if y > 0 {
        pair_kind(plates_map, crust_kind, south_motion[i - width], i - width, i)
    } else {
        BoundaryKind::NoBoundary
    };
    stronger(stronger(stronger(east_kind, west_kind), south_kind), north_kind)
}

/// Whether cell `i` has a neighbour it is paired with that belongs to
/// another plate.
pub open spec fn on_plate_boundary(width: int, height: int, plates_map: Seq<u32>, i: int) -> bool {
    let x = i % width;
    let y = i / width;
    let wx = (x + width - 1) % width;
    ||| has_east_pair(width, x) && plates_map[i] != plates_map[y * width + (x + 1) % width]
    ||| has_east_pair(width, wx) && plates_map[y * width + wx] != plates_map[i]
    ||| y + 1 < height && plates_map[i] != plates_map[i + width]
    ||| y > 0 && plates_map[i - width] != plates_map[i]
}

fn pair_kind_of(
    plates_map: &[u32],
    crust_kind: &[CrustKind],
    motion: Option<MotionRelation>,
    a: usize,
    b: usize,
) -> (k: BoundaryKind)
    requires
        a < plates_map@.len(),
        b < plates_map@.len(),
        crust_kind@.len() == plates_map@.len(),
    ensures
        k == pair_kind(plates_map@, crust_kind@, motion, a as int, b as int),
{
    if plates_map[a] == plates_map[b] {
        BoundaryKind::NoBoundary
    } else {
        classify_boundary(crust_kind[a], crust_kind[b], motion)
    }
}

/// The boundary kind of every cell of a `width` x `height` map whose cells
/// belong to the plates in `plates_map` and have the crusts in
/// `crust_kind`: each cell gets the highest-ranked kind of the boundaries
/// it lies on, and a cell lies on one exactly when a neighbour it is paired
/// with belongs to another plate.
pub fn boundary_kinds(
    width: u32,
    height: u32,
    plates_map: &[u32],
    crust_kind: &[CrustKind],
    east_motion: &[Option<MotionRelation>],
    south_motion: &[Option<MotionRelation>],
) -> (kinds: Vec<BoundaryKind>)
    requires
        width > 0,
        height > 0,
        width * height <= u32::MAX,
        plates_map@.len() == width * height,
        crust_kind@.len() == width * height,
        east_motion@.len() == width * height,
        south_motion@.len() == width * height,
    ensures
        kinds@.len() == width * height,
        forall|i: int|
            0 <= i < width * height ==> #[trigger] kinds@[i] == cell_boundary(
                width as int,
                height as int,
                plates_map@,
                crust_kind@,
                east_motion@,
                south_motion@,
                i,
            ),
        forall|i: int|
            0 <= i < width * height ==> (#[trigger] kinds@[i] != BoundaryKind::NoBoundary
                <==> on_plate_boundary(width as int, height as int, plates_map@, i)),
{
    let ghost w = width as int;
    let ghost h = height as int;
    let mut kinds: Vec<BoundaryKind> = Vec::new();
    let mut y: u32 = 0;
    while y < height
        invariant
            w == width,
            h == height,
            w > 0,
            h > 0,
            w * h <= u32::MAX,
            plates_map@.len() == w * h,
            crust_kind@.len() == w * h,
            east_motion@.len() == w * h,
            south_motion@.len() == w * h,
            y <= height,
            kinds@.len() == y * w,
            forall|i: int|
                0 <= i < kinds@.len() ==> #[trigger] kinds@[i] == cell_boundary(
                    w,
                    h,
                    plates_map@,
                    crust_kind@,
                    east_motion@,
                    south_motion@,
                    i,
                ),
        decreases height - y,
    {
        let mut x: u32 = 0;
        proof {
            assert((y + 1) * w <= h * w) by (nonlinear_arith)
                requires
                    y < h,
                    w > 0,
            ;
        }
        while x < width
            invariant
                w == width,
                h == height,
                w > 0,
                h > 0,
                w * h <= u32::MAX,
                plates_map@.len() == w * h,
                crust_kind@.len() == w * h,
                east_motion@.len() == w * h,
                south_motion@.len() == w * h,
                y < height,
                (y + 1) * w <= w * h,
                x <= width,
                kinds@.len() == y * w + x,
                forall|i: int|
                    0 <= i < kinds@.len() ==> #[trigger] kinds@[i] == cell_boundary(
                        w,
                        h,
                        plates_map@,
                        crust_kind@,
                        east_motion@,
                        south_motion@,
                        i,
                    ),
            decreases width - x,
        {
            proof {
                assert(y * w + w == (y + 1) * w) by (nonlinear_arith);
            }
            let i = index_of(width, x, y);
            proof {
                vstd::arithmetic::div_mod::lemma_fundamental_div_mod_converse(i as int, w, y as int, x as int);
            }
            let row = index_of(width, 0, y);
            let mut kind = BoundaryKind::NoBoundary;
            if width > 1 && !(width == 2 && x == 1) {
                let east = row + ((x + 1) % width) as usize;
                kind = apply_boundary_kind(kind, pair_kind_of(plates_map, crust_kind, east_motion[i], i, east));
            }
            let wx = ((x as u64 + width as u64 - 1) % width as u64) as u32;
            if width > 1 && !(width == 2 && wx == 1) {
                let west = row + wx as usize;
                kind = apply_boundary_kind(kind, pair_kind_of(plates_map, crust_kind, east_motion[west], west, i));
            }
            if y + 1 < height {
                proof {
                    assert((y + 2) * w <= h * w) by (nonlinear_arith)
                        requires
                            y + 1 < h,
                            w > 0,
                    ;
                    assert((y + 2) * w == y * w + w + w) by (nonlinear_arith);
                }
                let south = i + width as usize;
                kind = apply_boundary_kind(kind, pair_kind_of(plates_map, crust_kind, south_motion[i], i, south));
            }
            if y > 0 {
                assert(y * w >= w) by (nonlinear_arith)
                    requires
                        y >= 1,
                        w > 0,
                ;
                let north = i - width as usize;
                kind = apply_boundary_kind(kind, pair_kind_of(plates_map, crust_kind, south_motion[north], north, i));
            }
            kinds.push(kind);
            x += 1;
        }
        assert(kinds@.len() == (y + 1) * w) by (nonlinear_arith)
            requires
                kinds@.len() == y * w + w,
        ;
        y += 1;
    }
    proof {
        assert(kinds@.len() == w * h) by (nonlinear_arith)
            requires
                kinds@.len() == y * w,
                y == h,
        ;
        assert forall|i: int|
            0 <= i < w * h implies (#[trigger] kinds@[i] != BoundaryKind::NoBoundary
            <==> on_plate_boundary(w, h, plates_map@, i)) by {
            let x = i % w;
            let y = i / w;
            let wx = (x + w - 1) % w;
            let west = y * w + wx;
            let e = y * w + (x + 1) % w;
            lemma_boundary_is_some(crust_kind@[i], crust_kind@[e], east_motion@[i]);
            lemma_boundary_is_some(crust_kind@[west], crust_kind@[i], east_motion@[west]);
            if y + 1 < h {
                lemma_boundary_is_some(crust_kind@[i], crust_kind@[i + w], south_motion@[i]);
            }
            if y > 0 {
                lemma_boundary_is_some(crust_kind@[i - w], crust_kind@[i], south_motion@[i - w]);
            }
        }
    }
    kinds
}


/// How a boundary is classified. Moving apart, sliding past or standing
/// still decides the kind alone. Otherwise (converging, or motion unknown)
/// the crusts decide: two oceanic sides meet in an oceanic boundary, exactly
/// one oceanic side is a subduction candidate, and with no oceanic side the
/// plates collide as continents. So subduction always needs an oceanic
/// side.
pub proof fn lemma_boundary_classes(a: CrustKind, b: CrustKind, motion: Option<MotionRelation>)
    ensures
        motion == Some(MotionRelation::Divergent) ==> boundary_of(a, b, motion)
            == BoundaryKind::DivergentBoundary,
        motion == Some(MotionRelation::Transform) ==> boundary_of(a, b, motion)
            == BoundaryKind::TransformBoundary,
        motion == Some(MotionRelation::Still) ==> boundary_of(a, b, motion)
            == BoundaryKind::OceanicBoundary,
        (motion == Some(MotionRelation::Convergent) || motion == None::<MotionRelation>) ==> {
            &&& (a != CrustKind::Oceanic && b != CrustKind::Oceanic) ==> boundary_of(a, b, motion)
                == BoundaryKind::ContinentalCollision
            &&& (a == CrustKind::Oceanic && b == CrustKind::Oceanic) ==> boundary_of(a, b, motion)
                == BoundaryKind::OceanicBoundary
            &&& (a == CrustKind::Oceanic) != (b == CrustKind::Oceanic) ==> boundary_of(a, b, motion)
                == BoundaryKind::SubductionCandidate
        },
        boundary_of(a, b, motion) == BoundaryKind::SubductionCandidate ==> a == CrustKind::Oceanic
            || b == CrustKind::Oceanic,
        boundary_of(a, b, motion) != BoundaryKind::NoBoundary,
{
}

/// A cell sees every pair it belongs to: its boundary kind ranks at least
/// as high as the kind of each pair it forms with a neighbour, each pair
/// classified with that pair's own motion (the pair with the east
/// neighbour by `east_motion` of the cell, with the west neighbour by
/// `east_motion` of that neighbour, with the south neighbour by
/// `south_motion` of the cell, with the north neighbour by `south_motion`
/// of that neighbour). And the cell's kind is one of those pair kinds, or
/// none. So both cells of a pair see the same kind of that pair.
pub proof fn lemma_cell_sees_its_pairs(
    width: int,
    height: int,
    plates_map: Seq<u32>,
    crust_kind: Seq<CrustKind>,
    east_motion: Seq<Option<MotionRelation>>,
    south_motion: Seq<Option<MotionRelation>>,
    i: int,
)
    requires
        width > 0,
        height > 0,
        0 <= i < width * height,
        plates_map.len() == width * height,
        crust_kind.len() == width * height,
        east_motion.len() == width * height,
        south_motion.len() == width * height,
    ensures
        ({
            let k = cell_boundary(width, height, plates_map, crust_kind, east_motion, south_motion, i);
            let x = i % width;
            let y = i / width;
            let wx = (x + width - 1) % width;
            let west = y * width + wx;
            let east = y * width + (x + 1) % width;
            let ek = pair_kind(plates_map, crust_kind, east_motion[i], i, east);
            let wk = pair_kind(plates_map, crust_kind, east_motion[west], west, i);
            let sk = pair_kind(plates_map, crust_kind, south_motion[i], i, i + width);
            let nk = pair_kind(plates_map, crust_kind, south_motion[i - width], i - width, i);
            &&& has_east_pair(width, x) ==> priority_of(k) >= priority_of(ek)
            &&& has_east_pair(width, wx) ==> priority_of(k) >= priority_of(wk)
            &&& y + 1 < height ==> priority_of(k) >= priority_of(sk)
            &&& y > 0 ==> priority_of(k) >= priority_of(nk)
            &&& {
                ||| k == BoundaryKind::NoBoundary
                ||| has_east_pair(width, x) && k == ek
                ||| has_east_pair(width, wx) && k == wk
                ||| y + 1 < height && k == sk
                ||| y > 0 && k == nk
            }
        }),
{
}

} // verus!
