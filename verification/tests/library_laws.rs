use lib::geology::{apply_boundary_kind, boundary_kinds, classify_boundary, checked_area, BoundaryKind, CrustKind, MotionRelation};
use lib::geometry::{IntPoint, IntVector, WorldDimension};
use lib::lithosphere::{
    buoyancy_age, noise_offsets, plate_box, plate_world_indices, quiet_steps_after,
    reclaim_uncovered, remove_empty_plates, restart_plan, two_mut, PlateArea, RestartAction,
};
use lib::plate::{embed_grid, growth_margins, mask};
use lib::plate_functions::crust_neighbors;
use lib::rectangle::{Rectangle, BAD_INDEX};
use lib::segments::Segments;
use lib::terrain_classification::{fill_ocean_valley_plain, is_water, land_neighbors, wrap_x, ReliefKind};
use lib::{check_map_request, relief_kind_code, PlatecMapRequest, PlatecMapStatus, PLATEC_ABI_VERSION};

fn covers(left: u32, size: u32, p: u32, side: u32) -> bool {
    (p + side - left) % side < size
}

#[test]
fn grown_box_takes_in_the_cell_and_fits_the_world() {
    let dimensions = WorldDimension::new(20, 10);
    for (left, top, width, height, x, y) in [
        (0u32, 0u32, 4u32, 3u32, 6u32, 1u32),
        (15, 2, 4, 3, 2, 8),
        (5, 5, 10, 5, 1, 1),
        (18, 8, 5, 4, 30, 25),
        (0, 0, 19, 9, 19, 9),
    ] {
        let g = growth_margins(dimensions, left, top, width, height, x, y);
        let new_width = width + g.left + g.right;
        let new_height = height + g.top + g.bottom;
        assert!(new_width <= 20 && new_height <= 10);
        let new_left = (left + 20 - g.left) % 20;
        let new_top = (top + 10 - g.top) % 10;
        assert!(covers(new_left, new_width, x % 20, 20));
        assert!(covers(new_top, new_height, y % 10, 10));
        assert!(g.left + g.right + g.top + g.bottom > 0);
    }
}

#[test]
fn growth_goes_the_short_way_and_rounds_past_eight() {
    let dimensions = WorldDimension::new(64, 64);
    let g = growth_margins(dimensions, 10, 10, 4, 4, 15, 11);
    assert_eq!((g.left, g.right, g.top, g.bottom), (0, 8, 0, 0));
    let g = growth_margins(dimensions, 10, 10, 4, 4, 1, 11);
    assert_eq!((g.left, g.right, g.top, g.bottom), (16, 0, 0, 0));
    let g = growth_margins(dimensions, 10, 10, 60, 4, 8, 11);
    assert_eq!((g.left, g.right), (0, 4));
}

#[test]
fn embedding_keeps_values_and_fills_the_rest() {
    let grown = embed_grid(&[1u32, 2, 3, 4], 2, 2, 4, 3, 1, 1, 0);
    assert_eq!(grown, vec![0, 0, 0, 0, 0, 1, 2, 0, 0, 3, 4, 0]);
    let same = embed_grid(&[7u32, 8, 9], 3, 1, 3, 1, 0, 0, u32::MAX);
    assert_eq!(same, vec![7, 8, 9]);
}

#[test]
fn mask_is_all_or_nothing() {
    assert_eq!(mask(true), u32::MAX);
    assert_eq!(mask(false), 0);
}

#[test]
fn crust_neighbors_wrap_only_across_full_axes() {
    let dimensions = WorldDimension::new(8, 6);
    let n = crust_neighbors(0, 0, dimensions, 8, 6);
    assert!(n.west_valid && n.east_valid && n.north_valid && n.south_valid);
    assert_eq!((n.west, n.east, n.north, n.south), (7, 1, 40, 8));
    let n = crust_neighbors(0, 0, dimensions, 4, 3);
    assert!(!n.west_valid && n.east_valid && !n.north_valid && n.south_valid);
    assert_eq!((n.west, n.east, n.north, n.south), (0, 1, 0, 4));
    let n = crust_neighbors(3, 2, dimensions, 4, 3);
    assert!(n.west_valid && !n.east_valid && n.north_valid && !n.south_valid);
    assert_eq!((n.west, n.east, n.north, n.south), (10, 8, 7, 3));
}

#[test]
fn buoyancy_fades_over_twenty_steps() {
    assert_eq!(buoyancy_age(100, 100), 20);
    assert_eq!(buoyancy_age(100, 90), 10);
    assert_eq!(buoyancy_age(100, 80), 0);
    assert_eq!(buoyancy_age(100, 79), 0);
    assert_eq!(buoyancy_age(5, u32::MAX), 14);
    assert_eq!(buoyancy_age(100, 101), 0);
}

#[test]
fn quiet_steps_count_up_until_a_collision() {
    assert_eq!(quiet_steps_after(3, 0), 4);
    assert_eq!(quiet_steps_after(3, 2), 0);
}

#[test]
fn restarts_reseed_then_settle_then_finish() {
    assert_eq!(restart_plan(0, 2), (1, RestartAction::Reseed));
    assert_eq!(restart_plan(1, 2), (2, RestartAction::Settle));
    assert_eq!(restart_plan(2, 2), (3, RestartAction::Finish));
    assert_eq!(restart_plan(0, 0), (0, RestartAction::Reseed));
}

#[test]
fn plate_box_is_one_cell_larger_than_the_capped_extent() {
    let dimensions = WorldDimension::new(10, 8);
    let area = PlateArea { border: vec![], bottom: 5, left: 2, right: 6, top: 1, width: 4, height: 20 };
    let b = plate_box(&area, dimensions);
    assert_eq!((b.left, b.top, b.width, b.height), (2, 1, 5, 8));
}

#[test]
fn plate_cells_map_onto_the_wrapping_world() {
    let dimensions = WorldDimension::new(5, 4);
    let cells = plate_world_indices(dimensions, 3, 2, 3, 3);
    assert_eq!(cells, vec![13, 14, 10, 18, 19, 15, 3, 4, 0]);
    let mut sorted = plate_world_indices(dimensions, 4, 3, 5, 4);
    sorted.sort();
    assert_eq!(sorted, (0..20).collect::<Vec<usize>>());
}

#[test]
fn removing_empty_plates_keeps_owners_pointing_at_their_plates() {
    let mut plates = vec!['a', 'b', 'c', 'd'];
    let mut found = vec![2u32, 0, 1, 3];
    let mut imap = vec![0u32, 3, 3, 2, 0, 3, 9];
    let _origin = remove_empty_plates(&mut plates, &mut found, &mut imap);
    assert_eq!(plates, vec!['a', 'd', 'c']);
    assert_eq!(found, vec![2, 3, 1]);
    let owners: Vec<char> = imap[..6].iter().map(|k| plates[*k as usize]).collect();
    assert_eq!(owners, vec!['a', 'd', 'd', 'c', 'a', 'd']);
    assert_eq!(imap[6], 9);
}

#[test]
fn the_last_plate_is_kept() {
    let mut plates = vec![1, 2];
    let mut found = vec![0u32, 0];
    let mut imap = vec![0u32, 1];
    let _origin = remove_empty_plates(&mut plates, &mut found, &mut imap);
    assert_eq!(plates.len(), 1);
}

#[test]
fn noise_offsets_never_overflow() {
    let o = noise_offsets(424_242);
    assert_eq!(o.ka, 0);
    assert_eq!(o.kb, 424_242 * 567 % 256);
    assert_eq!(o.kc, (424_242 % 256) * (424_242 % 256) % 256);
    assert_eq!(o.kd, (567 - 424_242i64) % 256);
    let o = noise_offsets(u32::MAX);
    assert_eq!(o.kc, 1);
    let o = noise_offsets(1);
    assert_eq!((o.ka, o.kb, o.kc, o.kd), (256, 55, 1, 54));
}

#[test]
fn boundary_kinds_keep_the_strongest_and_are_symmetric() {
    assert_eq!(
        apply_boundary_kind(BoundaryKind::ContinentalCollision, BoundaryKind::OceanicBoundary),
        BoundaryKind::ContinentalCollision
    );
    assert_eq!(
        apply_boundary_kind(BoundaryKind::OceanicBoundary, BoundaryKind::SubductionCandidate),
        BoundaryKind::SubductionCandidate
    );
    assert_eq!(apply_boundary_kind(BoundaryKind::NoBoundary, BoundaryKind::NoBoundary), BoundaryKind::NoBoundary);
    for a in [CrustKind::Oceanic, CrustKind::Transitional, CrustKind::Continental] {
        for b in [CrustKind::Oceanic, CrustKind::Transitional, CrustKind::Continental] {
            assert_eq!(classify_boundary(a, b, None), classify_boundary(b, a, None));
            assert_ne!(classify_boundary(a, b, None), BoundaryKind::NoBoundary);
        }
    }
    assert_eq!(
        classify_boundary(CrustKind::Oceanic, CrustKind::Oceanic, Some(MotionRelation::Still)),
        BoundaryKind::OceanicBoundary
    );
}

#[test]
fn only_cells_next_to_another_plate_get_a_boundary() {
    let plates = [0u32, 0, 0, 0, 0, 1, 0, 0, 0, 0, 0, 0];
    let crust = [CrustKind::Oceanic; 12];
    let kinds = boundary_kinds(4, 3, &plates, &crust, &[None; 12], &[None; 12]);
    let marked: Vec<usize> = (0..12).filter(|i| kinds[*i] != BoundaryKind::NoBoundary).collect();
    assert_eq!(marked, vec![1, 4, 5, 6, 9]);
    assert!(marked.iter().all(|i| kinds[*i] == BoundaryKind::OceanicBoundary));
}

#[test]
fn one_column_map_has_no_east_west_boundaries() {
    let kinds = boundary_kinds(1, 2, &[0, 1], &[CrustKind::Continental; 2], &[None; 2], &[None; 2]);
    assert_eq!(kinds, vec![BoundaryKind::ContinentalCollision; 2]);
    let kinds = boundary_kinds(1, 1, &[0], &[CrustKind::Continental], &[None], &[None]);
    assert_eq!(kinds, vec![BoundaryKind::NoBoundary]);
}

#[test]
fn geology_area_errors() {
    assert_eq!(checked_area(3, 4).unwrap(), 12);
    assert_eq!(checked_area(0, 4).unwrap_err().to_string(), "map dimensions must be non-zero");
    assert_eq!(checked_area(0x1_0000, 0x1_0000).unwrap_err().to_string(), "map area overflows u32");
}

#[test]
fn map_requests_are_checked_in_order() {
    let ok = PlatecMapRequest { abi_version: PLATEC_ABI_VERSION, seed: 1, width: 8, height: 6 };
    assert_eq!(check_map_request(ok, 48), Ok(48));
    assert_eq!(check_map_request(ok, 47), Err(PlatecMapStatus::InvalidOutputLength));
    let wrong = PlatecMapRequest { abi_version: 2, ..ok };
    assert_eq!(check_map_request(wrong, 48), Err(PlatecMapStatus::AbiMismatch));
    let small = PlatecMapRequest { width: 4, ..ok };
    assert_eq!(check_map_request(small, 24), Err(PlatecMapStatus::InvalidDimensions));
    let huge = PlatecMapRequest { width: 0x1_0000, height: 0x1_0000, ..ok };
    assert_eq!(check_map_request(huge, 0), Err(PlatecMapStatus::InvalidDimensions));
}

#[test]
fn relief_codes_are_ordered_by_height() {
    let kinds = [
        ReliefKind::Ocean,
        ReliefKind::Valley,
        ReliefKind::Plain,
        ReliefKind::Hill,
        ReliefKind::Mountain,
        ReliefKind::HighMountain,
    ];
    let codes: Vec<u8> = kinds.iter().map(|k| relief_kind_code(*k)).collect();
    assert_eq!(codes, vec![0, 1, 2, 3, 4, 5]);
    assert!(is_water(ReliefKind::Ocean) && is_water(ReliefKind::Valley));
    assert!(!is_water(ReliefKind::Plain));
}

#[test]
fn wrapping_columns() {
    assert_eq!(wrap_x(-1, 5), 4);
    assert_eq!(wrap_x(-5, 5), 0);
    assert_eq!(wrap_x(7, 5), 2);
    assert_eq!(wrap_x(-12, 5), 3);
}

#[test]
fn water_is_ocean_or_valley_and_land_stays_plain() {
    let low = [
        true, false, false, //
        false, true, false, //
        false, false, false, //
        false, false, true, //
    ];
    let relief = fill_ocean_valley_plain(&low, 3, 4);
    assert_eq!(relief[0], ReliefKind::Ocean);
    assert_eq!(relief[4], ReliefKind::Ocean);
    assert_eq!(relief[11], ReliefKind::Ocean);
    for i in [1, 2, 3, 5, 6, 7, 8, 9, 10] {
        assert_eq!(relief[i], ReliefKind::Plain);
    }
    let enclosed = [
        false, false, false, false, false, //
        false, false, true, false, false, //
        false, false, false, false, false, //
    ];
    let relief = fill_ocean_valley_plain(&enclosed, 5, 3);
    assert_eq!(relief[7], ReliefKind::Valley);
}

#[test]
fn world_geometry_round_trips() {
    let d = WorldDimension::new(7, 5);
    assert_eq!(d.area(), 35);
    for i in 0..35u32 {
        let x = d.x_from_index(i);
        let y = d.y_from_index(i);
        assert_eq!(d.index_of(x, y), i as usize);
    }
    assert_eq!(d.x_mod(9), 2);
    assert_eq!(d.y_mod(u32::MAX), (u32::MAX.wrapping_add(5)) % 5);
    assert_eq!(d.normalized_index_of(8, 6), 8);
    assert_eq!(d.x_cap(9), 6);
    assert_eq!(d.y_cap(3), 3);
    let (mut x, mut y) = (15u32, 11u32);
    d.normalize(&mut x, &mut y);
    assert_eq!((x, y), (1, 1));
}

#[test]
fn rectangle_indexes_cells_inside_and_rejects_outside() {
    let d = WorldDimension::new(10, 10);
    let r = Rectangle::new(d, 8, 12, 1, 3);
    let (mut x, mut y) = (9u32, 2u32);
    assert_eq!(r.get_map_index(&mut x, &mut y), 5);
    assert_eq!((x, y), (1, 1));
    let (mut x, mut y) = (1u32, 1u32);
    assert_eq!(r.get_map_index(&mut x, &mut y), 3);
    let (mut x, mut y) = (5u32, 1u32);
    assert_eq!(r.get_map_index(&mut x, &mut y), BAD_INDEX);
    assert_eq!((x, y), (5, 1));
}

#[test]
fn uncovered_cells_return_to_their_previous_plate() {
    let mut imap = vec![0u32, u32::MAX, 1, 1, 7, 0];
    let prev = vec![0u32, 2, 1, 1, 1, 0];
    let (found, reclaimed) = reclaim_uncovered(&mut imap, &prev, 3);
    assert_eq!(imap, vec![0, 2, 1, 1, 1, 0]);
    assert_eq!(found, vec![2, 2, 0]);
    assert_eq!(reclaimed, vec![1, 4]);
}

#[test]
fn a_step_keeps_covered_cells_on_their_plates() {
    let mut plates = vec!['a', 'b', 'c'];
    let mut imap = vec![2u32, 9, 2, 0, 0, 9];
    let prev = vec![2u32, 1, 2, 0, 0, 1];
    let (mut found, _reclaimed) = reclaim_uncovered(&mut imap, &prev, 3);
    assert_eq!(found, vec![2, 0, 2]);
    let before: Vec<char> = [0usize, 2, 3, 4].iter().map(|c| plates[imap[*c] as usize]).collect();
    let _origin = remove_empty_plates(&mut plates, &mut found, &mut imap);
    let after: Vec<char> = [0usize, 2, 3, 4].iter().map(|c| plates[imap[*c] as usize]).collect();
    assert_eq!(before, after);
    assert_eq!(plates, vec!['a', 'c']);
}

#[test]
fn land_window_lists_the_land_around_a_cell() {
    let w = ReliefKind::Ocean;
    let l = ReliefKind::Plain;
    let relief = [
        l, w, l, l, //
        l, l, w, l, //
        w, l, l, l, //
    ];
    let mut cells = land_neighbors(&relief, 4, 3, 1, 1, 1);
    cells.sort();
    cells.dedup();
    assert_eq!(cells, vec![0, 2, 4, 9, 10]);
    let mut wide = land_neighbors(&relief, 4, 3, 0, 0, 2);
    wide.sort();
    wide.dedup();
    assert_eq!(wide, vec![2, 3, 4, 5, 7, 9, 10, 11]);
}

#[test]
fn two_entries_can_be_changed_together() {
    let mut values = vec![1, 2, 3, 4];
    {
        let (a, b) = two_mut(&mut values, 3, 1);
        assert_eq!((*a, *b), (4, 2));
        *a = 40;
        *b = 20;
    }
    assert_eq!(values, vec![1, 20, 3, 40]);
    let (a, b) = two_mut(&mut values, 0, 2);
    std::mem::swap(a, b);
    assert_eq!(values, vec![3, 20, 1, 40]);
}

#[test]
fn a_new_segment_takes_in_all_connected_land() {
    let d = WorldDimension::new(10, 10);
    let bounds = Rectangle::new(d, 0, 5, 0, 3);
    let land = [
        true, true, false, true, true, //
        false, true, false, true, false, //
        false, true, true, true, false, //
    ];
    let mut segments = Segments::new(15);
    let id = segments.get_continent_at(0, 0, bounds, &land, d);
    assert_eq!(id, 0);
    let members: Vec<usize> = (0..15).filter(|i| segments.ids()[*i] == 0).collect();
    assert_eq!(members, vec![0, 1, 3, 4, 6, 8, 11, 12, 13]);
    assert!((0..15).filter(|i| !members.contains(i)).all(|i| segments.ids()[i] == u32::MAX));
    assert_eq!(segments.data(0).area(), 9);
    assert_eq!(
        (segments.data(0).left(), segments.data(0).right(), segments.data(0).top(), segments.data(0).bottom()),
        (0, 4, 0, 2)
    );
    assert_eq!(segments.get_continent_at(3, 2, bounds, &land, d), 0);
    assert_eq!(segments.size(), 1);
}

#[test]
fn a_segment_wraps_round_a_plate_as_wide_as_the_world() {
    let d = WorldDimension::new(5, 10);
    let bounds = Rectangle::new(d, 0, 5, 0, 2);
    let land = [
        true, false, false, false, true, //
        false, false, true, false, false, //
    ];
    let mut segments = Segments::new(10);
    let id = segments.get_continent_at(4, 0, bounds, &land, d);
    assert_eq!(segments.ids()[0], id);
    assert_eq!(segments.ids()[4], id);
    assert_eq!(segments.ids()[7], u32::MAX);
    assert_eq!(segments.data(id).area(), 2);
    assert_eq!(
        (segments.data(id).left(), segments.data(id).right(), segments.data(id).top(), segments.data(id).bottom()),
        (0, 4, 0, 0)
    );
    let other = segments.get_continent_at(2, 1, bounds, &land, d);
    assert_ne!(other, id);
}

#[test]
fn integer_points_subtract_to_their_displacement() {
    let v = IntPoint::new(5, -3).sub(IntPoint::new(2, 4));
    assert_eq!(v, IntVector { x: 3, y: -7 });
}

#[test]
fn a_dropped_plate_is_replaced_by_the_last_one() {
    let mut plates = vec!['a', 'b', 'c', 'd'];
    let mut found = vec![0u32, 5, 0, 7];
    let mut imap = vec![1u32, 3];
    let _origin = remove_empty_plates(&mut plates, &mut found, &mut imap);
    assert_eq!(plates, vec!['d', 'b']);
    assert_eq!(found, vec![7, 5]);
    assert_eq!(imap, vec![1, 0]);
}

#[test]
fn cells_of_dropped_plates_keep_their_label() {
    let mut plates = vec!['a', 'b', 'c', 'd'];
    let mut found = vec![0u32, 5, 0, 7];
    let mut imap = vec![0u32, 2, 3, 1];
    let _origin = remove_empty_plates(&mut plates, &mut found, &mut imap);
    assert_eq!(plates, vec!['d', 'b']);
    assert_eq!(imap, vec![0, 2, 0, 1]);
}
