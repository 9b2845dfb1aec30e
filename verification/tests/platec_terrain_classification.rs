use lib::terrain_classification::{fill_ocean_valley_plain, ReliefKind};

fn below_sea(heights: &[f32], ocean_level: f32) -> Vec<bool> {
    heights.iter().map(|height| *height <= ocean_level).collect()
}

#[test]
fn water_connected_to_border_is_ocean_and_enclosed_water_is_valley() {
    let heightmap = vec![
        0.2, 1.0, 1.0, 1.0, 1.0, //
        1.0, 1.0, 1.0, 1.0, 1.0, //
        1.0, 1.0, 0.2, 1.0, 1.0, //
        1.0, 1.0, 1.0, 1.0, 1.0, //
        1.0, 1.0, 1.0, 1.0, 1.0, //
    ];

    let relief = fill_ocean_valley_plain(&below_sea(&heightmap, 0.5), 5, 5);

    assert_eq!(relief[0], ReliefKind::Ocean);
    assert_eq!(relief[12], ReliefKind::Valley);
}

#[test]
fn below_sea_component_crossing_horizontal_seam_is_enclosed_valley() {
    let heightmap = vec![
        1.0, 1.0, 1.0, 1.0, 1.0, //
        0.2, 1.0, 1.0, 1.0, 0.2, //
        1.0, 1.0, 1.0, 1.0, 1.0, //
    ];

    let relief = fill_ocean_valley_plain(&below_sea(&heightmap, 0.5), 5, 3);

    assert_eq!(relief[5], ReliefKind::Valley);
    assert_eq!(relief[9], ReliefKind::Valley);
}

#[test]
fn ocean_connectivity_wraps_across_horizontal_seam() {
    let heightmap = vec![
        1.0, 1.0, 1.0, 1.0, 0.2, //
        0.2, 1.0, 1.0, 1.0, 0.2, //
        0.2, 1.0, 1.0, 1.0, 1.0, //
        1.0, 1.0, 1.0, 1.0, 1.0, //
    ];

    let relief = fill_ocean_valley_plain(&below_sea(&heightmap, 0.5), 5, 4);

    for index in [4, 5, 9, 10] {
        assert_eq!(relief[index], ReliefKind::Ocean);
    }
}
