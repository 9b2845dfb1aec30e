use lib::terrain_refinement::{checked_area, check_geology_dimensions, validate_len};

#[test]
fn refinement_rejects_heightmap_with_wrong_length() {
    assert_eq!(checked_area(2, 2).unwrap(), 4);
    assert!(check_geology_dimensions(2, 2, 2, 2).is_ok());
    let error = validate_len("heightmap", 3, 4).unwrap_err();

    assert_eq!(
        error.to_string(),
        "heightmap length 3 does not match map area 4"
    );
}

#[test]
fn refinement_rejects_mismatched_geology() {
    let error = check_geology_dimensions(3, 2, 2, 2).unwrap_err();
    assert_eq!(
        error.to_string(),
        "geology dimensions 3x2 do not match terrain dimensions 2x2"
    );
}

#[test]
fn refinement_rejects_empty_and_oversized_maps() {
    assert_eq!(
        checked_area(0, 3).unwrap_err().to_string(),
        "terrain dimensions must be non-zero"
    );
    assert_eq!(
        checked_area(0x1_0000, 0x1_0000).unwrap_err().to_string(),
        "terrain area overflows u32"
    );
}
