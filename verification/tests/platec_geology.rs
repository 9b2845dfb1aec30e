use lib::geology::{
    boundary_kinds, validate_len, validate_plate_velocities, BoundaryKind, CrustKind,
    MotionRelation,
};

#[test]
fn geology_detects_plate_boundaries_and_classifies_relation_by_crust() {
    let crust = [CrustKind::Oceanic, CrustKind::Continental, CrustKind::Continental];
    let kinds = boundary_kinds(3, 1, &[1, 2, 2], &crust, &[None; 3], &[None; 3]);

    assert_eq!(
        kinds,
        vec![
            BoundaryKind::SubductionCandidate,
            BoundaryKind::SubductionCandidate,
            BoundaryKind::SubductionCandidate,
        ]
    );
}

#[test]
fn geology_marks_continental_collision_as_orogenic_without_volcanic_arc() {
    let crust = [CrustKind::Continental, CrustKind::Continental];
    let kinds = boundary_kinds(2, 1, &[1, 2], &crust, &[None; 2], &[None; 2]);

    assert_eq!(
        kinds,
        vec![
            BoundaryKind::ContinentalCollision,
            BoundaryKind::ContinentalCollision
        ]
    );
}

#[test]
fn geology_uses_plate_velocity_to_detect_divergent_boundaries() {
    let crust = [CrustKind::Continental, CrustKind::Continental];
    let kinds = boundary_kinds(
        2,
        1,
        &[0, 1],
        &crust,
        &[Some(MotionRelation::Divergent), None],
        &[None; 2],
    );

    assert_eq!(
        kinds,
        vec![
            BoundaryKind::DivergentBoundary,
            BoundaryKind::DivergentBoundary
        ]
    );
}

#[test]
fn geology_uses_plate_velocity_to_detect_transform_boundaries() {
    let crust = [CrustKind::Continental, CrustKind::Continental];
    let kinds = boundary_kinds(
        2,
        1,
        &[0, 1],
        &crust,
        &[Some(MotionRelation::Transform), None],
        &[None; 2],
    );

    assert_eq!(
        kinds,
        vec![
            BoundaryKind::TransformBoundary,
            BoundaryKind::TransformBoundary
        ]
    );
}

#[test]
fn geology_uses_plate_velocity_to_confirm_convergent_boundaries() {
    let crust = [CrustKind::Continental, CrustKind::Continental];
    let kinds = boundary_kinds(
        2,
        1,
        &[0, 1],
        &crust,
        &[Some(MotionRelation::Convergent), None],
        &[None; 2],
    );

    assert_eq!(
        kinds,
        vec![
            BoundaryKind::ContinentalCollision,
            BoundaryKind::ContinentalCollision
        ]
    );
}

#[test]
fn geology_rejects_layers_with_wrong_length() {
    let error = validate_len("heightmap", 3, 4).unwrap_err();

    assert_eq!(
        error.to_string(),
        "heightmap length 3 does not match map area 4"
    );
}

#[test]
fn geology_rejects_velocity_tables_missing_plate_ids() {
    let error = validate_plate_velocities(&[0, 2], Some(2)).unwrap_err();

    assert_eq!(
        error.to_string(),
        "plate_velocities length 2 does not contain plate id 2"
    );
}
