use xpbd_core::particle::Phase;
use xpbd_core::topology::{cloth_edges, cloth_hinges, ConstraintTopology, RigidGroup, TopologyError};

#[test]
fn test_create_cloth_generates_constraints() {
    let mut topo = ConstraintTopology::new(100);
    assert_eq!(topo.create_cloth(0, 5, 5), Ok(()));

    // Horizontal 5 * 4 = 20, vertical 4 * 5 = 20, diagonal 4 * 4 * 2 = 32.
    assert_eq!(topo.distance_edges().len(), 72);
    assert!(topo.bending_hinges().len() > 0);

    for i in 0..25 {
        assert_eq!(topo.phases()[i], Phase::Cloth);
    }
    for i in 25..100 {
        assert_eq!(topo.phases()[i], Phase::Free);
    }
}

#[test]
fn test_clear_constraints_resets_phase() {
    let mut topo = ConstraintTopology::new(20);

    assert_eq!(topo.create_cloth(0, 4, 4), Ok(()));
    assert_eq!(topo.create_rigid_body(16, 4), Ok(()));

    let has_cloth = topo.phases()[..16].iter().any(|p| *p == Phase::Cloth);
    let has_rigid = topo.phases()[16..20].iter().any(|p| *p == Phase::Rigid);
    assert!(has_cloth, "should have Cloth particles after create_cloth");
    assert!(has_rigid, "should have Rigid particles after create_rigid_body");

    topo.clear_constraints();

    for i in 0..20 {
        assert_eq!(
            topo.phases()[i],
            Phase::Free,
            "particle {} should be Phase::Free after clear_constraints, got {:?}",
            i,
            topo.phases()[i]
        );
    }
    assert!(topo.distance_edges().is_empty(), "distance_constraints should be empty after clear_constraints");
    assert!(topo.bending_hinges().is_empty(), "bending_constraints should be empty after clear_constraints");
    assert!(topo.rigid_groups().is_empty(), "shape_match_groups should be empty after clear_constraints");
}

#[test]
fn test_create_cloth_overflow_guard() {
    let mut topo = ConstraintTopology::new(20);
    // 15 + 3 * 3 = 24 > 20
    assert_eq!(topo.create_cloth(15, 3, 3), Err(TopologyError::CapacityExceeded));
    assert!(topo.distance_edges().is_empty(), "Overflow should prevent cloth creation");
    for i in 0..20 {
        assert_eq!(topo.phases()[i], Phase::Free, "Overflow should not change phases");
    }
}

#[test]
fn test_create_rigid_body_overflow_guard() {
    let mut topo = ConstraintTopology::new(10);
    // 8 + 5 = 13 > 10
    assert_eq!(topo.create_rigid_body(8, 5), Err(TopologyError::CapacityExceeded));
    assert!(topo.rigid_groups().is_empty(), "Overflow should prevent rigid body creation");
    for i in 0..10 {
        assert_eq!(topo.phases()[i], Phase::Free);
    }
}

#[test]
fn test_rigid_body_creation() {
    let mut topo = ConstraintTopology::new(10);
    assert_eq!(topo.create_rigid_body(0, 4), Ok(()));

    for i in 0..4 {
        assert_eq!(topo.phases()[i], Phase::Rigid);
    }
    for i in 4..10 {
        assert_eq!(topo.phases()[i], Phase::Free);
    }
    assert_eq!(topo.rigid_groups().len(), 1);
    assert_eq!(topo.rigid_groups()[0], RigidGroup { start: 0, count: 4 });
}

#[test]
fn cloth_edges_of_two_by_two() {
    // Particles 10 11 / 12 13.
    let edges = cloth_edges(10, 2, 2);
    assert_eq!(edges, vec![(10, 11), (12, 13), (10, 12), (11, 13), (10, 13), (11, 12)]);
}

#[test]
fn cloth_hinges_of_three_by_three() {
    // Particles 0 1 2 / 3 4 5 / 6 7 8: four square diagonals, two interior
    // horizontal edges, two interior vertical edges.
    let hinges = cloth_hinges(0, 3, 3);
    assert_eq!(hinges.len(), 8);
    assert_eq!(hinges[0], (0, 4, 1, 3));
    assert_eq!(hinges[3], (4, 8, 5, 7));
    assert_eq!(hinges[4], (3, 4, 7, 0));
    assert_eq!(hinges[5], (4, 5, 8, 1));
    assert_eq!(hinges[6], (1, 4, 5, 0));
    assert_eq!(hinges[7], (4, 7, 8, 3));
}

#[test]
fn cloth_of_a_single_row_has_only_horizontal_edges() {
    assert_eq!(cloth_edges(0, 4, 1), vec![(0, 1), (1, 2), (2, 3)]);
    assert!(cloth_hinges(0, 4, 1).is_empty());
    assert!(cloth_edges(0, 0, 5).is_empty());
    assert!(cloth_edges(0, 5, 0).is_empty());
}

#[test]
fn cloth_that_exactly_fills_the_particles_is_accepted() {
    let mut topo = ConstraintTopology::new(9);
    assert_eq!(topo.create_cloth(0, 3, 3), Ok(()));
    assert_eq!(topo.distance_edges().len(), 6 + 6 + 8);
    assert_eq!(topo.bending_hinges().len(), 8);
    // A second cloth past the end is refused and changes nothing.
    assert_eq!(topo.create_cloth(1, 3, 3), Err(TopologyError::CapacityExceeded));
    assert_eq!(topo.distance_edges().len(), 20);
}

#[test]
fn set_particle_phase_ignores_out_of_range() {
    let mut topo = ConstraintTopology::new(3);
    topo.set_particle_phase(1, Phase::Fluid);
    topo.set_particle_phase(3, Phase::Gas);
    assert_eq!(topo.phases(), &vec![Phase::Free, Phase::Fluid, Phase::Free]);
    topo.set_all_particles_phase(Phase::Static);
    assert_eq!(topo.phases(), &vec![Phase::Static; 3]);
    assert_eq!(topo.particle_count(), 3);
}

#[test]
fn cloth_edges_and_hinges_stay_inside_the_cloth() {
    let (start, w, h) = (5u32, 4usize, 3usize);
    let end = start + (w * h) as u32;
    let edges = cloth_edges(start as usize, w, h);
    assert_eq!(edges.len(), 3 * 3 + 4 * 2 + 2 * 3 * 2);
    for &(i, j) in &edges {
        assert!(start <= i && i < end && start <= j && j < end);
        assert_ne!(i, j);
    }
    let hinges = cloth_hinges(start as usize, w, h);
    assert_eq!(hinges.len(), 3 * 2 + 3 * 1 + 2 * 2);
    for &(i, j, k, l) in &hinges {
        for x in [i, j, k, l] {
            assert!(start <= x && x < end);
        }
    }
}
