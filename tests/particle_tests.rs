use xpbd_core::particle::{is_fluid_phase, phase_from_code, texture_side, Phase};

#[test]
fn fluid_and_gas_take_part_in_density() {
    assert!(is_fluid_phase(Phase::Fluid));
    assert!(is_fluid_phase(Phase::Gas));
    for p in [Phase::Free, Phase::Cloth, Phase::Rigid, Phase::Granular, Phase::Static] {
        assert!(!is_fluid_phase(p), "{:?} is not a fluid phase", p);
    }
}

#[test]
fn phase_codes_decode_with_free_as_fallback() {
    assert_eq!(phase_from_code(0), Phase::Free);
    assert_eq!(phase_from_code(1), Phase::Fluid);
    assert_eq!(phase_from_code(2), Phase::Cloth);
    assert_eq!(phase_from_code(3), Phase::Rigid);
    assert_eq!(phase_from_code(4), Phase::Granular);
    assert_eq!(phase_from_code(5), Phase::Gas);
    assert_eq!(phase_from_code(6), Phase::Static);
    assert_eq!(phase_from_code(7), Phase::Free);
    assert_eq!(phase_from_code(255), Phase::Free);
}

#[test]
fn texture_side_is_ceiling_square_root() {
    assert_eq!(texture_side(0), 0);
    assert_eq!(texture_side(1), 1);
    assert_eq!(texture_side(2), 2);
    assert_eq!(texture_side(4), 2);
    assert_eq!(texture_side(5), 3);
    assert_eq!(texture_side(1000), 32);
    assert_eq!(texture_side(1024), 32);
    assert_eq!(texture_side(1025), 33);
    assert_eq!(texture_side(u32::MAX as usize), 65536);
}
