use vstd::prelude::*;

verus! {

/// Which constraint families apply to a particle.
#[derive(Clone, Copy, PartialEq, Eq, Debug, Structural)]
pub enum Phase {
    /// No constraints, only forces.
    Free,
    /// Density (position-based fluid) constraints.
    Fluid,
    /// Distance and bending constraints.
    Cloth,
    /// Shape matching constraints.
    Rigid,
    /// Friction-dominated contacts.
    Granular,
    /// Low-density fluid; takes part in density constraints.
    Gas,
    /// Immovable boundary particle.
    Static,
}

/// Phases that take part in the density constraint.
pub open spec fn fluid_like(phase: Phase) -> bool {
    phase == Phase::Fluid || phase == Phase::Gas
}

/// True for the phases that take part in the density constraint.
pub fn is_fluid_phase(phase: Phase) -> (r: bool)
    ensures
        r == fluid_like(phase),
{
    match phase {
        Phase::Fluid | Phase::Gas => true,
        _ => false,
    }
}

/// The phase that a host's one-byte code stands for; unknown codes are `Free`.
pub open spec fn phase_of_code(code: u8) -> Phase {
    if code == 1 {
        Phase::Fluid
    } else if code == 2 {
        Phase::Cloth
    } else if code == 3 {
        Phase::Rigid
    } else if code == 4 {
        Phase::Granular
    } else if code == 5 {
        Phase::Gas
    } else if code == 6 {
        Phase::Static
    } else {
        Phase::Free
    }
}

/// Decodes a host's one-byte phase code.
pub fn phase_from_code(code: u8) -> (r: Phase)
    ensures
        r == phase_of_code(code),
{
    match code {
        1 => Phase::Fluid,
        2 => Phase::Cloth,
        3 => Phase::Rigid,
        4 => Phase::Granular,
        5 => Phase::Gas,
        6 => Phase::Static,
        _ => Phase::Free,
    }
}

/// Side of the smallest square texture with a texel per particle: the least `r`
/// with `r * r >= count`.
pub fn texture_side(count: usize) -> (r: usize)
    requires
        count <= u32::MAX,
    ensures
        r * r >= count,
        r == 0 || (r - 1) * (r - 1) < count,
{
    let mut s: u64 = 0;
    while s * s < count as u64
        invariant
            count <= u32::MAX,
            s <= 65536,
            s * s <= 65536 * 65536,
            s <= count + 1,
            s == 0 || (s - 1) * (s - 1) < count,
        decreases count + 1 - s,
    {
        assert(s < 65536 && s < count) by (nonlinear_arith)
            requires
                s * s < count,
                count <= u32::MAX,
        ;
        assert((s + 1) * (s + 1) <= 65536 * 65536) by (nonlinear_arith)
            requires
                s < 65536,
        ;
        s += 1;
    }
    s as usize
}

} // verus!
