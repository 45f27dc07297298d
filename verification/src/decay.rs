//! How a nuclide comes apart: the families of decay modes worth colouring
//! the chart by, read from the evaluators' codes.

use vstd::prelude::*;
use crate::text::{is_prefix, starts_with, same};

verus! {

/// How a nuclide comes apart. The evaluators spell them `B-`, `EC+B+`, `A`,
/// `SF`, `P`, `N`, `2B-`, `B-N`, and so on; these are the families worth
/// colouring the chart by.
#[derive(Clone, Copy, PartialEq, Eq, Structural, Debug)]
pub enum Decay {
    Stable,
    /// Beta minus: a neutron turns into a proton. Up and left on the chart.
    BetaMinus,
    /// Electron capture or positron emission. Down and right.
    BetaPlus,
    /// Alpha: two protons and two neutrons leave together.
    Alpha,
    /// Spontaneous fission.
    Fission,
    /// Proton emission, straight off the proton drip line.
    Proton,
    /// Neutron emission, off the neutron drip line.
    Neutron,
    /// Isomeric transition and anything else that keeps Z and N.
    Other,
    /// The evaluators have no decay mode for it.
    Unknown,
}

/// The family a decay code belongs to.
pub open spec fn family(c: Seq<char>) -> Decay {
    if c.len() == 0 {
        Decay::Unknown
    } else if c == seq!['I', 'T'] {
        Decay::Other
    } else if c == seq!['S', 'F'] {
        Decay::Fission
    } else if is_prefix(seq!['2', 'B', '-'], c) || is_prefix(seq!['B', '-'], c) {
        Decay::BetaMinus
    } else if is_prefix(seq!['E', 'C'], c) || is_prefix(seq!['B', '+'], c) || is_prefix(
        seq!['2', 'E', 'C'],
        c,
    ) {
        Decay::BetaPlus
    } else if is_prefix(seq!['A'], c) {
        Decay::Alpha
    } else if is_prefix(seq!['P'], c) || is_prefix(seq!['2', 'P'], c) {
        Decay::Proton
    } else if is_prefix(seq!['N'], c) || is_prefix(seq!['2', 'N'], c) {
        Decay::Neutron
    } else {
        Decay::Other
    }
}

/// The name of a family, as the readout shows it.
pub open spec fn label_of(d: Decay) -> Seq<char> {
    match d {
        Decay::Stable => "stable"@,
        Decay::BetaMinus => "β−"@,
        Decay::BetaPlus => "β+ / EC"@,
        Decay::Alpha => "α"@,
        Decay::Fission => "spontaneous fission"@,
        Decay::Proton => "proton emission"@,
        Decay::Neutron => "neutron emission"@,
        Decay::Other => "other"@,
        Decay::Unknown => "unknown"@,
    }
}

/// The one- or two-character form used on arrows in a chain.
pub open spec fn short_of(d: Decay) -> Seq<char> {
    match d {
        Decay::Stable => ""@,
        Decay::BetaMinus => "β−"@,
        Decay::BetaPlus => "β+"@,
        Decay::Alpha => "α"@,
        Decay::Fission => "SF"@,
        Decay::Proton => "p"@,
        Decay::Neutron => "n"@,
        Decay::Other => "IT"@,
        Decay::Unknown => "?"@,
    }
}

/// The colour a family is painted in.
pub open spec fn colour_of(d: Decay) -> (u8, u8, u8) {
    match d {
        Decay::Stable => (245, 245, 245),
        Decay::BetaMinus => (90, 150, 255),
        Decay::BetaPlus => (255, 105, 90),
        Decay::Alpha => (255, 205, 70),
        Decay::Fission => (200, 120, 255),
        Decay::Proton => (255, 150, 220),
        Decay::Neutron => (110, 225, 210),
        Decay::Other => (170, 170, 175),
        Decay::Unknown => (95, 95, 105),
    }
}

/// Where the daughter sits, as (ΔZ, ΔN); none for the families with no
/// single daughter.
pub open spec fn step_of(d: Decay) -> Option<(i32, i32)> {
    match d {
        Decay::BetaMinus => Some((1i32, -1i32)),
        Decay::BetaPlus => Some((-1i32, 1i32)),
        Decay::Alpha => Some((-2i32, -2i32)),
        Decay::Proton => Some((-1i32, 0i32)),
        Decay::Neutron => Some((0i32, -1i32)),
        _ => None,
    }
}

impl Decay {
    /// The family of a decay code such as `B-`, `EC+B+` or `A`.
    pub fn parse(code: &str) -> (d: Decay)
        ensures
            d == family(code@),
    {
        proof {
            reveal_strlit("");
            reveal_strlit("IT");
            reveal_strlit("SF");
            reveal_strlit("2B-");
            reveal_strlit("B-");
            reveal_strlit("EC");
            reveal_strlit("B+");
            reveal_strlit("2EC");
            reveal_strlit("A");
            reveal_strlit("P");
            reveal_strlit("2P");
            reveal_strlit("N");
            reveal_strlit("2N");
            assert("IT"@ =~= seq!['I', 'T']);
            assert("SF"@ =~= seq!['S', 'F']);
            assert("2B-"@ =~= seq!['2', 'B', '-']);
            assert("B-"@ =~= seq!['B', '-']);
            assert("EC"@ =~= seq!['E', 'C']);
            assert("B+"@ =~= seq!['B', '+']);
            assert("2EC"@ =~= seq!['2', 'E', 'C']);
            assert("A"@ =~= seq!['A']);
            assert("P"@ =~= seq!['P']);
            assert("2P"@ =~= seq!['2', 'P']);
            assert("N"@ =~= seq!['N']);
            assert("2N"@ =~= seq!['2', 'N']);
        }
        if code.unicode_len() == 0 {
            Decay::Unknown
        } else if same(code, "IT") {
            Decay::Other
        } else if same(code, "SF") {
            Decay::Fission
        } else if starts_with(code, "2B-") || starts_with(code, "B-") {
            Decay::BetaMinus
        } else if starts_with(code, "EC") || starts_with(code, "B+") || starts_with(code, "2EC") {
            Decay::BetaPlus
        } else if starts_with(code, "A") {
            Decay::Alpha
        } else if starts_with(code, "P") || starts_with(code, "2P") {
            Decay::Proton
        } else if starts_with(code, "N") || starts_with(code, "2N") {
            Decay::Neutron
        } else {
            Decay::Other
        }
    }

    /// The family's name, as the readout shows it.
    pub fn label(&self) -> (s: &'static str)
        ensures
            s@ == label_of(*self),
    {
        match self {
            Decay::Stable => "stable",
            Decay::BetaMinus => "β−",
            Decay::BetaPlus => "β+ / EC",
            Decay::Alpha => "α",
            Decay::Fission => "spontaneous fission",
            Decay::Proton => "proton emission",
            Decay::Neutron => "neutron emission",
            Decay::Other => "other",
            Decay::Unknown => "unknown",
        }
    }

    /// The one- or two-character form used on arrows in a chain.
    pub fn short(&self) -> (s: &'static str)
        ensures
            s@ == short_of(*self),
    {
        match self {
            Decay::Stable => "",
            Decay::BetaMinus => "β−",
            Decay::BetaPlus => "β+",
            Decay::Alpha => "α",
            Decay::Fission => "SF",
            Decay::Proton => "p",
            Decay::Neutron => "n",
            Decay::Other => "IT",
            Decay::Unknown => "?",
        }
    }

    /// The colour the family is painted in.
    pub fn rgb(&self) -> (c: (u8, u8, u8))
        ensures
            c == colour_of(*self),
    {
        match self {
            Decay::Stable => (245, 245, 245),
            Decay::BetaMinus => (90, 150, 255),
            Decay::BetaPlus => (255, 105, 90),
            Decay::Alpha => (255, 205, 70),
            Decay::Fission => (200, 120, 255),
            Decay::Proton => (255, 150, 220),
            Decay::Neutron => (110, 225, 210),
            Decay::Other => (170, 170, 175),
            Decay::Unknown => (95, 95, 105),
        }
    }

    /// Where the daughter sits, as (ΔZ, ΔN). Fission and the unknowns
    /// have no single daughter, so a chain stops there.
    pub fn step(&self) -> (s: Option<(i32, i32)>)
        ensures
            s == step_of(*self),
    {
        match self {
            Decay::BetaMinus => Some((1, -1)),
            Decay::BetaPlus => Some((-1, 1)),
            Decay::Alpha => Some((-2, -2)),
            Decay::Proton => Some((-1, 0)),
            Decay::Neutron => Some((0, -1)),
            _ => None,
        }
    }
}

/// A code is read as unknown exactly when it is empty, and no code is ever
/// read as stable: stability is the table's word, not a decay mode's.
pub proof fn parse_law_unknown_and_stable(c: Seq<char>)
    ensures
        (family(c) == Decay::Unknown) <==> c.len() == 0,
        family(c) != Decay::Stable,
{
}

/// The families that have a daughter move it to a lighter or equal mass
/// number: beta decays keep A, alpha takes four, proton and neutron
/// emission take one; and the families that keep Z and N, or have no single
/// daughter, have no step at all.
pub proof fn step_law_mass_number(d: Decay)
    ensures
        step_of(d) matches Some((dz, dn)) ==> (dz + dn <= 0 && (dz != 0 || dn != 0)),
        d == Decay::BetaMinus || d == Decay::BetaPlus ==> (step_of(d) is Some && step_of(
            d,
        ).unwrap().0 + step_of(d).unwrap().1 == 0),
        d == Decay::Alpha ==> (step_of(d) is Some && step_of(d).unwrap().0 + step_of(
            d,
        ).unwrap().1 == -4),
        d == Decay::Proton || d == Decay::Neutron ==> (step_of(d) is Some && step_of(
            d,
        ).unwrap().0 + step_of(d).unwrap().1 == -1),
        step_of(d) is None <==> (d == Decay::Stable || d == Decay::Fission || d == Decay::Other
            || d == Decay::Unknown),
{
}

} // verus!
