//! The class of a file's signal, from its axes.
//!
//! Axes stand as the bits of double-precision numbers in the unit interval.

use vstd::prelude::*;

use crate::ieee;
use crate::ieee::{is_at_least, is_greater};

verus! {

/// The seven axes of a file.
#[derive(Clone, Copy)]
pub struct Axes {
    pub change_density: u64,
    pub author_entropy: u64,
    pub temporal_volatility: u64,
    pub coupling_stress: u64,
    pub blame_youth: u64,
    pub semantic_drift: u64,
    pub test_cooevolution: u64,
}

/// What the axes of a file amount to.
#[derive(Clone, Copy, PartialEq, Eq, Structural, Debug)]
pub enum SignalClass {
    /// Concentrated ownership pushing public interface change.
    RefactorConvergence,
    /// Public interface change under many hands.
    ApiDrift,
    /// Activity spread over many authors.
    OwnershipFragmentation,
    /// Active firefighting.
    IncidentAftershock,
    /// A quiet file that many others change with.
    CoupledAmplifier,
    /// Near-zero signal on every axis.
    FrozenNeglect,
}

/// Bits of 0.15.
pub const NEGLECT: u64 = 0x3fc3_3333_3333_3333;

/// Bits of 0.3.
pub const SPARSE: u64 = 0x3fd3_3333_3333_3333;

/// Bits of 0.4.
pub const CONCENTRATED: u64 = 0x3fd9_9999_9999_999a;

/// Bits of 0.6.
pub const DRIFTING: u64 = 0x3fe3_3333_3333_3333;

/// Bits of 0.7.
pub const COUPLED: u64 = 0x3fe6_6666_6666_6666;

/// Bits of 0.8.
pub const DISPERSED: u64 = 0x3fe9_9999_9999_999a;

/// Bits of 0.3: the volatility above which a file with incidents is in active
/// firefighting.
pub const AFTERSHOCK_VT_THRESHOLD: u64 = 0x3fd3_3333_3333_3333;

/// The class by the axes alone, the most specific rule first.
pub open spec fn class_by_rule(m: Axes) -> Option<SignalClass> {
    let d = m.change_density;
    let h = m.author_entropy;
    let v = m.temporal_volatility;
    let c = m.coupling_stress;
    let s = m.semantic_drift;
    if ieee::greater(SPARSE, d) && ieee::greater(c, COUPLED) {
        Some(SignalClass::CoupledAmplifier)
    } else if ieee::greater(s, DRIFTING) && ieee::greater(CONCENTRATED, h) {
        Some(SignalClass::RefactorConvergence)
    } else if ieee::greater(s, DRIFTING) && ieee::at_least(h, CONCENTRATED) {
        Some(SignalClass::ApiDrift)
    } else if ieee::greater(h, DISPERSED) && ieee::greater(d, SPARSE) {
        Some(SignalClass::OwnershipFragmentation)
    } else if ieee::greater(NEGLECT, d) && ieee::greater(NEGLECT, h) && ieee::greater(NEGLECT, v)
        && ieee::greater(NEGLECT, c) {
        Some(SignalClass::FrozenNeglect)
    } else {
        None
    }
}

/// A volatile file with incidents is in their aftershock, whatever the rules
/// say; any other has the class by rule.
pub open spec fn class_of(m: Axes, incident: bool) -> Option<SignalClass> {
    if incident && ieee::greater(m.temporal_volatility, AFTERSHOCK_VT_THRESHOLD) {
        Some(SignalClass::IncidentAftershock)
    } else {
        class_by_rule(m)
    }
}

/// No rule alone speaks of an aftershock: it takes an incident.
pub proof fn aftershock_takes_incident(m: Axes, incident: bool)
    ensures
        class_of(m, incident) == Some(SignalClass::IncidentAftershock) <==> incident
            && ieee::greater(m.temporal_volatility, AFTERSHOCK_VT_THRESHOLD),
{
}

/// The class by the axes alone.
pub fn classify(m: &Axes) -> (r: Option<SignalClass>)
    ensures
        r == class_by_rule(*m),
{
    let d: u64 = m.change_density;
    let h: u64 = m.author_entropy;
    let v: u64 = m.temporal_volatility;
    let c: u64 = m.coupling_stress;
    let s: u64 = m.semantic_drift;
    if is_greater(SPARSE, d) && is_greater(c, COUPLED) {
        return Some(SignalClass::CoupledAmplifier);
    }
    if is_greater(s, DRIFTING) && is_greater(CONCENTRATED, h) {
        return Some(SignalClass::RefactorConvergence);
    }
    if is_greater(s, DRIFTING) && is_at_least(h, CONCENTRATED) {
        return Some(SignalClass::ApiDrift);
    }
    if is_greater(h, DISPERSED) && is_greater(d, SPARSE) {
        return Some(SignalClass::OwnershipFragmentation);
    }
    if is_greater(NEGLECT, d) && is_greater(NEGLECT, h) && is_greater(NEGLECT, v) && is_greater(
        NEGLECT,
        c,
    ) {
        return Some(SignalClass::FrozenNeglect);
    }
    None
}

/// The class of a file that had incidents, or none.
pub fn classify_with(m: &Axes, incident: bool) -> (r: Option<SignalClass>)
    ensures
        r == class_of(*m, incident),
{
    if incident && is_greater(m.temporal_volatility, AFTERSHOCK_VT_THRESHOLD) {
        Some(SignalClass::IncidentAftershock)
    } else {
        classify(m)
    }
}

// ---- what each class says of a file ----------------------------------

/// A file with incidents and a volatility above 0.3 is in their aftershock; no
/// other is.
pub proof fn aftershocks_are_volatile(m: Axes, incident: bool)
    ensures
        class_of(m, incident) == Some(SignalClass::IncidentAftershock) <==> incident
            && ieee::greater(m.temporal_volatility, 0x3fd3_3333_3333_3333),
        !incident ==> class_of(m, incident) == class_by_rule(m),
        !ieee::greater(m.temporal_volatility, 0x3fd3_3333_3333_3333) ==> class_of(m, incident)
            == class_by_rule(m),
{
}

/// A file that seldom changes (below 0.3) and is much coupled (above 0.7)
/// amplifies, whatever its other axes are, and no other file does.
pub proof fn amplifiers_are_quiet_and_coupled(m: Axes)
    ensures
        class_by_rule(m) == Some(SignalClass::CoupledAmplifier) <==> ieee::greater(
            0x3fd3_3333_3333_3333,
            m.change_density,
        ) && ieee::greater(m.coupling_stress, 0x3fe6_6666_6666_6666),
{
}

/// Of the files that drift (above 0.6) and do not amplify, those of few authors
/// (entropy below 0.4) converge and the others drift; without drift there is
/// neither.
pub proof fn drifting_files_converge_or_drift(m: Axes)
    requires
        !ieee::is_nan(m.author_entropy),
        class_by_rule(m) != Some(SignalClass::CoupledAmplifier),
    ensures
        class_by_rule(m) == Some(SignalClass::RefactorConvergence) || class_by_rule(m) == Some(
            SignalClass::ApiDrift,
        ) <==> ieee::greater(m.semantic_drift, 0x3fe3_3333_3333_3333),
        class_by_rule(m) == Some(SignalClass::RefactorConvergence) ==> ieee::greater(
            0x3fd9_9999_9999_999a,
            m.author_entropy,
        ),
        class_by_rule(m) == Some(SignalClass::ApiDrift) ==> ieee::at_least(
            m.author_entropy,
            0x3fd9_9999_9999_999a,
        ),
{
}

/// A file with a fragmented ownership changes (above 0.3), has many authors
/// (entropy above 0.8) and does not drift; every such file that does not
/// amplify is one.
pub proof fn fragmented_files_have_many_authors(m: Axes)
    ensures
        class_by_rule(m) == Some(SignalClass::OwnershipFragmentation) <==> ieee::greater(
            m.author_entropy,
            0x3fe9_9999_9999_999a,
        ) && ieee::greater(m.change_density, 0x3fd3_3333_3333_3333) && !ieee::greater(
            m.semantic_drift,
            0x3fe3_3333_3333_3333,
        ),
{
}

/// A neglected file is below 0.15 on four axes and does not drift.
pub proof fn neglected_files_are_still(m: Axes)
    ensures
        class_by_rule(m) == Some(SignalClass::FrozenNeglect) <==> ieee::greater(
            0x3fc3_3333_3333_3333,
            m.change_density,
        ) && ieee::greater(0x3fc3_3333_3333_3333, m.author_entropy) && ieee::greater(
            0x3fc3_3333_3333_3333,
            m.temporal_volatility,
        ) && ieee::greater(0x3fc3_3333_3333_3333, m.coupling_stress) && !ieee::greater(
            m.semantic_drift,
            0x3fe3_3333_3333_3333,
        ),
{
}

/// How young the lines are and how a file moves with its tests have no part in
/// its class.
pub proof fn two_axes_have_no_class(m: Axes, incident: bool, youth: u64, tests: u64)
    ensures
        class_of(Axes { blame_youth: youth, test_cooevolution: tests, ..m }, incident)
            == class_of(m, incident),
{
}

} // verus!
