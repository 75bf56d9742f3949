use vstd::prelude::*;

verus! {

/// The category a track is classified into.
#[derive(Clone, Copy, Debug, PartialEq, Eq, Hash, Structural)]
pub enum PartType {
    ALPHA,
    BETA,
    GAMMA,
    MUON,
    UNKNOWN,
}

/// Where a track's largest reading lies against the two energy thresholds
/// of the classifier (100 and 150).
#[derive(Clone, Copy, Debug, PartialEq, Eq, Hash, Structural)]
pub enum MaxBand {
    /// below 100
    Under100,
    /// exactly 100
    At100,
    /// above 100 and below 150
    Under150,
    /// 150 or more
    AtLeast150,
}

/// A feature the classifier needs before it can go on.
#[derive(Clone, Copy, Debug, PartialEq, Eq, Hash, Structural)]
pub enum Need {
    /// the band of the largest reading
    MaxEnergy,
    /// whether the mean reading is below 40
    AvgEnergy,
    /// whether the hull's roundness is above 0.4
    Roundness,
    /// whether the winding is above 1
    Winding,
}

/// The classifier's answer: a label, or the next feature it needs.
#[derive(Clone, Copy, Debug, PartialEq, Eq, Hash, Structural)]
pub enum Verdict {
    Decided(PartType),
    Needs(Need),
}

/// What is known so far of a track's features, each as the outcome of the
/// comparisons that the classifier makes on it.
#[derive(Clone, Copy, Debug, PartialEq, Eq, Hash, Structural)]
pub struct Findings {
    pub max_energy: Option<MaxBand>,
    pub avg_below_40: Option<bool>,
    pub roundness_above: Option<bool>,
    pub winding_above_one: Option<bool>,
}

/// Below this many cells a track is a gamma.
pub const SMALL_TRACK: usize = 4;

/// From this many cells on a track is judged by the rules for long tracks.
pub const LONG_TRACK: usize = 50;

/// The largest reading is below 150.
pub open spec fn under_150(m: MaxBand) -> bool {
    m == MaxBand::Under100 || m == MaxBand::At100 || m == MaxBand::Under150
}

/// The largest reading is above 100.
pub open spec fn over_100(m: MaxBand) -> bool {
    m == MaxBand::Under150 || m == MaxBand::AtLeast150
}

/// The label of a track of `size` cells with the given feature outcomes.
pub open spec fn particle_label(
    size: nat,
    max: MaxBand,
    avg_low: bool,
    round_high: bool,
    wind_high: bool,
) -> PartType {
    if size < 4 {
        PartType::GAMMA
    } else if size < 50 {
        if under_150(max) && avg_low {
            PartType::BETA
        } else if over_100(max) && round_high {
            PartType::ALPHA
        } else {
            PartType::UNKNOWN
        }
    } else {
        if max == MaxBand::Under100 && avg_low {
            if wind_high {
                PartType::BETA
            } else {
                PartType::MUON
            }
        } else if max == MaxBand::Under100 {
            PartType::UNKNOWN
        } else if round_high {
            PartType::ALPHA
        } else {
            PartType::UNKNOWN
        }
    }
}

/// The classifier's next step on a track of `size` cells: it asks for a
/// feature only when the branch it is on reads it, in the order in which
/// the branches read them.
pub open spec fn next_step(size: nat, f: Findings) -> Verdict {
    if size < 4 {
        Verdict::Decided(PartType::GAMMA)
    } else {
        match f.max_energy {
            None => Verdict::Needs(Need::MaxEnergy),
            Some(m) => {
                let low_band = if size < 50 {
                    under_150(m)
                } else {
                    m == MaxBand::Under100
                };
                if low_band && f.avg_below_40 is None {
                    Verdict::Needs(Need::AvgEnergy)
                } else if low_band && f.avg_below_40 == Some(true) {
                    match f.winding_above_one {
                        None => Verdict::Needs(Need::Winding),
                        Some(w) => Verdict::Decided(particle_label(size, m, true, false, w)),
                    }
                } else if (size < 50 && !over_100(m)) || (size >= 50 && m == MaxBand::Under100) {
                    Verdict::Decided(PartType::UNKNOWN)
                } else {
                    match f.roundness_above {
                        None => Verdict::Needs(Need::Roundness),
                        Some(rh) => Verdict::Decided(particle_label(size, m, false, rh, false)),
                    }
                }
            },
        }
    }
}

/// `f` agrees with the given outcomes wherever it knows one.
pub open spec fn consistent(
    f: Findings,
    max: MaxBand,
    avg_low: bool,
    round_high: bool,
    wind_high: bool,
) -> bool {
    &&& (f.max_energy is Some ==> f.max_energy == Some(max))
    &&& (f.avg_below_40 is Some ==> f.avg_below_40 == Some(avg_low))
    &&& (f.roundness_above is Some ==> f.roundness_above == Some(round_high))
    &&& (f.winding_above_one is Some ==> f.winding_above_one == Some(wind_high))
}

/// Whether `f` already holds the feature `n`.
pub open spec fn knows(f: Findings, n: Need) -> bool {
    match n {
        Need::MaxEnergy => f.max_energy is Some,
        Need::AvgEnergy => f.avg_below_40 is Some,
        Need::Roundness => f.roundness_above is Some,
        Need::Winding => f.winding_above_one is Some,
    }
}

/// Once every feature is known, the classifier decides, and its label is
/// the one that the features give: the label is a function of the track's
/// size and its feature outcomes alone.
pub proof fn law_complete_findings_decide(
    size: nat,
    max: MaxBand,
    avg_low: bool,
    round_high: bool,
    wind_high: bool,
)
    ensures
        next_step(
            size,
            Findings {
                max_energy: Some(max),
                avg_below_40: Some(avg_low),
                roundness_above: Some(round_high),
                winding_above_one: Some(wind_high),
            },
        ) == Verdict::Decided(particle_label(size, max, avg_low, round_high, wind_high)),
{
}

/// A label decided on part of the features is the label of every track
/// whose features agree with that part: what was not asked for does not
/// matter.
pub proof fn law_early_decision_is_final(
    size: nat,
    f: Findings,
    max: MaxBand,
    avg_low: bool,
    round_high: bool,
    wind_high: bool,
)
    requires
        consistent(f, max, avg_low, round_high, wind_high),
        next_step(size, f) is Decided,
    ensures
        next_step(size, f)->Decided_0 == particle_label(size, max, avg_low, round_high, wind_high),
{
}

/// The classifier only asks for a feature it does not know yet, so it
/// decides after at most four answers.
pub proof fn law_asks_only_for_unknowns(size: nat, f: Findings)
    ensures
        next_step(size, f) is Needs ==> !knows(f, next_step(size, f)->Needs_0),
{
}

/// A track of fewer than four cells is a gamma, and nothing is computed to
/// say so.
pub proof fn law_small_tracks_need_nothing(size: nat, f: Findings)
    requires
        size < 4,
    ensures
        next_step(size, f) == Verdict::Decided(PartType::GAMMA),
{
}

/// Takes one step of the classifier on a track of `size` cells.
pub fn classify(size: usize, f: &Findings) -> (v: Verdict)
    ensures
        v == next_step(size as nat, *f),
{
    if size < SMALL_TRACK {
        return Verdict::Decided(PartType::GAMMA);
    }
    let m = match f.max_energy {
        None => {
            return Verdict::Needs(Need::MaxEnergy);
        },
        Some(m) => m,
    };
    let long = size >= LONG_TRACK;
    let low_band = if long {
        m == MaxBand::Under100
    } else {
        m == MaxBand::Under100 || m == MaxBand::At100 || m == MaxBand::Under150
    };
    if low_band {
        match f.avg_below_40 {
            None => {
                return Verdict::Needs(Need::AvgEnergy);
            },
            Some(true) => {
                // short tracks read the winding too, though both outcomes
                // give a beta there
                return match f.winding_above_one {
                    None => Verdict::Needs(Need::Winding),
                    Some(w) => {
                        if long && !w {
                            Verdict::Decided(PartType::MUON)
                        } else {
                            Verdict::Decided(PartType::BETA)
                        }
                    },
                };
            },
            Some(false) => {},
        }
    }
    let over_100 = m == MaxBand::Under150 || m == MaxBand::AtLeast150;
    if (!long && !over_100) || (long && m == MaxBand::Under100) {
        return Verdict::Decided(PartType::UNKNOWN);
    }
    match f.roundness_above {
        None => Verdict::Needs(Need::Roundness),
        Some(true) => Verdict::Decided(PartType::ALPHA),
        Some(false) => Verdict::Decided(PartType::UNKNOWN),
    }
}

} // verus!
