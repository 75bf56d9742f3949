use particle_tracks::classifier::{classify, Findings, MaxBand, Need, PartType, Verdict};
use particle_tracks::extractor::extract;
use particle_tracks::particle::Particle;

fn none() -> Findings {
    Findings { max_energy: None, avg_below_40: None, roundness_above: None, winding_above_one: None }
}

fn all(max: MaxBand, avg_low: bool, round_high: bool, wind_high: bool) -> Findings {
    Findings {
        max_energy: Some(max),
        avg_below_40: Some(avg_low),
        roundness_above: Some(round_high),
        winding_above_one: Some(wind_high),
    }
}

fn band(max: f32) -> MaxBand {
    if max < 100.0 {
        MaxBand::Under100
    } else if max == 100.0 {
        MaxBand::At100
    } else if max < 150.0 {
        MaxBand::Under150
    } else {
        MaxBand::AtLeast150
    }
}

/// Runs the classifier to the end, answering each question from the given
/// outcomes, and returns the label with the questions asked.
fn settle(size: usize, max: MaxBand, avg_low: bool, round_high: bool, wind_high: bool) -> (PartType, Vec<Need>) {
    let mut f = none();
    let mut asked = Vec::new();
    loop {
        match classify(size, &f) {
            Verdict::Decided(t) => return (t, asked),
            Verdict::Needs(n) => {
                asked.push(n);
                match n {
                    Need::MaxEnergy => f.max_energy = Some(max),
                    Need::AvgEnergy => f.avg_below_40 = Some(avg_low),
                    Need::Roundness => f.roundness_above = Some(round_high),
                    Need::Winding => f.winding_above_one = Some(wind_high),
                }
            }
        }
    }
}

#[test]
fn solid_square_of_unit_energy_is_a_beta() {
    let mut grid = vec![vec![false; 10]; 10];
    let mut energy = vec![vec![0.0f32; 10]; 10];
    for x in 3..6 {
        for y in 3..6 {
            grid[x][y] = true;
            energy[x][y] = 1.0;
        }
    }
    let mut id_map = vec![vec![0usize; 10]; 10];
    let tracks = extract(&grid, &mut id_map, 1);
    assert_eq!(tracks.len(), 1);
    let p = Particle::new(tracks.values().next().unwrap().clone());
    assert_eq!(p.size(), 9);
    let cells = p.get_track();
    let max = cells.iter().map(|&(x, y)| energy[x][y]).fold(0.0f32, f32::max);
    let avg = cells.iter().map(|&(x, y)| energy[x][y]).sum::<f32>() / cells.len() as f32;
    assert_eq!(max, 1.0);
    assert_eq!(avg, 1.0);
    let (t, asked) = settle(p.size(), band(max), avg < 40.0, false, false);
    assert_eq!(t, PartType::BETA);
    assert_eq!(asked, vec![Need::MaxEnergy, Need::AvgEnergy, Need::Winding]);
}

#[test]
fn small_tracks_are_gammas_without_any_feature() {
    for size in 0..4 {
        assert_eq!(classify(size, &none()), Verdict::Decided(PartType::GAMMA));
    }
    assert_eq!(classify(4, &none()), Verdict::Needs(Need::MaxEnergy));
}

#[test]
fn size_boundaries_choose_the_rules() {
    // at 49 cells the short-track rules hold: low energy is a beta whatever the winding
    assert_eq!(settle(49, MaxBand::Under100, true, false, false).0, PartType::BETA);
    // at 50 the long-track rules hold: a low winding makes it a muon
    assert_eq!(settle(50, MaxBand::Under100, true, false, false).0, PartType::MUON);
    assert_eq!(settle(50, MaxBand::Under100, true, false, true).0, PartType::BETA);
    assert_eq!(settle(3, MaxBand::AtLeast150, false, true, true).0, PartType::GAMMA);
    assert_eq!(settle(4, MaxBand::AtLeast150, false, true, true).0, PartType::ALPHA);
}

#[test]
fn energy_boundaries_of_short_tracks() {
    assert_eq!(band(149.9), MaxBand::Under150);
    assert_eq!(band(150.0), MaxBand::AtLeast150);
    assert_eq!(band(100.0), MaxBand::At100);
    assert_eq!(band(99.9), MaxBand::Under100);
    // just below 150 with a low mean: beta
    assert_eq!(settle(10, MaxBand::Under150, true, true, false).0, PartType::BETA);
    // at 150 the beta rule fails and roundness decides
    assert_eq!(settle(10, MaxBand::AtLeast150, true, true, false), (PartType::ALPHA, vec![Need::MaxEnergy, Need::Roundness]));
    assert_eq!(settle(10, MaxBand::AtLeast150, true, false, false).0, PartType::UNKNOWN);
    // a mean of 40 or more with a maximum of exactly 100 is unknown
    assert_eq!(settle(10, MaxBand::At100, false, true, false), (PartType::UNKNOWN, vec![Need::MaxEnergy, Need::AvgEnergy]));
    // above 100 it is read for roundness
    assert_eq!(settle(10, MaxBand::Under150, false, true, false).0, PartType::ALPHA);
    assert_eq!(settle(10, MaxBand::Under100, false, true, false).0, PartType::UNKNOWN);
}

#[test]
fn energy_boundaries_of_long_tracks() {
    // exactly 100 is not below 100: roundness decides
    assert_eq!(settle(60, MaxBand::At100, true, true, false), (PartType::ALPHA, vec![Need::MaxEnergy, Need::Roundness]));
    assert_eq!(settle(60, MaxBand::At100, true, false, false).0, PartType::UNKNOWN);
    // below 100 with a mean of 40 or more is unknown, with no shape read
    assert_eq!(settle(60, MaxBand::Under100, false, true, true), (PartType::UNKNOWN, vec![Need::MaxEnergy, Need::AvgEnergy]));
    assert_eq!(settle(60, MaxBand::Under150, true, true, true).0, PartType::ALPHA);
    assert_eq!(settle(60, MaxBand::AtLeast150, true, false, true).0, PartType::UNKNOWN);
}

#[test]
fn roundness_and_winding_thresholds() {
    // roundness exactly 0.4 is not above it
    let round = |r: f32| r > 0.4;
    assert_eq!(settle(10, MaxBand::AtLeast150, false, round(0.4), false).0, PartType::UNKNOWN);
    assert_eq!(settle(10, MaxBand::AtLeast150, false, round(0.41), false).0, PartType::ALPHA);
    // winding exactly 1 is not above it
    let wind = |w: f32| w > 1.0;
    assert_eq!(settle(50, MaxBand::Under100, true, false, wind(1.0)).0, PartType::MUON);
    assert_eq!(settle(50, MaxBand::Under100, true, false, wind(1.01)).0, PartType::BETA);
    // mean exactly 40 is not below it
    let avg = |a: f32| a < 40.0;
    assert_eq!(settle(50, MaxBand::Under100, avg(40.0), false, true).0, PartType::UNKNOWN);
    assert_eq!(settle(50, MaxBand::Under100, avg(39.9), false, true).0, PartType::BETA);
}

#[test]
fn same_features_give_the_same_label() {
    let bands = [MaxBand::Under100, MaxBand::At100, MaxBand::Under150, MaxBand::AtLeast150];
    for size in [0usize, 3, 4, 49, 50, 200] {
        for m in bands {
            for a in [false, true] {
                for r in [false, true] {
                    for w in [false, true] {
                        let first = settle(size, m, a, r, w);
                        assert_eq!(first, settle(size, m, a, r, w));
                        assert_eq!(classify(size, &all(m, a, r, w)), Verdict::Decided(first.0));
                    }
                }
            }
        }
    }
}

#[test]
fn particle_keeps_its_track() {
    let p = Particle::new(vec![(2, 1), (0, 3), (1, 1)]);
    assert_eq!(p.size(), 3);
    assert_eq!(p.get_track(), vec![(2, 1), (0, 3), (1, 1)]);
}
