use particle_tracks::classifier::PartType;
use particle_tracks::viewer::{cell_mask, next_track, prev_track, render, tally, visible, Mode, Shown};

#[test]
fn toggle_switches_mode() {
    assert_eq!(Mode::Single.toggle(), Mode::Combined);
    assert_eq!(Mode::Combined.toggle(), Mode::Single);
}

#[test]
fn navigation_wraps_round() {
    assert_eq!(next_track(0, 3), 1);
    assert_eq!(next_track(2, 3), 0);
    assert_eq!(prev_track(0, 3), 2);
    assert_eq!(prev_track(2, 3), 1);
    assert_eq!(next_track(0, 0), 0);
    assert_eq!(prev_track(0, 0), 0);
}

#[test]
fn tally_counts_each_type() {
    let types = vec![PartType::BETA, PartType::ALPHA, PartType::BETA, PartType::UNKNOWN, PartType::BETA];
    let c = tally(&types);
    assert_eq!((c.alpha, c.beta, c.gamma, c.muon, c.unknown), (1, 3, 0, 0, 1));
    assert_eq!(c.get(PartType::BETA), 3);
    assert_eq!(c.get(PartType::GAMMA), 0);
    let empty = tally(&Vec::new());
    assert_eq!(empty.get(PartType::ALPHA), 0);
}

#[test]
fn visible_keeps_shown_types_in_order() {
    let types = vec![PartType::BETA, PartType::ALPHA, PartType::GAMMA, PartType::BETA, PartType::MUON];
    let shown = Shown { alpha: false, beta: true, gamma: true, muon: false, unknown: true };
    assert_eq!(visible(&types, &shown), vec![0, 2, 3]);
    let none = Shown { alpha: false, beta: false, gamma: false, muon: false, unknown: false };
    assert!(visible(&types, &none).is_empty());
}

#[test]
fn cell_mask_marks_track_cells() {
    let tracks = vec![vec![(0, 1)], vec![(2, 0), (9, 9)]];
    let mask = cell_mask(3, 2, &tracks);
    assert_eq!(mask, vec![vec![false, true], vec![false, false], vec![true, false]]);
}

#[test]
fn render_draws_scaled_blocks() {
    let tracks = vec![vec![(1, 0)]];
    // a 2 by 2 grid at scale 2 is a 4 by 4 image
    let px = render(2, 2, 2, &tracks);
    assert_eq!(px.len(), 16);
    let lit: Vec<usize> = (0..16).filter(|&q| px[q]).collect();
    // pixel (px, py) stands at px * 4 + py: cell (1, 0) covers px 2..4, py 0..2
    assert_eq!(lit, vec![8, 9, 12, 13]);
    assert!(render(2, 2, 0, &tracks).is_empty());
}
