use particle_tracks::extractor::{build_tracks, check_cell, check_surroundings, extract};
use particle_tracks::union_find::{find, union, Forest};
use std::collections::HashMap;

fn get_grid() -> Vec<Vec<bool>> {
    let size = 256;
    let mut grid = vec![vec![false; size]; size];

    // particle 1
    let range: isize = 4;
    for x in -range..=range {
        for y in -range..=range {
            grid[(250 + x) as usize][(250 + y) as usize] = true;
        }
    }

    // particle 2
    let range: isize = 3;
    for x in -range..=range {
        for y in -range..=range {
            grid[(5 + x) as usize][(5 + y) as usize] = true;
        }
    }

    grid
}

fn grid_from(cells: &[(usize, usize)], size_x: usize, size_y: usize) -> Vec<Vec<bool>> {
    let mut grid = vec![vec![false; size_y]; size_x];
    for &(x, y) in cells {
        grid[x][y] = true;
    }
    grid
}

fn run(grid: &Vec<Vec<bool>>, range: i16) -> HashMap<usize, Vec<(usize, usize)>> {
    let size_y = if grid.is_empty() { 0 } else { grid[0].len() };
    let mut id_map = vec![vec![0usize; size_y]; grid.len()];
    extract(grid, &mut id_map, range)
}

fn sorted_tracks(tracks: &HashMap<usize, Vec<(usize, usize)>>) -> Vec<Vec<(usize, usize)>> {
    let mut all: Vec<Vec<(usize, usize)>> = tracks.values().cloned().collect();
    for t in all.iter_mut() {
        t.sort();
    }
    all.sort();
    all
}

#[test]
fn test_check_cell() {
    let mut id_map = vec![vec![0usize; 256]; 256];
    id_map[2][2] = 1;
    id_map[3][3] = 5;

    let grid = get_grid();

    assert_eq!(
        check_cell((3, 3), -1, -1, 256, 256, &grid, &id_map),
        Some(1)
    );
    assert_eq!(check_cell((3, 3), -2, -2, 256, 256, &grid, &id_map), None);
    assert_eq!(
        check_cell((5, 5), -2, -2, 256, 256, &grid, &id_map),
        Some(5)
    );
}

#[test]
fn check_cell_clips_to_the_grid() {
    let grid = vec![vec![true; 3]; 3];
    let id_map = vec![vec![7usize; 3]; 3];
    assert_eq!(check_cell((0, 0), -1, 0, 3, 3, &grid, &id_map), None);
    assert_eq!(check_cell((2, 2), 1, 0, 3, 3, &grid, &id_map), None);
    assert_eq!(check_cell((2, 2), 0, 1, 3, 3, &grid, &id_map), None);
    assert_eq!(check_cell((2, 2), -2, -2, 3, 3, &grid, &id_map), Some(7));
}

#[test]
fn check_surroundings_gives_each_label_once() {
    let grid = vec![vec![true; 4]; 4];
    let mut id_map = vec![vec![0usize; 4]; 4];
    // the row before (second coordinate 0) and the cell to the left
    id_map[0][0] = 3;
    id_map[1][0] = 3;
    id_map[2][0] = 4;
    id_map[0][1] = 9;
    let found = check_surroundings(&(1, 1), &grid, &id_map, 1);
    assert_eq!(found, vec![3, 4, 9]);
    // a cell out of the window is not looked at
    let found = check_surroundings(&(3, 1), &grid, &id_map, 1);
    assert_eq!(found, vec![4]);
}

#[test]
fn empty_grid_has_no_tracks() {
    let grid = vec![vec![false; 16]; 16];
    assert!(run(&grid, 1).is_empty());
    let no_rows: Vec<Vec<bool>> = Vec::new();
    assert!(run(&no_rows, 1).is_empty());
}

#[test]
fn empty_grid_leaves_the_label_map_zero() {
    let grid = vec![vec![false; 8]; 8];
    let mut id_map = vec![vec![0usize; 8]; 8];
    let tracks = extract(&grid, &mut id_map, 1);
    assert!(tracks.is_empty());
    assert!(id_map.iter().all(|row| row.iter().all(|l| *l == 0)));
}

#[test]
fn labels_mark_exactly_the_occupied_cells() {
    let cells = [(0, 0), (1, 1), (3, 0), (3, 3), (0, 3)];
    let grid = grid_from(&cells, 4, 4);
    let mut id_map = vec![vec![0usize; 4]; 4];
    let tracks = extract(&grid, &mut id_map, 1);
    for x in 0..4 {
        for y in 0..4 {
            assert_eq!(id_map[x][y] != 0, grid[x][y]);
        }
    }
    assert!(tracks.keys().all(|k| *k >= 1));
    // cells with one label lie in one track
    for (k, t) in &tracks {
        for (k2, t2) in &tracks {
            for a in t {
                for b in t2 {
                    if id_map[a.0][a.1] == id_map[b.0][b.1] {
                        assert_eq!(k, k2);
                    }
                }
            }
        }
    }
}

#[test]
fn first_label_found_gives_the_root() {
    // (0, 1) meets label 1 at (0, 0) first and label 2 at (1, 0) after it
    let grid = grid_from(&[(0, 0), (2, 0), (1, 1)], 3, 2);
    let mut id_map = vec![vec![0usize; 2]; 3];
    id_map[0][0] = 1;
    id_map[2][0] = 2;
    assert_eq!(check_surroundings(&(1, 1), &grid, &id_map, 1), vec![1, 2]);
    let mut id_map = vec![vec![0usize; 2]; 3];
    extract(&grid, &mut id_map, 1);
    assert_eq!(id_map[1][1], 1);
}

#[test]
fn two_separate_blobs_give_two_tracks() {
    let grid = get_grid();
    let tracks = run(&grid, 1);
    assert_eq!(tracks.len(), 2);
    let mut sizes: Vec<usize> = tracks.values().map(|t| t.len()).collect();
    sizes.sort();
    assert_eq!(sizes, vec![49, 81]);
}

#[test]
fn tracks_partition_the_occupied_cells() {
    let cells = [(0, 0), (1, 0), (4, 0), (4, 1), (0, 3), (2, 4), (3, 4), (4, 4), (1, 2)];
    let grid = grid_from(&cells, 5, 5);
    let tracks = run(&grid, 1);
    let mut seen: Vec<(usize, usize)> = Vec::new();
    for t in tracks.values() {
        assert!(!t.is_empty());
        for c in t {
            assert!(!seen.contains(c));
            seen.push(*c);
        }
    }
    seen.sort();
    let mut expected = cells.to_vec();
    expected.sort();
    assert_eq!(seen, expected);
}

#[test]
fn tracks_list_cells_in_scan_order() {
    let cells = [(1, 0), (2, 0), (0, 1), (1, 1), (2, 2)];
    let grid = grid_from(&cells, 3, 3);
    let tracks = run(&grid, 1);
    assert_eq!(tracks.len(), 1);
    let t = tracks.values().next().unwrap();
    assert_eq!(t, &vec![(1, 0), (2, 0), (0, 1), (1, 1), (2, 2)]);
}

#[test]
fn reach_decides_whether_a_gap_is_bridged() {
    // two cells with one empty cell between them in the same row
    let grid = grid_from(&[(0, 0), (2, 0)], 3, 1);
    assert_eq!(run(&grid, 1).len(), 2);
    assert_eq!(run(&grid, 2).len(), 1);
    // two cells two rows apart
    let grid = grid_from(&[(0, 0), (0, 2)], 1, 3);
    assert_eq!(run(&grid, 1).len(), 2);
    assert_eq!(run(&grid, 2).len(), 1);
}

#[test]
fn a_later_cell_joins_two_earlier_tracks() {
    // a U shape: the arms start as two tracks and the bottom joins them
    let cells = [(0, 0), (2, 0), (0, 1), (2, 1), (0, 2), (1, 2), (2, 2)];
    let grid = grid_from(&cells, 3, 3);
    let tracks = run(&grid, 1);
    assert_eq!(sorted_tracks(&tracks), vec![{
        let mut v = cells.to_vec();
        v.sort();
        v
    }]);
}

#[test]
fn diagonal_neighbours_are_linked_at_reach_one() {
    let grid = grid_from(&[(0, 0), (1, 1), (2, 2), (1, 3)], 3, 4);
    assert_eq!(run(&grid, 1).len(), 1);
}

#[test]
fn extract_leaves_labels_in_the_scratch_map() {
    let grid = grid_from(&[(0, 0), (3, 3)], 4, 4);
    let mut id_map = vec![vec![0usize; 4]; 4];
    let tracks = extract(&grid, &mut id_map, 1);
    assert_eq!(tracks.len(), 2);
    assert_ne!(id_map[0][0], 0);
    assert_ne!(id_map[3][3], 0);
    assert_ne!(id_map[0][0], id_map[3][3]);
    assert_eq!(id_map[1][1], 0);
    assert_eq!(tracks[&id_map[0][0]], vec![(0, 0)]);
    assert_eq!(tracks[&id_map[3][3]], vec![(3, 3)]);
}

#[test]
fn build_tracks_groups_by_root() {
    let mut forest = Forest::new();
    let a = forest.make_set();
    let b = forest.make_set();
    let c = forest.make_set();
    union(a, c, &mut forest);
    let id_map = vec![vec![a, 0], vec![b, c]];
    let tracks = build_tracks(&id_map, &mut forest);
    assert_eq!(tracks.len(), 2);
    assert_eq!(tracks[&a], vec![(0, 0), (1, 1)]);
    assert_eq!(tracks[&b], vec![(1, 0)]);
}

#[test]
fn find_and_union_join_sets() {
    let mut forest = Forest::new();
    let a = forest.make_set();
    let b = forest.make_set();
    let c = forest.make_set();
    assert_eq!((a, b, c), (1, 2, 3));
    assert_eq!(find(b, &mut forest), b);
    union(b, c, &mut forest);
    assert_eq!(find(c, &mut forest), b);
    union(c, a, &mut forest);
    assert_eq!(find(a, &mut forest), b);
    assert_eq!(find(0, &mut forest), 0);
    // joining a set with itself changes nothing
    union(a, c, &mut forest);
    assert_eq!(find(c, &mut forest), b);
}
