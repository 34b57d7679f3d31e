use std::collections::HashSet;

use lib::grid::Graph;

#[test]
fn map_is_read_row_by_row() {
    let g = Graph::new("0 . ,\n. o 2\n".to_string());
    assert_eq!(g.height, 2);
    assert_eq!(g.width, 3);
    assert_eq!(g.tiles, vec![vec!['0', '.', ','], vec!['.', 'o', '2']]);
    assert_eq!(g.player_coords, (0, 0));
    assert_eq!(g.goal_coords, (1, 2));
}

#[test]
fn map_keeps_the_last_start_and_goal() {
    let g = Graph::new("0 0\r\n2 . 2".to_string());
    assert_eq!(g.player_coords, (0, 1));
    assert_eq!(g.goal_coords, (1, 2));
    assert_eq!(g.width, 3);
}

#[test]
fn map_without_start_or_goal() {
    let g = Graph::new(". = 1 3".to_string());
    assert_eq!(g.player_coords, (usize::MAX, usize::MAX));
    assert_eq!(g.goal_coords, (usize::MAX, usize::MAX));
    let empty = Graph::new(String::new());
    assert_eq!((empty.height, empty.width), (0, 0));
}

#[test]
fn map_with_a_stray_character_is_refused() {
    assert!(Graph::read("0 . x\n. . 2".to_string()).is_none());
    assert_eq!(Graph::read("0 2".to_string()).unwrap().goal_coords, (0, 1));
}

#[test]
fn coordinates_on_the_map() {
    let g = Graph::new("0 . ,\n. o 2\n".to_string());
    assert!(g.is_valid_coords(1, 2));
    assert!(!g.is_valid_coords(2, 0));
    assert!(!g.is_valid_coords(0, 3));
    assert!(!g.is_valid_coords(-1, 0));
    assert!(!g.is_valid_coords(0, -1));
}

#[test]
fn neighbours_come_in_move_order() {
    let g = Graph::new("0 . ,\n. o 2\n".to_string());
    assert_eq!(g.neighbours(0, 0), vec![(1, 0), (0, 1), (1, 1)]);
    assert_eq!(g.neighbours(1, 1), vec![(0, 1), (1, 0), (1, 2), (0, 0), (0, 2)]);
}

#[test]
fn tile_keys_count_row_by_row() {
    let g = Graph::new("0 . ,\n. o 2\n".to_string());
    assert_eq!(g.tile_key(0, 0), 0);
    assert_eq!(g.tile_key(0, 2), 2);
    assert_eq!(g.tile_key(1, 1), 4);
}

#[test]
fn successors_skip_explored_tiles() {
    let g = Graph::new("0 . ,\n. o 2\n".to_string());
    let mut explored: HashSet<usize> = HashSet::new();
    assert_eq!(g.find_successors(&explored, 1, 1), vec![(0, 1), (1, 0), (1, 2), (0, 0), (0, 2)]);
    explored.insert(g.tile_key(0, 1));
    explored.insert(g.tile_key(0, 0));
    assert_eq!(g.find_successors(&explored, 1, 1), vec![(1, 0), (1, 2), (0, 2)]);
    assert_eq!(g.find_successors(&explored, -1, -1), Vec::<(usize, usize)>::new());
    assert_eq!(g.find_successors(&HashSet::new(), -1, -1), vec![(0, 0)]);
}
