use sgf_reader::model::{GoColor, Cell, GoError};
use sgf_reader::record::{GameNode, GameTree, SizeDirective};
use sgf_reader::nav::get_board;
use sgf_reader::board::reconstruct;
use sgf_reader::groups::{groups_for, compute_white_groups};

fn node() -> GameNode {
    GameNode {
        children: vec![],
        add_white: vec![],
        add_black: vec![],
        add_empty: vec![],
        next_player: None,
        white_move: None,
        black_move: None,
    }
}

fn square_tree(size: usize, nodes: Vec<GameNode>) -> GameTree {
    GameTree { nodes, size: Some(SizeDirective::Square(size)) }
}

#[test]
fn empty_root_reconstructs_an_empty_board() {
    let t = square_tree(9, vec![node()]);
    let m = get_board(&t).unwrap();
    let b = reconstruct(&t, &m).unwrap();
    assert_eq!(b.cells.len(), 81);
    assert!(b.cells.iter().all(|c| *c == Cell::Empty));
    assert_eq!(b.next_player, GoColor::White);
}

#[test]
fn white_move_at_ee_on_a_nine_by_nine_board() {
    let mut root = node();
    root.children = vec![1];
    let mut child = node();
    child.white_move = Some("ee".to_string());
    let t = square_tree(9, vec![root, child]);
    let mut m = get_board(&t).unwrap();
    m.path = vec![0];
    let b = reconstruct(&t, &m).unwrap();
    assert_eq!(b.cells[40], Cell::Occupied(GoColor::White));
    assert_eq!(
        b.cells.iter().filter(|c| **c != Cell::Empty).count(),
        1,
        "exactly one stone on the board"
    );
    assert_eq!(b.next_player, GoColor::Black);
    let groups = groups_for(&b, GoColor::White);
    assert_eq!(groups, vec![vec![40]]);
}

#[test]
fn adjacent_setup_stones_form_one_group() {
    let mut root = node();
    root.add_white = vec!["cc".to_string(), "cd".to_string()];
    let t = square_tree(9, vec![root]);
    let m = get_board(&t).unwrap();
    let b = reconstruct(&t, &m).unwrap();
    assert_eq!(b.cells[2 * 9 + 2], Cell::Occupied(GoColor::White));
    assert_eq!(b.cells[3 * 9 + 2], Cell::Occupied(GoColor::White));
    let groups = compute_white_groups(&b);
    assert_eq!(groups, vec![vec![20, 29]], "one group, not two singletons");
}

#[test]
fn instruction_at_the_far_corner_succeeds() {
    let mut root = node();
    root.white_move = Some("ii".to_string());
    let t = square_tree(9, vec![root]);
    let m = get_board(&t).unwrap();
    let b = reconstruct(&t, &m).unwrap();
    assert_eq!(b.cells[8 * 9 + 8], Cell::Occupied(GoColor::White));
}

#[test]
fn instruction_just_past_the_edge_is_out_of_bounds() {
    let mut root = node();
    root.white_move = Some("ja".to_string());
    let t = square_tree(9, vec![root]);
    let m = get_board(&t).unwrap();
    assert!(matches!(reconstruct(&t, &m), Err(GoError::CoordinateOutOfBounds)));
}

#[test]
fn later_instructions_overwrite_earlier_ones() {
    let mut root = node();
    root.children = vec![1];
    root.add_white = vec!["cc".to_string()];
    let mut child = node();
    child.children = vec![2];
    child.add_empty = vec!["cc".to_string()];
    let mut grandchild = node();
    grandchild.black_move = Some("cc".to_string());
    let t = square_tree(9, vec![root, child, grandchild]);
    let mut m = get_board(&t).unwrap();

    let at_root = reconstruct(&t, &m).unwrap();
    assert_eq!(at_root.cells[20], Cell::Occupied(GoColor::White));

    m.path = vec![0];
    let cleared = reconstruct(&t, &m).unwrap();
    assert_eq!(cleared.cells[20], Cell::Empty, "the clear erases the ancestor's stone");

    m.path = vec![0, 0];
    let replayed = reconstruct(&t, &m).unwrap();
    assert_eq!(
        replayed.cells[20],
        Cell::Occupied(GoColor::Black),
        "the descendant's move overwrites the clear"
    );
}

#[test]
fn reconstruction_is_deterministic() {
    let mut root = node();
    root.children = vec![1];
    root.add_black = vec!["ab".to_string(), "bb".to_string()];
    let mut child = node();
    child.white_move = Some("ee".to_string());
    let t = square_tree(9, vec![root, child]);
    let mut m = get_board(&t).unwrap();
    m.path = vec![0];
    let first = reconstruct(&t, &m).unwrap();
    let second = reconstruct(&t, &m).unwrap();
    assert_eq!(first.cells, second.cells);
    assert_eq!(first.next_player, second.next_player);
}

#[test]
fn next_player_directive_overrides_the_turn() {
    let mut root = node();
    root.children = vec![1];
    root.black_move = Some("aa".to_string());
    let mut child = node();
    child.next_player = Some(GoColor::Black);
    let t = square_tree(9, vec![root, child]);
    let mut m = get_board(&t).unwrap();

    let after_move = reconstruct(&t, &m).unwrap();
    assert_eq!(after_move.next_player, GoColor::White, "a black move hands the turn to white");

    m.path = vec![0];
    let overridden = reconstruct(&t, &m).unwrap();
    assert_eq!(overridden.next_player, GoColor::Black);
    assert_eq!(overridden.cells[0], Cell::Occupied(GoColor::Black), "the grid is untouched");
}

#[test]
fn unresolvable_path_is_reported_not_clamped() {
    let t = square_tree(9, vec![node()]);
    let mut m = get_board(&t).unwrap();
    m.path = vec![0];
    assert!(matches!(reconstruct(&t, &m), Err(GoError::PathNotFound)));
}

#[test]
fn path_errors_take_precedence_over_coordinate_errors() {
    let mut root = node();
    root.add_white = vec!["!!".to_string()];
    let t = square_tree(9, vec![root]);
    let mut m = get_board(&t).unwrap();
    m.path = vec![3];
    assert!(matches!(reconstruct(&t, &m), Err(GoError::PathNotFound)));
}

#[test]
fn bad_coordinates_surface_from_reconstruction() {
    let mut root = node();
    root.add_white = vec!["!!".to_string()];
    let t = square_tree(9, vec![root]);
    let m = get_board(&t).unwrap();
    assert!(matches!(reconstruct(&t, &m), Err(GoError::InvalidCoordinate)));

    let mut root2 = node();
    root2.black_move = Some("a".to_string());
    let t2 = square_tree(9, vec![root2]);
    let m2 = get_board(&t2).unwrap();
    assert!(matches!(reconstruct(&t2, &m2), Err(GoError::MalformedCoordinate)));
}

#[test]
fn both_moves_in_one_node_apply_in_order() {
    let mut root = node();
    root.white_move = Some("aa".to_string());
    root.black_move = Some("aa".to_string());
    let t = square_tree(9, vec![root]);
    let m = get_board(&t).unwrap();
    let b = reconstruct(&t, &m).unwrap();
    assert_eq!(b.cells[0], Cell::Occupied(GoColor::Black), "the black move wrote last");
    assert_eq!(b.next_player, GoColor::White);
}
