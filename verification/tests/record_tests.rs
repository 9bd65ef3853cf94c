use sgf_reader::model::{GoColor, PointSt, Instruction, GoError};
use sgf_reader::record::{GameNode, GameTree, SizeDirective, traverse, collect_moves, node_instructions};
use sgf_reader::nav::{get_board, next_board, previous_board, alt_left, alt_right};

fn node() -> GameNode {
    GameNode {
        children: vec![],
        add_white: vec![],
        add_black: vec![],
        add_empty: vec![],
        next_player: None,
        white_move: None,
        black_move: None,
    }
}

/// root -> child0, child1; child0 -> grandchild.
fn sample_tree() -> GameTree {
    let mut root = node();
    root.children = vec![1, 2];
    let mut child0 = node();
    child0.children = vec![3];
    let child1 = node();
    let grandchild = node();
    GameTree {
        nodes: vec![root, child0, child1, grandchild],
        size: Some(SizeDirective::Square(9)),
    }
}

#[test]
fn check_wf_accepts_forward_references() {
    assert!(sample_tree().check_wf());
}

#[test]
fn check_wf_rejects_backward_reference() {
    let mut root = node();
    root.children = vec![1];
    let mut child = node();
    child.children = vec![0];
    let t = GameTree { nodes: vec![root, child], size: None };
    assert!(!t.check_wf());
}

#[test]
fn check_wf_rejects_dangling_reference() {
    let mut root = node();
    root.children = vec![5];
    let t = GameTree { nodes: vec![root], size: None };
    assert!(!t.check_wf());
}

#[test]
fn traverse_finds_nodes() {
    let t = sample_tree();
    assert_eq!(traverse(&t, &vec![]), Some(0));
    assert_eq!(traverse(&t, &vec![0]), Some(1));
    assert_eq!(traverse(&t, &vec![1]), Some(2));
    assert_eq!(traverse(&t, &vec![0, 0]), Some(3));
}

#[test]
fn traverse_reports_missing_children() {
    let t = sample_tree();
    assert_eq!(traverse(&t, &vec![2]), None);
    assert_eq!(traverse(&t, &vec![1, 0]), None);
}

#[test]
fn node_instructions_fixed_order() {
    let mut n = node();
    n.add_white = vec!["aa".to_string()];
    n.add_black = vec!["ba".to_string()];
    n.add_empty = vec!["ca".to_string()];
    n.next_player = Some(GoColor::Black);
    n.white_move = Some("da".to_string());
    n.black_move = Some("ea".to_string());
    let instrs = node_instructions(&n).unwrap();
    assert_eq!(
        instrs,
        vec![
            Instruction::Setup((0, 0), PointSt::White),
            Instruction::Setup((1, 0), PointSt::Black),
            Instruction::Setup((2, 0), PointSt::Free),
            Instruction::NextPlayer(GoColor::Black),
            Instruction::Move((3, 0), GoColor::White),
            Instruction::Move((4, 0), GoColor::Black),
        ]
    );
}

#[test]
fn node_instructions_reports_first_bad_coordinate() {
    let mut n = node();
    n.add_white = vec!["aa".to_string(), "!!".to_string()];
    assert_eq!(node_instructions(&n), Err(GoError::InvalidCoordinate));
    let mut n2 = node();
    n2.black_move = Some("x".to_string());
    assert_eq!(node_instructions(&n2), Err(GoError::MalformedCoordinate));
}

#[test]
fn collect_moves_runs_root_to_leaf() {
    let mut root = node();
    root.children = vec![1];
    root.add_white = vec!["aa".to_string()];
    let mut child = node();
    child.black_move = Some("bb".to_string());
    let t = GameTree { nodes: vec![root, child], size: Some(SizeDirective::Square(9)) };
    let instrs = collect_moves(&t, &vec![0]).unwrap();
    assert_eq!(
        instrs,
        vec![
            Instruction::Setup((0, 0), PointSt::White),
            Instruction::Move((1, 1), GoColor::Black),
        ]
    );
}

#[test]
fn collect_moves_reports_missing_child() {
    let t = sample_tree();
    assert_eq!(collect_moves(&t, &vec![5]), Err(GoError::PathNotFound));
}

#[test]
fn get_board_square_directive() {
    let m = get_board(&sample_tree()).unwrap();
    assert_eq!((m.width, m.height), (9, 9));
    assert!(m.path.is_empty());
}

#[test]
fn get_board_rect_directive() {
    let mut t = sample_tree();
    t.size = Some(SizeDirective::Rect(5, 7));
    let m = get_board(&t).unwrap();
    assert_eq!((m.width, m.height), (5, 7));
}

#[test]
fn get_board_missing_or_zero_size() {
    let mut t = sample_tree();
    t.size = None;
    assert!(matches!(get_board(&t), Err(GoError::MissingBoardSize)));
    t.size = Some(SizeDirective::Square(0));
    assert!(matches!(get_board(&t), Err(GoError::MissingBoardSize)));
    t.size = Some(SizeDirective::Rect(3, 0));
    assert!(matches!(get_board(&t), Err(GoError::MissingBoardSize)));
}

#[test]
fn next_board_descends_and_stops_at_leaves() {
    let t = sample_tree();
    let mut m = get_board(&t).unwrap();
    next_board(&t, &mut m);
    assert_eq!(m.path, vec![0]);
    next_board(&t, &mut m);
    assert_eq!(m.path, vec![0, 0]);
    next_board(&t, &mut m);
    assert_eq!(m.path, vec![0, 0], "a leaf has no first child to descend to");
}

#[test]
fn previous_board_ascends_and_is_a_no_op_at_root() {
    let t = sample_tree();
    let mut m = get_board(&t).unwrap();
    m.path = vec![0, 0];
    previous_board(&mut m);
    assert_eq!(m.path, vec![0]);
    previous_board(&mut m);
    assert_eq!(m.path, Vec::<usize>::new());
    previous_board(&mut m);
    assert_eq!(m.path, Vec::<usize>::new());
}

#[test]
fn alt_right_moves_to_next_sibling() {
    let t = sample_tree();
    let mut m = get_board(&t).unwrap();
    m.path = vec![0];
    assert_eq!(alt_right(&t, &mut m), Ok(()));
    assert_eq!(m.path, vec![1]);
}

#[test]
fn alt_right_clamps_at_final_sibling_and_still_resolves() {
    let t = sample_tree();
    let mut m = get_board(&t).unwrap();
    m.path = vec![1];
    assert_eq!(alt_right(&t, &mut m), Ok(()));
    assert_eq!(m.path, vec![1], "the final sibling stays put");
    assert_eq!(traverse(&t, &m.path), Some(2));
}

#[test]
fn alt_right_fails_when_parent_cannot_resolve() {
    let t = sample_tree();
    let mut m = get_board(&t).unwrap();
    m.path = vec![7, 0];
    assert_eq!(alt_right(&t, &mut m), Err(GoError::PathNotFound));
    assert_eq!(m.path, vec![7, 0], "the path is kept on failure");
}

#[test]
fn alt_left_moves_back_and_clamps_at_zero() {
    let t = sample_tree();
    let mut m = get_board(&t).unwrap();
    m.path = vec![1];
    assert_eq!(alt_left(&t, &mut m), Ok(()));
    assert_eq!(m.path, vec![0]);
    assert_eq!(alt_left(&t, &mut m), Ok(()));
    assert_eq!(m.path, vec![0]);
}

#[test]
fn alt_left_fails_when_parent_cannot_resolve() {
    let t = sample_tree();
    let mut m = get_board(&t).unwrap();
    m.path = vec![7, 0];
    assert_eq!(alt_left(&t, &mut m), Err(GoError::PathNotFound));
    assert_eq!(m.path, vec![7, 0]);
}

#[test]
fn sibling_navigation_on_empty_path_is_a_no_op() {
    let t = sample_tree();
    let mut m = get_board(&t).unwrap();
    assert_eq!(alt_right(&t, &mut m), Ok(()));
    assert_eq!(m.path, Vec::<usize>::new());
    assert_eq!(alt_left(&t, &mut m), Ok(()));
    assert_eq!(m.path, Vec::<usize>::new());
}

#[test]
fn descend_is_speculative_until_resolved() {
    let t = sample_tree();
    let mut m = get_board(&t).unwrap();
    m.descend(1);
    assert_eq!(m.path, vec![1]);
    assert_eq!(traverse(&t, &m.path), Some(2));
    m.descend(5);
    assert_eq!(m.path, vec![1, 5]);
    assert_eq!(traverse(&t, &m.path), None, "the caller must validate before use");
}
