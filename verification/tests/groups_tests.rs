use sgf_reader::model::{GoColor, Cell};
use sgf_reader::board::Board;
use sgf_reader::groups::{groups_for, compute_white_groups, compute_black_groups};

fn board(width: usize, height: usize, stones: &[(usize, GoColor)]) -> Board {
    let mut cells = vec![Cell::Empty; width * height];
    for (i, c) in stones {
        cells[*i] = Cell::Occupied(*c);
    }
    Board { cells, width, height, next_player: GoColor::White }
}

#[test]
fn no_stones_no_groups() {
    let b = board(9, 9, &[]);
    assert_eq!(groups_for(&b, GoColor::White), Vec::<Vec<usize>>::new());
    assert_eq!(groups_for(&b, GoColor::Black), Vec::<Vec<usize>>::new());
}

#[test]
fn a_single_stone_is_a_singleton_group() {
    let b = board(9, 9, &[(40, GoColor::White)]);
    assert_eq!(groups_for(&b, GoColor::White), vec![vec![40]]);
    assert_eq!(groups_for(&b, GoColor::Black), Vec::<Vec<usize>>::new());
}

#[test]
fn diagonal_stones_stay_separate() {
    // (0,0) and (1,1) touch only at the corner
    let b = board(9, 9, &[(0, GoColor::White), (10, GoColor::White)]);
    assert_eq!(groups_for(&b, GoColor::White), vec![vec![0], vec![10]]);
}

#[test]
fn rows_do_not_wrap_around() {
    // (2,0) and (0,1) are consecutive indices on a 3-wide board, but sit on
    // different rows
    let b = board(3, 3, &[(2, GoColor::Black), (3, GoColor::Black)]);
    assert_eq!(groups_for(&b, GoColor::Black), vec![vec![2], vec![3]]);
}

#[test]
fn a_column_connects_vertically() {
    let b = board(3, 3, &[(1, GoColor::White), (4, GoColor::White), (7, GoColor::White)]);
    assert_eq!(groups_for(&b, GoColor::White), vec![vec![1, 4, 7]]);
}

#[test]
fn opposing_stones_break_a_row() {
    // white, black, white in one row: the black stone separates the whites
    let b = board(
        3,
        1,
        &[(0, GoColor::White), (1, GoColor::Black), (2, GoColor::White)],
    );
    assert_eq!(groups_for(&b, GoColor::White), vec![vec![0], vec![2]]);
    assert_eq!(groups_for(&b, GoColor::Black), vec![vec![1]]);
}

#[test]
fn groups_come_out_ordered_by_smallest_member() {
    // an L-shaped white group in the lower right, a white singleton first
    let b = board(
        4,
        4,
        &[
            (15, GoColor::White),
            (14, GoColor::White),
            (11, GoColor::White),
            (0, GoColor::White),
        ],
    );
    let groups = groups_for(&b, GoColor::White);
    assert_eq!(groups, vec![vec![0], vec![11, 14, 15]]);
}

#[test]
fn cells_within_a_group_ascend() {
    // a 2x2 white block marked in scattered order
    let b = board(
        5,
        5,
        &[
            (12, GoColor::White),
            (7, GoColor::White),
            (6, GoColor::White),
            (11, GoColor::White),
        ],
    );
    assert_eq!(groups_for(&b, GoColor::White), vec![vec![6, 7, 11, 12]]);
}

#[test]
fn color_wrappers_agree_with_the_general_analysis() {
    let b = board(
        9,
        9,
        &[(0, GoColor::White), (1, GoColor::White), (9, GoColor::Black)],
    );
    assert_eq!(compute_white_groups(&b), groups_for(&b, GoColor::White));
    assert_eq!(compute_black_groups(&b), groups_for(&b, GoColor::Black));
    assert_eq!(compute_white_groups(&b), vec![vec![0, 1]]);
    assert_eq!(compute_black_groups(&b), vec![vec![9]]);
}

#[test]
fn every_stone_lands_in_exactly_one_group() {
    let stones: Vec<(usize, GoColor)> = (0..81)
        .filter(|i| i % 3 != 1)
        .map(|i| (i, GoColor::Black))
        .collect();
    let b = board(9, 9, &stones);
    let groups = groups_for(&b, GoColor::Black);
    let mut seen = vec![0usize; 81];
    for g in &groups {
        assert!(!g.is_empty());
        for &c in g {
            seen[c] += 1;
        }
    }
    for (i, count) in seen.iter().enumerate() {
        let expected = if i % 3 != 1 { 1 } else { 0 };
        assert_eq!(*count, expected, "cell {} appears {} times", i, count);
    }
}
