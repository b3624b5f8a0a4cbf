use samegame::board::{Board, Cell};
use samegame::score::turn_score;
use samegame::transition::{board_depop, board_drop, settle_column, transition};

fn rows_of(lines: [&str; 15]) -> Vec<Vec<i32>> {
    lines
        .iter()
        .map(|line| {
            line.chars()
                .map(|c| match c {
                    '0' => 0,
                    '1' => 1,
                    '2' => 2,
                    '3' => 3,
                    '4' => 4,
                    _ => -1,
                })
                .collect()
        })
        .collect()
}

fn board_of(lines: [&str; 15]) -> Board {
    Board::from_rows(&rows_of(lines)).unwrap()
}

fn same_cells(a: &Board, b: &Board) -> bool {
    a.key() == b.key()
}

fn sample() -> Board {
    board_of([
        "...............",
        "...............",
        "...............",
        "...............",
        "...............",
        "...............",
        "...............",
        "...............",
        "...............",
        "...............",
        "2..............",
        "1.3............",
        "0.3.4..........",
        "0.1.4.2........",
        "0.1.3.2.......1",
    ])
}

#[test]
fn score_grows_with_the_square_of_the_size() {
    assert_eq!(turn_score(2), 0);
    assert_eq!(turn_score(3), 1);
    assert_eq!(turn_score(4), 4);
    assert_eq!(turn_score(10), 64);
    assert_eq!(turn_score(225), 49729);
    assert_eq!(turn_score(65_537), 4_294_836_225);
}

#[test]
fn depopulation_empties_the_listed_positions_only() {
    let board = sample();
    let bare = board_depop(&board, &vec![(0, 0), (0, 1), (0, 2)]);
    for x in 0..15 {
        for y in 0..15 {
            if x == 0 && y < 3 {
                assert_eq!(bare.get(x, y), Cell::Empty);
            } else {
                assert_eq!(bare.get(x, y), board.get(x, y));
            }
        }
    }
}

#[test]
fn depopulation_of_nothing_changes_nothing() {
    let board = sample();
    let bare = board_depop(&board, &Vec::new());
    assert!(same_cells(&board, &bare));
}

#[test]
fn depopulation_passes_over_positions_outside_the_grid() {
    let board = sample();
    let bare = board_depop(&board, &vec![(15, 0), (0, 15), (u32::MAX, u32::MAX), (2, 0)]);
    for x in 0..15 {
        for y in 0..15 {
            if x == 2 && y == 0 {
                assert_eq!(bare.get(x, y), Cell::Empty);
            } else {
                assert_eq!(bare.get(x, y), board.get(x, y));
            }
        }
    }
}

#[test]
fn depopulation_takes_a_position_listed_twice_once() {
    let board = sample();
    let once = board_depop(&board, &vec![(4, 1)]);
    let twice = board_depop(&board, &vec![(4, 1), (4, 1)]);
    assert!(same_cells(&once, &twice));
}

#[test]
fn a_column_settles_toward_row_zero() {
    let col = vec![
        Cell::Empty,
        Cell::Red,
        Cell::Empty,
        Cell::Blue,
        Cell::Blue,
        Cell::Empty,
        Cell::Green,
    ];
    let (settled, count) = settle_column(&col);
    assert_eq!(count, 4);
    assert_eq!(
        settled,
        vec![
            Cell::Red,
            Cell::Blue,
            Cell::Blue,
            Cell::Green,
            Cell::Empty,
            Cell::Empty,
            Cell::Empty,
        ]
    );
}

#[test]
fn a_column_without_tiles_settles_to_itself() {
    let col = vec![Cell::Empty; 15];
    let (settled, count) = settle_column(&col);
    assert_eq!(count, 0);
    assert_eq!(settled, col);
    let (nothing, none) = settle_column(&Vec::new());
    assert_eq!(none, 0);
    assert!(nothing.is_empty());
}

#[test]
fn tiles_fall_and_columns_close_ranks() {
    let floating = board_of([
        "...............",
        "...............",
        "...............",
        "...............",
        "...............",
        "...............",
        "...............",
        "...............",
        "...............",
        "...............",
        "..1............",
        "...............",
        "..0...3........",
        "......4.......2",
        "..2............",
    ]);
    let expected = board_of([
        "...............",
        "...............",
        "...............",
        "...............",
        "...............",
        "...............",
        "...............",
        "...............",
        "...............",
        "...............",
        "...............",
        "...............",
        "1..............",
        "03.............",
        "242............",
    ]);
    let dropped = board_drop(&floating);
    assert!(same_cells(&dropped, &expected));
}

#[test]
fn gravity_leaves_a_settled_board_alone() {
    let board = board_of([
        "...............",
        "...............",
        "...............",
        "...............",
        "...............",
        "...............",
        "...............",
        "...............",
        "...............",
        "...............",
        "2..............",
        "13.............",
        "034............",
        "0142...........",
        "01321..........",
    ]);
    assert!(same_cells(&board_drop(&board), &board));
}

#[test]
fn gravity_acts_once() {
    let once = board_drop(&sample());
    let twice = board_drop(&once);
    assert!(same_cells(&once, &twice));
    let bare = board_depop(&sample(), &vec![(0, 0), (0, 1), (0, 2), (2, 0), (2, 1)]);
    let once = board_drop(&bare);
    let twice = board_drop(&once);
    assert!(same_cells(&once, &twice));
}

#[test]
fn gravity_on_the_empty_board_gives_the_empty_board() {
    let dropped = board_drop(&Board::empty());
    assert!(dropped.is_clear());
}

#[test]
fn removing_a_whole_column_moves_the_others_in() {
    let board = board_of([
        "...............",
        "...............",
        "...............",
        "...............",
        "...............",
        "...............",
        "...............",
        "...............",
        "...............",
        "...............",
        "...............",
        "...............",
        "0..............",
        "01.............",
        "012............",
    ]);
    let after = transition(&board, &vec![(0, 0), (0, 1), (0, 2)]);
    let expected = board_of([
        "...............",
        "...............",
        "...............",
        "...............",
        "...............",
        "...............",
        "...............",
        "...............",
        "...............",
        "...............",
        "...............",
        "...............",
        "...............",
        "1..............",
        "12.............",
    ]);
    assert!(same_cells(&after, &expected));
}

#[test]
fn a_removed_position_is_empty_or_refilled_from_above_or_from_the_right() {
    let board = board_of([
        "...............",
        "...............",
        "...............",
        "...............",
        "...............",
        "...............",
        "...............",
        "...............",
        "...............",
        "...............",
        "...............",
        "3..............",
        "2.4............",
        "001............",
        "001............",
    ]);
    let group = vec![(0, 0), (0, 1), (1, 0), (1, 1)];
    let after = transition(&board, &group);
    // column 0 keeps what stood above the group, column 1 is gone and
    // column 2 has moved in
    assert_eq!(after.get(0, 0), Cell::Blue);
    assert_eq!(after.get(0, 1), Cell::Yellow);
    assert_eq!(after.get(0, 2), Cell::Empty);
    assert_eq!(after.get(1, 0), Cell::Green);
    assert_eq!(after.get(1, 1), Cell::Green);
    assert_eq!(after.get(1, 2), Cell::Purple);
    assert_eq!(after.get(2, 0), Cell::Empty);
    for &(x, y) in group.iter() {
        assert_ne!(after.get(x, y), Cell::Red);
    }
}

#[test]
fn a_move_takes_exactly_its_tiles_off_the_board() {
    let board = sample();
    let count = |b: &Board| {
        let mut n = 0;
        for x in 0..15 {
            for y in 0..15 {
                if b.get(x, y) != Cell::Empty {
                    n += 1;
                }
            }
        }
        n
    };
    let after = transition(&board, &vec![(0, 0), (0, 1), (0, 2)]);
    assert_eq!(count(&after) + 3, count(&board));
}
