use samegame::board::{empty_column, Board, Cell};

fn rows_of(lines: [&str; 15]) -> Vec<Vec<i32>> {
    lines
        .iter()
        .map(|line| {
            line.chars()
                .map(|c| match c {
                    '0' => 0,
                    '1' => 1,
                    '2' => 2,
                    '3' => 3,
                    '4' => 4,
                    _ => -1,
                })
                .collect()
        })
        .collect()
}

fn uniform_rows(code: i32) -> Vec<Vec<i32>> {
    let mut rows = Vec::new();
    for _ in 0..15 {
        rows.push(vec![code; 15]);
    }
    rows
}

#[test]
fn uniform_rows_give_a_board_of_one_colour() {
    let board = Board::from_rows(&uniform_rows(2)).unwrap();
    for x in 0..15 {
        for y in 0..15 {
            assert_eq!(board.get(x, y), Cell::Blue);
        }
    }
}

#[test]
fn colour_codes_map_to_the_palette() {
    assert_eq!(Cell::from_code(0), Cell::Red);
    assert_eq!(Cell::from_code(1), Cell::Green);
    assert_eq!(Cell::from_code(2), Cell::Blue);
    assert_eq!(Cell::from_code(3), Cell::Yellow);
    assert_eq!(Cell::from_code(4), Cell::Purple);
    assert_eq!(Cell::from_code(-1), Cell::Empty);
    assert_eq!(Cell::from_code(5), Cell::Empty);
    assert_eq!(Cell::from_code(i32::MAX), Cell::Empty);
    assert_eq!(Cell::from_code(i32::MIN), Cell::Empty);
}

#[test]
fn palette_index_is_the_inverse_of_the_colour_code() {
    for code in 0..5 {
        assert_eq!(Cell::from_code(code).index() as i32, code);
    }
    assert_eq!(Cell::Empty.index(), 5);
    assert!(Cell::Empty.is_empty());
    assert!(!Cell::Red.is_empty());
}

#[test]
fn first_row_is_the_top_of_the_board() {
    let board = Board::from_rows(&rows_of([
        "0..............",
        "...............",
        "...............",
        "...............",
        "...............",
        "...............",
        "...............",
        "...............",
        "...............",
        "...............",
        "...............",
        "...............",
        "...............",
        "...............",
        ".1............4",
    ]))
    .unwrap();
    assert_eq!(board.get(0, 14), Cell::Red);
    assert_eq!(board.get(1, 0), Cell::Green);
    assert_eq!(board.get(14, 0), Cell::Purple);
    assert_eq!(board.get(0, 0), Cell::Empty);
    assert_eq!(board.get(14, 14), Cell::Empty);
}

#[test]
fn too_few_rows_are_refused() {
    let mut rows = uniform_rows(1);
    rows.pop();
    assert!(Board::from_rows(&rows).is_none());
    assert!(Board::from_rows(&Vec::new()).is_none());
}

#[test]
fn too_many_rows_are_refused() {
    let mut rows = uniform_rows(1);
    rows.push(vec![1; 15]);
    assert!(Board::from_rows(&rows).is_none());
}

#[test]
fn a_short_row_is_refused() {
    let mut rows = uniform_rows(1);
    rows[7].pop();
    assert!(Board::from_rows(&rows).is_none());
}

#[test]
fn codes_past_the_width_are_not_looked_at() {
    let mut rows = uniform_rows(3);
    rows[0].push(0);
    rows[14].push(4);
    let board = Board::from_rows(&rows).unwrap();
    for x in 0..15 {
        for y in 0..15 {
            assert_eq!(board.get(x, y), Cell::Yellow);
        }
    }
}

#[test]
fn the_empty_board_is_clear() {
    let board = Board::empty();
    assert!(board.is_clear());
    for x in 0..15 {
        for y in 0..15 {
            assert_eq!(board.get(x, y), Cell::Empty);
        }
    }
    assert_eq!(empty_column(), vec![Cell::Empty; 15]);
}

#[test]
fn a_board_with_one_tile_is_not_clear() {
    let mut rows = uniform_rows(-1);
    rows[3][9] = 2;
    let board = Board::from_rows(&rows).unwrap();
    assert!(!board.is_clear());
}

#[test]
fn the_key_lists_the_columns_from_the_floor_upward() {
    let mut rows = uniform_rows(-1);
    rows[14][0] = 0;
    rows[13][0] = 1;
    rows[14][1] = 4;
    let key = Board::from_rows(&rows).unwrap().key();
    assert_eq!(key.len(), 225);
    assert_eq!(key[0], 0);
    assert_eq!(key[1], 1);
    assert_eq!(key[2], 5);
    assert_eq!(key[15], 4);
    assert_eq!(key[16], 5);
    assert_eq!(key[224], 5);
}

#[test]
fn equal_boards_have_equal_keys_and_different_boards_do_not() {
    let mut rows = uniform_rows(1);
    let a = Board::from_rows(&rows).unwrap();
    let b = Board::from_rows(&rows).unwrap();
    assert_eq!(a.key(), b.key());
    rows[4][4] = 2;
    let c = Board::from_rows(&rows).unwrap();
    assert_ne!(a.key(), c.key());
}

#[test]
fn a_duplicate_holds_the_same_cells() {
    let mut rows = uniform_rows(1);
    rows[2][3] = 0;
    rows[9][0] = -1;
    let a = Board::from_rows(&rows).unwrap();
    let b = a.duplicate();
    for x in 0..15 {
        for y in 0..15 {
            assert_eq!(a.get(x, y), b.get(x, y));
        }
    }
    assert_eq!(a.key(), b.key());
}
