use samegame::board::{Board, Cell};
use samegame::extract::{explore_board, lowest_row};
use samegame::group::{explore_group, neighbour, Group};
use samegame::rank::{count_color, goes_first, palette, rank_groups, scarce_color};
use samegame::region::CellSet;

fn rows_of(lines: [&str; 15]) -> Vec<Vec<i32>> {
    lines
        .iter()
        .map(|line| {
            line.chars()
                .map(|c| match c {
                    '0' => 0,
                    '1' => 1,
                    '2' => 2,
                    '3' => 3,
                    '4' => 4,
                    _ => -1,
                })
                .collect()
        })
        .collect()
}

fn board_of(lines: [&str; 15]) -> Board {
    Board::from_rows(&rows_of(lines)).unwrap()
}

fn sorted(pos: &Vec<(u32, u32)>) -> Vec<(u32, u32)> {
    let mut v = pos.clone();
    v.sort();
    v
}

fn touches(a: (u32, u32), b: (u32, u32)) -> bool {
    let dx = if a.0 > b.0 { a.0 - b.0 } else { b.0 - a.0 };
    let dy = if a.1 > b.1 { a.1 - b.1 } else { b.1 - a.1 };
    dx + dy == 1
}

fn hangs_together(pos: &Vec<(u32, u32)>) -> bool {
    let mut reached = vec![pos[0]];
    let mut grew = true;
    while grew {
        grew = false;
        for &p in pos.iter() {
            if !reached.contains(&p) && reached.iter().any(|&q| touches(p, q)) {
                reached.push(p);
                grew = true;
            }
        }
    }
    reached.len() == pos.len()
}

fn mixed() -> Board {
    board_of([
        "...............",
        "...............",
        "...............",
        "...............",
        "...............",
        "...............",
        "...............",
        "...............",
        "...............",
        "...............",
        "33.............",
        "10.........4...",
        "10222......4...",
        "00211..........",
        "30011......2...",
    ])
}

fn group(pos: Vec<(u32, u32)>, min_y: u32, color: Cell) -> Group {
    Group { pos, min_y, color }
}

#[test]
fn extraction_finds_every_group_and_no_lone_tile() {
    let board = mixed();
    let groups = explore_board(&board);
    let mut found: Vec<(Cell, Vec<(u32, u32)>)> =
        groups.iter().map(|g| (g.color, sorted(&g.pos))).collect();
    found.sort_by(|a, b| a.1.cmp(&b.1));
    let expected: Vec<(Cell, Vec<(u32, u32)>)> = vec![
        (Cell::Green, vec![(0, 2), (0, 3)]),
        (Cell::Yellow, vec![(0, 4), (1, 4)]),
        (Cell::Red, vec![(0, 1), (1, 0), (1, 1), (1, 2), (1, 3), (2, 0)]),
        (Cell::Blue, vec![(2, 1), (2, 2), (3, 2), (4, 2)]),
        (Cell::Green, vec![(3, 0), (3, 1), (4, 0), (4, 1)]),
        (Cell::Purple, vec![(11, 2), (11, 3)]),
    ];
    let mut expected = expected;
    expected.sort_by(|a, b| a.1.cmp(&b.1));
    assert_eq!(found, expected);
}

#[test]
fn groups_are_disjoint_connected_and_of_one_colour() {
    let board = mixed();
    let groups = explore_board(&board);
    let mut seen: Vec<(u32, u32)> = Vec::new();
    for g in groups.iter() {
        assert!(g.pos.len() >= 2);
        assert!(hangs_together(&g.pos));
        assert_ne!(g.color, Cell::Empty);
        for &(x, y) in g.pos.iter() {
            assert!(x < 15 && y < 15);
            assert_eq!(board.get(x, y), g.color);
            assert!(!seen.contains(&(x, y)));
            seen.push((x, y));
        }
        assert_eq!(g.min_y, g.pos.iter().map(|p| p.1).min().unwrap());
    }
    // every tile with a neighbour of its colour is in a group, and no other
    for x in 0..15u32 {
        for y in 0..15u32 {
            let c = board.get(x, y);
            let mut twin = false;
            for d in 0..4u8 {
                if let Some((nx, ny)) = neighbour(x, y, d) {
                    if c != Cell::Empty && board.get(nx, ny) == c {
                        twin = true;
                    }
                }
            }
            assert_eq!(seen.contains(&(x, y)), twin);
        }
    }
}

#[test]
fn the_first_position_of_a_group_is_the_first_in_scan_order() {
    let groups = explore_board(&mixed());
    for g in groups.iter() {
        let first = g.pos.iter().map(|p| (p.0, p.1)).min().unwrap();
        assert_eq!(g.pos[0], first);
    }
}

#[test]
fn a_group_lists_its_positions_in_the_order_of_the_fill() {
    let board = board_of([
        "...............",
        "...............",
        "...............",
        "...............",
        "...............",
        "...............",
        "...............",
        "...............",
        "...............",
        "...............",
        "...............",
        ".3.............",
        "33.............",
        "2.42...........",
        "22422..........",
    ]);
    let groups = explore_board(&board);
    let lists: Vec<Vec<(u32, u32)>> = groups.iter().map(|g| g.pos.clone()).collect();
    assert!(lists.contains(&vec![(0, 0), (0, 1), (1, 0)]));
    assert!(lists.contains(&vec![(0, 2), (1, 2), (1, 3)]));
    assert!(lists.contains(&vec![(2, 0), (2, 1)]));
    assert!(lists.contains(&vec![(3, 0), (3, 1), (4, 0)]));
    assert_eq!(lists.len(), 4);
}

#[test]
fn the_empty_board_has_no_group() {
    assert!(explore_board(&Board::empty()).is_empty());
}

#[test]
fn a_board_of_lone_tiles_has_no_group() {
    let mut rows: Vec<Vec<i32>> = Vec::new();
    for r in 0..15 {
        rows.push((0..15).map(|c| ((r + 2 * c) % 5) as i32).collect());
    }
    let board = Board::from_rows(&rows).unwrap();
    assert!(explore_board(&board).is_empty());
}

#[test]
fn a_board_of_one_colour_is_one_group() {
    let rows: Vec<Vec<i32>> = (0..15).map(|_| vec![4; 15]).collect();
    let board = Board::from_rows(&rows).unwrap();
    let groups = explore_board(&board);
    assert_eq!(groups.len(), 1);
    assert_eq!(groups[0].pos.len(), 225);
    assert_eq!(groups[0].color, Cell::Purple);
    assert_eq!(groups[0].min_y, 0);
    assert_eq!(groups[0].pos[0], (0, 0));
    let mut all = sorted(&groups[0].pos);
    all.dedup();
    assert_eq!(all.len(), 225);
}

#[test]
fn groups_that_touch_by_a_corner_only_are_apart() {
    let board = board_of([
        "...............",
        "...............",
        "...............",
        "...............",
        "...............",
        "...............",
        "...............",
        "...............",
        "...............",
        "...............",
        "...............",
        "..00...........",
        "..00...........",
        "00.............",
        "00.............",
    ]);
    let groups = explore_board(&board);
    assert_eq!(groups.len(), 2);
    assert_eq!(sorted(&groups[0].pos), vec![(0, 0), (0, 1), (1, 0), (1, 1)]);
    assert_eq!(sorted(&groups[1].pos), vec![(2, 2), (2, 3), (3, 2), (3, 3)]);
}

#[test]
fn extraction_ranks_the_scarce_colour_first_then_the_lowest_groups() {
    let groups = explore_board(&mixed());
    // tiles in groups: red 6, green 6, blue 4, yellow 2, purple 2; yellow
    // comes before purple in the palette
    let order: Vec<(Cell, u32)> = groups.iter().map(|g| (g.color, g.min_y)).collect();
    assert_eq!(
        order,
        vec![
            (Cell::Yellow, 4),
            (Cell::Red, 0),
            (Cell::Green, 0),
            (Cell::Blue, 1),
            (Cell::Green, 2),
            (Cell::Purple, 2),
        ]
    );
}

#[test]
fn flood_fill_collects_the_tiles_that_hang_on_the_start() {
    let board = mixed();
    let mut seen = CellSet::new();
    let mut g = group(vec![(1, 1)], 0, Cell::Red);
    seen.insert(1, 1);
    explore_group(1, 1, Cell::Red, &mut g, &mut seen, &board);
    assert_eq!(g.pos[0], (1, 1));
    assert_eq!(sorted(&g.pos), vec![(0, 1), (1, 0), (1, 1), (1, 2), (1, 3), (2, 0)]);
    for &(x, y) in g.pos.iter() {
        assert!(seen.contains(x, y));
    }
    assert!(!seen.contains(0, 0));
    assert!(!seen.contains(2, 1));
    assert_eq!(g.min_y, 0);
    assert_eq!(g.color, Cell::Red);
}

#[test]
fn flood_fill_looks_below_then_above_then_left_then_right() {
    let board = board_of([
        "...............",
        "...............",
        "...............",
        "...............",
        "...............",
        "...............",
        "...............",
        "...............",
        "...............",
        "...............",
        "...............",
        "...............",
        ".2.............",
        "222............",
        ".2.............",
    ]);
    let mut seen = CellSet::new();
    let mut g = group(vec![(1, 1)], 0, Cell::Blue);
    seen.insert(1, 1);
    explore_group(1, 1, Cell::Blue, &mut g, &mut seen, &board);
    assert_eq!(g.pos, vec![(1, 1), (1, 0), (1, 2), (0, 1), (2, 1)]);
}

#[test]
fn flood_fill_stays_out_of_what_has_been_seen() {
    let board = mixed();
    let mut seen = CellSet::new();
    seen.insert(1, 2);
    seen.insert(1, 1);
    let mut g = group(vec![(1, 1)], 0, Cell::Red);
    explore_group(1, 1, Cell::Red, &mut g, &mut seen, &board);
    assert_eq!(sorted(&g.pos), vec![(0, 1), (1, 0), (1, 1), (2, 0)]);
}

#[test]
fn flood_fill_from_a_lone_tile_adds_nothing() {
    let board = mixed();
    let mut seen = CellSet::new();
    seen.insert(0, 0);
    let mut g = group(vec![(0, 0)], 0, Cell::Yellow);
    explore_group(0, 0, Cell::Yellow, &mut g, &mut seen, &board);
    assert_eq!(g.pos, vec![(0, 0)]);
}

#[test]
fn neighbours_stop_at_the_edge() {
    assert_eq!(neighbour(0, 0, 0), None);
    assert_eq!(neighbour(0, 0, 1), Some((0, 1)));
    assert_eq!(neighbour(0, 0, 2), None);
    assert_eq!(neighbour(0, 0, 3), Some((1, 0)));
    assert_eq!(neighbour(14, 14, 0), Some((14, 13)));
    assert_eq!(neighbour(14, 14, 1), None);
    assert_eq!(neighbour(14, 14, 2), Some((13, 14)));
    assert_eq!(neighbour(14, 14, 3), None);
}

#[test]
fn the_lowest_row_is_the_smallest_row() {
    assert_eq!(lowest_row(&vec![(3, 7)]), 7);
    assert_eq!(lowest_row(&vec![(3, 7), (3, 6), (4, 6), (4, 9)]), 6);
    assert_eq!(lowest_row(&vec![(0, 0), (0, 14)]), 0);
}

#[test]
fn a_cell_set_holds_what_was_put_in() {
    let mut set = CellSet::new();
    assert!(!set.contains(3, 4));
    assert!(set.insert(3, 4));
    assert!(set.contains(3, 4));
    assert!(!set.insert(3, 4));
    assert!(!set.contains(4, 3));
    assert!(!set.contains(15, 0));
    assert!(!set.contains(0, 15));
    assert!(set.insert(14, 14));
    assert!(set.contains(14, 14));
}

#[test]
fn ranking_puts_the_scarce_colour_first() {
    let board = Board::empty();
    let mut groups = vec![
        group(vec![(0, 0), (0, 1), (0, 2)], 0, Cell::Red),
        group(vec![(5, 5), (5, 6)], 5, Cell::Blue),
        group(vec![(7, 1), (7, 2), (7, 3)], 1, Cell::Red),
    ];
    rank_groups(&board, &mut groups);
    let order: Vec<(Cell, u32)> = groups.iter().map(|g| (g.color, g.min_y)).collect();
    assert_eq!(order, vec![(Cell::Blue, 5), (Cell::Red, 0), (Cell::Red, 1)]);
}

#[test]
fn ranking_orders_each_class_by_the_lowest_row() {
    let board = Board::empty();
    let mut groups = vec![
        group(vec![(0, 9), (0, 10)], 9, Cell::Green),
        group(vec![(1, 3), (1, 4), (1, 5)], 3, Cell::Red),
        group(vec![(2, 4), (2, 5)], 4, Cell::Green),
        group(vec![(3, 0), (3, 1), (3, 2)], 0, Cell::Yellow),
        group(vec![(4, 1), (4, 2)], 1, Cell::Red),
    ];
    // green 4, red 5, yellow 3: yellow is scarce
    rank_groups(&board, &mut groups);
    let order: Vec<(Cell, u32)> = groups.iter().map(|g| (g.color, g.min_y)).collect();
    assert_eq!(
        order,
        vec![
            (Cell::Yellow, 0),
            (Cell::Red, 1),
            (Cell::Red, 3),
            (Cell::Green, 4),
            (Cell::Green, 9),
        ]
    );
}

#[test]
fn ranking_keeps_the_order_of_groups_of_equal_rank() {
    let board = Board::empty();
    let mut groups = vec![
        group(vec![(9, 2), (9, 3)], 2, Cell::Purple),
        group(vec![(1, 2), (1, 3)], 2, Cell::Blue),
        group(vec![(5, 2), (5, 3)], 2, Cell::Purple),
        group(vec![(3, 2), (3, 3), (3, 4)], 2, Cell::Red),
        group(vec![(7, 2), (7, 3)], 2, Cell::Blue),
    ];
    // red 3, blue 4, purple 4: red is scarce, all others are of one rank
    rank_groups(&board, &mut groups);
    let order: Vec<(u32, u32)> = groups.iter().map(|g| g.pos[0]).collect();
    assert_eq!(order, vec![(3, 2), (9, 2), (1, 2), (5, 2), (7, 2)]);
}

#[test]
fn ranking_nothing_gives_nothing() {
    let board = Board::empty();
    let mut groups: Vec<Group> = Vec::new();
    rank_groups(&board, &mut groups);
    assert!(groups.is_empty());
    assert_eq!(scarce_color(&groups), None);
}

#[test]
fn of_equally_scarce_colours_the_first_in_the_palette_is_scarce() {
    let groups = vec![
        group(vec![(0, 0), (0, 1)], 0, Cell::Purple),
        group(vec![(2, 0), (2, 1)], 0, Cell::Green),
        group(vec![(4, 0), (4, 1), (4, 2)], 0, Cell::Red),
    ];
    assert_eq!(scarce_color(&groups), Some(Cell::Green));
    assert_eq!(count_color(&groups, Cell::Red), (true, 3));
    assert_eq!(count_color(&groups, Cell::Green), (true, 2));
    assert_eq!(count_color(&groups, Cell::Blue), (false, 0));
}

#[test]
fn the_palette_lists_the_colours_in_order() {
    let expected = [
        Cell::Red,
        Cell::Green,
        Cell::Blue,
        Cell::Yellow,
        Cell::Purple,
        Cell::Empty,
    ];
    for i in 0..6u8 {
        assert_eq!(palette(i), expected[i as usize]);
        assert_eq!(palette(i).index(), i);
    }
}

#[test]
fn a_group_goes_first_by_class_then_by_row() {
    let low_red = group(vec![(0, 0), (0, 1)], 0, Cell::Red);
    let high_red = group(vec![(0, 5), (0, 6)], 5, Cell::Red);
    let low_blue = group(vec![(3, 0), (3, 1)], 0, Cell::Blue);
    assert!(goes_first(&low_red, &high_red, Cell::Blue));
    assert!(!goes_first(&high_red, &low_red, Cell::Blue));
    assert!(goes_first(&high_red, &low_blue, Cell::Red));
    assert!(!goes_first(&low_blue, &high_red, Cell::Red));
    assert!(!goes_first(&low_red, &low_blue, Cell::Yellow));
    assert!(!goes_first(&low_blue, &low_red, Cell::Yellow));
}
