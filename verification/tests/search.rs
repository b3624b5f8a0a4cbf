use samegame::board::{Board, Cell};
use samegame::driver::Driver;
use samegame::search::{copy_cells, Eval, Move, MoveGraph};

fn rows_of(lines: [&str; 15]) -> Vec<Vec<i32>> {
    lines
        .iter()
        .map(|line| {
            line.chars()
                .map(|c| match c {
                    '0' => 0,
                    '1' => 1,
                    '2' => 2,
                    '3' => 3,
                    '4' => 4,
                    _ => -1,
                })
                .collect()
        })
        .collect()
}

fn board_of(lines: [&str; 15]) -> Board {
    Board::from_rows(&rows_of(lines)).unwrap()
}

fn uniform(code: i32) -> Board {
    let rows: Vec<Vec<i32>> = (0..15).map(|_| vec![code; 15]).collect();
    Board::from_rows(&rows).unwrap()
}

fn two_groups() -> Board {
    board_of([
        "...............",
        "...............",
        "...............",
        "...............",
        "...............",
        "...............",
        "...............",
        "...............",
        "...............",
        "...............",
        "...............",
        "...............",
        "...............",
        "...............",
        "000.111........",
    ])
}

fn two_groups_and_a_lone_tile() -> Board {
    board_of([
        "...............",
        "...............",
        "...............",
        "...............",
        "...............",
        "...............",
        "...............",
        "...............",
        "...............",
        "...............",
        "...............",
        "...............",
        "...............",
        "...............",
        "000.111.2......",
    ])
}

fn tangle() -> Board {
    board_of([
        "...............",
        "...............",
        "...............",
        "...............",
        "...............",
        "...............",
        "...............",
        "...............",
        "...............",
        "...............",
        "...............",
        "0110...........",
        "1001...........",
        "0220...........",
        "0110...........",
    ])
}

fn lone_tiles() -> Board {
    board_of([
        "...............",
        "...............",
        "...............",
        "...............",
        "...............",
        "...............",
        "...............",
        "...............",
        "...............",
        "...............",
        "...............",
        "...............",
        "...............",
        "10.............",
        "012............",
    ])
}

fn run_out(driver: &mut Driver) -> u64 {
    let mut steps = 0;
    while !driver.finished() {
        driver.step();
        steps += 1;
        assert!(steps < 1_000_000);
    }
    steps
}

#[test]
fn a_new_node_holds_the_groups_of_its_board_as_moves() {
    let node = Eval::new(two_groups());
    assert_eq!(node.moves.len(), 2);
    assert!(!node.explored);
    assert_eq!(node.total_score, 0);
    for m in node.moves.iter() {
        assert_eq!(m.pos.len(), 3);
        assert_eq!(m.score, 1);
        assert!(m.eval.is_none());
    }
}

#[test]
fn the_empty_board_is_explored_and_worth_the_bonus() {
    let node = Eval::new(Board::empty());
    assert!(node.moves.is_empty());
    assert!(node.explored);
    assert_eq!(node.total_score, 1000);
    let mut driver = Driver::new(Board::empty(), 1);
    assert!(driver.finished());
    assert_eq!(driver.total_score(), 1000);
    let progress = driver.step();
    assert!(!progress.more);
    assert_eq!(driver.total_score(), 1000);
    assert_eq!(driver.graph.nodes.len(), 1);
    assert!(driver.best_path().is_empty());
}

#[test]
fn a_board_of_lone_tiles_is_explored_and_worth_nothing() {
    let node = Eval::new(lone_tiles());
    assert!(node.moves.is_empty());
    assert!(node.explored);
    assert_eq!(node.total_score, 0);
    let mut driver = Driver::new(lone_tiles(), 1);
    assert!(driver.finished());
    let progress = driver.step();
    assert!(!progress.more);
    assert!(!progress.improved);
    assert_eq!(driver.total_score(), 0);
}

#[test]
fn one_group_over_the_whole_board_is_explored_in_one_step() {
    let mut driver = Driver::new(uniform(3), 42);
    assert!(!driver.finished());
    assert_eq!(driver.total_score(), 0);
    assert_eq!(driver.graph.nodes[0].moves.len(), 1);
    assert_eq!(driver.graph.nodes[0].moves[0].score, 223 * 223);
    let progress = driver.step();
    assert!(!progress.more);
    assert!(progress.improved);
    assert!(driver.finished());
    assert_eq!(driver.total_score(), 223 * 223 + 1000);
    assert_eq!(driver.total_score(), 50_729);
    assert_eq!(driver.graph.nodes.len(), 2);
    assert!(driver.graph.nodes[1].board.is_clear());
    assert!(driver.graph.nodes[1].explored);
    assert_eq!(driver.graph.nodes[1].total_score, 1000);
    let path = driver.best_path();
    assert_eq!(path.len(), 1);
    assert_eq!(path[0].cell, (0, 0));
    assert_eq!(path[0].score, 49_729);
    assert_eq!(path[0].node, 0);
}

#[test]
fn two_groups_that_clear_the_board_earn_their_scores_and_the_bonus() {
    let mut driver = Driver::new(two_groups(), 7);
    run_out(&mut driver);
    assert_eq!(driver.total_score(), 1 + 1 + 1000);
    let path = driver.best_path();
    assert_eq!(path.len(), 2);
    assert_eq!(path[0].score, 1);
    assert_eq!(path[1].score, 1);
    assert_eq!(path[0].node, 0);
    // the line ends on a board without moves
    let last = &driver.graph.nodes[path[1].node].moves[path[1].index];
    let end = &driver.graph.nodes[last.eval.unwrap()];
    assert!(end.moves.is_empty());
    assert!(end.board.is_clear());
}

#[test]
fn two_groups_that_leave_a_tile_earn_their_scores_only() {
    let mut driver = Driver::new(two_groups_and_a_lone_tile(), 7);
    run_out(&mut driver);
    assert_eq!(driver.total_score(), 1 + 1);
    let path = driver.best_path();
    assert_eq!(path.len(), 2);
    let colours: Vec<Cell> = path
        .iter()
        .map(|s| driver.graph.nodes[s.node].board.get(s.cell.0, s.cell.1))
        .collect();
    assert!(colours.contains(&Cell::Red));
    assert!(colours.contains(&Cell::Green));
    let last = &driver.graph.nodes[path[1].node].moves[path[1].index];
    let end = &driver.graph.nodes[last.eval.unwrap()];
    assert!(end.moves.is_empty());
    assert!(end.explored);
    assert_eq!(end.total_score, 0);
    assert!(!end.board.is_clear());
}

#[test]
fn boards_reached_by_different_orders_share_one_node() {
    let mut driver = Driver::new(two_groups_and_a_lone_tile(), 3);
    run_out(&mut driver);
    // root, after the red move, after the green move, after both
    assert_eq!(driver.graph.nodes.len(), 4);
    let root = &driver.graph.nodes[0];
    let a = root.moves[0].eval.unwrap();
    let b = root.moves[1].eval.unwrap();
    assert_ne!(a, b);
    assert_eq!(driver.graph.nodes[a].moves.len(), 1);
    assert_eq!(driver.graph.nodes[b].moves.len(), 1);
    let end_a = driver.graph.nodes[a].moves[0].eval.unwrap();
    let end_b = driver.graph.nodes[b].moves[0].eval.unwrap();
    assert_eq!(end_a, end_b);
}

#[test]
fn no_two_nodes_hold_the_same_board() {
    let mut driver = Driver::new(tangle(), 11);
    run_out(&mut driver);
    let keys: Vec<Vec<u8>> = driver.graph.nodes.iter().map(|n| n.board.key()).collect();
    for i in 0..keys.len() {
        for j in 0..i {
            assert_ne!(keys[i], keys[j]);
        }
        assert_eq!(driver.graph.memo.probe(&keys[i]), Some(i));
    }
}

#[test]
fn the_total_score_never_falls() {
    for seed in 0..20u64 {
        let mut driver = Driver::new(tangle(), seed);
        let mut last = driver.total_score();
        let mut steps = 0;
        loop {
            let before: Vec<u32> = driver.graph.nodes.iter().map(|n| n.total_score).collect();
            let progress = driver.step();
            let now = driver.total_score();
            assert!(now >= last);
            assert_eq!(progress.improved, now > last);
            assert_eq!(driver.max_score, now);
            for (i, t) in before.iter().enumerate() {
                assert!(driver.graph.nodes[i].total_score >= *t);
            }
            last = now;
            steps += 1;
            assert!(steps < 100_000);
            if !progress.more {
                break;
            }
        }
        assert!(driver.finished());
    }
}

#[test]
fn every_seed_finds_the_same_best_score() {
    let mut first = Driver::new(tangle(), 0);
    run_out(&mut first);
    let best = first.total_score();
    assert!(best > 0);
    for seed in 1..12u64 {
        let mut driver = Driver::new(tangle(), seed);
        run_out(&mut driver);
        assert_eq!(driver.total_score(), best);
    }
}

#[test]
fn the_same_seed_gives_the_same_search() {
    let mut a = Driver::new(tangle(), 99);
    let mut b = Driver::new(tangle(), 99);
    for _ in 0..25 {
        let pa = a.step();
        let pb = b.step();
        assert_eq!(pa, pb);
        assert_eq!(a.total_score(), b.total_score());
        assert_eq!(a.graph.nodes.len(), b.graph.nodes.len());
        assert_eq!(a.graph.rng.state, b.graph.rng.state);
    }
}

#[test]
fn in_an_explored_graph_every_total_is_what_the_moves_make() {
    let mut driver = Driver::new(tangle(), 5);
    run_out(&mut driver);
    let nodes = &driver.graph.nodes;
    assert!(nodes[0].explored);
    // every node below an explored root is explored
    let mut stack = vec![0usize];
    let mut seen = vec![false; nodes.len()];
    while let Some(i) = stack.pop() {
        if seen[i] {
            continue;
        }
        seen[i] = true;
        let node = &nodes[i];
        assert!(node.explored);
        if node.moves.is_empty() {
            let bonus = if node.board.is_clear() { 1000 } else { 0 };
            assert_eq!(node.total_score, bonus);
        } else {
            let best = node
                .moves
                .iter()
                .map(|m| m.score + nodes[m.eval.unwrap()].total_score)
                .max()
                .unwrap();
            assert_eq!(node.total_score, best);
        }
        for m in node.moves.iter() {
            stack.push(m.eval.unwrap());
        }
    }
}

#[test]
fn the_best_line_earns_the_total_score_of_an_explored_root() {
    let mut driver = Driver::new(tangle(), 8);
    run_out(&mut driver);
    let path = driver.best_path();
    assert!(!path.is_empty());
    let earned: u32 = path.iter().map(|s| s.score).sum();
    let last = path.last().unwrap();
    let end = driver.graph.nodes[last.node].moves[last.index].eval.unwrap();
    assert_eq!(earned + driver.graph.nodes[end].total_score, driver.total_score());
    // each step starts where the step before has led
    assert_eq!(path[0].node, 0);
    for k in 1..path.len() {
        let prev = &path[k - 1];
        assert_eq!(
            driver.graph.nodes[prev.node].moves[prev.index].eval,
            Some(path[k].node)
        );
    }
    for s in path.iter() {
        let m = &driver.graph.nodes[s.node].moves[s.index];
        assert_eq!(s.cell, m.pos[0]);
        assert_eq!(s.score, m.score);
    }
}

#[test]
fn the_best_line_takes_the_last_of_the_moves_worth_most() {
    let mut graph = MoveGraph::new(two_groups_and_a_lone_tile(), 1);
    assert!(graph.best_path(0).is_empty());
    assert_eq!(graph.choose_best(0), None);
    Move::simulate(&mut graph, 0, 0);
    assert_eq!(graph.choose_best(0), Some(0));
    Move::simulate(&mut graph, 0, 1);
    // both moves are worth 1 now
    assert_eq!(graph.choose_best(0), Some(1));
    let path = graph.best_path(0);
    assert_eq!(path.len(), 1);
    assert_eq!(path[0].index, 1);
}

#[test]
fn playing_a_move_makes_the_node_of_the_board_after_it() {
    let mut graph = MoveGraph::new(two_groups_and_a_lone_tile(), 1);
    assert_eq!(graph.nodes.len(), 1);
    let more = Move::simulate(&mut graph, 0, 0);
    assert!(more);
    assert_eq!(graph.nodes.len(), 2);
    assert_eq!(graph.nodes[0].moves[0].eval, Some(1));
    assert_eq!(graph.nodes[0].moves[1].eval, None);
    let child = &graph.nodes[1];
    assert_eq!(child.moves.len(), 1);
    assert_eq!(child.total_score, 0);
    assert!(!child.explored);
    // looking into the move again goes on below it
    let more = Move::simulate(&mut graph, 0, 0);
    assert!(!more);
    assert_eq!(graph.nodes.len(), 3);
    assert!(graph.nodes[1].explored);
    assert_eq!(graph.nodes[1].total_score, 1);
    assert!(graph.nodes[2].explored);
    assert_eq!(graph.nodes[2].total_score, 0);
    // the root has not been reassessed yet
    assert_eq!(graph.nodes[0].total_score, 0);
    assert!(graph.reassess(0));
    assert_eq!(graph.nodes[0].total_score, 2);
    assert!(!graph.nodes[0].explored);
}

#[test]
fn a_step_in_an_explored_node_changes_nothing() {
    let mut graph = MoveGraph::new(uniform(0), 1);
    assert!(!Eval::expand(&mut graph, 0));
    assert_eq!(graph.nodes.len(), 2);
    let state = graph.rng.state;
    assert!(!Eval::expand(&mut graph, 0));
    assert!(!Eval::expand(&mut graph, 1));
    assert_eq!(graph.nodes.len(), 2);
    assert_eq!(graph.rng.state, state);
    assert_eq!(graph.nodes[0].total_score, 50_729);
}

#[test]
fn selection_chooses_among_the_moves_that_are_not_resolved() {
    let mut graph = MoveGraph::new(two_groups_and_a_lone_tile(), 17);
    let mut hit = [false, false];
    for _ in 0..64 {
        let m = graph.select(0).unwrap();
        hit[m] = true;
    }
    assert_eq!(hit, [true, true]);
    // resolve move 0 wholly
    Move::simulate(&mut graph, 0, 0);
    Move::simulate(&mut graph, 0, 0);
    assert!(graph.nodes[1].explored);
    for _ in 0..64 {
        assert_eq!(graph.select(0), Some(1));
    }
    Move::simulate(&mut graph, 0, 1);
    Move::simulate(&mut graph, 0, 1);
    let state = graph.rng.state;
    assert_eq!(graph.select(0), None);
    assert_eq!(graph.rng.state, state);
}

#[test]
fn a_full_board_is_searched_step_by_step() {
    let mut state: u64 = 12345;
    let mut rows: Vec<Vec<i32>> = Vec::new();
    for _ in 0..15 {
        let mut row = Vec::new();
        for _ in 0..15 {
            state = state
                .wrapping_mul(6_364_136_223_846_793_005)
                .wrapping_add(1_442_695_040_888_963_407);
            row.push(((state >> 33) % 5) as i32);
        }
        rows.push(row);
    }
    let mut driver = Driver::new(Board::from_rows(&rows).unwrap(), 2024);
    assert!(!driver.graph.nodes[0].moves.is_empty());
    let mut last = 0;
    for step in 1..=400usize {
        let progress = driver.step();
        assert!(progress.more);
        assert!(driver.total_score() >= last);
        last = driver.total_score();
        // a step plays one new move, or marks a node as explored
        assert!(driver.graph.nodes.len() <= step + 1);
    }
    assert!(last > 0);
    let path = driver.best_path();
    assert!(!path.is_empty());
    let earned: u32 = path.iter().map(|s| s.score).sum();
    assert!(earned <= last + 1000);
    // the line can be played on the boards of the graph
    for s in path.iter() {
        let node = &driver.graph.nodes[s.node];
        let m = &node.moves[s.index];
        let colour = node.board.get(s.cell.0, s.cell.1);
        assert_ne!(colour, Cell::Empty);
        for &(x, y) in m.pos.iter() {
            assert_eq!(node.board.get(x, y), colour);
        }
    }
}

#[test]
fn a_copy_of_positions_is_equal_to_them() {
    let pos = vec![(1, 2), (3, 4), (14, 0)];
    assert_eq!(copy_cells(&pos), pos);
    assert!(copy_cells(&Vec::new()).is_empty());
}
