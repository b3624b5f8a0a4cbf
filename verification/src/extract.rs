//! Group extraction: finding every group of a board.
//!
//! The board is scanned column by column, each column from row `0` upward.
//! Every tile that no earlier flood fill has reached starts a fill of its
//! own; what the fill collects is a group if it holds at least two tiles.

use vstd::prelude::*;
use crate::board::{in_grid, is_grid, Board, Cell, Grid, AREA};
use crate::group::{
    adjacent, cells_from, closed, explore_group, fill_from, fill_order, flooded, fresh, hangs,
    hangs_at, has_twin, hooked, is_component, is_lowest_row, lemma_fill_apart,
    lemma_hanging_is_connected, scan_index, spots, surrounded, Group,
};
use crate::rank::{
    comes_from, is_ranking, is_scarce, lemma_rearranged_scarce, precedes, rank_groups, ranked_by,
    same_rank,
};
use crate::region::{cells_of, distinct, inside, spot, tile, CellSet, Region};

verus! {

/// Some list holds the position.
pub open spec fn found_in(lists: Seq<Seq<(u32, u32)>>, p: (int, int)) -> bool {
    exists|i: int| 0 <= i < lists.len() && cells_of(#[trigger] lists[i]).contains(p)
}

/// No position is in two of the lists.
pub open spec fn separate(lists: Seq<Seq<(u32, u32)>>) -> bool {
    forall|i: int, j: int, p: (int, int)|
        0 <= i < j < lists.len() && #[trigger] cells_of(lists[i]).contains(p) ==> !#[trigger] cells_of(
            lists[j],
        ).contains(p)
}

/// The lists are the groups of the grid: each list is a group, no two
/// lists share a position, and every tile that touches a tile of its own
/// colour is in one of the lists.
pub open spec fn all_groups(g: Grid, lists: Seq<Seq<(u32, u32)>>) -> bool {
    &&& forall|i: int| 0 <= i < lists.len() ==> is_component(g, #[trigger] lists[i])
    &&& separate(lists)
    &&& forall|p: (int, int)|
        in_grid(p) && tile(g, p) != Cell::Empty && #[trigger] has_twin(g, p) ==> found_in(
            lists,
            p,
        )
}

/// The position lists of the groups.
pub open spec fn position_lists(groups: Seq<Group>) -> Seq<Seq<(u32, u32)>> {
    Seq::new(groups.len(), |i: int| groups[i].pos@)
}

/// The groups are the groups of the grid, each with its attributes.
pub open spec fn is_extraction(g: Grid, groups: Seq<Group>) -> bool {
    &&& all_groups(g, position_lists(groups))
    &&& forall|i: int| 0 <= i < groups.len() ==> (#[trigger] groups[i]).legal_on(g)
}

/// Place in scan order of the first position of a group.
pub open spec fn anchor(a: Group) -> int {
    scan_index(spot(a.pos@[0]))
}

/// The groups are in rank order: groups of the scarce colour first, inside
/// each class by the row of the lowest tile, and groups that this does not
/// tell apart in the order in which a scan of the board meets them.
pub open spec fn in_rank_order(groups: Seq<Group>) -> bool {
    groups.len() > 0 ==> exists|scarce: Cell| #[trigger]
        is_scarce(groups, scarce) && ordered_for(groups, scarce)
}

/// The groups are in rank order for the scarce colour `scarce`.
pub open spec fn ordered_for(groups: Seq<Group>, scarce: Cell) -> bool {
    forall|i: int, j: int|
        0 <= i < j < groups.len() ==> {
            &&& precedes(#[trigger] groups[i], #[trigger] groups[j], scarce)
            &&& same_rank(groups[i], groups[j], scarce) ==> anchor(groups[i]) < anchor(groups[j])
        }
}

/// Every tile before place `n` of the scan is in the region.
pub open spec fn scanned(g: Grid, seen: Region, n: int) -> bool {
    forall|p: (int, int)|
        in_grid(p) && scan_index(p) < n && tile(g, p) != Cell::Empty ==> #[trigger] seen.contains(
            p,
        )
}

/// The region holds tiles only, and with a tile every tile of the same
/// colour that touches it.
pub open spec fn sealed(g: Grid, seen: Region) -> bool {
    &&& forall|p: (int, int)| #[trigger]
        seen.contains(p) ==> in_grid(p) && tile(g, p) != Cell::Empty
    &&& closed(g, seen)
}

/// The row of the lowest listed position.
pub fn lowest_row(pos: &Vec<(u32, u32)>) -> (row: u32)
    requires
        pos@.len() > 0,
    ensures
        is_lowest_row(pos@, row as int),
{
    let mut row: u32 = pos[0].1;
    let mut i: usize = 1;
    while i < pos.len()
        invariant
            1 <= i <= pos@.len(),
            forall|k: int| 0 <= k < i ==> row <= (#[trigger] pos@[k]).1,
            exists|k: int| 0 <= k < i && (#[trigger] pos@[k]).1 == row,
        decreases pos@.len() - i,
    {
        if pos[i].1 < row {
            row = pos[i].1;
        }
        i += 1;
    }
    row
}

/// What a flood fill from a tile that no earlier fill has reached brings
/// in: a whole group, or a tile that stands alone.
pub proof fn lemma_fill_is_component(
    g: Grid,
    before: Region,
    seed: (u32, u32),
    color: Cell,
    seen: Region,
    pos: Seq<(u32, u32)>,
)
    requires
        is_grid(g),
        sealed(g, before),
        scanned(g, before, scan_index(spot(seed))),
        in_grid(spot(seed)),
        !before.contains(spot(seed)),
        tile(g, spot(seed)) == color,
        color != Cell::Empty,
        pos.len() >= 1,
        pos[0] == seed,
        flooded(g, color, spot(seed), before.insert(spot(seed)), seq![seed], seen, pos),
        spots(pos) == spots(seq![seed]) + fill_order(
            g,
            color,
            before.insert(spot(seed)),
            spot(seed),
            0,
        ),
    ensures
        sealed(g, seen),
        seen == before.union(cells_of(pos)),
        forall|p: (int, int)| cells_of(pos).contains(p) ==> !before.contains(p),
        pos.len() >= 2 ==> is_component(g, pos),
        pos.len() == 1 ==> !has_twin(g, spot(seed)),
{
    let s = spot(seed);
    let r = cells_of(pos);
    assert(seen == before.insert(s).union(cells_from(pos, 1)));
    assert forall|k: int| 0 <= k < pos.len() implies {
        let p = #[trigger] spot(pos[k]);
        &&& in_grid(p)
        &&& !before.contains(p)
        &&& tile(g, p) == color
        &&& surrounded(g, color, seen, p)
        &&& seen.contains(p)
        &&& r.contains(p)
    } by {
        if k >= 1 {
            assert(fresh(g, color, before.insert(s), spot(pos[k])));
            assert(cells_from(pos, 1).contains(spot(pos[k])));
        }
    }
    assert forall|p: (int, int)| seen.contains(p) <==> before.union(r).contains(p) by {
        if cells_from(pos, 1).contains(p) {
            let k = choose|k: int| 1 <= k < pos.len() && #[trigger] spot(pos[k]) == p;
            assert(r.contains(p));
        }
        if r.contains(p) {
            let k = choose|k: int| 0 <= k < pos.len() && #[trigger] spot(pos[k]) == p;
            assert(seen.contains(spot(pos[k])));
        }
    }
    assert(seen =~= before.union(r));
    assert forall|p: (int, int)| r.contains(p) implies !before.contains(p) by {
        let k = choose|k: int| 0 <= k < pos.len() && #[trigger] spot(pos[k]) == p;
    }
    // whatever touches a member and holds the colour is a member
    assert forall|p: (int, int)| #[trigger] r.contains(p) implies surrounded(g, tile(g, p), r, p) by {
        let k = choose|k: int| 0 <= k < pos.len() && #[trigger] spot(pos[k]) == p;
        assert(surrounded(g, color, seen, p));
        assert forall|q: (int, int)|
            in_grid(q) && #[trigger] adjacent(p, q) && tile(g, q) == color implies r.contains(
            q,
        ) by {
            assert(seen.contains(q));
            if before.contains(q) {
                assert(surrounded(g, tile(g, q), before, q));
                assert(adjacent(q, p));
                assert(before.contains(p));
            }
        }
    }
    assert(closed(g, r));
    assert forall|p: (int, int)| #[trigger] seen.contains(p) implies surrounded(
        g,
        tile(g, p),
        seen,
        p,
    ) by {
        if before.contains(p) {
            assert(surrounded(g, tile(g, p), before, p));
        } else {
            assert(r.contains(p));
            let k = choose|k: int| 0 <= k < pos.len() && #[trigger] spot(pos[k]) == p;
            assert(surrounded(g, color, seen, p));
        }
    }
    assert(closed(g, seen));
    if pos.len() == 1 {
        if has_twin(g, s) {
            let q = choose|q: (int, int)|
                in_grid(q) && #[trigger] adjacent(s, q) && tile(g, q) == tile(g, s);
            assert(surrounded(g, color, seen, s));
            assert(seen.contains(q));
            if r.contains(q) {
                let k = choose|k: int| 0 <= k < pos.len() && #[trigger] spot(pos[k]) == q;
            }
            assert(before.contains(q));
            assert(surrounded(g, tile(g, q), before, q));
            assert(adjacent(q, s));
        }
    } else {
        assert(distinct(pos)) by {
            assert forall|i: int, j: int| 0 <= i < j < pos.len() implies #[trigger] spot(pos[i])
                != #[trigger] spot(pos[j]) by {
                if i == 0 {
                    assert(fresh(g, color, before.insert(s), spot(pos[j])));
                }
            }
        }
        assert(hangs(pos)) by {
            assert forall|k: int| 1 <= k < pos.len() implies #[trigger] hangs_at(pos, k) by {
                assert(hooked(pos, 1, k, s));
                if adjacent(spot(pos[k]), s) {
                    assert(adjacent(spot(pos[k]), spot(pos[0])));
                } else {
                    let j = choose|j: int|
                        1 <= j < k && #[trigger] adjacent(spot(pos[k]), spot(pos[j]));
                    assert(adjacent(spot(pos[k]), spot(pos[j])));
                }
            }
        }
        lemma_hanging_is_connected(pos);
        assert(spots(pos) == fill_from(g, s)) by {
            lemma_fill_apart(g, color, before, set![s], s, 0);
            assert(before.union(set![s]) =~= before.insert(s));
            assert(spots(seq![seed]) =~= seq![s]);
        }
        assert forall|i: int| 0 <= i < pos.len() implies scan_index(spot(pos[0])) <= scan_index(
            #[trigger] spot(pos[i]),
        ) by {
            let p = spot(pos[i]);
            assert(!before.contains(p));
        }
        assert(inside(pos));
    }
}

/// Finds the groups of a board and puts them in rank order.
pub fn explore_board(board: &Board) -> (groups: Vec<Group>)
    requires
        board.wf(),
    ensures
        is_extraction(board@, groups@),
        in_rank_order(groups@),
{
    let ghost g = board@;
    let mut in_any_group = CellSet::new();
    let mut groups: Vec<Group> = Vec::new();
    let mut x: u32 = 0;
    while x < 15
        invariant
            x <= 15,
            board.wf(),
            g == board@,
            in_any_group.wf(),
            scan_state(g, in_any_group@, groups@, x as int * 15),
        decreases 15 - x,
    {
        let mut y: u32 = 0;
        while y < 15
            invariant
                x < 15,
                y <= 15,
                board.wf(),
                g == board@,
                in_any_group.wf(),
                scan_state(g, in_any_group@, groups@, x as int * 15 + y as int),
            decreases 15 - y,
        {
            let color = board.get(x, y);
            let ghost here = (x as int, y as int);
            let ghost before = in_any_group@;
            let ghost found = groups@;
            if color != Cell::Empty && !in_any_group.contains(x, y) {
                let mut pos: Vec<(u32, u32)> = Vec::new();
                pos.push((x, y));
                let mut group = Group { pos, color, min_y: 0 };
                in_any_group.insert(x, y);
                explore_group(x, y, color, &mut group, &mut in_any_group, board);
                proof {
                    assert(group.pos@[0] == (x, y));
                    assert(one_position(x, y) =~= seq![(x, y)]);
                    lemma_fill_is_component(
                        g,
                        before,
                        (x, y),
                        color,
                        in_any_group@,
                        group.pos@,
                    );
                }
                if group.pos.len() > 1 {
                    group.min_y = lowest_row(&group.pos);
                    let ghost fresh_group = group;
                    groups.push(group);
                    proof {
                        lemma_scan_found(g, before, found, fresh_group, in_any_group@, here);
                    }
                } else {
                    proof {
                        lemma_scan_alone(g, before, found, group.pos@, in_any_group@, here);
                    }
                }
            } else {
                proof {
                    lemma_scan_passed(g, before, found, here);
                }
            }
            y += 1;
        }
        x += 1;
    }
    let ghost found = groups@;
    rank_groups(board, &mut groups);
    proof {
        lemma_ranking_of_scan(g, in_any_group@, found, groups@);
    }
    groups
}

/// The list that holds one position.
pub open spec fn one_position(x: u32, y: u32) -> Seq<(u32, u32)> {
    Seq::<(u32, u32)>::empty().push((x, y))
}

/// What holds in the middle of a scan that has come to place `n`: the
/// region holds exactly the tiles that fills have reached, which are all
/// tiles before `n`; the groups found so far are groups of the grid, lie in
/// the region, share no position and stand in the order of the scan; and
/// every tile of the region is in one of them or stands alone.
pub open spec fn scan_state(g: Grid, seen: Region, groups: Seq<Group>, n: int) -> bool {
    &&& sealed(g, seen)
    &&& scanned(g, seen, n)
    &&& forall|i: int| 0 <= i < groups.len() ==> (#[trigger] groups[i]).legal_on(g)
    &&& forall|i: int, p: (int, int)|
        0 <= i < groups.len() && (#[trigger] groups[i])@.contains(p) ==> #[trigger] seen.contains(
            p,
        )
    &&& separate(position_lists(groups))
    &&& forall|p: (int, int)| #[trigger]
        seen.contains(p) ==> found_in(position_lists(groups), p) || !has_twin(g, p)
    &&& forall|i: int, j: int|
        0 <= i < j < groups.len() ==> anchor(#[trigger] groups[i]) < anchor(#[trigger] groups[j])
    &&& forall|i: int| 0 <= i < groups.len() ==> anchor(#[trigger] groups[i]) < n
}

/// The scan passes a position that is empty or that a fill has reached.
proof fn lemma_scan_passed(g: Grid, seen: Region, groups: Seq<Group>, here: (int, int))
    requires
        in_grid(here),
        scan_state(g, seen, groups, scan_index(here)),
        tile(g, here) == Cell::Empty || seen.contains(here),
    ensures
        scan_state(g, seen, groups, scan_index(here) + 1),
{
    assert forall|p: (int, int)|
        in_grid(p) && scan_index(p) < scan_index(here) + 1 && tile(g, p)
            != Cell::Empty implies #[trigger] seen.contains(p) by {
        if scan_index(p) == scan_index(here) {
            assert(p.0 == here.0 && p.1 == here.1);
        }
    }
}

/// The scan has met a tile that stands alone.
proof fn lemma_scan_alone(
    g: Grid,
    before: Region,
    groups: Seq<Group>,
    pos: Seq<(u32, u32)>,
    seen: Region,
    here: (int, int),
)
    requires
        in_grid(here),
        scan_state(g, before, groups, scan_index(here)),
        tile(g, here) != Cell::Empty,
        pos.len() == 1,
        spot(pos[0]) == here,
        sealed(g, seen),
        seen == before.union(cells_of(pos)),
        !has_twin(g, here),
    ensures
        scan_state(g, seen, groups, scan_index(here) + 1),
{
    assert(cells_of(pos).contains(spot(pos[0])));
    assert forall|p: (int, int)|
        in_grid(p) && scan_index(p) < scan_index(here) + 1 && tile(g, p)
            != Cell::Empty implies #[trigger] seen.contains(p) by {
        if scan_index(p) == scan_index(here) {
            assert(p.0 == here.0 && p.1 == here.1);
        } else {
            assert(before.contains(p));
        }
    }
    assert forall|p: (int, int)| #[trigger] seen.contains(p) implies found_in(
        position_lists(groups),
        p,
    ) || !has_twin(g, p) by {
        if !before.contains(p) {
            let k = choose|k: int| 0 <= k < pos.len() && #[trigger] spot(pos[k]) == p;
        }
    }
    assert forall|i: int, p: (int, int)|
        0 <= i < groups.len() && (#[trigger] groups[i])@.contains(p) implies #[trigger] seen.contains(
        p,
    ) by {
        assert(before.contains(p));
    }
}

/// The scan has met the first tile of a group.
proof fn lemma_scan_found(
    g: Grid,
    before: Region,
    groups: Seq<Group>,
    a: Group,
    seen: Region,
    here: (int, int),
)
    requires
        in_grid(here),
        scan_state(g, before, groups, scan_index(here)),
        a.legal_on(g),
        spot(a.pos@[0]) == here,
        sealed(g, seen),
        seen == before.union(a@),
        forall|p: (int, int)| a@.contains(p) ==> !before.contains(p),
    ensures
        scan_state(g, seen, groups.push(a), scan_index(here) + 1),
{
    let more = groups.push(a);
    let lists = position_lists(groups);
    let more_lists = position_lists(more);
    assert(a@.contains(spot(a.pos@[0])));
    assert forall|i: int| 0 <= i < groups.len() implies #[trigger] more_lists[i] == lists[i] by {}
    assert(more_lists[groups.len() as int] == a.pos@);
    assert forall|p: (int, int)|
        in_grid(p) && scan_index(p) < scan_index(here) + 1 && tile(g, p)
            != Cell::Empty implies #[trigger] seen.contains(p) by {
        if scan_index(p) == scan_index(here) {
            assert(p.0 == here.0 && p.1 == here.1);
        } else {
            assert(before.contains(p));
        }
    }
    assert forall|i: int| 0 <= i < more.len() implies (#[trigger] more[i]).legal_on(g) by {
        if i < groups.len() {
            assert(more[i] == groups[i]);
        }
    }
    assert forall|i: int, p: (int, int)|
        0 <= i < more.len() && (#[trigger] more[i])@.contains(p) implies #[trigger] seen.contains(
        p,
    ) by {
        if i < groups.len() {
            assert(more[i] == groups[i]);
            assert(before.contains(p));
        }
    }
    assert forall|i: int, j: int, p: (int, int)|
        0 <= i < j < more_lists.len() && #[trigger] cells_of(more_lists[i]).contains(
            p,
        ) implies !#[trigger] cells_of(more_lists[j]).contains(p) by {
        assert(more_lists[i] == lists[i]);
        if j < groups.len() {
            assert(more_lists[j] == lists[j]);
        } else {
            assert(groups[i]@.contains(p));
            assert(before.contains(p));
        }
    }
    assert forall|p: (int, int)| #[trigger] seen.contains(p) implies found_in(more_lists, p)
        || !has_twin(g, p) by {
        if before.contains(p) {
            if found_in(lists, p) {
                let i = choose|i: int|
                    0 <= i < lists.len() && cells_of(#[trigger] lists[i]).contains(p);
                assert(cells_of(more_lists[i]).contains(p));
            }
        } else {
            assert(cells_of(more_lists[groups.len() as int]).contains(p));
        }
    }
    assert forall|i: int, j: int| 0 <= i < j < more.len() implies anchor(#[trigger] more[i])
        < anchor(#[trigger] more[j]) by {
        assert(more[i] == groups[i]);
        if j < groups.len() {
            assert(more[j] == groups[j]);
        }
    }
    assert forall|i: int| 0 <= i < more.len() implies anchor(#[trigger] more[i]) < scan_index(
        here,
    ) + 1 by {
        if i < groups.len() {
            assert(more[i] == groups[i]);
        }
    }
}

/// The ranking of what a completed scan has found is the extraction of
/// the grid, in rank order.
proof fn lemma_ranking_of_scan(g: Grid, seen: Region, found: Seq<Group>, ranked: Seq<Group>)
    requires
        scan_state(g, seen, found, AREA as int),
        is_ranking(found, ranked),
    ensures
        is_extraction(g, ranked),
        in_rank_order(ranked),
{
    let lists = position_lists(found);
    assert forall|p: (int, int)|
        in_grid(p) && tile(g, p) != Cell::Empty && #[trigger] has_twin(g, p) implies found_in(
        lists,
        p,
    ) by {
        assert(scan_index(p) < AREA);
        assert(seen.contains(p));
    }
    assert forall|i: int| 0 <= i < lists.len() implies is_component(g, #[trigger] lists[i]) by {
        assert(found[i].legal_on(g));
    }
    if found.len() == 0 {
        assert(ranked == found);
    } else {
        let (perm, scarce) = choose|perm: Seq<int>, scarce: Cell|
            is_scarce(found, scarce) && #[trigger] ranked_by(found, ranked, perm, scarce);
        let new_lists = position_lists(ranked);
        assert forall|i: int| 0 <= i < ranked.len() implies (#[trigger] ranked[i]).legal_on(g) by {
            assert(ranked[i] == found[perm[i]]);
        }
        assert forall|i: int| 0 <= i < new_lists.len() implies is_component(
            g,
            #[trigger] new_lists[i],
        ) by {
            assert(ranked[i].legal_on(g));
        }
        assert forall|i: int, j: int, p: (int, int)|
            0 <= i < j < new_lists.len() && #[trigger] cells_of(new_lists[i]).contains(
                p,
            ) implies !#[trigger] cells_of(new_lists[j]).contains(p) by {
            assert(ranked[i] == found[perm[i]]);
            assert(ranked[j] == found[perm[j]]);
            assert(perm[i] != perm[j]);
            assert(new_lists[i] == lists[perm[i]]);
            assert(new_lists[j] == lists[perm[j]]);
            if perm[i] < perm[j] {
            } else {
                if cells_of(lists[perm[j]]).contains(p) {
                    assert(!cells_of(lists[perm[i]]).contains(p));
                }
            }
        }
        assert forall|p: (int, int)|
            in_grid(p) && tile(g, p) != Cell::Empty && #[trigger] has_twin(g, p) implies found_in(
            new_lists,
            p,
        ) by {
            assert(found_in(lists, p));
            let m = choose|m: int| 0 <= m < lists.len() && cells_of(#[trigger] lists[m]).contains(p);
            assert(comes_from(perm, m));
            let i = choose|i: int| 0 <= i < perm.len() && #[trigger] perm[i] == m;
            assert(ranked[i] == found[perm[i]]);
            assert(cells_of(new_lists[i]).contains(p));
        }
        lemma_rearranged_scarce(found, ranked, perm, scarce);
        assert forall|i: int, j: int| 0 <= i < j < ranked.len() implies {
            &&& precedes(#[trigger] ranked[i], #[trigger] ranked[j], scarce)
            &&& same_rank(ranked[i], ranked[j], scarce) ==> anchor(ranked[i]) < anchor(ranked[j])
        } by {
            assert(ranked[i] == found[perm[i]]);
            assert(ranked[j] == found[perm[j]]);
            if same_rank(ranked[i], ranked[j], scarce) {
                assert(perm[i] < perm[j]);
                assert(anchor(found[perm[i]]) < anchor(found[perm[j]]));
            }
        }
        assert(is_scarce(ranked, scarce) && ordered_for(ranked, scarce));
    }
}

} // verus!
