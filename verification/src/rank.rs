//! Move ordering: which groups a search should look at first.
//!
//! The scarce colour is the colour with the fewest tiles in groups; of two
//! colours with equally few, the one that comes first in the palette. Groups
//! of the scarce colour go first. Inside each of the two classes, groups go by
//! the row of their lowest tile, lowest first. Groups that this rule does not
//! tell apart keep the order in which they were handed over.

use vstd::prelude::*;
use crate::board::{Board, Cell};
use crate::group::Group;

verus! {

/// Number of tiles of colour `c` in the groups.
pub open spec fn color_total(groups: Seq<Group>, c: Cell) -> nat
    decreases groups.len(),
{
    if groups.len() == 0 {
        0
    } else {
        color_total(groups.drop_last(), c) + if groups.last().color == c {
            groups.last().pos@.len()
        } else {
            0
        }
    }
}

/// Some group has colour `c`.
pub open spec fn occurs(groups: Seq<Group>, c: Cell) -> bool {
    exists|i: int| 0 <= i < groups.len() && (#[trigger] groups[i]).color == c
}

/// Colour `c` has fewer tiles in groups than colour `d`, or as many and
/// does not come after `d` in the palette.
pub open spec fn scarcer(groups: Seq<Group>, c: Cell, d: Cell) -> bool {
    ||| color_total(groups, c) < color_total(groups, d)
    ||| (color_total(groups, c) == color_total(groups, d) && c.palette_index()
        <= d.palette_index())
}

/// `c` is the scarce colour of the groups.
pub open spec fn is_scarce(groups: Seq<Group>, c: Cell) -> bool {
    &&& occurs(groups, c)
    &&& forall|d: Cell| #[trigger] occurs(groups, d) ==> scarcer(groups, c, d)
}

/// The groups have at most one scarce colour.
pub proof fn lemma_scarce_unique(groups: Seq<Group>, c: Cell, d: Cell)
    requires
        is_scarce(groups, c),
        is_scarce(groups, d),
    ensures
        c == d,
{
    assert(scarcer(groups, c, d));
    assert(scarcer(groups, d, c));
}

/// Class of a group: `0` for the scarce colour, `1` for the others.
pub open spec fn rank_class(a: Group, scarce: Cell) -> int {
    if a.color == scarce {
        0
    } else {
        1
    }
}

/// Group `a` does not have to come after group `b`.
pub open spec fn precedes(a: Group, b: Group, scarce: Cell) -> bool {
    ||| rank_class(a, scarce) < rank_class(b, scarce)
    ||| (rank_class(a, scarce) == rank_class(b, scarce) && a.min_y <= b.min_y)
}

/// The rule does not tell the two groups apart.
pub open spec fn same_rank(a: Group, b: Group, scarce: Cell) -> bool {
    rank_class(a, scarce) == rank_class(b, scarce) && a.min_y == b.min_y
}

/// `after` holds the groups of `before` in another order: the group at
/// place `i` of `after` stood at place `perm[i]` of `before`.
pub open spec fn rearranged(before: Seq<Group>, after: Seq<Group>, perm: Seq<int>) -> bool {
    &&& after.len() == before.len()
    &&& perm.len() == before.len()
    &&& forall|i: int| 0 <= i < perm.len() ==> 0 <= #[trigger] perm[i] < before.len()
    &&& forall|i: int, j: int| 0 <= i < j < perm.len() ==> #[trigger] perm[i] != #[trigger] perm[j]
    &&& forall|i: int| 0 <= i < after.len() ==> #[trigger] after[i] == before[perm[i]]
    &&& forall|m: int| 0 <= m < before.len() ==> #[trigger] comes_from(perm, m)
}

/// Some place of the new order holds what stood at place `m`.
pub open spec fn comes_from(perm: Seq<int>, m: int) -> bool {
    exists|i: int| 0 <= i < perm.len() && #[trigger] perm[i] == m
}

/// The first `n` groups are in rank order, and those among them that the
/// rule does not tell apart are in the order of `before`.
pub open spec fn ordered_up_to(after: Seq<Group>, perm: Seq<int>, scarce: Cell, n: int) -> bool {
    &&& forall|i: int, j: int|
        0 <= i < j < n ==> precedes(#[trigger] after[i], #[trigger] after[j], scarce)
    &&& forall|i: int, j: int|
        0 <= i < j < n && same_rank(#[trigger] after[i], #[trigger] after[j], scarce) ==> perm[i]
            < perm[j]
}

/// `after` is the ranking of `before` for the scarce colour `scarce`, and
/// `perm` tells where each group came from.
pub open spec fn ranked_by(
    before: Seq<Group>,
    after: Seq<Group>,
    perm: Seq<int>,
    scarce: Cell,
) -> bool {
    &&& rearranged(before, after, perm)
    &&& ordered_up_to(after, perm, scarce, after.len() as int)
}

/// `after` is the ranking of `before`.
pub open spec fn is_ranking(before: Seq<Group>, after: Seq<Group>) -> bool {
    if before.len() == 0 {
        after == before
    } else {
        exists|perm: Seq<int>, scarce: Cell|
            is_scarce(before, scarce) && #[trigger] ranked_by(before, after, perm, scarce)
    }
}

/// Taking a group out of a list lowers the colour totals by its tiles.
pub proof fn lemma_total_without(s: Seq<Group>, m: int, c: Cell)
    requires
        0 <= m < s.len(),
    ensures
        color_total(s, c) == color_total(s.remove(m), c) + color_total(seq![s[m]], c),
    decreases s.len(),
{
    assert(seq![s[m]].drop_last() =~= Seq::<Group>::empty());
    assert(color_total(seq![s[m]].drop_last(), c) == 0);
    if m == s.len() - 1 {
        assert(s.remove(m) =~= s.drop_last());
    } else {
        lemma_total_without(s.drop_last(), m, c);
        assert(s.remove(m).drop_last() =~= s.drop_last().remove(m));
        assert(s.remove(m).last() == s.last());
    }
}

/// Another order of the same groups has the same colour totals.
pub proof fn lemma_rearranged_totals(
    before: Seq<Group>,
    after: Seq<Group>,
    perm: Seq<int>,
    c: Cell,
)
    requires
        rearranged(before, after, perm),
    ensures
        color_total(after, c) == color_total(before, c),
    decreases before.len(),
{
    let n = before.len() as int;
    if n > 0 {
        let m = perm[n - 1];
        let before1 = before.remove(m);
        let after1 = after.drop_last();
        let perm1 = Seq::new(
            (n - 1) as nat,
            |i: int|
                if perm[i] > m {
                    perm[i] - 1
                } else {
                    perm[i]
                },
        );
        assert forall|i: int| 0 <= i < perm1.len() implies 0 <= #[trigger] perm1[i]
            < before1.len() by {
            assert(perm[i] != perm[n - 1]);
        }
        assert forall|i: int, j: int| 0 <= i < j < perm1.len() implies #[trigger] perm1[i]
            != #[trigger] perm1[j] by {
            assert(perm[i] != perm[j]);
            assert(perm[i] != perm[n - 1]);
            assert(perm[j] != perm[n - 1]);
        }
        assert forall|i: int| 0 <= i < after1.len() implies #[trigger] after1[i] == before1[perm1[i]] by {
            assert(after[i] == before[perm[i]]);
            assert(perm[i] != perm[n - 1]);
        }
        assert forall|m1: int| 0 <= m1 < before1.len() implies #[trigger] comes_from(perm1, m1) by {
            let src = if m1 < m {
                m1
            } else {
                m1 + 1
            };
            assert(comes_from(perm, src));
            let i = choose|i: int| 0 <= i < perm.len() && #[trigger] perm[i] == src;
            assert(perm1[i] == m1);
        }
        lemma_rearranged_totals(before1, after1, perm1, c);
        lemma_total_without(before, m, c);
        lemma_total_without(after, n - 1, c);
        assert(after.remove(n - 1) =~= after1);
        assert(after[n - 1] == before[m]);
    }
}

/// Another order of the same groups has the same scarce colour.
pub proof fn lemma_rearranged_scarce(
    before: Seq<Group>,
    after: Seq<Group>,
    perm: Seq<int>,
    scarce: Cell,
)
    requires
        rearranged(before, after, perm),
        is_scarce(before, scarce),
    ensures
        is_scarce(after, scarce),
{
    assert forall|d: Cell| occurs(after, d) implies occurs(before, d) by {
        let i = choose|i: int| 0 <= i < after.len() && (#[trigger] after[i]).color == d;
        assert(before[perm[i]].color == d);
    }
    assert forall|d: Cell| occurs(before, d) implies occurs(after, d) by {
        let m = choose|m: int| 0 <= m < before.len() && (#[trigger] before[m]).color == d;
        assert(comes_from(perm, m));
        let i = choose|i: int| 0 <= i < perm.len() && #[trigger] perm[i] == m;
        assert(after[i].color == d);
    }
    assert forall|d: Cell| #[trigger] occurs(after, d) implies scarcer(after, scarce, d) by {
        assert(occurs(before, d));
        lemma_rearranged_totals(before, after, perm, scarce);
        lemma_rearranged_totals(before, after, perm, d);
    }
}

/// The colour at a place of the palette.
pub fn palette(i: u8) -> (c: Cell)
    requires
        i < 6,
    ensures
        c.palette_index() == i,
{
    if i == 0 {
        Cell::Red
    } else if i == 1 {
        Cell::Green
    } else if i == 2 {
        Cell::Blue
    } else if i == 3 {
        Cell::Yellow
    } else if i == 4 {
        Cell::Purple
    } else {
        Cell::Empty
    }
}

/// Counts the tiles of colour `c` in the groups, and tells whether any
/// group has that colour.
pub fn count_color(groups: &Vec<Group>, c: Cell) -> (r: (bool, u128))
    ensures
        r.0 == occurs(groups@, c),
        r.1 == color_total(groups@, c),
{
    let mut present = false;
    let mut total: u128 = 0;
    let mut i: usize = 0;
    while i < groups.len()
        invariant
            i <= groups@.len(),
            present == occurs(groups@.take(i as int), c),
            total == color_total(groups@.take(i as int), c),
            total <= i * usize::MAX,
        decreases groups@.len() - i,
    {
        let ghost before = groups@.take(i as int);
        let ghost after = groups@.take(i as int + 1);
        proof {
            assert(after.drop_last() =~= before);
            assert(after.last() == groups@[i as int]);
            assert((i + 1) * usize::MAX == i * usize::MAX + usize::MAX) by (nonlinear_arith);
            assert(i * usize::MAX <= usize::MAX * usize::MAX) by (nonlinear_arith)
                requires
                    i <= usize::MAX,
            ;
            assert(usize::MAX * usize::MAX + usize::MAX <= u128::MAX) by (nonlinear_arith)
                requires
                    usize::MAX <= u64::MAX,
            ;
            if occurs(before, c) {
                let k = choose|k: int| 0 <= k < before.len() && (#[trigger] before[k]).color == c;
                assert(after[k].color == c);
            }
            if occurs(after, c) && groups@[i as int].color != c {
                let k = choose|k: int| 0 <= k < after.len() && (#[trigger] after[k]).color == c;
                assert(before[k].color == c);
            }
        }
        if groups[i].color == c {
            present = true;
            total = total + groups[i].pos.len() as u128;
            assert(after[i as int].color == c);
        }
        i += 1;
    }
    assert(groups@.take(i as int) =~= groups@);
    (present, total)
}

/// The scarce colour of the groups, if there is any group.
pub fn scarce_color(groups: &Vec<Group>) -> (r: Option<Cell>)
    ensures
        r is None <==> groups@.len() == 0,
        r matches Some(c) ==> is_scarce(groups@, c),
{
    let mut best: Option<Cell> = None;
    let mut least: u128 = 0;
    let mut i: u8 = 0;
    while i < 6
        invariant
            i <= 6,
            best is None ==> forall|d: Cell| d.palette_index() < i ==> !occurs(groups@, d),
            best matches Some(b) ==> {
                &&& occurs(groups@, b)
                &&& least == color_total(groups@, b)
                &&& b.palette_index() < i
                &&& forall|d: Cell|
                    d.palette_index() < i && #[trigger] occurs(groups@, d) ==> scarcer(
                        groups@,
                        b,
                        d,
                    )
            },
        decreases 6 - i,
    {
        let c = palette(i);
        let (present, total) = count_color(groups, c);
        if present {
            match best {
                None => {
                    best = Some(c);
                    least = total;
                },
                Some(b) => {
                    if total < least {
                        best = Some(c);
                        least = total;
                    }
                },
            }
        }
        i += 1;
    }
    proof {
        if groups@.len() > 0 {
            assert(occurs(groups@, groups@[0].color));
        }
        if best is None && groups@.len() > 0 {
            assert(groups@[0].color.palette_index() < 6);
        }
        if best is Some && groups@.len() == 0 {
            let b = best->0;
            let k = choose|k: int| 0 <= k < groups@.len() && (#[trigger] groups@[k]).color == b;
        }
    }
    best
}

/// Whether group `b` has to come after group `a`.
pub fn goes_first(a: &Group, b: &Group, scarce: Cell) -> (r: bool)
    ensures
        r == !precedes(*b, *a, scarce),
{
    let a_scarce = a.color == scarce;
    let b_scarce = b.color == scarce;
    if a_scarce && !b_scarce {
        true
    } else if b_scarce && !a_scarce {
        false
    } else {
        a.min_y < b.min_y
    }
}

/// Puts the groups in rank order.
pub fn rank_groups(_board: &Board, groups: &mut Vec<Group>)
    ensures
        is_ranking(old(groups)@, final(groups)@),
{
    let scarce = match scarce_color(groups) {
        None => {
            return ;
        },
        Some(c) => c,
    };
    let ghost before = groups@;
    let ghost mut perm: Seq<int> = Seq::new(groups@.len(), |i: int| i);
    let n: usize = groups.len();
    proof {
        assert forall|m: int| 0 <= m < before.len() implies #[trigger] comes_from(perm, m) by {
            assert(perm[m] == m);
        }
    }
    let mut i: usize = 1;
    while i < n
        invariant
            1 <= i,
            n == before.len(),
            n > 0,
            is_scarce(before, scarce),
            rearranged(before, groups@, perm),
            ordered_up_to(groups@, perm, scarce, if i <= n { i as int } else { n as int }),
            forall|k: int| i <= k < n ==> #[trigger] perm[k] == k,
            forall|k: int| 0 <= k < i && k < n ==> #[trigger] perm[k] < i,
        decreases n - i,
    {
        let mut p: usize = i;
        while p > 0 && goes_first(&groups[i], &groups[p - 1], scarce)
            invariant
                p <= i < n,
                groups@.len() == n,
                forall|k: int| p <= k < i ==> !precedes(#[trigger] groups@[k], groups@[i as int], scarce),
            decreases p,
        {
            p -= 1;
        }
        if p < i {
            let ghost was = groups@;
            let ghost was_perm = perm;
            let moved = groups.remove(i);
            groups.insert(p, moved);
            proof {
                perm = was_perm.remove(i as int).insert(p as int, was_perm[i as int]);
                let now = groups@;
                assert forall|k: int| 0 <= k < n implies #[trigger] now[k] == (if k < p {
                    was[k]
                } else if k == p {
                    was[i as int]
                } else if k <= i {
                    was[k - 1]
                } else {
                    was[k]
                }) && #[trigger] perm[k] == (if k < p {
                    was_perm[k]
                } else if k == p {
                    was_perm[i as int]
                } else if k <= i {
                    was_perm[k - 1]
                } else {
                    was_perm[k]
                }) by {}
                assert forall|a: int, b: int| 0 <= a < b < perm.len() implies #[trigger] perm[a]
                    != #[trigger] perm[b] by {
                    let sa = if a < p { a } else if a == p { i as int } else if a <= i { a - 1 } else { a };
                    let sb = if b < p { b } else if b == p { i as int } else if b <= i { b - 1 } else { b };
                    assert(perm[a] == was_perm[sa]);
                    assert(perm[b] == was_perm[sb]);
                    assert(sa != sb);
                    if sa < sb {
                        assert(was_perm[sa] != was_perm[sb]);
                    } else {
                        assert(was_perm[sb] != was_perm[sa]);
                    }
                }
                assert forall|m: int| 0 <= m < before.len() implies #[trigger] comes_from(perm, m) by {
                    assert(comes_from(was_perm, m));
                    let sk = choose|sk: int| 0 <= sk < was_perm.len() && #[trigger] was_perm[sk] == m;
                    let k = if sk < p { sk } else if sk == i { p as int } else if sk < i { sk + 1 } else { sk };
                    assert(perm[k] == was_perm[sk]);
                }
                assert forall|k: int| 0 <= k < now.len() implies #[trigger] now[k] == before[perm[k]] by {
                    let sk = if k < p { k } else if k == p { i as int } else if k <= i { k - 1 } else { k };
                    assert(now[k] == was[sk]);
                    assert(was[sk] == before[was_perm[sk]]);
                }
                assert forall|a: int, b: int| 0 <= a < b < i + 1 implies precedes(
                    #[trigger] now[a],
                    #[trigger] now[b],
                    scarce,
                ) by {
                    let sa = if a < p { a } else if a == p { i as int } else { a - 1 };
                    let sb = if b < p { b } else if b == p { i as int } else { b - 1 };
                    assert(now[a] == was[sa]);
                    assert(now[b] == was[sb]);
                    if b == p {
                        // a < p <= i - 1
                        if p > 0 {
                            assert(precedes(was[p as int - 1], was[i as int], scarce));
                            if a < p - 1 {
                                assert(precedes(was[a], was[p as int - 1], scarce));
                            }
                        }
                    } else if a == p {
                        assert(!precedes(was[sb], was[i as int], scarce));
                    } else {
                        assert(precedes(was[sa], was[sb], scarce));
                    }
                }
                assert forall|a: int, b: int|
                    0 <= a < b < i + 1 && same_rank(
                        #[trigger] now[a],
                        #[trigger] now[b],
                        scarce,
                    ) implies perm[a] < perm[b] by {
                    let sa = if a < p { a } else if a == p { i as int } else { a - 1 };
                    let sb = if b < p { b } else if b == p { i as int } else { b - 1 };
                    assert(now[a] == was[sa]);
                    assert(now[b] == was[sb]);
                    assert(perm[a] == was_perm[sa]);
                    assert(perm[b] == was_perm[sb]);
                    if b == p {
                        assert(was_perm[sa] < i);
                        assert(was_perm[i as int] == i);
                    } else if a == p {
                        assert(!precedes(was[sb], was[i as int], scarce));
                    } else {
                        assert(same_rank(was[sa], was[sb], scarce));
                    }
                }
                assert forall|k: int| 0 <= k < i + 1 && k < n implies #[trigger] perm[k] < i + 1 by {
                    let sk = if k < p { k } else if k == p { i as int } else { k - 1 };
                    assert(perm[k] == was_perm[sk]);
                }
            }
        } else {
            proof {
                let now = groups@;
                assert forall|a: int, b: int| 0 <= a < b < i + 1 implies precedes(
                    #[trigger] now[a],
                    #[trigger] now[b],
                    scarce,
                ) by {
                    if b == i {
                        assert(precedes(now[i as int - 1], now[i as int], scarce));
                        if a < i - 1 {
                            assert(precedes(now[a], now[i as int - 1], scarce));
                        }
                    }
                }
                assert forall|a: int, b: int|
                    0 <= a < b < i + 1 && same_rank(
                        #[trigger] now[a],
                        #[trigger] now[b],
                        scarce,
                    ) implies perm[a] < perm[b] by {
                    if b == i {
                        assert(perm[a] < i);
                        assert(perm[b] == i);
                    }
                }
            }
        }
        i += 1;
    }
    proof {
        assert(ranked_by(before, groups@, perm, scarce));
    }
}

} // verus!
