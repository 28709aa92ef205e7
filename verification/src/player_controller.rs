//! Controllers that choose a move for a player, and the zone-control
//! heuristic the searching controller is driven by.
//!
//! The heuristic runs one multi-source breadth-first flood fill per board:
//! every living player's frontier expands in lockstep, one ring per round,
//! and each reachable cell is credited to whichever player reaches it first.

use vstd::prelude::*;
use vstd::set_lib::lemma_int_range;
use vstd::set_lib::lemma_len_subset;
use vstd::set::group_set_axioms;
use crate::board::{alive_position, parts_equal, Board, BoardCell, CellState};
use crate::player::{action_of_index, action_of_index_spec, Action, Player, PlayerState};
use crate::position::Position;
use crate::power_up::PowerUp;

verus! {

broadcast use group_set_axioms;

/// A position's row-major index in a grid `w` columns wide.
pub open spec fn pos_enc(p: Position, w: int) -> int {
    p.row * w + p.column
}

/// A position inside an `h` by `w` grid encodes into `[0, h * w)`.
proof fn lemma_enc_range(p: Position, h: int, w: int)
    requires
        0 < w,
        0 < h,
        p.row < h,
        p.column < w,
    ensures
        0 <= pos_enc(p, w) < h * w,
{
    assert(p.row * w + p.column < h * w) by (nonlinear_arith)
        requires
            0 < w,
            0 < h,
            p.row < h,
            p.column < w,
    ;
}

/// Within one grid, distinct positions have distinct row-major indices.
proof fn lemma_enc_injective(p: Position, q: Position, w: int)
    requires
        0 < w,
        p.column < w,
        q.column < w,
        pos_enc(p, w) == pos_enc(q, w),
    ensures
        p == q,
{
    assert(p.row == q.row && p.column == q.column) by (nonlinear_arith)
        requires
            0 < w,
            p.column < w,
            q.column < w,
            p.row * w + p.column == q.row * w + q.column,
    ;
}

/// The domain of a credit map lies inside the grid's index range, so it can
/// hold at most one entry per cell.
proof fn lemma_cred_dom_bound(m: Map<int, int>, h: int, w: int)
    requires
        0 < h,
        0 < w,
        m.dom().finite(),
        forall|e: int| m.dom().contains(e) ==> 0 <= e < h * w,
    ensures
        m.dom().len() <= h * w,
{
    lemma_int_range(0, h * w);
    assert(m.dom() <= vstd::set_lib::set_int_range(0, h * w));
    lemma_len_subset(m.dom(), vstd::set_lib::set_int_range(0, h * w));
}

/// Every seen entry lies inside the grid and was claimed in a round no
/// later than `round`.
pub open spec fn seen_ok(
    seen: Seq<Seq<(Position, usize)>>,
    h: int,
    w: int,
    round: int,
) -> bool {
    &&& seen.len() == 2
    &&& forall|x: int, k: int|
        0 <= x < 2 && 0 <= k < seen[x].len() ==> {
            let e = #[trigger] seen[x][k];
            &&& (e.0.row as int) < h
            &&& (e.0.column as int) < w
            &&& e.1 <= round
        }
}

/// No position is claimed twice, neither within one player's seen list nor
/// across the two players'.
pub open spec fn seen_distinct(seen: Seq<Seq<(Position, usize)>>) -> bool {
    forall|x: int, k1: int, y: int, k2: int|
        0 <= x < 2 && 0 <= y < 2 && 0 <= k1 < seen[x].len() && 0 <= k2 < seen[y].len() && (x != y
            || k1 != k2) ==> (#[trigger] seen[x][k1]).0 != (#[trigger] seen[y][k2]).0
}

/// The seen entry at `(x, k)` claims the cell with index `e`, in round `v`.
pub open spec fn linked_at(
    seen: Seq<Seq<(Position, usize)>>,
    w: int,
    e: int,
    v: int,
    x: int,
    k: int,
) -> bool {
    &&& 0 <= x < 2
    &&& 0 <= k < seen[x].len()
    &&& pos_enc(seen[x][k].0, w) == e
    &&& seen[x][k].1 == v
}

/// The seen entry at `(x, k)` claims `position` in round `v`.
pub open spec fn claimed_at(
    seen: Seq<Seq<(Position, usize)>>,
    position: Position,
    v: int,
    x: int,
    k: int,
) -> bool {
    &&& 0 <= x < 2
    &&& 0 <= k < seen[x].len()
    &&& seen[x][k].0 == position
    &&& seen[x][k].1 == v
}

/// Each credit a player holds is backed by a seen entry for that cell,
/// claimed in the very round the credit was given.
pub open spec fn cred_linked(
    cred: Seq<Map<int, int>>,
    seen: Seq<Seq<(Position, usize)>>,
    w: int,
) -> bool {
    &&& cred.len() == 2
    &&& forall|id: int, e: int|
        0 <= id < 2 && #[trigger] cred[id].dom().contains(e) ==> exists|x: int, k: int|
            linked_at(seen, w, e, cred[id][e], x, k)
}

/// The credit maps' domains are finite, bounded by the grid, and no credit
/// was given later than `round`.
pub open spec fn cred_ok(cred: Seq<Map<int, int>>, h: int, w: int, round: int) -> bool {
    &&& cred.len() == 2
    &&& forall|id: int| 0 <= id < 2 ==> (#[trigger] cred[id]).dom().finite()
    &&& forall|id: int| 0 <= id < 2 ==> (#[trigger] cred[id]).dom().len() <= h * w
    &&& forall|id: int, e: int|
        0 <= id < 2 && #[trigger] cred[id].dom().contains(e) ==> 0 <= e < h * w && cred[id][e]
            <= round
}

/// No credit was given in round `round` or later.
pub open spec fn cred_before(cred: Seq<Map<int, int>>, id: int, round: int) -> bool {
    forall|e: int| #[trigger] cred[id].dom().contains(e) ==> cred[id][e] < round
}

/// Every player's score is the sum of at most 5 points per credited cell,
/// and never negative.
pub open spec fn scores_ok(scores: Seq<i32>, cred: Seq<Map<int, int>>) -> bool {
    &&& scores.len() == 2
    &&& forall|id: int|
        0 <= id < 2 ==> 0 <= (#[trigger] scores[id]) as int <= 5 * cred[id].dom().len()
}

/// A frontier holds no position twice.
pub open spec fn frontier_distinct(f: Seq<Position>) -> bool {
    forall|k1: int, k2: int| 0 <= k1 < k2 < f.len() ==> #[trigger] f[k1] != #[trigger] f[k2]
}

/// None of the still-unprocessed frontier entries from `from` on that lie
/// inside the grid was already credited to this player in round `round`.
pub open spec fn no_fresh_cred(
    cred: Map<int, int>,
    f: Seq<Position>,
    from: int,
    round: int,
    h: int,
    w: int,
) -> bool {
    forall|m: int|
        from <= m < f.len() && (#[trigger] f[m]).row < h && f[m].column < w ==> !(
        cred.dom().contains(pos_enc(f[m], w)) && cred[pos_enc(f[m], w)] == round)
}

/// The number of cells of a board's grid.
pub open spec fn area(b: Board) -> int {
    (b.spec_width() as int) * (b.spec_height() as int)
}

/// The evolving state of one flood-fill pass: the claims made so far, the
/// two running totals, and the frontiers — during a round, the next rings
/// being built.
pub struct ZoneState {
    pub seen: Seq<Seq<(Position, usize)>>,
    pub scores: Seq<int>,
    pub frontiers: Seq<Seq<Position>>,
}

/// What the flood fill scores a cell at: `None` for cells that block entry
/// or lie outside the grid.
pub open spec fn zs_cell_score(
    g: Seq<Seq<BoardCell>>,
    h: int,
    w: int,
    p: Position,
) -> Option<int> {
    if p.row < h && p.column < w {
        match g[p.row as int][p.column as int].state {
            CellState::Empty => Option::Some(1),
            CellState::PowerUp { power_up } => match power_up {
                PowerUp::DoubleSpeed { .. } => Option::Some(3),
                PowerUp::Armor => Option::Some(4),
                PowerUp::Bomb => Option::Some(5),
            },
            CellState::Wall => Option::None,
            CellState::Owned { .. } => Option::None,
            CellState::Occupied { .. } => Option::Some(0),
        }
    } else {
        Option::None
    }
}

/// The player that has claimed `p`, with the round of the claim; `None`
/// when no player has. The pass keeps claims disjoint, so the claiming
/// entry is unique whenever one exists.
pub open spec fn zs_lookup(seen: Seq<Seq<(Position, usize)>>, p: Position) -> Option<(int, int)> {
    if exists|x: int, k: int|
        0 <= x < 2 && 0 <= k < seen[x].len() && (#[trigger] seen[x][k]).0 == p {
        let (x, k) = choose|x: int, k: int|
            0 <= x < 2 && 0 <= k < seen[x].len() && (#[trigger] seen[x][k]).0 == p;
        Option::Some((x, seen[x][k].1 as int))
    } else {
        Option::None
    }
}

/// One step of a position, `None` when a coordinate would become negative.
pub open spec fn zs_offset(p: Position, dr: int, dc: int) -> Option<Position> {
    if p.row + dr < 0 || p.column + dc < 0 {
        Option::None
    } else {
        Option::Some(Position { row: (p.row + dr) as usize, column: (p.column + dc) as usize })
    }
}

/// Appends a neighbor to the ring being built, unless it does not exist,
/// is already claimed, or is already queued.
pub open spec fn zs_push(
    seen: Seq<Seq<(Position, usize)>>,
    f: Seq<Position>,
    np: Option<Position>,
) -> Seq<Position> {
    match np {
        Option::Some(q) => if zs_lookup(seen, q) is None && !f.contains(q) {
            f.push(q)
        } else {
            f
        },
        Option::None => f,
    }
}

/// Credits the cell to the player and queues its four neighbors.
pub open spec fn zs_credit(st: ZoneState, id: int, cs: int, p: Position) -> ZoneState {
    let f1 = zs_push(st.seen, st.frontiers[id], zs_offset(p, -1, 0));
    let f2 = zs_push(st.seen, f1, zs_offset(p, 0, 1));
    let f3 = zs_push(st.seen, f2, zs_offset(p, 1, 0));
    let f4 = zs_push(st.seen, f3, zs_offset(p, 0, -1));
    ZoneState {
        seen: st.seen,
        scores: st.scores.update(id, st.scores[id] + cs),
        frontiers: st.frontiers.update(id, f4),
    }
}

/// Resolves one popped frontier entry of player `id` in round `round`:
/// blocked or out-of-grid cells do nothing; a cell claimed in an earlier
/// ring, or by this player itself, does nothing; an unclaimed cell is
/// claimed and credited; a cell the other player claimed this very round is
/// contested and credited to this player too; a claim from a farther ring
/// would be reverted, which lockstep expansion never reaches.
pub open spec fn zs_entry(
    g: Seq<Seq<BoardCell>>,
    h: int,
    w: int,
    st: ZoneState,
    id: int,
    round: int,
    p: Position,
) -> ZoneState {
    match zs_cell_score(g, h, w, p) {
        Option::None => st,
        Option::Some(cs) => match zs_lookup(st.seen, p) {
            Option::Some(hit) => {
                if hit.1 < round || hit.0 == id {
                    st
                } else if hit.1 > round {
                    zs_credit(
                        ZoneState {
                            seen: st.seen,
                            scores: st.scores.update(hit.0, st.scores[hit.0] - cs),
                            frontiers: st.frontiers,
                        },
                        id,
                        cs,
                        p,
                    )
                } else {
                    zs_credit(st, id, cs, p)
                }
            },
            Option::None => zs_credit(
                ZoneState {
                    seen: st.seen.update(id, st.seen[id].push((p, round as usize))),
                    scores: st.scores,
                    frontiers: st.frontiers,
                },
                id,
                cs,
                p,
            ),
        },
    }
}

/// Resolves the first `k` entries of one player's current ring.
pub open spec fn zs_entries(
    g: Seq<Seq<BoardCell>>,
    h: int,
    w: int,
    st: ZoneState,
    id: int,
    round: int,
    entries: Seq<Position>,
    k: int,
) -> ZoneState
    decreases k,
{
    if k <= 0 {
        st
    } else {
        zs_entry(
            g,
            h,
            w,
            zs_entries(g, h, w, st, id, round, entries, k - 1),
            id,
            round,
            entries[k - 1],
        )
    }
}

/// The state after the first `upto` players have processed their rings
/// `cur` in round `round`, the next rings rebuilt from empty.
pub open spec fn zs_after_ids(
    g: Seq<Seq<BoardCell>>,
    h: int,
    w: int,
    seen0: Seq<Seq<(Position, usize)>>,
    scores0: Seq<int>,
    cur: Seq<Seq<Position>>,
    round: int,
    upto: int,
) -> ZoneState {
    let st0 = ZoneState {
        seen: seen0,
        scores: scores0,
        frontiers: seq![Seq::<Position>::empty(), Seq::<Position>::empty()],
    };
    if upto <= 0 {
        st0
    } else if upto == 1 {
        zs_entries(g, h, w, st0, 0, round, cur[0], cur[0].len() as int)
    } else {
        let st1 = zs_entries(g, h, w, st0, 0, round, cur[0], cur[0].len() as int);
        zs_entries(g, h, w, st1, 1, round, cur[1], cur[1].len() as int)
    }
}

/// One whole lockstep round: both players process their current rings.
pub open spec fn zs_round(g: Seq<Seq<BoardCell>>, h: int, w: int, st: ZoneState, round: int) -> ZoneState {
    zs_after_ids(g, h, w, st.seen, st.scores, st.frontiers, round, 2)
}

/// Runs rounds until every frontier has emptied, or until the fuel — chosen
/// beyond any reachable round count — runs out.
pub open spec fn zs_run(
    g: Seq<Seq<BoardCell>>,
    h: int,
    w: int,
    st: ZoneState,
    round: int,
    fuel: nat,
) -> ZoneState
    decreases fuel,
{
    if st.frontiers[0].len() + st.frontiers[1].len() == 0 || fuel == 0 {
        st
    } else {
        zs_run(g, h, w, zs_round(g, h, w, st, round), round + 1, (fuel - 1) as nat)
    }
}

/// The start state: one frontier per living player, seeded at its position.
pub open spec fn zs_start(ps: Seq<Player>) -> ZoneState {
    ZoneState {
        seen: seq![Seq::<(Position, usize)>::empty(), Seq::<(Position, usize)>::empty()],
        scores: seq![0int, 0int],
        frontiers: seq![
            if ps[0].spec_state() is Alive {
                seq![alive_position(ps[0].spec_state())]
            } else {
                Seq::<Position>::empty()
            },
            if ps[1].spec_state() is Alive {
                seq![alive_position(ps[1].spec_state())]
            } else {
                Seq::<Position>::empty()
            },
        ],
    }
}

/// The two territory totals of the flood fill over this board: the unique
/// mathematical outcome the executable pass computes. It is a function of
/// the board's abstract parts alone.
pub open spec fn zs_totals(b: Board) -> Seq<int> {
    zs_run(
        b.grid(),
        b.spec_height() as int,
        b.spec_width() as int,
        zs_start(b.players_seq()),
        0,
        (2 * ((b.spec_height() as int) * (b.spec_width() as int)) + 2) as nat,
    ).scores
}

/// The values of a list of machine-integer totals.
pub open spec fn int_scores(s: Seq<i32>) -> Seq<int> {
    Seq::new(s.len(), |i: int| s[i] as int)
}

/// The spec-level contents of a list of seen lists.
pub open spec fn seen_view(seen: Vec<Vec<(Position, usize)>>) -> Seq<Seq<(Position, usize)>> {
    seen@.map_values(|v: Vec<(Position, usize)>| v@)
}

/// The spec-level contents of a list of frontiers.
pub open spec fn fr_view(f: Vec<Vec<Position>>) -> Seq<Seq<Position>> {
    f@.map_values(|v: Vec<Position>| v@)
}

/// One simultaneous flood fill over the whole board, one frontier per
/// living player, all expanding in lockstep one ring per round. A cell is
/// entered only through `Empty`, `PowerUp` or `Occupied` states — walls and
/// trails block — and each newly reached cell is credited to the player
/// whose frontier claims it first: 1 point for an empty cell, 3, 4 and 5
/// for speed, armor and bomb power-ups, 0 for an occupied cell. Returns
/// exactly the two territory totals `zs_totals` defines.
#[verifier::loop_isolation(false)]
#[verifier::rlimit(100)]
pub fn zone_scores(board: &Board) -> (r: Vec<i32>)
    requires
        board.wf(),
        20 * area(*board) <= i32::MAX,
    ensures
        r@.len() == 2,
        forall|k: int| 0 <= k < 2 ==> (#[trigger] r@[k]) as int == zs_totals(*board)[k],
        forall|k: int| 0 <= k < 2 ==> 0 <= (#[trigger] r@[k]) as int <= 5 * area(*board),
        forall|k: int|
            0 <= k < 2 && (#[trigger] board.players_seq()[k]).spec_state() is Dead ==> r@[k] == 0,
{
    let w = board.width();
    let h = board.height();
    let ghost hw = (h as int) * (w as int);
    proof {
        assert(hw >= 1) by (nonlinear_arith)
            requires
                h >= 1,
                w >= 1,
                hw == (h as int) * (w as int),
        ;
        assert(hw == area(*board)) by (nonlinear_arith)
            requires
                hw == (h as int) * (w as int),
                h == board.spec_height(),
                w == board.spec_width(),
                area(*board) == (board.spec_width() as int) * (board.spec_height() as int),
        ;
        assert(20 * hw <= i32::MAX);
    }
    let ghost gv = board.grid();
    let ghost hi = h as int;
    let ghost wi = w as int;
    let ghost fuel0: nat = (2 * hw + 2) as nat;
    let ghost target = zs_run(gv, hi, wi, zs_start(board.players_seq()), 0, fuel0);
    let mut scores: Vec<i32> = Vec::new();
    scores.push(0);
    scores.push(0);
    let mut seen: Vec<Vec<(Position, usize)>> = Vec::new();
    seen.push(Vec::new());
    seen.push(Vec::new());
    let mut frontier0: Vec<Position> = Vec::new();
    match board.players()[0].get_state() {
        PlayerState::Alive { position, .. } => {
            frontier0.push(position);
        },
        PlayerState::Dead => {},
    }
    let mut frontier1: Vec<Position> = Vec::new();
    match board.players()[1].get_state() {
        PlayerState::Alive { position, .. } => {
            frontier1.push(position);
        },
        PlayerState::Dead => {},
    }
    let ghost f0 = frontier0@;
    let ghost f1 = frontier1@;
    let mut current: Vec<Vec<Position>> = Vec::new();
    current.push(frontier0);
    current.push(frontier1);
    proof {
        assert(fr_view(current)[0] == f0);
        assert(fr_view(current)[1] == f1);
        assert(frontier_distinct(fr_view(current)[0]));
        assert(frontier_distinct(fr_view(current)[1]));
        let st = zs_start(board.players_seq());
        assert(seen_view(seen) =~~= st.seen);
        assert(int_scores(scores@) =~= st.scores);
        assert(fr_view(current)[0] =~= st.frontiers[0]);
        assert(fr_view(current)[1] =~= st.frontiers[1]);
        assert(fr_view(current) =~~= st.frontiers);
        assert(ZoneState { seen: seen_view(seen), scores: int_scores(scores@), frontiers: fr_view(current) } == st);
    }
    let ghost mut cred: Seq<Map<int, int>> = seq![Map::<int, int>::empty(), Map::<int, int>::empty()];
    let mut round: usize = 0;
    while !frontiers_empty(&current)
        invariant
            current@.len() == 2,
            frontier_distinct(fr_view(current)[0]),
            frontier_distinct(fr_view(current)[1]),
            seen_ok(seen_view(seen), h as int, w as int, round as int),
            seen_distinct(seen_view(seen)),
            cred_linked(cred, seen_view(seen), w as int),
            cred_ok(cred, h as int, w as int, round as int),
            cred_before(cred, 0, round as int),
            cred_before(cred, 1, round as int),
            scores_ok(scores@, cred),
            forall|d: int|
                0 <= d < 2 && (#[trigger] board.players_seq()[d]).spec_state() is Dead
                    ==> fr_view(current)[d].len() == 0 && scores@[d] == 0,
            fr_view(current)[0].len() + fr_view(current)[1].len() > 0 ==> round as int <= cred[0].dom().len() + cred[1].dom().len() + 1,
            round as int <= 2 * hw + 2,
            zs_run(
                gv,
                hi,
                wi,
                (ZoneState {
                    seen: seen_view(seen),
                    scores: int_scores(scores@),
                    frontiers: fr_view(current),
                }),
                round as int,
                (2 * hw + 2 - round) as nat,
            ) == target,
        decreases 2 * hw + 2 - round,
    {
        let ghost base = cred[0].dom().len() + cred[1].dom().len();
        let ghost st_in = ZoneState {
            seen: seen_view(seen),
            scores: int_scores(scores@),
            frontiers: fr_view(current),
        };
        proof {
            if fr_view(current)[0].len() == 0 && fr_view(current)[1].len() == 0 {
                assert(current@[0]@.len() == 0 && current@[1]@.len() == 0);
                assert(forall|id: int|
                    0 <= id < current@.len() ==> (#[trigger] current@[id])@.len() == 0);
                assert(false);
            }
            assert(round as int <= base + 1);
            assert(base <= 2 * hw);
            assert(st_in.frontiers[0].len() + st_in.frontiers[1].len() > 0);
            assert(zs_run(gv, hi, wi, st_in, round as int, (2 * hw + 2 - round) as nat)
                == zs_run(
                gv,
                hi,
                wi,
                zs_round(gv, hi, wi, st_in, round as int),
                round as int + 1,
                (2 * hw + 2 - round - 1) as nat,
            ));
        }
        let mut next: Vec<Vec<Position>> = Vec::new();
        next.push(Vec::new());
        next.push(Vec::new());
        proof {
            assert(fr_view(next)[0] =~= Seq::<Position>::empty());
            assert(fr_view(next)[1] =~= Seq::<Position>::empty());
            assert(fr_view(next) =~~= seq![Seq::<Position>::empty(), Seq::<Position>::empty()]);
            assert((ZoneState {
                seen: seen_view(seen),
                scores: int_scores(scores@),
                frontiers: fr_view(next),
            }) == zs_after_ids(
                gv,
                hi,
                wi,
                st_in.seen,
                st_in.scores,
                st_in.frontiers,
                round as int,
                0,
            ));
        }
        let mut id: usize = 0;
        while id < 2
            invariant
                id <= 2,
                next@.len() == 2,
                frontier_distinct(fr_view(next)[0]),
                frontier_distinct(fr_view(next)[1]),
                seen_ok(seen_view(seen), h as int, w as int, round as int),
                seen_distinct(seen_view(seen)),
                cred_linked(cred, seen_view(seen), w as int),
                cred_ok(cred, h as int, w as int, round as int),
                forall|id2: int| id <= id2 < 2 ==> cred_before(cred, id2, round as int),
                scores_ok(scores@, cred),
                forall|d: int|
                    0 <= d < 2 && (#[trigger] board.players_seq()[d]).spec_state() is Dead
                        ==> fr_view(current)[d].len() == 0 && fr_view(next)[d].len() == 0 && scores@[d]
                        == 0,
                cred[0].dom().len() + cred[1].dom().len() >= base,
                fr_view(next)[0].len() + fr_view(next)[1].len() > 0 ==> cred[0].dom().len() + cred[1].dom().len() >= base + 1,
                (ZoneState {
                    seen: seen_view(seen),
                    scores: int_scores(scores@),
                    frontiers: fr_view(next),
                }) == zs_after_ids(
                    gv,
                    hi,
                    wi,
                    st_in.seen,
                    st_in.scores,
                    st_in.frontiers,
                    round as int,
                    id as int,
                ),
            decreases 2 - id,
        {
            proof {
                assert(cred_before(cred, id as int, round as int));
                assert forall|m: int|
                    0 <= m < fr_view(current)[id as int].len() && (#[trigger] fr_view(current)[id as int][m]).row < h && fr_view(current)[id as int][m].column < w implies !(cred[id as int].dom().contains(pos_enc(fr_view(current)[id as int][m], w as int)) && cred[id as int][pos_enc(fr_view(current)[id as int][m], w as int)] == round as int) by {
                    let q = fr_view(current)[id as int][m];
                    if cred[id as int].dom().contains(pos_enc(q, w as int)) {
                        assert(cred[id as int][pos_enc(q, w as int)] < round as int);
                    }
                }
            }
            let mut k: usize = 0;
            while k < current[id].len()
                invariant
                    k <= fr_view(current)[id as int].len(),
                    id < 2,
                    next@.len() == 2,
                    frontier_distinct(fr_view(next)[0]),
                    frontier_distinct(fr_view(next)[1]),
                    seen_ok(seen_view(seen), h as int, w as int, round as int),
                    seen_distinct(seen_view(seen)),
                    cred_linked(cred, seen_view(seen), w as int),
                    cred_ok(cred, h as int, w as int, round as int),
                    forall|id2: int| id < id2 < 2 ==> cred_before(cred, id2, round as int),
                    no_fresh_cred(
                        cred[id as int],
                        fr_view(current)[id as int],
                        k as int,
                        round as int,
                        h as int,
                        w as int,
                    ),
                    scores_ok(scores@, cred),
                    forall|d: int|
                        0 <= d < 2 && (#[trigger] board.players_seq()[d]).spec_state() is Dead
                            ==> fr_view(current)[d].len() == 0 && fr_view(next)[d].len() == 0 && scores@[d]
                            == 0,
                    cred[0].dom().len() + cred[1].dom().len() >= base,
                    fr_view(next)[0].len() + fr_view(next)[1].len() > 0 ==> cred[0].dom().len()
                        + cred[1].dom().len() >= base + 1,
                    (ZoneState {
                        seen: seen_view(seen),
                        scores: int_scores(scores@),
                        frontiers: fr_view(next),
                    }) == zs_entries(
                        gv,
                        hi,
                        wi,
                        zs_after_ids(
                            gv,
                            hi,
                            wi,
                            st_in.seen,
                            st_in.scores,
                            st_in.frontiers,
                            round as int,
                            id as int,
                        ),
                        id as int,
                        round as int,
                        fr_view(current)[id as int],
                        k as int,
                    ),
                decreases fr_view(current)[id as int].len() - k,
            {
                let position = current[id][k];
                let ghost st_before = ZoneState {
                    seen: seen_view(seen),
                    scores: int_scores(scores@),
                    frontiers: fr_view(next),
                };
                let score_opt: Option<i32> = match board.get_cell(position) {
                    Ok(cell) => match cell.get_state() {
                        CellState::Empty => Some(1),
                        CellState::PowerUp { power_up } => match power_up {
                            PowerUp::DoubleSpeed { .. } => Some(3),
                            PowerUp::Armor => Some(4),
                            PowerUp::Bomb => Some(5),
                        },
                        CellState::Wall => None,
                        CellState::Owned { .. } => None,
                        CellState::Occupied { .. } => Some(0),
                    },
                    Err(_) => None,
                };
                proof {
                    match score_opt {
                        Option::Some(c) => {
                            assert(zs_cell_score(gv, hi, wi, position) == Option::<int>::Some(
                                c as int,
                            ));
                        },
                        Option::None => {
                            assert(zs_cell_score(gv, hi, wi, position) is None);
                        },
                    }
                }
                match score_opt {
                    None => {},
                    Some(cell_score) => {
                        proof {
                            assert(position.row < h && position.column < w);
                            lemma_enc_range(position, h as int, w as int);
                        }
                        let ghost e = pos_enc(position, w as int);
                        let ghost sv0 = seen_view(seen);
                        let mut credit = false;
                        match is_seen(position, &seen) {
                            Some((other_id, other_round)) => {
                                proof {
                                    let kk = choose|kk: int|
                                        0 <= kk < sv0[other_id as int].len()
                                            && #[trigger] sv0[other_id as int][kk] == (
                                        position,
                                        other_round,
                                        );
                                    assert(zs_lookup(sv0, position) == Option::<(int, int)>::Some(
                                        (other_id as int, other_round as int),
                                    )) by {
                                        assert(0 <= (other_id as int) < 2 && 0 <= kk < sv0[other_id as int].len() && sv0[other_id as int][kk].0 == position);
                                        let (x, k2) = choose|x: int, k2: int|
                                            0 <= x < 2 && 0 <= k2 < sv0[x].len() && (
                                            #[trigger] sv0[x][k2]).0 == position;
                                        assert(x == other_id as int && k2 == kk);
                                    }
                                }
                                if other_round < round || other_id == id {
                                    proof {
                                        assert(zs_entry(
                                            gv,
                                            hi,
                                            wi,
                                            st_before,
                                            id as int,
                                            round as int,
                                            position,
                                        ) == st_before);
                                    }
                                    // claimed in an earlier ring, or by this
                                    // player itself: nothing more to do
                                } else if other_round > round {
                                    // a claim from a later ring would be
                                    // reverted as contested; lockstep
                                    // expansion never reaches this
                                    proof {
                                        let k0 = choose|k0: int|
                                            0 <= k0 < sv0[other_id as int].len()
                                                && #[trigger] sv0[other_id as int][k0] == (
                                            position,
                                            other_round,
                                            );
                                        assert(sv0[other_id as int][k0].1 <= round);
                                        assert(false);
                                    }
                                    scores[other_id] = scores[other_id] - cell_score;
                                    credit = true;
                                } else {
                                    // the other player claimed it this very
                                    // round: contested, both sides score it
                                    proof {
                                        let k0 = choose|k0: int|
                                            0 <= k0 < sv0[other_id as int].len()
                                                && #[trigger] sv0[other_id as int][k0] == (
                                            position,
                                            other_round,
                                            );
                                        assert(claimed_at(
                                            sv0,
                                            position,
                                            round as int,
                                            other_id as int,
                                            k0,
                                        ));
                                        if cred[id as int].dom().contains(e) {
                                            let (x, k1) = choose|x: int, k1: int|
                                                linked_at(sv0, w as int, e, cred[id as int][e], x, k1);
                                            lemma_enc_injective(sv0[x][k1].0, position, w as int);
                                            assert(x == other_id as int && k1 == k0);
                                            assert(cred[id as int][e] == round as int);
                                            assert(false);
                                        }
                                    }
                                    credit = true;
                                }
                            },
                            None => {
                                proof {
                                    if cred[id as int].dom().contains(e) {
                                        let (x, k1) = choose|x: int, k1: int|
                                            linked_at(sv0, w as int, e, cred[id as int][e], x, k1);
                                        lemma_enc_injective(sv0[x][k1].0, position, w as int);
                                        assert(false);
                                    }
                                    if zs_lookup(sv0, position) is Some {
                                        let (x, k2) = choose|x: int, k2: int|
                                            0 <= x < 2 && 0 <= k2 < sv0[x].len() && (
                                            #[trigger] sv0[x][k2]).0 == position;
                                        assert((seen@[x]@[k2]).0 == position);
                                        assert(false);
                                    }
                                }
                                seen[id].push((position, round));
                                proof {
                                    let sv1 = seen_view(seen);
                                    assert(sv1[id as int] == sv0[id as int].push(
                                        (position, round),
                                    ));
                                    assert forall|x: int| 0 <= x < 2 && x != id as int implies sv1[x]
                                        == sv0[x] by {}
                                    assert(seen_ok(sv1, h as int, w as int, round as int));
                                    assert forall|x: int, k1: int, y: int, k2: int|
                                        0 <= x < 2 && 0 <= y < 2 && 0 <= k1 < sv1[x].len() && 0
                                            <= k2 < sv1[y].len() && (x != y || k1 != k2) implies (
                                    #[trigger] sv1[x][k1]).0 != (#[trigger] sv1[y][k2]).0 by {
                                        if x == id as int && k1 == sv0[x].len() {
                                            assert(sv1[y][k2] == sv0[y][k2]);
                                        } else if y == id as int && k2 == sv0[y].len() {
                                            assert(sv1[x][k1] == sv0[x][k1]);
                                        } else {
                                            assert(sv1[x][k1] == sv0[x][k1]);
                                            assert(sv1[y][k2] == sv0[y][k2]);
                                        }
                                    }
                                    assert(seen_distinct(sv1));
                                    assert forall|id2: int, e2: int|
                                        0 <= id2 < 2 && #[trigger] cred[id2].dom().contains(
                                            e2,
                                        ) implies exists|x: int, k1: int|
                                        linked_at(sv1, w as int, e2, cred[id2][e2], x, k1) by {
                                        let (x, k1) = choose|x: int, k1: int|
                                            linked_at(sv0, w as int, e2, cred[id2][e2], x, k1);
                                        assert(sv1[x][k1] == sv0[x][k1]);
                                        assert(linked_at(sv1, w as int, e2, cred[id2][e2], x, k1));
                                    }
                                    assert(cred_linked(cred, sv1, w as int));
                                    assert(claimed_at(
                                        seen_view(seen),
                                        position,
                                        round as int,
                                        id as int,
                                        sv0[id as int].len() as int,
                                    ));
                                    assert(seen_view(seen) =~~= sv0.update(
                                        id as int,
                                        sv0[id as int].push((position, round)),
                                    ));
                                }
                                credit = true;
                            },
                        }
                        let ghost st_arm = ZoneState {
                            seen: seen_view(seen),
                            scores: int_scores(scores@),
                            frontiers: fr_view(next),
                        };
                        if credit {
                            proof {
                                assert(st_arm.scores == st_before.scores);
                                assert(st_arm.frontiers == st_before.frontiers);
                                match zs_lookup(sv0, position) {
                                    Option::Some(hitv) => {
                                        assert(hitv.1 == round as int && hitv.0 != id as int);
                                        assert(st_arm.seen == sv0);
                                        assert(st_arm == st_before);
                                    },
                                    Option::None => {
                                        assert(st_arm.seen == sv0.update(
                                            id as int,
                                            sv0[id as int].push((position, round)),
                                        ));
                                        assert((round as int) as usize == round);
                                    },
                                }
                                assert(zs_entry(
                                    gv,
                                    hi,
                                    wi,
                                    st_before,
                                    id as int,
                                    round as int,
                                    position,
                                ) == zs_credit(st_arm, id as int, cell_score as int, position));
                                let svc = seen_view(seen);
                                assert(exists|x: int, k0: int|
                                    claimed_at(svc, position, round as int, x, k0));
                                let (x0, k0) = choose|x0: int, k0: int|
                                    claimed_at(svc, position, round as int, x0, k0);
                                assert(!cred[id as int].dom().contains(e));
                                let prev_cred = cred;
                                cred = cred.update(
                                    id as int,
                                    cred[id as int].insert(e, round as int),
                                );
                                assert(cred[id as int].dom() =~= prev_cred[id as int].dom().insert(
                                    e,
                                ));
                                assert(cred[id as int].dom().len() == prev_cred[id as int].dom().len() + 1);
                                assert forall|e2: int|
                                    cred[id as int].dom().contains(e2) implies 0 <= e2 < hw by {}
                                lemma_cred_dom_bound(cred[id as int], h as int, w as int);
                                assert(cred_ok(cred, h as int, w as int, round as int));
                                assert forall|id2: int, e2: int|
                                    0 <= id2 < 2 && #[trigger] cred[id2].dom().contains(
                                        e2,
                                    ) implies exists|x: int, k1: int|
                                    linked_at(svc, w as int, e2, cred[id2][e2], x, k1) by {
                                    if id2 == id as int && e2 == e {
                                        assert(pos_enc(svc[x0][k0].0, w as int) == e);
                                        assert(linked_at(svc, w as int, e, round as int, x0, k0));
                                    } else {
                                        assert(prev_cred[id2].dom().contains(e2));
                                        assert(cred[id2][e2] == prev_cred[id2][e2]);
                                        let (x, k1) = choose|x: int, k1: int|
                                            linked_at(svc, w as int, e2, prev_cred[id2][e2], x, k1);
                                        assert(linked_at(svc, w as int, e2, cred[id2][e2], x, k1));
                                    }
                                }
                                assert(cred_linked(cred, svc, w as int));
                                assert forall|id2: int| (id as int) < id2 < 2 implies cred_before(
                                    cred,
                                    id2,
                                    round as int,
                                ) by {
                                    assert(cred_before(prev_cred, id2, round as int));
                                    assert(cred[id2] == prev_cred[id2]);
                                }
                                assert forall|m: int|
                                    k + 1 <= m < fr_view(current)[id as int].len() && (
                                    #[trigger] fr_view(current)[id as int][m]).row < h && fr_view(current)[id as int][m].column < w implies !(cred[id as int].dom().contains(pos_enc(fr_view(current)[id as int][m], w as int))
                                    && cred[id as int][pos_enc(
                                    fr_view(current)[id as int][m],
                                    w as int,
                                )] == round as int) by {
                                    let q = fr_view(current)[id as int][m];
                                    assert(q != position);
                                    if q.row < h && q.column < w && pos_enc(q, w as int) == e {
                                        lemma_enc_injective(q, position, w as int);
                                    }
                                }
                                assert(0 <= cell_score <= 5);
                                assert(scores@[id as int] as int <= 5 * prev_cred[id as int].dom().len());
                                assert(5 * cred[id as int].dom().len() <= 5 * hw);
                                assert(20 * hw <= i32::MAX);
                            }
                            let ghost scores_before = scores@;
                            scores[id] = scores[id] + cell_score;
                            proof {
                                assert forall|id2: int|
                                    0 <= id2 < 2 implies 0 <= (#[trigger] scores@[id2]) as int <= 5
                                    * cred[id2].dom().len() by {
                                    if id2 != id as int {
                                        assert(scores@[id2] == scores_before[id2]);
                                    }
                                }
                                assert(scores_ok(scores@, cred));
                                assert(cred[0].dom().len() + cred[1].dom().len() >= base + 1);
                                assert(int_scores(scores@) =~= st_arm.scores.update(
                                    id as int,
                                    st_arm.scores[id as int] + cell_score as int,
                                ));
                            }
                            proof {
                                assert(seen@.len() == 2);
                            }
                            match position.offset(-1, 0) {
                                Ok(np) => {
                                    proof {
                                        assert(zs_offset(position, -1, 0)
                                            == Option::<Position>::Some(np));
                                    }
                                    push_neighbor(&seen, &mut next[id], np);
                                },
                                Err(_) => {
                                    proof {
                                        assert(zs_offset(position, -1, 0) is None);
                                    }
                                },
                            }
                            proof {
                                assert(fr_view(next)[id as int] == zs_push(
                                    st_arm.seen,
                                    st_arm.frontiers[id as int],
                                    zs_offset(position, -1, 0),
                                ));
                            }
                            let ghost fq1 = fr_view(next)[id as int];
                            match position.offset(0, 1) {
                                Ok(np) => {
                                    proof {
                                        assert(zs_offset(position, 0, 1)
                                            == Option::<Position>::Some(np));
                                    }
                                    push_neighbor(&seen, &mut next[id], np);
                                },
                                Err(_) => {
                                    proof {
                                        assert(zs_offset(position, 0, 1) is None);
                                    }
                                },
                            }
                            proof {
                                assert(fr_view(next)[id as int] == zs_push(
                                    st_arm.seen,
                                    fq1,
                                    zs_offset(position, 0, 1),
                                ));
                            }
                            let ghost fq2 = fr_view(next)[id as int];
                            match position.offset(1, 0) {
                                Ok(np) => {
                                    proof {
                                        assert(zs_offset(position, 1, 0)
                                            == Option::<Position>::Some(np));
                                    }
                                    push_neighbor(&seen, &mut next[id], np);
                                },
                                Err(_) => {
                                    proof {
                                        assert(zs_offset(position, 1, 0) is None);
                                    }
                                },
                            }
                            proof {
                                assert(fr_view(next)[id as int] == zs_push(
                                    st_arm.seen,
                                    fq2,
                                    zs_offset(position, 1, 0),
                                ));
                            }
                            let ghost fq3 = fr_view(next)[id as int];
                            match position.offset(0, -1) {
                                Ok(np) => {
                                    proof {
                                        assert(zs_offset(position, 0, -1)
                                            == Option::<Position>::Some(np));
                                    }
                                    push_neighbor(&seen, &mut next[id], np);
                                },
                                Err(_) => {
                                    proof {
                                        assert(zs_offset(position, 0, -1) is None);
                                    }
                                },
                            }
                            proof {
                                assert(fr_view(next)[id as int] == zs_push(
                                    st_arm.seen,
                                    fq3,
                                    zs_offset(position, 0, -1),
                                ));
                                assert(fr_view(next) =~~= zs_credit(
                                    st_arm,
                                    id as int,
                                    cell_score as int,
                                    position,
                                ).frontiers);
                                assert(ZoneState {
                                    seen: seen_view(seen),
                                    scores: int_scores(scores@),
                                    frontiers: fr_view(next),
                                } == zs_credit(st_arm, id as int, cell_score as int, position));
                            }
                        }
                        proof {
                            if !credit {
                                assert(ZoneState {
                                    seen: seen_view(seen),
                                    scores: int_scores(scores@),
                                    frontiers: fr_view(next),
                                } == st_before);
                            }
                        }
                    },
                }
                proof {
                    let base_st = zs_after_ids(
                        gv,
                        hi,
                        wi,
                        st_in.seen,
                        st_in.scores,
                        st_in.frontiers,
                        round as int,
                        id as int,
                    );
                    assert(fr_view(current)[id as int][k as int] == position);
                    assert(ZoneState {
                        seen: seen_view(seen),
                        scores: int_scores(scores@),
                        frontiers: fr_view(next),
                    } == zs_entry(gv, hi, wi, st_before, id as int, round as int, position));
                    assert(zs_entries(
                        gv,
                        hi,
                        wi,
                        base_st,
                        id as int,
                        round as int,
                        fr_view(current)[id as int],
                        k as int + 1,
                    ) == zs_entry(
                        gv,
                        hi,
                        wi,
                        zs_entries(
                            gv,
                            hi,
                            wi,
                            base_st,
                            id as int,
                            round as int,
                            fr_view(current)[id as int],
                            k as int,
                        ),
                        id as int,
                        round as int,
                        position,
                    ));
                }
                k = k + 1;
            }
            proof {
                let base_st = zs_after_ids(
                    gv,
                    hi,
                    wi,
                    st_in.seen,
                    st_in.scores,
                    st_in.frontiers,
                    round as int,
                    id as int,
                );
                assert(fr_view(current)[id as int] == st_in.frontiers[id as int]);
                assert(k as int == st_in.frontiers[id as int].len() as int);
                assert(zs_after_ids(
                    gv,
                    hi,
                    wi,
                    st_in.seen,
                    st_in.scores,
                    st_in.frontiers,
                    round as int,
                    id as int + 1,
                ) == zs_entries(
                    gv,
                    hi,
                    wi,
                    base_st,
                    id as int,
                    round as int,
                    st_in.frontiers[id as int],
                    st_in.frontiers[id as int].len() as int,
                ));
            }
            id = id + 1;
        }
        proof {
            assert(round as int <= 2 * hw + 1);
            assert(ZoneState {
                seen: seen_view(seen),
                scores: int_scores(scores@),
                frontiers: fr_view(next),
            } == zs_round(gv, hi, wi, st_in, round as int));
        }
        current = next;
        round = round + 1;
    }
    proof {
        let st_fin = ZoneState {
            seen: seen_view(seen),
            scores: int_scores(scores@),
            frontiers: fr_view(current),
        };
        assert(current@[0]@.len() == 0 && current@[1]@.len() == 0);
        assert(st_fin.frontiers[0].len() + st_fin.frontiers[1].len() == 0);
        assert(zs_run(gv, hi, wi, st_fin, round as int, (2 * hw + 2 - round) as nat) == st_fin);
        assert(st_fin == target);
        assert(target.scores == zs_totals(*board));
        assert forall|k: int| 0 <= k < 2 implies (#[trigger] scores@[k]) as int == zs_totals(
            *board,
        )[k] by {
            assert(int_scores(scores@)[k] == scores@[k] as int);
        }
        assert forall|k: int| 0 <= k < 2 implies 0 <= (#[trigger] scores@[k]) as int <= 5 * area(
            *board,
        ) by {
            assert(scores_ok(scores@, cred));
            assert(0 <= scores@[k] as int <= 5 * cred[k].dom().len());
            assert(cred[k].dom().len() <= hw);
            assert(5 * cred[k].dom().len() <= 5 * hw);
            assert(hw == area(*board));
        }
    }
    scores
}

/// Finds the player that has already claimed `position`, with the round of
/// the claim; `None` when no player has.
pub fn is_seen(position: Position, seen: &Vec<Vec<(Position, usize)>>) -> (r: Option<
    (usize, usize),
>)
    ensures
        r matches Some(pair) ==> (pair.0 as int) < seen@.len() && exists|k: int|
            0 <= k < seen@[pair.0 as int]@.len() && #[trigger] seen@[pair.0 as int]@[k] == (
            position,
            pair.1,
            ),
        r is None ==> forall|x: int, k: int|
            0 <= x < seen@.len() && 0 <= k < seen@[x]@.len() ==> (#[trigger] seen@[x]@[k]).0
                != position,
{
    let mut x: usize = 0;
    while x < seen.len()
        invariant
            x <= seen@.len(),
            forall|x0: int, k: int|
                0 <= x0 < x && 0 <= k < seen@[x0]@.len() ==> (#[trigger] seen@[x0]@[k]).0
                    != position,
        decreases seen@.len() - x,
    {
        let row = &seen[x];
        let mut k: usize = 0;
        while k < row.len()
            invariant
                k <= row@.len(),
                x < seen@.len(),
                row@ == seen@[x as int]@,
                forall|k0: int| 0 <= k0 < k ==> (#[trigger] row@[k0]).0 != position,
            decreases row@.len() - k,
        {
            let (p, steps) = row[k];
            if p == position {
                proof {
                    assert(0 <= (k as int) < seen@[x as int]@.len());
                    assert(seen@[x as int]@[k as int] == (position, steps));
                    assert(exists|k2: int|
                        0 <= k2 < seen@[x as int]@.len() && #[trigger] seen@[x as int]@[k2] == (
                        position,
                        steps,
                        ));
                }
                return Some((x, steps));
            }
            k = k + 1;
        }
        x = x + 1;
    }
    None
}

/// True when every frontier has emptied and the flood fill is finished.
pub fn frontiers_empty(frontiers: &Vec<Vec<Position>>) -> (r: bool)
    ensures
        r <==> forall|id: int| 0 <= id < frontiers@.len() ==> (#[trigger] frontiers@[id])@.len()
            == 0,
{
    let mut id: usize = 0;
    while id < frontiers.len()
        invariant
            id <= frontiers@.len(),
            forall|i: int| 0 <= i < id ==> (#[trigger] frontiers@[i])@.len() == 0,
        decreases frontiers@.len() - id,
    {
        if frontiers[id].len() > 0 {
            return false;
        }
        id = id + 1;
    }
    true
}

/// The relative zone value the heuristic derives from the two territory
/// totals: the acting player's total minus the best other total, a total
/// never counting for less than zero on the other side.
pub open spec fn spec_relative(s0: int, s1: int, pid: int) -> int {
    if pid == 0 {
        s0 - (if s1 >= 0 {
            s1
        } else {
            0
        })
    } else {
        s1 - (if s0 >= 0 {
            s0
        } else {
            0
        })
    }
}

/// Law: the heuristic is zero-sum. For two territory totals of one
/// flood-fill pass, one player's relative score is exactly the negation of
/// the other's. Applied to `zs_totals(b)` — never negative, and exactly
/// what `calc_zone_relative` returns — it gives that the two players'
/// heuristic values on one board negate each other.
pub proof fn lemma_zero_sum(s0: int, s1: int)
    requires
        s0 >= 0,
        s1 >= 0,
    ensures
        spec_relative(s0, s1, 0) == -spec_relative(s0, s1, 1),
{
}

/// The acting player's territory total minus the best other total, exactly
/// as the flood fill scored them.
pub fn relative_score(scores: &Vec<i32>, player_id: usize) -> (r: i32)
    requires
        scores@.len() == 2,
        player_id < 2,
        forall|k: int| 0 <= k < 2 ==> 0 <= (#[trigger] scores@[k]) as int <= i32::MAX / 2,
    ensures
        r as int == spec_relative(scores@[0] as int, scores@[1] as int, player_id as int),
{
    let player_score = scores[player_id];
    // the acting player's own slot counts as zero on the other side
    let other: usize = 1 - player_id;
    let mut max_score: i32 = 0;
    if scores[other] > max_score {
        max_score = scores[other];
    }
    player_score - max_score
}

/// The zone-control heuristic of one board for one player: its flood-fill
/// territory total minus the best other total, both from one shared pass.
pub fn calc_zone_relative(board: &Board, player_id: usize) -> (r: i32)
    requires
        board.wf(),
        player_id < 2,
        20 * area(*board) <= i32::MAX,
    ensures
        r as int == spec_relative(zs_totals(*board)[0], zs_totals(*board)[1], player_id as int),
        forall|k: int| 0 <= k < 2 ==> 0 <= #[trigger] zs_totals(*board)[k] <= 5 * area(*board),
        -5 * area(*board) <= r as int <= 5 * area(*board),
{
    let scores = zone_scores(board);
    proof {
        assert forall|k: int| 0 <= k < 2 implies 0 <= (#[trigger] scores@[k]) as int <= i32::MAX
            / 2 by {
            assert(scores@[k] as int <= 5 * area(*board));
        }
    }
    relative_score(&scores, player_id)
}

/// Queues one neighbor cell unless it is already claimed or already queued
/// — exactly the spec-level push.
fn push_neighbor(seen: &Vec<Vec<(Position, usize)>>, f: &mut Vec<Position>, np: Position)
    requires
        seen@.len() == 2,
        frontier_distinct(old(f)@),
    ensures
        final(f)@ == zs_push(seen_view(*seen), old(f)@, Option::Some(np)),
        frontier_distinct(final(f)@),
        final(f)@.len() >= old(f)@.len(),
{
    let found = is_seen(np, seen);
    let unseen = match found {
        Some(_) => false,
        None => true,
    };
    proof {
        match found {
            Some(pair) => {
                let k0 = choose|k0: int|
                    0 <= k0 < seen@[pair.0 as int]@.len() && #[trigger] seen@[pair.0 as int]@[k0]
                        == (np, pair.1);
                assert(0 <= (pair.0 as int) < 2 && 0 <= k0 < seen_view(*seen)[pair.0 as int].len()
                    && (seen_view(*seen)[pair.0 as int][k0]).0 == np);
                assert(zs_lookup(seen_view(*seen), np) is Some);
            },
            None => {
                if zs_lookup(seen_view(*seen), np) is Some {
                    let (x, k2) = choose|x: int, k2: int|
                        0 <= x < 2 && 0 <= k2 < seen_view(*seen)[x].len() && (#[trigger] seen_view(
                            *seen,
                        )[x][k2]).0 == np;
                    assert((seen@[x]@[k2]).0 == np);
                    assert(false);
                }
            },
        }
    }
    if unseen {
        if !contains_position(f, np) {
            proof {
                assert(!old(f)@.contains(np));
            }
            f.push(np);
            proof {
                assert(final(f)@ == zs_push(seen_view(*seen), old(f)@, Option::Some(np)));
                assert forall|k1: int, k2: int| 0 <= k1 < k2 < f@.len() implies #[trigger] f@[k1]
                    != #[trigger] f@[k2] by {
                    if k2 == f@.len() - 1 {
                        assert(f@[k1] == old(f)@[k1]);
                    }
                }
            }
            return ;
        }
        proof {
            assert(old(f)@.contains(np));
        }
    }
}

/// True when the frontier already holds this position.
fn contains_position(v: &Vec<Position>, p: Position) -> (r: bool)
    ensures
        r <==> exists|k: int| 0 <= k < v@.len() && v@[k] == p,
{
    let mut k: usize = 0;
    while k < v.len()
        invariant
            k <= v@.len(),
            forall|k0: int| 0 <= k0 < k ==> v@[k0] != p,
        decreases v@.len() - k,
    {
        if v[k] == p {
            return true;
        }
        k = k + 1;
    }
    false
}

/// The score of a hopeless board: the acting player is dead.
pub open spec fn min_score() -> int {
    i32::MIN as int
}

/// The score of a won board: the opponent is dead.
pub open spec fn max_score() -> int {
    i32::MAX as int
}

/// What the heuristic promises of a score `v` for `pid` on board `b`: the
/// minimum exactly for a dead player, the maximum exactly for a win, and
/// otherwise exactly the relative zone-control value of the flood fill,
/// which keeps to the interior.
pub open spec fn score_ok(b: Board, pid: usize, v: i32) -> bool {
    &&& b.players_seq()[pid as int].spec_state() is Dead ==> v == min_score()
    &&& (b.players_seq()[pid as int].spec_state() is Alive && b.players_seq()[1 - pid as int].spec_state() is Dead) ==> v == max_score()
    &&& (b.players_seq()[pid as int].spec_state() is Alive && b.players_seq()[1 - pid as int].spec_state() is Alive) ==> {
        &&& v as int == spec_relative(zs_totals(b)[0], zs_totals(b)[1], pid as int)
        &&& -5 * area(b) <= v as int <= 5 * area(b)
    }
}

/// A memoization cache of board scores, keyed by the full board value and
/// the evaluating player. It lives for one controller's lifetime and is
/// never evicted.
pub struct ScoreCache {
    entries: Vec<(Board, usize, i32)>,
}

impl ScoreCache {
    /// Spec view of the cached entries.
    pub closed spec fn entries_seq(self) -> Seq<(Board, usize, i32)> {
        self.entries@
    }

    /// Every cached value is one the heuristic could have computed for its
    /// board and player.
    pub open spec fn wf(self) -> bool {
        forall|k: int|
            0 <= k < self.entries_seq().len() ==> {
                let entry = #[trigger] self.entries_seq()[k];
                entry.0.wf() && entry.1 < 2 && score_ok(entry.0, entry.1, entry.2)
            }
    }

    /// An empty cache.
    pub fn new() -> (r: ScoreCache)
        ensures
            r.wf(),
            r.entries_seq().len() == 0,
    {
        ScoreCache { entries: Vec::new() }
    }
}

/// The memoized heuristic score of a board from one player's view: the
/// maximum score when only the opponent is dead, the minimum when the
/// player itself is, and otherwise the relative zone-control value. A board
/// already in the cache is not scored again.
pub fn score(board: &Board, player_id: usize, tracker: &mut ScoreCache) -> (r: i32)
    requires
        board.wf(),
        player_id < 2,
        20 * area(*board) <= i32::MAX,
        old(tracker).wf(),
    ensures
        final(tracker).wf(),
        score_ok(*board, player_id, r),
        final(tracker).entries_seq().len() >= old(tracker).entries_seq().len(),
        forall|k: int|
            0 <= k < old(tracker).entries_seq().len()
                ==> #[trigger] final(tracker).entries_seq()[k] == old(tracker).entries_seq()[k],
        final(tracker).entries_seq().len() <= old(tracker).entries_seq().len() + 1,
        final(tracker).entries_seq().len() == old(tracker).entries_seq().len() + 1 ==> {
            let entry = final(tracker).entries_seq().last();
            &&& entry.1 == player_id
            &&& entry.2 == r
            &&& parts_equal(entry.0, *board)
        },
        exists|k: int|
            0 <= k < final(tracker).entries_seq().len()
                && (#[trigger] final(tracker).entries_seq()[k]).1 == player_id && parts_equal(
                final(tracker).entries_seq()[k].0,
                *board,
            ),
{
    let mut k: usize = 0;
    while k < tracker.entries.len()
        invariant
            k <= tracker.entries_seq().len(),
            tracker.wf(),
            tracker.entries_seq() == old(tracker).entries_seq(),
        decreases tracker.entries_seq().len() - k,
    {
        if tracker.entries[k].1 == player_id && board.same_as(&tracker.entries[k].0) {
            proof {
                let entry = tracker.entries_seq()[k as int];
                assert(score_ok(entry.0, player_id, entry.2));
                assert(parts_equal(entry.0, *board));
                assert(zs_totals(entry.0) == zs_totals(*board));
                assert(area(entry.0) == area(*board));
                assert(score_ok(*board, player_id, entry.2));
            }
            return tracker.entries[k].2;
        }
        k = k + 1;
    }
    let v: i32 = match board.players()[player_id].get_state() {
        PlayerState::Alive { .. } => {
            let them_id = 1 - player_id;
            match board.players()[them_id].get_state() {
                PlayerState::Alive { .. } => calc_zone_relative(board, player_id),
                PlayerState::Dead => i32::MAX,
            }
        },
        PlayerState::Dead => i32::MIN,
    };
    proof {
        assert(score_ok(*board, player_id, v));
    }
    let copy = board.duplicate();
    proof {
        assert(copy.wf());
        assert(zs_totals(copy) == zs_totals(*board));
        assert(area(copy) == area(*board));
        assert(score_ok(copy, player_id, v));
    }
    let ghost before = tracker.entries_seq();
    tracker.entries.push((copy, player_id, v));
    proof {
        assert forall|m: int| 0 <= m < tracker.entries_seq().len() implies {
            let entry = #[trigger] tracker.entries_seq()[m];
            entry.0.wf() && entry.1 < 2 && score_ok(entry.0, entry.1, entry.2)
        } by {
            if m < before.len() {
                assert(tracker.entries_seq()[m] == before[m]);
            }
        }
        assert((tracker.entries_seq()[before.len() as int]).1 == player_id && parts_equal(
            tracker.entries_seq()[before.len() as int].0,
            *board,
        ));
    }
    v
}

/// The capability every controller offers: pick one action for the given
/// player on the given board. An implementation may keep private mutable
/// state — a cache, say — across calls, but never mutates the board it is
/// handed.
pub trait PlayerController {
    /// What must hold of the controller's private state between calls.
    spec fn controller_inv(self) -> bool;

    fn get_action(&mut self, board: &Board, player_id: usize) -> (r: Action)
        requires
            old(self).controller_inv(),
            board.wf(),
            player_id < 2,
            20 * area(*board) <= i32::MAX,
        ensures
            final(self).controller_inv(),
    ;
}

/// True when taking `a` is legal for `pid` on `b` and leaves the player
/// alive.
pub open spec fn safe_action(b: Board, pid: int, a: Action) -> bool {
    match b.action_dest(pid, a) {
        Option::Some(d) => !b.move_fails(pid, d) && b.player_after(pid, d) is Alive,
        Option::None => false,
    }
}

/// Two boards with equal parts agree on every move-related spec value.
proof fn lemma_move_spec_parts(b1: Board, b2: Board, pid: int)
    requires
        parts_equal(b1, b2),
    ensures
        forall|a: Action| #[trigger] b1.action_dest(pid, a) == b2.action_dest(pid, a),
        forall|d: Position| #[trigger] b1.move_fails(pid, d) == b2.move_fails(pid, d),
        forall|d: Position| #[trigger] b1.player_after(pid, d) == b2.player_after(pid, d),
        forall|a: Action| #[trigger] safe_action(b1, pid, a) == safe_action(b2, pid, a),
{
    assert(b1.origin_of(pid) == b2.origin_of(pid));
    assert(b1.grid_trailed(pid) == b2.grid_trailed(pid));
    assert forall|d: Position| #[trigger] b1.move_fails(pid, d) == b2.move_fails(pid, d) by {
        assert(b1.dest_prior(pid, d) == b2.dest_prior(pid, d));
    }
    assert forall|d: Position| #[trigger] b1.player_after(pid, d) == b2.player_after(pid, d) by {
        assert(b1.dest_prior(pid, d) == b2.dest_prior(pid, d));
    }
    assert forall|a: Action| #[trigger] safe_action(b1, pid, a) == safe_action(b2, pid, a) by {
        assert(b1.action_dest(pid, a) == b2.action_dest(pid, a));
        match b1.action_dest(pid, a) {
            Option::Some(d) => {
                assert(b1.move_fails(pid, d) == b2.move_fails(pid, d));
                assert(b1.player_after(pid, d) == b2.player_after(pid, d));
            },
            Option::None => {},
        }
    }
}

/// The action the clockwise controller picks: the first of Up, Right, Down,
/// Left that is legal and survivable, or Up when none is.
pub open spec fn clockwise_choice(b: Board, pid: int) -> Action {
    if safe_action(b, pid, Action::Up) {
        Action::Up
    } else if safe_action(b, pid, Action::Right) {
        Action::Right
    } else if safe_action(b, pid, Action::Down) {
        Action::Down
    } else if safe_action(b, pid, Action::Left) {
        Action::Left
    } else {
        Action::Up
    }
}

/// A reactive controller: it walks clockwise, taking the first action that
/// is legal and keeps it alive, and falls back to Up.
pub struct ClockwiseController {}

impl ClockwiseController {
    /// Returns the first action, clockwise from Up, that is legal and
    /// leaves the player alive; Up when every action loses.
    #[verifier::loop_isolation(false)]
    pub fn select(&self, board: &Board, player_id: usize) -> (r: Action)
        requires
            board.wf(),
            player_id < 2,
        ensures
            r == clockwise_choice(*board, player_id as int),
    {
        let mut idx: usize = 0;
        while idx < 4
            invariant
                idx <= 4,
                forall|m: int|
                    0 <= m < idx ==> !safe_action(
                        *board,
                        player_id as int,
                        action_of_index_spec(m),
                    ),
            decreases 4 - idx,
        {
            let action = action_of_index(idx);
            match board.apply_action(player_id, action) {
                Ok(new_board) => {
                    match new_board.players()[player_id].get_state() {
                        PlayerState::Alive { .. } => {
                            proof {
                                assert(safe_action(*board, player_id as int, action));
                                if idx >= 1 {
                                    assert(!safe_action(
                                        *board,
                                        player_id as int,
                                        action_of_index_spec(0),
                                    ));
                                }
                                if idx >= 2 {
                                    assert(!safe_action(
                                        *board,
                                        player_id as int,
                                        action_of_index_spec(1),
                                    ));
                                }
                                if idx >= 3 {
                                    assert(!safe_action(
                                        *board,
                                        player_id as int,
                                        action_of_index_spec(2),
                                    ));
                                }
                            }
                            return action;
                        },
                        PlayerState::Dead => {},
                    }
                },
                Err(_) => {},
            }
            idx = idx + 1;
        }
        proof {
            assert(!safe_action(*board, player_id as int, action_of_index_spec(0)));
            assert(!safe_action(*board, player_id as int, action_of_index_spec(1)));
            assert(!safe_action(*board, player_id as int, action_of_index_spec(2)));
            assert(!safe_action(*board, player_id as int, action_of_index_spec(3)));
        }
        Action::Up
    }
}

impl PlayerController for ClockwiseController {
    /// The clockwise controller keeps no state.
    open spec fn controller_inv(self) -> bool {
        true
    }

    fn get_action(&mut self, board: &Board, player_id: usize) -> (r: Action) {
        self.select(board, player_id)
    }
}

/// Declares `std::time::Instant` so the search can hold the moment it
/// started; the type stays opaque.
#[verifier::external_type_specification]
#[verifier::external_body]
pub struct ExInstant(std::time::Instant);

/// Relies on `std::time::Instant::now`: a reading of the monotonic clock.
/// Nothing is promised of the value.
#[verifier::external_body]
fn clock_now() -> std::time::Instant {
    std::time::Instant::now()
}

/// Relies on `std::time::Instant::elapsed` and `Duration::as_millis`: the
/// whole milliseconds since the instant was taken. Nothing is promised of
/// the value.
#[verifier::external_body]
fn elapsed_millis(start: &std::time::Instant) -> u128 {
    start.elapsed().as_millis()
}

/// Copies a vector of plain values.
pub(crate) fn copy_vec<T: Copy>(v: &Vec<T>) -> (r: Vec<T>)
    ensures
        r@ == v@,
{
    let mut r: Vec<T> = Vec::new();
    let mut k: usize = 0;
    while k < v.len()
        invariant
            k <= v@.len(),
            r@.len() == k,
            forall|m: int| 0 <= m < k ==> r@[m] == v@[m],
        decreases v@.len() - k,
    {
        r.push(v[k]);
        k = k + 1;
    }
    proof {
        assert(r@ =~= v@);
    }
    r
}

/// One frontier entry of the best-first search: the score trajectory that
/// led here, the actions that led here, and the board reached.
struct SearchNode {
    scores: Vec<i32>,
    actions: Vec<Action>,
    state: Board,
}

/// A search node usable for expansion: a well-formed board of the searched
/// board's dimensions.
pub open spec fn node_ok(state: Board, b: Board) -> bool {
    &&& state.wf()
    &&& state.spec_width() == b.spec_width()
    &&& state.spec_height() == b.spec_height()
}

/// What the search maintains of every frontier node: its board is usable,
/// a node still at the root carries the root board, and a deeper node's
/// first action was validated as legal and survivable on the root board.
spec fn node_prop(n: SearchNode, b: Board, pid: int) -> bool {
    &&& node_ok(n.state, b)
    &&& (n.actions@.len() == 0 ==> parts_equal(n.state, b))
    &&& (n.actions@.len() >= 1 ==> safe_action(b, pid, n.actions@[0]))
}

/// Lexicographic comparison of two score trajectories, from index `i` on: a
/// proper prefix orders below its extensions.
pub open spec fn scores_lt_from(a: Seq<i32>, b: Seq<i32>, i: int) -> bool
    decreases b.len() - i,
{
    if i >= b.len() {
        false
    } else if i >= a.len() {
        true
    } else if a[i] < b[i] {
        true
    } else if a[i] > b[i] {
        false
    } else {
        scores_lt_from(a, b, i + 1)
    }
}

/// Returns whether `a` orders strictly below `b`, comparing the score
/// trajectories lexicographically.
fn scores_less(a: &Vec<i32>, b: &Vec<i32>) -> (r: bool)
    ensures
        r == scores_lt_from(a@, b@, 0),
{
    let mut i: usize = 0;
    while i < a.len() && i < b.len()
        invariant
            i <= a@.len(),
            i <= b@.len(),
            scores_lt_from(a@, b@, 0) == scores_lt_from(a@, b@, i as int),
        decreases a@.len() - i,
    {
        if a[i] < b[i] {
            return true;
        }
        if a[i] > b[i] {
            return false;
        }
        i = i + 1;
    }
    i < b.len()
}

/// The order in which the search tie-breaks actions.
pub open spec fn action_rank(a: Action) -> int {
    match a {
        Action::Up => 0,
        Action::Down => 1,
        Action::Left => 2,
        Action::Right => 3,
    }
}

/// Lexicographic comparison of two action paths, from index `i` on, by the
/// actions' rank: a proper prefix orders below its extensions.
pub open spec fn actions_lt_from(a: Seq<Action>, b: Seq<Action>, i: int) -> bool
    decreases b.len() - i,
{
    if i >= b.len() {
        false
    } else if i >= a.len() {
        true
    } else if action_rank(a[i]) < action_rank(b[i]) {
        true
    } else if action_rank(a[i]) > action_rank(b[i]) {
        false
    } else {
        actions_lt_from(a, b, i + 1)
    }
}

/// Returns an action's tie-breaking rank.
fn action_rank_exec(a: Action) -> (r: u8)
    ensures
        r as int == action_rank(a),
{
    match a {
        Action::Up => 0,
        Action::Down => 1,
        Action::Left => 2,
        Action::Right => 3,
    }
}

/// Returns whether `a` orders strictly below `b`, comparing the action
/// paths lexicographically by rank.
fn actions_less(a: &Vec<Action>, b: &Vec<Action>) -> (r: bool)
    ensures
        r == actions_lt_from(a@, b@, 0),
{
    let mut i: usize = 0;
    while i < a.len() && i < b.len()
        invariant
            i <= a@.len(),
            i <= b@.len(),
            actions_lt_from(a@, b@, 0) == actions_lt_from(a@, b@, i as int),
        decreases a@.len() - i,
    {
        let ra = action_rank_exec(a[i]);
        let rb = action_rank_exec(b[i]);
        if ra < rb {
            return true;
        }
        if ra > rb {
            return false;
        }
        i = i + 1;
    }
    i < b.len()
}

/// A node orders strictly below another when its score trajectory does, or,
/// the trajectories being equal, when its action path does.
pub open spec fn node_lt(a_s: Seq<i32>, a_a: Seq<Action>, b_s: Seq<i32>, b_a: Seq<Action>) -> bool {
    ||| scores_lt_from(a_s, b_s, 0)
    ||| (a_s == b_s && actions_lt_from(a_a, b_a, 0))
}

/// Returns whether node `a` has strictly lower priority than node `b`.
fn node_less(a: &SearchNode, b: &SearchNode) -> (r: bool)
    ensures
        r == node_lt(a.scores@, a.actions@, b.scores@, b.actions@),
{
    if scores_less(&a.scores, &b.scores) {
        return true;
    }
    if scores_less(&b.scores, &a.scores) {
        return false;
    }
    proof {
        lemma_scores_lt_trichotomy(a.scores@, b.scores@, 0);
    }
    actions_less(&a.actions, &b.actions)
}

/// Two score trajectories that order below one another in neither direction
/// are equal (comparing from a position where they agree so far).
proof fn lemma_scores_lt_trichotomy(a: Seq<i32>, b: Seq<i32>, i: int)
    requires
        0 <= i <= a.len(),
        0 <= i <= b.len(),
        !scores_lt_from(a, b, i),
        !scores_lt_from(b, a, i),
        forall|m: int| 0 <= m < i ==> a[m] == b[m],
    ensures
        a == b,
    decreases a.len() + b.len() - 2 * i,
{
    if i >= a.len() && i >= b.len() {
        assert(a =~= b);
    } else if i >= a.len() {
        assert(scores_lt_from(a, b, i));
    } else if i >= b.len() {
        assert(scores_lt_from(b, a, i));
    } else {
        if a[i] < b[i] {
            assert(scores_lt_from(a, b, i));
        } else if a[i] > b[i] {
            assert(scores_lt_from(b, a, i));
        } else {
            lemma_scores_lt_trichotomy(a, b, i + 1);
        }
    }
}

/// Removes and returns the highest-priority node: the one whose score
/// trajectory — and, on ties, action path — orders above every other; the
/// earliest of fully tied nodes is taken.
fn pop_best(queue: &mut Vec<SearchNode>) -> (r: SearchNode)
    requires
        old(queue)@.len() > 0,
    ensures
        final(queue)@.len() == old(queue)@.len() - 1,
        exists|i: int| 0 <= i < old(queue)@.len() && r == old(queue)@[i],
        forall|j: int|
            0 <= j < final(queue)@.len() ==> exists|i: int|
                0 <= i < old(queue)@.len() && #[trigger] final(queue)@[j] == old(queue)@[i],
{
    let mut best: usize = 0;
    let mut k: usize = 1;
    while k < queue.len()
        invariant
            1 <= k <= queue@.len(),
            best < k,
            queue@ == old(queue)@,
        decreases queue@.len() - k,
    {
        if node_less(&queue[best], &queue[k]) {
            best = k;
        }
        k = k + 1;
    }
    let r = queue.remove(best);
    proof {
        assert forall|j: int| 0 <= j < queue@.len() implies exists|i: int|
            0 <= i < old(queue)@.len() && #[trigger] final(queue)@[j] == old(queue)@[i] by {
            if j < best {
                assert(queue@[j] == old(queue)@[j]);
            } else {
                assert(queue@[j] == old(queue)@[j + 1]);
            }
        }
    }
    r
}

/// The searching controller: a time-bounded, best-first adversarial search
/// over hypothetical boards, driven by the zone-control heuristic and a
/// per-controller memoization cache.
pub struct BFSController {
    turn_time_milliseconds: u128,
    score_tracker: ScoreCache,
}

impl BFSController {
    /// The cache only ever holds values the heuristic could have produced.
    pub closed spec fn inv(self) -> bool {
        self.score_tracker.wf()
    }

    /// Spec view of the configured time budget.
    pub closed spec fn spec_turn_time(self) -> u128 {
        self.turn_time_milliseconds
    }

    /// Spec view of the cached scores.
    pub closed spec fn spec_cache(self) -> Seq<(Board, usize, i32)> {
        self.score_tracker.entries_seq()
    }

    /// A fresh searching controller with the given wall-clock budget in
    /// milliseconds per call and an empty cache.
    pub fn new(turn_time_milliseconds: u128) -> (r: BFSController)
        ensures
            r.spec_turn_time() == turn_time_milliseconds,
            r.inv(),
    {
        BFSController { turn_time_milliseconds, score_tracker: ScoreCache::new() }
    }

    /// One best-first search: expand the most promising frontier node,
    /// score each of the acting player's actions by the opponent's worst
    /// reply, remember the action that began the best branch found, and
    /// stop as soon as the budget runs out, the frontier empties, or a
    /// branch guarantees the win. Falls back to Up when nothing better is
    /// found.
    #[verifier::loop_isolation(false)]
    #[verifier::rlimit(80)]
    pub fn select(&mut self, board: &Board, player_id: usize) -> (r: Action)
        requires
            old(self).inv(),
            board.wf(),
            player_id < 2,
            20 * area(*board) <= i32::MAX,
        ensures
            final(self).inv(),
            r == Action::Up || safe_action(*board, player_id as int, r),
            final(self).spec_turn_time() == old(self).spec_turn_time(),
            final(self).spec_cache().len() >= old(self).spec_cache().len(),
            forall|c: int|
                0 <= c < old(self).spec_cache().len() ==> #[trigger] final(self).spec_cache()[c]
                    == old(self).spec_cache()[c],
            exists|c: int|
                0 <= c < final(self).spec_cache().len()
                    && (#[trigger] final(self).spec_cache()[c]).1 == player_id && parts_equal(
                    final(self).spec_cache()[c].0,
                    *board,
                ),
    {
        let mut queue: Vec<SearchNode> = Vec::new();
        let first_score = score(board, player_id, &mut self.score_tracker);
        proof {
            let c0 = choose|c0: int|
                0 <= c0 < self.score_tracker.entries_seq().len()
                    && (#[trigger] self.score_tracker.entries_seq()[c0]).1 == player_id
                    && parts_equal(self.score_tracker.entries_seq()[c0].0, *board);
            assert(0 <= c0 < self.spec_cache().len() && (self.spec_cache()[c0]).1 == player_id
                && parts_equal(self.spec_cache()[c0].0, *board));
        }
        let mut first_scores: Vec<i32> = Vec::new();
        first_scores.push(first_score);
        queue.push(
            SearchNode { scores: first_scores, actions: Vec::new(), state: board.duplicate() },
        );
        proof {
            assert(parts_equal(queue@[0].state, *board));
            assert(node_prop(queue@[0], *board, player_id as int));
        }
        let mut best_so_far = Action::Up;
        let mut score_so_far = i32::MIN;
        let start_time = clock_now();
        let mut fuel: usize = usize::MAX;
        let mut stop = false;
        while !stop && queue.len() > 0 && fuel > 0 && elapsed_millis(&start_time)
            < self.turn_time_milliseconds
            invariant
                self.score_tracker.wf(),
                self.spec_turn_time() == old(self).spec_turn_time(),
                self.spec_cache().len() >= old(self).spec_cache().len(),
                forall|c: int|
                    0 <= c < old(self).spec_cache().len() ==> #[trigger] self.spec_cache()[c]
                        == old(self).spec_cache()[c],
                exists|c: int|
                    0 <= c < self.spec_cache().len() && (#[trigger] self.spec_cache()[c]).1
                        == player_id && parts_equal(self.spec_cache()[c].0, *board),
                forall|n: int|
                    0 <= n < queue@.len() ==> node_prop(#[trigger] queue@[n], *board, player_id as int),
                best_so_far == Action::Up || safe_action(*board, player_id as int, best_so_far),
                score_so_far == i32::MAX ==> stop,
            decreases fuel,
        {
            fuel = fuel - 1;
            let ghost qpre = queue@;
            let node = pop_best(&mut queue);
            proof {
                let i = choose|i: int| 0 <= i < qpre.len() && node == qpre[i];
                assert(node_prop(node, *board, player_id as int));
                assert forall|n: int| 0 <= n < queue@.len() implies node_prop(
                    #[trigger] queue@[n],
                    *board,
                    player_id as int,
                ) by {
                    let i2 = choose|i2: int| 0 <= i2 < qpre.len() && queue@[n] == qpre[i2];
                }
            }
            let SearchNode { scores: node_scores, actions: node_actions, state } = node;
            let mut ui: usize = 0;
            while ui < 4
                invariant
                    self.score_tracker.wf(),
                    self.spec_turn_time() == old(self).spec_turn_time(),
                    self.spec_cache().len() >= old(self).spec_cache().len(),
                    forall|c: int|
                        0 <= c < old(self).spec_cache().len() ==> #[trigger] self.spec_cache()[c]
                            == old(self).spec_cache()[c],
                    exists|c: int|
                    0 <= c < self.spec_cache().len() && (#[trigger] self.spec_cache()[c]).1
                        == player_id && parts_equal(self.spec_cache()[c].0, *board),
                    forall|n: int|
                        0 <= n < queue@.len() ==> node_prop(
                            #[trigger] queue@[n],
                            *board,
                            player_id as int,
                        ),
                    node_ok(state, *board),
                    node_actions@.len() == 0 ==> parts_equal(state, *board),
                    node_actions@.len() >= 1 ==> safe_action(
                        *board,
                        player_id as int,
                        node_actions@[0],
                    ),
                    best_so_far == Action::Up || safe_action(*board, player_id as int, best_so_far),
                    score_so_far == i32::MAX ==> stop,
                decreases 4 - ui,
            {
                let us_action = action_of_index(ui);
                let mut actions = copy_vec(&node_actions);
                actions.push(us_action);
                let them_state_opt: Option<Board> = match state.apply_action(player_id, us_action) {
                    Ok(nb) => match nb.players()[player_id].get_state() {
                        PlayerState::Alive { .. } => Some(nb),
                        PlayerState::Dead => None,
                    },
                    Err(_) => None,
                };
                match them_state_opt {
                    None => {},
                    Some(them_state) => {
                        proof {
                            assert(actions@.len() >= 1);
                            if node_actions@.len() == 0 {
                                assert(actions@[0] == us_action);
                                assert(safe_action(state, player_id as int, us_action));
                                lemma_move_spec_parts(state, *board, player_id as int);
                                assert(safe_action(*board, player_id as int, us_action));
                            } else {
                                assert(actions@[0] == node_actions@[0]);
                            }
                            assert(safe_action(*board, player_id as int, actions@[0]));
                        }
                        let them_id = 1 - player_id;
                        let mut worst_node = SearchNode {
                            scores: Vec::new(),
                            actions: Vec::new(),
                            state: them_state.duplicate(),
                        };
                        let mut worst_score = i32::MAX;
                        let mut ti: usize = 0;
                        while ti < 4
                            invariant
                                self.score_tracker.wf(),
                                self.spec_turn_time() == old(self).spec_turn_time(),
                                self.spec_cache().len() >= old(self).spec_cache().len(),
                                forall|c: int|
                                    0 <= c < old(self).spec_cache().len()
                                        ==> #[trigger] self.spec_cache()[c] == old(
                                        self,
                                    ).spec_cache()[c],
                                exists|c: int|
                    0 <= c < self.spec_cache().len() && (#[trigger] self.spec_cache()[c]).1
                        == player_id && parts_equal(self.spec_cache()[c].0, *board),
                                node_ok(them_state, *board),
                                node_ok(worst_node.state, *board),
                                safe_action(*board, player_id as int, actions@[0]),
                                actions@.len() >= 1,
                                worst_score == i32::MAX || (worst_node.actions@.len() >= 1
                                    && worst_node.actions@[0] == actions@[0]),
                            decreases 4 - ti,
                        {
                            let them_action = action_of_index(ti);
                            let ghost cache_pre = self.spec_cache();
                            let us_state: Board = match them_state.apply_action(
                                them_id,
                                them_action,
                            ) {
                                Ok(b) => b,
                                Err(_) => them_state.duplicate(),
                            };
                            let new_score = score(&us_state, player_id, &mut self.score_tracker);
                            proof {
                                let c0 = choose|c0: int|
                                    0 <= c0 < cache_pre.len() && (#[trigger] cache_pre[c0]).1
                                        == player_id && parts_equal(cache_pre[c0].0, *board);
                                assert(self.spec_cache()[c0] == cache_pre[c0]);
                            }
                            let mut new_scores = copy_vec(&node_scores);
                            new_scores.push(new_score);
                            let new_node = SearchNode {
                                scores: new_scores,
                                actions: copy_vec(&actions),
                                state: us_state,
                            };
                            if new_score < worst_score {
                                worst_score = new_score;
                                worst_node = new_node;
                            }
                            ti = ti + 1;
                        }
                        if worst_score > score_so_far {
                            best_so_far = actions[0];
                            score_so_far = worst_score;
                            if worst_score == i32::MAX {
                                // no opponent reply avoids its elimination:
                                // commit to this branch at once
                                stop = true;
                            }
                            proof {
                                assert(safe_action(*board, player_id as int, best_so_far));
                            }
                        }
                        if !stop {
                            proof {
                                assert(worst_score < i32::MAX);
                                assert(node_prop(worst_node, *board, player_id as int));
                            }
                            queue.push(worst_node);
                        }
                    },
                }
                if stop {
                    break ;
                }
                ui = ui + 1;
            }
        }
        best_so_far
    }
}

impl PlayerController for BFSController {
    /// The score cache only holds values the heuristic could have produced.
    closed spec fn controller_inv(self) -> bool {
        self.inv()
    }

    fn get_action(&mut self, board: &Board, player_id: usize) -> (r: Action) {
        self.select(board, player_id)
    }
}

} // verus!
