//! The turn orchestration around the core: players alternate, a boosted
//! player acts twice, and the game ends when one player is left.

use vstd::prelude::*;
use crate::board::{initial_cell_state, one_move_ok, parts_equal, Board};
use crate::board::alive_boost;
use crate::player::{Action, PlayerState};
use crate::player_controller::{
    area, copy_vec, BFSController, ClockwiseController, PlayerController,
};

verus! {

/// Whether the game is running, and whose turn it is, or over, and won.
#[derive(Debug)]
pub enum GameState {
    Active { turn: usize, alive_ids: Vec<usize> },
    Over { winner_id: usize },
}

/// One of the library's controller kinds, as a game can own either.
pub enum Controller {
    Clockwise(ClockwiseController),
    Search(BFSController),
}

impl Controller {
    /// What must hold of the controller's private state between calls.
    pub open spec fn inv(self) -> bool {
        match self {
            Controller::Clockwise(c) => c.controller_inv(),
            Controller::Search(c) => c.controller_inv(),
        }
    }

    /// Asks the controller for one action.
    fn get_action(&mut self, board: &Board, player_id: usize) -> (r: Action)
        requires
            old(self).inv(),
            board.wf(),
            player_id < 2,
            20 * area(*board) <= i32::MAX,
        ensures
            final(self).inv(),
    {
        match self {
            Controller::Clockwise(c) => c.get_action(board, player_id),
            Controller::Search(c) => c.get_action(board, player_id),
        }
    }
}

/// The ids of the living players, in increasing order.
pub open spec fn spec_alive_ids(b: Board) -> Seq<usize> {
    let a0 = b.players_seq()[0].spec_state() is Alive;
    let a1 = b.players_seq()[1].spec_state() is Alive;
    if a0 && a1 {
        seq![0usize, 1usize]
    } else if a0 {
        seq![0usize]
    } else if a1 {
        seq![1usize]
    } else {
        Seq::empty()
    }
}

/// The living players' id list holds exactly the ids of living players.
proof fn lemma_alive_ids(b: Board, id: usize)
    requires
        b.players_seq().len() == 2,
    ensures
        (exists|k: int|
            0 <= k < spec_alive_ids(b).len() && spec_alive_ids(b)[k] == id) <==> (id < 2
            && b.players_seq()[id as int].spec_state() is Alive),
{
    let s = spec_alive_ids(b);
    let a0 = b.players_seq()[0].spec_state() is Alive;
    let a1 = b.players_seq()[1].spec_state() is Alive;
    if a0 && a1 {
        if id == 0 {
            assert(s[0] == id);
        } else if id == 1 {
            assert(s[1] == id);
        }
    } else if a0 {
        if id == 0 {
            assert(s[0] == id);
        }
    } else if a1 {
        if id == 1 {
            assert(s[0] == id);
        }
    }
}

/// Collects the living players' ids, in increasing order.
fn compute_alive_ids(board: &Board) -> (r: Vec<usize>)
    requires
        board.players_seq().len() == 2,
    ensures
        r@ == spec_alive_ids(*board),
{
    let mut alive_ids: Vec<usize> = Vec::new();
    match board.players()[0].get_state() {
        PlayerState::Alive { .. } => {
            alive_ids.push(0);
        },
        PlayerState::Dead => {},
    }
    match board.players()[1].get_state() {
        PlayerState::Alive { .. } => {
            alive_ids.push(1);
        },
        PlayerState::Dead => {},
    }
    proof {
        assert(alive_ids@ =~= spec_alive_ids(*board));
    }
    alive_ids
}

/// True when the id list holds `id`.
fn contains_id(v: &Vec<usize>, id: usize) -> (r: bool)
    ensures
        r <==> exists|k: int| 0 <= k < v@.len() && v@[k] == id,
{
    let mut k: usize = 0;
    while k < v.len()
        invariant
            k <= v@.len(),
            forall|m: int| 0 <= m < k ==> v@[m] != id,
        decreases v@.len() - k,
    {
        if v[k] == id {
            return true;
        }
        k = k + 1;
    }
    false
}

/// A running match: the authoritative board, one controller per player,
/// and whose turn it is.
pub struct Game {
    board: Board,
    player_controllers: Vec<Controller>,
    state: GameState,
}

impl Game {
    /// Spec view of the authoritative board.
    pub closed spec fn spec_board(self) -> Board {
        self.board
    }

    /// Spec view of the controllers, indexed by player id.
    pub closed spec fn spec_controllers(self) -> Seq<Controller> {
        self.player_controllers@
    }

    /// Spec view of the game state.
    pub closed spec fn spec_state(self) -> GameState {
        self.state
    }

    /// The game invariant: a well-formed board small enough to score, one
    /// sound controller per player, and a state that reflects the board.
    pub open spec fn wf(self) -> bool {
        &&& self.spec_board().wf()
        &&& 20 * area(self.spec_board()) <= i32::MAX
        &&& self.spec_controllers().len() == 2
        &&& forall|k: int| 0 <= k < 2 ==> (#[trigger] self.spec_controllers()[k]).inv()
        &&& match self.spec_state() {
            GameState::Active { turn, alive_ids } => alive_ids@ == spec_alive_ids(
                self.spec_board(),
            ),
            GameState::Over { winner_id } => winner_id < 2,
        }
    }

    /// A fresh default match: a 10 by 10 board with the two players at
    /// opposite corners, the given controllers in order, at turn zero.
    pub fn new_default(controller_a: Controller, controller_b: Controller) -> (r: Game)
        requires
            controller_a.inv(),
            controller_b.inv(),
        ensures
            r.wf(),
            r.spec_board().spec_height() == 10 && r.spec_board().spec_width() == 10,
            forall|i: int, j: int|
                0 <= i < 10 && 0 <= j < 10 ==> r.spec_board().state_at(i, j)
                    == initial_cell_state(10, 10, i, j),
            r.spec_controllers() == seq![controller_a, controller_b],
            r.spec_state() matches GameState::Active { turn, .. } && turn == 0,
    {
        let board = Board::new_default(10, 10).unwrap();
        let mut controllers: Vec<Controller> = Vec::new();
        controllers.push(controller_a);
        controllers.push(controller_b);
        proof {
            assert(controllers@ =~= seq![controller_a, controller_b]);
        }
        Game::new(board, controllers).unwrap()
    }

    /// A match over the given board. Fails exactly when the number of
    /// controllers is not the number of players.
    pub fn new(board: Board, player_controllers: Vec<Controller>) -> (r: Result<Self, ()>)
        requires
            board.wf(),
            20 * area(board) <= i32::MAX,
            forall|k: int|
                0 <= k < player_controllers@.len() ==> (#[trigger] player_controllers@[k]).inv(),
        ensures
            r is Err <==> player_controllers@.len() != 2,
            r matches Ok(g) ==> {
                &&& g.wf()
                &&& g.spec_board() == board
                &&& g.spec_controllers() == player_controllers@
                &&& g.spec_state() matches GameState::Active { turn, alive_ids } && turn == 0
                    && alive_ids@ == spec_alive_ids(board)
            },
    {
        if board.players().len() != player_controllers.len() {
            return Err(());
        }
        let alive_ids = compute_alive_ids(&board);
        Ok(Game { board, player_controllers, state: GameState::Active { turn: 0, alive_ids } })
    }

    pub fn state(&self) -> (r: &GameState)
        ensures
            r == self.spec_state(),
    {
        &self.state
    }

    pub fn board(&self) -> (r: &Board)
        ensures
            r == self.spec_board(),
    {
        &self.board
    }

    /// Runs one player's whole turn: the player whose turn it is acts once,
    /// or twice with boost, each action chosen by its controller and applied
    /// to the authoritative board; a dead player's turn is skipped. Returns
    /// the acting player and the actions taken; fails when the game is over
    /// or when the chosen action cannot be applied.
    #[verifier::rlimit(60)]
    pub fn run_turn(&mut self) -> (r: Result<(usize, Vec<Action>), ()>)
        requires
            old(self).wf(),
            old(self).spec_state() matches GameState::Active { turn, .. } ==> turn < usize::MAX,
        ensures
            final(self).wf(),
            old(self).spec_state() is Over ==> r is Err && final(self).spec_state() == old(
                self,
            ).spec_state() && parts_equal(final(self).spec_board(), old(self).spec_board()),
            r matches Ok(p) ==> (old(self).spec_state() matches GameState::Active { turn, .. }
                && p.0 == turn % 2),
            // a dead player's turn is skipped whole: no action, no board
            // change, only the turn counter advances
            old(self).spec_state() matches GameState::Active { turn, .. } ==> (!spec_alive_ids(
                old(self).spec_board(),
            ).contains((turn % 2) as usize) ==> {
                &&& r matches Ok(p) && p.1@.len() == 0
                &&& parts_equal(final(self).spec_board(), old(self).spec_board())
                &&& (final(self).spec_state() matches GameState::Active { turn: t2, alive_ids }
                    && t2 == turn + 1 && alive_ids@ == spec_alive_ids(old(self).spec_board()))
            }),
            // a living player acts once, twice with boost, each action
            // applied through the board's transition function in order
            old(self).spec_state() matches GameState::Active { turn, .. } ==> (spec_alive_ids(
                old(self).spec_board(),
            ).contains((turn % 2) as usize) ==> (r matches Ok(p) ==> {
                let pid = ((turn % 2) as usize) as int;
                &&& 1 <= p.1@.len() <= 2
                &&& (p.1@.len() == 2 ==> alive_boost(
                    old(self).spec_board().players_seq()[pid].spec_state(),
                ) > 0)
                &&& (alive_boost(old(self).spec_board().players_seq()[pid].spec_state()) == 0
                    ==> p.1@.len() == 1)
                &&& (p.1@.len() == 1 ==> one_move_ok(
                    old(self).spec_board(),
                    pid,
                    p.1@[0],
                    final(self).spec_board(),
                ))
                &&& (p.1@.len() == 2 ==> exists|mid: Board|
                    #[trigger] one_move_ok(old(self).spec_board(), pid, p.1@[0], mid)
                        && one_move_ok(mid, pid, p.1@[1], final(self).spec_board()))
                &&& match final(self).spec_state() {
                    GameState::Over { winner_id } => winner_id < 2 && spec_alive_ids(
                        final(self).spec_board(),
                    ) == seq![winner_id],
                    GameState::Active { turn: t2, alive_ids } => t2 == turn + 1 && alive_ids@
                        == spec_alive_ids(final(self).spec_board()),
                }
            })),
    {
        let (turn, alive_ids): (usize, Vec<usize>) = match &self.state {
            GameState::Active { turn, alive_ids } => (*turn, copy_vec(alive_ids)),
            GameState::Over { .. } => {
                return Err(());
            },
        };
        let active_id = turn % self.player_controllers.len();
        proof {
            assert(active_id == turn % 2);
            assert(alive_ids@ == spec_alive_ids(old(self).spec_board()));
        }
        if !contains_id(&alive_ids, active_id) {
            proof {
                assert(!spec_alive_ids(old(self).spec_board()).contains(active_id));
            }
            self.state = GameState::Active { turn: turn + 1, alive_ids };
            return Ok((active_id, Vec::new()));
        }
        proof {
            assert(spec_alive_ids(old(self).spec_board()).contains(active_id));
            lemma_alive_ids(self.board, active_id);
        }
        let n_actions: u8 = match self.board.players()[active_id].get_state() {
            PlayerState::Alive { position: _, boost, armor: _ } => {
                if boost > 0 {
                    2
                } else {
                    1
                }
            },
            PlayerState::Dead => {
                return Err(());
            },
        };
        let mut actions: Vec<Action> = Vec::new();
        let mut i: u8 = 0;
        while i < n_actions
            invariant_except_break
                actions@.len() == i,
            invariant
                self.wf(),
                active_id < 2,
                active_id == turn % 2,
                turn < usize::MAX,
                old(self).spec_state() matches GameState::Active { turn: t0, .. } && t0 == turn,
                spec_alive_ids(old(self).spec_board()).contains(active_id),
                actions@.len() <= i + 1,
                i <= n_actions,
                1 <= n_actions <= 2,
                (n_actions == 2) == (alive_boost(
                    old(self).spec_board().players_seq()[active_id as int].spec_state(),
                ) > 0),
                (actions@.len() == 0 && parts_equal(self.spec_board(), old(self).spec_board())
                    && self.spec_state() == old(self).spec_state()) || (actions@.len() == 1
                    && one_move_ok(
                    old(self).spec_board(),
                    active_id as int,
                    actions@[0],
                    self.spec_board(),
                )) || (actions@.len() == 2 && exists|mid: Board|
                    #[trigger] one_move_ok(old(self).spec_board(), active_id as int, actions@[0], mid)
                        && one_move_ok(mid, active_id as int, actions@[1], self.spec_board())),
                actions@.len() >= 1 ==> match self.spec_state() {
                    GameState::Over { winner_id } => winner_id < 2 && spec_alive_ids(
                        self.spec_board(),
                    ) == seq![winner_id],
                    GameState::Active { turn: t2, alive_ids } => t2 == turn + 1,
                },
            ensures
                self.wf(),
                1 <= actions@.len() <= n_actions,
                (actions@.len() == 1 && one_move_ok(
                    old(self).spec_board(),
                    active_id as int,
                    actions@[0],
                    self.spec_board(),
                )) || (actions@.len() == 2 && exists|mid: Board|
                    #[trigger] one_move_ok(old(self).spec_board(), active_id as int, actions@[0], mid)
                        && one_move_ok(mid, active_id as int, actions@[1], self.spec_board())),
                match self.spec_state() {
                    GameState::Over { winner_id } => winner_id < 2 && spec_alive_ids(
                        self.spec_board(),
                    ) == seq![winner_id],
                    GameState::Active { turn: t2, alive_ids } => t2 == turn + 1 && alive_ids@
                        == spec_alive_ids(self.spec_board()),
                },
            decreases n_actions - i,
        {
            let ghost board_pre = self.spec_board();
            let action = self.player_controllers[active_id].get_action(&self.board, active_id);
            proof {
                assert forall|k: int| 0 <= k < 2 implies (
                #[trigger] self.spec_controllers()[k]).inv() by {}
            }
            match self.apply_action(action, active_id) {
                Ok(alive_now) => {
                    proof {
                        assert(one_move_ok(board_pre, active_id as int, action, self.spec_board()));
                        if actions@.len() == 1 {
                            assert(one_move_ok(
                                old(self).spec_board(),
                                active_id as int,
                                actions@[0],
                                board_pre,
                            ));
                        }
                    }
                    actions.push(action);
                    if alive_now.len() == 1 {
                        let winner_id = alive_now[0];
                        proof {
                            lemma_alive_ids(self.board, alive_now@[0]);
                            assert(spec_alive_ids(self.spec_board()) =~= seq![winner_id]);
                        }
                        self.state = GameState::Over { winner_id };
                        break ;
                    } else {
                        self.state = GameState::Active { turn: turn + 1, alive_ids: alive_now };
                    }
                },
                Err(err) => {
                    return Err(err);
                },
            }
            i = i + 1;
        }
        Ok((active_id, actions))
    }

    /// Applies one action for the acting player to the authoritative board.
    /// Fails when the game is over, the player is no longer listed alive, or
    /// the move itself is invalid; the board is then left unchanged. On
    /// success returns the ids of the players still living afterwards.
    fn apply_action(&mut self, action: Action, active_id: usize) -> (r: Result<Vec<usize>, ()>)
        requires
            old(self).wf(),
            active_id < 2,
        ensures
            final(self).spec_board().wf(),
            20 * area(final(self).spec_board()) <= i32::MAX,
            final(self).spec_controllers() == old(self).spec_controllers(),
            final(self).spec_state() == old(self).spec_state(),
            r is Err ==> final(self).spec_board() == old(self).spec_board(),
            r is Err <==> (old(self).spec_state() is Over || !spec_alive_ids(
                old(self).spec_board(),
            ).contains(active_id) || old(self).spec_board().action_dest(
                active_id as int,
                action,
            ) is None || (old(self).spec_board().action_dest(active_id as int, action)
                matches Some(d) && old(self).spec_board().move_fails(active_id as int, d))),
            r matches Ok(ids) ==> {
                &&& one_move_ok(
                    old(self).spec_board(),
                    active_id as int,
                    action,
                    final(self).spec_board(),
                )
                &&& ids@ == spec_alive_ids(final(self).spec_board())
            },
    {
        let alive_now: Vec<usize> = match &self.state {
            GameState::Active { turn: _, alive_ids } => copy_vec(alive_ids),
            GameState::Over { .. } => {
                return Err(());
            },
        };
        proof {
            assert(alive_now@ == spec_alive_ids(old(self).spec_board()));
        }
        if !contains_id(&alive_now, active_id) {
            proof {
                assert(!spec_alive_ids(old(self).spec_board()).contains(active_id));
            }
            return Err(());
        }
        proof {
            assert(spec_alive_ids(old(self).spec_board()).contains(active_id));
        }
        match self.board.apply_action(active_id, action) {
            Ok(board) => {
                proof {
                    assert(area(board) == area(old(self).spec_board()));
                }
                self.board = board;
                Ok(compute_alive_ids(&self.board))
            },
            Err(_) => Err(()),
        }
    }
}

} // verus!
