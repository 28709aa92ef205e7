//! The game board and its pure state-transition function.
//!
//! A board is a rectangular grid of cells plus a roster of two players.
//! Every move produces a brand-new board value; the input board is never
//! mutated, so a search may hold many divergent hypothetical boards at once.

use vstd::prelude::*;
use crate::player::{action_delta, Action, Player, PlayerState};
use crate::position::Position;
use crate::power_up::PowerUp;

verus! {

/// What a single grid cell currently holds.
///
/// `Owned` is the permanent trail left by a player who passed through;
/// `Occupied` is the cell a living player currently stands on.
#[derive(Debug, Copy, Clone, PartialEq, Eq, Structural)]
pub enum CellState {
    Empty,
    PowerUp { power_up: PowerUp },
    Wall,
    Owned { player_id: usize },
    Occupied { player_id: usize },
}

/// A cell: its fixed position in the grid and its current state.
#[derive(Debug, Copy, Clone, PartialEq, Eq, Structural)]
pub struct BoardCell {
    pub position: Position,
    pub state: CellState,
}

impl BoardCell {
    fn get_position(&self) -> (r: Position)
        ensures
            r == self.position,
    {
        self.position
    }

    pub fn get_state(&self) -> (r: CellState)
        ensures
            r == self.state,
    {
        self.state
    }

    fn set_state(&mut self, state: CellState)
        ensures
            final(self).position == old(self).position,
            final(self).state == state,
    {
        self.state = state;
    }
}

/// A board snapshot: dimensions, the row-major grid, and the two players.
#[derive(Debug)]
pub struct Board {
    width: usize,
    height: usize,
    cells: Vec<Vec<BoardCell>>,
    players: Vec<Player>,
}

/// True when two boards agree in every abstract part: dimensions, grid and
/// players. All move- and score-related spec values coincide then.
pub open spec fn parts_equal(a: Board, b: Board) -> bool {
    &&& a.grid() == b.grid()
    &&& a.players_seq() == b.players_seq()
    &&& a.spec_width() == b.spec_width()
    &&& a.spec_height() == b.spec_height()
}

/// One action, applied and resolved: `a` takes `pid` from `b0` to a legal
/// destination, and `b1` is exactly the board the transition returns.
pub open spec fn one_move_ok(b0: Board, pid: int, a: Action, b1: Board) -> bool {
    match b0.action_dest(pid, a) {
        Option::Some(d) => b0.move_ok_post(pid, d, b1),
        Option::None => false,
    }
}

/// True of cell states a bomb blast resets to `Empty`.
pub open spec fn clearable(s: CellState) -> bool {
    s is PowerUp || s is Wall || s is Owned
}

/// The grid with the state of the cell at `(row, col)` replaced; the cell's
/// position is kept.
pub open spec fn grid_set(
    g: Seq<Seq<BoardCell>>,
    row: int,
    col: int,
    s: CellState,
) -> Seq<Seq<BoardCell>> {
    g.update(row, g[row].update(col, BoardCell { position: g[row][col].position, state: s }))
}

/// True when `(i, j)` is one of the up-to-8 cells surrounding `center`
/// (diagonals included, the center itself excluded).
pub open spec fn is_neighbor(center: Position, i: int, j: int) -> bool {
    &&& center.row - 1 <= i <= center.row + 1
    &&& center.column - 1 <= j <= center.column + 1
    &&& !(i == center.row && j == center.column)
}

/// The grid after a bomb detonates at `center`: every neighboring cell that
/// held a power-up, a wall, or a trail is reset to `Empty`; occupied cells
/// and everything else are left untouched.
pub open spec fn grid_explode(g: Seq<Seq<BoardCell>>, center: Position) -> Seq<Seq<BoardCell>> {
    Seq::new(
        g.len(),
        |i: int|
            Seq::new(
                g[i].len(),
                |j: int|
                    if is_neighbor(center, i, j) && clearable(g[i][j].state) {
                        BoardCell { position: g[i][j].position, state: CellState::Empty }
                    } else {
                        g[i][j]
                    },
            ),
    )
}

/// The position a living player stands on (meaningless for a dead player).
pub open spec fn alive_position(s: PlayerState) -> Position {
    match s {
        PlayerState::Alive { position, .. } => position,
        PlayerState::Dead => Position { row: 0, column: 0 },
    }
}

/// The boost counter of a living player (meaningless for a dead player).
pub open spec fn alive_boost(s: PlayerState) -> usize {
    match s {
        PlayerState::Alive { boost, .. } => boost,
        PlayerState::Dead => 0,
    }
}

/// The armor counter of a living player (meaningless for a dead player).
pub open spec fn alive_armor(s: PlayerState) -> usize {
    match s {
        PlayerState::Alive { armor, .. } => armor,
        PlayerState::Dead => 0,
    }
}

/// The board invariant, over the board's abstract parts: the grid matches
/// the stated dimensions, every cell records its own coordinates, cells
/// reference only the two real players, and each living player stands on
/// exactly the `Occupied` cell at its recorded position while a dead player
/// has none.
pub open spec fn wf_parts(
    g: Seq<Seq<BoardCell>>,
    ps: Seq<Player>,
    width: usize,
    height: usize,
) -> bool {
    &&& 1 <= height <= isize::MAX
    &&& 1 <= width <= isize::MAX
    &&& g.len() == height
    &&& forall|i: int| 0 <= i < height ==> (#[trigger] g[i]).len() == width
    &&& forall|i: int, j: int|
        0 <= i < height && 0 <= j < width
            ==> (#[trigger] g[i][j]).position == (Position { row: i as usize, column: j as usize })
    &&& ps.len() == 2
    &&& forall|k: int| 0 <= k < 2 ==> (#[trigger] ps[k]).spec_id() == k
    &&& forall|i: int, j: int|
        0 <= i < height && 0 <= j < width ==> cell_refs_ok(g, ps, #[trigger] g[i][j].state, i, j)
    &&& forall|k: int| 0 <= k < 2 ==> player_placed_ok(g, #[trigger] ps[k], k, width, height)
}

/// Part of the board invariant: the ids a cell references are valid, and an
/// `Occupied` cell is the recorded position of that living player.
pub open spec fn cell_refs_ok(
    g: Seq<Seq<BoardCell>>,
    ps: Seq<Player>,
    s: CellState,
    i: int,
    j: int,
) -> bool {
    match s {
        CellState::Owned { player_id } => player_id < 2,
        CellState::Occupied { player_id } => {
            &&& player_id < 2
            &&& ps[player_id as int].spec_state() is Alive
            &&& alive_position(ps[player_id as int].spec_state()) == (Position {
                row: i as usize,
                column: j as usize,
            })
        },
        _ => true,
    }
}

/// Part of the board invariant: a living player's recorded position lies in
/// the grid and holds that player's `Occupied` cell.
pub open spec fn player_placed_ok(
    g: Seq<Seq<BoardCell>>,
    p: Player,
    k: int,
    width: usize,
    height: usize,
) -> bool {
    p.spec_state() is Alive ==> {
        let pos = alive_position(p.spec_state());
        &&& pos.row < height
        &&& pos.column < width
        &&& g[pos.row as int][pos.column as int].state == (CellState::Occupied {
            player_id: k as usize,
        })
    }
}

/// The decimal digit character for `d`.
pub open spec fn digit_char(d: int) -> char {
    if d == 0 {
        '0'
    } else if d == 1 {
        '1'
    } else if d == 2 {
        '2'
    } else if d == 3 {
        '3'
    } else if d == 4 {
        '4'
    } else if d == 5 {
        '5'
    } else if d == 6 {
        '6'
    } else if d == 7 {
        '7'
    } else if d == 8 {
        '8'
    } else {
        '9'
    }
}

/// The character the stable textual encoding gives one cell state: `*` for
/// empty, `S`/`A`/`B` for the power-ups, `#` for walls and trails alike, and
/// the last digit of the player id for an occupied cell.
pub open spec fn char_of_state(s: CellState) -> char {
    match s {
        CellState::Empty => '*',
        CellState::PowerUp { power_up } => match power_up {
            PowerUp::DoubleSpeed { .. } => 'S',
            PowerUp::Armor => 'A',
            PowerUp::Bomb => 'B',
        },
        CellState::Wall => '#',
        CellState::Owned { .. } => '#',
        CellState::Occupied { player_id } => digit_char(player_id as int % 10),
    }
}

/// One row of the encoding: a character per cell, then a newline.
pub open spec fn row_chars(row: Seq<BoardCell>) -> Seq<char> {
    Seq::new(
        row.len() + 1,
        |j: int| if j < row.len() {
            char_of_state(row[j].state)
        } else {
            '\n'
        },
    )
}

/// The whole grid's encoding, row-major.
pub open spec fn encoding_of(g: Seq<Seq<BoardCell>>) -> Seq<char>
    decreases g.len(),
{
    if g.len() == 0 {
        Seq::empty()
    } else {
        encoding_of(g.drop_last()) + row_chars(g.last())
    }
}

/// Returns the decimal digit character for `d`.
fn digit_char_exec(d: usize) -> (r: char)
    requires
        d < 10,
    ensures
        r == digit_char(d as int),
{
    if d == 0 {
        '0'
    } else if d == 1 {
        '1'
    } else if d == 2 {
        '2'
    } else if d == 3 {
        '3'
    } else if d == 4 {
        '4'
    } else if d == 5 {
        '5'
    } else if d == 6 {
        '6'
    } else if d == 7 {
        '7'
    } else if d == 8 {
        '8'
    } else {
        '9'
    }
}

/// Returns the encoding character of one cell state.
fn state_char(s: CellState) -> (r: char)
    ensures
        r == char_of_state(s),
{
    match s {
        CellState::Empty => '*',
        CellState::PowerUp { power_up } => match power_up {
            PowerUp::DoubleSpeed { .. } => 'S',
            PowerUp::Armor => 'A',
            PowerUp::Bomb => 'B',
        },
        CellState::Wall => '#',
        CellState::Owned { .. } => '#',
        CellState::Occupied { player_id } => digit_char_exec(player_id % 10),
    }
}

/// Relies on `String`'s `FromIterator` over `char`: the collected string
/// holds exactly the characters of the vector, in order.
#[verifier::external_body]
fn chars_to_string(v: &Vec<char>) -> (r: String)
    ensures
        r@ == v@,
{
    v.iter().collect()
}

/// The state the default constructor gives the cell at `(i, j)`.
pub open spec fn initial_cell_state(height: usize, width: usize, i: int, j: int) -> CellState {
    if i == 0 && j == 0 {
        CellState::Occupied { player_id: 0 }
    } else if i == height - 1 && j == width - 1 {
        CellState::Occupied { player_id: 1 }
    } else {
        CellState::Empty
    }
}

impl Board {
    /// Spec view of the board's width.
    pub closed spec fn spec_width(self) -> usize {
        self.width
    }

    /// Spec view of the board's height.
    pub closed spec fn spec_height(self) -> usize {
        self.height
    }

    /// Spec view of the grid, row-major.
    pub closed spec fn grid(self) -> Seq<Seq<BoardCell>> {
        self.cells@.map_values(|row: Vec<BoardCell>| row@)
    }

    /// Spec view of the player roster, indexed by player id.
    pub closed spec fn players_seq(self) -> Seq<Player> {
        self.players@
    }

    /// The board invariant.
    pub open spec fn wf(self) -> bool {
        wf_parts(self.grid(), self.players_seq(), self.spec_width(), self.spec_height())
    }

    /// The state of the cell at `(row, col)`.
    pub open spec fn state_at(self, row: int, col: int) -> CellState {
        self.grid()[row][col].state
    }

    /// True when the position lies within the grid's extent.
    pub open spec fn in_grid(self, p: Position) -> bool {
        p.row < self.spec_height() && p.column < self.spec_width()
    }

    /// A fresh board: all cells empty but the two players seeded at the
    /// opposite corners, already standing on their cells. Fails when a
    /// dimension is zero, or when the board is a single cell so that the two
    /// corners would coincide.
    pub fn new_default(height: usize, width: usize) -> (r: Result<Self, ()>)
        requires
            height <= isize::MAX,
            width <= isize::MAX,
        ensures
            r is Err <==> (height == 0 || width == 0 || (height == 1 && width == 1)),
            r matches Ok(b) ==> {
                &&& b.wf()
                &&& b.spec_height() == height
                &&& b.spec_width() == width
                &&& forall|i: int, j: int|
                    0 <= i < height && 0 <= j < width
                        ==> b.state_at(i, j) == initial_cell_state(height, width, i, j)
                &&& b.players_seq()[0].spec_state() == (PlayerState::Alive {
                    position: Position { row: 0, column: 0 },
                    boost: 0,
                    armor: 0,
                })
                &&& b.players_seq()[1].spec_state() == (PlayerState::Alive {
                    position: Position { row: (height - 1) as usize, column: (width - 1) as usize },
                    boost: 0,
                    armor: 0,
                })
            },
    {
        if height == 0 || width == 0 || (height == 1 && width == 1) {
            return Err(());
        }
        let mut cells: Vec<Vec<BoardCell>> = Vec::new();
        let mut i_row: usize = 0;
        while i_row < height
            invariant
                i_row <= height,
                height >= 1,
                width >= 1,
                !(height == 1 && width == 1),
                cells@.len() == i_row,
                forall|i: int| 0 <= i < i_row ==> (#[trigger] cells@[i])@.len() == width,
                forall|i: int, j: int|
                    0 <= i < i_row && 0 <= j < width
                        ==> (#[trigger] cells@[i]@[j]) == (BoardCell {
                            position: Position { row: i as usize, column: j as usize },
                            state: initial_cell_state(height, width, i, j),
                        }),
            decreases height - i_row,
        {
            let mut row: Vec<BoardCell> = Vec::new();
            let mut i_col: usize = 0;
            while i_col < width
                invariant
                    i_col <= width,
                    i_row < height,
                    row@.len() == i_col,
                    forall|j: int|
                        0 <= j < i_col
                            ==> (#[trigger] row@[j]) == (BoardCell {
                                position: Position { row: i_row as usize, column: j as usize },
                                state: initial_cell_state(height, width, i_row as int, j),
                            }),
                decreases width - i_col,
            {
                let position = Position { row: i_row, column: i_col };
                let state = if i_row == 0 && i_col == 0 {
                    CellState::Occupied { player_id: 0 }
                } else if i_row == height - 1 && i_col == width - 1 {
                    CellState::Occupied { player_id: 1 }
                } else {
                    CellState::Empty
                };
                row.push(BoardCell { position, state });
                i_col = i_col + 1;
            }
            cells.push(row);
            i_row = i_row + 1;
        }
        let mut players: Vec<Player> = Vec::new();
        players.push(Player::new(0, Position::new(0, 0)));
        players.push(Player::new(1, Position::new(height - 1, width - 1)));
        let b = Board { width, height, cells, players };
        proof {
            assert forall|i: int, j: int| 0 <= i < height && 0 <= j < width implies cell_refs_ok(
                b.grid(),
                b.players_seq(),
                #[trigger] b.grid()[i][j].state,
                i,
                j,
            ) by {
                assert(b.grid()[i][j].state == initial_cell_state(height, width, i, j));
            }
        }
        Ok(b)
    }

    pub fn height(&self) -> (r: usize)
        ensures
            r == self.spec_height(),
    {
        self.height
    }

    pub fn width(&self) -> (r: usize)
        ensures
            r == self.spec_width(),
    {
        self.width
    }

    pub fn players(&self) -> (r: &Vec<Player>)
        ensures
            r@ == self.players_seq(),
    {
        &self.players
    }

    /// Looks a cell up; fails exactly when the position lies outside the
    /// grid's actual extent.
    pub fn get_cell(&self, position: Position) -> (r: Result<&BoardCell, ()>)
        ensures
            r is Ok <==> (position.row < self.grid().len() && position.column < self.grid()[
                position.row as int
            ].len()),
            r matches Ok(c) ==> *c == self.grid()[position.row as int][position.column as int],
    {
        match self.cells.get(position.row) {
            None => Err(()),
            Some(row) => {
                match row.get(position.column) {
                    None => Err(()),
                    Some(cell) => Ok(cell),
                }
            },
        }
    }

    /// Replaces the state of one cell. This is the board's only update path;
    /// it fails exactly when the position lies outside the grid.
    fn update_cell_state(&mut self, position: Position, state: CellState) -> (r: Result<(), ()>)
        ensures
            final(self).spec_width() == old(self).spec_width(),
            final(self).spec_height() == old(self).spec_height(),
            final(self).players_seq() == old(self).players_seq(),
            r is Ok <==> (position.row < old(self).grid().len() && position.column < old(
                self,
            ).grid()[position.row as int].len()),
            r is Ok ==> final(self).grid() == grid_set(
                old(self).grid(),
                position.row as int,
                position.column as int,
                state,
            ),
            r is Err ==> final(self).grid() == old(self).grid(),
    {
        if position.row < self.cells.len() {
            let row_len = self.cells[position.row].len();
            if position.column < row_len {
                self.cells[position.row][position.column].set_state(state);
                proof {
                    assert(final(self).grid() =~= grid_set(
                        old(self).grid(),
                        position.row as int,
                        position.column as int,
                        state,
                    ));
                }
                return Ok(());
            }
        }
        proof {
            assert(final(self).grid() =~= old(self).grid());
        }
        Err(())
    }

    /// A deep copy: the new board's parts equal this board's.
    pub(crate) fn duplicate(&self) -> (r: Board)
        ensures
            r.spec_width() == self.spec_width(),
            r.spec_height() == self.spec_height(),
            r.grid() == self.grid(),
            r.players_seq() == self.players_seq(),
    {
        let mut cells: Vec<Vec<BoardCell>> = Vec::new();
        let mut i: usize = 0;
        while i < self.cells.len()
            invariant
                i <= self.cells@.len(),
                cells@.len() == i,
                forall|k: int| 0 <= k < i ==> (#[trigger] cells@[k])@ == self.cells@[k]@,
            decreases self.cells@.len() - i,
        {
            let src_row = &self.cells[i];
            let mut row: Vec<BoardCell> = Vec::new();
            let mut j: usize = 0;
            while j < src_row.len()
                invariant
                    j <= src_row@.len(),
                    row@.len() == j,
                    forall|k: int| 0 <= k < j ==> row@[k] == src_row@[k],
            decreases src_row@.len() - j,
            {
                row.push(src_row[j]);
                j = j + 1;
            }
            proof {
                assert(row@ =~= src_row@);
            }
            cells.push(row);
            i = i + 1;
        }
        let mut players: Vec<Player> = Vec::new();
        let mut k: usize = 0;
        while k < self.players.len()
            invariant
                k <= self.players@.len(),
                players@.len() == k,
                forall|m: int| 0 <= m < k ==> players@[m] == self.players@[m],
            decreases self.players@.len() - k,
        {
            players.push(self.players[k]);
            k = k + 1;
        }
        let r = Board { width: self.width, height: self.height, cells, players };
        proof {
            assert(r.players_seq() =~= self.players_seq());
            assert(r.grid() =~~= self.grid());
        }
        r
    }
}

/// The row and column deltas of the `m`-th cell surrounding a bomb.
pub open spec fn bomb_delta(m: int) -> (int, int) {
    if m == 0 {
        (-1, -1)
    } else if m == 1 {
        (-1, 0)
    } else if m == 2 {
        (-1, 1)
    } else if m == 3 {
        (0, -1)
    } else if m == 4 {
        (0, 1)
    } else if m == 5 {
        (1, -1)
    } else if m == 6 {
        (1, 0)
    } else {
        (1, 1)
    }
}

/// True when the `m`-th blast offset from `center` lands on `(i, j)`.
pub open spec fn delta_hits(center: Position, m: int, i: int, j: int) -> bool {
    center.row + bomb_delta(m).0 == i && center.column + bomb_delta(m).1 == j
}

/// The 8 blast offsets land exactly on the neighbors of `center`.
proof fn lemma_neighbor_deltas(center: Position, i: int, j: int)
    ensures
        is_neighbor(center, i, j) <==> exists|m: int| 0 <= m < 8 && delta_hits(center, m, i, j),
{
    if is_neighbor(center, i, j) {
        let r = center.row as int;
        let c = center.column as int;
        if i == r - 1 && j == c - 1 {
            assert(delta_hits(center, 0, i, j));
        } else if i == r - 1 && j == c {
            assert(delta_hits(center, 1, i, j));
        } else if i == r - 1 && j == c + 1 {
            assert(delta_hits(center, 2, i, j));
        } else if i == r && j == c - 1 {
            assert(delta_hits(center, 3, i, j));
        } else if i == r && j == c + 1 {
            assert(delta_hits(center, 4, i, j));
        } else if i == r + 1 && j == c - 1 {
            assert(delta_hits(center, 5, i, j));
        } else if i == r + 1 && j == c {
            assert(delta_hits(center, 6, i, j));
        } else {
            assert(delta_hits(center, 7, i, j));
        }
    }
}

/// Returns the `m`-th blast offset as machine integers.
fn bomb_delta_exec(m: usize) -> (r: (isize, isize))
    requires
        m < 8,
    ensures
        r.0 as int == bomb_delta(m as int).0,
        r.1 as int == bomb_delta(m as int).1,
{
    if m == 0 {
        (-1, -1)
    } else if m == 1 {
        (-1, 0)
    } else if m == 2 {
        (-1, 1)
    } else if m == 3 {
        (0, -1)
    } else if m == 4 {
        (0, 1)
    } else if m == 5 {
        (1, -1)
    } else if m == 6 {
        (1, 0)
    } else {
        (1, 1)
    }
}

impl Board {
    /// The acting player's position before the move (the player is alive).
    pub open spec fn origin_of(self, pid: int) -> Position {
        alive_position(self.players_seq()[pid].spec_state())
    }

    /// The grid after step one of a move: the origin cell becomes the
    /// mover's trail.
    pub open spec fn grid_trailed(self, pid: int) -> Seq<Seq<BoardCell>> {
        grid_set(
            self.grid(),
            self.origin_of(pid).row as int,
            self.origin_of(pid).column as int,
            CellState::Owned { player_id: pid as usize },
        )
    }

    /// The destination cell's state as the move finds it: after the origin
    /// was marked as trail, before any effect is resolved.
    pub open spec fn dest_prior(self, pid: int, dest: Position) -> CellState {
        self.grid_trailed(pid)[dest.row as int][dest.column as int].state
    }

    /// Whether the mover is still alive once the destination's effect is
    /// resolved: walking into a wall or a trail is survived only with armor,
    /// and walking into another player kills unconditionally.
    pub open spec fn survives(self, pid: int, dest: Position) -> bool {
        match self.dest_prior(pid, dest) {
            CellState::Empty => true,
            CellState::PowerUp { .. } => true,
            CellState::Wall => alive_armor(self.players_seq()[pid].spec_state()) > 0,
            CellState::Owned { .. } => alive_armor(self.players_seq()[pid].spec_state()) > 0,
            CellState::Occupied { .. } => false,
        }
    }

    /// True when picking the destination's power-up cannot overflow the
    /// mover's counters; a move that would overflow them is invalid.
    pub open spec fn counters_ok(self, pid: int, dest: Position) -> bool {
        match self.dest_prior(pid, dest) {
            CellState::PowerUp { power_up } => match power_up {
                PowerUp::DoubleSpeed { duration } => alive_boost(
                    self.players_seq()[pid].spec_state(),
                ) + duration <= usize::MAX,
                PowerUp::Armor => alive_armor(self.players_seq()[pid].spec_state()) + 1
                    <= usize::MAX,
                PowerUp::Bomb => true,
            },
            _ => true,
        }
    }

    /// The mover's state after the move: at the destination with its
    /// counters adjusted by the destination's prior state, or dead.
    pub open spec fn player_after(self, pid: int, dest: Position) -> PlayerState {
        let s = self.players_seq()[pid].spec_state();
        let boost = alive_boost(s);
        let armor = alive_armor(s);
        match self.dest_prior(pid, dest) {
            CellState::Empty => PlayerState::Alive { position: dest, boost, armor },
            CellState::PowerUp { power_up } => match power_up {
                PowerUp::DoubleSpeed { duration } => PlayerState::Alive {
                    position: dest,
                    boost: (boost + duration) as usize,
                    armor,
                },
                PowerUp::Armor => PlayerState::Alive {
                    position: dest,
                    boost,
                    armor: (armor + 1) as usize,
                },
                PowerUp::Bomb => PlayerState::Alive { position: dest, boost, armor },
            },
            CellState::Wall => if armor > 0 {
                PlayerState::Alive { position: dest, boost, armor: (armor - 1) as usize }
            } else {
                PlayerState::Dead
            },
            CellState::Owned { .. } => if armor > 0 {
                PlayerState::Alive { position: dest, boost, armor: (armor - 1) as usize }
            } else {
                PlayerState::Dead
            },
            CellState::Occupied { .. } => PlayerState::Dead,
        }
    }

    /// The grid after the destination's effect is resolved: a bomb clears
    /// the surrounding cells, everything else leaves the grid as the trail
    /// step left it.
    pub open spec fn grid_after_effects(self, pid: int, dest: Position) -> Seq<Seq<BoardCell>> {
        if self.dest_prior(pid, dest) == (CellState::PowerUp { power_up: PowerUp::Bomb }) {
            grid_explode(self.grid_trailed(pid), dest)
        } else {
            self.grid_trailed(pid)
        }
    }

    /// The final grid of a successful move: if the mover survived, it now
    /// occupies the destination; if it died, the destination keeps whatever
    /// state the effects left it in.
    pub open spec fn grid_after(self, pid: int, dest: Position) -> Seq<Seq<BoardCell>> {
        if self.player_after(pid, dest) is Alive {
            grid_set(
                self.grid_after_effects(pid, dest),
                dest.row as int,
                dest.column as int,
                CellState::Occupied { player_id: pid as usize },
            )
        } else {
            self.grid_after_effects(pid, dest)
        }
    }

    /// Exactly when a move to `dest` is rejected: the mover is already
    /// dead, the destination lies outside the grid, or picking the
    /// destination's power-up would overflow a counter.
    pub open spec fn move_fails(self, pid: int, dest: Position) -> bool {
        ||| self.players_seq()[pid].spec_state() is Dead
        ||| !self.in_grid(dest)
        ||| !self.counters_ok(pid, dest)
    }

    /// What a successful move guarantees of the board it returns.
    pub open spec fn move_ok_post(self, pid: int, dest: Position, nb: Board) -> bool {
        &&& nb.wf()
        &&& nb.spec_width() == self.spec_width()
        &&& nb.spec_height() == self.spec_height()
        &&& nb.grid() == self.grid_after(pid, dest)
        &&& nb.players_seq().len() == 2
        &&& nb.players_seq()[pid].spec_id() == pid
        &&& nb.players_seq()[pid].spec_state() == self.player_after(pid, dest)
        &&& forall|k: int| 0 <= k < 2 && k != pid ==> nb.players_seq()[k] == self.players_seq()[k]
    }

    /// Where an action takes the acting player: `None` when a coordinate
    /// would become negative.
    pub open spec fn action_dest(self, pid: int, a: Action) -> Option<Position> {
        let p = self.origin_of(pid);
        let d = action_delta(a);
        if p.row + d.0 < 0 || p.column + d.1 < 0 {
            Option::None
        } else {
            Option::Some(
                Position { row: (p.row + d.0) as usize, column: (p.column + d.1) as usize },
            )
        }
    }

    /// Resets every cell around `position` that held a power-up, a wall, or
    /// a trail to `Empty`; occupied and out-of-grid neighbors are left
    /// untouched.
    #[verifier::loop_isolation(false)]
    fn explode_around(&mut self, position: Position)
        requires
            old(self).grid().len() == old(self).spec_height(),
            forall|i: int|
                0 <= i < old(self).spec_height() ==> (#[trigger] old(self).grid()[i]).len() == old(
                    self,
                ).spec_width(),
            1 <= old(self).spec_height() <= isize::MAX,
            1 <= old(self).spec_width() <= isize::MAX,
            position.row < old(self).spec_height(),
            position.column < old(self).spec_width(),
        ensures
            final(self).spec_width() == old(self).spec_width(),
            final(self).spec_height() == old(self).spec_height(),
            final(self).players_seq() == old(self).players_seq(),
            final(self).grid() == grid_explode(old(self).grid(), position),
    {
        let ghost h = old(self).spec_height() as int;
        let ghost w = old(self).spec_width() as int;
        let mut m: usize = 0;
        while m < 8
            invariant
                m <= 8,
                self.spec_width() == old(self).spec_width(),
                self.spec_height() == old(self).spec_height(),
                self.players_seq() == old(self).players_seq(),
                self.grid().len() == old(self).grid().len(),
                forall|i: int|
                    0 <= i < h ==> (#[trigger] self.grid()[i]).len() == old(self).grid()[i].len(),
                forall|i: int, j: int|
                    0 <= i < h && 0 <= j < w ==> #[trigger] self.grid()[i][j] == (if (exists|n: int|
                        0 <= n < m && delta_hits(position, n, i, j)) && clearable(
                        old(self).grid()[i][j].state,
                    ) {
                        BoardCell { position: old(self).grid()[i][j].position, state: CellState::Empty }
                    } else {
                        old(self).grid()[i][j]
                    }),
            decreases 8 - m,
        {
            let d = bomb_delta_exec(m);
            match position.offset(d.0, d.1) {
                Ok(p) => {
                    let ghost prev = self.grid();
                    let _ = self.explode_cell(p);
                    proof {
                        assert forall|i: int, j: int| 0 <= i < h && 0 <= j < w implies #[trigger] self.grid()[i][j]
                            == (if (exists|n: int| 0 <= n < m + 1 && delta_hits(position, n, i, j))
                                && clearable(old(self).grid()[i][j].state) {
                            BoardCell {
                                position: old(self).grid()[i][j].position,
                                state: CellState::Empty,
                            }
                        } else {
                            old(self).grid()[i][j]
                        }) by {
                            if i == p.row && j == p.column {
                                assert(delta_hits(position, m as int, i, j));
                            } else {
                                assert(self.grid()[i][j] == prev[i][j]);
                                assert forall|n: int|
                                    0 <= n < m + 1 && delta_hits(position, n, i, j) implies n
                                    < m by {
                                    if n == m {
                                        assert(i == p.row && j == p.column);
                                    }
                                }
                            }
                        }
                    }
                },
                Err(_) => {
                    proof {
                        assert forall|n: int, i: int, j: int|
                            0 <= n < m + 1 && 0 <= i < h && 0 <= j < w && delta_hits(
                                position,
                                n,
                                i,
                                j,
                            ) implies n < m by {}
                    }
                },
            }
            m = m + 1;
        }
        proof {
            assert forall|i: int, j: int| 0 <= i < h && 0 <= j < w implies self.grid()[i][j]
                == grid_explode(old(self).grid(), position)[i][j] by {
                lemma_neighbor_deltas(position, i, j);
            }
            assert(self.grid() =~~= grid_explode(old(self).grid(), position));
        }
    }

    /// A successful move preserves the board invariant.
    proof fn lemma_move_wf(self, pid: int, dest: Position, np: Player)
        requires
            self.wf(),
            0 <= pid < 2,
            self.players_seq()[pid].spec_state() is Alive,
            self.in_grid(dest),
            np.spec_id() == pid,
            np.spec_state() == self.player_after(pid, dest),
        ensures
            wf_parts(
                self.grid_after(pid, dest),
                self.players_seq().update(pid, np),
                self.spec_width(),
                self.spec_height(),
            ),
    {
        let w = self.spec_width();
        let h = self.spec_height();
        let g0 = self.grid();
        let ps0 = self.players_seq();
        let origin = self.origin_of(pid);
        let g1 = self.grid_trailed(pid);
        let g2 = self.grid_after_effects(pid, dest);
        let gf = self.grid_after(pid, dest);
        let psf = ps0.update(pid, np);
        assert(origin.row < h && origin.column < w);
        assert(g0[origin.row as int][origin.column as int].state == (CellState::Occupied {
            player_id: pid as usize,
        }));
        // dimensions and cell positions carry through each step
        assert(gf.len() == h);
        assert forall|i: int| 0 <= i < h implies (#[trigger] gf[i]).len() == w by {
            assert(g1[i].len() == w);
            assert(g2[i].len() == w);
        }
        assert forall|i: int, j: int| 0 <= i < h && 0 <= j < w implies (#[trigger] gf[i][j]).position
            == (Position { row: i as usize, column: j as usize }) by {
            assert(g1[i][j].position == g0[i][j].position);
            assert(g2[i][j].position == g1[i][j].position);
        }
        // every cell still references valid players, consistently
        assert forall|i: int, j: int| 0 <= i < h && 0 <= j < w implies cell_refs_ok(
            gf,
            psf,
            #[trigger] gf[i][j].state,
            i,
            j,
        ) by {
            let sf = gf[i][j].state;
            if self.player_after(pid, dest) is Alive && i == dest.row && j == dest.column {
                assert(sf == (CellState::Occupied { player_id: pid as usize }));
                assert(alive_position(np.spec_state()) == dest);
            } else if sf == g1[i][j].state {
                if i == origin.row && j == origin.column {
                    assert(sf == (CellState::Owned { player_id: pid as usize }));
                } else {
                    assert(sf == g0[i][j].state);
                    assert(cell_refs_ok(g0, ps0, sf, i, j));
                    match sf {
                        CellState::Occupied { player_id: q } => {
                            assert(alive_position(ps0[q as int].spec_state()) == (Position {
                                row: i as usize,
                                column: j as usize,
                            }));
                            assert(q != pid as usize) by {
                                if q == pid as usize {
                                    assert(origin == (Position {
                                        row: i as usize,
                                        column: j as usize,
                                    }));
                                }
                            }
                            assert(psf[q as int] == ps0[q as int]);
                        },
                        _ => {},
                    }
                }
            } else {
                // cleared by the blast, or the occupied destination
                assert(sf is Empty || sf == (CellState::Occupied { player_id: pid as usize }));
            }
        }
        // each living player still stands on its own cell
        assert forall|k: int| 0 <= k < 2 implies player_placed_ok(gf, #[trigger] psf[k], k, w, h) by {
            if k == pid {
                if np.spec_state() is Alive {
                    assert(alive_position(np.spec_state()) == dest);
                    assert(self.player_after(pid, dest) is Alive);
                    assert(gf[dest.row as int][dest.column as int].state == (CellState::Occupied {
                        player_id: pid as usize,
                    }));
                }
            } else {
                assert(psf[k] == ps0[k]);
                if ps0[k].spec_state() is Alive {
                    let pos = alive_position(ps0[k].spec_state());
                    assert(player_placed_ok(g0, ps0[k], k, w, h));
                    assert(g0[pos.row as int][pos.column as int].state == (CellState::Occupied {
                        player_id: k as usize,
                    }));
                    // the other player's cell is not the mover's origin
                    assert(!(pos.row == origin.row && pos.column == origin.column)) by {
                        if pos.row == origin.row && pos.column == origin.column {
                            assert(g0[pos.row as int][pos.column as int].state
                                == (CellState::Occupied { player_id: pid as usize }));
                        }
                    }
                    assert(g1[pos.row as int][pos.column as int].state == (CellState::Occupied {
                        player_id: k as usize,
                    }));
                    assert(g2[pos.row as int][pos.column as int].state == (CellState::Occupied {
                        player_id: k as usize,
                    }));
                    if self.player_after(pid, dest) is Alive && pos.row == dest.row && pos.column
                        == dest.column {
                        assert(self.dest_prior(pid, dest) == (CellState::Occupied {
                            player_id: k as usize,
                        }));
                        assert(!self.survives(pid, dest));
                        assert(false);
                    }
                    assert(gf[pos.row as int][pos.column as int].state == (CellState::Occupied {
                        player_id: k as usize,
                    }));
                }
            }
        }
    }

    /// Moves the player to `destination`, resolving trails, power-ups,
    /// damage and collisions, and returns the resulting board; this board
    /// is left untouched. Fails exactly when the player is dead, the
    /// destination lies outside the grid, or picking the destination's
    /// power-up would overflow a counter — that last case is a machine
    /// limit, rejected here rather than wrapped around.
    pub fn move_player(&self, player_id: usize, destination: Position) -> (r: Result<Self, ()>)
        requires
            self.wf(),
            player_id < 2,
        ensures
            r is Err <==> self.move_fails(player_id as int, destination),
            r matches Ok(nb) ==> self.move_ok_post(player_id as int, destination, nb),
    {
        let ghost pid = player_id as int;
        let mut new_board = self.duplicate();
        let mut player = new_board.players[player_id];
        match player.get_state() {
            PlayerState::Alive { position, boost, armor } => {
                match new_board.update_cell_state(position, CellState::Owned { player_id }) {
                    Ok(_) => {},
                    Err(_) => {
                        return Err(());
                    },
                }
                player.set_state(PlayerState::Alive { position: destination, boost, armor });
            },
            PlayerState::Dead => {
                return Err(());
            },
        }
        proof {
            assert(new_board.grid() == self.grid_trailed(pid));
        }
        let to_state = match new_board.get_cell(destination) {
            Ok(cell) => cell.get_state(),
            Err(_) => {
                return Err(());
            },
        };
        proof {
            assert(self.in_grid(destination));
            assert(to_state == self.dest_prior(pid, destination));
        }
        match to_state {
            CellState::Empty => {},
            CellState::PowerUp { power_up } => {
                match power_up {
                    PowerUp::DoubleSpeed { duration } => {
                        let boost_now = match player.get_state() {
                            PlayerState::Alive { boost, .. } => boost,
                            PlayerState::Dead => 0,
                        };
                        if usize::MAX - boost_now < duration {
                            return Err(());
                        }
                        player.speed_boost(duration).unwrap();
                    },
                    PowerUp::Armor => {
                        let armor_now = match player.get_state() {
                            PlayerState::Alive { armor, .. } => armor,
                            PlayerState::Dead => 0,
                        };
                        if armor_now == usize::MAX {
                            return Err(());
                        }
                        player.armor_up().unwrap();
                    },
                    PowerUp::Bomb => {
                        new_board.explode_around(destination);
                    },
                }
            },
            CellState::Wall => {
                player.take_damage().unwrap();
            },
            CellState::Owned { .. } => {
                player.take_damage().unwrap();
            },
            CellState::Occupied { .. } => {
                player.set_state(PlayerState::Dead);
            },
        }
        proof {
            assert(new_board.grid() == self.grid_after_effects(pid, destination));
            assert(player.spec_state() == self.player_after(pid, destination));
        }
        match player.get_state() {
            PlayerState::Alive { .. } => {
                match new_board.update_cell_state(
                    destination,
                    CellState::Occupied { player_id },
                ) {
                    Ok(_) => {},
                    Err(_) => {
                        return Err(());
                    },
                }
            },
            PlayerState::Dead => {},
        }
        new_board.players[player_id] = player;
        proof {
            assert(new_board.grid() == self.grid_after(pid, destination));
            assert(new_board.players_seq() == self.players_seq().update(pid, player));
            self.lemma_move_wf(pid, destination, player);
        }
        Ok(new_board)
    }

    /// Applies one of the four directional actions for the given player and
    /// returns the resulting board; this board is left untouched. Fails
    /// exactly when the player is dead, the destination would have a
    /// negative coordinate or lie outside the grid, or a counter would
    /// overflow.
    pub fn apply_action(&self, player_id: usize, action: Action) -> (r: Result<Board, ()>)
        requires
            self.wf(),
            player_id < 2,
        ensures
            r is Err <==> (self.players_seq()[player_id as int].spec_state() is Dead
                || self.action_dest(player_id as int, action) is None || (self.action_dest(
                player_id as int,
                action,
            ) matches Some(d) && self.move_fails(player_id as int, d))),
            r matches Ok(nb) ==> (self.action_dest(player_id as int, action) matches Some(d)
                && self.move_ok_post(player_id as int, d, nb)),
    {
        let player_position = match self.players[player_id].get_state() {
            PlayerState::Alive { position, boost: _, armor: _ } => position,
            PlayerState::Dead => {
                return Err(());
            },
        };
        let position_result = action.offset_position(&player_position);
        let new_position = match position_result {
            Ok(position) => position,
            Err(err) => {
                return Err(err);
            },
        };
        self.move_player(player_id, new_position)
    }

    /// The stable textual encoding of the board: one character per cell,
    /// row-major, each row terminated by a newline. Used for display and as
    /// a stable rendering of a board snapshot.
    pub fn encode(&self) -> (r: String)
        ensures
            r@ == encoding_of(self.grid()),
    {
        let mut chars: Vec<char> = Vec::new();
        let mut i: usize = 0;
        while i < self.cells.len()
            invariant
                i <= self.cells@.len(),
                chars@ == encoding_of(self.grid().take(i as int)),
            decreases self.cells@.len() - i,
        {
            let row = &self.cells[i];
            let mut j: usize = 0;
            while j < row.len()
                invariant
                    j <= row@.len(),
                    i < self.cells@.len(),
                    row@ == self.grid()[i as int],
                    chars@ == encoding_of(self.grid().take(i as int)) + row_chars(row@).take(
                        j as int,
                    ),
                decreases row@.len() - j,
            {
                chars.push(state_char(row[j].get_state()));
                proof {
                    assert(row_chars(row@).take(j + 1) =~= row_chars(row@).take(j as int).push(
                        char_of_state(row@[j as int].state),
                    ));
                }
                j = j + 1;
            }
            chars.push('\n');
            proof {
                assert(row_chars(row@) =~= row_chars(row@).take(row@.len() as int).push('\n'));
                let g1 = self.grid().take(i + 1);
                assert(g1.drop_last() =~= self.grid().take(i as int));
                assert(g1.last() == self.grid()[i as int]);
                assert(chars@ =~= encoding_of(self.grid().take(i + 1)));
            }
            i = i + 1;
        }
        proof {
            assert(self.grid().take(self.grid().len() as int) =~= self.grid());
        }
        chars_to_string(&chars)
    }

    /// Returns a copy of this board with one cell's state replaced, for
    /// setting a scene up: walls, trails and power-ups. Fails when the
    /// position lies outside the grid or when the change would break the
    /// board invariant: the new state may not be `Occupied`, a living
    /// player's cell may not be overwritten, and a trail must name a real
    /// player.
    pub fn with_cell_state(&self, position: Position, state: CellState) -> (r: Result<Board, ()>)
        requires
            self.wf(),
        ensures
            r is Err <==> (!self.in_grid(position) || state is Occupied || self.state_at(
                position.row as int,
                position.column as int,
            ) is Occupied || (state matches CellState::Owned { player_id } && player_id >= 2)),
            r matches Ok(nb) ==> {
                &&& nb.wf()
                &&& nb.spec_width() == self.spec_width()
                &&& nb.spec_height() == self.spec_height()
                &&& nb.players_seq() == self.players_seq()
                &&& nb.grid() == grid_set(
                    self.grid(),
                    position.row as int,
                    position.column as int,
                    state,
                )
            },
    {
        if position.row >= self.height || position.column >= self.width {
            return Err(());
        }
        match state {
            CellState::Occupied { .. } => {
                return Err(());
            },
            CellState::Owned { player_id } => {
                if player_id >= 2 {
                    return Err(());
                }
            },
            _ => {},
        }
        let old_state = match self.get_cell(position) {
            Ok(cell) => cell.get_state(),
            Err(_) => {
                return Err(());
            },
        };
        match old_state {
            CellState::Occupied { .. } => {
                return Err(());
            },
            _ => {},
        }
        let mut nb = self.duplicate();
        let res = nb.update_cell_state(position, state);
        proof {
            let i = position.row as int;
            let j = position.column as int;
            let w = self.spec_width();
            let h = self.spec_height();
            let gf = grid_set(self.grid(), i, j, state);
            assert forall|a: int, b: int| 0 <= a < h && 0 <= b < w implies cell_refs_ok(
                gf,
                self.players_seq(),
                #[trigger] gf[a][b].state,
                a,
                b,
            ) by {
                if !(a == i && b == j) {
                    assert(gf[a][b].state == self.grid()[a][b].state);
                    assert(cell_refs_ok(self.grid(), self.players_seq(), gf[a][b].state, a, b));
                }
            }
            assert forall|k: int| 0 <= k < 2 implies player_placed_ok(
                gf,
                #[trigger] self.players_seq()[k],
                k,
                w,
                h,
            ) by {
                let p = self.players_seq()[k];
                if p.spec_state() is Alive {
                    let pos = alive_position(p.spec_state());
                    assert(player_placed_ok(self.grid(), p, k, w, h));
                    assert(!(pos.row == position.row && pos.column == position.column));
                }
            }
        }
        Ok(nb)
    }

    /// Compares two boards by value: dimensions, every cell, every player.
    #[verifier::loop_isolation(false)]
    pub fn same_as(&self, other: &Board) -> (r: bool)
        ensures
            r <==> (self.spec_width() == other.spec_width() && self.spec_height()
                == other.spec_height() && self.grid() == other.grid() && self.players_seq()
                == other.players_seq()),
    {
        if self.width != other.width || self.height != other.height {
            return false;
        }
        if self.players.len() != other.players.len() {
            return false;
        }
        let mut k: usize = 0;
        while k < self.players.len()
            invariant
                k <= self.players@.len(),
                self.players@.len() == other.players@.len(),
                forall|m: int| 0 <= m < k ==> self.players@[m] == other.players@[m],
            decreases self.players@.len() - k,
        {
            if self.players[k] != other.players[k] {
                proof {
                    assert(self.players_seq()[k as int] != other.players_seq()[k as int]);
                }
                return false;
            }
            k = k + 1;
        }
        proof {
            assert(self.players_seq() =~= other.players_seq());
        }
        if self.cells.len() != other.cells.len() {
            proof {
                assert(self.grid().len() != other.grid().len());
            }
            return false;
        }
        let mut i: usize = 0;
        while i < self.cells.len()
            invariant
                i <= self.cells@.len(),
                self.cells@.len() == other.cells@.len(),
                forall|m: int| 0 <= m < i ==> (#[trigger] self.grid()[m]) == other.grid()[m],
            decreases self.cells@.len() - i,
        {
            let row_a = &self.cells[i];
            let row_b = &other.cells[i];
            if row_a.len() != row_b.len() {
                proof {
                    assert(self.grid()[i as int].len() != other.grid()[i as int].len());
                }
                return false;
            }
            let mut j: usize = 0;
            while j < row_a.len()
                invariant
                    j <= row_a@.len(),
                    row_a@.len() == row_b@.len(),
                    forall|m: int| 0 <= m < j ==> row_a@[m] == row_b@[m],
                decreases row_a@.len() - j,
            {
                if row_a[j] != row_b[j] {
                    proof {
                        assert(self.grid()[i as int] == self.cells@[i as int]@);
                        assert(other.grid()[i as int] == other.cells@[i as int]@);
                        assert(self.grid()[i as int][j as int] == row_a@[j as int]);
                        assert(other.grid()[i as int][j as int] == row_b@[j as int]);
                    }
                    return false;
                }
                j = j + 1;
            }
            proof {
                assert(self.grid()[i as int] =~= other.grid()[i as int]);
            }
            i = i + 1;
        }
        proof {
            assert(self.grid() =~~= other.grid());
        }
        true
    }

    /// Law: a dead player can make no move at all — every destination is
    /// rejected, and every action is rejected.
    pub proof fn lemma_dead_player_cannot_move(self, pid: int)
        requires
            0 <= pid < 2,
            self.players_seq()[pid].spec_state() is Dead,
        ensures
            forall|dest: Position| #[trigger] self.move_fails(pid, dest),
    {
    }

    /// Law: moving onto an occupied cell kills the mover regardless of its
    /// armor, which it keeps to the grave.
    pub proof fn lemma_collision_kills(self, pid: int, dest: Position)
        requires
            self.wf(),
            0 <= pid < 2,
            self.players_seq()[pid].spec_state() is Alive,
            self.in_grid(dest),
            self.dest_prior(pid, dest) is Occupied,
        ensures
            self.player_after(pid, dest) is Dead,
    {
    }

    /// Law: moving onto a wall or a trail kills the mover exactly when it
    /// has no armor; with armor it survives at the destination with one
    /// point fewer, and now occupies that cell.
    pub proof fn lemma_damage_resolution(self, pid: int, dest: Position)
        requires
            self.wf(),
            0 <= pid < 2,
            self.players_seq()[pid].spec_state() is Alive,
            self.in_grid(dest),
            self.dest_prior(pid, dest) is Wall || self.dest_prior(pid, dest) is Owned,
        ensures
            alive_armor(self.players_seq()[pid].spec_state()) == 0 ==> self.player_after(
                pid,
                dest,
            ) is Dead,
            alive_armor(self.players_seq()[pid].spec_state()) > 0 ==> {
                &&& self.player_after(pid, dest) == (PlayerState::Alive {
                    position: dest,
                    boost: alive_boost(self.players_seq()[pid].spec_state()),
                    armor: (alive_armor(self.players_seq()[pid].spec_state()) - 1) as usize,
                })
                &&& self.grid_after(pid, dest)[dest.row as int][dest.column as int].state
                    == (CellState::Occupied { player_id: pid as usize })
            },
    {
    }

    /// Law: detonating a bomb clears exactly the up-to-8 neighboring cells
    /// that held a power-up, a wall or a trail; occupied neighbors and
    /// out-of-grid neighbors are untouched, the mover survives unharmed,
    /// and the bomb's own cell follows normal move resolution and ends
    /// occupied by the mover.
    pub proof fn lemma_bomb_clears(self, pid: int, dest: Position)
        requires
            self.wf(),
            0 <= pid < 2,
            self.players_seq()[pid].spec_state() is Alive,
            self.in_grid(dest),
            self.dest_prior(pid, dest) == (CellState::PowerUp { power_up: PowerUp::Bomb }),
        ensures
            self.player_after(pid, dest) == (PlayerState::Alive {
                position: dest,
                boost: alive_boost(self.players_seq()[pid].spec_state()),
                armor: alive_armor(self.players_seq()[pid].spec_state()),
            }),
            forall|i: int, j: int|
                0 <= i < self.spec_height() && 0 <= j < self.spec_width()
                    ==> #[trigger] self.grid_after(pid, dest)[i][j].state == (if is_neighbor(
                    dest,
                    i,
                    j,
                ) && clearable(self.grid_trailed(pid)[i][j].state) {
                    CellState::Empty
                } else if i == dest.row && j == dest.column {
                    CellState::Occupied { player_id: pid as usize }
                } else {
                    self.grid_trailed(pid)[i][j].state
                }),
    {
        assert forall|i: int, j: int| 0 <= i < self.spec_height() && 0 <= j < self.spec_width()
            implies #[trigger] self.grid_after(pid, dest)[i][j].state == (if is_neighbor(dest, i, j)
            && clearable(self.grid_trailed(pid)[i][j].state) {
            CellState::Empty
        } else if i == dest.row && j == dest.column {
            CellState::Occupied { player_id: pid as usize }
        } else {
            self.grid_trailed(pid)[i][j].state
        }) by {
            assert(!is_neighbor(dest, dest.row as int, dest.column as int));
        }
    }

    /// Clears one cell if a blast may: power-ups, walls and trails become
    /// `Empty`; anything else, and any position outside the grid, is left
    /// unchanged.
    fn explode_cell(&mut self, position: Position) -> (r: Result<(), ()>)
        ensures
            final(self).spec_width() == old(self).spec_width(),
            final(self).spec_height() == old(self).spec_height(),
            final(self).players_seq() == old(self).players_seq(),
            r is Ok <==> (position.row < old(self).grid().len() && position.column < old(
                self,
            ).grid()[position.row as int].len()),
            final(self).grid() == (if (position.row < old(self).grid().len() && position.column
                < old(self).grid()[position.row as int].len() && clearable(
                old(self).grid()[position.row as int][position.column as int].state,
            )) {
                grid_set(old(self).grid(), position.row as int, position.column as int, CellState::Empty)
            } else {
                old(self).grid()
            }),
    {
        let state = match self.get_cell(position) {
            Ok(cell) => cell.get_state(),
            Err(_) => {
                return Err(());
            },
        };
        match state {
            CellState::PowerUp { .. } => self.update_cell_state(position, CellState::Empty),
            CellState::Wall => self.update_cell_state(position, CellState::Empty),
            CellState::Owned { .. } => self.update_cell_state(position, CellState::Empty),
            _ => Ok(()),
        }
    }
}

} // verus!
