use vstd::prelude::*;

use rand::seq::SliceRandom;

use crate::board::{all_occupied, empty_positions, is_empty_at, lemma_empty_listed, winner, Board};
use crate::enums::{other_spec, Cell, GameState, Player, Symbol};

verus! {

broadcast use vstd::seq_lib::group_filter_ensures;

/// `p` is an empty cell of the board where `s` would win at once.
pub open spec fn wins_at(cells: Seq<Cell>, size: int, p: int, s: Symbol) -> bool {
    &&& 0 <= p < cells.len()
    &&& cells[p] == Cell::Empty
    &&& winner(cells.update(p, Cell::Occupied(s)), size) == Some(s)
}

/// Holds of the positions where `s` would win at once.
pub open spec fn wins_pred(cells: Seq<Cell>, size: int, s: Symbol) -> spec_fn(usize) -> bool {
    |p: usize| wins_at(cells, size, p as int, s)
}

/// The positions where `s` would win at once, ascending.
pub open spec fn winning_moves(cells: Seq<Cell>, size: int, s: Symbol) -> Seq<usize> {
    empty_positions(cells).filter(wins_pred(cells, size, s))
}

/// `p` is an empty cell where `s` would leave itself two or more immediate
/// wins: a double threat.
pub open spec fn forks_at(cells: Seq<Cell>, size: int, p: int, s: Symbol) -> bool {
    &&& 0 <= p < cells.len()
    &&& cells[p] == Cell::Empty
    &&& winning_moves(cells.update(p, Cell::Occupied(s)), size, s).len() >= 2
}

/// Holds of the positions where `s` would make a double threat.
pub open spec fn fork_pred(cells: Seq<Cell>, size: int, s: Symbol) -> spec_fn(usize) -> bool {
    |p: usize| forks_at(cells, size, p as int, s)
}

/// The positions where `s` would make a double threat, ascending.
pub open spec fn fork_moves(cells: Seq<Cell>, size: int, s: Symbol) -> Seq<usize> {
    empty_positions(cells).filter(fork_pred(cells, size, s))
}

/// The first element, if any.
pub open spec fn first_of(q: Seq<usize>) -> Option<usize> {
    if q.len() > 0 {
        Some(q[0])
    } else {
        None
    }
}

/// The positions among which the automated player `me` picks against
/// `opp`, by tiers: its first immediate win; else every position that
/// blocks an immediate win of `opp`; else its first double threat; else the
/// first double threat of `opp`; else every empty cell.
pub open spec fn move_choices(cells: Seq<Cell>, size: int, me: Symbol, opp: Symbol) -> Seq<usize> {
    let wins = winning_moves(cells, size, me);
    let blocks = winning_moves(cells, size, opp);
    let forks = fork_moves(cells, size, me);
    let counters = fork_moves(cells, size, opp);
    if wins.len() > 0 {
        seq![wins[0]]
    } else if blocks.len() > 0 {
        blocks
    } else if forks.len() > 0 {
        seq![forks[0]]
    } else if counters.len() > 0 {
        seq![counters[0]]
    } else {
        empty_positions(cells)
    }
}

/// The state after a turn of `current`: won by the board's winner, else
/// drawn on a full board, else the other mark to move.
pub open spec fn next_state(cells: Seq<Cell>, size: int, current: Symbol) -> GameState {
    match winner(cells, size) {
        Some(w) => GameState::Won(w),
        None => if all_occupied(cells) {
            GameState::Draw
        } else {
            GameState::Playing(other_spec(current))
        },
    }
}

/// Filtering a prefix one element longer.
proof fn lemma_take_filter_step(ps: Seq<usize>, pred: spec_fn(usize) -> bool, k: int)
    requires
        0 <= k < ps.len(),
    ensures
        ps.take(k + 1).filter(pred) == if pred(ps[k]) {
            ps.take(k).filter(pred).push(ps[k])
        } else {
            ps.take(k).filter(pred)
        },
{
    assert(ps.take(k + 1) =~= ps.take(k).push(ps[k]));
    ps.take(k).lemma_filter_push(ps[k], pred);
}

/// The first element that passes a filter is the first one found by a scan
/// from the front.
proof fn lemma_first_found(ps: Seq<usize>, pred: spec_fn(usize) -> bool, k: int)
    requires
        0 <= k < ps.len(),
        ps.take(k).filter(pred).len() == 0,
        pred(ps[k]),
    ensures
        ps.filter(pred).len() > 0,
        ps.filter(pred)[0] == ps[k],
{
    lemma_take_filter_step(ps, pred, k);
    assert(ps =~= ps.take(k + 1) + ps.skip(k + 1));
    Seq::filter_distributes_over_add(ps.take(k + 1), ps.skip(k + 1), pred);
}

/// What the automated player picks from is never empty while an empty cell
/// remains, and holds only empty cells of the board.
proof fn lemma_choices_valid(cells: Seq<Cell>, size: int, me: Symbol, opp: Symbol)
    requires
        empty_positions(cells).len() > 0,
    ensures
        move_choices(cells, size, me, opp).len() > 0,
        forall|i: int|
            0 <= i < move_choices(cells, size, me, opp).len() ==> {
                let p = #[trigger] move_choices(cells, size, me, opp)[i];
                (p as int) < cells.len() && cells[p as int] == Cell::Empty
            },
{
    let e = empty_positions(cells);
    assert forall|i: int| 0 <= i < e.len() implies (e[i] as int) < cells.len() && cells[e[i] as int]
        == Cell::Empty by {
        assert(is_empty_at(cells)(e[i]));
    }
    let wins = winning_moves(cells, size, me);
    let blocks = winning_moves(cells, size, opp);
    let forks = fork_moves(cells, size, me);
    let counters = fork_moves(cells, size, opp);
    if wins.len() > 0 {
        assert(wins_pred(cells, size, me)(wins[0]));
    } else if blocks.len() > 0 {
        assert forall|i: int| 0 <= i < blocks.len() implies wins_at(cells, size, blocks[i] as int, opp) by {
            assert(wins_pred(cells, size, opp)(blocks[i]));
        }
    } else if forks.len() > 0 {
        assert(fork_pred(cells, size, me)(forks[0]));
    } else if counters.len() > 0 {
        assert(fork_pred(cells, size, opp)(counters[0]));
    }
}

/// Where the automated player can win at once, every position it picks from
/// wins at once.
pub proof fn lemma_win_is_taken(cells: Seq<Cell>, size: int, me: Symbol, opp: Symbol, q: usize)
    requires
        wins_at(cells, size, q as int, me),
    ensures
        move_choices(cells, size, me, opp).len() > 0,
        forall|i: int|
            0 <= i < move_choices(cells, size, me, opp).len() ==> wins_at(
                cells,
                size,
                #[trigger] move_choices(cells, size, me, opp)[i] as int,
                me,
            ),
{
    let e = empty_positions(cells);
    let wins = winning_moves(cells, size, me);
    lemma_empty_listed(cells, q);
    let j = choose|j: int| 0 <= j < e.len() && e[j] == q;
    e.lemma_filter_contains(wins_pred(cells, size, me), j);
    assert(wins.len() > 0);
    assert(wins_pred(cells, size, me)(wins[0]));
}

/// Where the automated player has no immediate win and the opponent has
/// one, every position it picks from takes away an immediate win of the
/// opponent.
pub proof fn lemma_threat_is_blocked(cells: Seq<Cell>, size: int, me: Symbol, opp: Symbol, q: usize)
    requires
        forall|u: usize| !wins_at(cells, size, u as int, me),
        wins_at(cells, size, q as int, opp),
    ensures
        move_choices(cells, size, me, opp).len() > 0,
        forall|i: int|
            0 <= i < move_choices(cells, size, me, opp).len() ==> wins_at(
                cells,
                size,
                #[trigger] move_choices(cells, size, me, opp)[i] as int,
                opp,
            ),
{
    let e = empty_positions(cells);
    let wins = winning_moves(cells, size, me);
    let blocks = winning_moves(cells, size, opp);
    if wins.len() > 0 {
        assert(wins_pred(cells, size, me)(wins[0]));
    }
    lemma_empty_listed(cells, q);
    let j = choose|j: int| 0 <= j < e.len() && e[j] == q;
    e.lemma_filter_contains(wins_pred(cells, size, opp), j);
    assert forall|i: int| 0 <= i < blocks.len() implies wins_at(cells, size, blocks[i] as int, opp) by {
        assert(wins_pred(cells, size, opp)(blocks[i]));
    }
}

/// Where the automated player has no immediate win and the opponent has
/// exactly one, that one position is all it picks from.
pub proof fn lemma_single_threat_is_blocked(
    cells: Seq<Cell>,
    size: int,
    me: Symbol,
    opp: Symbol,
    p: usize,
)
    requires
        forall|q: usize| !wins_at(cells, size, q as int, me),
        forall|q: usize| wins_at(cells, size, q as int, opp) <==> q == p,
    ensures
        move_choices(cells, size, me, opp).len() > 0,
        forall|i: int|
            0 <= i < move_choices(cells, size, me, opp).len() ==> #[trigger] move_choices(
                cells,
                size,
                me,
                opp,
            )[i] == p,
{
    assert(wins_at(cells, size, p as int, opp));
    lemma_threat_is_blocked(cells, size, me, opp, p);
    let c = move_choices(cells, size, me, opp);
    assert forall|i: int| 0 <= i < c.len() implies c[i] == p by {
        assert(wins_at(cells, size, c[i] as int, opp));
    }
}

/// A copy of the board, independent of it.
fn copy_board(board: &Board) -> (r: Board)
    ensures
        r.cells@ == board.cells@,
        r.size == board.size,
{
    let mut cells: Vec<Cell> = Vec::new();
    let mut i: usize = 0;
    while i < board.cells.len()
        invariant
            i <= board.cells@.len(),
            cells@ == board.cells@.take(i as int),
        decreases board.cells@.len() - i,
    {
        cells.push(board.cells[i]);
        i = i + 1;
        assert(cells@ =~= board.cells@.take(i as int));
    }
    assert(cells@ =~= board.cells@);
    Board { cells, size: board.size }
}

/// Whether `s` would win at once by taking `pos`, tried on a copy of the
/// board.
fn wins_with(board: &Board, pos: usize, s: Symbol) -> (r: bool)
    requires
        board.wf(),
    ensures
        r == wins_at(board.cells@, board.size as int, pos as int, s),
{
    let mut test_board = copy_board(board);
    if test_board.make_move(pos, s) {
        match test_board.check_winner() {
            Some(w) => w == s,
            None => false,
        }
    } else {
        false
    }
}

/// The first of `candidates` where `s` would win at once.
fn first_winning_move(board: &Board, candidates: &Vec<usize>, s: Symbol) -> (r: Option<usize>)
    requires
        board.wf(),
    ensures
        r == first_of(candidates@.filter(wins_pred(board.cells@, board.size as int, s))),
{
    let ghost pred = wins_pred(board.cells@, board.size as int, s);
    let mut k: usize = 0;
    while k < candidates.len()
        invariant
            board.wf(),
            pred == wins_pred(board.cells@, board.size as int, s),
            k <= candidates@.len(),
            candidates@.take(k as int).filter(pred).len() == 0,
        decreases candidates@.len() - k,
    {
        let pos = candidates[k];
        proof {
            lemma_take_filter_step(candidates@, pred, k as int);
        }
        if wins_with(board, pos, s) {
            proof {
                lemma_first_found(candidates@, pred, k as int);
            }
            return Some(pos);
        }
        k = k + 1;
    }
    assert(candidates@.take(k as int) =~= candidates@);
    None
}

/// Every one of `candidates` where `s` would win at once, in their order.
fn winning_positions(board: &Board, candidates: &Vec<usize>, s: Symbol) -> (r: Vec<usize>)
    requires
        board.wf(),
    ensures
        r@ == candidates@.filter(wins_pred(board.cells@, board.size as int, s)),
{
    let ghost pred = wins_pred(board.cells@, board.size as int, s);
    let mut r: Vec<usize> = Vec::new();
    let mut k: usize = 0;
    while k < candidates.len()
        invariant
            board.wf(),
            pred == wins_pred(board.cells@, board.size as int, s),
            k <= candidates@.len(),
            r@ == candidates@.take(k as int).filter(pred),
        decreases candidates@.len() - k,
    {
        let pos = candidates[k];
        proof {
            lemma_take_filter_step(candidates@, pred, k as int);
        }
        if wins_with(board, pos, s) {
            r.push(pos);
        }
        k = k + 1;
    }
    assert(candidates@.take(k as int) =~= candidates@);
    r
}

/// Relies on rand's `SliceRandom::choose`, drawing with `thread_rng`: on a
/// non-empty slice it returns a reference to one of its elements.
#[verifier::external_body]
fn choose_position(candidates: &Vec<usize>) -> (r: usize)
    requires
        candidates@.len() > 0,
    ensures
        candidates@.contains(r),
{
    let mut rng = rand::thread_rng();
    *candidates.choose(&mut rng).unwrap()
}

/// A game between a human and the automated player on one board.
pub struct Game {
    pub board: Board,
    pub state: GameState,
    pub human_symbol: Symbol,
    pub bot_symbol: Symbol,
}

impl Game {
    /// A sound board, the two players holding different marks.
    pub open spec fn wf(&self) -> bool {
        &&& self.board.wf()
        &&& self.bot_symbol == other_spec(self.human_symbol)
    }

    /// A game on an empty board of the given size, the human holding
    /// `human_symbol`, the automated player the other mark, X to move.
    pub fn new(size: usize, human_symbol: Symbol) -> (r: Game)
        requires
            size * size <= usize::MAX,
        ensures
            r.wf(),
            r.board.size == size,
            r.board.cells@ == Seq::new((size * size) as nat, |i: int| Cell::Empty),
            r.state == GameState::Playing(Symbol::X),
            r.human_symbol == human_symbol,
            r.bot_symbol == other_spec(human_symbol),
    {
        let bot_symbol = human_symbol.other();
        Game {
            board: Board::new(size),
            state: GameState::Playing(Symbol::X),
            human_symbol,
            bot_symbol,
        }
    }

    /// Who plays the mark `s`.
    pub fn player_for(&self, s: Symbol) -> (r: Player)
        ensures
            r == (if s == self.human_symbol {
                Player::Human
            } else {
                Player::Bot
            }),
    {
        if s == self.human_symbol {
            Player::Human
        } else {
            Player::Bot
        }
    }

    /// Places the human's mark at `position`, where that cell exists and is
    /// empty, and says whether it did.
    pub fn human_move(&mut self, position: usize) -> (r: bool)
        ensures
            r == (position < old(self).board.cells@.len()
                && old(self).board.cells@[position as int] == Cell::Empty),
            final(self).board.cells@ == crate::board::apply_move(
                old(self).board.cells@,
                position as int,
                old(self).human_symbol,
            ),
            final(self).board.size == old(self).board.size,
            final(self).state == old(self).state,
            final(self).human_symbol == old(self).human_symbol,
            final(self).bot_symbol == old(self).bot_symbol,
    {
        let s = self.human_symbol;
        self.board.make_move(position, s)
    }

    /// Sets the state that follows a turn of `current`.
    pub fn finish_turn(&mut self, current: Symbol)
        requires
            old(self).board.wf(),
        ensures
            final(self).state == next_state(
                old(self).board.cells@,
                old(self).board.size as int,
                current,
            ),
            final(self).board == old(self).board,
            final(self).human_symbol == old(self).human_symbol,
            final(self).bot_symbol == old(self).bot_symbol,
    {
        match self.board.check_winner() {
            Some(w) => {
                self.state = GameState::Won(w);
            },
            None => {
                if self.board.is_full() {
                    self.state = GameState::Draw;
                } else {
                    self.state = GameState::Playing(current.other());
                }
            },
        }
    }

    /// How many empty cells of `board` would each give `symbol` an immediate
    /// win.
    pub fn count_winning_opportunities(&self, board: &Board, symbol: Symbol) -> (r: usize)
        requires
            board.wf(),
        ensures
            r == winning_moves(board.cells@, board.size as int, symbol).len(),
    {
        let empty_cells = board.get_empty_cells();
        let ghost pred = wins_pred(board.cells@, board.size as int, symbol);
        let mut count: usize = 0;
        let mut k: usize = 0;
        while k < empty_cells.len()
            invariant
                board.wf(),
                pred == wins_pred(board.cells@, board.size as int, symbol),
                k <= empty_cells@.len(),
                count == empty_cells@.take(k as int).filter(pred).len(),
            decreases empty_cells@.len() - k,
        {
            let pos = empty_cells[k];
            proof {
                lemma_take_filter_step(empty_cells@, pred, k as int);
                empty_cells@.take(k as int).lemma_filter_len(pred);
            }
            if wins_with(board, pos, symbol) {
                count = count + 1;
            }
            k = k + 1;
        }
        assert(empty_cells@.take(k as int) =~= empty_cells@);
        count
    }

    /// The first empty cell, in ascending order, where `symbol` would make a
    /// double threat. The scan stops at the first one found, so when several
    /// exist the lowest index is the one returned.
    pub fn find_fork(&self, symbol: Symbol) -> (r: Option<usize>)
        requires
            self.board.wf(),
        ensures
            r == first_of(fork_moves(self.board.cells@, self.board.size as int, symbol)),
    {
        let board = &self.board;
        let empty_cells = board.get_empty_cells();
        let ghost pred = fork_pred(board.cells@, board.size as int, symbol);
        let mut k: usize = 0;
        while k < empty_cells.len()
            invariant
                board.wf(),
                pred == fork_pred(board.cells@, board.size as int, symbol),
                empty_cells@ == empty_positions(board.cells@),
                board == &self.board,
                k <= empty_cells@.len(),
                empty_cells@.take(k as int).filter(pred).len() == 0,
            decreases empty_cells@.len() - k,
        {
            let pos = empty_cells[k];
            proof {
                lemma_take_filter_step(empty_cells@, pred, k as int);
            }
            let mut test_board = copy_board(board);
            if test_board.make_move(pos, symbol) {
                let winning_opportunities = self.count_winning_opportunities(&test_board, symbol);
                if winning_opportunities >= 2 {
                    proof {
                        lemma_first_found(empty_cells@, pred, k as int);
                    }
                    return Some(pos);
                }
            }
            k = k + 1;
        }
        assert(empty_cells@.take(k as int) =~= empty_cells@);
        None
    }

    /// The positions the automated player picks from, tier by tier.
    pub fn candidate_moves(&self) -> (r: Vec<usize>)
        requires
            self.board.wf(),
        ensures
            r@ == move_choices(
                self.board.cells@,
                self.board.size as int,
                self.bot_symbol,
                self.human_symbol,
            ),
    {
        let empty_cells = self.board.get_empty_cells();
        match first_winning_move(&self.board, &empty_cells, self.bot_symbol) {
            Some(pos) => {
                let mut r: Vec<usize> = Vec::new();
                r.push(pos);
                return r;
            },
            None => {},
        }
        let blocks = winning_positions(&self.board, &empty_cells, self.human_symbol);
        if blocks.len() > 0 {
            return blocks;
        }
        match self.find_fork(self.bot_symbol) {
            Some(pos) => {
                let mut r: Vec<usize> = Vec::new();
                r.push(pos);
                return r;
            },
            None => {},
        }
        match self.find_fork(self.human_symbol) {
            Some(pos) => {
                let mut r: Vec<usize> = Vec::new();
                r.push(pos);
                return r;
            },
            None => {},
        }
        empty_cells
    }

    /// The position the automated player takes: one of its candidates,
    /// drawn at random where there are several. It is an empty cell of the
    /// board; it wins at once where some move does; where none does but the
    /// opponent has an immediate win, it takes a cell where the opponent
    /// would win.
    pub fn get_best_move(&self) -> (r: usize)
        requires
            self.board.wf(),
            empty_positions(self.board.cells@).len() > 0,
        ensures
            move_choices(
                self.board.cells@,
                self.board.size as int,
                self.bot_symbol,
                self.human_symbol,
            ).contains(r),
            r < self.board.cells@.len(),
            self.board.cells@[r as int] == Cell::Empty,
            (exists|q: usize|
                wins_at(self.board.cells@, self.board.size as int, q as int, self.bot_symbol))
                ==> wins_at(self.board.cells@, self.board.size as int, r as int, self.bot_symbol),
            (forall|q: usize|
                !wins_at(self.board.cells@, self.board.size as int, q as int, self.bot_symbol))
                && (exists|q: usize|
                wins_at(self.board.cells@, self.board.size as int, q as int, self.human_symbol))
                ==> wins_at(self.board.cells@, self.board.size as int, r as int, self.human_symbol),
    {
        let ghost cells = self.board.cells@;
        let ghost size = self.board.size as int;
        let ghost me = self.bot_symbol;
        let ghost opp = self.human_symbol;
        let candidates = self.candidate_moves();
        proof {
            lemma_choices_valid(cells, size, me, opp);
        }
        let r = choose_position(&candidates);
        proof {
            let i = choose|i: int| 0 <= i < candidates@.len() && candidates@[i] == r;
            assert(move_choices(cells, size, me, opp)[i] == r);
            if exists|q: usize| wins_at(cells, size, q as int, me) {
                let q = choose|q: usize| wins_at(cells, size, q as int, me);
                lemma_win_is_taken(cells, size, me, opp, q);
            }
            if (forall|q: usize| !wins_at(cells, size, q as int, me)) && (exists|q: usize|
                wins_at(cells, size, q as int, opp)) {
                let q = choose|q: usize| wins_at(cells, size, q as int, opp);
                lemma_threat_is_blocked(cells, size, me, opp, q);
            }
        }
        r
    }

    /// The automated player's turn: takes the position `get_best_move`
    /// picks and returns it.
    pub fn bot_move(&mut self) -> (r: usize)
        requires
            old(self).board.wf(),
            empty_positions(old(self).board.cells@).len() > 0,
        ensures
            move_choices(
                old(self).board.cells@,
                old(self).board.size as int,
                old(self).bot_symbol,
                old(self).human_symbol,
            ).contains(r),
            r < old(self).board.cells@.len(),
            old(self).board.cells@[r as int] == Cell::Empty,
            final(self).board.cells@ == old(self).board.cells@.update(
                r as int,
                Cell::Occupied(old(self).bot_symbol),
            ),
            final(self).board.size == old(self).board.size,
            final(self).state == old(self).state,
            final(self).human_symbol == old(self).human_symbol,
            final(self).bot_symbol == old(self).bot_symbol,
    {
        let position = self.get_best_move();
        let s = self.bot_symbol;
        self.board.make_move(position, s);
        position
    }
}

} // verus!
