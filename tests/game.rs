use tictactoe::{Board, Cell, Game, GameState, Player, Symbol};

fn game_with(size: usize, human: Symbol, marks: &[(usize, Symbol)]) -> Game {
    let mut g = Game::new(size, human);
    for &(p, s) in marks {
        assert!(g.board.make_move(p, s));
    }
    g
}

fn wins_after(board: &Board, p: usize, s: Symbol) -> bool {
    let mut b = board.clone();
    b.make_move(p, s) && b.check_winner() == Some(s)
}

#[test]
fn new_game_assigns_symbols() {
    let g = Game::new(3, Symbol::X);
    assert_eq!(g.human_symbol, Symbol::X);
    assert_eq!(g.bot_symbol, Symbol::O);
    assert_eq!(g.state, GameState::Playing(Symbol::X));
    assert_eq!(g.board.cells.len(), 9);
    let g5 = Game::new(5, Symbol::O);
    assert_eq!(g5.bot_symbol, Symbol::X);
    assert_eq!(g5.board.size, 5);
}

#[test]
fn player_for_each_symbol() {
    let g = Game::new(3, Symbol::O);
    assert_eq!(g.player_for(Symbol::O), Player::Human);
    assert_eq!(g.player_for(Symbol::X), Player::Bot);
}

#[test]
fn human_move_places_human_symbol() {
    let mut g = Game::new(3, Symbol::O);
    assert!(g.human_move(5));
    assert_eq!(g.board.cells[5], Cell::Occupied(Symbol::O));
    assert!(!g.human_move(5));
    assert!(!g.human_move(9));
}

#[test]
fn bot_takes_immediate_win() {
    // bot O has 0 and 1; human X has 3 and 4, which it would need to block
    let g = game_with(3, Symbol::X, &[(0, Symbol::O), (1, Symbol::O), (3, Symbol::X), (4, Symbol::X)]);
    for _ in 0..20 {
        let p = g.get_best_move();
        assert_eq!(p, 2);
        assert!(wins_after(&g.board, p, Symbol::O));
    }
    assert_eq!(g.candidate_moves(), vec![2]);
}

#[test]
fn bot_takes_first_of_several_wins() {
    // O wins at 2 (row) and at 6 (column); the lower index comes first
    let g = game_with(
        3,
        Symbol::X,
        &[(0, Symbol::O), (1, Symbol::O), (3, Symbol::O), (4, Symbol::X), (5, Symbol::X), (8, Symbol::X)],
    );
    assert_eq!(g.candidate_moves(), vec![2]);
    assert_eq!(g.get_best_move(), 2);
}

#[test]
fn bot_blocks_single_threat() {
    let g = game_with(3, Symbol::X, &[(0, Symbol::X), (1, Symbol::X), (4, Symbol::O)]);
    for _ in 0..20 {
        assert_eq!(g.get_best_move(), 2);
    }
    assert_eq!(g.candidate_moves(), vec![2]);
}

#[test]
fn bot_picks_among_several_blocks() {
    // X threatens 2 (row 0) and 6 (column 0)
    let g = game_with(3, Symbol::X, &[(0, Symbol::X), (1, Symbol::X), (3, Symbol::X), (4, Symbol::O)]);
    assert_eq!(g.candidate_moves(), vec![2, 6]);
    for _ in 0..30 {
        let p = g.get_best_move();
        assert!(p == 2 || p == 6);
    }
}

#[test]
fn count_winning_opportunities_counts_threats() {
    let g = Game::new(3, Symbol::X);
    let mut b = Board::new(3);
    assert_eq!(g.count_winning_opportunities(&b, Symbol::X), 0);
    assert!(b.make_move(0, Symbol::X));
    assert!(b.make_move(1, Symbol::X));
    assert!(b.make_move(3, Symbol::X));
    assert_eq!(g.count_winning_opportunities(&b, Symbol::X), 2);
    assert_eq!(g.count_winning_opportunities(&b, Symbol::O), 0);
}

#[test]
fn find_fork_returns_first_double_threat() {
    // X at 0 and 8, O at 4: X at 2 threatens 1 and 5; X at 6 threatens 3 and 7
    let g = game_with(3, Symbol::O, &[(0, Symbol::X), (8, Symbol::X), (4, Symbol::O)]);
    assert_eq!(g.find_fork(Symbol::X), Some(2));
    assert_eq!(g.find_fork(Symbol::O), None);
    let empty = Game::new(3, Symbol::X);
    assert_eq!(empty.find_fork(Symbol::X), None);
}

#[test]
fn bot_plays_own_fork() {
    // bot X: no win, no block needed; fork at 2
    let g = game_with(3, Symbol::O, &[(0, Symbol::X), (8, Symbol::X), (4, Symbol::O)]);
    assert_eq!(g.candidate_moves(), vec![2]);
    assert_eq!(g.get_best_move(), 2);
}

#[test]
fn bot_blocks_opponent_fork() {
    // human X at 0 and 8, bot O at 4
    let g = game_with(3, Symbol::X, &[(0, Symbol::X), (8, Symbol::X), (4, Symbol::O)]);
    // bot O: no win, X has no immediate win, O has no fork, X forks at 2
    assert_eq!(g.find_fork(Symbol::O), None);
    assert_eq!(g.candidate_moves(), vec![2]);
    assert_eq!(g.get_best_move(), 2);
}

#[test]
fn fallback_on_empty_board_is_any_empty_cell() {
    let g = Game::new(3, Symbol::X);
    assert_eq!(g.candidate_moves(), (0..9).collect::<Vec<usize>>());
    for _ in 0..50 {
        let p = g.get_best_move();
        assert!(p < 9);
        assert_eq!(g.board.cells[p], Cell::Empty);
    }
    let g5 = Game::new(5, Symbol::O);
    for _ in 0..50 {
        let p = g5.get_best_move();
        assert!(p < 25);
        assert_eq!(g5.board.cells[p], Cell::Empty);
    }
}

#[test]
fn bot_move_commits_position() {
    let mut g = game_with(3, Symbol::X, &[(0, Symbol::O), (1, Symbol::O)]);
    let p = g.bot_move();
    assert_eq!(p, 2);
    assert_eq!(g.board.cells[2], Cell::Occupied(Symbol::O));
    assert_eq!(g.board.check_winner(), Some(Symbol::O));
}

#[test]
fn finish_turn_outcomes() {
    let mut g = game_with(3, Symbol::X, &[(0, Symbol::X)]);
    g.finish_turn(Symbol::X);
    assert_eq!(g.state, GameState::Playing(Symbol::O));

    let mut w = game_with(3, Symbol::X, &[(0, Symbol::O), (4, Symbol::O), (8, Symbol::O)]);
    w.finish_turn(Symbol::O);
    assert_eq!(w.state, GameState::Won(Symbol::O));

    let mut d = game_with(
        3,
        Symbol::X,
        &[
            (0, Symbol::X),
            (1, Symbol::O),
            (2, Symbol::X),
            (3, Symbol::X),
            (4, Symbol::O),
            (5, Symbol::O),
            (6, Symbol::O),
            (7, Symbol::X),
            (8, Symbol::X),
        ],
    );
    d.finish_turn(Symbol::X);
    assert_eq!(d.state, GameState::Draw);
}
