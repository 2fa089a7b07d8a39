use tictactoe::game::{Player, Square, TicTacToe};
use tictactoe::zobrist::{index_of, Zobrist};

fn place(t: &mut TicTacToe, cells: &[(usize, usize, Player)]) {
    for &(r, c, p) in cells {
        t.set_cell(r, c, Square::Player(p));
    }
}

fn snapshot(t: &TicTacToe) -> Vec<Square> {
    let dim = t.dimension();
    let mut cells = Vec::new();
    for r in 0..dim {
        for c in 0..dim {
            cells.push(t.get_cell(r, c));
        }
    }
    cells
}

#[test]
fn opponent_is_the_other_player() {
    assert_eq!(Player::O.opponent(), Player::X);
    assert_eq!(Player::X.opponent(), Player::O);
}

#[test]
fn index_of_distinguishes_players() {
    assert_eq!(index_of(Player::O), 0);
    assert_eq!(index_of(Player::X), 1);
    assert_ne!(index_of(Player::O), index_of(Player::X));
}

#[test]
fn new_board_is_empty() {
    let t = TicTacToe::new(3);
    assert_eq!(t.dimension(), 3);
    for r in 0..3 {
        for c in 0..3 {
            assert_eq!(t.get_cell(r, c), Square::Empty);
        }
    }
}

#[test]
fn get_cell_reads_back_set_cell() {
    let mut t = TicTacToe::new(3);
    t.set_cell(1, 2, Square::Player(Player::X));
    assert_eq!(t.get_cell(1, 2), Square::Player(Player::X));
    assert_eq!(t.get_cell(2, 1), Square::Empty);
    t.set_cell(1, 2, Square::Empty);
    assert_eq!(t.get_cell(1, 2), Square::Empty);
}

#[test]
fn winner_full_row() {
    let mut t = TicTacToe::new(3);
    place(
        &mut t,
        &[
            (1, 0, Player::X),
            (1, 1, Player::X),
            (1, 2, Player::X),
            (0, 0, Player::O),
            (2, 2, Player::O),
        ],
    );
    assert!(t.is_winner(Player::X));
    assert!(!t.is_winner(Player::O));
}

#[test]
fn winner_full_column() {
    let mut t = TicTacToe::new(3);
    place(
        &mut t,
        &[
            (0, 2, Player::O),
            (1, 2, Player::O),
            (2, 2, Player::O),
            (0, 0, Player::X),
            (1, 1, Player::X),
        ],
    );
    assert!(t.is_winner(Player::O));
    assert!(!t.is_winner(Player::X));
}

#[test]
fn winner_main_diagonal() {
    let mut t = TicTacToe::new(3);
    place(
        &mut t,
        &[
            (0, 0, Player::X),
            (1, 1, Player::X),
            (2, 2, Player::X),
            (0, 1, Player::O),
            (1, 0, Player::O),
        ],
    );
    assert!(t.is_winner(Player::X));
    assert!(!t.is_winner(Player::O));
}

#[test]
fn winner_anti_diagonal() {
    let mut t = TicTacToe::new(3);
    place(
        &mut t,
        &[
            (0, 2, Player::O),
            (1, 1, Player::O),
            (2, 0, Player::O),
            (0, 0, Player::X),
            (2, 2, Player::X),
        ],
    );
    assert!(t.is_winner(Player::O));
    assert!(!t.is_winner(Player::X));
}

#[test]
fn no_winner_on_empty_board() {
    let t = TicTacToe::new(3);
    assert!(!t.is_winner(Player::O));
    assert!(!t.is_winner(Player::X));
}

#[test]
fn sub_run_does_not_win_on_larger_board() {
    let mut t = TicTacToe::new(4);
    place(
        &mut t,
        &[(0, 0, Player::X), (0, 1, Player::X), (0, 2, Player::X)],
    );
    assert!(!t.is_winner(Player::X));
    t.set_cell(0, 3, Square::Player(Player::X));
    assert!(t.is_winner(Player::X));
}

#[test]
fn draw_requires_every_cell() {
    let mut t = TicTacToe::new(3);
    assert!(!t.is_draw());
    let full = [
        (0, 0, Player::X),
        (0, 1, Player::O),
        (0, 2, Player::X),
        (1, 0, Player::X),
        (1, 1, Player::O),
        (1, 2, Player::O),
        (2, 0, Player::O),
        (2, 1, Player::X),
        (2, 2, Player::X),
    ];
    place(&mut t, &full[..full.len() - 1]);
    assert!(!t.is_draw());
    place(&mut t, &full[full.len() - 1..]);
    assert!(t.is_draw());
}

#[test]
fn search_is_deterministic() {
    let mut t = TicTacToe::new(3);
    place(&mut t, &[(0, 0, Player::X), (1, 1, Player::O)]);
    let first = t.negamax(Player::X, -2, 2);
    let second = t.negamax(Player::X, -2, 2);
    assert_eq!(first, second);
    let (a, b) = t.negamax_twice(Player::X, -2, 2);
    assert_eq!(a, b);
    assert_eq!(a, first);
}

#[test]
fn board_unchanged_by_search() {
    let mut t = TicTacToe::new(3);
    place(&mut t, &[(0, 1, Player::X), (2, 2, Player::O)]);
    let before = snapshot(&t);
    t.negamax(Player::O, -2, 2);
    assert_eq!(snapshot(&t), before);
    t.negamax(Player::X, -2, 2);
    assert_eq!(snapshot(&t), before);
}

#[test]
fn score_is_terminal_valued() {
    let mut won = TicTacToe::new(3);
    place(
        &mut won,
        &[
            (0, 0, Player::X),
            (0, 1, Player::X),
            (0, 2, Player::X),
            (1, 0, Player::O),
            (1, 1, Player::O),
        ],
    );
    let (for_winner, _) = won.negamax(Player::X, -2, 2);
    assert_eq!(for_winner, 1);
    let (for_loser, _) = won.negamax(Player::O, -2, 2);
    assert_eq!(for_loser, -1);
    let mut open = TicTacToe::new(3);
    place(&mut open, &[(1, 1, Player::X)]);
    let (score, _) = open.negamax(Player::O, -2, 2);
    assert!(score == -1 || score == 0 || score == 1);
}

#[test]
fn narrow_window_is_still_terminal_valued() {
    let mut t = TicTacToe::new(3);
    place(&mut t, &[(0, 0, Player::X)]);
    let before = snapshot(&t);
    let (score, _) = t.negamax(Player::O, 0, 1);
    assert!(score == -1 || score == 0 || score == 1);
    assert_eq!(snapshot(&t), before);
    let again = t.negamax(Player::O, 0, 1);
    assert_eq!(again.0, score);
}

#[test]
fn empty_board_is_forced_draw() {
    let mut t = TicTacToe::new(3);
    let (score, chosen) = t.negamax(Player::X, -2, 2);
    assert_eq!(score, 0);
    let good_openings = [(1, 1), (0, 0), (0, 2), (2, 0), (2, 2)];
    let mv = chosen.expect("an open position must come with a move");
    assert!(good_openings.contains(&mv));
}

#[test]
fn immediate_win_is_found() {
    let mut t = TicTacToe::new(3);
    place(
        &mut t,
        &[
            (0, 0, Player::X),
            (0, 1, Player::X),
            (1, 0, Player::O),
            (1, 1, Player::O),
            (1, 2, Player::X),
            (2, 0, Player::X),
            (2, 1, Player::O),
            (2, 2, Player::O),
        ],
    );
    assert!(!t.is_winner(Player::X));
    assert!(!t.is_winner(Player::O));
    let (score, chosen) = t.negamax(Player::X, -2, 2);
    assert_eq!(score, 1);
    assert_eq!(chosen, Some((0, 2)));
}

#[test]
fn full_drawn_board_scores_zero() {
    let mut t = TicTacToe::new(3);
    place(
        &mut t,
        &[
            (0, 0, Player::X),
            (0, 1, Player::O),
            (0, 2, Player::X),
            (1, 0, Player::X),
            (1, 1, Player::O),
            (1, 2, Player::O),
            (2, 0, Player::O),
            (2, 1, Player::X),
            (2, 2, Player::X),
        ],
    );
    assert!(t.is_draw());
    assert_eq!(t.negamax(Player::X, -2, 2), (0, None));
    assert_eq!(t.negamax(Player::O, -2, 2), (0, None));
}

#[test]
fn single_cell_board_is_a_win_in_one() {
    let mut t = TicTacToe::new(1);
    let (score, chosen) = t.negamax(Player::X, -2, 2);
    assert_eq!(score, 1);
    assert_eq!(chosen, Some((0, 0)));
}

#[test]
fn hash_is_reproducible() {
    let z = Zobrist::new(3);
    let mut a = vec![Square::Empty; 9];
    a[4] = Square::Player(Player::X);
    a[0] = Square::Player(Player::O);
    let b = a.clone();
    assert_eq!(z.hash(&a), z.hash(&b));
    assert_eq!(z.hash(&a), z.hash(&a));
}

#[test]
fn hash_sees_single_cell_change() {
    let z = Zobrist::new(3);
    let empty = vec![Square::Empty; 9];
    for k in 0..9 {
        for p in [Player::O, Player::X] {
            let mut changed = empty.clone();
            changed[k] = Square::Player(p);
            assert_ne!(z.hash(&changed), z.hash(&empty));
        }
    }
    let mut occupied = empty.clone();
    occupied[3] = Square::Player(Player::O);
    let mut flipped = empty;
    flipped[3] = Square::Player(Player::X);
    assert_ne!(z.hash(&occupied), z.hash(&flipped));
}

#[test]
fn transposed_position_returns_cached_result() {
    let mut t = TicTacToe::new(3);
    place(&mut t, &[(0, 0, Player::X), (1, 1, Player::O)]);
    let first = t.negamax(Player::X, -2, 2);
    t.set_cell(0, 0, Square::Empty);
    t.set_cell(1, 1, Square::Empty);
    place(&mut t, &[(1, 1, Player::O), (0, 0, Player::X)]);
    let second = t.negamax(Player::X, -2, 2);
    assert_eq!(first, second);
}

#[test]
fn render_shows_the_grid() {
    let mut t = TicTacToe::new(3);
    place(&mut t, &[(0, 0, Player::X), (1, 1, Player::O)]);
    let text: String = t.render().into_iter().collect();
    assert_eq!(text, "X..\n.O.\n...\n");
}

#[test]
fn render_of_empty_board_is_dots() {
    let t = TicTacToe::new(2);
    let text: String = t.render().into_iter().collect();
    assert_eq!(text, "..\n..\n");
}
