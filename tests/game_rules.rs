use royal_ur::game::{opposite_color, Color, GameState, ENTER_MOVE, SKIP_MOVE};

fn empty_board(pending: [u8; 2], finished: [u8; 2]) -> GameState {
    GameState { pending, finished, tracks: [[false; 14]; 2] }
}

fn pieces_ok(s: &GameState) -> bool {
    (0..2).all(|c| {
        let on_board = s.tracks[c].iter().filter(|x| **x).count();
        s.pending[c] as usize + s.finished[c] as usize + on_board == 5
    })
}

#[test]
fn opposite_color_is_an_involution() {
    assert_eq!(opposite_color(Color::Black), Color::White);
    assert_eq!(opposite_color(Color::White), Color::Black);
    assert_eq!(opposite_color(opposite_color(Color::Black)), Color::Black);
}

#[test]
fn color_names() {
    assert_eq!(Color::Black.name(), "Black");
    assert_eq!(Color::White.name(), "White");
}

#[test]
fn new_game_has_all_pieces_pending() {
    let s = GameState::new();
    assert_eq!(s.pending, [5, 5]);
    assert_eq!(s.finished, [0, 0]);
    assert_eq!(s.tracks, [[false; 14]; 2]);
    assert_eq!(s.get_winner(), None);
}

#[test]
fn fresh_game_roll_four_enters_on_rosette() {
    let mut s = GameState::new();
    let moves = s.get_legal_moves(Color::Black, 4);
    assert_eq!(moves, vec![ENTER_MOVE]);
    let bonus = s.exec_move(Color::Black, 4, ENTER_MOVE);
    assert!(bonus);
    assert!(s.tracks[0][3]);
    assert_eq!(s.pending, [4, 5]);
    assert!(pieces_ok(&s));
}

#[test]
fn capture_on_shared_lane_square() {
    let mut s = empty_board([4, 4], [0, 0]);
    s.tracks[0][5] = true;
    s.tracks[1][9] = true;
    let moves = s.get_legal_moves(Color::Black, 4);
    assert!(moves.contains(&5));
    let bonus = s.exec_move(Color::Black, 4, 5);
    assert!(!bonus);
    assert!(!s.tracks[0][5]);
    assert!(s.tracks[0][9]);
    assert!(!s.tracks[1][9]);
    assert_eq!(s.pending, [4, 5]);
    assert!(pieces_ok(&s));
}

#[test]
fn no_capture_on_private_square() {
    let mut s = empty_board([4, 4], [0, 0]);
    s.tracks[0][10] = true;
    s.tracks[1][12] = true;
    assert!(s.get_legal_moves(Color::Black, 2).contains(&10));
    let bonus = s.exec_move(Color::Black, 2, 10);
    assert!(!bonus);
    assert!(s.tracks[0][12]);
    assert!(s.tracks[1][12]);
    assert_eq!(s.pending, [4, 4]);
}

#[test]
fn roll_zero_has_no_moves() {
    let mut s = empty_board([4, 5], [0, 0]);
    s.tracks[0][2] = true;
    assert!(s.get_legal_moves(Color::Black, 0).is_empty());
    assert!(s.get_legal_moves(Color::White, 0).is_empty());
}

#[test]
fn moves_never_land_on_own_piece() {
    let mut s = empty_board([3, 5], [0, 0]);
    s.tracks[0][1] = true;
    s.tracks[0][4] = true;
    // entry square 2 is free; 1 -> 4 is blocked by the own piece; 4 -> 7 is free
    assert_eq!(s.get_legal_moves(Color::Black, 3), vec![ENTER_MOVE, 4]);
    // entry onto square 0 is free, 1 -> 2 free, 4 -> 5 free
    assert_eq!(s.get_legal_moves(Color::Black, 1), vec![ENTER_MOVE, 1, 4]);
    // entry onto square 3 free, 1 -> 5 free, 4 -> 8 free
    assert_eq!(s.get_legal_moves(Color::Black, 4), vec![ENTER_MOVE, 1, 4]);
    let mut t = empty_board([3, 5], [0, 0]);
    t.tracks[0][1] = true;
    t.tracks[0][0] = true;
    // entry onto square 0 and the step 0 -> 1 are blocked by own pieces
    assert_eq!(t.get_legal_moves(Color::Black, 1), vec![1]);
}

#[test]
fn shared_rosette_blocks_both_colors() {
    let mut s = empty_board([4, 4], [0, 0]);
    s.tracks[0][5] = true;
    s.tracks[1][7] = true;
    assert!(!s.get_legal_moves(Color::Black, 2).contains(&5));
    s.tracks[1][7] = false;
    assert!(s.get_legal_moves(Color::Black, 2).contains(&5));
}

#[test]
fn exit_finishes_without_bonus() {
    let mut s = empty_board([4, 5], [0, 0]);
    s.tracks[0][11] = true;
    assert_eq!(s.get_legal_moves(Color::Black, 3), vec![ENTER_MOVE, 11]);
    let bonus = s.exec_move(Color::Black, 3, 11);
    assert!(!bonus);
    assert_eq!(s.finished, [1, 0]);
    assert!(!s.tracks[0][11]);
    assert!(pieces_ok(&s));
}

#[test]
fn rosette_landings_give_bonus() {
    let mut s = empty_board([2, 5], [0, 0]);
    s.tracks[0][1] = true;
    s.tracks[0][4] = true;
    s.tracks[0][10] = true;
    assert!(s.clone().exec_move(Color::Black, 2, 1));
    assert!(s.clone().exec_move(Color::Black, 3, 4));
    assert!(s.clone().exec_move(Color::Black, 3, 10));
    assert!(!s.clone().exec_move(Color::Black, 1, 4));
    assert!(!s.clone().exec_move(Color::Black, 3, ENTER_MOVE));
    assert!(s.clone().exec_move(Color::Black, 4, ENTER_MOVE));
}

#[test]
fn winner_is_the_color_with_five_finished() {
    assert_eq!(empty_board([0, 5], [5, 0]).get_winner(), Some(Color::Black));
    assert_eq!(empty_board([1, 0], [4, 5]).get_winner(), Some(Color::White));
    assert_eq!(empty_board([1, 1], [4, 4]).get_winner(), None);
}

#[test]
fn play_turn_passes_or_keeps_the_turn() {
    let mut s = GameState::new();
    assert_eq!(s.play_turn(Color::Black, 0, SKIP_MOVE), Color::White);
    assert_eq!(s, GameState::new());
    assert_eq!(s.play_turn(Color::Black, 4, ENTER_MOVE), Color::Black);
    assert_eq!(s.play_turn(Color::Black, 2, ENTER_MOVE), Color::White);
    assert!(s.tracks[0][1] && s.tracks[0][3]);
    assert_eq!(s.pending, [3, 5]);
}

#[test]
fn pieces_are_conserved_over_a_game() {
    let mut s = GameState::new();
    let mut turn = Color::Black;
    let rolls = [2, 4, 1, 3, 2, 2, 4, 0, 3, 1, 2, 3, 4, 2, 1, 2, 3, 2, 2, 1];
    let mut i = 0usize;
    while s.get_winner().is_none() && i < 5000 {
        let roll = rolls[i % rolls.len()];
        let moves = s.get_legal_moves(turn, roll);
        let chosen = if moves.is_empty() { SKIP_MOVE } else { moves[i % moves.len()] };
        turn = s.play_turn(turn, roll, chosen);
        assert!(pieces_ok(&s));
        i += 1;
    }
    assert!(i > 0);
}
