use royal_ur::ai::select_ai_move;
use royal_ur::game::{Color, GameState, ENTER_MOVE};
use royal_ur::minmax::minmax_select_move;
use royal_ur::search::{roll_weight, scale_of, tail_weight};

fn board() -> GameState {
    GameState { pending: [3, 4], finished: [0, 0], tracks: [[false; 14]; 2] }
}

#[test]
fn no_legal_move_gives_zero() {
    let s = GameState::new();
    assert_eq!(select_ai_move(&s, Color::Black, 0, 2), 0);
    assert_eq!(minmax_select_move(&s, Color::Black, 0, 2), 0);
}

#[test]
fn depth_zero_prefers_finishing_a_piece() {
    let mut s = board();
    s.tracks[0][1] = true;
    s.tracks[0][10] = true;
    s.tracks[1][6] = true;
    assert_eq!(s.get_legal_moves(Color::Black, 4), vec![ENTER_MOVE, 1, 10]);
    assert_eq!(select_ai_move(&s, Color::Black, 4, 0), 10);
    assert_eq!(minmax_select_move(&s, Color::Black, 4, 0), 10);
}

#[test]
fn ties_keep_the_first_move() {
    let mut s = board();
    s.pending = [3, 5];
    s.tracks[0][1] = true;
    s.tracks[0][5] = true;
    // at depth 0 every move scores 0, so the first listed move is kept
    assert_eq!(select_ai_move(&s, Color::Black, 1, 0), ENTER_MOVE);
    assert_eq!(minmax_select_move(&s, Color::Black, 1, 0), ENTER_MOVE);
}

#[test]
fn pruning_keeps_the_selected_move() {
    let mut s = board();
    s.tracks[0][2] = true;
    s.tracks[0][9] = true;
    s.tracks[1][5] = true;
    s.tracks[1][12] = true;
    s.pending = [3, 3];
    for roll in 1..5 {
        for depth in 0..3 {
            for color in [Color::Black, Color::White] {
                assert_eq!(
                    select_ai_move(&s, color, roll, depth),
                    minmax_select_move(&s, color, roll, depth)
                );
            }
        }
    }
}

#[test]
fn pruning_keeps_the_selected_move_from_the_start() {
    let s = GameState::new();
    for roll in 1..5 {
        assert_eq!(
            select_ai_move(&s, Color::Black, roll, 2),
            minmax_select_move(&s, Color::Black, roll, 2)
        );
    }
}

#[test]
fn roll_weights_are_binomial() {
    let w: Vec<i64> = (0..5).map(roll_weight).collect();
    assert_eq!(w, vec![1, 4, 6, 4, 1]);
    let t: Vec<i64> = (0..5).map(tail_weight).collect();
    assert_eq!(t, vec![16, 15, 11, 5, 1]);
    assert_eq!(scale_of(0), 1);
    assert_eq!(scale_of(3), 4096);
}
