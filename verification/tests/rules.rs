//! End-to-end tests of the board rules engine: move validation, effect
//! ordering, group detection, capture resolution and turn sequencing.

use goban::board::GameBoard;
use goban::game_board::{
    apply_turn_effects, try_move, GameBoardEffect, GameBoardEffectType, GameBoardMove,
};
use goban::grouping::get_surrounded_positions;

fn mv(player: usize, space: (usize, usize)) -> GameBoardMove {
    GameBoardMove { player, space }
}

fn is_add_of(e: &GameBoardEffect, player: usize, space: (usize, usize)) -> bool {
    match e.effect {
        GameBoardEffectType::AddPiece(m) => m.player == player && m.space == space,
        _ => false,
    }
}

fn is_toggle(e: &GameBoardEffect) -> bool {
    matches!(e.effect, GameBoardEffectType::TogglePlayer)
}

fn is_remove_of(e: &GameBoardEffect, player: usize, space: (usize, usize)) -> bool {
    match e.effect {
        GameBoardEffectType::RemovePiece(m) => m.player == player && m.space == space,
        _ => false,
    }
}

fn is_remove(e: &GameBoardEffect) -> bool {
    matches!(e.effect, GameBoardEffectType::RemovePiece(_))
}

/// Play a sequence of moves, asserting every one of them is accepted.
fn play_all(board: &mut GameBoard, moves: &[GameBoardMove]) {
    for m in moves {
        let effects = try_move(board, *m);
        assert!(!effects.is_empty(), "move unexpectedly rejected");
    }
}

#[test]
fn new_board_is_empty() {
    let board = GameBoard::new();
    assert_eq!(board.get((0, 0)), None);
    assert_eq!(board.get((9, 9)), None);
    assert_eq!(board.get((18, 18)), None);
    assert!(!board.contains_key((3, 7)));
}

#[test]
fn default_board_is_empty() {
    let board = GameBoard::default();
    assert_eq!(board.get((4, 5)), None);
}

#[test]
fn accepted_move_records_stone_and_emits_add_then_toggle() {
    let mut board = GameBoard::new();
    let effects = try_move(&mut board, mv(0, (3, 4)));
    assert_eq!(effects.len(), 2);
    assert!(is_add_of(&effects[0], 0, (3, 4)));
    assert!(is_toggle(&effects[1]));
    assert_eq!(board.get((3, 4)), Some(0));
}

#[test]
fn move_onto_occupied_space_is_rejected_and_board_unchanged() {
    let mut board = GameBoard::new();
    play_all(&mut board, &[mv(0, (5, 5))]);
    let effects = try_move(&mut board, mv(1, (5, 5)));
    assert!(effects.is_empty());
    assert_eq!(board.get((5, 5)), Some(0));
}

#[test]
fn rejected_move_also_rejected_for_same_player() {
    let mut board = GameBoard::new();
    play_all(&mut board, &[mv(0, (7, 7))]);
    let effects = try_move(&mut board, mv(0, (7, 7)));
    assert!(effects.is_empty());
    assert_eq!(board.get((7, 7)), Some(0));
}

#[test]
fn corner_stone_survives_its_own_placement() {
    let mut board = GameBoard::new();
    let effects = try_move(&mut board, mv(0, (0, 0)));
    assert_eq!(effects.len(), 2);
    assert_eq!(board.get((0, 0)), Some(0));
}

#[test]
fn far_corner_stone_survives_its_own_placement() {
    let mut board = GameBoard::new();
    let effects = try_move(&mut board, mv(1, (18, 18)));
    assert_eq!(effects.len(), 2);
    assert_eq!(board.get((18, 18)), Some(1));
}

#[test]
fn empty_interior_stone_survives_its_own_placement() {
    let mut board = GameBoard::new();
    let effects = try_move(&mut board, mv(1, (9, 9)));
    assert_eq!(effects.len(), 2);
    assert_eq!(board.get((9, 9)), Some(1));
}

#[test]
fn surrounded_center_stone_is_captured() {
    let mut board = GameBoard::new();
    play_all(
        &mut board,
        &[mv(0, (5, 5)), mv(1, (4, 5)), mv(1, (6, 5)), mv(1, (5, 4))],
    );
    assert_eq!(board.get((5, 5)), Some(0));

    let effects = try_move(&mut board, mv(1, (5, 6)));
    assert!(effects.iter().any(|e| is_remove_of(e, 0, (5, 5))));
    assert_eq!(board.get((5, 5)), None);
    // The four surrounding stones stay.
    assert_eq!(board.get((4, 5)), Some(1));
    assert_eq!(board.get((6, 5)), Some(1));
    assert_eq!(board.get((5, 4)), Some(1));
    assert_eq!(board.get((5, 6)), Some(1));
}

#[test]
fn capture_effects_come_strictly_after_add_and_toggle() {
    let mut board = GameBoard::new();
    play_all(
        &mut board,
        &[mv(0, (5, 5)), mv(1, (4, 5)), mv(1, (6, 5)), mv(1, (5, 4))],
    );
    let effects = try_move(&mut board, mv(1, (5, 6)));
    assert_eq!(effects.len(), 3);
    assert!(is_add_of(&effects[0], 1, (5, 6)));
    assert!(is_toggle(&effects[1]));
    assert!(effects[2..].iter().all(is_remove));
    assert_eq!(effects.iter().filter(|e| is_toggle(e)).count(), 1);
}

#[test]
fn far_corner_capture() {
    let mut board = GameBoard::new();
    play_all(&mut board, &[mv(0, (18, 18)), mv(1, (17, 18))]);
    let effects = try_move(&mut board, mv(1, (18, 17)));
    assert!(effects.iter().any(|e| is_remove_of(e, 0, (18, 18))));
    assert_eq!(board.get((18, 18)), None);
}

#[test]
fn self_group_with_zero_liberties_is_exempt_in_its_own_resolution() {
    // Regression pin for the unresolved self-kill case: a move that completes
    // a zero-liberty group for the placing player is never self-captured in
    // the same resolution.
    let mut board = GameBoard::new();
    play_all(&mut board, &[mv(1, (0, 1)), mv(1, (1, 0))]);
    let effects = try_move(&mut board, mv(0, (0, 0)));
    assert_eq!(effects.len(), 2, "no stone may be removed");
    assert_eq!(board.get((0, 0)), Some(0));
    assert_eq!(board.get((0, 1)), Some(1));
    assert_eq!(board.get((1, 0)), Some(1));
}

#[test]
fn own_non_move_group_can_be_captured_via_forward_scan_split() {
    // The raster scan merges groups only through up/left links, so the arm
    // {(0,2),(1,2)} stays a separate group from {(1,0),(1,1)} even though
    // (1,1) and (1,2) touch. Completing the lower arm with (1,1) leaves the
    // upper arm without liberties and outside the exempt group, so the
    // mover's own stones (0,2) and (1,2) are captured.
    let mut board = GameBoard::new();
    play_all(
        &mut board,
        &[
            mv(0, (0, 2)),
            mv(0, (1, 0)),
            mv(0, (1, 2)),
            mv(1, (0, 1)),
            mv(1, (0, 3)),
            mv(1, (2, 2)),
            mv(1, (1, 3)),
        ],
    );
    let effects = try_move(&mut board, mv(0, (1, 1)));
    assert_eq!(effects.len(), 4);
    assert!(is_add_of(&effects[0], 0, (1, 1)));
    assert!(is_toggle(&effects[1]));
    assert!(effects.iter().any(|e| is_remove_of(e, 0, (0, 2))));
    assert!(effects.iter().any(|e| is_remove_of(e, 0, (1, 2))));
    assert_eq!(board.get((0, 2)), None);
    assert_eq!(board.get((1, 2)), None);
    // The exempt group of the move itself stays, zero liberties or not.
    assert_eq!(board.get((1, 1)), Some(0));
    assert_eq!(board.get((1, 0)), Some(0));
}

#[test]
fn turn_alternates_over_accepted_moves() {
    // Five accepted moves (the last one captures): the active turn ends on
    // 5 % 2 == 1, captures notwithstanding.
    let mut board = GameBoard::new();
    let moves = [
        mv(0, (5, 5)),
        mv(1, (4, 5)),
        mv(1, (6, 5)),
        mv(1, (5, 4)),
        mv(1, (5, 6)),
    ];
    let mut turn: usize = 0;
    for (k, m) in moves.iter().enumerate() {
        let effects = try_move(&mut board, *m);
        assert!(!effects.is_empty());
        turn = apply_turn_effects(turn, &effects);
        assert_eq!(turn, (k + 1) % 2);
    }
    assert_eq!(turn, 1);
}

#[test]
fn rejected_move_leaves_turn_alone() {
    let mut board = GameBoard::new();
    let mut turn: usize = 0;
    let effects = try_move(&mut board, mv(0, (2, 2)));
    turn = apply_turn_effects(turn, &effects);
    assert_eq!(turn, 1);
    let rejected = try_move(&mut board, mv(1, (2, 2)));
    assert!(rejected.is_empty());
    turn = apply_turn_effects(turn, &rejected);
    assert_eq!(turn, 1);
}

#[test]
fn detector_finds_nothing_on_empty_board() {
    let board = GameBoard::new();
    let surrounded = get_surrounded_positions(&board, mv(0, (9, 9)));
    assert!(surrounded.is_empty());
}

#[test]
fn detector_finds_nothing_when_all_groups_have_liberties() {
    let mut board = GameBoard::new();
    play_all(&mut board, &[mv(0, (5, 5)), mv(1, (4, 5)), mv(1, (6, 5))]);
    let surrounded = get_surrounded_positions(&board, mv(1, (6, 5)));
    assert!(surrounded.is_empty());
}

#[test]
fn detector_is_idempotent_on_unchanged_board() {
    // Board holding a zero-liberty group (the corner stone was exempt when
    // it was placed, so it is still there); the probe move names an empty
    // space, so nothing is exempt and the corner group is reported.
    let mut board = GameBoard::new();
    play_all(&mut board, &[mv(1, (0, 1)), mv(1, (1, 0)), mv(0, (0, 0))]);
    let probe = mv(1, (18, 18));
    let first = get_surrounded_positions(&board, probe);
    let second = get_surrounded_positions(&board, probe);
    assert_eq!(first, vec![(0usize, 0usize)]);
    assert_eq!(second, first);
}

#[test]
fn detector_exempts_the_group_of_the_designated_move() {
    let mut board = GameBoard::new();
    play_all(&mut board, &[mv(1, (0, 1)), mv(1, (1, 0)), mv(0, (0, 0))]);
    // Probing with the corner stone itself as the current move exempts its
    // group, so nothing qualifies for capture.
    let surrounded = get_surrounded_positions(&board, mv(0, (0, 0)));
    assert!(surrounded.is_empty());
}

#[test]
fn remove_effects_are_reported_in_row_major_order() {
    let mut board = GameBoard::new();
    play_all(
        &mut board,
        &[
            mv(0, (0, 2)),
            mv(0, (1, 0)),
            mv(0, (1, 2)),
            mv(1, (0, 1)),
            mv(1, (0, 3)),
            mv(1, (2, 2)),
            mv(1, (1, 3)),
        ],
    );
    let effects = try_move(&mut board, mv(0, (1, 1)));
    assert!(is_remove_of(&effects[2], 0, (0, 2)));
    assert!(is_remove_of(&effects[3], 0, (1, 2)));
}
