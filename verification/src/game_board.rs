//! Move resolution: validate a proposed placement, record it, detect and
//! remove surrounded groups, and emit the ordered effect sequence describing
//! the board delta.
//!
//! A move onto an occupied space is rejected, and the empty effect sequence
//! is the rejection signal. An accepted move always emits `AddPiece` followed
//! immediately by `TogglePlayer` (the turn advances on every accepted
//! placement), then one `RemovePiece` per captured stone.

use vstd::prelude::*;

use crate::board::{cell_index, in_range, space_view, GameBoard};
use crate::grouping::{captured, captured_set, get_surrounded_positions, occupied};

verus! {

/// A move request: which player places a stone on which space.
#[derive(Clone, Copy, Default, Debug)]
pub struct GameBoardMove {
    pub player: usize,
    pub space: (usize, usize),
}

/// One observable board change, consumed by the presentation layer.
pub enum GameBoardEffectType {
    /// The active turn passed to the other player.
    TogglePlayer,
    /// A stone appeared on the board.
    AddPiece(GameBoardMove),
    /// A stone was captured and left the board.
    RemovePiece(GameBoardMove),
}

/// An entry of the effect sequence returned by move resolution.
pub struct GameBoardEffect {
    pub effect: GameBoardEffectType,
}

/// The board after the move's stone is recorded, before captures.
pub open spec fn placed_board(
    before: Map<(int, int), usize>,
    mv: GameBoardMove,
) -> Map<(int, int), usize> {
    before.insert(space_view(mv.space), mv.player)
}

/// Whether the effect removes a stone from space `s`.
pub open spec fn removes_space(e: GameBoardEffect, s: (int, int)) -> bool {
    match e.effect {
        GameBoardEffectType::RemovePiece(mv) => space_view(mv.space) == s,
        _ => false,
    }
}

/// Whether the effect reports the capture of one stone of board `m`: it is a
/// `RemovePiece` whose space the capture rule removes and whose player is
/// the stone's owner on `m`.
pub open spec fn is_capture_effect(
    m: Map<(int, int), usize>,
    last: (int, int),
    e: GameBoardEffect,
) -> bool {
    match e.effect {
        GameBoardEffectType::RemovePiece(mv) => {
            &&& captured(m, last, space_view(mv.space))
            &&& m[space_view(mv.space)] == mv.player
        },
        _ => false,
    }
}

/// The scan position of the space a `RemovePiece` effect clears.
pub open spec fn remove_index(e: GameBoardEffect) -> int {
    match e.effect {
        GameBoardEffectType::RemovePiece(mv) => cell_index(space_view(mv.space)),
        _ => -1,
    }
}

/// Everything an accepted move resolution guarantees: the stone is placed,
/// exactly the captured stones leave the board, the effect sequence opens
/// with `AddPiece` immediately followed by `TogglePlayer`, every later entry
/// is a `RemovePiece` of one captured stone, every captured space is
/// reported exactly once, and the just-placed stone itself survives.
pub open spec fn accepted_resolution(
    before: Map<(int, int), usize>,
    mv: GameBoardMove,
    after: Map<(int, int), usize>,
    effects: Seq<GameBoardEffect>,
) -> bool {
    let placed = placed_board(before, mv);
    let last = space_view(mv.space);
    &&& after == placed.remove_keys(captured_set(placed, last))
    &&& after.dom().contains(last) && after[last] == mv.player
    &&& effects.len() >= 2
    &&& effects[0].effect == GameBoardEffectType::AddPiece(mv)
    &&& effects[1].effect == GameBoardEffectType::TogglePlayer
    &&& forall|k: int|
        2 <= k < effects.len() ==> is_capture_effect(placed, last, #[trigger] effects[k])
    &&& forall|s: (int, int)|
        #[trigger] captured(placed, last, s) ==> exists|k: int|
            2 <= k < effects.len() && removes_space(#[trigger] effects[k], s)
    &&& forall|k1: int, k2: int|
        2 <= k1 < k2 < effects.len() ==> remove_index(#[trigger] effects[k1]) < remove_index(
            #[trigger] effects[k2],
        )
}

/// Resolve a proposed move against the board.
///
/// A move onto an occupied space is rejected: the board is unchanged and the
/// returned sequence is empty, which is the sole rejection signal. Otherwise
/// the stone is recorded, `AddPiece` and `TogglePlayer` are emitted, and
/// every stone of a liberty-less group other than the group just played
/// into is removed and reported via `RemovePiece`.
#[verifier::loop_isolation(false)]
pub fn try_move(game_board: &mut GameBoard, tried_move: GameBoardMove) -> (effects: Vec<
    GameBoardEffect,
>)
    requires
        old(game_board).wf(),
        in_range(space_view(tried_move.space)),
    ensures
        final(game_board).wf(),
        occupied(old(game_board)@, space_view(tried_move.space)) ==> {
            &&& effects@ == Seq::<GameBoardEffect>::empty()
            &&& final(game_board)@ == old(game_board)@
        },
        !occupied(old(game_board)@, space_view(tried_move.space)) ==> accepted_resolution(
            old(game_board)@,
            tried_move,
            final(game_board)@,
            effects@,
        ),
{
    if game_board.contains_key(tried_move.space) {
        Vec::new()
    } else {
        game_board.insert(tried_move.space, tried_move.player);
        let ghost placed = game_board@;
        let ghost last = space_view(tried_move.space);
        let mut effects: Vec<GameBoardEffect> = Vec::new();
        effects.push(GameBoardEffect { effect: GameBoardEffectType::AddPiece(tried_move) });
        effects.push(GameBoardEffect { effect: GameBoardEffectType::TogglePlayer });

        let surrounded = get_surrounded_positions(game_board, tried_move);

        let mut idx: usize = 0;
        while idx < surrounded.len()
            invariant
                idx <= surrounded@.len(),
                game_board.wf(),
                forall|s: (int, int)|
                    #![trigger game_board@.dom().contains(s)]
                    game_board@.dom().contains(s) <==> (placed.dom().contains(s) && !exists|k: int|
                        0 <= k < idx && space_view(#[trigger] surrounded@[k]) == s),
                forall|s: (int, int)|
                    #![trigger game_board@[s]]
                    game_board@.dom().contains(s) ==> game_board@[s] == placed[s],
                effects@.len() == idx + 2,
                effects@[0].effect == GameBoardEffectType::AddPiece(tried_move),
                effects@[1].effect == GameBoardEffectType::TogglePlayer,
                forall|k: int|
                    2 <= k < effects@.len() ==> is_capture_effect(
                        placed,
                        last,
                        #[trigger] effects@[k],
                    ) && removes_space(effects@[k], space_view(surrounded@[k - 2])),
            decreases surrounded@.len() - idx,
        {
            let pos = surrounded[idx];
            proof {
                assert(captured(placed, last, space_view(surrounded@[idx as int])));
                assert forall|k: int| 0 <= k < idx implies space_view(#[trigger] surrounded@[k])
                    != space_view(surrounded@[idx as int]) by {
                    assert(surrounded@[k] != surrounded@[idx as int]);
                }
                assert(game_board@.dom().contains(space_view(pos)));
            }
            let removed = game_board.remove(pos);
            let piece_player = removed.unwrap();
            effects.push(
                GameBoardEffect {
                    effect: GameBoardEffectType::RemovePiece(
                        GameBoardMove { player: piece_player, space: pos },
                    ),
                },
            );
            idx = idx + 1;
            proof {
                assert forall|s: (int, int)| #[trigger]
                    game_board@.dom().contains(s) <==> (placed.dom().contains(s) && !exists|k: int|
                        0 <= k < idx && space_view(#[trigger] surrounded@[k]) == s) by {
                    if s == space_view(pos) {
                        assert(space_view(surrounded@[idx - 1]) == s);
                    } else {
                        if exists|k: int|
                            0 <= k < idx && space_view(#[trigger] surrounded@[k]) == s {
                            let k = choose|k: int|
                                0 <= k < idx && space_view(#[trigger] surrounded@[k]) == s;
                            assert(k < idx - 1);
                            assert(exists|k2: int|
                                0 <= k2 < idx - 1 && space_view(#[trigger] surrounded@[k2]) == s);
                        }
                        if exists|k: int|
                            0 <= k < idx - 1 && space_view(#[trigger] surrounded@[k]) == s {
                            let k = choose|k: int|
                                0 <= k < idx - 1 && space_view(#[trigger] surrounded@[k]) == s;
                            assert(0 <= k < idx && space_view(surrounded@[k]) == s);
                        }
                    }
                }
            }
        }
        proof {
            let cs = captured_set(placed, last);
            assert forall|s: (int, int)| #[trigger]
                game_board@.dom().contains(s) <==> (placed.dom().contains(s) && !cs.contains(
                    s,
                )) by {
                if captured(placed, last, s) {
                    let k = choose|k: int|
                        0 <= k < surrounded@.len() && space_view(#[trigger] surrounded@[k]) == s;
                    assert(0 <= k < idx && space_view(surrounded@[k]) == s);
                }
                if exists|k: int| 0 <= k < idx && space_view(#[trigger] surrounded@[k]) == s {
                    let k = choose|k: int|
                        0 <= k < idx && space_view(#[trigger] surrounded@[k]) == s;
                    assert(captured(placed, last, space_view(surrounded@[k])));
                }
            }
            assert(game_board@ =~= placed.remove_keys(cs));
            // The just-placed stone's group is exempt, so the stone stays.
            assert(!captured(placed, last, last));
            assert(game_board@.dom().contains(last));
            // Remove effects inherit the detector's strict scan order.
            assert forall|k1: int, k2: int|
                2 <= k1 < k2 < effects@.len() implies remove_index(#[trigger] effects@[k1])
                < remove_index(#[trigger] effects@[k2]) by {
                assert(removes_space(effects@[k1], space_view(surrounded@[k1 - 2])));
                assert(removes_space(effects@[k2], space_view(surrounded@[k2 - 2])));
                assert(cell_index(space_view(surrounded@[k1 - 2])) < cell_index(space_view(
                    surrounded@[k2 - 2],
                )));
            }
            // Every captured space is reported by one remove effect.
            assert forall|s: (int, int)| #[trigger]
                captured(placed, last, s) implies exists|k: int|
                2 <= k < effects@.len() && removes_space(#[trigger] effects@[k], s) by {
                let k = choose|k: int|
                    0 <= k < surrounded@.len() && space_view(#[trigger] surrounded@[k]) == s;
                assert(removes_space(effects@[k + 2], space_view(surrounded@[k])));
                assert(2 <= k + 2 < effects@.len() && removes_space(effects@[k + 2], s));
            }
        }
        effects
    }
}

/// How many turn toggles an effect sequence contains.
pub open spec fn toggle_count(effects: Seq<GameBoardEffect>) -> nat
    decreases effects.len(),
{
    if effects.len() == 0 {
        0
    } else {
        toggle_count(effects.drop_last()) + (if effects.last().effect is TogglePlayer {
            1nat
        } else {
            0nat
        })
    }
}

/// The active player after `toggles` turn toggles starting from `turn`.
pub open spec fn turn_after(turn: int, toggles: nat) -> int
    decreases toggles,
{
    if toggles == 0 {
        turn
    } else {
        (turn_after(turn, (toggles - 1) as nat) + 1) % 2
    }
}

/// Fold one resolution's effect stream over the active-turn counter, as the
/// presentation layer does: each `TogglePlayer` advances the turn to
/// `(turn + 1) % 2`; every other effect leaves it alone.
#[verifier::loop_isolation(false)]
pub fn apply_turn_effects(player_turn: usize, effects: &Vec<GameBoardEffect>) -> (new_turn: usize)
    requires
        player_turn < 2,
    ensures
        new_turn == turn_after(player_turn as int, toggle_count(effects@)),
        new_turn < 2,
{
    let mut turn: usize = player_turn;
    let mut k: usize = 0;
    while k < effects.len()
        invariant
            k <= effects@.len(),
            turn < 2,
            turn == turn_after(player_turn as int, toggle_count(effects@.subrange(0, k as int))),
        decreases effects@.len() - k,
    {
        proof {
            assert(effects@.subrange(0, k + 1).drop_last() =~= effects@.subrange(0, k as int));
            assert(effects@.subrange(0, k + 1).last() == effects@[k as int]);
        }
        match effects[k].effect {
            GameBoardEffectType::TogglePlayer => {
                turn = (turn + 1) % 2;
            },
            _ => {},
        }
        k = k + 1;
    }
    proof {
        assert(effects@.subrange(0, effects@.len() as int) =~= effects@);
    }
    turn
}

/// Law: the turn alternates. After an even number of toggles the starting
/// player is active again; after an odd number the other player is.
pub proof fn lemma_turn_alternates(turn: int, toggles: nat)
    requires
        0 <= turn < 2,
    ensures
        turn_after(turn, toggles) == if toggles % 2 == 0 {
            turn
        } else {
            1 - turn
        },
    decreases toggles,
{
    if toggles > 0 {
        lemma_turn_alternates(turn, (toggles - 1) as nat);
    }
}

/// Law: folding one effect stream after another toggles the turn as many
/// times as both streams together, so `q` consecutive accepted resolutions
/// (one toggle each, by [`lemma_resolution_single_toggle`]) leave the turn at
/// `turn_after(start, q)`.
pub proof fn lemma_turn_after_adds(turn: int, a: nat, b: nat)
    ensures
        turn_after(turn_after(turn, a), b) == turn_after(turn, a + b),
    decreases b,
{
    if b > 0 {
        lemma_turn_after_adds(turn, a, (b - 1) as nat);
    }
}

/// A sequence without any toggle effect contains zero toggles.
proof fn lemma_toggle_count_none(effects: Seq<GameBoardEffect>)
    requires
        forall|k: int| 0 <= k < effects.len() ==> !((#[trigger] effects[k]).effect is TogglePlayer),
    ensures
        toggle_count(effects) == 0,
    decreases effects.len(),
{
    if effects.len() > 0 {
        lemma_toggle_count_none(effects.drop_last());
    }
}

/// A sequence whose only toggle effect sits at position `t` contains exactly
/// one toggle.
proof fn lemma_toggle_count_single(effects: Seq<GameBoardEffect>, t: int)
    requires
        0 <= t < effects.len(),
        forall|k: int|
            0 <= k < effects.len() ==> (((#[trigger] effects[k]).effect is TogglePlayer) <==> k
                == t),
    ensures
        toggle_count(effects) == 1,
    decreases effects.len(),
{
    if t == effects.len() - 1 {
        lemma_toggle_count_none(effects.drop_last());
    } else {
        lemma_toggle_count_single(effects.drop_last(), t);
    }
}

/// Law: one accepted resolution toggles the turn exactly once, whatever
/// captures follow; combined with [`lemma_turn_alternates`], after `q`
/// consecutive accepted moves the active player is the starting player
/// exactly when `q` is even. A rejected move returns no effects and so
/// leaves the turn alone.
pub proof fn lemma_resolution_single_toggle(
    before: Map<(int, int), usize>,
    mv: GameBoardMove,
    after: Map<(int, int), usize>,
    effects: Seq<GameBoardEffect>,
)
    requires
        accepted_resolution(before, mv, after, effects),
    ensures
        toggle_count(effects) == 1,
        turn_after(0, toggle_count(effects)) == 1,
        turn_after(1, toggle_count(effects)) == 0,
{
    assert forall|k: int|
        0 <= k < effects.len() implies (((#[trigger] effects[k]).effect is TogglePlayer) <==> k
        == 1) by {
        if k >= 2 {
            assert(is_capture_effect(
                placed_board(before, mv),
                space_view(mv.space),
                effects[k],
            ));
        }
    }
    lemma_toggle_count_single(effects, 1);
    lemma_turn_alternates(0, 1);
    lemma_turn_alternates(1, 1);
}

} // verus!
