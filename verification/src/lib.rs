//! A verified rules engine for a Go-like stone-placement game on a fixed
//! 19 x 19 grid.
//!
//! The engine validates a proposed placement, records it on the board,
//! partitions the occupied spaces into connected same-owner groups while
//! tracking each group's liberties, removes every group that has no liberty
//! left (except the group the current move belongs to), and reports the whole
//! board delta as an ordered sequence of effects. Presentation concerns
//! (rendering, input capture, audio) live outside this crate and only consume
//! the effect stream.

pub mod board;
pub mod game_board;
pub mod game_state;
pub mod grouping;
