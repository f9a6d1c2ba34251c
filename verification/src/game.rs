//! The play/win/quit state machine that governs when moves are applied.

use crate::level::World;
use vstd::prelude::*;

verus! {

/// The phase of a game session. `Play` accepts moves; `Win` is reached the
/// moment a successful move leaves every box on a goal and never goes back to
/// `Play`; `Quit` is terminal.
#[derive(Clone, Copy, Debug, PartialEq, Eq, Structural)]
pub enum GameState {
    Play,
    Win,
    Quit,
}

/// A discrete input handed to the engine by a front-end: one of the four unit
/// directions, or an explicit quit.
#[derive(Clone, Copy, Debug, PartialEq, Eq, Structural)]
pub enum Command {
    Up,
    Down,
    Left,
    Right,
    Quit,
}

impl Command {
    /// The displacement a directional command asks for; a quit asks for none.
    pub open spec fn delta(self) -> (int, int) {
        match self {
            Command::Up => (0, -1),
            Command::Down => (0, 1),
            Command::Left => (-1, 0),
            Command::Right => (1, 0),
            Command::Quit => (0, 0),
        }
    }
}

/// Drive one session step: a quit command quits from any state; in `Play` a
/// directional command is applied to the world, and the state becomes `Win`
/// exactly when that move succeeded and left every box on a goal; in `Win`
/// and `Quit` directional commands change nothing.
pub fn step(world: &mut World, state: GameState, cmd: Command) -> (next: GameState)
    requires
        old(world).wf(),
    ensures
        final(world).wf(),
        final(world).map == old(world).map,
        final(world).box_set().len() == old(world).box_set().len(),
        cmd is Quit ==> next is Quit && final(world).player_pos == old(world).player_pos
            && final(world).boxes@ == old(world).boxes@,
        !(cmd is Quit) && !(state is Play) ==> next == state
            && final(world).player_pos == old(world).player_pos
            && final(world).boxes@ == old(world).boxes@,
        !(cmd is Quit) && state is Play ==> ({
            let d = cmd.delta();
            let moved = old(world).move_allowed(d.0, d.1);
            &&& moved == (final(world).player() != old(world).player())
            &&& (!moved ==> final(world).player_pos == old(world).player_pos
                && final(world).boxes@ == old(world).boxes@ && next is Play)
            &&& (moved ==> final(world).player() == old(world).move_target(d.0, d.1))
            &&& (moved ==> ({
                let t = old(world).move_target(d.0, d.1);
                let u = old(world).push_target(d.0, d.1);
                if old(world).box_at(t.0, t.1) {
                    final(world).box_set() == old(world).box_set().remove(t).insert(u)
                } else {
                    final(world).boxes@ == old(world).boxes@
                }
            }))
            &&& (moved ==> next == (if final(world).spec_won() {
                GameState::Win
            } else {
                GameState::Play
            }))
        }),
{
    match cmd {
        Command::Quit => GameState::Quit,
        _ => {
            match state {
                GameState::Play => {
                    let dx: isize = if matches!(cmd, Command::Left) {
                        -1
                    } else if matches!(cmd, Command::Right) {
                        1
                    } else {
                        0
                    };
                    let dy: isize = if matches!(cmd, Command::Up) {
                        -1
                    } else if matches!(cmd, Command::Down) {
                        1
                    } else {
                        0
                    };
                    let moved = world.try_move_player(dx, dy);
                    if moved && world.is_won() {
                        GameState::Win
                    } else {
                        GameState::Play
                    }
                },
                GameState::Win => GameState::Win,
                GameState::Quit => GameState::Quit,
            }
        },
    }
}

} // verus!
