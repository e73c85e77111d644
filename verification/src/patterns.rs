//! Canonical Life pattern texts: `O` is alive, `.` is dead.

use vstd::prelude::*;

verus! {

/// Glider: a small spaceship that moves diagonally.
pub const GLIDER: &'static str = ".O.\n..O\nOOO";

/// Gosper Glider Gun: produces a new glider every 30 generations.
pub const GOSPER_GUN: &'static str = "........................O...........\n......................O.O...........\n............OO......OO............OO\n...........O...O....OO............OO\nOO........O.....O...OO..............\nOO........O...O.OO....O.O...........\n..........O.....O.......O...........\n...........O...O....................\n............OO......................";

/// R-pentomino: a tiny pattern with chaotic long-lived evolution.
pub const R_PENTOMINO: &'static str = ".OO\nOO.\n.O.";

/// Lightweight Spaceship (LWSS): moves horizontally.
pub const LWSS: &'static str = ".O..O\nO....\nO...O\nOOOO.";

/// Pulsar: a period-3 oscillator.
pub const PULSAR: &'static str = "..OOO...OOO..\n.............\nO....O.O....O\nO....O.O....O\nO....O.O....O\n..OOO...OOO..\n.............\n..OOO...OOO..\nO....O.O....O\nO....O.O....O\nO....O.O....O\n.............\n..OOO...OOO..";

} // verus!
