//! Game logic of Canyon Raider: the high-score board and its text format,
//! the cheat-code engine, the game-phase state machine and the integer
//! parts of canyon generation and dithering.

pub mod cheats;
pub mod hud;
pub mod palette;
pub mod phase;
pub mod scores;
pub mod text;
pub mod world;
