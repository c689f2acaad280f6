pub mod game_state;
pub mod utf8;
