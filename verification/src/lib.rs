pub mod game;
pub mod outbound;
pub mod wire;
