//! Game rules of a small game collection: dice poker (Kniffel), Go,
//! Minesweeper and chess move generation, each with its contracts.

pub mod rng;
pub mod text;
pub mod sorting;
pub mod kniffel;
pub mod kniffel_bot;
pub mod go;
pub mod chess;
pub mod chess_game;
pub mod minesweeper;
pub mod minesweeper_ui;
pub mod minesweeper_entry;
pub mod go_score;
pub mod server;
pub mod go_session;
pub mod go_ai;
pub mod kniffel_session;
pub mod lobby;
