//! A sliding-tile merge game on a square grid. A move collapses every row
//! or column toward one side: equal neighbouring tiles merge once into
//! their double, then the tiles slide into the gaps, order kept. The board
//! model, the move engine, and the spawner are specified and verified;
//! `lanes` holds the one-dimensional pass logic, `game` the board.
pub mod game;
pub mod lanes;
