//! A FreeCell solver: the game-state model with its move generator, a
//! heuristic, and a best-first search over canonically hashed positions.
//!
//! The contracts speak of a position as a [`board::Board`] of plain
//! sequences. [`rules`] says which moves a position accepts and what they
//! do, [`generator`] which moves it offers, [`canon`] what its hash is, and
//! [`search`] what a search finds; [`game`], [`moves`], [`heap`] and
//! [`solver`] hold the code that runs. [`deck`] deals, and [`screen`] and
//! [`ocr`] serve a front end that reads a deal off the screen.

pub mod action;
pub mod board;
pub mod canon;
pub mod card;
pub mod deal;
pub mod deck;
pub mod game;
pub mod generator;
pub mod heap;
pub mod heuristic;
pub mod moves;
pub mod ocr;
pub mod promotion;
pub mod rules;
pub mod screen;
pub mod search;
pub mod sequences;
pub mod solver;
