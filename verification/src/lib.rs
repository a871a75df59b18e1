//! Small programs with their logic verified: warm-up functions, a
//! flood-it game, a bag-rules puzzle solver, text parsers, a card-deck data
//! model, and the request checks, routing and counting of card and message
//! services.

mod chance;
pub mod basics;
pub mod graph;
pub mod text;
pub mod floodit;
pub mod bytes;
pub mod aoc;
pub mod parsing;
pub mod cards;
pub mod services;
pub mod monitoring;
pub mod messaging;
