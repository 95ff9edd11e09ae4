//! Local model checking of fixpoint equation systems through symbolic
//! parity games.
pub mod basis;
pub mod compose;
pub mod counter;
pub mod fixpoint;
pub mod formula;
pub mod game;
pub mod moves;
pub mod mucalc;
pub mod normalizer;
pub mod parse;
pub mod pg;
pub mod render;
pub mod run;
pub mod solver;
pub mod successors;
pub mod tables;
