pub mod ast;
pub mod basic;
pub mod display;
pub mod engine;
pub mod formatter;
pub mod name_map;
pub mod parser;
pub mod round_trip;
pub mod session;
pub mod text;
pub mod unification;
