//! Rotom: compiler and decompiler for the Gen 4 Pokémon scripting engine.

pub mod compiler;
pub mod constant_db;
pub mod database;
pub mod decompiler;
pub mod helpers;
pub mod levelscript;
pub mod std_specs;
pub mod text;
