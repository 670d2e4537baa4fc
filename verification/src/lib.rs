//! Verified core of a numeric formula language for computed catalog attributes,
//! and of the rules that load, normalise and check formula configurations.

pub mod text;
pub mod numeral;
pub mod formula;
pub mod parser;
pub mod precedence;
pub mod config;
pub mod cycles;
pub mod rules;
pub mod definition;
pub mod loading;
pub mod events;
