//! Canonical `Show.Name.SxxExx.Remainder.ext` names for loosely named episode
//! files.
//!
//! A run goes through the modules in this order: `intake` says which files
//! are taken in, `parser` reads each file name, `fallback` reads the show name
//! and season given from outside where a name lacks them, `planner` works out
//! the new names and the plan of renames, and `conflicts` checks the plan
//! against the files that exist. The library touches no file: it is handed
//! names and hands back a plan.

pub mod chars;
pub mod conflicts;
pub mod fallback;
pub mod intake;
pub mod markers;
pub mod normalize;
pub mod parser;
pub mod paths;
pub mod plan;
pub mod planner;
pub mod roundtrip;
pub mod shape;
pub mod text;
pub mod title;
pub mod tokens;
