//! Verified core of a mod and translation manager for Slay the Spire 2.
use vstd::prelude::*;

pub mod text;
pub mod paths;
pub mod language;
pub mod logs;
pub mod model;
pub mod settings;
pub mod roots;
pub mod setup;
pub mod deleted;
pub mod order;
pub mod rows;
pub mod dashboard;
pub mod diagnostics;
pub mod sheet;
pub mod apply;
pub mod cache;
pub mod toggles;
pub mod package;
pub mod node;
pub mod patching;
pub mod replace;
pub mod patches;
pub mod json;
pub mod manifest;
pub mod retarget;
pub mod tree;
pub mod preview_cache;
pub mod detect;
pub mod resources;
pub mod walk;
pub mod names;
pub mod extract;
pub mod compare;

verus! {

} // verus!
