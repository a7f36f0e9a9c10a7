//! A verified dotfile deployment engine.
//!
//! The library plans and models the deployment of template files: source
//! files are read, variables of the form `{{ name }}` are substituted into
//! their text, and the result is written to target locations, optionally
//! routed through a cache directory that mirrors the target tree.
//!
//! All path arithmetic, the substitution engine, the deployment planner and
//! an in-memory filesystem model are verified here. The thin binary around
//! this crate parses arguments, loads configuration files and performs the
//! real filesystem calls that the plan describes.
use vstd::prelude::*;

pub mod fsmodel;
pub mod laws;
pub mod paths;
pub mod plan;
pub mod text;
pub mod vars;

verus! {

/// The token that marks a variable `name` in template text: `{{ name }}`.
pub open spec fn spec_token(name: Seq<u8>) -> Seq<u8> {
    seq![123u8, 123u8, 32u8] + name + seq![32u8, 125u8, 125u8]
}

} // verus!
