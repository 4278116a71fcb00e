use vstd::prelude::*;

pub mod text;
pub mod config;
pub mod setup;
pub mod exec;
pub mod shell;
pub mod icons;
pub mod paths;
pub mod installer;

verus! {

} // verus!
