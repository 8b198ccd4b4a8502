use vstd::prelude::*;

pub mod arrays;
pub mod command_line;
pub mod commands;
pub mod drag;
pub mod functions;
pub mod ids;
pub mod nodes;
pub mod order;
pub mod patch;
pub mod shapes;
pub mod text;

verus! {

} // verus!
