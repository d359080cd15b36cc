//! A small to-do list core: an application state holding an ordered list of
//! todo items, mutation operations that each yield a serialized snapshot for
//! persistence, a JSON codec for the persisted file, and a command dispatcher.

pub mod codec;
pub mod command;
pub mod item;
pub mod state;

use vstd::prelude::*;

verus! {

} // verus!
