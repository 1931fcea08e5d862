//! Spaced-repetition scheduling: per-item review records graded after the
//! SM-2 rules (`state`), and the store that keeps them and picks the next
//! due item (`db`).
use vstd::prelude::*;

pub mod db;
pub mod state;

verus! {

} // verus!
