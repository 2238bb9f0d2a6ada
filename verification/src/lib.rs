use vstd::prelude::*;

pub mod text;
pub mod clock;
pub mod note;
pub mod manager;
pub mod laws;
pub mod search;
pub mod storage;
pub mod stats;
pub mod export;
pub mod layout;
pub mod persistence;
pub mod menu;

verus! {
}
