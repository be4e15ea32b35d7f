//! Rules of item crafting: an item's modifiers, the currencies that change
//! them, and strategies that pick the next currency from the item's state.

pub mod builder;
pub mod catalog;
pub mod crafting;
pub mod currency;
pub mod display;
pub mod hashvec;
pub mod internal;
pub mod io;
pub mod item_state;
pub mod omen;
pub mod parsers;
pub mod strategy;
pub mod types;
pub mod util;

pub use internal::init;
