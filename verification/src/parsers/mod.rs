//! The tables that the catalog is built from, as they are read.

pub mod dat;
pub mod lists;
pub mod poe2db;
pub mod stat_desc;
