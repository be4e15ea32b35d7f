//! The table of how stats are written out.

#![allow(non_snake_case)]

use crate::types::StatFormatter;
use vstd::prelude::*;

verus! {

/// How some stats are written out together.
#[derive(Debug, Clone)]
pub struct Modifier {
    /// The ids of the stats.
    pub ids: Vec<String>,
    pub English: Vec<StatFormatter>,
    pub trade_stats: Option<Vec<TradeStat>>,
}

/// A stat as the trade site knows it.
#[derive(Debug, Clone)]
pub struct TradeStat {
    pub id: String,
    pub text: String,
    pub stat_type: String,
}

} // verus!
