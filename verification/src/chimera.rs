//! The configuration the streaming handlers carry, and the served
//! version string.

use vstd::prelude::*;
use crate::query::SortRule;

verus! {

pub const CHIMERA_LATEST_VERSION: &'static str = "0.6.9";

/// The immutable configuration every streaming handler reads.
pub struct AppStateWs {
    pub sort_rules: Vec<SortRule>,
    pub paginate: u64,
    pub logs_disabled: bool,
}

} // verus!
