//! Normalisation and statistics for marketplace item listings: raw listings are
//! turned into canonical items, whose modifiers and attribute requirements are
//! folded into value distributions, co-occurrence tables and requirement
//! distributions.

pub mod numeric;
pub mod errors;

pub mod item_type;
pub mod stat_requirements;
pub mod poe_item;
pub mod cleaned_item;
pub mod item;

pub mod stats;
pub mod modifier;
pub mod stat_analyzer;
pub mod report;
pub mod modifier_analyzer;

pub mod base_data;
pub mod trade_api;
pub mod item_fetcher;
