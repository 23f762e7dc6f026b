//! Core of a terminal network monitor: parsing per-process traffic reports,
//! turning byte counters into rates, reverse-DNS enrichment, and the state
//! of the interactive view.
pub mod config;
pub mod dns;
pub mod filter;
pub mod model;
pub mod nettop;
pub mod rates;
pub mod sorting;
pub mod state;
pub mod text;
