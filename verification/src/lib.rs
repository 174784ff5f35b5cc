//! The model readings behind a workspace chart: which declarations a
//! survey draws, where each one sits, and which edges land on which anchor.

pub mod data_build;
pub mod data_frames;
pub mod fn_build;
pub mod data_model;
pub mod data_rest;
pub mod data_sheet;
pub mod fn_calls;
pub mod fn_fold;
pub mod fn_house;
pub mod fn_inside;
pub mod fn_laws;
pub mod fn_keys;
pub mod fn_marks;
pub mod fn_model;
pub mod fn_query;
pub mod fn_rank;
pub mod fn_reading;
pub mod fn_runs;
pub mod fn_sheet;
pub mod fn_tier;
pub mod fn_wires;
pub mod fn_touch;
pub mod key_laws;
pub mod kinds;
pub mod paths;
pub mod reach;
pub mod sort;
pub mod survey;
pub mod text;
pub mod trail;
pub mod wire;
