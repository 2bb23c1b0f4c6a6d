//! Procurement indicators and field coverage for OCDS data, as verified logic.
pub mod coverage;
pub mod error;
pub mod json;
pub mod queue;
pub mod sets;
pub mod table;
pub mod text;
pub mod indicators;
