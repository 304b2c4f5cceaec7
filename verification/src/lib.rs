//! Conformance rules over event filters, and the pure steps of a proving service.
pub mod filter;
pub mod rules;
pub mod rules_new;
pub mod operations;
pub mod poam_helper;
pub mod host;
pub mod receipts;
