//! Differential testing core for JSON-RPC nodes: the adaptive range pagination of
//! log queries, and the reconciliation of the responses of two endpoints.

pub mod hint;
pub mod json;
pub mod paginate;
pub mod report;
