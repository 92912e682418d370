//! Verified core of the rinha backend infrastructure: the page-based
//! storage engine (pages, the write/resume state machine, the builder)
//! and the upstream selection strategies of the load balancers.
pub mod model;
pub mod strategy;
