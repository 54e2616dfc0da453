//! The microservice simulator: requests that visit a graph of endpoints.

pub mod balancer;
pub mod callgraph;
pub mod downstream;
pub mod histogram;
pub mod hop;
pub mod journey;
pub mod microservice_stats;
pub mod occupancy;
pub mod replica;
pub mod scaling;
pub mod sidecar;
pub mod simulate;
pub mod topology;
pub mod trace;
