//! Verified core of a pair of queueing simulators: a load balancer in front of
//! a server pool, and a graph of replicated microservices.

pub mod approx;
pub mod approx_audit;
pub mod key_map;
pub mod lb_centralized_audit;
pub mod lb_flags;
pub mod lb_pull_audit;
pub mod lb_simulate;
pub mod ledger;
pub mod load_balancer;
pub mod load_registry;
pub mod microservice;
pub mod ms_centralized_audit;
pub mod ms_jbsq_audit;
pub mod policy;
pub mod prequal;
pub mod queues;
pub mod rng;
pub mod samples;
pub mod scheduling;
pub mod server;
pub mod subset;
pub mod subset_audit;
pub mod text;
