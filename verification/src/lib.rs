pub mod accounts;

pub use accounts::balancer::run_balancing;
