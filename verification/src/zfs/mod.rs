pub mod client;
pub mod estimator;
pub mod schema;
