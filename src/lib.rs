//! The progress-tracking and scheduling core of a distributed dataflow runtime.
pub mod order;
pub mod change_batch;
pub mod antichain;
pub mod mutable_antichain;
pub mod builder;
pub mod operator;
pub mod dataflow;
pub mod routing;
pub mod config;
pub mod wire;
pub mod observer;
pub mod channel;
