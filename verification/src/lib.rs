//! A dataflow library: graphs of operators, the builder that assembles them,
//! and the executor that schedules them.

pub mod activation;
pub mod assembly;
pub mod belonging;
pub mod builder;
pub mod channel;
pub mod combine;
pub mod control;
pub mod dataflow;
pub mod delivery;
pub mod error;
pub mod executor;
pub mod frontier;
pub mod graph;
pub mod growing;
pub mod handles;
pub mod id;
pub mod iterate;
pub mod launching;
pub mod leading;
pub mod linking;
pub mod materialize;
pub mod metrics;
pub mod operators;
pub mod order;
pub mod ordered;
pub mod outlining;
pub mod partition;
pub mod pipe;
pub mod ports;
pub mod progress;
pub mod reading;
pub mod retain;
pub mod role;
pub mod running;
pub mod runtime;
pub mod schedulable;
pub mod schedule;
pub mod scope;
pub mod shared;
pub mod spread;
pub mod spreading;
pub mod stage;
pub mod staging;
pub mod strand;
pub mod stream;
pub mod sweeping;
pub mod telling;
pub mod text;
pub mod timing;
pub mod topology;
pub mod verdict;
pub mod wake;
pub mod waking;
pub mod wired;
pub mod wiring;
