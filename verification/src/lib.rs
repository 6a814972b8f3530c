//! Guard rails for multi-agent systems: a sliding-window circuit breaker that
//! stops recursive call loops between agents, a bounded priority queue that
//! applies backpressure, an audit log of agent interactions, and a small
//! plugin layer with an exponential-backoff breaker.

pub mod clock;
pub mod table;
pub mod concurrent_map;
pub mod breaker;
pub mod queue;
pub mod audit;
pub mod plugins;
pub mod backoff;
pub mod messages;
pub mod settings;
