//! Clustered remoting: membership, reachability, downing, discovery and the frames between nodes.

pub mod accrual;
pub mod addrs;
pub mod admission;
pub mod agreement;
pub mod api;
pub mod bootstrap;
pub mod chunks;
pub mod codec;
pub mod config;
pub mod connect;
pub mod convergence;
pub mod coordinator;
pub mod deaths;
pub mod discovery;
pub mod downing;
pub mod encoding;
pub mod endpoint;
pub mod failure;
pub mod formation;
pub mod frame;
pub mod joining;
pub mod lanes;
pub mod leave;
pub mod membership;
pub mod observing;
pub mod outbound;
pub mod parts;
pub mod peer;
pub mod pubsub;
pub mod reachability;
pub mod reading;
pub mod receptionist;
pub mod registrations;
pub mod registry;
pub mod reply;
pub mod rounds;
pub mod sink;
pub mod state;
pub mod transport;
pub mod watch;
pub mod watching;
