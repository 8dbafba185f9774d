//! What the operations are for, as relations between what they are given and what they
//! give.
pub mod collection;
pub mod counters;
pub mod engine;
pub mod kinds;
pub mod netfilter;
pub mod nic;
pub mod normalize;
pub mod providers;
pub mod qdisc;
pub mod reports;
pub mod routes;
pub mod samples;
pub mod series;
pub mod sockets;
pub mod text;
pub mod words;
