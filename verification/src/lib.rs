//! Linux network monitoring: the rules by which metrics, sockets, routes and packet
//! evidence are collected, kept and shown.
pub mod addresses;
pub mod arrival;
pub mod attachment;
pub mod catalog;
pub mod collector;
pub mod configuration;
pub mod cycles;
pub mod diagnostics;
pub mod engine;
pub mod evidence;
pub mod interleave;
pub mod kinds;
pub mod laws;
pub mod model;
pub mod netfilter;
pub mod network_route;
pub mod nic;
pub mod normalize;
pub mod order;
pub mod ordering;
pub mod output;
pub mod owners;
pub mod provider;
pub mod qdisc;
pub mod report;
pub mod route_changes;
pub mod route_lookup;
pub mod rows;
pub mod sample_order;
pub mod schedule;
pub mod seqs;
pub mod series;
pub mod sessions;
pub mod socket_table;
pub mod sockets;
pub mod text;
pub mod translate;
