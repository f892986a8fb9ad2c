//! Decision logic of an IPv6 multicast reachability prober.
//!
//! A server joins a multicast group and answers every probe it hears with a
//! unicast reply to the sender. A client sends probes to the group on a fixed
//! period, counts the replies per responding peer, and reports the share of
//! probes that were answered.
//!
//! This crate holds what the two roles decide: how the group address and the
//! interface are read ([`group`], [`address`], [`iface`]), how sockets are to
//! be set up and what their failures mean ([`endpoint`]), what follows each
//! receive ([`server`], [`client`]), and the counters ([`stats`]). Sockets,
//! clocks, threads and printing belong to the program around it, which hands
//! in plain values and acts on the plain values it gets back.

pub mod address;
pub mod address_laws;
pub mod client;
pub mod endpoint;
pub mod group;
pub mod iface;
pub mod server;
pub mod stats;
pub mod text;
