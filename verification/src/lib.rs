//! A cluster node for a line-oriented message bus: envelopes, correlation of
//! requests with their replies, and dissemination of stored values by flood,
//! gossip and repair of quiet neighbours.
//!
//! - [`message`] holds the envelope, [`payload`] what it carries, and
//!   [`codec`] reads and writes both as the values of the wire ([`json`]).
//! - [`client`] is the node's end of the bus: its identity, its correlation
//!   ids, and the routing of lines to handlers.
//! - [`engine`] says, as a state machine, what requests, answers and the
//!   periodic activities make of a node; [`broadcast`] carries it out on the
//!   node's values ([`values`]) and neighbours ([`topology`]), and
//!   [`sampling`] draws the peers of a turn of gossip.
//! - [`flood`] and [`convergence`] prove why a flood wave ends and why gossip
//!   makes the nodes agree.
//! - [`node_set`], [`node_map`] and [`text`] keep sets and maps of node names.
//!
//! The library reads no input and writes no output, and knows no clock: the
//! caller hands it each line's value and the time, and sends what it returns.

pub mod broadcast;
pub mod client;
pub mod codec;
pub mod convergence;
pub mod engine;
pub mod flood;
pub mod json;
pub mod message;
pub mod node_map;
pub mod node_set;
pub mod payload;
pub mod sampling;
pub mod text;
pub mod topology;
pub mod values;
