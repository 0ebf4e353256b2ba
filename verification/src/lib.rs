//! A peer-to-peer intrusion-response agent library.
//!
//! An identical agent runs on every host of a small, fixed fleet. Each agent
//! watches its own host's authentication activity; on suspicious activity it
//! notifies all peers of its own address, and every peer that receives such a
//! notification enforces a local network block against that address. A shared
//! registry of fleet members tracks each member's address and connectivity
//! status.
//!
//! This crate holds the verified core: the address codec, the registry and
//! its update rules, the notifier and listener decision logic, the firewall
//! rule planner, and the wiring between them. All I/O (sockets, the
//! filesystem watch, the command runner, the status HTTP endpoint) lives
//! outside the library and hands it plain values.

pub mod addr;
pub mod agent;
pub mod bytes;
pub mod digits;
pub mod firewall;
pub mod listener;
pub mod monitor;
pub mod notifier;
pub mod registry;
pub mod seed;
