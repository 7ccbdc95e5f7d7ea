//! Identify the devices on a local network from what they announce about
//! themselves, and parse the protocols and system tables that carry it.
pub mod text;
pub mod device;
pub mod classify;
pub mod ping;
pub mod http;
pub mod net;
pub mod platform;
pub mod services;
pub mod oui;
pub mod mdns;
pub mod report;
pub mod tui;
pub mod scan;
pub mod iface;
pub mod arp;
pub mod ssdp;
pub mod probe;
