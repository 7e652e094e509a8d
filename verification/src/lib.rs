//! Verified core of a PTP/NTP clock synchronisation daemon.
#![allow(unused_imports)]

pub mod clock;
pub mod config;
pub mod control_laws;
pub mod controller;
pub mod daemon;
pub mod filter_laws;
pub mod icon;
pub mod ieee;
pub mod monotonic;
pub mod net;
pub mod net_pcap;
pub mod net_winsock;
pub mod ntp;
pub mod order;
pub mod ptp;
pub mod rate_laws;
pub mod rate_servo;
pub mod rtc;
pub mod service;
pub mod servo;
pub mod spike_filter;
pub mod status;
pub mod sync_laws;
pub mod sync_state;
pub mod text;
pub mod time;
pub mod traits;
pub mod tray;
pub mod version;
