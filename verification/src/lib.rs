//! A relay for game traffic.
//!
//! Clients send their packets through a UDP tunnel to the relay, which forwards them to
//! game servers and sends the answers back. This library is what the relay decides and
//! computes: it takes frames, packets, settings and the time, and says what is to be
//! sent, queued, opened, counted and dropped. Sockets, threads, files and clocks are
//! its caller's.

pub mod account_budget;
pub mod addr;
pub mod auth;
pub mod bytes;
pub mod checksum;
pub mod config;
pub mod connections;
pub mod datapath_v2;
pub mod dest_policy;
pub mod endpoint;
pub mod flow_handler;
pub mod flows;
pub mod frame;
pub mod http;
pub mod limits;
pub mod num;
pub mod packet;
pub mod pool;
pub mod relay;
pub mod resolve;
pub mod rewrite;
pub mod session;
pub mod shard;
pub mod source;
pub mod stats;
pub mod stats_api;
pub mod text;
pub mod tun;
