//! An ad-blocking DNS resolver that speaks only encrypted DNS.

pub mod blocklist;
pub mod blocklist_laws;
pub mod cgroup;
pub mod config;
pub mod config_laws;
pub mod dns;
pub mod env;
pub mod ip;
pub mod memlimit;
pub mod octets;
pub mod server;
pub mod state;
pub mod supervisor;
pub mod text;
pub mod text_laws;
pub mod tls;
pub mod util;
