//! Control-plane library for a small router-management appliance.
//!
//! The library supervises a DHCP daemon (process lifecycle via a PID file
//! and OS signals, plus the daemon's line-oriented configuration format)
//! and reconciles a declarative NAT port-forwarding table against firewall
//! commands. All decision logic and the configuration codecs are verified;
//! the thin shell that touches files, spawns processes and sleeps lives
//! outside this crate and drives the step functions exposed here.

pub mod ipv4;
pub mod portmap_manager;
pub mod text;
pub mod udhcpd_config;
pub mod udhcpd_manager;

pub use ipv4::Ipv4Addr;
pub use portmap_manager::{PortMapConfig, PortMapManager, PortMapRule};
pub use udhcpd_config::{StaticLease, UdhcpdConfig, UdhcpdError};
pub use udhcpd_manager::UdhcpdManager;
