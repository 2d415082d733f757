//! Verified mechanisms of a small capability operating system: boot-time
//! memory checks, capability tables, bounded IPC queues, wire codecs, device
//! protocol drivers over abstract port interfaces and storage policy.
use vstd::prelude::*;

pub mod le;
pub mod foundation_model;
pub mod platform_model;
pub mod platform_kernel;
pub mod pe;
pub mod generated;
pub mod network;
pub mod channel;
pub mod ne2k;
pub mod service;
pub mod expansion_wire;
pub mod alpha_wire;
pub mod alpha_protocol;
pub mod alpha_transport;
pub mod staging;
pub mod retirement;
pub mod desktop_roles;
pub mod platform_store;
pub mod modern_model;
pub mod modern_support;
pub mod modern_kernel;
pub mod crypto;
pub mod vault;
pub mod documents;
pub mod store;
pub mod transport;
pub mod session;
pub mod pio;
pub mod desktop_service;
pub mod lab_images;
pub mod font;
pub mod image;
pub mod conformance;

verus! {
} // verus!
