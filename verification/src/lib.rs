//! Fleet administration core: a hierarchical inventory resolver, a
//! trust-on-first-use host-key store, and the per-host session logic of a
//! concurrent fleet connector.

pub mod connector;
pub mod inventory;
pub mod playbook;
pub mod trust;
