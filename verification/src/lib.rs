//! Compatibility layer for legacy server components: a reader for GeoIP
//! Legacy country databases and the shared-memory path rewriting used by the
//! preloaded libc hooks.

pub mod shm;
pub mod geoip;
pub mod ipv4;
pub mod hooks;
pub mod trace;
