//! Range-list to bitmask encoding for systemd cpuset properties.
//!
//! A range list such as `"0,2-4,7"` names CPU or memory-node indices. The
//! encoder turns it into the minimal big-endian byte mask that systemd's
//! `AllowedCPUs` / `AllowedMemoryNodes` properties expect, and the controller
//! decides, from the reported systemd version, whether the restriction may be
//! applied at all.

pub mod cpuset;
pub mod mask;
pub mod ranges;
