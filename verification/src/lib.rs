//! Library for one-shot "boot another OS next" configuration.
//!
//! The library resolves a fuzzy user pattern to a durable boot target
//! (either a native UEFI boot option or a systemd-boot loader entry),
//! re-validates that target against the current catalogs before any
//! privileged write, and computes the exact values those writes need
//! (UTF-16LE one-shot payload, immutability attribute words, the
//! serialized form of the target itself).

pub mod text;
pub mod efi;
pub mod errors;
pub mod bootctl;
pub mod boot_target;
pub mod codec;
pub mod setuid;
pub mod store;
