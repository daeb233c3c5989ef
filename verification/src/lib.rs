//! Verified building blocks of a block-device driver stack.
//!
//! The centre of the crate is a network block device (NBD) client core:
//! a bit-exact wire codec for the request/reply protocol, a model of one
//! transport connection, and the shared device state that routes outgoing
//! requests to connections and demultiplexes incoming replies back to the
//! in-flight requests they complete.  Around it stand small verified models
//! of the block-layer pieces the driver leans on: requests and tag sets,
//! the exposed disk, a sparse index map, and NVMe controller registers.

pub mod errno;
pub mod gendisk;
pub mod mq;
pub mod nvme_regs;
pub mod queue;
pub mod wire;
pub mod xarray;
