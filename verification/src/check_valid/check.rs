//! The liveness check of a read, under a shorter path.

pub use super::is_valid_read_len;
