//! The hex and base32 encoders, also reachable under this module's name; each operation
//! has a single implementation.
pub use crate::base16::bin2hex;
pub use crate::base32::b32encode;
