//! Hexadecimal, base32 and base64 codecs over caller-supplied buffers.
//!
//! Every function reads an input slice, writes into an output slice that the
//! caller owns, and returns how many bytes of the output it filled.  Nothing is
//! allocated.  The contracts state the written prefix exactly, and promise that
//! the bytes past it are left as they were.

pub mod error;
pub mod padding;
pub mod base16;
pub mod base32;
pub mod base64;
pub mod iters;

pub use error::ConvertError;
pub use base16::{bin2hex, hex2bin};
pub use base32::{b32decode, b32encode};
pub use base64::{b64decode, b64encode};
