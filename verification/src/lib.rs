//! Transparent ChaCha20 encryption for a byte transport.
//!
//! A [`ChaCha`] owns a transport and two cipher states, one for each
//! direction. The transport itself is driven from outside: this crate
//! decides which bytes go to it and keeps each keystream in step with the
//! bytes that actually crossed.

pub mod adapter;
pub mod keystream;
pub mod nonce;
pub mod write;

pub use adapter::ChaCha;
pub use keystream::{Keystream, KEYSTREAM_LEN};
pub use nonce::complement_nonce;
pub use write::{WriteAction, WriteEvent};
