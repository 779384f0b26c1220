//! A minimal tamper-evident append-only log.
//!
//! A chain is an ordered sequence of blocks, each cryptographically bound to
//! its predecessor by a SHA-1 content hash. The chain starts from a fixed
//! genesis block, grows only by appending, and can be rendered to and
//! recovered from a JSON text whose shape is specified and proved here.

pub mod block;
pub mod chain;
pub mod codec;
pub mod digest;
pub mod errors;

pub use block::Block;
pub use chain::Chainy;
pub use errors::ChainyError;
