//! Search for ed25519 key pairs whose public key, read as a big-endian
//! integer, is as large as possible, with a durable log of the best pairs.
//!
//! The library holds the decisions: the comparable value of a key, the
//! checkpoint line format, loading the best entry of a log, and the state
//! machines of the search workers and of the single controller. Threads,
//! channels, files and the display live with the caller.
pub mod checkpoint;
pub mod codec;
pub mod controller;
pub mod keypair;
pub mod worker;

pub use checkpoint::{load_max, LoadError};
pub use codec::{decode_line, encode_line, pretty_print_public, LineError};
pub use controller::{Controller, ControllerAction, WorkerMessage};
pub use keypair::{public_key_to_u128, KeyPair};
pub use worker::Worker;
