//! A minimal connection-serving backend, split into the two pieces of logic
//! that can be stated and proved: the per-connection message loop, modelled
//! as a state machine over receive events, and the greeting body built for
//! `GET /hello/<name>`. Listeners, the upgrade handshake and all other I/O
//! stay outside the library.

pub mod greeting;
pub mod session;
