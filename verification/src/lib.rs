//! Sessions in which two peers exchange encrypted texts, each under a key of its
//! own.
//!
//! A peer publishes prekeys ([`keys`]). Another peer starts a session from one of
//! them and may send texts at once; the first of these to arrive starts the session
//! on the other side ([`session::Session`]). Each state of a session derives the
//! keys of its messages from chains, and starts new chains from a fresh key pair
//! whenever the direction of the conversation turns ([`session::state`],
//! [`session::chain`]). [`message`] holds what travels, [`binary`] and [`wire`] how
//! messages and sessions are written as bytes.
//!
//! Every function states what it returns over the models of its arguments. The
//! cryptographic functions behind all of it are named in [`primitives`] and nothing
//! is said of them but what is claimed there. What follows for sessions as a whole
//! stands in [`laws`].
pub mod binary;
pub mod derived;
pub mod keys;
pub mod laws;
pub mod list;
pub mod message;
pub mod primitives;
pub mod session;
pub mod wire;
