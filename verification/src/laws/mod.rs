//! What holds of states and sessions as a whole.
pub mod bytes;
pub mod limits;
pub mod models;
pub mod secrets;
pub mod session;
pub mod state;
pub mod steps;
pub mod uses;
