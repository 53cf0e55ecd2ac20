//! Seat-scoped, room-partitioned group messaging core.
//!
//! Players authenticate as one fixed (room, country) seat and receive a
//! stateless, HMAC-bound bearer token.  Seats form 2-3 party conversations
//! whose identifiers are derived deterministically from the membership, and
//! messages are appended to a per-conversation, time-ordered log.

pub mod bytes;
pub mod country;
pub mod digest;
pub mod token;
pub mod convo;
pub mod error;
pub mod keys;
pub mod store;
