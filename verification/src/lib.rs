//! The logic of a set of small network services, each function with a
//! contract that is proved of it.
//!
//! The largest part is [`lrcp`], a reliable ordered byte-stream transport
//! multiplexed over datagrams: its wire codec, send buffer, write adapter and
//! session table. The others are a primality service ([`prime`]), a price
//! store ([`means`]), a chat room ([`chat`]), a key-value store
//! ([`database`]), a rewriting proxy ([`boguscoin`]), a speed-camera service
//! ([`speed_daemon`]), a toy workshop behind a cipher ([`cipher`],
//! [`toys`]) and a job centre ([`job_centre`]), with the framing that they
//! share ([`buffer`], [`codec`]).
//!
//! Nothing here performs I/O: a function maps what came in and the state to
//! the next state and to what has to go out.

pub mod boguscoin;
pub mod buffer;
pub mod chat;
pub mod cipher;
pub mod codec;
pub mod database;
pub mod job_centre;
pub mod lrcp;
pub mod means;
pub mod peer;
pub mod prime;
pub mod speed_daemon;
pub mod toys;
