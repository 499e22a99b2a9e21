//! Core of a daemon that keeps a recency-ordered history of focused windows
//! for a tiling window manager.
//!
//! The verified library holds the pure logic: the bounded, duplicate-free
//! history store, the time-bounded inhibition ledger, the event-loop state
//! machine that owns both, the resolution of "focus the Nth most recently
//! used window" requests, and the wire codec of the client protocol.
//! Everything that touches a socket, a signal or the window manager itself
//! lives outside the library and feeds it plain values.

pub mod codec;
pub mod escape;
pub mod history;
pub mod inhibit;
pub mod menu;
pub mod protocol;
pub mod replies;
pub mod server;
pub mod tree;
