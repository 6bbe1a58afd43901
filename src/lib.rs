//! Message-state core of a chat bot: a thread-aware, chronologically ordered
//! index of conversation history, a display-name cache, and the routing rules
//! of the live event bus.

pub mod bus;
pub mod channel;
pub mod keyed;
pub mod message;
pub mod names;
pub mod script;
pub mod thread;
pub mod timestamp;
pub mod workspace;
