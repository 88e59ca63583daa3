//! Code reservation and distribution engine: per-raid queues of reserved
//! codes, their expiry, the order in which codes are handed out, and the
//! decisions of the polling and hotkey loop.

pub mod reservation;
pub mod naming;
pub mod text;
pub mod keybind;
pub mod style;
pub mod session;
