//! The session behind the user interface: its state and what it displays.
pub mod helpers;
pub mod state;
