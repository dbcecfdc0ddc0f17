//! The core of a hotkey daemon.
//!
//! The daemon reads a small configuration language that binds hotkeys to
//! shell commands, registers the hotkeys with the system, and writes the
//! command of a fired hotkey to one long-lived shell process. This library
//! holds what the daemon decides, proved against its contracts:
//!
//! - [`grammar`] states the configuration language on characters, and
//!   [`parser`] reads a text by it;
//! - [`augment`] gives each binding on `win` a twin on `rwin`;
//! - [`dispatch`] lists the hotkeys to register and chooses the command of a
//!   fired hotkey by the application in front and the pause gate;
//! - [`session`] is the protocol of one write to the shell, with its single
//!   respawn and retry.
//!
//! Reading files, spawning the shell and talking to the system's hotkey
//! interface are left to the program around the library.

pub mod augment;
pub mod dispatch;
pub mod grammar;
pub mod model;
pub mod parser;
pub mod session;

pub use dispatch::HkmData;
pub use model::HotkeyBinding;
pub use model::Shell;
pub use model::Whkdrc;
pub use parser::parser;
