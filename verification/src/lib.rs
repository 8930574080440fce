//! MetaGuard: a verified core for a process-presence watchdog.
//!
//! The library keeps a watch-list of executables, reconciles it with
//! several on-disk configuration encodings, decides per polling tick which
//! watched programs must be relaunched, and keeps a bounded event log.
//! Console menus, file and process I/O and the login-time registration are
//! collaborators outside the library; they hand plain values in and take
//! plain values back.
pub mod autostart;
pub mod clock;
pub mod codec;
pub mod config;
pub mod discover;
pub mod engine;
pub mod inspect;
pub mod roundtrip;
pub mod text;
