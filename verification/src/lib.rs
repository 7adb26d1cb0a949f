//! Bash tab-completion helpers for zone-administration commands.
//!
//! The crate locates the boundary between options and free arguments in an
//! in-progress command line (`optparse`), accumulates and serialises
//! completion candidates as a bash-evaluable snippet (`shell`), and combines
//! the two into per-command completion strategies (`complete`).

pub mod complete;
pub mod optparse;
pub mod shell;
pub mod sources;
