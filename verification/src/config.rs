//! Settings of the two programs: the command line overrides the settings file.

pub mod client;
pub mod server;
