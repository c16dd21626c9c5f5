pub mod text;
pub mod datalog;
pub mod build;
pub mod format;
pub mod readback;
pub mod cli;
pub mod runtime;
pub mod cache;
pub mod sandbox;
