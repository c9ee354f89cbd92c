//! A process-group launcher driven by a declarative manifest.
//!
//! A manifest lists named shell commands, one per line.  This crate holds the
//! verified core of the launcher: the manifest parser, the per-process line
//! multiplexer, the console prefix and color rules, and the supervisor's
//! computations.  The surrounding process and terminal I/O lives outside it.

pub mod console;
pub mod line_mux;
pub mod procfile_parser;
pub mod supervisor;
