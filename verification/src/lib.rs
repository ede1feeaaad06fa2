//! Core of a sequential TCP port scanner.
//!
//! The library plans a scan over one host or over a range of IPv4 addresses,
//! tells the caller which endpoint to probe next, folds each observed outcome
//! into the progress shown to the user and into the list of open ports, and
//! turns that list into the lines of a log file. Opening connections, drawing
//! on the terminal and writing files are left to the caller.

pub mod address;
pub mod decimal;
pub mod error;
pub mod log;
pub mod port;
pub mod progress;
pub mod scan;
pub mod screen;
