//! autodpi: automatic DPI bypass strategy finder and transparent forwarder.
//!
//! This crate holds the decision logic of the tool: the TLS ClientHello
//! builder and SNI locator, the segmentation strategies, the verdict
//! classification of a probe, the ranking of strategies, the command-line
//! grammar and the resolution of listener configurations.  The network,
//! file and terminal work is done by the binary around it.

pub mod clienthello;
pub mod strategy;
pub mod probe;
pub mod tuner;
pub mod cli;
pub mod config;
pub mod logging;
