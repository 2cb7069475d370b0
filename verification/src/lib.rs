//! Pattern scanning and offset resolution for module images: the signature language, the masked
//! matcher, the parallel scan, the instruction resolvers, region bookkeeping, the decoded call
//! graph, and the command-line rules (configuration, attach settings, exit codes).

pub mod attach;
pub mod config;
pub mod domain;
pub mod engine;
pub mod exit;
pub mod ioerr;
pub mod memory;
pub mod mksig;
pub mod model;
pub mod pattern;
pub mod profile;
pub mod resolver;
pub mod scanner;
pub mod text;
pub mod unpack;
