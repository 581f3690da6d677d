//! Typed command schemas: a validated name model, a schema tree, a
//! classifier that partitions terminal commands into root leaves and
//! subcommand groups, record derivation, and a decoder and encoder for the
//! name-tagged wire format, with the round-trip and last-write-wins laws
//! proved.

pub mod name;
pub mod schema;
pub mod classify;
pub mod records;
pub mod decode;
pub mod assemble;
pub mod options;
pub mod jsonio;
pub mod compile;
pub mod config;
