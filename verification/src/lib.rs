//! Extracts the debugging information embedded in a WebAssembly module and
//! turns it into a source map: a table tying each instruction's byte offset
//! to the source file, line and column it was compiled from.
//!
//! The crate frames the module into sections, collects the embedded debug
//! sections, and resolves the line-number rows reported by a DWARF decoding
//! capability into normalized, deduplicated, address-biased locations grouped
//! by canonical source file. The DWARF byte-code interpreter itself is not
//! part of the crate: callers hand the resolver plain per-unit row data.

pub mod path;
pub mod resolve;
pub mod wasm;
