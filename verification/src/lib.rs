//! Symbol-prefixing core for statically linked library archives.
//!
//! When a vendored library is linked into a process that may also load
//! another build of the same library, every externally visible symbol must
//! be renamed to carry a unique prefix. This crate holds the verified logic
//! of that rewrite: parsing the symbol lister's output, building the
//! deterministic rename mapping, serializing it to the mapping-file format,
//! and driving the rewrite pipeline step by step. All symbol names and file
//! contents are handled as byte strings.

pub mod naming;
pub mod order;
pub mod symbols;
pub mod mapping;
pub mod pipeline;

pub use naming::SymbolPrefixCallbacks;
