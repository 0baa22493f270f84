//! A verified codec for DrCov coverage traces.
//!
//! The library parses and writes the hybrid text/binary DrCov file format:
//! a fixed text header, a versioned module table, and a binary basic-block
//! table.  Parsing and serialization are specified down to the byte level,
//! and the two directions are proved to be inverses of each other for every
//! well-formed, representable coverage aggregate.

pub mod bb_table;
pub mod builder;
pub mod codec;
pub mod laws;
pub mod model;
pub mod module_table;
pub mod numeric;
pub mod strutil;
pub mod text;

pub use builder::CoverageBuilder;
pub use codec::from_bytes;
pub use codec::parse_bb_table;
pub use codec::parse_header_line;
pub use codec::parse_module_table;
pub use codec::to_writer;
pub use module_table::parse_module_entry;
pub use module_table::write_module_line;
pub use model::BasicBlock;
pub use model::CoverageData;
pub use model::CoverageDataView;
pub use model::Error;
pub use model::FileHeader;
pub use model::ModuleEntry;
pub use model::ModuleEntryView;
pub use model::ModuleTableVersion;
pub use model::SUPPORTED_FILE_VERSION;
