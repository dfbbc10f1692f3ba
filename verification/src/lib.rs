//! Resources of an embedded Python interpreter.
//!
//! A packer writes the modules of an application, with their source,
//! bytecode and other data, into one packed index. This library reads such
//! an index out of a buffer into a catalog of resources, and registers the
//! builtin and the frozen modules of the interpreter in that catalog. The
//! names and the data of the resources are borrowed from the buffer.
//!
//! - [`format`] says what a packed index is and what reading it yields.
//! - [`decoder`] reads a packed index.
//! - [`state`] holds the catalog and loads it.
//! - [`resource`] is one resource of the catalog.
//! - [`name_map`] is the map from names that the catalog is held in.
//! - [`writer`] says what a packer writes, and proves that reading it gives
//!   back what was packed.
//! - [`laws`] proves what holds of every packed index and every catalog.

pub mod assoc;
pub mod decoder;
pub mod error;
pub mod format;
pub mod laws;
pub mod name_map;
pub mod reader;
pub mod resource;
pub mod state;
pub mod writer;

pub use error::ResourceError;
pub use name_map::NameMap;
pub use resource::EmbeddedResource;
pub use state::PythonImporterState;
