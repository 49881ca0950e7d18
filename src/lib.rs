//! Read-only, zero-copy access to a Flattened Device Tree (FDT) blob.
//!
//! Nodes and properties are cheap handles into the blob, keyed by their
//! offset in the structure block. Properties that follow the Linux kernel's
//! phandle conventions can be resolved into the nodes they reference.
pub mod error;
pub mod format;
pub mod fdt;
pub mod path;
pub mod property;
pub mod linux;
pub mod node;
pub mod iter;
pub mod symbols;
pub mod laws;

pub use error::Error;
pub use fdt::{Fdt, Offset, Phandle};
pub use node::{FdtNode, FdtNodeRef};
pub use iter::{FdtNodeIter, FdtPropertyIter};
pub use property::{FdtProperty, PhandleLink, PropertyCellParser, PropertyParser, PropertyReader};
