//! A memory-compact growable array of tagged JSON values, together with a
//! canonical, archivable representation of the same value trees.
//!
//! The array (`IArray`) exposes value semantics: deep clone, structural
//! equality, and an explicit capacity that is zero exactly when the array is
//! in its static (allocation-free) representation.  The archival layer
//! (`ArchivableJson`) is a closed enumerated mirror of a value tree whose
//! conversions in both directions are specified against a single
//! mathematical model, `JsonModel`.

pub mod archive;
pub mod array;
pub mod model;
pub mod value;

pub use archive::ArchivableJson;
pub use archive::ArchivedEntry;
pub use archive::JsonNumber;
pub use array::IArray;
pub use array::IObject;
pub use array::IValue;
pub use array::ObjectEntry;
pub use value::INumber;
pub use value::IString;
