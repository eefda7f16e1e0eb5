//! Resolution of directive-annotated YAML documents.
//!
//! A document may carry tagged nodes such as `!include`, `!include_text` or
//! `!env`; resolving it replaces each such node by the content it names, to
//! any depth, while guarding against circular inclusion.
//!
//! The engine works on a [`Sources`] value: what is known of the file system
//! and of the environment. Where it needs a fact that is not there yet it
//! stops with a [`Request`]; the caller supplies the fact and resolves again.
//! Resolution is thereby a pure function of the facts it was given.

pub mod content;
pub mod doc;
pub mod engine;
pub mod error;
pub mod flattener;
pub mod glob;
pub mod keys;
pub mod laws;
pub mod merge;
pub mod paths;
pub mod sources;
pub mod text;
pub mod transformer;

pub use content::Extension;
pub use doc::Doc;
pub use engine::{Directive, Mode};
pub use error::{Error, GlobError};
pub use flattener::{read, Flattener};
pub use glob::{Glob, GlobEntry};
pub use merge::merge_yaml_values_in_place;
pub use sources::{LoadError, PathInfo, Request, Sources, Stop};
pub use transformer::{directive, tagged_value_as_str, Transformer};
