//! A domain model for Debian package metadata: version strings with their
//! total order, and package relationship (dependency) expressions.

pub mod control;
pub mod deps;
pub mod round_trip;
pub mod text;
pub mod version;

pub use self::control::{ControlEntry, ControlFile, ControlParagraph, ControlValue};
pub use self::version::Version;
