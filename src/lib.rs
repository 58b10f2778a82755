//! Dotted numeric versions ("1.2.3", "1.*") with wildcard-aware equality,
//! ordering and compatibility checks.
pub mod text;
pub mod version;
pub mod versionpart;

pub use crate::version::Version;
pub use crate::versionpart::VersionPart;
