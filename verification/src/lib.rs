//! A read-only view of a container image: the merged root file system of
//! the layers of an OCI image layout, with its links, whiteouts and platform
//! selection.

pub mod text;
pub mod entry;
pub mod table;
pub mod error;
pub mod paths;
pub mod image;
pub mod layer;
pub mod archive;
pub mod tree;
pub mod platform;
pub mod manifest;
pub mod raw_path;
pub mod backend;

pub use backend::ContainerBuilder as Container;
pub use platform::ContainerConfig;
pub use platform::ImagePlatform;

use vstd::prelude::*;

verus! {

/// Default scheme for container service.
pub const CONTAINER_SCHEME: &'static str = "container";

} // verus!
