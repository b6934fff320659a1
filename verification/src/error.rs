//! The errors of the library, one variant for each failure it reports.

use vstd::prelude::*;

verus! {

/// The class of an error, as the storage layer reports it to callers.
#[derive(Clone, Copy, Debug, PartialEq, Eq, Structural)]
pub enum ErrorKind {
    ConfigInvalid,
    Unsupported,
    Unexpected,
    PermissionDenied,
    NotFound,
    IsADirectory,
    RangeNotSatisfied,
}

/// A failure of the container image service.
#[derive(Debug)]
pub enum ContainerError {
    /// A link leads above the root of the image file system.
    LinkEscapesImageRoot,
    /// A path is resolved through links without end.
    LinkCycle,
    /// A link leads outside the root the service was configured with.
    LinkEscapesConfiguredRoot,
    /// A layer holds a whiteout that names nothing.
    InvalidWhiteout,
    /// A link entry of a layer has no target.
    LinkWithoutTarget,
    /// A hard link of a layer names a path that does not exist.
    HardLinkTargetNotFound { path: String },
    /// A platform is not written `os/architecture` or `os/architecture/variant`.
    InvalidPlatform,
    /// The configuration names no layout directory.
    LayoutNotSpecified,
    /// The configuration names no image reference.
    ReferenceNotSpecified,
    /// The configuration names no platform.
    PlatformNotSpecified,
    /// No descriptor of the layout's index carries the reference.
    ReferenceNotFound { reference: String },
    /// No manifest of the reference is for the platform.
    PlatformNotFound { reference: String, platform: String },
    /// A descriptor has a media type that is neither a manifest nor an index.
    UnsupportedDescriptorMediaType { media_type: String },
    /// A layer has a media type that is neither a tar nor a gzip tar.
    UnsupportedLayerMediaType { media_type: String },
    /// A digest has no algorithm part.
    InvalidDigest { digest: String },
    /// A digest uses another algorithm than sha256.
    UnsupportedDigestAlgorithm { algorithm: String },
    /// The path does not exist in the image.
    NotFound,
    /// The path exists but is not a regular file.
    NotAFile,
    /// The requested range does not lie within the content.
    RangeNotSatisfied,
    /// The operation would change the image, which is read only.
    Unsupported,
    /// A layer's blob is not a readable (gzip) tar archive.
    UnreadableLayer,
}

impl ContainerError {
    /// The class of the error.
    pub open spec fn spec_kind(&self) -> ErrorKind {
        match self {
            ContainerError::LinkEscapesImageRoot => ErrorKind::PermissionDenied,
            ContainerError::LinkCycle => ErrorKind::Unexpected,
            ContainerError::LinkEscapesConfiguredRoot => ErrorKind::PermissionDenied,
            ContainerError::InvalidWhiteout => ErrorKind::Unexpected,
            ContainerError::LinkWithoutTarget => ErrorKind::Unexpected,
            ContainerError::HardLinkTargetNotFound { .. } => ErrorKind::Unexpected,
            ContainerError::InvalidPlatform => ErrorKind::ConfigInvalid,
            ContainerError::LayoutNotSpecified => ErrorKind::ConfigInvalid,
            ContainerError::ReferenceNotSpecified => ErrorKind::ConfigInvalid,
            ContainerError::PlatformNotSpecified => ErrorKind::ConfigInvalid,
            ContainerError::ReferenceNotFound { .. } => ErrorKind::ConfigInvalid,
            ContainerError::PlatformNotFound { .. } => ErrorKind::ConfigInvalid,
            ContainerError::UnsupportedDescriptorMediaType { .. } => ErrorKind::Unsupported,
            ContainerError::UnsupportedLayerMediaType { .. } => ErrorKind::Unsupported,
            ContainerError::InvalidDigest { .. } => ErrorKind::ConfigInvalid,
            ContainerError::UnsupportedDigestAlgorithm { .. } => ErrorKind::Unsupported,
            ContainerError::NotFound => ErrorKind::NotFound,
            ContainerError::NotAFile => ErrorKind::IsADirectory,
            ContainerError::RangeNotSatisfied => ErrorKind::RangeNotSatisfied,
            ContainerError::Unsupported => ErrorKind::Unsupported,
            ContainerError::UnreadableLayer => ErrorKind::Unexpected,
        }
    }

    /// The class of the error.
    #[verifier::when_used_as_spec(spec_kind)]
    pub fn kind(&self) -> (k: ErrorKind)
        ensures
            k == self.spec_kind(),
    {
        match self {
            ContainerError::LinkEscapesImageRoot => ErrorKind::PermissionDenied,
            ContainerError::LinkCycle => ErrorKind::Unexpected,
            ContainerError::LinkEscapesConfiguredRoot => ErrorKind::PermissionDenied,
            ContainerError::InvalidWhiteout => ErrorKind::Unexpected,
            ContainerError::LinkWithoutTarget => ErrorKind::Unexpected,
            ContainerError::HardLinkTargetNotFound { .. } => ErrorKind::Unexpected,
            ContainerError::InvalidPlatform => ErrorKind::ConfigInvalid,
            ContainerError::LayoutNotSpecified => ErrorKind::ConfigInvalid,
            ContainerError::ReferenceNotSpecified => ErrorKind::ConfigInvalid,
            ContainerError::PlatformNotSpecified => ErrorKind::ConfigInvalid,
            ContainerError::ReferenceNotFound { .. } => ErrorKind::ConfigInvalid,
            ContainerError::PlatformNotFound { .. } => ErrorKind::ConfigInvalid,
            ContainerError::UnsupportedDescriptorMediaType { .. } => ErrorKind::Unsupported,
            ContainerError::UnsupportedLayerMediaType { .. } => ErrorKind::Unsupported,
            ContainerError::InvalidDigest { .. } => ErrorKind::ConfigInvalid,
            ContainerError::UnsupportedDigestAlgorithm { .. } => ErrorKind::Unsupported,
            ContainerError::NotFound => ErrorKind::NotFound,
            ContainerError::NotAFile => ErrorKind::IsADirectory,
            ContainerError::RangeNotSatisfied => ErrorKind::RangeNotSatisfied,
            ContainerError::Unsupported => ErrorKind::Unsupported,
            ContainerError::UnreadableLayer => ErrorKind::Unexpected,
        }
    }

    /// The message the error is reported with.
    pub open spec fn spec_message(&self) -> Seq<char> {
        match self {
            ContainerError::LinkEscapesImageRoot => "container image link escapes the image rootfs"@,
            ContainerError::LinkCycle => "container image contains a link cycle"@,
            ContainerError::LinkEscapesConfiguredRoot => "container image link escapes the configured root"@,
            ContainerError::InvalidWhiteout => "OCI layer contains an invalid whiteout"@,
            ContainerError::LinkWithoutTarget => "OCI layer link entry does not have a target"@,
            ContainerError::HardLinkTargetNotFound { .. } => "OCI layer hard link target is not found"@,
            ContainerError::InvalidPlatform => "platform must use os/architecture or os/architecture/variant"@,
            ContainerError::LayoutNotSpecified => "layout is not specified"@,
            ContainerError::ReferenceNotSpecified => "reference is not specified"@,
            ContainerError::PlatformNotSpecified => "platform is not specified"@,
            ContainerError::ReferenceNotFound { .. } => "reference is not found in OCI image layout"@,
            ContainerError::PlatformNotFound { .. } => "platform is not found for reference in OCI image layout"@,
            ContainerError::UnsupportedDescriptorMediaType { .. } => "unsupported OCI descriptor media type"@,
            ContainerError::UnsupportedLayerMediaType { .. } => "unsupported OCI layer media type"@,
            ContainerError::InvalidDigest { .. } => "invalid OCI descriptor digest"@,
            ContainerError::UnsupportedDigestAlgorithm { .. } => "unsupported OCI descriptor digest algorithm"@,
            ContainerError::NotFound => "path is not found in container image"@,
            ContainerError::NotAFile => "path is not a readable regular file"@,
            ContainerError::RangeNotSatisfied => "range exceeds content length"@,
            ContainerError::Unsupported => "operation is not supported"@,
            ContainerError::UnreadableLayer => "failed to read OCI layer tar entries"@,
        }
    }

    /// The message the error is reported with.
    pub fn message(&self) -> (r: &'static str)
        ensures
            r@ == self.spec_message(),
    {
        match self {
            ContainerError::LinkEscapesImageRoot => "container image link escapes the image rootfs",
            ContainerError::LinkCycle => "container image contains a link cycle",
            ContainerError::LinkEscapesConfiguredRoot => "container image link escapes the configured root",
            ContainerError::InvalidWhiteout => "OCI layer contains an invalid whiteout",
            ContainerError::LinkWithoutTarget => "OCI layer link entry does not have a target",
            ContainerError::HardLinkTargetNotFound { .. } => "OCI layer hard link target is not found",
            ContainerError::InvalidPlatform => "platform must use os/architecture or os/architecture/variant",
            ContainerError::LayoutNotSpecified => "layout is not specified",
            ContainerError::ReferenceNotSpecified => "reference is not specified",
            ContainerError::PlatformNotSpecified => "platform is not specified",
            ContainerError::ReferenceNotFound { .. } => "reference is not found in OCI image layout",
            ContainerError::PlatformNotFound { .. } => "platform is not found for reference in OCI image layout",
            ContainerError::UnsupportedDescriptorMediaType { .. } => "unsupported OCI descriptor media type",
            ContainerError::UnsupportedLayerMediaType { .. } => "unsupported OCI layer media type",
            ContainerError::InvalidDigest { .. } => "invalid OCI descriptor digest",
            ContainerError::UnsupportedDigestAlgorithm { .. } => "unsupported OCI descriptor digest algorithm",
            ContainerError::NotFound => "path is not found in container image",
            ContainerError::NotAFile => "path is not a readable regular file",
            ContainerError::RangeNotSatisfied => "range exceeds content length",
            ContainerError::Unsupported => "operation is not supported",
            ContainerError::UnreadableLayer => "failed to read OCI layer tar entries",
        }
    }
}

} // verus!
