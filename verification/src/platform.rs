//! Platform selectors for multi-platform images, and the service's
//! configuration.

use vstd::prelude::*;
use crate::error::ContainerError;
use crate::text::{join_str, join_with, lemma_join_split, lemma_split_join, same_str, split_on, split_str};

verus! {

/// `amd64`
pub open spec fn amd64() -> Seq<char> {
    seq!['a', 'm', 'd', '6', '4']
}

/// `arm64`
pub open spec fn arm64() -> Seq<char> {
    seq!['a', 'r', 'm', '6', '4']
}

/// `arm`
pub open spec fn arm() -> Seq<char> {
    seq!['a', 'r', 'm']
}

/// `v7`
pub open spec fn v7() -> Seq<char> {
    seq!['v', '7']
}

/// The variant a platform means when its variant is written `variant` (an
/// absent variant is written empty): `amd64`'s `v1` and `arm64`'s `8`, `v8`,
/// `v8.0` are the default and mean none; `arm` without a variant, or with
/// `7`, means `v7`.
pub open spec fn normalized_variant(architecture: Seq<char>, variant: Seq<char>) -> Seq<char> {
    if (architecture == amd64() && variant == seq!['v', '1']) || (architecture == arm64() && (
    variant == seq!['8'] || variant == seq!['v', '8'] || variant == seq!['v', '8', '.', '0'])) {
        Seq::empty()
    } else if architecture == arm() && (variant == Seq::<char>::empty() || variant == seq!['7']
        || variant == v7()) {
        v7()
    } else {
        variant
    }
}

/// The variant as written, empty where there is none.
pub open spec fn variant_or_empty(variant: Option<Seq<char>>) -> Seq<char> {
    match variant {
        Some(v) => v,
        None => Seq::empty(),
    }
}

/// The model of a platform: operating system, architecture and variant.
pub struct PlatformView {
    pub os: Seq<char>,
    pub architecture: Seq<char>,
    pub variant: Option<Seq<char>>,
}

/// A platform selects a platform of an image: same operating system, same
/// architecture, and the same variant once defaults are taken into account.
pub open spec fn platform_matches(selector: PlatformView, platform: PlatformView) -> bool {
    &&& selector.os == platform.os
    &&& selector.architecture == platform.architecture
    &&& normalized_variant(selector.architecture, variant_or_empty(selector.variant))
        == normalized_variant(platform.architecture, variant_or_empty(platform.variant))
}

/// The text form of a platform: `os/architecture` or `os/architecture/variant`.
pub open spec fn platform_text(p: PlatformView) -> Seq<char> {
    match p.variant {
        Some(v) => join_with(seq![p.os, p.architecture, v], '/'),
        None => join_with(seq![p.os, p.architecture], '/'),
    }
}

/// The platform that the text `s` names, or `None` where it is not of the
/// form `os/architecture` or `os/architecture/variant` with a non-empty
/// operating system and architecture.
pub open spec fn parsed_platform(s: Seq<char>) -> Option<PlatformView> {
    let parts = split_on(s, '/');
    let os = parts[0];
    let architecture = if parts.len() > 1 {
        parts[1]
    } else {
        Seq::empty()
    };
    if os.len() == 0 || architecture.len() == 0 || parts.len() > 3 {
        None
    } else {
        Some(
            PlatformView {
                os,
                architecture,
                variant: if parts.len() > 2 {
                    Some(parts[2])
                } else {
                    None
                },
            },
        )
    }
}

/// The platform an image's manifest or index entry describes.
#[derive(Debug)]
pub struct OciPlatform {
    pub architecture: String,
    pub os: String,
    pub variant: Option<String>,
}

impl View for OciPlatform {
    type V = PlatformView;

    open spec fn view(&self) -> PlatformView {
        PlatformView {
            os: self.os@,
            architecture: self.architecture@,
            variant: match self.variant {
                Some(v) => Some(v@),
                None => None,
            },
        }
    }
}

/// Platform selector for OCI images.
#[derive(Debug, Clone, PartialEq, Eq)]
pub struct ImagePlatform {
    os: String,
    architecture: String,
    variant: Option<String>,
}

impl View for ImagePlatform {
    type V = PlatformView;

    closed spec fn view(&self) -> PlatformView {
        PlatformView {
            os: self.os@,
            architecture: self.architecture@,
            variant: match self.variant {
                Some(v) => Some(v@),
                None => None,
            },
        }
    }
}

/// The variant as a `&str`, empty where there is none.
fn variant_str(variant: &Option<String>) -> (r: &str)
    ensures
        r@ == variant_or_empty(
            match variant {
                Some(v) => Some(v@),
                None => None,
            },
        ),
{
    match variant {
        Some(v) => v.as_str(),
        None => {
            let e = "";
            proof {
                reveal_strlit("");
            }
            assert(e@ =~= Seq::<char>::empty());
            e
        },
    }
}

/// The variant a platform means (see `normalized_variant`).
fn normalize_variant(architecture: &str, variant: &str) -> (r: String)
    ensures
        r@ == normalized_variant(architecture@, variant@),
{
    let s_amd64 = "amd64";
    let s_arm64 = "arm64";
    let s_arm = "arm";
    let s_v1 = "v1";
    let s_8 = "8";
    let s_v8 = "v8";
    let s_v80 = "v8.0";
    let s_7 = "7";
    let s_v7 = "v7";
    let s_empty = "";
    proof {
        reveal_strlit("amd64");
        reveal_strlit("arm64");
        reveal_strlit("arm");
        reveal_strlit("v1");
        reveal_strlit("8");
        reveal_strlit("v8");
        reveal_strlit("v8.0");
        reveal_strlit("7");
        reveal_strlit("v7");
        reveal_strlit("");
        assert(s_amd64@ =~= amd64());
        assert(s_arm64@ =~= arm64());
        assert(s_arm@ =~= arm());
        assert(s_v1@ =~= seq!['v', '1']);
        assert(s_8@ =~= seq!['8']);
        assert(s_v8@ =~= seq!['v', '8']);
        assert(s_v80@ =~= seq!['v', '8', '.', '0']);
        assert(s_7@ =~= seq!['7']);
        assert(s_v7@ =~= v7());
        assert(s_empty@ =~= Seq::<char>::empty());
    }
    if (same_str(architecture, s_amd64) && same_str(variant, s_v1)) || (same_str(architecture, s_arm64)
        && (same_str(variant, s_8) || same_str(variant, s_v8) || same_str(variant, s_v80))) {
        String::new()
    } else if same_str(architecture, s_arm) && (same_str(variant, s_empty) || same_str(variant, s_7)
        || same_str(variant, s_v7)) {
        s_v7.to_owned()
    } else {
        variant.to_owned()
    }
}

impl ImagePlatform {
    /// Create a platform selector from OS and architecture.
    pub fn new(os: &str, architecture: &str) -> (r: Self)
        ensures
            r@ == (PlatformView { os: os@, architecture: architecture@, variant: None }),
    {
        ImagePlatform { os: os.to_owned(), architecture: architecture.to_owned(), variant: None }
    }

    /// Create a `linux/amd64` platform selector.
    pub fn linux_amd64() -> (r: Self)
        ensures
            r@ == (PlatformView {
                os: seq!['l', 'i', 'n', 'u', 'x'],
                architecture: amd64(),
                variant: None,
            }),
    {
        proof {
            reveal_strlit("linux");
            reveal_strlit("amd64");
        }
        let r = Self::new("linux", "amd64");
        assert(r@.os =~= seq!['l', 'i', 'n', 'u', 'x']);
        assert(r@.architecture =~= amd64());
        r
    }

    /// Create a `linux/arm64` platform selector.
    pub fn linux_arm64() -> (r: Self)
        ensures
            r@ == (PlatformView {
                os: seq!['l', 'i', 'n', 'u', 'x'],
                architecture: arm64(),
                variant: None,
            }),
    {
        proof {
            reveal_strlit("linux");
            reveal_strlit("arm64");
        }
        let r = Self::new("linux", "arm64");
        assert(r@.os =~= seq!['l', 'i', 'n', 'u', 'x']);
        assert(r@.architecture =~= arm64());
        r
    }

    /// Set platform variant, for example `v7` for `linux/arm/v7`.
    pub fn with_variant(self, variant: &str) -> (r: Self)
        ensures
            r@ == (PlatformView { variant: Some(variant@), ..self@ }),
    {
        ImagePlatform { variant: Some(variant.to_owned()), ..self }
    }

    /// Whether this selector selects `platform`.
    pub fn matches(&self, platform: &OciPlatform) -> (b: bool)
        ensures
            b == platform_matches(self@, platform@),
    {
        if !same_str(self.os.as_str(), platform.os.as_str()) {
            return false;
        }
        if !same_str(self.architecture.as_str(), platform.architecture.as_str()) {
            return false;
        }
        let mine = normalize_variant(self.architecture.as_str(), variant_str(&self.variant));
        let theirs = normalize_variant(platform.architecture.as_str(), variant_str(&platform.variant));
        same_str(mine.as_str(), theirs.as_str())
    }

    /// The platform that `s` names: `os/architecture` or
    /// `os/architecture/variant`.
    pub fn parse(s: &str) -> (r: Result<Self, ContainerError>)
        ensures
            match parsed_platform(s@) {
                Some(p) => r matches Ok(q) && q@ == p,
                None => r matches Err(ContainerError::InvalidPlatform),
            },
    {
        let parts = split_str(s, '/');
        proof {
            crate::text::lemma_split_on_nonempty(s@, '/');
        }
        let os = parts[0].as_str();
        let empty = String::new();
        let architecture = if parts.len() > 1 {
            parts[1].as_str()
        } else {
            empty.as_str()
        };
        if os.is_empty() || architecture.is_empty() || parts.len() > 3 {
            return Err(ContainerError::InvalidPlatform);
        }
        let platform = Self::new(os, architecture);
        if parts.len() > 2 {
            Ok(platform.with_variant(parts[2].as_str()))
        } else {
            Ok(platform)
        }
    }

    /// The text form of the platform: `os/architecture` or
    /// `os/architecture/variant`.
    pub fn to_string(&self) -> (r: String)
        ensures
            r@ == platform_text(self@),
    {
        let mut parts: Vec<String> = Vec::new();
        parts.push(self.os.clone());
        parts.push(self.architecture.clone());
        match &self.variant {
            Some(v) => {
                parts.push(v.clone());
                assert(parts.deep_view() =~= seq![self@.os, self@.architecture, v@]);
            },
            None => {
                assert(parts.deep_view() =~= seq![self@.os, self@.architecture]);
            },
        }
        join_str(&parts, '/')
    }
}

impl std::str::FromStr for ImagePlatform {
    type Err = ContainerError;

    fn from_str(s: &str) -> (r: Result<Self, ContainerError>)
        ensures
            match parsed_platform(s@) {
                Some(p) => r matches Ok(q) && q@ == p,
                None => r matches Err(ContainerError::InvalidPlatform),
            },
    {
        Self::parse(s)
    }
}

/// Config for container image service support.
#[derive(Debug, Clone, PartialEq, Eq)]
#[non_exhaustive]
pub struct ContainerConfig {
    /// Local OCI image layout directory.
    pub layout: Option<String>,
    /// Image reference name in `index.json`.
    pub reference: Option<String>,
    /// Platform selector for multi-platform images.
    pub platform: Option<ImagePlatform>,
    /// Root path inside the merged image rootfs.
    pub root: Option<String>,
}

impl Default for ContainerConfig {
    fn default() -> (r: Self)
        ensures
            r.layout is None,
            r.reference is None,
            r.platform is None,
            r.root is None,
    {
        ContainerConfig { layout: None, reference: None, platform: None, root: None }
    }
}

/// A selector selects the platform it describes.
pub proof fn law_selector_matches_itself(p: PlatformView)
    ensures
        platform_matches(p, p),
{
}

/// Printing a platform and parsing the text gives the platform back, where
/// its operating system and architecture are not empty and no part holds a
/// `/`.
pub proof fn law_platform_text_parses_back(p: PlatformView)
    requires
        p.os.len() > 0,
        p.architecture.len() > 0,
        !p.os.contains('/'),
        !p.architecture.contains('/'),
        p.variant matches Some(v) ==> !v.contains('/'),
    ensures
        parsed_platform(platform_text(p)) == Some(p),
{
    match p.variant {
        Some(v) => {
            let parts = seq![p.os, p.architecture, v];
            assert forall|i: int| 0 <= i < parts.len() implies !(#[trigger] parts[i]).contains('/') by {
            }
            lemma_split_join(parts, '/');
        },
        None => {
            let parts = seq![p.os, p.architecture];
            assert forall|i: int| 0 <= i < parts.len() implies !(#[trigger] parts[i]).contains('/') by {
            }
            lemma_split_join(parts, '/');
        },
    }
}

/// A text that names a platform prints back as itself.
pub proof fn law_parsed_platform_prints_back(s: Seq<char>)
    requires
        parsed_platform(s) is Some,
    ensures
        platform_text(parsed_platform(s).unwrap()) == s,
{
    let parts = split_on(s, '/');
    lemma_join_split(s, '/');
    if parts.len() == 3 {
        assert(seq![parts[0], parts[1], parts[2]] =~= parts);
    } else {
        assert(seq![parts[0], parts[1]] =~= parts);
    }
}

} // verus!
