//! Finding the manifest of an image reference for a platform in an OCI image
//! layout: the documents of the layout, the location of their blobs, and the
//! search through the layout's indexes. The search decides; its caller reads
//! the blobs it asks for and hands them back.

use vstd::prelude::*;
use crate::error::ContainerError;
use crate::platform::{ImagePlatform, OciPlatform, PlatformView, platform_matches};
use crate::text::{chars_of, find_first, first_index_of, lemma_filter_members, same_str, string_of_range};

verus! {

/// The annotation that names an image reference.
pub const OCI_REF_NAME: &'static str = "org.opencontainers.image.ref.name";

/// The media type of an OCI image index.
pub const OCI_IMAGE_INDEX: &'static str = "application/vnd.oci.image.index.v1+json";

/// The media type of an OCI image manifest.
pub const OCI_IMAGE_MANIFEST: &'static str = "application/vnd.oci.image.manifest.v1+json";

/// The media type of an uncompressed OCI layer.
pub const OCI_LAYER_TAR: &'static str = "application/vnd.oci.image.layer.v1.tar";

/// The media type of a gzip-compressed OCI layer.
pub const OCI_LAYER_TAR_GZIP: &'static str = "application/vnd.oci.image.layer.v1.tar+gzip";

/// The media type of a Docker manifest list.
pub const DOCKER_MANIFEST_LIST: &'static str = "application/vnd.docker.distribution.manifest.list.v2+json";

/// The media type of a Docker image manifest.
pub const DOCKER_MANIFEST: &'static str = "application/vnd.docker.distribution.manifest.v2+json";

/// The media type of a gzip-compressed Docker layer.
pub const DOCKER_LAYER_TAR_GZIP: &'static str = "application/vnd.docker.image.rootfs.diff.tar.gzip";

/// The algorithm of the digests the layout's blobs are stored under.
pub const SHA256: &'static str = "sha256";

/// A reference from one document of the layout to another blob.
#[derive(Debug)]
pub struct Descriptor {
    pub media_type: String,
    pub digest: String,
    /// The descriptor's annotations, each key once.
    pub annotations: Vec<(String, String)>,
    pub platform: Option<OciPlatform>,
}

/// The model of a descriptor.
pub struct DescriptorView {
    pub media_type: Seq<char>,
    pub digest: Seq<char>,
    pub annotations: Seq<(Seq<char>, Seq<char>)>,
    pub platform: Option<PlatformView>,
}

impl View for Descriptor {
    type V = DescriptorView;

    open spec fn view(&self) -> DescriptorView {
        DescriptorView {
            media_type: self.media_type@,
            digest: self.digest@,
            annotations: self.annotations@.map_values(|a: (String, String)| (a.0@, a.1@)),
            platform: match self.platform {
                Some(p) => Some(p@),
                None => None,
            },
        }
    }
}

/// The models of a sequence of descriptors.
pub open spec fn descriptors_view(ds: Seq<Descriptor>) -> Seq<DescriptorView> {
    ds.map_values(|d: Descriptor| d@)
}

/// An image index: descriptors of manifests or of further indexes.
#[derive(Debug)]
pub struct OciIndex {
    pub manifests: Vec<Descriptor>,
}

/// An image manifest: the descriptor of its configuration and those of its
/// layers, lowest first.
#[derive(Debug)]
pub struct OciManifest {
    pub config: Descriptor,
    pub layers: Vec<Descriptor>,
}

/// The model of a manifest.
pub struct ManifestView {
    pub config: DescriptorView,
    pub layers: Seq<DescriptorView>,
}

impl View for OciManifest {
    type V = ManifestView;

    open spec fn view(&self) -> ManifestView {
        ManifestView { config: self.config@, layers: descriptors_view(self.layers@) }
    }
}

/// The value of the annotation `key`, if any.
pub open spec fn annotation(anns: Seq<(Seq<char>, Seq<char>)>, key: Seq<char>) -> Option<Seq<char>>
    decreases anns.len(),
{
    if anns.len() == 0 {
        None
    } else if anns[0].0 == key {
        Some(anns[0].1)
    } else {
        annotation(anns.drop_first(), key)
    }
}

/// The descriptor is for `reference`: by its reference name annotation, or
/// by its digest.
pub open spec fn refers_to(d: DescriptorView, reference: Seq<char>) -> bool {
    annotation(d.annotations, OCI_REF_NAME@) == Some(reference) || d.digest == reference
}

/// The descriptor is for `reference`.
pub open spec fn for_reference(reference: Seq<char>) -> spec_fn(DescriptorView) -> bool {
    |d: DescriptorView| refers_to(d, reference)
}

/// Where a digest's blob is stored under the layout's `blobs` directory:
/// the algorithm and the encoded part, split at the first `:`.
pub enum BlobLocationView {
    At(Seq<char>, Seq<char>),
    /// The digest has no `:`.
    Invalid,
    /// The digest's algorithm is not sha256.
    UnsupportedAlgorithm(Seq<char>),
}

/// Where the blob of `digest` is stored.
pub open spec fn blob_location(digest: Seq<char>) -> BlobLocationView {
    let k = first_index_of(digest, ':');
    if k < 0 {
        BlobLocationView::Invalid
    } else if digest.take(k) != SHA256@ {
        BlobLocationView::UnsupportedAlgorithm(digest.take(k))
    } else {
        BlobLocationView::At(digest.take(k), digest.skip(k + 1))
    }
}

/// Where a blob is stored: `blobs/<algorithm>/<encoded>` under the layout.
#[derive(Debug)]
pub struct BlobLocation {
    pub algorithm: String,
    pub encoded: String,
}

/// The location of the blob of `digest`. It fails where the digest has no
/// algorithm part, or an algorithm other than sha256.
pub fn blob_path(digest: &str) -> (r: Result<BlobLocation, ContainerError>)
    ensures
        match blob_location(digest@) {
            BlobLocationView::At(a, e) => r matches Ok(l) && l.algorithm@ == a && l.encoded@ == e,
            BlobLocationView::Invalid => r matches Err(ContainerError::InvalidDigest { digest: d })
                && d@ == digest@,
            BlobLocationView::UnsupportedAlgorithm(a) => r matches Err(
                ContainerError::UnsupportedDigestAlgorithm { algorithm: x },
            ) && x@ == a,
        },
{
    let cs = chars_of(digest);
    match find_first(&cs, ':') {
        None => Err(ContainerError::InvalidDigest { digest: digest.to_owned() }),
        Some(k) => {
            let algorithm = string_of_range(&cs, 0, k);
            assert(algorithm@ =~= digest@.take(k as int));
            if !same_str(algorithm.as_str(), SHA256) {
                return Err(ContainerError::UnsupportedDigestAlgorithm { algorithm });
            }
            let encoded = string_of_range(&cs, k + 1, cs.len());
            assert(encoded@ =~= digest@.skip(k + 1));
            Ok(BlobLocation { algorithm, encoded })
        },
    }
}

/// How a layer's blob is stored.
#[derive(Clone, Copy, Debug, PartialEq, Eq, Structural)]
pub enum LayerFormat {
    Tar,
    TarGzip,
}

/// How a layer of media type `media_type` is stored, if it is a layer.
pub open spec fn layer_format_of(media_type: Seq<char>) -> Option<LayerFormat> {
    if media_type == OCI_LAYER_TAR@ {
        Some(LayerFormat::Tar)
    } else if media_type == OCI_LAYER_TAR_GZIP@ || media_type == DOCKER_LAYER_TAR_GZIP@ {
        Some(LayerFormat::TarGzip)
    } else {
        None
    }
}

/// How a layer of media type `media_type` is stored. It fails for a media
/// type that is not a tar or gzip tar layer.
pub fn layer_format(media_type: &str) -> (r: Result<LayerFormat, ContainerError>)
    ensures
        match layer_format_of(media_type@) {
            Some(f) => r == Ok::<LayerFormat, ContainerError>(f),
            None => r matches Err(ContainerError::UnsupportedLayerMediaType { media_type: m })
                && m@ == media_type@,
        },
{
    if same_str(media_type, OCI_LAYER_TAR) {
        Ok(LayerFormat::Tar)
    } else if same_str(media_type, OCI_LAYER_TAR_GZIP) || same_str(media_type, DOCKER_LAYER_TAR_GZIP) {
        Ok(LayerFormat::TarGzip)
    } else {
        Err(ContainerError::UnsupportedLayerMediaType { media_type: media_type.to_owned() })
    }
}

/// The value of the annotation `key` among `anns`, if any.
fn find_annotation<'a>(anns: &'a Vec<(String, String)>, key: &str) -> (r: Option<&'a String>)
    ensures
        match annotation(anns@.map_values(|a: (String, String)| (a.0@, a.1@)), key@) {
            Some(v) => r matches Some(x) && x@ == v,
            None => r is None,
        },
{
    let ghost s = anns@.map_values(|a: (String, String)| (a.0@, a.1@));
    let mut i: usize = 0;
    assert(s.skip(0) =~= s);
    while i < anns.len()
        invariant
            s == anns@.map_values(|a: (String, String)| (a.0@, a.1@)),
            i <= anns.len(),
            annotation(s, key@) == annotation(s.skip(i as int), key@),
        decreases anns.len() - i,
    {
        assert(s.skip(i as int)[0] == s[i as int]);
        assert(s.skip(i as int).drop_first() =~= s.skip(i + 1));
        if same_str(anns[i].0.as_str(), key) {
            return Some(&anns[i].1);
        }
        i = i + 1;
    }
    assert(s.skip(i as int).len() == 0);
    None
}

/// Whether the descriptor is for `reference`.
pub fn descriptor_refers_to(d: &Descriptor, reference: &str) -> (b: bool)
    ensures
        b == refers_to(d@, reference@),
{
    let named = match find_annotation(&d.annotations, OCI_REF_NAME) {
        Some(v) => same_str(v.as_str(), reference),
        None => false,
    };
    named || same_str(d.digest.as_str(), reference)
}

/// The descriptors of the layout's index that are for `reference`, in
/// order. It fails where there is none.
pub fn select_descriptors(index: OciIndex, reference: &str) -> (r: Result<Vec<Descriptor>, ContainerError>)
    ensures
        ({
            let selected = descriptors_view(index.manifests@).filter(for_reference(reference@));
            if selected.len() == 0 {
                r matches Err(ContainerError::ReferenceNotFound { reference: x }) && x@ == reference@
            } else {
                r matches Ok(v) && descriptors_view(v@) == selected
            }
        }),
{
    let ghost ds = descriptors_view(index.manifests@);
    let mut selected: Vec<Descriptor> = Vec::new();
    proof {
        reveal(Seq::filter);
        assert(ds.take(0) =~= Seq::<DescriptorView>::empty());
        assert(descriptors_view(selected@) =~= ds.take(0).filter(for_reference(reference@)));
    }
    for d in it: index.manifests
        invariant
            ds == descriptors_view(it.seq()),
            descriptors_view(selected@) == ds.take(it.index()).filter(for_reference(reference@)),
    {
        let ghost idx = it.index();
        let ghost before = descriptors_view(selected@);
        let ghost dv = d@;
        assert(ds[idx] == dv);
        let keep = descriptor_refers_to(&d, reference);
        if keep {
            selected.push(d);
            assert(descriptors_view(selected@) =~= before.push(dv));
        }
        proof {
            reveal(Seq::filter);
            assert(ds.take(idx + 1).drop_last() =~= ds.take(idx));
            assert(ds.take(idx + 1).last() == dv);
        }
    }
    proof {
        assert(ds.take(ds.len() as int) =~= ds);
    }
    if selected.len() == 0 {
        return Err(ContainerError::ReferenceNotFound { reference: reference.to_owned() });
    }
    Ok(selected)
}

/// Which kind of document the search asks for.
#[derive(Clone, Copy, Debug, PartialEq, Eq, Structural)]
pub enum BlobKind {
    Manifest,
    Config,
    Index,
}

/// What the search waits for.
#[derive(Debug)]
pub enum Awaiting {
    /// The search has not started.
    Start,
    /// The manifest of a descriptor; `checked` where the descriptor named a
    /// platform, which then matched.
    Manifest { checked: bool },
    /// The configuration of this manifest, whose platform decides.
    Config(OciManifest),
    /// An index whose descriptors are searched before the rest.
    Index,
    /// Nothing: the search is over.
    Done,
}

/// What the search is handed.
#[derive(Debug)]
pub enum SearchEvent {
    Start,
    Manifest(OciManifest),
    /// The platform of the configuration last asked for.
    Config(OciPlatform),
    Index(OciIndex),
}

/// What the search asks for or concludes.
#[derive(Debug)]
pub enum SearchAction {
    /// Read the document of this kind from this blob and hand it back.
    Fetch(BlobKind, BlobLocation),
    /// The manifest of the reference for the platform.
    Found(OciManifest),
    /// No manifest of the reference is for the platform.
    NotFound,
    /// The search cannot go on.
    Fail(ContainerError),
}

/// The model of what the search waits for.
pub enum AwaitingView {
    Start,
    Manifest { checked: bool },
    Config(ManifestView),
    Index,
    Done,
}

/// The model of an event.
pub enum EventView {
    Start,
    Manifest(ManifestView),
    Config(PlatformView),
    Index(Seq<DescriptorView>),
}

/// The model of an action.
pub enum ActionView {
    Fetch(BlobKind, Seq<char>, Seq<char>),
    Found(ManifestView),
    NotFound,
    InvalidDigest(Seq<char>),
    UnsupportedAlgorithm(Seq<char>),
    UnsupportedMediaType(Seq<char>),
    OtherFailure,
}

impl View for Awaiting {
    type V = AwaitingView;

    open spec fn view(&self) -> AwaitingView {
        match self {
            Awaiting::Start => AwaitingView::Start,
            Awaiting::Manifest { checked } => AwaitingView::Manifest { checked: *checked },
            Awaiting::Config(m) => AwaitingView::Config(m@),
            Awaiting::Index => AwaitingView::Index,
            Awaiting::Done => AwaitingView::Done,
        }
    }
}

impl View for SearchEvent {
    type V = EventView;

    open spec fn view(&self) -> EventView {
        match self {
            SearchEvent::Start => EventView::Start,
            SearchEvent::Manifest(m) => EventView::Manifest(m@),
            SearchEvent::Config(p) => EventView::Config(p@),
            SearchEvent::Index(i) => EventView::Index(descriptors_view(i.manifests@)),
        }
    }
}

impl View for SearchAction {
    type V = ActionView;

    open spec fn view(&self) -> ActionView {
        match self {
            SearchAction::Fetch(k, l) => ActionView::Fetch(*k, l.algorithm@, l.encoded@),
            SearchAction::Found(m) => ActionView::Found(m@),
            SearchAction::NotFound => ActionView::NotFound,
            SearchAction::Fail(ContainerError::InvalidDigest { digest }) => ActionView::InvalidDigest(digest@),
            SearchAction::Fail(ContainerError::UnsupportedDigestAlgorithm { algorithm }) => ActionView::UnsupportedAlgorithm(algorithm@),
            SearchAction::Fail(ContainerError::UnsupportedDescriptorMediaType { media_type }) => ActionView::UnsupportedMediaType(media_type@),
            SearchAction::Fail(_) => ActionView::OtherFailure,
        }
    }
}

/// The kind of document a descriptor's media type names.
pub enum MediaClass {
    Manifest,
    Index,
    Other,
}

/// The kind of document of media type `media_type`.
pub open spec fn media_class(media_type: Seq<char>) -> MediaClass {
    if media_type == OCI_IMAGE_MANIFEST@ || media_type == DOCKER_MANIFEST@ {
        MediaClass::Manifest
    } else if media_type == OCI_IMAGE_INDEX@ || media_type == DOCKER_MANIFEST_LIST@ {
        MediaClass::Index
    } else {
        MediaClass::Other
    }
}

/// The next descriptor to try, from the top of `stack`, and the stack below
/// it: descriptors whose named platform the selector does not select are
/// passed over.
pub open spec fn next_candidate(stack: Seq<DescriptorView>, selector: PlatformView) -> Option<
    (Seq<DescriptorView>, DescriptorView),
>
    decreases stack.len(),
{
    if stack.len() == 0 {
        None
    } else {
        let d = stack.last();
        match d.platform {
            Some(p) => if platform_matches(selector, p) {
                Some((stack.drop_last(), d))
            } else {
                next_candidate(stack.drop_last(), selector)
            },
            None => Some((stack.drop_last(), d)),
        }
    }
}

/// Asking for the blob of `digest` as a document of kind `kind`, or the
/// failure its digest causes.
pub open spec fn fetch_of(kind: BlobKind, digest: Seq<char>) -> ActionView {
    match blob_location(digest) {
        BlobLocationView::At(a, e) => ActionView::Fetch(kind, a, e),
        BlobLocationView::Invalid => ActionView::InvalidDigest(digest),
        BlobLocationView::UnsupportedAlgorithm(a) => ActionView::UnsupportedAlgorithm(a),
    }
}

/// What the search waits for after it acts: `w` where it asks for a
/// document, nothing where it concludes.
pub open spec fn awaiting_after(action: ActionView, w: AwaitingView) -> AwaitingView {
    if action is Fetch {
        w
    } else {
        AwaitingView::Done
    }
}

/// The model of the search: the platform it selects, the descriptors left to
/// try (the next on top), and what it waits for.
pub struct SearchView {
    pub selector: PlatformView,
    pub pending: Seq<DescriptorView>,
    pub awaiting: AwaitingView,
}

/// Trying the next descriptor of `pending`.
pub open spec fn try_next(selector: PlatformView, pending: Seq<DescriptorView>) -> (SearchView, ActionView) {
    match next_candidate(pending, selector) {
        None => (SearchView { selector, pending: Seq::empty(), awaiting: AwaitingView::Done }, ActionView::NotFound),
        Some((rest, d)) => match media_class(d.media_type) {
            MediaClass::Manifest => {
                let a = fetch_of(BlobKind::Manifest, d.digest);
                (SearchView {
                    selector,
                    pending: rest,
                    awaiting: awaiting_after(a, AwaitingView::Manifest { checked: d.platform is Some }),
                }, a)
            },
            MediaClass::Index => {
                let a = fetch_of(BlobKind::Index, d.digest);
                (SearchView { selector, pending: rest, awaiting: awaiting_after(a, AwaitingView::Index) }, a)
            },
            MediaClass::Other => (
                SearchView { selector, pending: rest, awaiting: AwaitingView::Done },
                ActionView::UnsupportedMediaType(d.media_type),
            ),
        },
    }
}

/// The event is the one the search waits for.
pub open spec fn expects(awaiting: AwaitingView, event: EventView) -> bool {
    match (awaiting, event) {
        (AwaitingView::Start, EventView::Start) => true,
        (AwaitingView::Manifest { .. }, EventView::Manifest(_)) => true,
        (AwaitingView::Config(_), EventView::Config(_)) => true,
        (AwaitingView::Index, EventView::Index(_)) => true,
        _ => false,
    }
}

/// One step of the search: its state after `event` and what it asks for or
/// concludes. A depth-first search: an index's descriptors are tried, in
/// order, before the descriptors after it.
pub open spec fn search_step(s: SearchView, event: EventView) -> (SearchView, ActionView) {
    match event {
        EventView::Start => try_next(s.selector, s.pending),
        EventView::Manifest(m) => match s.awaiting {
            AwaitingView::Manifest { checked } => if checked {
                (SearchView { awaiting: AwaitingView::Done, ..s }, ActionView::Found(m))
            } else {
                let a = fetch_of(BlobKind::Config, m.config.digest);
                (SearchView { awaiting: awaiting_after(a, AwaitingView::Config(m)), ..s }, a)
            },
            _ => (s, ActionView::OtherFailure),
        },
        EventView::Config(p) => match s.awaiting {
            AwaitingView::Config(m) => if platform_matches(s.selector, p) {
                (SearchView { awaiting: AwaitingView::Done, ..s }, ActionView::Found(m))
            } else {
                try_next(s.selector, s.pending)
            },
            _ => (s, ActionView::OtherFailure),
        },
        EventView::Index(children) => try_next(s.selector, s.pending + children.reverse()),
    }
}

/// Selecting descriptors for a reference is exact: every selected
/// descriptor carries the reference as its reference name or as its digest
/// (a name that merely starts with the reference does not count), and every
/// descriptor that carries it is selected.
pub proof fn law_selection_is_exact(ds: Seq<DescriptorView>, reference: Seq<char>)
    ensures
        forall|i: int| 0 <= i < ds.filter(for_reference(reference)).len() ==> {
            let d = #[trigger] ds.filter(for_reference(reference))[i];
            annotation(d.annotations, OCI_REF_NAME@) == Some(reference) || d.digest == reference
        },
        forall|i: int| 0 <= i < ds.len() && (annotation(ds[i].annotations, OCI_REF_NAME@) == Some(reference)
            || ds[i].digest == reference) ==> ds.filter(for_reference(reference)).contains(#[trigger] ds[i]),
{
    lemma_filter_members(ds, for_reference(reference));
    assert forall|i: int| 0 <= i < ds.len() && (annotation(ds[i].annotations, OCI_REF_NAME@) == Some(reference)
        || ds[i].digest == reference) implies ds.filter(for_reference(reference)).contains(#[trigger] ds[i]) by {
        ds.lemma_filter_contains(for_reference(reference), i);
    }
}

/// A selected descriptor of an image manifest, of the OCI or the Docker
/// media type alike, is fetched as a manifest from its blob; one of an
/// image index or a Docker manifest list, as an index.
pub proof fn law_manifest_types_are_fetched(
    selector: PlatformView,
    rest: Seq<DescriptorView>,
    d: DescriptorView,
    algorithm: Seq<char>,
    encoded: Seq<char>,
)
    requires
        d.platform matches Some(p) ==> platform_matches(selector, p),
        blob_location(d.digest) == BlobLocationView::At(algorithm, encoded),
    ensures
        d.media_type == OCI_IMAGE_MANIFEST@ || d.media_type == DOCKER_MANIFEST@ ==> try_next(selector, rest.push(d))
            == (SearchView {
            selector,
            pending: rest,
            awaiting: AwaitingView::Manifest { checked: d.platform is Some },
        }, ActionView::Fetch(BlobKind::Manifest, algorithm, encoded)),
        d.media_type == OCI_IMAGE_INDEX@ || d.media_type == DOCKER_MANIFEST_LIST@ ==> try_next(
            selector,
            rest.push(d),
        ) == (SearchView { selector, pending: rest, awaiting: AwaitingView::Index }, ActionView::Fetch(
            BlobKind::Index,
            algorithm,
            encoded,
        )),
{
    assert(rest.push(d).drop_last() =~= rest);
    assert(rest.push(d).last() == d);
    assert(next_candidate(rest.push(d), selector) == Some((rest, d)));
    reveal_strlit("application/vnd.oci.image.manifest.v1+json");
    reveal_strlit("application/vnd.docker.distribution.manifest.v2+json");
    reveal_strlit("application/vnd.oci.image.index.v1+json");
    reveal_strlit("application/vnd.docker.distribution.manifest.list.v2+json");
    assert(OCI_IMAGE_INDEX@.len() == 39 && OCI_IMAGE_MANIFEST@.len() == 42);
    assert(DOCKER_MANIFEST@.len() == 52 && DOCKER_MANIFEST_LIST@.len() == 57);
}

/// The search for the manifest of a reference for a platform, through the
/// descriptors for the reference and the indexes they lead to.
#[derive(Debug)]
pub struct ManifestSearch {
    selector: ImagePlatform,
    pending: Vec<Descriptor>,
    awaiting: Awaiting,
}

impl View for ManifestSearch {
    type V = SearchView;

    closed spec fn view(&self) -> SearchView {
        SearchView { selector: self.selector@, pending: descriptors_view(self.pending@), awaiting: self.awaiting@ }
    }
}

impl ManifestSearch {
    /// A search through `candidates`, first to last, for a manifest that
    /// `selector` selects.
    pub fn new(candidates: Vec<Descriptor>, selector: ImagePlatform) -> (r: Self)
        ensures
            r@ == (SearchView {
                selector: selector@,
                pending: descriptors_view(candidates@).reverse(),
                awaiting: AwaitingView::Start,
            }),
    {
        let mut pending: Vec<Descriptor> = Vec::new();
        push_reversed(&mut pending, candidates);
        assert(descriptors_view(pending@) =~= descriptors_view(candidates@).reverse());
        ManifestSearch { selector, pending, awaiting: Awaiting::Start }
    }

    /// The search waits for this event.
    pub open spec fn accepts(&self, event: EventView) -> bool {
        expects(self@.awaiting, event)
    }

    /// Tries the next descriptor.
    fn try_next(&mut self) -> (a: SearchAction)
        ensures
            (final(self)@, a@) == try_next(old(self)@.selector, old(self)@.pending),
    {
        let ghost sel = self@.selector;
        loop
            invariant
                self@.selector == sel,
                sel == old(self)@.selector,
                try_next(sel, old(self)@.pending) == try_next(sel, self@.pending),
            decreases self.pending.len(),
        {
            let ghost before = descriptors_view(self.pending@);
            match self.pending.pop() {
                None => {
                    assert(descriptors_view(self.pending@) =~= Seq::<DescriptorView>::empty());
                    self.awaiting = Awaiting::Done;
                    return SearchAction::NotFound;
                },
                Some(d) => {
                    assert(descriptors_view(self.pending@) =~= before.drop_last());
                    assert(d@ == before.last());
                    assert(before.len() > 0);
                    let skip = match &d.platform {
                        Some(p) => !self.selector.matches(p),
                        None => false,
                    };
                    proof {
                        if skip {
                            assert(next_candidate(before, sel) == next_candidate(before.drop_last(), sel));
                        } else {
                            assert(next_candidate(before, sel) == Some((before.drop_last(), d@)));
                        }
                    }
                    if !skip {
                        let checked = d.platform.is_some();
                        if same_str(d.media_type.as_str(), OCI_IMAGE_MANIFEST) || same_str(d.media_type.as_str(), DOCKER_MANIFEST) {
                            match blob_path(d.digest.as_str()) {
                                Ok(l) => {
                                    self.awaiting = Awaiting::Manifest { checked };
                                    return SearchAction::Fetch(BlobKind::Manifest, l);
                                },
                                Err(e) => {
                                    self.awaiting = Awaiting::Done;
                                    return SearchAction::Fail(e);
                                },
                            }
                        } else if same_str(d.media_type.as_str(), OCI_IMAGE_INDEX) || same_str(d.media_type.as_str(), DOCKER_MANIFEST_LIST) {
                            match blob_path(d.digest.as_str()) {
                                Ok(l) => {
                                    self.awaiting = Awaiting::Index;
                                    return SearchAction::Fetch(BlobKind::Index, l);
                                },
                                Err(e) => {
                                    self.awaiting = Awaiting::Done;
                                    return SearchAction::Fail(e);
                                },
                            }
                        } else {
                            self.awaiting = Awaiting::Done;
                            return SearchAction::Fail(ContainerError::UnsupportedDescriptorMediaType { media_type: d.media_type });
                        }
                    }
                },
            }
        }
    }

    /// One step of the search: hands it the event it waits for, and returns
    /// what it asks for next or what it concludes.
    pub fn advance(&mut self, event: SearchEvent) -> (a: SearchAction)
        requires
            old(self).accepts(event@),
        ensures
            (final(self)@, a@) == search_step(old(self)@, event@),
    {
        let mut awaiting = Awaiting::Done;
        std::mem::swap(&mut awaiting, &mut self.awaiting);
        match event {
            SearchEvent::Start => self.try_next(),
            SearchEvent::Manifest(m) => {
                let checked = match awaiting {
                    Awaiting::Manifest { checked } => checked,
                    _ => false,
                };
                if checked {
                    SearchAction::Found(m)
                } else {
                    match blob_path(m.config.digest.as_str()) {
                        Ok(l) => {
                            self.awaiting = Awaiting::Config(m);
                            SearchAction::Fetch(BlobKind::Config, l)
                        },
                        Err(e) => SearchAction::Fail(e),
                    }
                }
            },
            SearchEvent::Config(p) => {
                let manifest = match awaiting {
                    Awaiting::Config(m) => m,
                    _ => {
                        proof {
                            assert(false);
                        }
                        return SearchAction::NotFound;
                    },
                };
                if self.selector.matches(&p) {
                    SearchAction::Found(manifest)
                } else {
                    self.try_next()
                }
            },
            SearchEvent::Index(index) => {
                let ghost before = descriptors_view(self.pending@);
                let ghost children = descriptors_view(index.manifests@);
                push_reversed(&mut self.pending, index.manifests);
                assert(descriptors_view(self.pending@) =~= before + children.reverse());
                self.try_next()
            },
        }
    }
}

/// Pushes the descriptors of `ds` onto `stack`, last first, so that the
/// first of them ends on top.
fn push_reversed(stack: &mut Vec<Descriptor>, ds: Vec<Descriptor>)
    ensures
        descriptors_view(final(stack)@) == descriptors_view(old(stack)@) + descriptors_view(ds@).reverse(),
{
    let mut ds = ds;
    let ghost dv = descriptors_view(ds@);
    let ghost base = descriptors_view(stack@);
    while ds.len() > 0
        invariant
            descriptors_view(ds@) == dv.take(ds.len() as int),
            dv.len() >= ds.len(),
            descriptors_view(stack@) == base + dv.skip(ds.len() as int).reverse(),
        decreases ds.len(),
    {
        let ghost n = ds.len();
        let ghost dsold = ds@;
        let d = ds.pop().unwrap();
        assert(d == dsold[n - 1]);
        assert(descriptors_view(dsold)[n - 1] == dv.take(n as int)[n - 1]);
        assert(d@ == dv[n - 1]);
        let ghost sold = stack@;
        stack.push(d);
        assert(descriptors_view(stack@) =~= descriptors_view(sold).push(dv[n - 1]));
        assert(descriptors_view(ds@) =~= dv.take(n - 1));
        assert(dv.skip(n - 1).reverse() =~= dv.skip(n as int).reverse().push(dv[n - 1]));
        assert(descriptors_view(stack@) =~= base + dv.skip(ds.len() as int).reverse());
    }
    assert(dv.skip(0) =~= dv);
}

} // verus!
