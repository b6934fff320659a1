use opendal_service_container::error::{ContainerError, ErrorKind};
use opendal_service_container::manifest::{
    blob_path, layer_format, select_descriptors, BlobKind, Descriptor, LayerFormat,
    ManifestSearch, OciIndex, OciManifest, SearchAction, SearchEvent, DOCKER_LAYER_TAR_GZIP,
    OCI_IMAGE_INDEX, OCI_IMAGE_MANIFEST, OCI_LAYER_TAR, OCI_LAYER_TAR_GZIP, OCI_REF_NAME,
};
use opendal_service_container::platform::{ImagePlatform, OciPlatform};

fn platform(arch: &str) -> Option<OciPlatform> {
    Some(OciPlatform {
        os: "linux".to_string(),
        architecture: arch.to_string(),
        variant: None,
    })
}

fn descriptor(media: &str, digest: &str, name: Option<&str>, arch: Option<&str>) -> Descriptor {
    Descriptor {
        media_type: media.to_string(),
        digest: digest.to_string(),
        annotations: name
            .map(|n| vec![(OCI_REF_NAME.to_string(), n.to_string())])
            .unwrap_or_default(),
        platform: arch.and_then(platform),
    }
}

fn manifest(config_digest: &str) -> OciManifest {
    OciManifest {
        config: descriptor("application/vnd.oci.image.config.v1+json", config_digest, None, None),
        layers: vec![descriptor(OCI_LAYER_TAR_GZIP, "sha256:layer", None, None)],
    }
}

fn fetched(action: &SearchAction) -> (BlobKind, String) {
    match action {
        SearchAction::Fetch(kind, loc) => {
            assert_eq!(loc.algorithm, "sha256");
            (*kind, loc.encoded.clone())
        }
        other => panic!("unexpected {other:?}"),
    }
}

#[test]
fn platform_filters_top_level_manifest_descriptors() {
    let candidates = vec![
        descriptor(OCI_IMAGE_MANIFEST, "sha256:arm", Some("latest"), Some("arm64")),
        descriptor(OCI_IMAGE_MANIFEST, "sha256:amd", Some("latest"), Some("amd64")),
    ];
    let mut search = ManifestSearch::new(candidates, ImagePlatform::linux_amd64());
    let action = search.advance(SearchEvent::Start);
    assert_eq!(fetched(&action), (BlobKind::Manifest, "amd".to_string()));
    match search.advance(SearchEvent::Manifest(manifest("sha256:cfg"))) {
        SearchAction::Found(m) => assert_eq!(m.config.digest, "sha256:cfg"),
        other => panic!("unexpected {other:?}"),
    }
}

#[test]
fn search_checks_configuration_without_descriptor_platform() {
    let candidates = vec![
        descriptor(OCI_IMAGE_MANIFEST, "sha256:one", Some("latest"), None),
        descriptor(OCI_IMAGE_MANIFEST, "sha256:two", Some("latest"), None),
    ];
    let mut search = ManifestSearch::new(candidates, ImagePlatform::linux_amd64());
    assert_eq!(fetched(&search.advance(SearchEvent::Start)), (BlobKind::Manifest, "one".to_string()));
    assert_eq!(
        fetched(&search.advance(SearchEvent::Manifest(manifest("sha256:cfg1")))),
        (BlobKind::Config, "cfg1".to_string())
    );
    let arm = platform("arm64").unwrap();
    assert_eq!(fetched(&search.advance(SearchEvent::Config(arm))), (BlobKind::Manifest, "two".to_string()));
    assert_eq!(
        fetched(&search.advance(SearchEvent::Manifest(manifest("sha256:cfg2")))),
        (BlobKind::Config, "cfg2".to_string())
    );
    let amd = platform("amd64").unwrap();
    match search.advance(SearchEvent::Config(amd)) {
        SearchAction::Found(m) => assert_eq!(m.config.digest, "sha256:cfg2"),
        other => panic!("unexpected {other:?}"),
    }
}

#[test]
fn search_descends_into_indexes_depth_first() {
    let candidates = vec![
        descriptor(OCI_IMAGE_INDEX, "sha256:idx", Some("latest"), None),
        descriptor(OCI_IMAGE_MANIFEST, "sha256:after", Some("latest"), Some("amd64")),
    ];
    let mut search = ManifestSearch::new(candidates, ImagePlatform::linux_amd64());
    assert_eq!(fetched(&search.advance(SearchEvent::Start)), (BlobKind::Index, "idx".to_string()));
    let nested = OciIndex {
        manifests: vec![
            descriptor(OCI_IMAGE_MANIFEST, "sha256:n-arm", None, Some("arm64")),
            descriptor(OCI_IMAGE_MANIFEST, "sha256:n-amd", None, Some("amd64")),
        ],
    };
    assert_eq!(
        fetched(&search.advance(SearchEvent::Index(nested))),
        (BlobKind::Manifest, "n-amd".to_string())
    );
}

#[test]
fn search_ends_without_match_or_on_bad_descriptor() {
    let candidates = vec![descriptor(OCI_IMAGE_MANIFEST, "sha256:arm", Some("latest"), Some("arm64"))];
    let mut search = ManifestSearch::new(candidates, ImagePlatform::linux_amd64());
    assert!(matches!(search.advance(SearchEvent::Start), SearchAction::NotFound));

    let candidates = vec![descriptor("text/plain", "sha256:x", Some("latest"), None)];
    let mut search = ManifestSearch::new(candidates, ImagePlatform::linux_amd64());
    match search.advance(SearchEvent::Start) {
        SearchAction::Fail(ContainerError::UnsupportedDescriptorMediaType { media_type }) => {
            assert_eq!(media_type, "text/plain")
        }
        other => panic!("unexpected {other:?}"),
    }

    let candidates = vec![descriptor(OCI_IMAGE_MANIFEST, "md5:x", Some("latest"), None)];
    let mut search = ManifestSearch::new(candidates, ImagePlatform::linux_amd64());
    match search.advance(SearchEvent::Start) {
        SearchAction::Fail(ContainerError::UnsupportedDigestAlgorithm { algorithm }) => {
            assert_eq!(algorithm, "md5")
        }
        other => panic!("unexpected {other:?}"),
    }
}

#[test]
fn blob_locations() {
    let loc = blob_path("sha256:abc:def").unwrap();
    assert_eq!(loc.algorithm, "sha256");
    assert_eq!(loc.encoded, "abc:def");
    match blob_path("abc") {
        Err(ContainerError::InvalidDigest { digest }) => assert_eq!(digest, "abc"),
        other => panic!("unexpected {other:?}"),
    }
    let err = blob_path("sha512:abc").unwrap_err();
    assert_eq!(err.kind(), ErrorKind::Unsupported);
}

#[test]
fn layer_formats() {
    assert_eq!(layer_format(OCI_LAYER_TAR).unwrap(), LayerFormat::Tar);
    assert_eq!(layer_format(OCI_LAYER_TAR_GZIP).unwrap(), LayerFormat::TarGzip);
    assert_eq!(layer_format(DOCKER_LAYER_TAR_GZIP).unwrap(), LayerFormat::TarGzip);
    match layer_format("application/zstd") {
        Err(ContainerError::UnsupportedLayerMediaType { media_type }) => {
            assert_eq!(media_type, "application/zstd")
        }
        other => panic!("unexpected {other:?}"),
    }
}

#[test]
fn descriptors_are_selected_by_name_or_digest() {
    let index = OciIndex {
        manifests: vec![
            descriptor(OCI_IMAGE_MANIFEST, "sha256:a", Some("latest"), None),
            descriptor(OCI_IMAGE_MANIFEST, "sha256:b", Some("other"), None),
            descriptor(OCI_IMAGE_MANIFEST, "sha256:c", None, None),
        ],
    };
    let by_name = select_descriptors(index, "latest").unwrap();
    assert_eq!(by_name.len(), 1);
    assert_eq!(by_name[0].digest, "sha256:a");

    let index = OciIndex {
        manifests: vec![descriptor(OCI_IMAGE_MANIFEST, "sha256:c", None, None)],
    };
    assert_eq!(select_descriptors(index, "sha256:c").unwrap().len(), 1);

    let index = OciIndex { manifests: vec![] };
    match select_descriptors(index, "latest") {
        Err(ContainerError::ReferenceNotFound { reference }) => assert_eq!(reference, "latest"),
        other => panic!("unexpected {other:?}"),
    }
}
