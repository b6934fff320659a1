use opendal_service_container::error::{ContainerError, ErrorKind};
use opendal_service_container::platform::{ImagePlatform, OciPlatform};

#[test]
fn platform_matches_default_variants() {
    assert!(ImagePlatform::linux_arm64().matches(&OciPlatform {
        os: "linux".to_string(),
        architecture: "arm64".to_string(),
        variant: Some("v8".to_string()),
    }));
    assert!(ImagePlatform::linux_amd64().matches(&OciPlatform {
        os: "linux".to_string(),
        architecture: "amd64".to_string(),
        variant: Some("v1".to_string()),
    }));
    assert!(ImagePlatform::new("linux", "arm").matches(&OciPlatform {
        os: "linux".to_string(),
        architecture: "arm".to_string(),
        variant: Some("v7".to_string()),
    }));

    assert!(
        !ImagePlatform::new("linux", "arm")
            .with_variant("v6")
            .matches(&OciPlatform {
                os: "linux".to_string(),
                architecture: "arm".to_string(),
                variant: Some("v7".to_string()),
            })
    );
}

#[test]
fn platform_text_round_trips() {
    let p = ImagePlatform::parse("linux/arm/v7").unwrap();
    assert_eq!(p.to_string(), "linux/arm/v7");
    let q = ImagePlatform::parse("linux/amd64").unwrap();
    assert_eq!(q.to_string(), "linux/amd64");
    assert_eq!(ImagePlatform::linux_amd64().to_string(), "linux/amd64");
    assert_eq!(ImagePlatform::linux_arm64().to_string(), "linux/arm64");
    assert_eq!(
        ImagePlatform::new("linux", "arm").with_variant("v6").to_string(),
        "linux/arm/v6"
    );
    let parsed: ImagePlatform = "windows/amd64".parse().unwrap();
    assert_eq!(parsed.to_string(), "windows/amd64");
}

#[test]
fn platform_text_rejects_malformed_input() {
    for text in ["", "linux", "linux/", "/amd64", "linux/arm/v7/extra"] {
        let err = ImagePlatform::parse(text).unwrap_err();
        assert!(matches!(err, ContainerError::InvalidPlatform));
        assert_eq!(err.kind(), ErrorKind::ConfigInvalid);
        assert_eq!(
            err.message(),
            "platform must use os/architecture or os/architecture/variant"
        );
    }
    assert!(ImagePlatform::parse("linux/arm/").is_ok());
    assert_eq!(ImagePlatform::parse("linux/arm/").unwrap().to_string(), "linux/arm/");
}

#[test]
fn platform_variant_defaults() {
    let oci = |os: &str, arch: &str, variant: Option<&str>| OciPlatform {
        os: os.to_string(),
        architecture: arch.to_string(),
        variant: variant.map(|v| v.to_string()),
    };
    assert!(ImagePlatform::linux_arm64().matches(&oci("linux", "arm64", None)));
    assert!(ImagePlatform::linux_arm64().matches(&oci("linux", "arm64", Some("8"))));
    assert!(ImagePlatform::linux_arm64().matches(&oci("linux", "arm64", Some("v8.0"))));
    assert!(!ImagePlatform::linux_arm64().matches(&oci("linux", "arm64", Some("v9"))));
    assert!(ImagePlatform::new("linux", "arm").with_variant("7").matches(&oci("linux", "arm", None)));
    assert!(ImagePlatform::linux_amd64().matches(&oci("linux", "amd64", None)));
    assert!(!ImagePlatform::linux_amd64().matches(&oci("linux", "arm64", None)));
    assert!(!ImagePlatform::linux_amd64().matches(&oci("windows", "amd64", None)));
    assert!(!ImagePlatform::linux_amd64().matches(&oci("linux", "amd64", Some("v2"))));
    let described = oci("linux", "riscv64", Some("rva22"));
    assert!(ImagePlatform::new("linux", "riscv64").with_variant("rva22").matches(&described));
}
