use opendal_service_container::backend::{ContainerBackend, ContainerBuilder};
use opendal_service_container::entry::EntryMetadata;
use opendal_service_container::error::{ContainerError, ErrorKind};
use opendal_service_container::image::ContainerCore;
use opendal_service_container::layer::{TarEntryKind, TarRecord};
use opendal_service_container::platform::ImagePlatform;
use opendal_service_container::raw_path::ReadRange;

fn file(path: &str, content: &[u8]) -> TarRecord {
    TarRecord {
        path: path.to_string(),
        kind: TarEntryKind::Regular(content.to_vec()),
    }
}

fn symlink(path: &str, target: &str) -> TarRecord {
    TarRecord {
        path: path.to_string(),
        kind: TarEntryKind::Symlink(Some(target.to_string())),
    }
}

fn hardlink(path: &str, target: &str) -> TarRecord {
    TarRecord {
        path: path.to_string(),
        kind: TarEntryKind::HardLink(Some(target.to_string())),
    }
}

fn dir(path: &str) -> TarRecord {
    TarRecord {
        path: path.to_string(),
        kind: TarEntryKind::Directory,
    }
}

fn image(layers: Vec<Vec<TarRecord>>) -> ContainerCore {
    let mut core = ContainerCore::new();
    for layer in layers {
        core.apply_layer(layer).unwrap();
    }
    core
}

fn service(layers: Vec<Vec<TarRecord>>, root: &str) -> ContainerBackend {
    let core = image(layers);
    let plan = ContainerBuilder::default()
        .layout("/layout")
        .reference("latest")
        .platform(ImagePlatform::linux_amd64())
        .root(root)
        .prepare()
        .unwrap();
    ContainerBackend::new(core, plan.root)
}

fn read_all(backend: &ContainerBackend, path: &str) -> Result<Vec<u8>, ContainerError> {
    backend
        .read(path, ReadRange::Range { offset: 0, size: None })
        .map(|(_, bytes)| bytes)
}

fn listed(backend: &ContainerBackend, path: &str) -> Vec<(String, EntryMetadata)> {
    let mut lister = backend.list(path);
    let mut out = Vec::new();
    while let Some(item) = lister.next() {
        out.push(item);
    }
    out
}

#[test]
fn read_and_list_local_oci_layout() {
    let backend = service(vec![vec![file("etc/os-release", b"NAME=OpenDAL\n")]], "");
    assert_eq!(read_all(&backend, "etc/os-release").unwrap(), b"NAME=OpenDAL\n");
    assert_eq!(
        listed(&backend, "etc/"),
        vec![
            ("etc/".to_string(), EntryMetadata::Dir),
            (
                "etc/os-release".to_string(),
                EntryMetadata::File { content_length: 13 }
            ),
        ]
    );
    assert_eq!(backend.stat("etc").unwrap(), EntryMetadata::Dir);
    assert_eq!(backend.stat("/").unwrap(), EntryMetadata::Dir);
    assert_eq!(
        backend.stat("etc/os-release").unwrap(),
        EntryMetadata::File { content_length: 13 }
    );
}

#[test]
fn whiteout_hides_lower_file() {
    let backend = service(
        vec![vec![file("deleted", b"deleted")], vec![file(".wh.deleted", b"")]],
        "",
    );
    assert!(matches!(backend.stat("deleted"), Err(ContainerError::NotFound)));
}

#[test]
fn whiteouts_do_not_hide_same_layer_entries() {
    let lower = vec![file("foo", b"old"), file("dir/old", b"old")];
    let upper = vec![
        file("foo", b"new"),
        file(".wh.foo", b""),
        file("dir/new", b"new"),
        file("dir/.wh..wh..opq", b""),
    ];
    let backend = service(vec![lower, upper], "");
    assert_eq!(read_all(&backend, "foo").unwrap(), b"new");
    assert_eq!(read_all(&backend, "dir/new").unwrap(), b"new");
    assert!(backend.stat("dir/old").is_err());
}

#[test]
fn directory_is_replaced_by_file() {
    let lower = vec![file("foo/bar", b"lower")];
    let upper = vec![file("foo", b"upper")];
    let backend = service(vec![lower, upper], "");
    assert_eq!(read_all(&backend, "foo").unwrap(), b"upper");
    assert!(backend.stat("foo/bar").is_err());
    assert!(listed(&backend, "foo/").is_empty());
}

#[test]
fn symlink_and_hardlink_are_readable() {
    let lower = vec![
        file("usr/bin/dash", b"shell"),
        symlink("bin/sh", "../usr/bin/dash"),
        hardlink("usr/bin/dash-copy", "usr/bin/dash"),
    ];
    let upper = vec![file("usr/bin/dash", b"new-shell")];
    let backend = service(vec![lower, upper], "");
    assert_eq!(read_all(&backend, "bin/sh").unwrap(), b"new-shell");
    assert_eq!(read_all(&backend, "usr/bin/dash-copy").unwrap(), b"shell");
}

#[test]
fn opaque_whiteout_at_top_clears_lower_layers() {
    let lower = vec![file("a", b"1"), file("b/c", b"2")];
    let upper = vec![file(".wh..wh..opq", b""), file("d", b"3")];
    let backend = service(vec![lower, upper], "");
    assert!(backend.stat("a").is_err());
    assert!(backend.stat("b/c").is_err());
    assert_eq!(read_all(&backend, "d").unwrap(), b"3");
}

#[test]
fn directory_entry_replaces_file_of_its_name() {
    let lower = vec![file("x", b"file")];
    let upper = vec![dir("x/")];
    let backend = service(vec![lower, upper], "");
    assert_eq!(backend.stat("x").unwrap(), EntryMetadata::Dir);
    assert!(matches!(read_all(&backend, "x"), Err(ContainerError::NotAFile)));
    assert!(matches!(read_all(&backend, "y"), Err(ContainerError::NotFound)));
    assert!(matches!(read_all(&backend, "x/"), Err(ContainerError::NotAFile)));
}

#[test]
fn file_under_a_file_replaces_it_with_a_directory() {
    let lower = vec![file("a", b"file")];
    let upper = vec![file("a/b", b"inner")];
    let backend = service(vec![lower, upper], "");
    assert_eq!(backend.stat("a").unwrap(), EntryMetadata::Dir);
    assert_eq!(read_all(&backend, "a/b").unwrap(), b"inner");
}

#[test]
fn read_ranges() {
    let backend = service(vec![vec![file("f", b"abcdef")]], "");
    let r = |range| backend.read("f", range);
    assert_eq!(r(ReadRange::Range { offset: 1, size: Some(2) }).unwrap(), (6, b"bc".to_vec()));
    assert_eq!(r(ReadRange::Range { offset: 4, size: None }).unwrap(), (6, b"ef".to_vec()));
    assert_eq!(r(ReadRange::Range { offset: 9, size: None }).unwrap(), (6, Vec::new()));
    assert_eq!(r(ReadRange::Range { offset: 9, size: Some(0) }).unwrap(), (6, Vec::new()));
    assert_eq!(r(ReadRange::Suffix { size: 2 }).unwrap(), (6, b"ef".to_vec()));
    assert_eq!(r(ReadRange::Suffix { size: 20 }).unwrap(), (6, b"abcdef".to_vec()));
    let err = r(ReadRange::Range { offset: 4, size: Some(5) }).unwrap_err();
    assert!(matches!(err, ContainerError::RangeNotSatisfied));
    assert_eq!(err.kind(), ErrorKind::RangeNotSatisfied);
}

#[test]
fn links_that_escape_or_cycle_fail() {
    let layer = vec![
        symlink("up", "../../etc"),
        symlink("a", "b"),
        symlink("b", "a"),
        file("real", b"x"),
    ];
    let backend = service(vec![layer], "");
    assert!(matches!(
        backend.stat("up/passwd"),
        Err(ContainerError::LinkEscapesImageRoot)
    ));
    let err = backend.stat("a").unwrap_err();
    assert!(matches!(err, ContainerError::LinkCycle));
    assert_eq!(err.kind(), ErrorKind::Unexpected);
    assert_eq!(err.message(), "container image contains a link cycle");
    assert_eq!(read_all(&backend, "real").unwrap(), b"x");
}

#[test]
fn configured_root_confines_links() {
    let layer = vec![
        file("etc/passwd", b"root"),
        file("sub/own", b"mine"),
        symlink("sub/out", "/etc/passwd"),
        symlink("sub/in", "own"),
    ];
    let backend = service(vec![layer], "/sub//");
    assert_eq!(read_all(&backend, "own").unwrap(), b"mine");
    assert_eq!(read_all(&backend, "in").unwrap(), b"mine");
    let err = read_all(&backend, "out").unwrap_err();
    assert!(matches!(err, ContainerError::LinkEscapesConfiguredRoot));
    assert_eq!(err.kind(), ErrorKind::PermissionDenied);
    assert_eq!(backend.stat("/").unwrap(), EntryMetadata::Dir);
    let names: Vec<String> = listed(&backend, "/").into_iter().map(|(p, _)| p).collect();
    assert_eq!(names, vec!["in", "out", "own"]);
}

#[test]
fn layer_errors() {
    let mut core = ContainerCore::new();
    assert!(matches!(
        core.apply_layer(vec![file("dir/.wh.", b"")]),
        Err(ContainerError::InvalidWhiteout)
    ));
    let mut core = ContainerCore::new();
    let missing = TarRecord {
        path: "l".to_string(),
        kind: TarEntryKind::Symlink(None),
    };
    assert!(matches!(
        core.apply_layer(vec![missing]),
        Err(ContainerError::LinkWithoutTarget)
    ));
    let mut core = ContainerCore::new();
    match core.apply_layer(vec![hardlink("h", "nowhere")]) {
        Err(ContainerError::HardLinkTargetNotFound { path }) => assert_eq!(path, "h"),
        other => panic!("unexpected {other:?}"),
    }
    let mut core = ContainerCore::new();
    let skipped_whiteout = TarRecord {
        path: ".wh.gone".to_string(),
        kind: TarEntryKind::Symlink(None),
    };
    assert!(core.apply_layer(vec![skipped_whiteout, dir("./"), file("k", b"")]).is_ok());
    assert!(core.entries.contains_key("k"));
    assert_eq!(core.entries.len(), 1);
}

#[test]
fn builder_checks_its_configuration() {
    let err = ContainerBuilder::default().prepare().unwrap_err();
    assert!(matches!(err, ContainerError::LayoutNotSpecified));
    let err = ContainerBuilder::default().layout("l").prepare().unwrap_err();
    assert!(matches!(err, ContainerError::ReferenceNotSpecified));
    let err = ContainerBuilder::default()
        .layout("l")
        .reference("r")
        .prepare()
        .unwrap_err();
    assert!(matches!(err, ContainerError::PlatformNotSpecified));
    assert_eq!(err.kind(), ErrorKind::ConfigInvalid);
    let plan = ContainerBuilder::default()
        .layout("l")
        .reference("r")
        .platform(ImagePlatform::linux_arm64())
        .root("a//b")
        .prepare()
        .unwrap();
    assert_eq!(plan.root, "/a/b/");
    assert_eq!(plan.layout, "l");
    assert_eq!(plan.reference, "r");
    let plan = ContainerBuilder::default()
        .layout("l")
        .reference("r")
        .platform(ImagePlatform::linux_arm64())
        .root("")
        .prepare()
        .unwrap();
    assert_eq!(plan.root, "/");
}

#[test]
fn hard_links_become_copies_of_what_they_lead_to() {
    let layer = vec![
        file("a", b"x"),
        hardlink("b", "a"),
        hardlink("c", "b"),
        dir("d/"),
        hardlink("e", "d"),
    ];
    let backend = service(vec![layer], "");
    assert_eq!(backend.stat("b").unwrap(), EntryMetadata::File { content_length: 1 });
    assert_eq!(backend.stat("c").unwrap(), EntryMetadata::File { content_length: 1 });
    assert_eq!(backend.stat("e").unwrap(), EntryMetadata::Dir);
    assert_eq!(read_all(&backend, "c").unwrap(), b"x");
}

#[test]
fn first_failing_hard_link_in_path_order_is_reported() {
    let mut core = ContainerCore::new();
    let layer = vec![
        hardlink("zz", "missing-one"),
        hardlink("b/c", "missing-two"),
        file("a", b"ok"),
        hardlink("aa", "a"),
    ];
    match core.apply_layer(layer) {
        Err(ContainerError::HardLinkTargetNotFound { path }) => assert_eq!(path, "b/c"),
        other => panic!("unexpected {other:?}"),
    }
}

#[test]
fn parent_directories_stay_present_in_directory_form() {
    let core = image(vec![
        vec![file("a/b/c", b"1"), file("x", b"2")],
        vec![file("x/y", b"3"), dir("a/b/")],
    ]);
    for key in ["a/", "a/b/", "a/b/c", "x/", "x/y"] {
        assert!(core.entries.contains_key(key), "{key}");
    }
    for key in ["a", "a/b", "x"] {
        assert!(!core.entries.contains_key(key), "{key}");
    }
    assert_eq!(core.entries.len(), 5);
}
