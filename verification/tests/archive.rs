use std::io::Write;

use flate2::write::GzEncoder;
use flate2::Compression;
use opendal_service_container::archive::layer_records;
use opendal_service_container::backend::{ContainerBackend, ContainerBuilder};
use opendal_service_container::entry::EntryMetadata;
use opendal_service_container::error::ContainerError;
use opendal_service_container::image::ContainerCore;
use opendal_service_container::layer::TarEntryKind;
use opendal_service_container::manifest::LayerFormat;
use opendal_service_container::platform::ImagePlatform;
use opendal_service_container::raw_path::ReadRange;

enum Item<'a> {
    File(&'a str, &'a [u8]),
    Dir(&'a str),
    Symlink(&'a str, &'a str),
    Hardlink(&'a str, &'a str),
}

fn tar_bytes(items: &[Item<'_>]) -> Vec<u8> {
    let mut out = Vec::new();
    {
        let mut builder = tar::Builder::new(&mut out);
        for item in items {
            let mut header = tar::Header::new_gnu();
            let (path, content): (&str, &[u8]) = match item {
                Item::File(path, content) => (path, content),
                Item::Dir(path) => {
                    header.set_entry_type(tar::EntryType::Directory);
                    (path, b"")
                }
                Item::Symlink(path, target) => {
                    header.set_entry_type(tar::EntryType::Symlink);
                    header.set_link_name(target).unwrap();
                    (path, b"")
                }
                Item::Hardlink(path, target) => {
                    header.set_entry_type(tar::EntryType::Link);
                    header.set_link_name(target).unwrap();
                    (path, b"")
                }
            };
            header.set_path(path).unwrap();
            header.set_size(content.len() as u64);
            header.set_cksum();
            builder.append(&header, content).unwrap();
        }
        builder.finish().unwrap();
    }
    out
}

fn gzip(data: &[u8]) -> Vec<u8> {
    let mut encoder = GzEncoder::new(Vec::new(), Compression::default());
    encoder.write_all(data).unwrap();
    encoder.finish().unwrap()
}

fn service(core: ContainerCore) -> ContainerBackend {
    let plan = ContainerBuilder::default()
        .layout("/layout")
        .reference("latest")
        .platform(ImagePlatform::linux_amd64())
        .prepare()
        .unwrap();
    ContainerBackend::new(core, plan.root)
}

fn read_all(backend: &ContainerBackend, path: &str) -> Vec<u8> {
    backend
        .read(path, ReadRange::Range { offset: 0, size: None })
        .unwrap()
        .1
}

#[test]
fn plain_and_gzip_archives_list_their_entries_in_order() {
    let items = [
        Item::Dir("etc/"),
        Item::File("etc/os-release", b"NAME=OpenDAL\n"),
        Item::Symlink("bin/sh", "../usr/bin/dash"),
        Item::Hardlink("usr/bin/dash-copy", "usr/bin/dash"),
    ];
    let plain = tar_bytes(&items);
    for (blob, format) in [
        (plain.clone(), LayerFormat::Tar),
        (gzip(&plain), LayerFormat::TarGzip),
    ] {
        let records = layer_records(&blob, format).unwrap();
        assert_eq!(records.len(), 4);
        assert_eq!(records[0].path, "etc/");
        assert!(matches!(records[0].kind, TarEntryKind::Directory));
        assert_eq!(records[1].path, "etc/os-release");
        assert!(matches!(&records[1].kind, TarEntryKind::Regular(c) if c == b"NAME=OpenDAL\n"));
        assert_eq!(records[2].path, "bin/sh");
        assert!(
            matches!(&records[2].kind, TarEntryKind::Symlink(Some(t)) if t == "../usr/bin/dash")
        );
        assert_eq!(records[3].path, "usr/bin/dash-copy");
        assert!(
            matches!(&records[3].kind, TarEntryKind::HardLink(Some(t)) if t == "usr/bin/dash")
        );
    }
}

#[test]
fn unreadable_blobs_give_no_records() {
    let plain = tar_bytes(&[Item::File("a", b"x")]);
    assert!(layer_records(&plain, LayerFormat::TarGzip).is_none());
    assert!(layer_records(&plain[..100], LayerFormat::Tar).is_none());
    assert!(layer_records(b"not gzip at all", LayerFormat::TarGzip).is_none());
}

#[test]
fn layer_blobs_merge_into_the_image() {
    let mut core = ContainerCore::new();
    let lower = gzip(&tar_bytes(&[
        Item::File("usr/bin/dash", b"shell"),
        Item::Symlink("bin/sh", "../usr/bin/dash"),
        Item::Hardlink("usr/bin/dash-copy", "usr/bin/dash"),
        Item::File("deleted", b"gone"),
    ]));
    let upper = tar_bytes(&[
        Item::File("usr/bin/dash", b"new-shell"),
        Item::File(".wh.deleted", b""),
    ]);
    core.apply_layer_blob(&lower, "application/vnd.oci.image.layer.v1.tar+gzip")
        .unwrap();
    core.apply_layer_blob(&upper, "application/vnd.oci.image.layer.v1.tar")
        .unwrap();
    let backend = service(core);
    assert_eq!(read_all(&backend, "bin/sh"), b"new-shell");
    assert_eq!(read_all(&backend, "usr/bin/dash-copy"), b"shell");
    assert!(matches!(backend.stat("deleted"), Err(ContainerError::NotFound)));
    assert_eq!(backend.stat("usr/bin").unwrap(), EntryMetadata::Dir);
}

#[test]
fn layer_blob_errors_leave_the_image_unchanged() {
    let mut core = ContainerCore::new();
    core.apply_layer_blob(&tar_bytes(&[Item::File("a", b"1")]), "application/vnd.oci.image.layer.v1.tar")
        .unwrap();
    match core.apply_layer_blob(b"", "application/vnd.oci.image.config.v1+json") {
        Err(ContainerError::UnsupportedLayerMediaType { media_type }) => {
            assert_eq!(media_type, "application/vnd.oci.image.config.v1+json")
        }
        other => panic!("unexpected {other:?}"),
    }
    assert!(matches!(
        core.apply_layer_blob(b"garbage", "application/vnd.docker.image.rootfs.diff.tar.gzip"),
        Err(ContainerError::UnreadableLayer)
    ));
    assert!(core.entries.contains_key("a"));
    assert_eq!(core.entries.len(), 1);
}
