//! The tar entries of a layer's blob, read from a plain or a gzip tar
//! archive.

use vstd::prelude::*;
use std::io::Read;
use flate2::read::GzDecoder;
use tar::{Archive, EntryType};
use crate::layer::{TarEntryKind, TarRecord, TarRecordView, records_view};
use crate::manifest::LayerFormat;

verus! {

/// The entries of the tar archive `data`, in archive order, as the `tar`
/// crate reads them, or `None` where it cannot read them.
pub uninterp spec fn tar_listing(data: Seq<u8>) -> Option<Seq<TarRecordView>>;

/// The entries of the tar archive that the gzip stream `data` holds, in
/// archive order, as the `tar` crate reads them through a `flate2` gzip
/// decoder, or `None` where either cannot read them.
pub uninterp spec fn gzip_tar_listing(data: Seq<u8>) -> Option<Seq<TarRecordView>>;

/// `tar::Archive::entries` over the bytes `data`: each entry's path, its
/// body, and the link name its header holds, by entry type. `None` where the
/// crate fails on an entry, its path, its link name or its body.
#[verifier::external_body]
fn read_tar(data: &[u8]) -> (r: Option<Vec<TarRecord>>)
    ensures
        match tar_listing(data@) {
            Some(rs) => r matches Some(v) && records_view(v@) == rs,
            None => r is None,
        },
{
    let mut out = Vec::new();
    for entry in Archive::new(data).entries().ok()? {
        let mut e = entry.ok()?;
        let mut body = Vec::new();
        let link = e.link_name().ok()?.map(|l| l.to_string_lossy().into_owned());
        e.read_to_end(&mut body).ok()?;
        out.push(TarRecord { path: e.path().ok()?.to_string_lossy().into_owned(), kind: match e.header().entry_type() {
            EntryType::Directory => TarEntryKind::Directory,
            EntryType::Regular => TarEntryKind::Regular(body),
            EntryType::Symlink => TarEntryKind::Symlink(link),
            EntryType::Link => TarEntryKind::HardLink(link),
            _ => TarEntryKind::Other,
        } });
    }
    Some(out)
}

/// `tar::Archive::entries` over a `flate2::read::GzDecoder` of the bytes
/// `data`, read as `read_tar` reads a plain archive. `None` where either
/// crate fails.
#[verifier::external_body]
fn read_gzip_tar(data: &[u8]) -> (r: Option<Vec<TarRecord>>)
    ensures
        match gzip_tar_listing(data@) {
            Some(rs) => r matches Some(v) && records_view(v@) == rs,
            None => r is None,
        },
{
    let mut out = Vec::new();
    for entry in Archive::new(GzDecoder::new(data)).entries().ok()? {
        let mut e = entry.ok()?;
        let mut body = Vec::new();
        let link = e.link_name().ok()?.map(|l| l.to_string_lossy().into_owned());
        e.read_to_end(&mut body).ok()?;
        out.push(TarRecord { path: e.path().ok()?.to_string_lossy().into_owned(), kind: match e.header().entry_type() {
            EntryType::Directory => TarEntryKind::Directory,
            EntryType::Regular => TarEntryKind::Regular(body),
            EntryType::Symlink => TarEntryKind::Symlink(link),
            EntryType::Link => TarEntryKind::HardLink(link),
            _ => TarEntryKind::Other,
        } });
    }
    Some(out)
}

/// The tar entries of a layer's blob stored in `format`.
pub open spec fn layer_listing(blob: Seq<u8>, format: LayerFormat) -> Option<Seq<TarRecordView>> {
    match format {
        LayerFormat::Tar => tar_listing(blob),
        LayerFormat::TarGzip => gzip_tar_listing(blob),
    }
}

/// The tar entries of the layer blob `blob`, stored in `format`, in archive
/// order; `None` where the blob cannot be read as such an archive.
pub fn layer_records(blob: &[u8], format: LayerFormat) -> (r: Option<Vec<TarRecord>>)
    ensures
        match layer_listing(blob@, format) {
            Some(rs) => r matches Some(v) && records_view(v@) == rs,
            None => r is None,
        },
{
    match format {
        LayerFormat::Tar => read_tar(blob),
        LayerFormat::TarGzip => read_gzip_tar(blob),
    }
}

} // verus!
