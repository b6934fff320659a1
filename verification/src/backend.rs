//! The read-only service over the merged file system of an image: building
//! it from its configuration, and stat, list and read under its root.

use vstd::prelude::*;
use std::sync::Arc;
use crate::entry::{ContainerEntry, EntryMetadata, EntryView};
use crate::error::ContainerError;
use crate::image::{
    ContainerCore, Resolution, components, law_plain_key_leads_to_itself, link_at, prefix_path,
    relative_keys, resolution,
};
use crate::paths::dir_form;
use crate::platform::{ContainerConfig, ImagePlatform};
use crate::raw_path::{
    ReadRange, abs_path, build_abs_path, build_rel_path, content_range, is_root_form,
    normalize_root, rel_path, root_form, slash, to_content_range,
};
use crate::table::{key_and_metadata, key_under, lemma_filter_sorted};
use crate::text::{
    chars_of, ends_with_char, has_last_char, has_prefix, same_str, starts_with, string_of_range,
    trim_end, trim_end_char, trim_start, trim_start_char, with_char, lemma_filter_all,
};

verus! {

/// The key lies under the configured root: the root is the image root, or
/// the key is the root itself or starts with it.
pub open spec fn within_root(key: Seq<char>, root: Seq<char>) -> bool {
    let r = trim_start_char(root, '/');
    r.len() == 0 || key == trim_end_char(r, '/') || starts_with(key, r)
}

/// The result of a lookup of `path` under `root`: the entry resolution leads
/// to, where it lies under the root.
pub open spec fn lookup_as(r: Result<Option<ContainerEntry>, ContainerError>, m: Map<Seq<char>, EntryView>, root: Seq<char>, path: Seq<char>) -> bool {
    match resolution(m, path) {
        Resolution::Found(k) => if within_root(k, root) {
            r matches Ok(Some(e)) && e@ == m[k]
        } else {
            r matches Err(ContainerError::LinkEscapesConfiguredRoot)
        },
        Resolution::Absent => r matches Ok(None),
        Resolution::Escapes => r matches Err(ContainerError::LinkEscapesImageRoot),
        Resolution::Cycle => r matches Err(ContainerError::LinkCycle),
    }
}

/// The result of a stat of the service path `path`: the root is a
/// directory; else the entry the path leads to; else a directory where some
/// entry lies under the path; else not found.
pub open spec fn stat_as(r: Result<EntryMetadata, ContainerError>, m: Map<Seq<char>, EntryView>, root: Seq<char>, path: Seq<char>) -> bool {
    let p = abs_path(root, path);
    if p == root.skip(1) || p.len() == 0 {
        r matches Ok(EntryMetadata::Dir)
    } else {
        match resolution(m, p) {
            Resolution::Found(k) => if within_root(k, root) {
                r matches Ok(md) && md == m[k].metadata
            } else {
                r matches Err(ContainerError::LinkEscapesConfiguredRoot)
            },
            Resolution::Absent => if exists|k: Seq<char>| #[trigger] m.contains_key(k) && starts_with(k, dir_form(p)) {
                r matches Ok(EntryMetadata::Dir)
            } else {
                r matches Err(ContainerError::NotFound)
            },
            Resolution::Escapes => r matches Err(ContainerError::LinkEscapesImageRoot),
            Resolution::Cycle => r matches Err(ContainerError::LinkCycle),
        }
    }
}

/// The result of a read of `range` of the service path `path`: the total
/// length of the file the path leads to, and the selected bytes.
pub open spec fn read_as(r: Result<(u64, Vec<u8>), ContainerError>, m: Map<Seq<char>, EntryView>, root: Seq<char>, path: Seq<char>, range: ReadRange) -> bool {
    let p = abs_path(root, path);
    match resolution(m, p) {
        Resolution::Found(k) => if !within_root(k, root) {
            r matches Err(ContainerError::LinkEscapesConfiguredRoot)
        } else {
            match m[k].content {
                None => r matches Err(ContainerError::NotAFile),
                Some(c) => match content_range(range, c.len() as usize) {
                    None => r matches Err(ContainerError::RangeNotSatisfied),
                    Some((s, e)) => r matches Ok((t, v)) && t == c.len() as u64 && v@ == c.subrange(s, e),
                },
            }
        },
        Resolution::Absent => r matches Err(ContainerError::NotFound),
        Resolution::Escapes => r matches Err(ContainerError::LinkEscapesImageRoot),
        Resolution::Cycle => r matches Err(ContainerError::LinkCycle),
    }
}

/// A regular file of the image on whose path no link stands reads back in
/// full as the content its layer wrote, through a service rooted at the
/// image root.
pub proof fn law_file_reads_back(
    m: Map<Seq<char>, EntryView>,
    p: Seq<char>,
    c: Seq<u8>,
    r: Result<(u64, Vec<u8>), ContainerError>,
)
    requires
        m.contains_key(p),
        m[p].content == Some(c),
        c.len() <= usize::MAX,
        !starts_with(p, slash()),
        forall|k: int| 1 <= k <= components(p).len() ==> link_at(m, #[trigger] prefix_path(components(p), k)) is None,
        read_as(r, m, slash(), p, ReadRange::Range { offset: 0, size: None }),
    ensures
        r matches Ok((t, v)) && t == c.len() && v@ == c,
{
    law_plain_key_leads_to_itself(m, p);
    assert(slash().subrange(0, 1) =~= slash());
    assert(starts_with(slash(), slash()));
    assert(slash().skip(1) + p =~= p);
    assert(slash().drop_first() =~= Seq::<char>::empty());
    assert(trim_start_char(Seq::<char>::empty(), '/') =~= Seq::<char>::empty());
    assert(slash()[0] == '/');
    assert(trim_start_char(slash(), '/') =~= Seq::<char>::empty());
    assert(within_root(p, slash()));
    assert(c.subrange(0, c.len() as int) =~= c);
}

/// A stat of a path that leads nowhere (not the root, not ending in `/`)
/// reports a directory exactly where some key lies under the path followed
/// by `/`, and fails with `NotFound` otherwise: a key that only shares the
/// path's characters (`etc/hosts` for `etc/host`) does not make it a
/// directory.
pub proof fn law_stat_of_absent_path(
    m: Map<Seq<char>, EntryView>,
    root: Seq<char>,
    path: Seq<char>,
    r: Result<EntryMetadata, ContainerError>,
)
    requires
        stat_as(r, m, root, path),
        abs_path(root, path).len() > 0,
        abs_path(root, path) != root.skip(1),
        !ends_with_char(abs_path(root, path), '/'),
        resolution(m, abs_path(root, path)) is Absent,
    ensures
        (r matches Ok(EntryMetadata::Dir)) <==> exists|k: Seq<char>| #[trigger] m.contains_key(k)
            && starts_with(k, abs_path(root, path).push('/')),
        !(exists|k: Seq<char>| #[trigger] m.contains_key(k) && starts_with(k, abs_path(root, path).push('/')))
            ==> r matches Err(ContainerError::NotFound),
{
    let p = abs_path(root, path);
    assert(dir_form(p) == p.push('/'));
}

/// Listing `/` on a service rooted at the image root scans every entry of
/// the image, in the order of keys.
pub proof fn law_list_root_scans_everything(b: &ContainerBackend)
    requires
        b.root() == slash(),
    ensures
        b.core_pairs().filter(key_under(scan_prefix(abs_path(b.root(), slash())))) == b.core_pairs(),
{
    let s = b.core_pairs();
    assert(slash().skip(1) =~= Seq::<char>::empty());
    let pfx = scan_prefix(abs_path(b.root(), slash()));
    assert(pfx =~= Seq::<char>::empty());
    assert forall|i: int| 0 <= i < s.len() implies key_under(pfx)(#[trigger] s[i]) by {
        assert(s[i].0.subrange(0, 0) =~= Seq::<char>::empty());
    }
    lemma_filter_all(s, key_under(pfx));
}

/// The key prefix a listing of the key `p` scans: the key as a directory,
/// or every key where it is empty.
pub open spec fn scan_prefix(p: Seq<char>) -> Seq<char> {
    if p.len() == 0 || ends_with_char(p, '/') {
        p
    } else {
        p.push('/')
    }
}

/// The read-only service over the merged file system of an image.
#[derive(Debug)]
pub struct ContainerBackend {
    core: Arc<ContainerCore>,
    root: String,
}

impl ContainerBackend {
    #[verifier::type_invariant]
    spec fn well_formed(self) -> bool {
        &&& self.core.entries.wf()
        &&& relative_keys(self.core.entries@)
        &&& is_root_form(self.root@)
    }

    /// The entries of the image.
    pub closed spec fn entries(&self) -> Map<Seq<char>, EntryView> {
        self.core.entries@
    }

    /// The root of the service inside the image, normalized.
    pub closed spec fn root(&self) -> Seq<char> {
        self.root@
    }

    /// A service over `core` rooted at the normalized root `root`.
    pub fn new(core: ContainerCore, root: String) -> (r: Self)
        requires
            core.entries.wf(),
            relative_keys(core.entries@),
            is_root_form(root@),
        ensures
            r.entries() == core.entries@,
            r.root() == root@,
    {
        ContainerBackend { core: Arc::new(core), root }
    }

    /// A second handle on the same service.
    pub fn duplicate(&self) -> (r: Self)
        ensures
            r.entries() == self.entries(),
            r.root() == self.root(),
    {
        proof {
            use_type_invariant(self);
        }
        ContainerBackend { core: self.core.clone(), root: self.root.clone() }
    }

    /// The entry the key `path` leads to, where it lies under the root. It
    /// fails where resolution fails or leads outside the root.
    pub fn get(&self, path: &str) -> (r: Result<Option<ContainerEntry>, ContainerError>)
        ensures
            lookup_as(r, self.entries(), self.root(), path@),
    {
        proof {
            use_type_invariant(self);
            crate::image::lemma_resolution_found_is_key(
                self.entries(),
                trim_start_char(path@, '/'),
                (self.entries().dom().len() + 1) as nat,
            );
        }
        let resolved = match self.core.resolve_path(path) {
            Ok(Some(k)) => k,
            Ok(None) => {
                return Ok(None);
            },
            Err(e) => {
                return Err(e);
            },
        };
        let root = trim_start(self.root.as_str(), '/');
        if !root.as_str().is_empty() {
            let plain = trim_end(root.as_str(), '/');
            if !same_str(resolved.as_str(), plain.as_str()) && !has_prefix(resolved.as_str(), root.as_str()) {
                return Err(ContainerError::LinkEscapesConfiguredRoot);
            }
        }
        match self.core.entries.get(resolved.as_str()) {
            Some(e) => Ok(Some(e.duplicate())),
            None => Ok(None),
        }
    }

    /// The metadata of the service path `path`.
    pub fn stat(&self, path: &str) -> (r: Result<EntryMetadata, ContainerError>)
        requires
            path@ == slash() || !starts_with(path@, slash()),
        ensures
            stat_as(r, self.entries(), self.root(), path@),
    {
        proof {
            use_type_invariant(self);
        }
        let p = build_abs_path(self.root.as_str(), path);
        let rc = chars_of(self.root.as_str());
        let tail = string_of_range(&rc, 1, rc.len());
        assert(tail@ =~= self.root@.skip(1));
        if same_str(p.as_str(), tail.as_str()) || p.as_str().is_empty() {
            return Ok(EntryMetadata::Dir);
        }
        match self.get(p.as_str()) {
            Ok(Some(entry)) => {
                return Ok(entry.metadata);
            },
            Ok(None) => {},
            Err(e) => {
                return Err(e);
            },
        }
        let dir_path = if has_last_char(p.as_str(), '/') {
            p
        } else {
            with_char(p.as_str(), '/')
        };
        if self.core.has_children(dir_path.as_str()) {
            return Ok(EntryMetadata::Dir);
        }
        Err(ContainerError::NotFound)
    }

    /// A lister of the entries under the service path `path`.
    pub fn list(&self, path: &str) -> (r: ContainerLister)
        requires
            path@ == slash() || !starts_with(path@, slash()),
        ensures
            r.root() == self.root(),
            r.position() == 0,
            r.entries() == self.core_pairs().filter(
                key_under(scan_prefix(abs_path(self.root(), path@))),
            ).map_values(|e: (Seq<char>, EntryView)| key_and_metadata(e)),
    {
        proof {
            use_type_invariant(self);
        }
        let p = build_abs_path(self.root.as_str(), path);
        let scan_path = if p.as_str().is_empty() || has_last_char(p.as_str(), '/') {
            p
        } else {
            with_char(p.as_str(), '/')
        };
        let entries = self.core.scan(scan_path.as_str());
        let ghost ev = entries@.map_values(|x: (String, EntryMetadata)| (x.0@, x.1));
        proof {
            let s = self.core.entries.pairs();
            let f = s.filter(key_under(scan_path@));
            lemma_filter_sorted(s, key_under(scan_path@));
            self.core.entries.lemma_view();
            assert(ev == f.map_values(|e: (Seq<char>, EntryView)| key_and_metadata(e)));
            assert(ev.len() == f.len());
            assert forall|i: int| 0 <= i < entries@.len() implies !starts_with(#[trigger] entries@[i].0@, slash())
                && starts_with(entries@[i].0@, self.root@.skip(1)) by {
                assert(ev[i] == (entries@[i].0@, entries@[i].1));
                assert(ev[i] == key_and_metadata(f[i]));
                assert(s.contains(f[i]));
                let j = choose|j: int| 0 <= j < s.len() && s[j] == f[i];
                assert(self.core.entries@.contains_key(s[j].0));
                assert(starts_with(f[i].0, scan_path@));
                assert(starts_with(scan_path@, self.root@.skip(1))) by {
                    assert(scan_path@.subrange(0, self.root@.skip(1).len() as int) =~= self.root@.skip(1));
                }
                assert(f[i].0.subrange(0, self.root@.skip(1).len() as int) =~= scan_path@.subrange(0, self.root@.skip(1).len() as int));
            }
        }
        ContainerLister::new(self.root.clone(), entries)
    }

    /// The pairs of the image's entries in the order of their keys.
    pub closed spec fn core_pairs(&self) -> Seq<(Seq<char>, EntryView)> {
        self.core.entries.pairs()
    }

    /// The total length of the regular file at the service path `path`, and
    /// the bytes of it that `range` selects.
    pub fn read(&self, path: &str, range: ReadRange) -> (r: Result<(u64, Vec<u8>), ContainerError>)
        requires
            path@ == slash() || !starts_with(path@, slash()),
        ensures
            read_as(r, self.entries(), self.root(), path@, range),
    {
        proof {
            use_type_invariant(self);
        }
        let p = build_abs_path(self.root.as_str(), path);
        let entry = match self.get(p.as_str()) {
            Ok(Some(e)) => e,
            Ok(None) => {
                return Err(ContainerError::NotFound);
            },
            Err(e) => {
                return Err(e);
            },
        };
        let content = match entry.content {
            Some(c) => c,
            None => {
                return Err(ContainerError::NotAFile);
            },
        };
        let total = content.len() as u64;
        let (start, end) = match to_content_range(range, content.len()) {
            Ok(r) => r,
            Err(_) => {
                return Err(ContainerError::RangeNotSatisfied);
            },
        };
        let mut slice: Vec<u8> = Vec::new();
        let mut i: usize = start;
        while i < end
            invariant
                start <= i <= end <= content.len(),
                slice@ == content@.subrange(start as int, i as int),
            decreases end - i,
        {
            slice.push(content[i]);
            i = i + 1;
            assert(slice@ =~= content@.subrange(start as int, i as int));
        }
        Ok((total, slice))
    }
}

/// The next listed index at or after `pos`: the root's own key is passed over.
pub open spec fn next_listed(entries: Seq<(Seq<char>, EntryMetadata)>, root: Seq<char>, pos: int) -> Option<int>
    decreases entries.len() - pos,
{
    if pos < 0 || pos >= entries.len() {
        None
    } else if entries[pos].0 == root.skip(1) {
        next_listed(entries, root, pos + 1)
    } else {
        Some(pos)
    }
}

/// Lists the entries under a path, relative to the service root.
#[derive(Debug)]
pub struct ContainerLister {
    root: String,
    entries: Vec<(String, EntryMetadata)>,
    position: usize,
}

impl ContainerLister {
    #[verifier::type_invariant]
    spec fn well_formed(self) -> bool {
        &&& starts_with(self.root@, slash())
        &&& self.position <= self.entries@.len()
        &&& forall|i: int| 0 <= i < self.entries@.len() ==> !starts_with(#[trigger] self.entries@[i].0@, slash())
            && starts_with(self.entries@[i].0@, self.root@.skip(1))
    }

    /// The root the entries are listed relative to.
    pub closed spec fn root(&self) -> Seq<char> {
        self.root@
    }

    /// The keys and metadata of the entries to list.
    pub closed spec fn entries(&self) -> Seq<(Seq<char>, EntryMetadata)> {
        self.entries@.map_values(|x: (String, EntryMetadata)| (x.0@, x.1))
    }

    /// The index of the next entry to consider.
    pub closed spec fn position(&self) -> int {
        self.position as int
    }

    /// A lister of `entries` relative to `root`.
    pub fn new(root: String, entries: Vec<(String, EntryMetadata)>) -> (r: Self)
        requires
            starts_with(root@, slash()),
            forall|i: int| 0 <= i < entries@.len() ==> !starts_with(#[trigger] entries@[i].0@, slash())
                && starts_with(entries@[i].0@, root@.skip(1)),
        ensures
            r.root() == root@,
            r.entries() == entries@.map_values(|x: (String, EntryMetadata)| (x.0@, x.1)),
            r.position() == 0,
    {
        ContainerLister { root, entries, position: 0 }
    }

    /// The next entry, relative to the root, with its metadata; the root's
    /// own entry is passed over.
    pub fn next(&mut self) -> (r: Option<(String, EntryMetadata)>)
        ensures
            final(self).root() == old(self).root(),
            final(self).entries() == old(self).entries(),
            match next_listed(old(self).entries(), old(self).root(), old(self).position()) {
                None => r is None && final(self).position() == old(self).entries().len(),
                Some(i) => r matches Some((p, md)) && p@ == rel_path(
                    old(self).root(),
                    old(self).entries()[i].0,
                ) && md == old(self).entries()[i].1 && final(self).position() == i + 1,
            },
    {
        proof {
            use_type_invariant(&*self);
        }
        let rc = chars_of(self.root.as_str());
        let tail = string_of_range(&rc, 1, rc.len());
        assert(tail@ =~= self.root@.skip(1));
        let ghost es = self.entries();
        let ghost start = self.position as int;
        while self.position < self.entries.len()
            invariant
                es == self.entries(),
                es == old(self).entries(),
                self.root@ == old(self).root(),
                start == old(self).position(),
                tail@ == self.root@.skip(1),
                starts_with(self.root@, slash()),
                start <= self.position <= self.entries@.len(),
                next_listed(es, self.root@, start) == next_listed(es, self.root@, self.position as int),
                forall|i: int| 0 <= i < self.entries@.len() ==> !starts_with(#[trigger] self.entries@[i].0@, slash())
                    && starts_with(self.entries@[i].0@, self.root@.skip(1)),
            decreases self.entries.len() - self.position,
        {
            let i = self.position;
            assert(es[i as int] == (self.entries@[i as int].0@, self.entries@[i as int].1));
            self.position = i + 1;
            if !same_str(self.entries[i].0.as_str(), tail.as_str()) {
                proof {
                    assert(self.root@ != self.entries@[i as int].0@) by {
                        assert(self.root@.subrange(0, 1)[0] == self.root@[0]);
                        assert(self.root@[0] == '/');
                        if self.root@ == self.entries@[i as int].0@ {
                            assert(starts_with(self.entries@[i as int].0@, slash())) by {
                                assert(self.entries@[i as int].0@.subrange(0, 1) =~= slash());
                            }
                        }
                    }
                }
                let path = build_rel_path(self.root.as_str(), self.entries[i].0.as_str());
                return Some((path, self.entries[i].1));
            }
        }
        None
    }
}

/// Reader returned by the container backend: reads ranges of one path.
#[derive(Debug)]
pub struct ContainerReader {
    backend: ContainerBackend,
    path: String,
}

impl ContainerReader {
    /// The service the reader reads from.
    pub closed spec fn backend(&self) -> &ContainerBackend {
        &self.backend
    }

    /// The service path the reader reads.
    pub closed spec fn path(&self) -> Seq<char> {
        self.path@
    }

    /// A reader of the service path `path`.
    pub fn new(backend: ContainerBackend, path: String) -> (r: Self)
        ensures
            r.backend().entries() == backend.entries(),
            r.backend().root() == backend.root(),
            r.path() == path@,
    {
        ContainerReader { backend, path }
    }

    /// The total length of the file and the bytes of it that `range`
    /// selects.
    pub fn open(&self, range: ReadRange) -> (r: Result<(u64, Vec<u8>), ContainerError>)
        requires
            self.path() == slash() || !starts_with(self.path(), slash()),
        ensures
            read_as(r, self.backend().entries(), self.backend().root(), self.path(), range),
    {
        self.backend.read(self.path.as_str(), range)
    }
}

/// The configuration of a service, checked, with its root normalized.
#[derive(Debug)]
pub struct BuildPlan {
    pub layout: String,
    pub reference: String,
    pub platform: ImagePlatform,
    pub root: String,
}

/// Builder of the container image service.
#[derive(Debug)]
pub struct ContainerBuilder {
    pub config: ContainerConfig,
}

impl Default for ContainerBuilder {
    fn default() -> (r: Self)
        ensures
            r.config.layout is None,
            r.config.reference is None,
            r.config.platform is None,
            r.config.root is None,
    {
        ContainerBuilder { config: ContainerConfig::default() }
    }
}

impl ContainerBuilder {
    /// Set the local OCI image layout directory.
    pub fn layout(self, layout: &str) -> (r: Self)
        ensures
            r.config.layout matches Some(l) && l@ == layout@,
            r.config.reference == self.config.reference,
            r.config.platform == self.config.platform,
            r.config.root == self.config.root,
    {
        let mut b = self;
        b.config.layout = Some(layout.to_owned());
        b
    }

    /// Set the image reference name in `index.json`.
    pub fn reference(self, reference: &str) -> (r: Self)
        ensures
            r.config.reference matches Some(x) && x@ == reference@,
            r.config.layout == self.config.layout,
            r.config.platform == self.config.platform,
            r.config.root == self.config.root,
    {
        let mut b = self;
        b.config.reference = Some(reference.to_owned());
        b
    }

    /// Set the image platform selector.
    pub fn platform(self, platform: ImagePlatform) -> (r: Self)
        ensures
            r.config.platform == Some(platform),
            r.config.layout == self.config.layout,
            r.config.reference == self.config.reference,
            r.config.root == self.config.root,
    {
        let mut b = self;
        b.config.platform = Some(platform);
        b
    }

    /// Set root inside the merged image rootfs; an empty root means the
    /// image root.
    pub fn root(self, root: &str) -> (r: Self)
        ensures
            root@.len() == 0 ==> r.config.root is None,
            root@.len() > 0 ==> (r.config.root matches Some(x) && x@ == root@),
            r.config.layout == self.config.layout,
            r.config.reference == self.config.reference,
            r.config.platform == self.config.platform,
    {
        let mut b = self;
        b.config.root = if root.is_empty() {
            None
        } else {
            Some(root.to_owned())
        };
        b
    }

    /// The checked configuration: layout, reference and platform must be
    /// given; the root defaults to `/` and is normalized.
    pub fn prepare(self) -> (r: Result<BuildPlan, ContainerError>)
        ensures
            self.config.layout is None ==> r matches Err(ContainerError::LayoutNotSpecified),
            self.config.layout is Some && self.config.reference is None ==> r matches Err(
                ContainerError::ReferenceNotSpecified,
            ),
            self.config.layout is Some && self.config.reference is Some && self.config.platform is None
                ==> r matches Err(ContainerError::PlatformNotSpecified),
            self.config.layout is Some && self.config.reference is Some && self.config.platform is Some
                ==> (r matches Ok(plan) && plan.layout == self.config.layout.unwrap()
                && plan.reference == self.config.reference.unwrap()
                && plan.platform == self.config.platform.unwrap()
                && plan.root@ == root_form(
                match self.config.root {
                    Some(x) => x@,
                    None => slash(),
                },
            )),
    {
        let config = self.config;
        let layout = match config.layout {
            Some(l) => l,
            None => {
                return Err(ContainerError::LayoutNotSpecified);
            },
        };
        let reference = match config.reference {
            Some(x) => x,
            None => {
                return Err(ContainerError::ReferenceNotSpecified);
            },
        };
        let platform = match config.platform {
            Some(p) => p,
            None => {
                return Err(ContainerError::PlatformNotSpecified);
            },
        };
        let root = match &config.root {
            Some(x) => normalize_root(x.as_str()),
            None => {
                let s = "/";
                proof {
                    reveal_strlit("/");
                }
                assert(s@ =~= slash());
                normalize_root(s)
            },
        };
        Ok(BuildPlan { layout, reference, platform, root })
    }
}

} // verus!
