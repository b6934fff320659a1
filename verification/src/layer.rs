//! Applying the layers of an image, in order, to the merged file system:
//! whiteouts first, then the layer's own entries, then its hard links.

use vstd::prelude::*;
use crate::entry::{ContainerEntry, ContainerLink, EntryView, dir_view, file_view, is_hard_link, other_view, LinkView};
use crate::error::ContainerError;
use crate::archive::{layer_listing, layer_records};
use crate::manifest::{layer_format, layer_format_of};
use crate::tree::{law_layer_keeps_parent_dirs, parents_present};
use crate::image::{
    ContainerCore, Resolution, Round, components, first_link_from, lemma_canonical_not_dir,
    lemma_resolution_found_is_key,
    link_at, prefix_path, relative_keys, resolution, resolve_from, round,
};
use crate::paths::{
    dir_form, ensure_dir_path, is_whiteout, is_whiteout_path, join_path, joined,
    lemma_normalized_tar_path_canonical, lemma_parent_name_of_joined,
    normalize_tar_path, normalized_tar_path, opaque_marker, parent_name, split_parent_name,
    whiteout_prefix,
};
use crate::table::{EntryTable, lemma_filter_sorted, pair_is_hard_link, without_prefix};
use crate::text::{
    chars_of, ends_with_char, join_with, lemma_join_split, lemma_join_starts_with_first,
    lemma_lex_irreflexive, lemma_lex_transitive, lex_lt, has_last_char, has_prefix, lemma_split_on_nonempty, push_char,
    split_on, split_str, starts_with, string_of_range, trim_end, trim_end_char, trim_start_char,
};

verus! {

/// The map after the whiteout at `path` is applied: `None` for a whiteout
/// that names nothing.
pub open spec fn whiteout_applied(m: Map<Seq<char>, EntryView>, path: Seq<char>) -> Option<
    Map<Seq<char>, EntryView>,
> {
    let parent = parent_name(path).0;
    let name = parent_name(path).1;
    if name == opaque_marker() {
        if parent.len() == 0 {
            Some(Map::empty())
        } else {
            Some(without_prefix(m, dir_form(parent)))
        }
    } else if starts_with(name, whiteout_prefix()) {
        let target = name.skip(4);
        if target.len() == 0 {
            None
        } else {
            let t = joined(parent, target);
            Some(without_prefix(m.remove(t), dir_form(t)))
        }
    } else {
        Some(m)
    }
}

/// The directory prefixes of a path: `parts[0]/`, `parts[0]/parts[1]/`, ...
/// for the first `n` parts.
pub open spec fn dir_chain(parts: Seq<Seq<char>>, n: int) -> Seq<char>
    decreases n,
{
    if n <= 0 {
        Seq::empty()
    } else {
        dir_chain(parts, n - 1) + parts[n - 1].push('/')
    }
}

/// The map after the directories on the way to a path are made: for each of
/// the first `n` directory prefixes, the entry of its plain form goes and a
/// directory entry is set where there is none.
pub open spec fn with_parent_dirs(m: Map<Seq<char>, EntryView>, parts: Seq<Seq<char>>, n: int) -> Map<
    Seq<char>,
    EntryView,
>
    decreases n,
{
    if n <= 0 {
        m
    } else {
        let m1 = with_parent_dirs(m, parts, n - 1);
        let cur = dir_chain(parts, n);
        let m2 = m1.remove(trim_end_char(cur, '/'));
        if m2.contains_key(cur) {
            m2
        } else {
            m2.insert(cur, dir_view())
        }
    }
}

/// The map after the parent directories of `path` are made.
pub open spec fn parent_dirs_added(m: Map<Seq<char>, EntryView>, path: Seq<char>) -> Map<
    Seq<char>,
    EntryView,
> {
    let parts = split_on(path, '/');
    with_parent_dirs(m, parts, parts.len() - 1)
}

/// The map after a layer's entry `e` at `path` replaces what was there: a
/// directory replaces the file of its plain name, anything else replaces the
/// whole tree under its directory form; then its parents are made and it is
/// set.
pub open spec fn entry_replaced(m: Map<Seq<char>, EntryView>, path: Seq<char>, e: EntryView) -> Map<
    Seq<char>,
    EntryView,
> {
    let cleared = if ends_with_char(path, '/') {
        m.remove(trim_end_char(path, '/'))
    } else {
        without_prefix(m.remove(dir_form(path)), dir_form(path))
    };
    parent_dirs_added(cleared, path).insert(path, e)
}

/// Applies the whiteout at `path` to the entries of lower layers. It fails
/// where the whiteout names nothing.
pub fn apply_whiteout(path: &str, entries: &mut EntryTable) -> (r: Result<(), ContainerError>)
    requires
        old(entries).wf(),
    ensures
        final(entries).wf(),
        match whiteout_applied(old(entries)@, path@) {
            Some(m) => r is Ok && final(entries)@ == m,
            None => r matches Err(ContainerError::InvalidWhiteout) && final(entries)@ == old(
                entries,
            )@,
        },
{
    let (parent, name) = split_parent_name(path);
    let marker = ".wh..wh..opq";
    let prefix = ".wh.";
    proof {
        reveal_strlit(".wh..wh..opq");
        reveal_strlit(".wh.");
        assert(marker@ =~= opaque_marker());
        assert(prefix@ =~= whiteout_prefix());
    }
    let nc = chars_of(name.as_str());
    let mc = chars_of(marker);
    if nc.len() == mc.len() && has_prefix(name.as_str(), marker) {
        assert(name@ =~= opaque_marker());
        if parent.as_str().is_empty() {
            entries.clear();
        } else {
            let dir = ensure_dir_path(parent.as_str());
            entries.remove_prefix(dir.as_str());
        }
        return Ok(());
    }
    assert(name@ != opaque_marker()) by {
        if name@ == opaque_marker() {
            assert(name@.subrange(0, name@.len() as int) =~= name@);
            assert(starts_with(name@, marker@));
        }
    }
    if has_prefix(name.as_str(), prefix) {
        let target = string_of_range(&nc, 4, nc.len());
        assert(target@ =~= name@.skip(4));
        if target.as_str().is_empty() {
            return Err(ContainerError::InvalidWhiteout);
        }
        let target = join_path(parent.as_str(), target.as_str());
        entries.remove(target.as_str());
        let dir = ensure_dir_path(target.as_str());
        entries.remove_prefix(dir.as_str());
    }
    Ok(())
}

/// Makes the parent directories of `path`.
pub fn insert_parent_dirs(path: &str, entries: &mut EntryTable)
    requires
        old(entries).wf(),
    ensures
        final(entries).wf(),
        final(entries)@ == parent_dirs_added(old(entries)@, path@),
{
    let parts = split_str(path, '/');
    let ghost ps = parts.deep_view();
    let ghost m0 = entries@;
    proof {
        lemma_split_on_nonempty(path@, '/');
    }
    let mut current = String::new();
    let mut i: usize = 0;
    assert(current@ =~= dir_chain(ps, 0));
    while i + 1 < parts.len()
        invariant
            entries.wf(),
            ps == parts.deep_view(),
            ps == split_on(path@, '/'),
            parts.len() >= 1,
            i + 1 <= parts.len(),
            current@ == dir_chain(ps, i as int),
            entries@ == with_parent_dirs(m0, ps, i as int),
        decreases parts.len() - i,
    {
        current.append(parts[i].as_str());
        push_char(&mut current, '/');
        assert(current@ =~= dir_chain(ps, i + 1));
        let plain = trim_end(current.as_str(), '/');
        entries.remove(plain.as_str());
        entries.insert_if_absent(current.clone(), ContainerEntry::dir());
        i = i + 1;
    }
}

/// Sets the layer's entry `entry` at `path` in place of what lower layers
/// had there.
pub fn replace_entry(entries: &mut EntryTable, path: String, entry: ContainerEntry)
    requires
        old(entries).wf(),
    ensures
        final(entries).wf(),
        final(entries)@ == entry_replaced(old(entries)@, path@, entry@),
{
    let is_dir = has_last_char(path.as_str(), '/');
    if is_dir {
        let plain = trim_end(path.as_str(), '/');
        entries.remove(plain.as_str());
    } else {
        let dir = ensure_dir_path(path.as_str());
        entries.remove(dir.as_str());
        entries.remove_prefix(dir.as_str());
    }
    insert_parent_dirs(path.as_str(), entries);
    entries.insert(path, entry);
}

/// The keys of the hard links among the pairs, in order.
pub open spec fn hard_link_keys_of(pairs: Seq<(Seq<char>, EntryView)>) -> Seq<Seq<char>> {
    pairs.filter(pair_is_hard_link()).map_values(|e: (Seq<char>, EntryView)| e.0)
}

/// The map after the entries at the first `n` of `keys` are replaced by the
/// entries their paths lead to in `snap`.
pub open spec fn links_filled(snap: Map<Seq<char>, EntryView>, keys: Seq<Seq<char>>, n: int) -> Map<
    Seq<char>,
    EntryView,
>
    decreases n,
{
    if n <= 0 {
        snap
    } else {
        let m = links_filled(snap, keys, n - 1);
        match resolution(snap, keys[n - 1]) {
            Resolution::Found(k) => m.insert(keys[n - 1], snap[k]),
            _ => m,
        }
    }
}

/// The error with which resolving the hard link at `key` fails.
pub open spec fn hard_link_error(o: Resolution, key: Seq<char>, e: ContainerError) -> bool {
    match o {
        Resolution::Found(_) => false,
        Resolution::Absent => e matches ContainerError::HardLinkTargetNotFound { path } && path@ == key,
        Resolution::Escapes => e is LinkEscapesImageRoot,
        Resolution::Cycle => e is LinkCycle,
    }
}

/// The paths of the first `n` keys all lead to entries.
pub open spec fn all_found(snap: Map<Seq<char>, EntryView>, keys: Seq<Seq<char>>, n: int) -> bool {
    forall|i: int| 0 <= i < n ==> #[trigger] resolution(snap, keys[i]) is Found
}

/// Every hard link of `m` leads to an entry.
pub open spec fn hard_links_resolvable(m: Map<Seq<char>, EntryView>) -> bool {
    forall|k: Seq<char>| #[trigger] m.contains_key(k) && is_hard_link(m[k]) ==> resolution(m, k) is Found
}

/// `m` with each hard link replaced by the entry it leads to in `m`.
pub open spec fn hard_links_filled(m: Map<Seq<char>, EntryView>) -> Map<Seq<char>, EntryView> {
    Map::new(
        |k: Seq<char>| m.contains_key(k),
        |k: Seq<char>|
            if is_hard_link(m[k]) && resolution(m, k) is Found {
                m[resolution(m, k)->Found_0]
            } else {
                m[k]
            },
    )
}

proof fn lemma_links_filled(snap: Map<Seq<char>, EntryView>, keys: Seq<Seq<char>>, n: int)
    requires
        0 <= n <= keys.len(),
        keys.no_duplicates(),
        forall|i: int| 0 <= i < keys.len() ==> snap.contains_key(#[trigger] keys[i]),
        all_found(snap, keys, n),
    ensures
        links_filled(snap, keys, n) == Map::new(
            |k: Seq<char>| snap.contains_key(k),
            |k: Seq<char>|
                if keys.take(n).contains(k) {
                    snap[resolution(snap, k)->Found_0]
                } else {
                    snap[k]
                },
        ),
    decreases n,
{
    let target = Map::new(
        |k: Seq<char>| snap.contains_key(k),
        |k: Seq<char>|
            if keys.take(n).contains(k) {
                snap[resolution(snap, k)->Found_0]
            } else {
                snap[k]
            },
    );
    if n == 0 {
        assert(links_filled(snap, keys, n) =~= target);
    } else {
        lemma_links_filled(snap, keys, n - 1);
        assert(resolution(snap, keys[n - 1]) is Found);
        assert forall|k: Seq<char>| #[trigger] keys.take(n).contains(k) == (keys.take(n - 1).contains(k) || k == keys[n - 1]) by {
            if keys.take(n).contains(k) {
                let j = choose|j: int| 0 <= j < n && #[trigger] keys.take(n)[j] == k;
                if j < n - 1 {
                    assert(keys.take(n - 1)[j] == k);
                }
            }
            if keys.take(n - 1).contains(k) {
                let j = choose|j: int| 0 <= j < n - 1 && #[trigger] keys.take(n - 1)[j] == k;
                assert(keys.take(n)[j] == k);
            }
            if k == keys[n - 1] {
                assert(keys.take(n)[n - 1] == k);
            }
        }
        assert(links_filled(snap, keys, n) =~= target);
    }
}

/// The hard link keys of a table are its keys whose entries are hard links,
/// each once.
proof fn lemma_hard_link_keys(t: EntryTable)
    requires
        t.wf(),
    ensures
        ({
            let keys = hard_link_keys_of(t.pairs());
            &&& keys.no_duplicates()
            &&& forall|i: int, j: int| 0 <= i < j < keys.len() ==> lex_lt(#[trigger] keys[i], #[trigger] keys[j])
            &&& forall|i: int| 0 <= i < keys.len() ==> t@.contains_key(#[trigger] keys[i]) && is_hard_link(t@[keys[i]])
            &&& forall|k: Seq<char>| #[trigger] t@.contains_key(k) && is_hard_link(t@[k]) ==> keys.contains(k)
        }),
{
    let s = t.pairs();
    let f = s.filter(pair_is_hard_link());
    let keys = hard_link_keys_of(s);
    t.lemma_view();
    lemma_filter_sorted(s, pair_is_hard_link());
    assert forall|i: int, j: int| 0 <= i < keys.len() && 0 <= j < keys.len() && i != j implies keys[i] != keys[j] by {
        lemma_lex_irreflexive(keys[i]);
        if i < j {
            assert(lex_lt(f[i].0, f[j].0));
        } else {
            assert(lex_lt(f[j].0, f[i].0));
        }
    }
    assert forall|i: int, j: int| 0 <= i < j < keys.len() implies lex_lt(#[trigger] keys[i], #[trigger] keys[j]) by {
        assert(lex_lt(f[i].0, f[j].0));
    }
    assert forall|i: int| 0 <= i < keys.len() implies t@.contains_key(#[trigger] keys[i]) && is_hard_link(t@[keys[i]]) by {
        assert(s.contains(f[i]));
        let j = choose|j: int| 0 <= j < s.len() && s[j] == f[i];
        assert(s[j].0 == keys[i]);
    }
    assert forall|k: Seq<char>| #[trigger] t@.contains_key(k) && is_hard_link(t@[k]) implies keys.contains(k) by {
        let j = choose|j: int| 0 <= j < s.len() && #[trigger] s[j].0 == k;
        assert(pair_is_hard_link()(s[j]));
        assert(f.contains(s[j]));
        let i = choose|i: int| 0 <= i < f.len() && f[i] == s[j];
        assert(keys[i] == k);
    }
}

/// Every hard link of `m` whose path comes before `k` leads to an entry.
pub open spec fn hard_links_before_found(m: Map<Seq<char>, EntryView>, k: Seq<char>) -> bool {
    forall|k2: Seq<char>| #[trigger] m.contains_key(k2) && is_hard_link(m[k2]) && lex_lt(k2, k) ==> resolution(m, k2) is Found
}

proof fn lemma_first_failure(snap: Map<Seq<char>, EntryView>, keys: Seq<Seq<char>>, i: int)
    requires
        0 <= i < keys.len(),
        all_found(snap, keys, i),
        forall|a: int, b: int| 0 <= a < b < keys.len() ==> lex_lt(#[trigger] keys[a], #[trigger] keys[b]),
        forall|k: Seq<char>| #[trigger] snap.contains_key(k) && is_hard_link(snap[k]) ==> keys.contains(k),
    ensures
        hard_links_before_found(snap, keys[i]),
{
    assert forall|k2: Seq<char>| #[trigger] snap.contains_key(k2) && is_hard_link(snap[k2]) && lex_lt(k2, keys[i])
        implies resolution(snap, k2) is Found by {
        let j = choose|j: int| 0 <= j < keys.len() && keys[j] == k2;
        lemma_lex_irreflexive(keys[i]);
        if j > i {
            assert(lex_lt(keys[i], keys[j]));
            lemma_lex_transitive(keys[i], k2, keys[i]);
        }
        if j < i {
            assert(resolution(snap, keys[j]) is Found);
        }
    }
}

/// Replaces each hard link by a copy of the entry its target leads to, as
/// the entries stand before any is replaced. It fails at the first hard link,
/// in the order of paths, whose target leads nowhere.
pub fn resolve_hardlinks(entries: &mut EntryTable) -> (r: Result<(), ContainerError>)
    requires
        old(entries).wf(),
    ensures
        final(entries).wf(),
        ({
            let snap = old(entries)@;
            let keys = hard_link_keys_of(old(entries).pairs());
            &&& r is Ok <==> all_found(snap, keys, keys.len() as int)
            &&& r is Ok ==> final(entries)@ == links_filled(snap, keys, keys.len() as int)
            &&& r matches Err(e) ==> exists|i: int|
                0 <= i < keys.len() && all_found(snap, keys, i) && #[trigger] hard_link_error(
                    resolution(snap, keys[i]),
                    keys[i],
                    e,
                ) && final(entries)@ == links_filled(snap, keys, i)
        }),
        r is Ok <==> hard_links_resolvable(old(entries)@),
        r is Ok ==> final(entries)@ == hard_links_filled(old(entries)@),
        r matches Err(e) ==> exists|k: Seq<char>|
            #[trigger] old(entries)@.contains_key(k) && is_hard_link(old(entries)@[k]) && hard_link_error(
                resolution(old(entries)@, k),
                k,
                e,
            ) && hard_links_before_found(old(entries)@, k),
{
    proof {
        lemma_hard_link_keys(*old(entries));
    }
    let ghost snap = entries@;
    let paths = entries.hard_link_keys();
    let ghost keys = paths.deep_view();
    assert(keys == hard_link_keys_of(entries.pairs()));
    if paths.len() == 0 {
        proof {
            assert(hard_links_filled(snap) =~= snap) by {
                assert forall|k: Seq<char>| snap.contains_key(k) && is_hard_link(snap[k]) implies false by {
                    assert(keys.contains(k));
                }
            }
        }
        return Ok(());
    }
    let core = ContainerCore { entries: entries.duplicate() };
    let mut i: usize = 0;
    while i < paths.len()
        invariant
            entries.wf(),
            core.entries.wf(),
            core.entries@ == snap,
            snap == old(entries)@,
            keys == hard_link_keys_of(old(entries).pairs()),
            keys == paths.deep_view(),
            i <= paths.len(),
            all_found(snap, keys, i as int),
            entries@ == links_filled(snap, keys, i as int),
            keys.no_duplicates(),
            forall|a: int, b: int| 0 <= a < b < keys.len() ==> lex_lt(#[trigger] keys[a], #[trigger] keys[b]),
            forall|j: int| 0 <= j < keys.len() ==> snap.contains_key(#[trigger] keys[j]) && is_hard_link(snap[keys[j]]),
            forall|k: Seq<char>| #[trigger] snap.contains_key(k) && is_hard_link(snap[k]) ==> keys.contains(k),
        decreases paths.len() - i,
    {
        let path = &paths[i];
        assert(path@ == keys[i as int]);
        let found = core.get(path.as_str());
        match found {
            Ok(Some(entry)) => {
                proof {
                    lemma_resolution_found_is_key(
                        snap,
                        crate::text::trim_start_char(path@, '/'),
                        (snap.dom().len() + 1) as nat,
                    );
                }
                entries.insert(path.clone(), entry);
                assert(all_found(snap, keys, i + 1)) by {
                    assert forall|j: int| 0 <= j < i + 1 implies #[trigger] resolution(snap, keys[j]) is Found by {
                        if j < i {
                            assert(resolution(snap, keys[j]) is Found);
                        }
                    }
                }
                i = i + 1;
            },
            Ok(None) => {
                proof {
                    assert(snap.contains_key(keys[i as int]) && is_hard_link(snap[keys[i as int]]));
                    lemma_first_failure(snap, keys, i as int);
                }
                let err = ContainerError::HardLinkTargetNotFound { path: path.clone() };
                assert(hard_link_error(resolution(snap, keys[i as int]), keys[i as int], err));
                return Err(err);
            },
            Err(e) => {
                assert(hard_link_error(resolution(snap, keys[i as int]), keys[i as int], e));
                assert(snap.contains_key(keys[i as int]) && is_hard_link(snap[keys[i as int]]));
                proof {
                    lemma_first_failure(snap, keys, i as int);
                }
                return Err(e);
            },
        }
    }
    proof {
        lemma_links_filled(snap, keys, keys.len() as int);
        assert(keys.take(keys.len() as int) =~= keys);
        assert(hard_links_resolvable(snap)) by {
            assert forall|k: Seq<char>| #[trigger] snap.contains_key(k) && is_hard_link(snap[k]) implies resolution(snap, k) is Found by {
                let j = choose|j: int| 0 <= j < keys.len() && keys[j] == k;
            }
        }
        assert(links_filled(snap, keys, keys.len() as int) =~= hard_links_filled(snap));
    }
    Ok(())
}

/// What a tar entry of a layer holds.
#[derive(Debug)]
pub enum TarEntryKind {
    Directory,
    Regular(Vec<u8>),
    /// A symbolic link, with the target its header names, if any.
    Symlink(Option<String>),
    /// A hard link, with the target its header names, if any.
    HardLink(Option<String>),
    /// A device, a fifo or another kind of entry.
    Other,
}

/// A tar entry of a layer: its path as the archive wrote it, and what it holds.
#[derive(Debug)]
pub struct TarRecord {
    pub path: String,
    pub kind: TarEntryKind,
}

/// The model of what a tar entry holds.
pub enum TarKindView {
    Directory,
    Regular(Seq<u8>),
    Symlink(Option<Seq<char>>),
    HardLink(Option<Seq<char>>),
    Other,
}

/// The model of a tar entry.
pub struct TarRecordView {
    pub path: Seq<char>,
    pub kind: TarKindView,
}

impl View for TarEntryKind {
    type V = TarKindView;

    open spec fn view(&self) -> TarKindView {
        match self {
            TarEntryKind::Directory => TarKindView::Directory,
            TarEntryKind::Regular(c) => TarKindView::Regular(c@),
            TarEntryKind::Symlink(t) => TarKindView::Symlink(
                match t {
                    Some(s) => Some(s@),
                    None => None,
                },
            ),
            TarEntryKind::HardLink(t) => TarKindView::HardLink(
                match t {
                    Some(s) => Some(s@),
                    None => None,
                },
            ),
            TarEntryKind::Other => TarKindView::Other,
        }
    }
}

impl View for TarRecord {
    type V = TarRecordView;

    open spec fn view(&self) -> TarRecordView {
        TarRecordView { path: self.path@, kind: self.kind@ }
    }
}

/// What a layer does with one of its tar entries.
pub enum Step {
    /// The path has no normal component: the entry is ignored.
    Skip,
    /// The entry is a whiteout for lower layers.
    Whiteout(Seq<char>),
    /// The entry is set at this key.
    Entry(Seq<char>, EntryView),
    /// The entry is a link without a target.
    MissingTarget,
}

/// What a layer does with the tar entry `r`.
pub open spec fn step_of(r: TarRecordView) -> Step {
    let path = normalized_tar_path(r.path);
    if path.len() == 0 {
        Step::Skip
    } else if is_whiteout_path(path) {
        Step::Whiteout(path)
    } else {
        match r.kind {
            TarKindView::Directory => Step::Entry(dir_form(path), dir_view()),
            TarKindView::Regular(c) => Step::Entry(path, file_view(c)),
            TarKindView::Symlink(Some(t)) => Step::Entry(path, other_view(Some(LinkView::Symbolic(t)))),
            TarKindView::HardLink(Some(t)) => Step::Entry(path, other_view(Some(LinkView::Hard(t)))),
            TarKindView::Symlink(None) => Step::MissingTarget,
            TarKindView::HardLink(None) => Step::MissingTarget,
            TarKindView::Other => Step::Entry(path, other_view(None)),
        }
    }
}

/// The whiteouts among the layer's entries, in order.
pub open spec fn layer_whiteouts(rs: Seq<TarRecordView>) -> Seq<Seq<char>>
    decreases rs.len(),
{
    if rs.len() == 0 {
        Seq::empty()
    } else {
        let w = layer_whiteouts(rs.drop_last());
        match step_of(rs.last()) {
            Step::Whiteout(p) => w.push(p),
            _ => w,
        }
    }
}

/// The keys and entries the layer sets, in order.
pub open spec fn layer_entries(rs: Seq<TarRecordView>) -> Seq<(Seq<char>, EntryView)>
    decreases rs.len(),
{
    if rs.len() == 0 {
        Seq::empty()
    } else {
        let es = layer_entries(rs.drop_last());
        match step_of(rs.last()) {
            Step::Entry(p, e) => es.push((p, e)),
            _ => es,
        }
    }
}

/// Some entry of the layer is a link without a target.
pub open spec fn has_missing_target(rs: Seq<TarRecordView>) -> bool {
    exists|i: int| 0 <= i < rs.len() && #[trigger] step_of(rs[i]) is MissingTarget
}

/// The map after the first `n` whiteouts are applied, or `None` where one
/// of them names nothing.
pub open spec fn whiteouts_applied(m: Map<Seq<char>, EntryView>, ws: Seq<Seq<char>>, n: int) -> Option<
    Map<Seq<char>, EntryView>,
>
    decreases n,
{
    if n <= 0 {
        Some(m)
    } else {
        match whiteouts_applied(m, ws, n - 1) {
            None => None,
            Some(m1) => whiteout_applied(m1, ws[n - 1]),
        }
    }
}

/// The map after the first `n` entries of the layer replace what was there.
pub open spec fn entries_replaced(m: Map<Seq<char>, EntryView>, es: Seq<(Seq<char>, EntryView)>, n: int) -> Map<
    Seq<char>,
    EntryView,
>
    decreases n,
{
    if n <= 0 {
        m
    } else {
        let m1 = entries_replaced(m, es, n - 1);
        entry_replaced(m1, es[n - 1].0, es[n - 1].1)
    }
}

/// The map after a layer's whiteouts and entries are applied, before its
/// hard links are resolved; `None` where a whiteout names nothing.
pub open spec fn layer_merged(m: Map<Seq<char>, EntryView>, rs: Seq<TarRecordView>) -> Option<
    Map<Seq<char>, EntryView>,
> {
    let ws = layer_whiteouts(rs);
    let es = layer_entries(rs);
    match whiteouts_applied(m, ws, ws.len() as int) {
        None => None,
        Some(m1) => Some(entries_replaced(m1, es, es.len() as int)),
    }
}

/// The entry a layer sets for one of its tar entries.
fn entry_of(kind: TarEntryKind) -> (r: Result<ContainerEntry, ContainerError>)
    ensures
        match kind@ {
            TarKindView::Directory => r matches Ok(e) && e@ == dir_view(),
            TarKindView::Regular(c) => r matches Ok(e) && e@ == file_view(c),
            TarKindView::Symlink(Some(t)) => r matches Ok(e) && e@ == other_view(Some(LinkView::Symbolic(t))),
            TarKindView::HardLink(Some(t)) => r matches Ok(e) && e@ == other_view(Some(LinkView::Hard(t))),
            TarKindView::Symlink(None) => r matches Err(ContainerError::LinkWithoutTarget),
            TarKindView::HardLink(None) => r matches Err(ContainerError::LinkWithoutTarget),
            TarKindView::Other => r matches Ok(e) && e@ == other_view(None),
        },
{
    match kind {
        TarEntryKind::Directory => Ok(ContainerEntry::dir()),
        TarEntryKind::Regular(content) => Ok(ContainerEntry::file(content)),
        TarEntryKind::Symlink(Some(t)) => Ok(ContainerEntry::other(Some(ContainerLink::Symbolic(t)))),
        TarEntryKind::HardLink(Some(t)) => Ok(ContainerEntry::other(Some(ContainerLink::Hard(t)))),
        TarEntryKind::Symlink(None) => Err(ContainerError::LinkWithoutTarget),
        TarEntryKind::HardLink(None) => Err(ContainerError::LinkWithoutTarget),
        TarEntryKind::Other => Ok(ContainerEntry::other(None)),
    }
}

proof fn lemma_whiteouts_stay_none(m: Map<Seq<char>, EntryView>, ws: Seq<Seq<char>>, i: int)
    requires
        0 <= i <= ws.len(),
        whiteouts_applied(m, ws, i) is None,
    ensures
        whiteouts_applied(m, ws, ws.len() as int) is None,
    decreases ws.len() - i,
{
    if i < ws.len() {
        lemma_whiteouts_stay_none(m, ws, i + 1);
    }
}

/// The models of a layer's tar entries.
pub open spec fn records_view(records: Seq<TarRecord>) -> Seq<TarRecordView> {
    records.map_values(|t: TarRecord| t@)
}

/// The outcome `r` of applying the layer whose tar entries are `rs` to the
/// entries `m0`, and the entries `m1` after it: a link entry without a target
/// fails the layer and changes nothing; a whiteout that names nothing fails
/// it; else it succeeds exactly where every hard link of the merged entries
/// leads to an entry, which it then holds, and fails with the error of the
/// first hard link, in the order of paths, that does not.
pub open spec fn layer_outcome(
    m0: Map<Seq<char>, EntryView>,
    rs: Seq<TarRecordView>,
    r: Result<(), ContainerError>,
    m1: Map<Seq<char>, EntryView>,
) -> bool {
    if has_missing_target(rs) {
        r matches Err(ContainerError::LinkWithoutTarget) && m1 == m0
    } else {
        match layer_merged(m0, rs) {
            None => r matches Err(ContainerError::InvalidWhiteout),
            Some(m) => {
                &&& r is Ok <==> hard_links_resolvable(m)
                &&& r is Ok ==> m1 == hard_links_filled(m)
                &&& r matches Err(e) ==> exists|k: Seq<char>|
                    #[trigger] m.contains_key(k) && is_hard_link(m[k]) && hard_link_error(
                        resolution(m, k),
                        k,
                        e,
                    ) && hard_links_before_found(m, k)
            },
        }
    }
}

/// Applies a layer, given as its tar entries in archive order, to the
/// entries of the layers below it: the layer's whiteouts first, then its own
/// entries, then its hard links are resolved. It fails where a link entry
/// has no target, where a whiteout names nothing, or where a hard link leads
/// nowhere (with the error of the first such, in the order of paths).
pub fn apply_tar_layer(records: Vec<TarRecord>, entries: &mut EntryTable) -> (r: Result<(), ContainerError>)
    requires
        old(entries).wf(),
    ensures
        final(entries).wf(),
        layer_outcome(old(entries)@, records_view(records@), r, final(entries)@),
{
    let ghost rs = records_view(records@);
    let ghost m0 = entries@;
    let mut whiteouts: Vec<String> = Vec::new();
    let mut layer: Vec<(String, ContainerEntry)> = Vec::new();
    assert(rs.take(0) =~= Seq::<TarRecordView>::empty());
    for record in it: records
        invariant
            entries.wf(),
            entries@ == m0,
            rs == records_view(it.seq()),
            whiteouts.deep_view() == layer_whiteouts(rs.take(it.index())),
            layer@.map_values(|p: (String, ContainerEntry)| (p.0@, p.1@)) == layer_entries(
                rs.take(it.index()),
            ),
            forall|j: int| 0 <= j < it.index() ==> !(#[trigger] step_of(rs[j]) is MissingTarget),
    {
        let ghost idx = it.index();
        let ghost rv = record@;
        assert(rs[idx] == rv);
        assert(rs.take(idx + 1).drop_last() =~= rs.take(idx));
        assert(rs.take(idx + 1).last() == rv);
        let ghost wbefore = whiteouts.deep_view();
        let ghost lbefore = layer@.map_values(|p: (String, ContainerEntry)| (p.0@, p.1@));
        let path = normalize_tar_path(record.path.as_str());
        if path.as_str().is_empty() {
        } else if is_whiteout(path.as_str()) {
            whiteouts.push(path);
            assert(whiteouts.deep_view() =~= wbefore.push(normalized_tar_path(rv.path)));
        } else {
            let is_dir = match &record.kind {
                TarEntryKind::Directory => true,
                _ => false,
            };
            let entry = match entry_of(record.kind) {
                Ok(e) => e,
                Err(e) => {
                    proof {
                        assert(step_of(rs[idx]) is MissingTarget);
                    }
                    return Err(e);
                },
            };
            let key = if is_dir {
                ensure_dir_path(path.as_str())
            } else {
                path
            };
            let ghost kv = key@;
            let ghost ev = entry@;
            layer.push((key, entry));
            assert(layer@.map_values(|p: (String, ContainerEntry)| (p.0@, p.1@)) =~= lbefore.push((kv, ev)));
        }
    }
    let ghost ws = whiteouts.deep_view();
    let ghost es = layer@.map_values(|p: (String, ContainerEntry)| (p.0@, p.1@));
    proof {
        assert(rs.take(rs.len() as int) =~= rs);
        assert(!has_missing_target(rs));
        assert(ws == layer_whiteouts(rs));
        assert(es == layer_entries(rs));
    }
    let mut i: usize = 0;
    while i < whiteouts.len()
        invariant
            entries.wf(),
            ws == whiteouts.deep_view(),
            ws == layer_whiteouts(rs),
            rs == records_view(records@),
            !has_missing_target(rs),
            m0 == old(entries)@,
            i <= whiteouts.len(),
            whiteouts_applied(m0, ws, i as int) == Some(entries@),
        decreases whiteouts.len() - i,
    {
        let r = apply_whiteout(whiteouts[i].as_str(), entries);
        if r.is_err() {
            proof {
                lemma_whiteouts_stay_none(m0, ws, i + 1);
            }
            return r;
        }
        i = i + 1;
    }
    let ghost m1 = entries@;
    assert(entries_replaced(m1, es, 0) == m1);
    for item in it: layer
        invariant
            entries.wf(),
            es == it.seq().map_values(|p: (String, ContainerEntry)| (p.0@, p.1@)),
            entries@ == entries_replaced(m1, es, it.index()),
    {
        let ghost idx = it.index();
        assert(es[idx] == (item.0@, item.1@));
        let (key, entry) = item;
        replace_entry(entries, key, entry);
    }
    assert(entries@ == entries_replaced(m1, es, es.len() as int));
    resolve_hardlinks(entries)
}

/// A whiteout `.wh.<name>` under `parent` removes `<name>` and everything
/// under it from the entries of lower layers, and nothing else.
pub proof fn law_whiteout_hides_target(m: Map<Seq<char>, EntryView>, parent: Seq<char>, name: Seq<char>)
    requires
        name.len() > 0,
        !name.contains('/'),
        whiteout_prefix() + name != opaque_marker(),
    ensures
        ({
            let t = joined(parent, name);
            &&& whiteout_applied(m, joined(parent, whiteout_prefix() + name)) is Some
            &&& !whiteout_applied(m, joined(parent, whiteout_prefix() + name)).unwrap().contains_key(t)
            &&& forall|k: Seq<char>| #[trigger] whiteout_applied(m, joined(parent, whiteout_prefix() + name)).unwrap().contains_key(k)
                ==> !starts_with(k, dir_form(t))
            &&& forall|k: Seq<char>| #[trigger] m.contains_key(k) && k != t && !starts_with(k, dir_form(t))
                ==> whiteout_applied(m, joined(parent, whiteout_prefix() + name)).unwrap().contains_key(k)
                && whiteout_applied(m, joined(parent, whiteout_prefix() + name)).unwrap()[k] == m[k]
        }),
{
    let w = whiteout_prefix() + name;
    assert(!w.contains('/')) by {
        if w.contains('/') {
            let j = choose|j: int| 0 <= j < w.len() && w[j] == '/';
            if j >= 4 {
                assert(name[j - 4] == '/');
            }
        }
    }
    lemma_parent_name_of_joined(parent, w);
    assert(w.subrange(0, 4) =~= whiteout_prefix());
    assert(w.skip(4) =~= name);
}

/// The whiteout `.wh..wh..opq` in a directory removes everything under the
/// directory from the entries of lower layers; at the top it removes
/// everything.
pub proof fn law_opaque_whiteout_clears_directory(m: Map<Seq<char>, EntryView>, dir: Seq<char>)
    ensures
        dir.len() > 0 ==> whiteout_applied(m, joined(dir, opaque_marker())) == Some(without_prefix(m, dir_form(dir))),
        dir.len() == 0 ==> whiteout_applied(m, opaque_marker()) == Some(Map::<Seq<char>, EntryView>::empty()),
{
    assert(!opaque_marker().contains('/')) by {
        if opaque_marker().contains('/') {
            let j = choose|j: int| 0 <= j < opaque_marker().len() && opaque_marker()[j] == '/';
        }
    }
    lemma_parent_name_of_joined(dir, opaque_marker());
    lemma_parent_name_of_joined(Seq::empty(), opaque_marker());
}

/// The layer entry at `q` removes the entry at `p` on its way: it is set at
/// `p`, or clears it as the plain form of a directory, or as part of the tree
/// a non-directory replaces, or as the plain form of one of its parents.
pub open spec fn replacement_touches(q: Seq<char>, p: Seq<char>) -> bool {
    ||| p == q
    ||| ends_with_char(q, '/') && p == trim_end_char(q, '/')
    ||| !ends_with_char(q, '/') && starts_with(p, dir_form(q))
    ||| exists|k: int| 1 <= k < split_on(q, '/').len() && p == trim_end_char(#[trigger] dir_chain(split_on(q, '/'), k), '/')
}

proof fn lemma_parent_dirs_keep(m: Map<Seq<char>, EntryView>, parts: Seq<Seq<char>>, n: int, p: Seq<char>)
    requires
        m.contains_key(p),
        forall|k: int| 1 <= k <= n ==> p != trim_end_char(#[trigger] dir_chain(parts, k), '/'),
    ensures
        with_parent_dirs(m, parts, n).contains_key(p),
        with_parent_dirs(m, parts, n)[p] == m[p],
    decreases n,
{
    if n > 0 {
        lemma_parent_dirs_keep(m, parts, n - 1, p);
        assert(p != trim_end_char(dir_chain(parts, n), '/'));
    }
}

proof fn lemma_replace_keeps(m: Map<Seq<char>, EntryView>, q: Seq<char>, e: EntryView, p: Seq<char>)
    requires
        m.contains_key(p),
        !replacement_touches(q, p),
    ensures
        entry_replaced(m, q, e).contains_key(p),
        entry_replaced(m, q, e)[p] == m[p],
{
    let cleared = if ends_with_char(q, '/') {
        m.remove(trim_end_char(q, '/'))
    } else {
        without_prefix(m.remove(dir_form(q)), dir_form(q))
    };
    if !ends_with_char(q, '/') {
        assert(p != dir_form(q)) by {
            if p == dir_form(q) {
                assert(p.subrange(0, dir_form(q).len() as int) =~= dir_form(q));
            }
        }
    }
    assert(cleared.contains_key(p) && cleared[p] == m[p]);
    let parts = split_on(q, '/');
    assert forall|k: int| 1 <= k <= parts.len() - 1 implies p != trim_end_char(#[trigger] dir_chain(parts, k), '/') by {
    }
    lemma_parent_dirs_keep(cleared, parts, parts.len() - 1, p);
}

proof fn lemma_replaced_keep(m: Map<Seq<char>, EntryView>, es: Seq<(Seq<char>, EntryView)>, i: int, n: int)
    requires
        0 <= i < n <= es.len(),
        forall|j: int| i < j < n ==> !replacement_touches(#[trigger] es[j].0, es[i].0),
    ensures
        entries_replaced(m, es, n).contains_key(es[i].0),
        entries_replaced(m, es, n)[es[i].0] == es[i].1,
    decreases n,
{
    if n > i + 1 {
        lemma_replaced_keep(m, es, i, n - 1);
        lemma_replace_keeps(entries_replaced(m, es, n - 1), es[n - 1].0, es[n - 1].1, es[i].0);
    }
}

/// The entries of a layer survive the layer's own whiteouts: an entry of
/// the layer that no later entry of the layer removes is in the merged
/// entries as the layer wrote it.
pub proof fn law_layer_entries_survive_whiteouts(m: Map<Seq<char>, EntryView>, rs: Seq<TarRecordView>, i: int)
    requires
        0 <= i < layer_entries(rs).len(),
        forall|j: int| i < j < layer_entries(rs).len() ==> !replacement_touches(
            #[trigger] layer_entries(rs)[j].0,
            layer_entries(rs)[i].0,
        ),
        layer_merged(m, rs) is Some,
    ensures
        layer_merged(m, rs).unwrap().contains_key(layer_entries(rs)[i].0),
        layer_merged(m, rs).unwrap()[layer_entries(rs)[i].0] == layer_entries(rs)[i].1,
{
    let ws = layer_whiteouts(rs);
    let es = layer_entries(rs);
    let m1 = whiteouts_applied(m, ws, ws.len() as int).unwrap();
    lemma_replaced_keep(m1, es, i, es.len() as int);
}

/// The directory prefixes of a path start with its first piece.
proof fn lemma_dir_chain_starts(parts: Seq<Seq<char>>, n: int)
    requires
        1 <= n <= parts.len(),
    ensures
        starts_with(dir_chain(parts, n), parts[0]),
    decreases n,
{
    if n > 1 {
        lemma_dir_chain_starts(parts, n - 1);
        let d = dir_chain(parts, n - 1);
        assert(dir_chain(parts, n).subrange(0, parts[0].len() as int) =~= d.subrange(0, parts[0].len() as int));
    } else {
        assert(dir_chain(parts, 0) =~= Seq::<char>::empty());
        assert(dir_chain(parts, 1).subrange(0, parts[0].len() as int) =~= parts[0]);
    }
}

/// A relative path: not empty, and not starting with `/`.
pub open spec fn is_relative_path(p: Seq<char>) -> bool {
    p.len() > 0 && p[0] != '/'
}

proof fn lemma_relative_not_slash(p: Seq<char>)
    requires
        is_relative_path(p),
    ensures
        !starts_with(p, seq!['/']),
{
    if starts_with(p, seq!['/']) {
        assert(p.subrange(0, 1)[0] == p[0]);
    }
}

proof fn lemma_first_piece_of_relative(q: Seq<char>)
    requires
        is_relative_path(q),
    ensures
        split_on(q, '/')[0].len() > 0,
        split_on(q, '/')[0][0] == q[0],
{
    let parts = split_on(q, '/');
    lemma_split_on_nonempty(q, '/');
    lemma_join_split(q, '/');
    lemma_join_starts_with_first(parts, '/');
    if parts[0].len() == 0 {
        if parts.len() == 1 {
            assert(join_with(parts, '/') == parts[0]);
        } else {
            lemma_join_starts_with_first(parts.drop_last(), '/');
            lemma_join_prefix_slash(parts);
        }
    } else {
        assert(q.subrange(0, parts[0].len() as int)[0] == q[0]);
    }
}

proof fn lemma_join_prefix_slash(parts: Seq<Seq<char>>)
    requires
        parts.len() >= 2,
        parts[0].len() == 0,
    ensures
        join_with(parts, '/').len() > 0,
        join_with(parts, '/')[0] == '/',
    decreases parts.len(),
{
    if parts.len() > 2 {
        lemma_join_prefix_slash(parts.drop_last());
    } else {
        assert(join_with(parts.drop_last(), '/') =~= Seq::<char>::empty());
    }
}

proof fn lemma_parent_dirs_relative(m: Map<Seq<char>, EntryView>, parts: Seq<Seq<char>>, n: int)
    requires
        relative_keys(m),
        parts.len() >= 1,
        parts[0].len() > 0,
        parts[0][0] != '/',
        n <= parts.len(),
    ensures
        relative_keys(with_parent_dirs(m, parts, n)),
    decreases n,
{
    if n > 0 {
        lemma_parent_dirs_relative(m, parts, n - 1);
        lemma_dir_chain_starts(parts, n);
        let d = dir_chain(parts, n);
        assert(d.subrange(0, parts[0].len() as int)[0] == d[0]);
        lemma_relative_not_slash(d);
    }
}

proof fn lemma_replace_relative(m: Map<Seq<char>, EntryView>, q: Seq<char>, e: EntryView)
    requires
        relative_keys(m),
        is_relative_path(q),
    ensures
        relative_keys(entry_replaced(m, q, e)),
{
    let cleared = if ends_with_char(q, '/') {
        m.remove(trim_end_char(q, '/'))
    } else {
        without_prefix(m.remove(dir_form(q)), dir_form(q))
    };
    assert(relative_keys(cleared));
    lemma_first_piece_of_relative(q);
    let parts = split_on(q, '/');
    lemma_split_on_nonempty(q, '/');
    lemma_parent_dirs_relative(cleared, parts, parts.len() - 1);
    lemma_relative_not_slash(q);
}

proof fn lemma_replaced_relative(m: Map<Seq<char>, EntryView>, es: Seq<(Seq<char>, EntryView)>, n: int)
    requires
        relative_keys(m),
        0 <= n <= es.len(),
        forall|j: int| 0 <= j < es.len() ==> is_relative_path(#[trigger] es[j].0),
    ensures
        relative_keys(entries_replaced(m, es, n)),
    decreases n,
{
    if n > 0 {
        lemma_replaced_relative(m, es, n - 1);
        lemma_replace_relative(entries_replaced(m, es, n - 1), es[n - 1].0, es[n - 1].1);
    }
}

proof fn lemma_whiteouts_relative(m: Map<Seq<char>, EntryView>, ws: Seq<Seq<char>>, n: int)
    requires
        relative_keys(m),
        0 <= n <= ws.len(),
    ensures
        whiteouts_applied(m, ws, n) matches Some(m2) ==> relative_keys(m2),
    decreases n,
{
    if n > 0 {
        lemma_whiteouts_relative(m, ws, n - 1);
    }
}

proof fn lemma_layer_entries_relative(rs: Seq<TarRecordView>)
    ensures
        forall|j: int| 0 <= j < layer_entries(rs).len() ==> is_relative_path(#[trigger] layer_entries(rs)[j].0),
    decreases rs.len(),
{
    if rs.len() > 0 {
        lemma_layer_entries_relative(rs.drop_last());
        let p = normalized_tar_path(rs.last().path);
        crate::paths::lemma_normalized_tar_path_relative(rs.last().path);
        if p.len() > 0 {
            assert(p.subrange(0, 1)[0] == p[0]);
            assert(p[0] != '/') by {
                if p[0] == '/' {
                    assert(p.subrange(0, 1) =~= seq!['/']);
                }
            }
            assert(dir_form(p)[0] == p[0]);
        }
        let prev = layer_entries(rs.drop_last());
        let cur = layer_entries(rs);
        assert forall|j: int| 0 <= j < cur.len() implies is_relative_path(#[trigger] cur[j].0) by {
            if j < prev.len() {
                assert(cur[j] == prev[j]);
            }
        }
    }
}

/// Applying a layer keeps every key relative: no key starts with `/`, before
/// or after the layer's hard links are resolved.
pub proof fn law_layer_keeps_keys_relative(m: Map<Seq<char>, EntryView>, rs: Seq<TarRecordView>)
    requires
        relative_keys(m),
        layer_merged(m, rs) is Some,
    ensures
        relative_keys(layer_merged(m, rs).unwrap()),
        relative_keys(hard_links_filled(layer_merged(m, rs).unwrap())),
{
    let ws = layer_whiteouts(rs);
    let es = layer_entries(rs);
    lemma_whiteouts_relative(m, ws, ws.len() as int);
    lemma_layer_entries_relative(rs);
    let m1 = whiteouts_applied(m, ws, ws.len() as int).unwrap();
    lemma_replaced_relative(m1, es, es.len() as int);
}

pub proof fn lemma_dir_chain_is_joined_prefix(parts: Seq<Seq<char>>, k: int)
    requires
        1 <= k <= parts.len(),
    ensures
        dir_chain(parts, k) == join_with(parts.take(k), '/').push('/'),
    decreases k,
{
    if k == 1 {
        assert(dir_chain(parts, 0) =~= Seq::<char>::empty());
        assert(parts.take(1) =~= seq![parts[0]]);
        assert(dir_chain(parts, 1) =~= join_with(parts.take(1), '/').push('/'));
    } else {
        lemma_dir_chain_is_joined_prefix(parts, k - 1);
        assert(parts.take(k).drop_last() =~= parts.take(k - 1));
        assert(parts.take(k).last() == parts[k - 1]);
        assert(dir_chain(parts, k) =~= join_with(parts.take(k), '/').push('/'));
    }
}

pub proof fn lemma_join_prefix_shorter(parts: Seq<Seq<char>>, k: int)
    requires
        1 <= k < parts.len(),
    ensures
        join_with(parts.take(k), '/').len() + 1 <= join_with(parts, '/').len(),
    decreases parts.len(),
{
    let d = parts.drop_last();
    if k == parts.len() - 1 {
        assert(parts.take(k) =~= d);
    } else {
        lemma_join_prefix_shorter(d, k);
        assert(d.take(k) =~= parts.take(k));
    }
}

proof fn lemma_parent_dirs_avoid(m: Map<Seq<char>, EntryView>, parts: Seq<Seq<char>>, n: int, prefix: Seq<char>)
    requires
        forall|k: Seq<char>| #[trigger] m.contains_key(k) ==> !starts_with(k, prefix),
        forall|j: int| 1 <= j <= n ==> !starts_with(#[trigger] dir_chain(parts, j), prefix),
    ensures
        forall|k: Seq<char>| #[trigger] with_parent_dirs(m, parts, n).contains_key(k) ==> !starts_with(k, prefix),
    decreases n,
{
    if n > 0 {
        lemma_parent_dirs_avoid(m, parts, n - 1, prefix);
        let m1 = with_parent_dirs(m, parts, n - 1);
        let cur = dir_chain(parts, n);
        let m2 = m1.remove(trim_end_char(cur, '/'));
        assert(!starts_with(cur, prefix));
        assert forall|k: Seq<char>| #[trigger] with_parent_dirs(m, parts, n).contains_key(k) implies !starts_with(k, prefix) by {
            if k != cur {
                assert(m1.contains_key(k));
            }
        }
    }
}

/// A layer's entry that is not a directory replaces the whole tree that
/// lower layers had under its path: once it is set, no key lies under
/// `<path>/`.
pub proof fn law_file_replaces_directory(m: Map<Seq<char>, EntryView>, p: Seq<char>, e: EntryView)
    requires
        !ends_with_char(p, '/'),
    ensures
        forall|k: Seq<char>| #[trigger] entry_replaced(m, p, e).contains_key(k) ==> !starts_with(k, p.push('/')),
{
    let d = p.push('/');
    assert(dir_form(p) == d);
    let cleared = without_prefix(m.remove(d), d);
    let parts = split_on(p, '/');
    lemma_split_on_nonempty(p, '/');
    lemma_join_split(p, '/');
    assert forall|j: int| 1 <= j <= parts.len() - 1 implies !starts_with(#[trigger] dir_chain(parts, j), d) by {
        lemma_dir_chain_is_joined_prefix(parts, j);
        lemma_join_prefix_shorter(parts, j);
    }
    lemma_parent_dirs_avoid(cleared, parts, parts.len() - 1, d);
}

/// Every key ending in `/` holds an entry that is not a link.
pub open spec fn dir_keys_plain(m: Map<Seq<char>, EntryView>) -> bool {
    forall|k: Seq<char>| #[trigger] m.contains_key(k) && ends_with_char(k, '/') ==> m[k].link is None
}

/// Every key that holds a link is its non-empty components joined with `/`.
pub open spec fn link_keys_canonical(m: Map<Seq<char>, EntryView>) -> bool {
    forall|k: Seq<char>| #[trigger] m.contains_key(k) && m[k].link is Some ==> components(k).len() > 0
        && join_with(components(k), '/') == k
}

/// The shape the merged file system keeps from layer to layer: directory
/// keys hold no links, and links stand at canonical keys.
pub open spec fn merged_shape(m: Map<Seq<char>, EntryView>) -> bool {
    dir_keys_plain(m) && link_keys_canonical(m)
}

/// No entry is a hard link.
pub open spec fn no_hard_links(m: Map<Seq<char>, EntryView>) -> bool {
    forall|k: Seq<char>| #[trigger] m.contains_key(k) ==> !is_hard_link(m[k])
}

/// Every entry of `m2` is the entry of `m` at its key, or holds no link.
pub open spec fn kept_or_plain(m2: Map<Seq<char>, EntryView>, m: Map<Seq<char>, EntryView>) -> bool {
    forall|k: Seq<char>| #[trigger] m2.contains_key(k) ==> (m.contains_key(k) && m2[k] == m[k]) || m2[k].link is None
}

/// A layer's entry `e` at `q` fits the shape: no link at a directory key,
/// and a link only at a canonical key.
pub open spec fn fits_shape(q: Seq<char>, e: EntryView) -> bool {
    &&& ends_with_char(q, '/') ==> e.link is None
    &&& e.link is Some ==> components(q).len() > 0 && join_with(components(q), '/') == q
}

proof fn lemma_kept_or_plain_shape(m2: Map<Seq<char>, EntryView>, m: Map<Seq<char>, EntryView>)
    requires
        merged_shape(m),
        kept_or_plain(m2, m),
    ensures
        merged_shape(m2),
{
    assert forall|k: Seq<char>| #[trigger] m2.contains_key(k) && ends_with_char(k, '/') implies m2[k].link is None by {
        if !(m2[k].link is None) {
            assert(m.contains_key(k) && m2[k] == m[k]);
        }
    }
    assert forall|k: Seq<char>| #[trigger] m2.contains_key(k) && m2[k].link is Some implies components(k).len() > 0
        && join_with(components(k), '/') == k by {
        assert(m.contains_key(k) && m2[k] == m[k]);
    }
}

proof fn lemma_first_link_none(m: Map<Seq<char>, EntryView>, comps: Seq<Seq<char>>, from: int, i: int)
    requires
        0 <= from <= i < comps.len(),
        first_link_from(m, comps, from) is None,
    ensures
        link_at(m, prefix_path(comps, i + 1)) is None,
    decreases i - from,
{
    if from < i {
        lemma_first_link_none(m, comps, from + 1, i);
    }
}

/// Where resolution ends, the entry holds no link.
proof fn lemma_found_holds_no_link(m: Map<Seq<char>, EntryView>, q: Seq<char>, n: nat)
    requires
        merged_shape(m),
    ensures
        resolve_from(m, q, n) matches Resolution::Found(k) ==> m.contains_key(k) && m[k].link is None,
    decreases n,
{
    lemma_resolution_found_is_key(m, q, n);
    if n > 0 {
        match round(m, q) {
            Round::NoLink => {
                let comps = components(q);
                if m.contains_key(q) && m[q].link is Some {
                    assert(comps.take(comps.len() as int) =~= comps);
                    lemma_first_link_none(m, comps, 0, comps.len() - 1);
                    assert(link_at(m, q) is None);
                }
                let d = trim_end_char(q, '/').push('/');
                assert(ends_with_char(d, '/'));
            },
            Round::Escapes => {},
            Round::Moved(next) => {
                lemma_found_holds_no_link(m, next, (n - 1) as nat);
            },
        }
    }
}

proof fn lemma_filled_shape(m: Map<Seq<char>, EntryView>)
    requires
        merged_shape(m),
        hard_links_resolvable(m),
    ensures
        no_hard_links(hard_links_filled(m)),
        merged_shape(hard_links_filled(m)),
{
    let f = hard_links_filled(m);
    assert forall|k: Seq<char>| #[trigger] f.contains_key(k) implies (m.contains_key(k) && f[k] == m[k]
        && !is_hard_link(m[k])) || f[k].link is None by {
        if is_hard_link(m[k]) {
            lemma_found_holds_no_link(m, trim_start_char(k, '/'), (m.dom().len() + 1) as nat);
        }
    }
    lemma_kept_or_plain_shape(f, m);
}

proof fn lemma_whiteouts_shape(m: Map<Seq<char>, EntryView>, ws: Seq<Seq<char>>, n: int)
    requires
        merged_shape(m),
        whiteouts_applied(m, ws, n) is Some,
    ensures
        merged_shape(whiteouts_applied(m, ws, n).unwrap()),
    decreases n,
{
    if n > 0 {
        lemma_whiteouts_shape(m, ws, n - 1);
        let m1 = whiteouts_applied(m, ws, n - 1).unwrap();
        let m2 = whiteout_applied(m1, ws[n - 1]).unwrap();
        assert(kept_or_plain(m2, m1));
        lemma_kept_or_plain_shape(m2, m1);
    }
}

proof fn lemma_parent_dirs_kept(m: Map<Seq<char>, EntryView>, parts: Seq<Seq<char>>, n: int)
    ensures
        kept_or_plain(with_parent_dirs(m, parts, n), m),
    decreases n,
{
    if n > 0 {
        lemma_parent_dirs_kept(m, parts, n - 1);
        let m1 = with_parent_dirs(m, parts, n - 1);
        let r = with_parent_dirs(m, parts, n);
        assert forall|k: Seq<char>| #[trigger] r.contains_key(k) implies (m.contains_key(k) && r[k] == m[k])
            || r[k].link is None by {
            if m1.contains_key(k) && r[k] == m1[k] {
                assert(m1.contains_key(k));
            }
        }
    }
}

proof fn lemma_entry_replaced_shape(m: Map<Seq<char>, EntryView>, q: Seq<char>, e: EntryView)
    requires
        merged_shape(m),
        fits_shape(q, e),
    ensures
        merged_shape(entry_replaced(m, q, e)),
{
    let cleared = if ends_with_char(q, '/') {
        m.remove(trim_end_char(q, '/'))
    } else {
        without_prefix(m.remove(dir_form(q)), dir_form(q))
    };
    assert(kept_or_plain(cleared, m));
    lemma_kept_or_plain_shape(cleared, m);
    let parts = split_on(q, '/');
    lemma_parent_dirs_kept(cleared, parts, parts.len() - 1);
    let pd = parent_dirs_added(cleared, q);
    lemma_kept_or_plain_shape(pd, cleared);
    let r = pd.insert(q, e);
    assert forall|k: Seq<char>| #[trigger] r.contains_key(k) && ends_with_char(k, '/') implies r[k].link is None by {
        if k != q {
            assert(pd.contains_key(k));
        }
    }
    assert forall|k: Seq<char>| #[trigger] r.contains_key(k) && r[k].link is Some implies components(k).len() > 0
        && join_with(components(k), '/') == k by {
        if k != q {
            assert(pd.contains_key(k));
        }
    }
}

proof fn lemma_entries_replaced_shape(m: Map<Seq<char>, EntryView>, es: Seq<(Seq<char>, EntryView)>, n: int)
    requires
        merged_shape(m),
        n <= es.len(),
        forall|i: int| 0 <= i < es.len() ==> fits_shape(#[trigger] es[i].0, es[i].1),
    ensures
        merged_shape(entries_replaced(m, es, n)),
    decreases n,
{
    if n > 0 {
        lemma_entries_replaced_shape(m, es, n - 1);
        assert(fits_shape(es[n - 1].0, es[n - 1].1));
        lemma_entry_replaced_shape(entries_replaced(m, es, n - 1), es[n - 1].0, es[n - 1].1);
    }
}

proof fn lemma_layer_entries_fit(rs: Seq<TarRecordView>)
    ensures
        forall|i: int| 0 <= i < layer_entries(rs).len() ==> fits_shape(
            #[trigger] layer_entries(rs)[i].0,
            layer_entries(rs)[i].1,
        ),
    decreases rs.len(),
{
    if rs.len() > 0 {
        lemma_layer_entries_fit(rs.drop_last());
        let r = rs.last();
        lemma_normalized_tar_path_canonical(r.path);
        let es = layer_entries(rs);
        let es0 = layer_entries(rs.drop_last());
        let path = normalized_tar_path(r.path);
        if path.len() > 0 {
            lemma_canonical_not_dir(path);
        }
        assert forall|i: int| 0 <= i < es.len() implies fits_shape(#[trigger] es[i].0, es[i].1) by {
            if i < es0.len() {
                assert(es[i] == es0[i]);
            }
        }
    }
}

/// Hard links are resolved at their own layer: once a layer is applied to a
/// file system of the shape every image starts with and keeps (the empty
/// one has it), no entry is a hard link, and the shape is kept.
pub proof fn law_layer_resolves_hard_links(m: Map<Seq<char>, EntryView>, rs: Seq<TarRecordView>)
    requires
        merged_shape(m),
        layer_merged(m, rs) is Some,
        hard_links_resolvable(layer_merged(m, rs).unwrap()),
    ensures
        no_hard_links(hard_links_filled(layer_merged(m, rs).unwrap())),
        merged_shape(hard_links_filled(layer_merged(m, rs).unwrap())),
{
    let ws = layer_whiteouts(rs);
    let es = layer_entries(rs);
    lemma_whiteouts_shape(m, ws, ws.len() as int);
    let m1 = whiteouts_applied(m, ws, ws.len() as int).unwrap();
    lemma_layer_entries_fit(rs);
    lemma_entries_replaced_shape(m1, es, es.len() as int);
    lemma_filled_shape(layer_merged(m, rs).unwrap());
}

/// Every key that holds a hard link is its non-empty components joined
/// with `/`.
pub open spec fn hard_link_keys_canonical(m: Map<Seq<char>, EntryView>) -> bool {
    forall|k: Seq<char>| #[trigger] m.contains_key(k) && is_hard_link(m[k]) ==> components(k).len() > 0
        && join_with(components(k), '/') == k
}

/// Where resolution ends, the entry is not a hard link.
proof fn lemma_found_not_hard_link(m: Map<Seq<char>, EntryView>, q: Seq<char>, n: nat)
    requires
        hard_link_keys_canonical(m),
    ensures
        resolve_from(m, q, n) matches Resolution::Found(k) ==> m.contains_key(k) && !is_hard_link(m[k]),
    decreases n,
{
    lemma_resolution_found_is_key(m, q, n);
    if n > 0 {
        match round(m, q) {
            Round::NoLink => {
                let comps = components(q);
                if m.contains_key(q) && is_hard_link(m[q]) {
                    assert(comps.take(comps.len() as int) =~= comps);
                    lemma_first_link_none(m, comps, 0, comps.len() - 1);
                    assert(link_at(m, q) is None);
                }
                let d = trim_end_char(q, '/').push('/');
                if m.contains_key(d) && is_hard_link(m[d]) {
                    lemma_canonical_not_dir(d);
                    assert(ends_with_char(d, '/'));
                }
            },
            Round::Escapes => {},
            Round::Moved(next) => {
                lemma_found_not_hard_link(m, next, (n - 1) as nat);
            },
        }
    }
}

proof fn lemma_kept_or_plain_hard(m2: Map<Seq<char>, EntryView>, m: Map<Seq<char>, EntryView>)
    requires
        hard_link_keys_canonical(m),
        kept_or_plain(m2, m),
    ensures
        hard_link_keys_canonical(m2),
{
    assert forall|k: Seq<char>| #[trigger] m2.contains_key(k) && is_hard_link(m2[k]) implies components(k).len() > 0
        && join_with(components(k), '/') == k by {
        assert(m.contains_key(k) && m2[k] == m[k]);
    }
}

proof fn lemma_entries_replaced_hard(m: Map<Seq<char>, EntryView>, es: Seq<(Seq<char>, EntryView)>, n: int)
    requires
        hard_link_keys_canonical(m),
        n <= es.len(),
        forall|i: int| 0 <= i < es.len() ==> fits_shape(#[trigger] es[i].0, es[i].1),
    ensures
        hard_link_keys_canonical(entries_replaced(m, es, n)),
    decreases n,
{
    if n > 0 {
        lemma_entries_replaced_hard(m, es, n - 1);
        let m1 = entries_replaced(m, es, n - 1);
        let q = es[n - 1].0;
        let e = es[n - 1].1;
        assert(fits_shape(q, e));
        let cleared = if ends_with_char(q, '/') {
            m1.remove(trim_end_char(q, '/'))
        } else {
            without_prefix(m1.remove(dir_form(q)), dir_form(q))
        };
        assert(kept_or_plain(cleared, m1));
        lemma_kept_or_plain_hard(cleared, m1);
        let parts = split_on(q, '/');
        lemma_parent_dirs_kept(cleared, parts, parts.len() - 1);
        let pd = parent_dirs_added(cleared, q);
        lemma_kept_or_plain_hard(pd, cleared);
        let r = pd.insert(q, e);
        assert(r == entries_replaced(m, es, n));
        assert forall|k: Seq<char>| #[trigger] r.contains_key(k) && is_hard_link(r[k]) implies components(k).len() > 0
            && join_with(components(k), '/') == k by {
            if k != q {
                assert(pd.contains_key(k));
            }
        }
    }
}

/// Hard links are resolved at their own layer, whatever the shape of the
/// entries below: where no entry of the lower layers is a hard link, none
/// is once the layer is applied.
pub proof fn law_layer_leaves_no_hard_links(m: Map<Seq<char>, EntryView>, rs: Seq<TarRecordView>)
    requires
        no_hard_links(m),
        layer_merged(m, rs) is Some,
        hard_links_resolvable(layer_merged(m, rs).unwrap()),
    ensures
        no_hard_links(hard_links_filled(layer_merged(m, rs).unwrap())),
{
    let ws = layer_whiteouts(rs);
    let es = layer_entries(rs);
    lemma_whiteouts_no_hard(m, ws, ws.len() as int);
    let m1 = whiteouts_applied(m, ws, ws.len() as int).unwrap();
    lemma_layer_entries_fit(rs);
    lemma_entries_replaced_hard(m1, es, es.len() as int);
    let mm = layer_merged(m, rs).unwrap();
    let f = hard_links_filled(mm);
    assert forall|k: Seq<char>| #[trigger] f.contains_key(k) implies !is_hard_link(f[k]) by {
        if is_hard_link(mm[k]) {
            lemma_found_not_hard_link(mm, trim_start_char(k, '/'), (mm.dom().len() + 1) as nat);
        }
    }
}

proof fn lemma_whiteouts_no_hard(m: Map<Seq<char>, EntryView>, ws: Seq<Seq<char>>, n: int)
    requires
        no_hard_links(m),
        whiteouts_applied(m, ws, n) is Some,
    ensures
        no_hard_links(whiteouts_applied(m, ws, n).unwrap()),
        hard_link_keys_canonical(whiteouts_applied(m, ws, n).unwrap()),
    decreases n,
{
    if n > 0 {
        lemma_whiteouts_no_hard(m, ws, n - 1);
        let m1 = whiteouts_applied(m, ws, n - 1).unwrap();
        let m2 = whiteout_applied(m1, ws[n - 1]).unwrap();
        assert(kept_or_plain(m2, m1));
        assert forall|k: Seq<char>| #[trigger] m2.contains_key(k) implies !is_hard_link(m2[k]) by {
            assert(m1.contains_key(k) && m2[k] == m1[k]);
        }
    }
}

impl ContainerCore {
    /// The file system of an image with no layers.
    pub fn new() -> (r: Self)
        ensures
            r.entries.wf(),
            r.entries@ == Map::<Seq<char>, EntryView>::empty(),
            relative_keys(r.entries@),
            merged_shape(r.entries@),
            parents_present(r.entries@),
            no_hard_links(r.entries@),
    {
        ContainerCore { entries: EntryTable::new() }
    }

    /// Applies the next layer, given as its tar entries in archive order
    /// (see `apply_tar_layer`); every key stays relative, and once the layer
    /// is applied no entry is a hard link.
    pub fn apply_layer(&mut self, records: Vec<TarRecord>) -> (r: Result<(), ContainerError>)
        requires
            old(self).entries.wf(),
            relative_keys(old(self).entries@),
        ensures
            final(self).entries.wf(),
            r is Ok ==> relative_keys(final(self).entries@),
            r is Ok && merged_shape(old(self).entries@) ==> merged_shape(final(self).entries@)
                && no_hard_links(final(self).entries@),
            r is Ok && parents_present(old(self).entries@) ==> parents_present(final(self).entries@),
            r is Ok && no_hard_links(old(self).entries@) ==> no_hard_links(final(self).entries@),
            layer_outcome(old(self).entries@, records_view(records@), r, final(self).entries@),
    {
        let ghost rs = records_view(records@);
        let ghost m0 = self.entries@;
        let r = apply_tar_layer(records, &mut self.entries);
        proof {
            if r is Ok {
                law_layer_keeps_keys_relative(m0, rs);
                if merged_shape(m0) {
                    law_layer_resolves_hard_links(m0, rs);
                }
                if parents_present(m0) {
                    law_layer_keeps_parent_dirs(m0, rs);
                }
                if no_hard_links(m0) {
                    law_layer_leaves_no_hard_links(m0, rs);
                }
            }
        }
        r
    }

    /// Applies the next layer, given as its blob of media type
    /// `media_type`: a tar or a gzip tar archive whose entries are applied as
    /// `apply_layer` applies them. It fails, changing nothing, for another
    /// media type or a blob that cannot be read as such an archive.
    pub fn apply_layer_blob(&mut self, blob: &[u8], media_type: &str) -> (r: Result<(), ContainerError>)
        requires
            old(self).entries.wf(),
            relative_keys(old(self).entries@),
        ensures
            final(self).entries.wf(),
            r is Ok ==> relative_keys(final(self).entries@),
            r is Ok && merged_shape(old(self).entries@) ==> merged_shape(final(self).entries@)
                && no_hard_links(final(self).entries@),
            r is Ok && parents_present(old(self).entries@) ==> parents_present(final(self).entries@),
            r is Ok && no_hard_links(old(self).entries@) ==> no_hard_links(final(self).entries@),
            match layer_format_of(media_type@) {
                None => r matches Err(ContainerError::UnsupportedLayerMediaType { media_type: m })
                    && m@ == media_type@ && final(self).entries@ == old(self).entries@,
                Some(f) => match layer_listing(blob@, f) {
                    None => r matches Err(ContainerError::UnreadableLayer) && final(self).entries@
                        == old(self).entries@,
                    Some(rs) => layer_outcome(old(self).entries@, rs, r, final(self).entries@),
                },
            },
    {
        let format = match layer_format(media_type) {
            Ok(f) => f,
            Err(e) => {
                return Err(e);
            },
        };
        match layer_records(blob, format) {
            Some(records) => self.apply_layer(records),
            None => Err(ContainerError::UnreadableLayer),
        }
    }
}

} // verus!
