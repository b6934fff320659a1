//! The merged file system of an image and the resolution of paths through
//! its links.

use vstd::prelude::*;
use crate::entry::{ContainerEntry, ContainerLink, EntryMetadata, EntryView, LinkView};
use crate::error::ContainerError;
use crate::paths::{
    lemma_filter_sorted_like, lemma_join_concat, normalize_link_target, normalized_link, parent_name, split_parent_name,
};
use crate::table::{EntryTable, key_and_metadata, key_under};
use crate::text::{
    concat, ends_with_char, join_from, join_with, lemma_filter_all, lemma_filter_members,
    lemma_join_starts_with_first, lemma_split_join, lemma_split_pieces,
    push_char, split_on, split_str, starts_with, trim_end, trim_end_char, trim_start,
    trim_start_char, with_char,
};

verus! {

/// The component is not empty.
pub open spec fn nonempty_component() -> spec_fn(Seq<char>) -> bool {
    |c: Seq<char>| c.len() > 0
}

/// The non-empty components of a path.
pub open spec fn components(path: Seq<char>) -> Seq<Seq<char>> {
    split_on(path, '/').filter(nonempty_component())
}

/// The link recorded at `key`, if there is an entry there and it is a link.
pub open spec fn link_at(m: Map<Seq<char>, EntryView>, key: Seq<char>) -> Option<LinkView> {
    if m.contains_key(key) {
        m[key].link
    } else {
        None
    }
}

/// The path made of the first `n` components.
pub open spec fn prefix_path(comps: Seq<Seq<char>>, n: int) -> Seq<char> {
    join_with(comps.take(n), '/')
}

/// The first index, from `from` on, whose prefix path holds a link.
pub open spec fn first_link_from(m: Map<Seq<char>, EntryView>, comps: Seq<Seq<char>>, from: int) -> Option<int>
    decreases comps.len() - from,
{
    if from < 0 || from >= comps.len() {
        None
    } else if link_at(m, prefix_path(comps, from + 1)) is Some {
        Some(from)
    } else {
        first_link_from(m, comps, from + 1)
    }
}

/// Where a link recorded at `key` leads: a symbolic link relative to the
/// directory holding it, a hard link from the image root.
pub open spec fn link_destination(key: Seq<char>, link: LinkView) -> Option<Seq<char>> {
    match link {
        LinkView::Symbolic(t) => normalized_link(parent_name(key).0, t),
        LinkView::Hard(t) => normalized_link(Seq::empty(), t),
    }
}

/// The path after the components up to a link are replaced by its
/// destination.
pub open spec fn rewritten(dest: Seq<char>, remaining: Seq<char>) -> Seq<char> {
    if remaining.len() == 0 {
        dest
    } else if dest.len() == 0 {
        remaining
    } else {
        dest.push('/') + remaining
    }
}

/// The key of `path` where no link stands on its way: the path itself, or
/// its directory form.
pub open spec fn final_lookup(m: Map<Seq<char>, EntryView>, path: Seq<char>) -> Option<Seq<char>> {
    if m.contains_key(path) {
        Some(path)
    } else if m.contains_key(trim_end_char(path, '/').push('/')) {
        Some(trim_end_char(path, '/').push('/'))
    } else {
        None
    }
}

/// The outcome of resolving a path.
pub enum Resolution {
    /// The path leads to the entry at this key.
    Found(Seq<char>),
    /// The path leads nowhere.
    Absent,
    /// A link on the way leads above the image root.
    Escapes,
    /// Links are still being followed when the rounds run out.
    Cycle,
}

/// What one round of resolution does with a path.
pub enum Round {
    /// No link stands on the path.
    NoLink,
    /// The first link on the path leads above the image root.
    Escapes,
    /// The first link on the path is replaced by its destination.
    Moved(Seq<char>),
}

/// One round of resolution: follow the first link on the path, if any.
pub open spec fn round(m: Map<Seq<char>, EntryView>, path: Seq<char>) -> Round {
    let comps = components(path);
    match first_link_from(m, comps, 0) {
        None => Round::NoLink,
        Some(i) => {
            let key = prefix_path(comps, i + 1);
            match link_destination(key, link_at(m, key).unwrap()) {
                None => Round::Escapes,
                Some(dest) => Round::Moved(rewritten(dest, join_with(comps.skip(i + 1), '/'))),
            }
        },
    }
}

/// Resolving `path` in `m` with at most `rounds` rounds, each of which either
/// follows the first link on the path or looks the path up.
pub open spec fn resolve_from(m: Map<Seq<char>, EntryView>, path: Seq<char>, rounds: nat) -> Resolution
    decreases rounds,
{
    if rounds == 0 {
        Resolution::Cycle
    } else {
        match round(m, path) {
            Round::NoLink => match final_lookup(m, path) {
                Some(k) => Resolution::Found(k),
                None => Resolution::Absent,
            },
            Round::Escapes => Resolution::Escapes,
            Round::Moved(next) => resolve_from(m, next, (rounds - 1) as nat),
        }
    }
}

/// Resolving `path` in `m`: its leading `/` dropped, with one more round than
/// there are entries.
pub open spec fn resolution(m: Map<Seq<char>, EntryView>, path: Seq<char>) -> Resolution {
    resolve_from(m, trim_start_char(path, '/'), (m.dom().len() + 1) as nat)
}

/// The result of `resolve_path` is that resolution.
pub open spec fn resolved_as(r: Result<Option<String>, ContainerError>, o: Resolution) -> bool {
    match o {
        Resolution::Found(k) => r matches Ok(Some(p)) && p@ == k,
        Resolution::Absent => r matches Ok(None),
        Resolution::Escapes => r matches Err(ContainerError::LinkEscapesImageRoot),
        Resolution::Cycle => r matches Err(ContainerError::LinkCycle),
    }
}

/// The result of a lookup is the entry that resolution leads to.
pub open spec fn entry_as(r: Result<Option<ContainerEntry>, ContainerError>, o: Resolution, m: Map<Seq<char>, EntryView>) -> bool {
    match o {
        Resolution::Found(k) => r matches Ok(Some(e)) && e@ == m[k],
        Resolution::Absent => r matches Ok(None),
        Resolution::Escapes => r matches Err(ContainerError::LinkEscapesImageRoot),
        Resolution::Cycle => r matches Err(ContainerError::LinkCycle),
    }
}

/// Resolution only ever leads to a key of the map.
pub proof fn lemma_resolution_found_is_key(m: Map<Seq<char>, EntryView>, path: Seq<char>, rounds: nat)
    ensures
        resolve_from(m, path, rounds) matches Resolution::Found(k) ==> m.contains_key(k),
    decreases rounds,
{
    if rounds > 0 {
        if let Round::Moved(next) = round(m, path) {
            lemma_resolution_found_is_key(m, next, (rounds - 1) as nat);
        }
    }
}

proof fn lemma_no_link_from(m: Map<Seq<char>, EntryView>, comps: Seq<Seq<char>>, from: int)
    requires
        0 <= from <= comps.len(),
        forall|k: int| 1 <= k <= comps.len() ==> link_at(m, #[trigger] prefix_path(comps, k)) is None,
    ensures
        first_link_from(m, comps, from) is None,
    decreases comps.len() - from,
{
    if from < comps.len() {
        assert(link_at(m, prefix_path(comps, from + 1)) is None);
        lemma_no_link_from(m, comps, from + 1);
    }
}

/// A key of the image on whose way no link stands (no entry at any of its
/// leading components is a link) leads to itself.
pub proof fn law_plain_key_leads_to_itself(m: Map<Seq<char>, EntryView>, p: Seq<char>)
    requires
        m.contains_key(p),
        !starts_with(p, seq!['/']),
        forall|k: int| 1 <= k <= components(p).len() ==> link_at(m, #[trigger] prefix_path(components(p), k)) is None,
    ensures
        resolution(m, p) == Resolution::Found(p),
{
    lemma_no_link_from(m, components(p), 0);
    if p.len() > 0 && p[0] == '/' {
        assert(p.subrange(0, 1) =~= seq!['/']);
    }
    assert(trim_start_char(p, '/') == p);
    assert(round(m, p) is NoLink);
    assert(final_lookup(m, p) == Some(p));
}

/// A path that is its non-empty components joined with `/` does not end
/// with `/`.
pub proof fn lemma_canonical_not_dir(k: Seq<char>)
    requires
        components(k).len() > 0,
        join_with(components(k), '/') == k,
    ensures
        !ends_with_char(k, '/'),
{
    let parts = split_on(k, '/');
    let c = components(k);
    lemma_filter_members(parts, nonempty_component());
    lemma_filter_sorted_like(parts, nonempty_component());
    lemma_split_pieces(k, '/');
    let l = c[c.len() - 1];
    assert(nonempty_component()(l));
    assert(parts.contains(l));
    let j = choose|j: int| 0 <= j < parts.len() && parts[j] == l;
    assert(!parts[j].contains('/'));
    if c.len() > 1 {
        assert(join_with(c, '/') == join_with(c.drop_last(), '/').push('/') + c.last());
    }
    assert(k.last() == l[l.len() - 1]);
    if k.last() == '/' {
        assert(l.contains('/'));
    }
}

/// The path is its non-empty components joined with `/`.
pub open spec fn is_canonical(p: Seq<char>) -> bool {
    components(p).len() > 0 && join_with(components(p), '/') == p
}

/// A canonical path splits into its components, each non-empty and free of
/// `/`.
proof fn lemma_canonical_split(p: Seq<char>)
    requires
        is_canonical(p),
    ensures
        split_on(p, '/') == components(p),
        forall|i: int| 0 <= i < components(p).len() ==> (#[trigger] components(p)[i]).len() > 0
            && !components(p)[i].contains('/'),
{
    let parts = split_on(p, '/');
    let c = components(p);
    lemma_filter_members(parts, nonempty_component());
    lemma_filter_sorted_like(parts, nonempty_component());
    lemma_split_pieces(p, '/');
    assert forall|i: int| 0 <= i < c.len() implies (#[trigger] c[i]).len() > 0 && !c[i].contains('/') by {
        assert(nonempty_component()(c[i]));
        assert(parts.contains(c[i]));
        let j = choose|j: int| 0 <= j < parts.len() && parts[j] == c[i];
    }
    lemma_split_join(c, '/');
}

/// Two canonical paths joined with `/` make a canonical path whose
/// components are theirs, one list after the other.
proof fn lemma_canonical_join(a: Seq<char>, b: Seq<char>)
    requires
        is_canonical(a),
        is_canonical(b),
    ensures
        components(a.push('/') + b) == components(a) + components(b),
        is_canonical(a.push('/') + b),
{
    let ca = components(a);
    let cb = components(b);
    lemma_canonical_split(a);
    lemma_canonical_split(b);
    lemma_join_concat(ca, cb, '/');
    let c = ca + cb;
    assert forall|i: int| 0 <= i < c.len() implies !(#[trigger] c[i]).contains('/') && nonempty_component()(c[i]) by {
        if i < ca.len() {
            assert(c[i] == ca[i]);
        } else {
            assert(c[i] == cb[i - ca.len()]);
        }
    }
    lemma_split_join(c, '/');
    lemma_filter_all(c, nonempty_component());
}

proof fn lemma_first_link_at(m: Map<Seq<char>, EntryView>, comps: Seq<Seq<char>>, from: int, j: int)
    requires
        0 <= from <= j < comps.len(),
        forall|i: int| from <= i < j ==> link_at(m, #[trigger] prefix_path(comps, i + 1)) is None,
        link_at(m, prefix_path(comps, j + 1)) is Some,
    ensures
        first_link_from(m, comps, from) == Some(j),
    decreases j - from,
{
    if from < j {
        assert(link_at(m, prefix_path(comps, from + 1)) is None);
        lemma_first_link_at(m, comps, from + 1, j);
    }
}

/// A symbolic link on the way to a path is replaced by its destination,
/// followed by `/` and the rest of the path. Where `link` holds a symbolic
/// link whose target leads, from the directory holding it, to the non-empty
/// `dest`, no link stands before `link`, and `dest/rest` is a key on whose
/// way no link stands, the path `link/rest` leads to the key `dest/rest`.
pub proof fn law_link_then_rest(
    m: Map<Seq<char>, EntryView>,
    link: Seq<char>,
    target: Seq<char>,
    rest: Seq<char>,
    dest: Seq<char>,
)
    requires
        m.dom().finite(),
        is_canonical(link),
        is_canonical(rest),
        m.contains_key(link),
        m[link].link == Some(LinkView::Symbolic(target)),
        normalized_link(parent_name(link).0, target) == Some(dest),
        dest.len() > 0,
        forall|k: int| 1 <= k < components(link).len() ==> link_at(m, #[trigger] prefix_path(components(link), k)) is None,
        m.contains_key(dest.push('/') + rest),
        forall|k: int| 1 <= k <= components(dest.push('/') + rest).len() ==> link_at(
            m,
            #[trigger] prefix_path(components(dest.push('/') + rest), k),
        ) is None,
    ensures
        resolution(m, link.push('/') + rest) == Resolution::Found(dest.push('/') + rest),
{
    let p = link.push('/') + rest;
    let cl = components(link);
    let cr = components(rest);
    lemma_canonical_join(link, rest);
    lemma_canonical_split(link);
    lemma_canonical_split(rest);
    let c = components(p);
    assert(c == cl + cr);
    assert forall|i: int| 0 <= i < cl.len() - 1 implies link_at(m, #[trigger] prefix_path(c, i + 1)) is None by {
        assert(c.take(i + 1) =~= cl.take(i + 1));
        assert(link_at(m, prefix_path(cl, i + 1)) is None);
    }
    assert(c.take(cl.len() as int) =~= cl);
    assert(cl.take(cl.len() as int) =~= cl);
    assert(prefix_path(c, cl.len() as int) == link);
    lemma_first_link_at(m, c, 0, cl.len() - 1);
    assert(c.skip(cl.len() as int) =~= cr);
    lemma_join_starts_with_first(cr, '/');
    assert(rest.len() > 0) by {
        assert(cr[0].len() > 0);
    }
    assert(round(m, p) == Round::Moved(dest.push('/') + rest));
    lemma_join_starts_with_first(cl, '/');
    assert(link[0] != '/') by {
        assert(cl[0].len() > 0);
        assert(link.subrange(0, cl[0].len() as int) == cl[0]);
        assert(link[0] == cl[0][0]);
        if link[0] == '/' {
            assert(cl[0].contains('/'));
        }
    }
    assert(p[0] == link[0]);
    assert(trim_start_char(p, '/') == p);
    vstd::set::axiom_set_remove_len(m.dom(), link);
    assert(m.dom().len() >= 1);
    let k = dest.push('/') + rest;
    lemma_no_link_from(m, components(k), 0);
    assert(round(m, k) is NoLink);
    assert(final_lookup(m, k) == Some(k));
    let n = (m.dom().len() + 1) as nat;
    assert(resolve_from(m, p, n) == resolve_from(m, k, (n - 1) as nat));
}

/// A path that is itself a symbolic link leads where the link's
/// destination leads: where `link` holds a symbolic link whose target leads,
/// from the directory holding it, to `dest`, no link stands before `link`,
/// and `dest` is a key on whose way no link stands, `link` leads to `dest`.
pub proof fn law_link_leads_to_destination(
    m: Map<Seq<char>, EntryView>,
    link: Seq<char>,
    target: Seq<char>,
    dest: Seq<char>,
)
    requires
        m.dom().finite(),
        is_canonical(link),
        m.contains_key(link),
        m[link].link == Some(LinkView::Symbolic(target)),
        normalized_link(parent_name(link).0, target) == Some(dest),
        forall|k: int| 1 <= k < components(link).len() ==> link_at(m, #[trigger] prefix_path(components(link), k)) is None,
        m.contains_key(dest),
        forall|k: int| 1 <= k <= components(dest).len() ==> link_at(m, #[trigger] prefix_path(components(dest), k)) is None,
    ensures
        resolution(m, link) == Resolution::Found(dest),
{
    let cl = components(link);
    lemma_canonical_split(link);
    assert(cl.take(cl.len() as int) =~= cl);
    lemma_first_link_at(m, cl, 0, cl.len() - 1);
    assert(cl.skip(cl.len() as int) =~= Seq::<Seq<char>>::empty());
    assert(round(m, link) == Round::Moved(dest));
    lemma_join_starts_with_first(cl, '/');
    assert(link[0] != '/') by {
        assert(cl[0].len() > 0);
        assert(link.subrange(0, cl[0].len() as int) == cl[0]);
        assert(link[0] == cl[0][0]);
        if link[0] == '/' {
            assert(cl[0].contains('/'));
        }
    }
    assert(trim_start_char(link, '/') == link);
    vstd::set::axiom_set_remove_len(m.dom(), link);
    lemma_no_link_from(m, components(dest), 0);
    assert(round(m, dest) is NoLink);
    assert(final_lookup(m, dest) == Some(dest));
    let n = (m.dom().len() + 1) as nat;
    assert(resolve_from(m, link, n) == resolve_from(m, dest, (n - 1) as nat));
}

/// No key starts with `/`: every key is relative to the image root.
pub open spec fn relative_keys(m: Map<Seq<char>, EntryView>) -> bool {
    forall|k: Seq<char>| #[trigger] m.contains_key(k) ==> !starts_with(k, seq!['/'])
}

/// The merged file system of an image: its entries keyed by path.
#[derive(Debug)]
pub struct ContainerCore {
    pub entries: EntryTable,
}

impl ContainerCore {
    /// Whether some entry lies under `path`.
    pub fn has_children(&self, path: &str) -> (b: bool)
        requires
            self.entries.wf(),
        ensures
            b == exists|k: Seq<char>| #[trigger] self.entries@.contains_key(k) && starts_with(k, path@),
    {
        self.entries.has_key_with_prefix(path)
    }

    /// The entries under `path` with their metadata, in the order of their
    /// paths.
    pub fn scan(&self, path: &str) -> (r: Vec<(String, EntryMetadata)>)
        requires
            self.entries.wf(),
        ensures
            r@.map_values(|x: (String, EntryMetadata)| (x.0@, x.1)) == self.entries.pairs().filter(
                key_under(path@),
            ).map_values(|e: (Seq<char>, EntryView)| key_and_metadata(e)),
    {
        self.entries.scan(path)
    }

    /// The non-empty components of `path`.
    fn path_components(path: &str) -> (r: Vec<String>)
        ensures
            r.deep_view() == components(path@),
    {
        let parts = split_str(path, '/');
        let ghost ps = parts.deep_view();
        let mut kept: Vec<String> = Vec::new();
        let mut i: usize = 0;
        proof {
            reveal(Seq::filter);
            assert(ps.take(0) =~= Seq::<Seq<char>>::empty());
            assert(kept.deep_view() =~= ps.take(0).filter(nonempty_component()));
        }
        while i < parts.len()
            invariant
                ps == parts.deep_view(),
                i <= parts.len(),
                kept.deep_view() == ps.take(i as int).filter(nonempty_component()),
            decreases parts.len() - i,
        {
            let ghost before = kept.deep_view();
            let keep = !parts[i].as_str().is_empty();
            if keep {
                kept.push(parts[i].clone());
            }
            proof {
                reveal(Seq::filter);
                let t1 = ps.take(i + 1);
                assert(t1.drop_last() =~= ps.take(i as int));
                assert(t1.last() == ps[i as int]);
                if keep {
                    assert(kept.deep_view() =~= before.push(ps[i as int]));
                } else {
                    assert(kept.deep_view() =~= before);
                }
            }
            i = i + 1;
        }
        assert(ps.take(parts.len() as int) =~= ps);
        kept
    }

    /// One round of resolution: the path with its first link replaced by
    /// the link's destination, or `None` where no link stands on it.
    fn follow_first_link(&self, path: &str) -> (r: Result<Option<String>, ContainerError>)
        requires
            self.entries.wf(),
        ensures
            match round(self.entries@, path@) {
                Round::NoLink => r matches Ok(None),
                Round::Escapes => r matches Err(ContainerError::LinkEscapesImageRoot),
                Round::Moved(next) => r matches Ok(Some(p)) && p@ == next,
            },
    {
        let ghost m = self.entries@;
        let comps = Self::path_components(path);
        let ghost cv = comps.deep_view();
        let mut prefix = String::new();
        let mut idx: usize = 0;
        assert(cv.take(0) =~= Seq::<Seq<char>>::empty());
        while idx < comps.len()
            invariant
                self.entries.wf(),
                m == self.entries@,
                cv == comps.deep_view(),
                cv == components(path@),
                idx <= comps.len(),
                prefix@ == prefix_path(cv, idx as int),
                first_link_from(m, cv, 0) == first_link_from(m, cv, idx as int),
            decreases comps.len() - idx,
        {
            assert(cv.take(idx + 1).drop_last() =~= cv.take(idx as int));
            assert(cv.take(idx + 1).last() == cv[idx as int]);
            if idx > 0 {
                push_char(&mut prefix, '/');
            }
            prefix.append(comps[idx].as_str());
            assert(prefix@ =~= prefix_path(cv, idx + 1));
            let link = match self.entries.get(prefix.as_str()) {
                Some(entry) => match &entry.link {
                    Some(l) => Some(l.duplicate()),
                    None => None,
                },
                None => None,
            };
            match link {
                None => {
                    assert(link_at(m, prefix@) is None);
                    idx = idx + 1;
                },
                Some(l) => {
                    assert(link_at(m, prefix@) == Some(l@));
                    assert(first_link_from(m, cv, idx as int) == Some(idx as int));
                    let dest = match l {
                        ContainerLink::Symbolic(t) => {
                            let (parent, _) = split_parent_name(prefix.as_str());
                            normalize_link_target(parent.as_str(), t.as_str())
                        },
                        ContainerLink::Hard(t) => {
                            let top = String::new();
                            normalize_link_target(top.as_str(), t.as_str())
                        },
                    };
                    let dest = match dest {
                        Ok(d) => d,
                        Err(e) => {
                            return Err(e);
                        },
                    };
                    let remaining = join_from(&comps, idx + 1, '/');
                    let next = if remaining.as_str().is_empty() {
                        dest
                    } else if dest.as_str().is_empty() {
                        remaining
                    } else {
                        let d = with_char(dest.as_str(), '/');
                        concat(d.as_str(), remaining.as_str())
                    };
                    return Ok(Some(next));
                },
            }
        }
        Ok(None)
    }

    /// The key that `path` leads to through the links of the image, if any.
    /// It fails where a link leads above the image root, or where links are
    /// still followed after as many rounds as there are entries, and one more.
    pub fn resolve_path(&self, path: &str) -> (r: Result<Option<String>, ContainerError>)
        requires
            self.entries.wf(),
        ensures
            resolved_as(r, resolution(self.entries@, path@)),
    {
        let ghost m = self.entries@;
        let ghost start = trim_start_char(path@, '/');
        let mut current = trim_start(path, '/');
        let mut fuel: usize = self.entries.len();
        loop
            invariant
                self.entries.wf(),
                m == self.entries@,
                start == trim_start_char(path@, '/'),
                resolve_from(m, start, (m.dom().len() + 1) as nat) == resolve_from(
                    m,
                    current@,
                    (fuel + 1) as nat,
                ),
                fuel <= m.dom().len(),
            decreases fuel,
        {
            match self.follow_first_link(current.as_str()) {
                Err(e) => {
                    assert(round(m, current@) is Escapes);
                    assert(resolve_from(m, current@, (fuel + 1) as nat) is Escapes);
                    return Err(e);
                },
                Ok(Some(next)) => {
                    assert(resolve_from(m, current@, (fuel + 1) as nat) == resolve_from(
                        m,
                        next@,
                        fuel as nat,
                    ));
                    current = next;
                },
                Ok(None) => {
                    if self.entries.contains_key(current.as_str()) {
                        return Ok(Some(current));
                    }
                    let trimmed = trim_end(current.as_str(), '/');
                    let directory = with_char(trimmed.as_str(), '/');
                    if self.entries.contains_key(directory.as_str()) {
                        return Ok(Some(directory));
                    }
                    assert(round(m, current@) is NoLink);
                    assert(final_lookup(m, current@) is None);
                    assert(resolve_from(m, current@, (fuel + 1) as nat) is Absent);
                    return Ok(None);
                },
            }
            if fuel == 0 {
                return Err(ContainerError::LinkCycle);
            }
            fuel = fuel - 1;
        }
    }

    /// The entry that `path` leads to through the links of the image.
    pub fn get(&self, path: &str) -> (r: Result<Option<ContainerEntry>, ContainerError>)
        requires
            self.entries.wf(),
        ensures
            entry_as(r, resolution(self.entries@, path@), self.entries@),
    {
        proof {
            lemma_resolution_found_is_key(
                self.entries@,
                trim_start_char(path@, '/'),
                (self.entries@.dom().len() + 1) as nat,
            );
        }
        match self.resolve_path(path) {
            Ok(Some(key)) => match self.entries.get(key.as_str()) {
                Some(e) => Ok(Some(e.duplicate())),
                None => Ok(None),
            },
            Ok(None) => Ok(None),
            Err(e) => Err(e),
        }
    }
}

} // verus!
