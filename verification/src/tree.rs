//! The structure the merged file system keeps from layer to layer: the
//! directories on the way to every key are present in their directory form
//! and absent in their plain form, and no entry is a hard link.

use vstd::prelude::*;
use crate::entry::EntryView;
use crate::error::ContainerError;
use crate::layer::{
    TarRecordView, dir_chain, entries_replaced, entry_replaced, hard_links_filled, layer_entries,
    law_layer_leaves_no_hard_links, layer_merged, layer_outcome, layer_whiteouts,
    lemma_dir_chain_is_joined_prefix, no_hard_links, whiteout_applied, whiteouts_applied,
    with_parent_dirs,
};
use crate::paths::{dir_form, joined, opaque_marker, parent_name, whiteout_prefix};
use crate::table::without_prefix;
use crate::paths::lemma_join_concat;
use crate::text::{
    ends_with_char, join_with, lemma_join_split, lemma_split_on_nonempty, split_on, starts_with,
    trim_end_char,
};

verus! {

/// Every directory on the way to a key is present in its directory form
/// (`a/`) and absent in its plain form (`a`).
pub open spec fn parents_present(m: Map<Seq<char>, EntryView>) -> bool {
    forall|k: Seq<char>, d: Seq<char>|
        #[trigger] m.contains_key(k) && #[trigger] starts_with(k, d) && d.len() < k.len() && ends_with_char(d, '/')
            ==> m.contains_key(d) && !m.contains_key(trim_end_char(d, '/'))
}

proof fn lemma_starts_with_trans(k: Seq<char>, d: Seq<char>, p: Seq<char>)
    requires
        starts_with(k, d),
        starts_with(d, p),
    ensures
        starts_with(k, p),
{
    assert(k.subrange(0, p.len() as int) =~= d.subrange(0, p.len() as int));
}

/// `s` without its trailing `c`s is a prefix of it, only `c`s follow it,
/// and it does not end with `c`.
proof fn lemma_trim_end_shape(s: Seq<char>, c: char)
    ensures
        trim_end_char(s, c).len() <= s.len(),
        s.take(trim_end_char(s, c).len() as int) == trim_end_char(s, c),
        forall|j: int| trim_end_char(s, c).len() <= j < s.len() ==> s[j] == c,
        !ends_with_char(trim_end_char(s, c), c),
        ends_with_char(s, c) ==> trim_end_char(s, c).len() < s.len(),
    decreases s.len(),
{
    if s.len() > 0 && s.last() == c {
        lemma_trim_end_shape(s.drop_last(), c);
        let t = trim_end_char(s, c);
        assert(s.take(t.len() as int) =~= s.drop_last().take(t.len() as int));
        assert forall|j: int| t.len() <= j < s.len() implies s[j] == c by {
            if j < s.len() - 1 {
                assert(s[j] == s.drop_last()[j]);
            }
        }
    } else {
        assert(s.take(s.len() as int) =~= s);
    }
}

/// A directory key whose plain form is `q` lies under `q/`.
proof fn lemma_trim_is_plain(d: Seq<char>, q: Seq<char>)
    requires
        ends_with_char(d, '/'),
        trim_end_char(d, '/') == q,
    ensures
        starts_with(d, q.push('/')),
{
    lemma_trim_end_shape(d, '/');
    assert(d[q.len() as int] == '/');
    assert(d.subrange(0, q.len() as int + 1) =~= q.push('/'));
}

/// The directory prefixes of a path end with `/`.
proof fn lemma_chain_ends_dir(parts: Seq<Seq<char>>, j: int)
    requires
        1 <= j <= parts.len(),
    ensures
        ends_with_char(dir_chain(parts, j), '/'),
{
}

proof fn lemma_dir_chain_agree(a: Seq<Seq<char>>, b: Seq<Seq<char>>, j: int)
    requires
        0 <= j <= a.len(),
        j <= b.len(),
        forall|i: int| 0 <= i < j ==> a[i] == b[i],
    ensures
        dir_chain(a, j) == dir_chain(b, j),
    decreases j,
{
    if j > 0 {
        lemma_dir_chain_agree(a, b, j - 1);
    }
}

/// Every prefix of `s` that ends with `/` is one of its directory prefixes.
proof fn lemma_dir_prefix_is_chain(s: Seq<char>, d: Seq<char>)
    requires
        starts_with(s, d),
        ends_with_char(d, '/'),
    ensures
        exists|j: int| 1 <= j <= split_on(s, '/').len() - 1 && d == #[trigger] dir_chain(split_on(s, '/'), j),
    decreases s.len(),
{
    let p = split_on(s, '/');
    let s1 = s.drop_last();
    let p1 = split_on(s1, '/');
    lemma_split_on_nonempty(s1, '/');
    assert(forall|i: int| 0 <= i < p1.len() - 1 ==> p[i] == p1[i]);
    if d.len() <= s1.len() {
        assert(s1.subrange(0, d.len() as int) =~= s.subrange(0, d.len() as int));
        lemma_dir_prefix_is_chain(s1, d);
        let j = choose|j: int| 1 <= j <= p1.len() - 1 && d == #[trigger] dir_chain(p1, j);
        lemma_dir_chain_agree(p1, p, j);
        assert(d == dir_chain(p, j));
    } else {
        assert(d =~= s);
        assert(s.last() == '/');
        assert(p == p1.push(Seq::empty()));
        lemma_join_split(s1, '/');
        lemma_dir_chain_is_joined_prefix(p1, p1.len() as int);
        assert(p1.take(p1.len() as int) =~= p1);
        assert(s1.push('/') =~= s);
        lemma_dir_chain_agree(p1, p, p1.len() as int);
        assert(d == dir_chain(p, p1.len() as int));
    }
}

/// The directory prefixes of a path are prefixes of it, no longer than it.
proof fn lemma_chain_prefix(q: Seq<char>, j: int)
    requires
        1 <= j <= split_on(q, '/').len() - 1,
    ensures
        starts_with(q, dir_chain(split_on(q, '/'), j)),
{
    let p = split_on(q, '/');
    lemma_join_split(q, '/');
    lemma_dir_chain_is_joined_prefix(p, j);
    assert(p.take(j) + p.skip(j) =~= p);
    lemma_join_concat(p.take(j), p.skip(j), '/');
    let dc = dir_chain(p, j);
    assert(q.subrange(0, dc.len() as int) =~= dc);
}

/// `x` is a key of `m` and none of the first `n` directory prefixes of
/// `parts` has `x` as its plain form.
pub open spec fn kept_by_chain(m: Map<Seq<char>, EntryView>, parts: Seq<Seq<char>>, n: int, x: Seq<char>) -> bool {
    m.contains_key(x) && forall|j: int| 1 <= j <= n ==> x != trim_end_char(#[trigger] dir_chain(parts, j), '/')
}

/// `x` is one of the first `n` directory prefixes of `parts`.
pub open spec fn made_by_chain(parts: Seq<Seq<char>>, n: int, x: Seq<char>) -> bool {
    exists|j: int| 1 <= j <= n && x == #[trigger] dir_chain(parts, j)
}

/// The keys after the directories on the way are made: the keys before,
/// but for the plain forms of those directories, and the directories.
proof fn lemma_parent_dirs_members(m: Map<Seq<char>, EntryView>, parts: Seq<Seq<char>>, n: int)
    requires
        n < parts.len(),
    ensures
        forall|x: Seq<char>| #[trigger] with_parent_dirs(m, parts, n).contains_key(x) <==> kept_by_chain(m, parts, n, x)
            || made_by_chain(parts, n, x),
    decreases n,
{
    if n > 0 {
        lemma_parent_dirs_members(m, parts, n - 1);
        let cur = dir_chain(parts, n);
        let t = trim_end_char(cur, '/');
        lemma_chain_ends_dir(parts, n);
        lemma_trim_end_shape(cur, '/');
        let m1 = with_parent_dirs(m, parts, n - 1);
        let r = with_parent_dirs(m, parts, n);
        assert forall|x: Seq<char>| #[trigger] r.contains_key(x) <==> kept_by_chain(m, parts, n, x) || made_by_chain(parts, n, x) by {
            assert(r.contains_key(x) <==> (m1.contains_key(x) && x != t) || x == cur);
            if x == cur {
                assert(made_by_chain(parts, n, x));
            }
            if m1.contains_key(x) && x != t {
                if kept_by_chain(m, parts, n - 1, x) {
                    assert forall|j: int| 1 <= j <= n implies x != trim_end_char(#[trigger] dir_chain(parts, j), '/') by {
                        if j < n {
                            assert(x != trim_end_char(dir_chain(parts, j), '/'));
                        }
                    }
                    assert(kept_by_chain(m, parts, n, x));
                } else {
                    let j = choose|j: int| 1 <= j <= n - 1 && x == #[trigger] dir_chain(parts, j);
                    assert(made_by_chain(parts, n, x));
                }
            }
            if kept_by_chain(m, parts, n, x) {
                assert(x != trim_end_char(dir_chain(parts, n), '/'));
                assert forall|j: int| 1 <= j <= n - 1 implies x != trim_end_char(#[trigger] dir_chain(parts, j), '/') by {
                    assert(x != trim_end_char(dir_chain(parts, j), '/'));
                }
                assert(kept_by_chain(m, parts, n - 1, x));
            }
            if made_by_chain(parts, n, x) {
                let j = choose|j: int| 1 <= j <= n && x == #[trigger] dir_chain(parts, j);
                if j < n {
                    lemma_chain_ends_dir(parts, j);
                    assert(made_by_chain(parts, n - 1, x));
                    assert(x != t);
                }
            }
        }
    }
}

/// Removing a key that is not a directory key keeps the structure.
proof fn lemma_remove_plain(m: Map<Seq<char>, EntryView>, x: Seq<char>)
    requires
        parents_present(m),
        !ends_with_char(x, '/'),
    ensures
        parents_present(m.remove(x)),
{
    let r = m.remove(x);
    assert forall|k: Seq<char>, d: Seq<char>|
        #[trigger] r.contains_key(k) && #[trigger] starts_with(k, d) && d.len() < k.len() && ends_with_char(d, '/')
        implies r.contains_key(d) && !r.contains_key(trim_end_char(d, '/')) by {
        assert(m.contains_key(k));
    }
}

/// Removing every key under a prefix keeps the structure.
proof fn lemma_without_prefix(m: Map<Seq<char>, EntryView>, p: Seq<char>)
    requires
        parents_present(m),
    ensures
        parents_present(without_prefix(m, p)),
{
    let r = without_prefix(m, p);
    assert forall|k: Seq<char>, d: Seq<char>|
        #[trigger] r.contains_key(k) && #[trigger] starts_with(k, d) && d.len() < k.len() && ends_with_char(d, '/')
        implies r.contains_key(d) && !r.contains_key(trim_end_char(d, '/')) by {
        assert(m.contains_key(k));
        if starts_with(d, p) {
            lemma_starts_with_trans(k, d, p);
        }
    }
}

/// Removing a key and every key under it keeps the structure.
proof fn lemma_remove_tree(m: Map<Seq<char>, EntryView>, x: Seq<char>)
    requires
        parents_present(m),
    ensures
        parents_present(without_prefix(m.remove(x), x)),
{
    let r = without_prefix(m.remove(x), x);
    assert forall|k: Seq<char>, d: Seq<char>|
        #[trigger] r.contains_key(k) && #[trigger] starts_with(k, d) && d.len() < k.len() && ends_with_char(d, '/')
        implies r.contains_key(d) && !r.contains_key(trim_end_char(d, '/')) by {
        assert(m.contains_key(k));
        if starts_with(d, x) {
            lemma_starts_with_trans(k, d, x);
        }
        if d == x {
            assert(starts_with(d, x)) by {
                assert(d.subrange(0, d.len() as int) =~= d);
            }
        }
    }
}


/// A directory on the way to `q` is made, in its directory form, when the
/// directories on the way to `q` are made, and its plain form is gone.
proof fn lemma_way_to_key(c: Map<Seq<char>, EntryView>, q: Seq<char>, d: Seq<char>)
    requires
        starts_with(q, d),
        d.len() < q.len(),
        ends_with_char(d, '/'),
    ensures
        with_parent_dirs(c, split_on(q, '/'), split_on(q, '/').len() - 1).contains_key(d),
        !with_parent_dirs(c, split_on(q, '/'), split_on(q, '/').len() - 1).contains_key(trim_end_char(d, '/')),
        trim_end_char(d, '/') != q,
{
    let parts = split_on(q, '/');
    let n = parts.len() - 1;
    lemma_split_on_nonempty(q, '/');
    lemma_parent_dirs_members(c, parts, n);
    lemma_dir_prefix_is_chain(q, d);
    let j = choose|j: int| 1 <= j <= n && d == #[trigger] dir_chain(parts, j);
    assert(made_by_chain(parts, n, d));
    lemma_trim_end_shape(d, '/');
    let t = trim_end_char(d, '/');
    assert(!kept_by_chain(c, parts, n, t)) by {
        assert(t == trim_end_char(dir_chain(parts, j), '/'));
    }
    assert(!made_by_chain(parts, n, t)) by {
        if made_by_chain(parts, n, t) {
            let i = choose|i: int| 1 <= i <= n && t == #[trigger] dir_chain(parts, i);
            lemma_chain_ends_dir(parts, i);
        }
    }
}

/// Setting a layer's entry keeps the structure.
proof fn lemma_entry_replaced(m: Map<Seq<char>, EntryView>, q: Seq<char>, e: EntryView)
    requires
        parents_present(m),
    ensures
        parents_present(entry_replaced(m, q, e)),
{
    let cleared = if ends_with_char(q, '/') {
        m.remove(trim_end_char(q, '/'))
    } else {
        without_prefix(m.remove(dir_form(q)), dir_form(q))
    };
    lemma_trim_end_shape(q, '/');
    if ends_with_char(q, '/') {
        lemma_remove_plain(m, trim_end_char(q, '/'));
    } else {
        lemma_remove_tree(m, dir_form(q));
    }
    let parts = split_on(q, '/');
    lemma_split_on_nonempty(q, '/');
    let n = parts.len() - 1;
    lemma_parent_dirs_members(cleared, parts, n);
    let rr = with_parent_dirs(cleared, parts, n);
    let mm = rr.insert(q, e);
    assert(mm == entry_replaced(m, q, e));
    assert forall|k: Seq<char>, d: Seq<char>|
        #[trigger] mm.contains_key(k) && #[trigger] starts_with(k, d) && d.len() < k.len() && ends_with_char(d, '/')
        implies mm.contains_key(d) && !mm.contains_key(trim_end_char(d, '/')) by {
        lemma_trim_end_shape(d, '/');
        if k == q {
            lemma_way_to_key(cleared, q, d);
        } else if made_by_chain(parts, n, k) {
            let j = choose|j: int| 1 <= j <= n && k == #[trigger] dir_chain(parts, j);
            lemma_chain_prefix(q, j);
            lemma_starts_with_trans(q, k, d);
            lemma_way_to_key(cleared, q, d);
        } else {
            assert(kept_by_chain(cleared, parts, n, k));
            assert(cleared.contains_key(d) && !cleared.contains_key(trim_end_char(d, '/')));
            assert forall|j: int| 1 <= j <= n implies d != trim_end_char(#[trigger] dir_chain(parts, j), '/') by {
                lemma_trim_end_shape(dir_chain(parts, j), '/');
            }
            assert(kept_by_chain(cleared, parts, n, d));
            assert(!made_by_chain(parts, n, trim_end_char(d, '/'))) by {
                if made_by_chain(parts, n, trim_end_char(d, '/')) {
                    let i = choose|i: int| 1 <= i <= n && trim_end_char(d, '/') == #[trigger] dir_chain(parts, i);
                    lemma_chain_ends_dir(parts, i);
                }
            }
            if !ends_with_char(q, '/') && trim_end_char(d, '/') == q {
                lemma_trim_is_plain(d, q);
                lemma_starts_with_trans(k, d, q.push('/'));
                assert(dir_form(q) == q.push('/'));
                assert(!cleared.contains_key(k));
            }
        }
    }
}


proof fn lemma_whiteout(m: Map<Seq<char>, EntryView>, path: Seq<char>)
    requires
        parents_present(m),
        whiteout_applied(m, path) is Some,
    ensures
        parents_present(whiteout_applied(m, path).unwrap()),
{
    let parent = parent_name(path).0;
    let name = parent_name(path).1;
    if name == opaque_marker() {
        if parent.len() > 0 {
            lemma_without_prefix(m, dir_form(parent));
        }
    } else if starts_with(name, whiteout_prefix()) {
        let t = joined(parent, name.skip(4));
        if ends_with_char(t, '/') {
            lemma_remove_tree(m, t);
        } else {
            lemma_remove_plain(m, t);
            lemma_without_prefix(m.remove(t), dir_form(t));
        }
    }
}

proof fn lemma_whiteouts(m: Map<Seq<char>, EntryView>, ws: Seq<Seq<char>>, n: int)
    requires
        parents_present(m),
        whiteouts_applied(m, ws, n) is Some,
    ensures
        parents_present(whiteouts_applied(m, ws, n).unwrap()),
    decreases n,
{
    if n > 0 {
        lemma_whiteouts(m, ws, n - 1);
        lemma_whiteout(whiteouts_applied(m, ws, n - 1).unwrap(), ws[n - 1]);
    }
}

proof fn lemma_entries(m: Map<Seq<char>, EntryView>, es: Seq<(Seq<char>, EntryView)>, n: int)
    requires
        parents_present(m),
    ensures
        parents_present(entries_replaced(m, es, n)),
    decreases n,
{
    if n > 0 {
        lemma_entries(m, es, n - 1);
        lemma_entry_replaced(entries_replaced(m, es, n - 1), es[n - 1].0, es[n - 1].1);
    }
}

/// Applying a layer keeps the directory structure: where every directory
/// on the way to each key is present in its directory form and absent in
/// its plain form (as in the empty image), it stays so once the layer's
/// whiteouts and entries are applied and once its hard links are resolved.
pub proof fn law_layer_keeps_parent_dirs(m: Map<Seq<char>, EntryView>, rs: Seq<TarRecordView>)
    requires
        parents_present(m),
        layer_merged(m, rs) is Some,
    ensures
        parents_present(layer_merged(m, rs).unwrap()),
        parents_present(hard_links_filled(layer_merged(m, rs).unwrap())),
{
    let ws = layer_whiteouts(rs);
    let es = layer_entries(rs);
    lemma_whiteouts(m, ws, ws.len() as int);
    let m1 = whiteouts_applied(m, ws, ws.len() as int).unwrap();
    lemma_entries(m1, es, es.len() as int);
    let mm = layer_merged(m, rs).unwrap();
    let f = hard_links_filled(mm);
    assert forall|k: Seq<char>, d: Seq<char>|
        #[trigger] f.contains_key(k) && #[trigger] starts_with(k, d) && d.len() < k.len() && ends_with_char(d, '/')
        implies f.contains_key(d) && !f.contains_key(trim_end_char(d, '/')) by {
        assert(mm.contains_key(k));
    }
}


/// Applying a layer to entries that keep the directory structure and hold
/// no hard link, where it succeeds, leaves entries that keep the structure
/// and hold no hard link.
pub proof fn law_layer_keeps_structure(
    m0: Map<Seq<char>, EntryView>,
    rs: Seq<TarRecordView>,
    r: Result<(), ContainerError>,
    m1: Map<Seq<char>, EntryView>,
)
    requires
        parents_present(m0),
        no_hard_links(m0),
        layer_outcome(m0, rs, r, m1),
        r is Ok,
    ensures
        parents_present(m1),
        no_hard_links(m1),
{
    law_layer_keeps_parent_dirs(m0, rs);
    law_layer_leaves_no_hard_links(m0, rs);
}


} // verus!
