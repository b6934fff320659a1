//! The index of the merged file system: entries keyed by path, kept in the
//! order of their paths, each path at most once.

use vstd::prelude::*;
use crate::entry::{ContainerEntry, EntryMetadata, EntryView, is_hard_link};
use crate::text::{has_prefix, lemma_lex_irreflexive, lemma_lex_total, lemma_lex_transitive, lex_lt, starts_with, str_lt};

verus! {

/// The keys of `s` strictly increase.
pub open spec fn sorted_keys(s: Seq<(Seq<char>, EntryView)>) -> bool {
    forall|i: int, j: int| 0 <= i < j < s.len() ==> lex_lt(#[trigger] s[i].0, #[trigger] s[j].0)
}

/// Some pair of `s` has the key `k`.
pub open spec fn has_key(s: Seq<(Seq<char>, EntryView)>, k: Seq<char>) -> bool {
    exists|i: int| 0 <= i < s.len() && #[trigger] s[i].0 == k
}

/// The map that the pairs of `s` make.
pub open spec fn map_of(s: Seq<(Seq<char>, EntryView)>) -> Map<Seq<char>, EntryView> {
    Map::new(
        |k: Seq<char>| has_key(s, k),
        |k: Seq<char>| s[choose|i: int| 0 <= i < s.len() && #[trigger] s[i].0 == k].1,
    )
}

/// `m` without the keys that start with `p`.
pub open spec fn without_prefix(m: Map<Seq<char>, EntryView>, p: Seq<char>) -> Map<
    Seq<char>,
    EntryView,
> {
    Map::new(|k: Seq<char>| m.contains_key(k) && !starts_with(k, p), |k: Seq<char>| m[k])
}

/// The key is under the prefix.
pub open spec fn key_under(p: Seq<char>) -> spec_fn((Seq<char>, EntryView)) -> bool {
    |e: (Seq<char>, EntryView)| starts_with(e.0, p)
}

/// The pair holds a hard link.
pub open spec fn pair_is_hard_link() -> spec_fn((Seq<char>, EntryView)) -> bool {
    |e: (Seq<char>, EntryView)| is_hard_link(e.1)
}

/// A key and the metadata of its entry.
pub open spec fn key_and_metadata(e: (Seq<char>, EntryView)) -> (Seq<char>, EntryMetadata) {
    (e.0, e.1.metadata)
}

pub proof fn lemma_map_of_at(s: Seq<(Seq<char>, EntryView)>, i: int)
    requires
        sorted_keys(s),
        0 <= i < s.len(),
    ensures
        map_of(s).contains_key(s[i].0),
        map_of(s)[s[i].0] == s[i].1,
{
    let k = s[i].0;
    assert(has_key(s, k));
    let j = choose|j: int| 0 <= j < s.len() && #[trigger] s[j].0 == k;
    lemma_lex_irreflexive(k);
    if j < i {
        assert(lex_lt(s[j].0, s[i].0));
    } else if j > i {
        assert(lex_lt(s[i].0, s[j].0));
    }
}

proof fn lemma_map_of_ext(s: Seq<(Seq<char>, EntryView)>, m: Map<Seq<char>, EntryView>)
    requires
        sorted_keys(s),
        forall|k: Seq<char>| has_key(s, k) <==> m.contains_key(k),
        forall|i: int| 0 <= i < s.len() ==> m[#[trigger] s[i].0] == s[i].1,
    ensures
        map_of(s) == m,
{
    assert forall|k: Seq<char>| #[trigger] map_of(s).contains_key(k) implies map_of(s)[k] == m[k] by {
        let i = choose|i: int| 0 <= i < s.len() && #[trigger] s[i].0 == k;
        lemma_map_of_at(s, i);
    }
    assert(map_of(s) =~= m);
}

pub proof fn lemma_insert_at(s: Seq<(Seq<char>, EntryView)>, i: int, k: Seq<char>, e: EntryView)
    requires
        sorted_keys(s),
        0 <= i <= s.len(),
        forall|j: int| 0 <= j < i ==> lex_lt(#[trigger] s[j].0, k),
        forall|j: int| i <= j < s.len() ==> lex_lt(k, #[trigger] s[j].0),
    ensures
        sorted_keys(s.insert(i, (k, e))),
        map_of(s.insert(i, (k, e))) == map_of(s).insert(k, e),
{
    let t = s.insert(i, (k, e));
    assert forall|a: int, b: int| 0 <= a < b < t.len() implies lex_lt(#[trigger] t[a].0, #[trigger] t[b].0) by {
        if a < i && b == i {
        } else if a < i && b > i {
            assert(t[b] == s[b - 1]);
        } else if a == i {
            assert(t[b] == s[b - 1]);
        } else if a > i {
            assert(t[a] == s[a - 1] && t[b] == s[b - 1]);
        }
    }
    let m = map_of(s).insert(k, e);
    assert forall|x: Seq<char>| has_key(t, x) <==> m.contains_key(x) by {
        if has_key(t, x) {
            let j = choose|j: int| 0 <= j < t.len() && #[trigger] t[j].0 == x;
            if j < i {
                assert(s[j].0 == x);
            } else if j > i {
                assert(s[j - 1].0 == x);
            }
        }
        if m.contains_key(x) && x != k {
            let j = choose|j: int| 0 <= j < s.len() && #[trigger] s[j].0 == x;
            if j < i {
                assert(t[j].0 == x);
            } else {
                assert(t[j + 1].0 == x);
            }
        }
        if x == k {
            assert(t[i].0 == x);
        }
    }
    assert forall|j: int| 0 <= j < t.len() implies m[#[trigger] t[j].0] == t[j].1 by {
        if j < i {
            lemma_map_of_at(s, j);
            lemma_lex_irreflexive(k);
        } else if j > i {
            lemma_map_of_at(s, j - 1);
            lemma_lex_irreflexive(k);
        }
    }
    lemma_map_of_ext(t, m);
}

pub proof fn lemma_update_at(s: Seq<(Seq<char>, EntryView)>, i: int, e: EntryView)
    requires
        sorted_keys(s),
        0 <= i < s.len(),
    ensures
        sorted_keys(s.update(i, (s[i].0, e))),
        map_of(s.update(i, (s[i].0, e))) == map_of(s).insert(s[i].0, e),
{
    let k = s[i].0;
    let t = s.update(i, (k, e));
    let m = map_of(s).insert(k, e);
    assert forall|x: Seq<char>| has_key(t, x) <==> m.contains_key(x) by {
        if has_key(t, x) {
            let j = choose|j: int| 0 <= j < t.len() && #[trigger] t[j].0 == x;
            assert(s[j].0 == x);
        }
        if m.contains_key(x) && x != k {
            let j = choose|j: int| 0 <= j < s.len() && #[trigger] s[j].0 == x;
            assert(t[j].0 == x);
        }
        if x == k {
            assert(t[i].0 == x);
        }
    }
    assert forall|j: int| 0 <= j < t.len() implies m[#[trigger] t[j].0] == t[j].1 by {
        if j != i {
            lemma_map_of_at(s, j);
            lemma_lex_irreflexive(k);
            if j < i {
                assert(lex_lt(s[j].0, s[i].0));
            } else {
                assert(lex_lt(s[i].0, s[j].0));
            }
        }
    }
    lemma_map_of_ext(t, m);
}

pub proof fn lemma_remove_at(s: Seq<(Seq<char>, EntryView)>, i: int)
    requires
        sorted_keys(s),
        0 <= i < s.len(),
    ensures
        sorted_keys(s.remove(i)),
        map_of(s.remove(i)) == map_of(s).remove(s[i].0),
{
    let k = s[i].0;
    let t = s.remove(i);
    assert forall|a: int, b: int| 0 <= a < b < t.len() implies lex_lt(#[trigger] t[a].0, #[trigger] t[b].0) by {
        if b < i {
        } else if a < i {
            assert(t[b] == s[b + 1]);
        } else {
            assert(t[a] == s[a + 1] && t[b] == s[b + 1]);
        }
    }
    let m = map_of(s).remove(k);
    assert forall|x: Seq<char>| has_key(t, x) <==> m.contains_key(x) by {
        if has_key(t, x) {
            let j = choose|j: int| 0 <= j < t.len() && #[trigger] t[j].0 == x;
            lemma_lex_irreflexive(k);
            if j < i {
                assert(s[j].0 == x);
                assert(lex_lt(s[j].0, s[i].0));
            } else {
                assert(s[j + 1].0 == x);
                assert(lex_lt(s[i].0, s[j + 1].0));
            }
        }
        if m.contains_key(x) {
            let j = choose|j: int| 0 <= j < s.len() && #[trigger] s[j].0 == x;
            if j < i {
                assert(t[j].0 == x);
            } else {
                assert(j != i);
                assert(t[j - 1].0 == x);
            }
        }
    }
    assert forall|j: int| 0 <= j < t.len() implies m[#[trigger] t[j].0] == t[j].1 by {
        lemma_lex_irreflexive(k);
        if j < i {
            lemma_map_of_at(s, j);
            assert(lex_lt(s[j].0, s[i].0));
        } else {
            lemma_map_of_at(s, j + 1);
            assert(lex_lt(s[i].0, s[j + 1].0));
        }
    }
    lemma_map_of_ext(t, m);
}

/// Filtering keeps the keys increasing and keeps only pairs of the sequence.
pub proof fn lemma_filter_sorted(s: Seq<(Seq<char>, EntryView)>, pred: spec_fn((Seq<char>, EntryView)) -> bool)
    requires
        sorted_keys(s),
    ensures
        sorted_keys(s.filter(pred)),
        forall|i: int| 0 <= i < s.filter(pred).len() ==> s.contains(#[trigger] s.filter(pred)[i]) && pred(s.filter(pred)[i]),
        forall|i: int| 0 <= i < s.len() && pred(s[i]) ==> s.filter(pred).contains(#[trigger] s[i]),
    decreases s.len(),
{
    reveal(Seq::filter);
    if s.len() > 0 {
        let d = s.drop_last();
        assert(sorted_keys(d));
        lemma_filter_sorted(d, pred);
        let f = s.filter(pred);
        let fd = d.filter(pred);
        assert forall|i: int| 0 <= i < fd.len() implies lex_lt(#[trigger] fd[i].0, s.last().0) by {
            let j = choose|j: int| 0 <= j < d.len() && d[j] == fd[i];
            assert(s[j] == d[j]);
        }
        assert forall|i: int| 0 <= i < f.len() implies s.contains(#[trigger] f[i]) && pred(f[i]) by {
            if i < fd.len() {
                let j = choose|j: int| 0 <= j < d.len() && d[j] == fd[i];
                assert(s[j] == d[j]);
            } else {
                assert(s[s.len() - 1] == s.last());
            }
        }
        assert forall|i: int| 0 <= i < s.len() && pred(s[i]) implies f.contains(#[trigger] s[i]) by {
            if i < s.len() - 1 {
                assert(d[i] == s[i]);
                let j = choose|j: int| 0 <= j < fd.len() && fd[j] == d[i];
                assert(f[j] == fd[j]);
            } else {
                assert(f[f.len() - 1] == s[i]);
            }
        }
    }
}

/// The entries of the merged file system, keyed by path.
#[derive(Debug)]
pub struct EntryTable {
    items: Vec<(String, ContainerEntry)>,
}

impl View for EntryTable {
    type V = Map<Seq<char>, EntryView>;

    closed spec fn view(&self) -> Map<Seq<char>, EntryView> {
        map_of(self.pairs())
    }
}

impl EntryTable {
    /// The pairs of the table in the order of their keys.
    pub closed spec fn pairs(&self) -> Seq<(Seq<char>, EntryView)> {
        self.items@.map_values(|p: (String, ContainerEntry)| (p.0@, p.1@))
    }

    /// The table is well formed: its keys strictly increase.
    pub open spec fn wf(&self) -> bool {
        sorted_keys(self.pairs())
    }

    /// The keys of the table in increasing order.
    pub open spec fn keys(&self) -> Seq<Seq<char>> {
        self.pairs().map_values(|p: (Seq<char>, EntryView)| p.0)
    }

    pub proof fn lemma_view(&self)
        requires
            self.wf(),
        ensures
            self@ == map_of(self.pairs()),
            forall|i: int| 0 <= i < self.pairs().len() ==> self@.contains_key(#[trigger] self.pairs()[i].0)
                && self@[self.pairs()[i].0] == self.pairs()[i].1,
            forall|k: Seq<char>| #[trigger] self@.contains_key(k) ==> has_key(self.pairs(), k),
            self@.dom().finite(),
            self@.dom().len() == self.pairs().len(),
    {
        assert forall|i: int| 0 <= i < self.pairs().len() implies self@.contains_key(#[trigger] self.pairs()[i].0)
            && self@[self.pairs()[i].0] == self.pairs()[i].1 by {
            lemma_map_of_at(self.pairs(), i);
        }
        let ks = self.keys();
        assert(self@.dom() =~= ks.to_set()) by {
            assert forall|k: Seq<char>| self@.dom().contains(k) implies ks.to_set().contains(k) by {
                let i = choose|i: int| 0 <= i < self.pairs().len() && #[trigger] self.pairs()[i].0 == k;
                assert(ks[i] == k);
            }
            assert forall|k: Seq<char>| ks.to_set().contains(k) implies self@.dom().contains(k) by {
                let i = choose|i: int| 0 <= i < ks.len() && ks[i] == k;
                assert(self.pairs()[i].0 == k);
            }
        }
        assert(ks.no_duplicates()) by {
            assert forall|i: int, j: int| 0 <= i < ks.len() && 0 <= j < ks.len() && i != j implies ks[i] != ks[j] by {
                lemma_lex_irreflexive(ks[i]);
                if i < j {
                    assert(lex_lt(self.pairs()[i].0, self.pairs()[j].0));
                } else {
                    assert(lex_lt(self.pairs()[j].0, self.pairs()[i].0));
                }
            }
        }
        ks.unique_seq_to_set();
    }

    /// An empty table.
    pub fn new() -> (r: Self)
        ensures
            r.wf(),
            r@ == Map::<Seq<char>, EntryView>::empty(),
            r.pairs() == Seq::<(Seq<char>, EntryView)>::empty(),
    {
        let r = EntryTable { items: Vec::new() };
        assert(r.pairs() =~= Seq::<(Seq<char>, EntryView)>::empty());
        assert(r@ =~= Map::<Seq<char>, EntryView>::empty());
        r
    }

    /// The number of entries.
    pub fn len(&self) -> (n: usize)
        requires
            self.wf(),
        ensures
            n == self@.dom().len(),
            n == self.pairs().len(),
    {
        proof {
            self.lemma_view();
        }
        self.items.len()
    }

    /// Where `key` stands: `Ok` with its index, or `Err` with the index at
    /// which it would be inserted.
    fn position(&self, key: &str) -> (r: Result<usize, usize>)
        requires
            self.wf(),
        ensures
            match r {
                Ok(i) => i < self.pairs().len() && self.pairs()[i as int].0 == key@,
                Err(i) => i <= self.pairs().len() && (forall|j: int|
                    0 <= j < i ==> lex_lt(#[trigger] self.pairs()[j].0, key@)) && (forall|j: int|
                    i <= j < self.pairs().len() ==> lex_lt(key@, #[trigger] self.pairs()[j].0)),
            },
    {
        let ghost s = self.pairs();
        let mut lo: usize = 0;
        let mut hi: usize = self.items.len();
        while lo < hi
            invariant
                s == self.pairs(),
                sorted_keys(s),
                lo <= hi <= s.len(),
                s.len() == self.items.len(),
                forall|j: int| 0 <= j < lo ==> lex_lt(#[trigger] s[j].0, key@),
                forall|j: int| hi <= j < s.len() ==> lex_lt(key@, #[trigger] s[j].0),
            decreases hi - lo,
        {
            let mid = lo + (hi - lo) / 2;
            let k = &self.items[mid].0;
            assert(s[mid as int].0 == k@);
            if str_lt(k.as_str(), key) {
                assert forall|j: int| 0 <= j <= mid implies lex_lt(#[trigger] s[j].0, key@) by {
                    if j < mid {
                        lemma_lex_transitive(s[j].0, s[mid as int].0, key@);
                    }
                }
                lo = mid + 1;
            } else if str_lt(key, k.as_str()) {
                assert forall|j: int| mid <= j < s.len() implies lex_lt(key@, #[trigger] s[j].0) by {
                    if j > mid {
                        lemma_lex_transitive(key@, s[mid as int].0, s[j].0);
                    }
                }
                hi = mid;
            } else {
                proof {
                    lemma_lex_total(k@, key@);
                }
                return Ok(mid);
            }
        }
        Err(lo)
    }

    /// The entry at `key`, if any.
    pub fn get(&self, key: &str) -> (r: Option<&ContainerEntry>)
        requires
            self.wf(),
        ensures
            match r {
                Some(e) => self@.contains_key(key@) && e@ == self@[key@],
                None => !self@.contains_key(key@),
            },
    {
        proof {
            self.lemma_view();
        }
        match self.position(key) {
            Ok(i) => Some(&self.items[i].1),
            Err(i) => {
                proof {
                    if self@.contains_key(key@) {
                        let j = choose|j: int| 0 <= j < self.pairs().len() && #[trigger] self.pairs()[j].0 == key@;
                        lemma_lex_irreflexive(key@);
                    }
                }
                None
            },
        }
    }

    /// Whether there is an entry at `key`.
    pub fn contains_key(&self, key: &str) -> (b: bool)
        requires
            self.wf(),
        ensures
            b == self@.contains_key(key@),
    {
        self.get(key).is_some()
    }

    /// Sets the entry at `key`, in place of the one there may be.
    pub fn insert(&mut self, key: String, entry: ContainerEntry)
        requires
            old(self).wf(),
        ensures
            final(self).wf(),
            final(self)@ == old(self)@.insert(key@, entry@),
    {
        let ghost s = self.pairs();
        let ghost kv = key@;
        let ghost ev = entry@;
        match self.position(key.as_str()) {
            Ok(i) => {
                self.items.set(i, (key, entry));
                proof {
                    lemma_update_at(s, i as int, ev);
                    assert(self.pairs() =~= s.update(i as int, (s[i as int].0, ev)));
                }
            },
            Err(i) => {
                self.items.insert(i, (key, entry));
                proof {
                    lemma_insert_at(s, i as int, kv, ev);
                    assert(self.pairs() =~= s.insert(i as int, (kv, ev)));
                }
            },
        }
    }

    /// Sets the entry at `key` where there is none.
    pub fn insert_if_absent(&mut self, key: String, entry: ContainerEntry)
        requires
            old(self).wf(),
        ensures
            final(self).wf(),
            final(self)@ == if old(self)@.contains_key(key@) {
                old(self)@
            } else {
                old(self)@.insert(key@, entry@)
            },
    {
        if !self.contains_key(key.as_str()) {
            self.insert(key, entry);
        }
    }

    /// Removes the entry at `key`, if any.
    pub fn remove(&mut self, key: &str)
        requires
            old(self).wf(),
        ensures
            final(self).wf(),
            final(self)@ == old(self)@.remove(key@),
    {
        let ghost s = self.pairs();
        proof {
            self.lemma_view();
        }
        match self.position(key) {
            Ok(i) => {
                self.items.remove(i);
                proof {
                    lemma_remove_at(s, i as int);
                    assert(self.pairs() =~= s.remove(i as int));
                }
            },
            Err(i) => {
                proof {
                    if self@.contains_key(key@) {
                        let j = choose|j: int| 0 <= j < s.len() && #[trigger] s[j].0 == key@;
                        lemma_lex_irreflexive(key@);
                    }
                    assert(self@ =~= old(self)@.remove(key@));
                }
            },
        }
    }

    /// Removes every entry.
    pub fn clear(&mut self)
        ensures
            final(self).wf(),
            final(self)@ == Map::<Seq<char>, EntryView>::empty(),
    {
        self.items.clear();
        assert(self.pairs() =~= Seq::<(Seq<char>, EntryView)>::empty());
        assert(self@ =~= Map::<Seq<char>, EntryView>::empty());
    }

    /// Removes every entry whose key starts with `prefix`.
    pub fn remove_prefix(&mut self, prefix: &str)
        requires
            old(self).wf(),
        ensures
            final(self).wf(),
            final(self)@ == without_prefix(old(self)@, prefix@),
    {
        let ghost m0 = self@;
        let ghost mut removed: Set<Seq<char>> = Set::empty();
        let mut i: usize = 0;
        while i < self.items.len()
            invariant
                self.wf(),
                i <= self.pairs().len(),
                self@ == m0.remove_keys(removed),
                forall|k: Seq<char>| #[trigger] removed.contains(k) ==> starts_with(k, prefix@),
                forall|j: int| 0 <= j < i ==> !starts_with(#[trigger] self.pairs()[j].0, prefix@),
            decreases self.pairs().len() - i,
        {
            let ghost s = self.pairs();
            assert(s[i as int].0 == self.items[i as int].0@);
            if has_prefix(self.items[i].0.as_str(), prefix) {
                let ghost k = s[i as int].0;
                self.items.remove(i);
                proof {
                    lemma_remove_at(s, i as int);
                    assert(self.pairs() =~= s.remove(i as int));
                    removed = removed.insert(k);
                    assert(m0.remove_keys(removed) =~= m0.remove_keys(removed.remove(k)).remove(k));
                    assert forall|j: int| 0 <= j < i implies !starts_with(#[trigger] self.pairs()[j].0, prefix@) by {
                        assert(self.pairs()[j] == s[j]);
                    }
                }
            } else {
                i = i + 1;
            }
        }
        proof {
            self.lemma_view();
            assert forall|k: Seq<char>| #[trigger] self@.contains_key(k) == without_prefix(m0, prefix@).contains_key(k) by {
                if self@.contains_key(k) {
                    let j = choose|j: int| 0 <= j < self.pairs().len() && #[trigger] self.pairs()[j].0 == k;
                }
            }
            assert(self@ =~= without_prefix(m0, prefix@));
        }
    }

    /// Whether some key starts with `prefix`.
    pub fn has_key_with_prefix(&self, prefix: &str) -> (b: bool)
        requires
            self.wf(),
        ensures
            b == exists|k: Seq<char>| #[trigger] self@.contains_key(k) && starts_with(k, prefix@),
    {
        proof {
            self.lemma_view();
        }
        let mut i: usize = 0;
        while i < self.items.len()
            invariant
                self.wf(),
                i <= self.pairs().len(),
                self.pairs().len() == self.items.len(),
                forall|j: int| 0 <= j < i ==> !starts_with(#[trigger] self.pairs()[j].0, prefix@),
            decreases self.items.len() - i,
        {
            assert(self.pairs()[i as int].0 == self.items[i as int].0@);
            if has_prefix(self.items[i].0.as_str(), prefix) {
                proof {
                    self.lemma_view();
                    assert(self@.contains_key(self.pairs()[i as int].0));
                }
                return true;
            }
            i = i + 1;
        }
        proof {
            assert forall|k: Seq<char>| #[trigger] self@.contains_key(k) implies !starts_with(k, prefix@) by {
                let j = choose|j: int| 0 <= j < self.pairs().len() && #[trigger] self.pairs()[j].0 == k;
            }
        }
        false
    }

    /// The keys that start with `prefix` with the metadata of their
    /// entries, in the order of the keys.
    pub fn scan(&self, prefix: &str) -> (r: Vec<(String, EntryMetadata)>)
        requires
            self.wf(),
        ensures
            r@.map_values(|x: (String, EntryMetadata)| (x.0@, x.1)) == self.pairs().filter(
                key_under(prefix@),
            ).map_values(|e: (Seq<char>, EntryView)| key_and_metadata(e)),
    {
        let ghost s = self.pairs();
        let mut r: Vec<(String, EntryMetadata)> = Vec::new();
        let mut i: usize = 0;
        proof {
            reveal(Seq::filter);
            assert(s.take(0) =~= Seq::<(Seq<char>, EntryView)>::empty());
        }
        while i < self.items.len()
            invariant
                s == self.pairs(),
                s.len() == self.items.len(),
                i <= s.len(),
                r@.map_values(|x: (String, EntryMetadata)| (x.0@, x.1)) == s.take(i as int).filter(
                    key_under(prefix@),
                ).map_values(|e: (Seq<char>, EntryView)| key_and_metadata(e)),
            decreases s.len() - i,
        {
            let item = &self.items[i];
            assert(s[i as int] == (item.0@, item.1@));
            let ghost before = r@;
            let keep = has_prefix(item.0.as_str(), prefix);
            if keep {
                r.push((item.0.clone(), item.1.metadata));
            }
            proof {
                reveal(Seq::filter);
                let t1 = s.take(i + 1);
                assert(t1.drop_last() =~= s.take(i as int));
                assert(t1.last() == s[i as int]);
                if keep {
                    assert(r@ == before.push(r@.last()));
                    assert(r@.map_values(|x: (String, EntryMetadata)| (x.0@, x.1)) =~= before.map_values(
                        |x: (String, EntryMetadata)| (x.0@, x.1),
                    ).push(key_and_metadata(s[i as int])));
                }
                assert(r@.map_values(|x: (String, EntryMetadata)| (x.0@, x.1)) =~= t1.filter(
                    key_under(prefix@),
                ).map_values(|e: (Seq<char>, EntryView)| key_and_metadata(e)));
            }
            i = i + 1;
        }
        assert(s.take(s.len() as int) =~= s);
        r
    }

    /// The keys whose entries are hard links, in increasing order.
    pub fn hard_link_keys(&self) -> (r: Vec<String>)
        requires
            self.wf(),
        ensures
            r.deep_view() == self.pairs().filter(pair_is_hard_link()).map_values(
                |e: (Seq<char>, EntryView)| e.0,
            ),
    {
        let ghost s = self.pairs();
        let mut r: Vec<String> = Vec::new();
        let mut i: usize = 0;
        proof {
            reveal(Seq::filter);
            assert(s.take(0) =~= Seq::<(Seq<char>, EntryView)>::empty());
        }
        while i < self.items.len()
            invariant
                s == self.pairs(),
                s.len() == self.items.len(),
                i <= s.len(),
                r.deep_view() == s.take(i as int).filter(pair_is_hard_link()).map_values(
                    |e: (Seq<char>, EntryView)| e.0,
                ),
            decreases s.len() - i,
        {
            let item = &self.items[i];
            assert(s[i as int] == (item.0@, item.1@));
            let ghost before = r.deep_view();
            let keep = item.1.is_hard_link();
            if keep {
                r.push(item.0.clone());
            }
            proof {
                reveal(Seq::filter);
                let t1 = s.take(i + 1);
                assert(t1.drop_last() =~= s.take(i as int));
                assert(t1.last() == s[i as int]);
                if keep {
                    assert(r.deep_view() =~= before.push(s[i as int].0));
                }
                assert(r.deep_view() =~= t1.filter(pair_is_hard_link()).map_values(
                    |e: (Seq<char>, EntryView)| e.0,
                ));
            }
            i = i + 1;
        }
        assert(s.take(s.len() as int) =~= s);
        r
    }

    /// A copy of the table.
    pub fn duplicate(&self) -> (r: Self)
        requires
            self.wf(),
        ensures
            r.wf(),
            r@ == self@,
            r.pairs() == self.pairs(),
    {
        let mut items: Vec<(String, ContainerEntry)> = Vec::new();
        let mut i: usize = 0;
        while i < self.items.len()
            invariant
                i <= self.items.len(),
                items@.map_values(|p: (String, ContainerEntry)| (p.0@, p.1@)) == self.pairs().take(i as int),
            decreases self.items.len() - i,
        {
            let item = &self.items[i];
            assert(self.pairs()[i as int] == (item.0@, item.1@));
            let ghost before = items@;
            let key = item.0.clone();
            let entry = item.1.duplicate();
            items.push((key, entry));
            assert(items@ == before.push((key, entry)));
            assert(self.pairs().take(i + 1) =~= self.pairs().take(i as int).push((key@, entry@)));
            i = i + 1;
            assert(items@.map_values(|p: (String, ContainerEntry)| (p.0@, p.1@)) =~= self.pairs().take(i as int));
        }
        let r = EntryTable { items };
        assert(r.pairs() =~= self.pairs());
        r
    }
}

} // verus!
