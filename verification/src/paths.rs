//! Paths inside the image: splitting, joining and normalizing them, and
//! recognizing whiteouts.

use vstd::prelude::*;
use crate::error::ContainerError;
use crate::image::{components, nonempty_component};
use crate::text::{
    chars_of, concat, ends_with_char, find_last, has_last_char, has_prefix, join_str, join_with,
    last_index_of, lemma_filter_all, lemma_filter_members, lemma_join_split, lemma_join_starts_with_first,
    lemma_last_index_of, lemma_split_join, lemma_split_on_nonempty, lemma_split_pieces, split_on,
    split_str, starts_with, string_of_range, with_char,
};

verus! {

/// The parent and the name of a path: the parts before and after its last
/// `/`, or nothing and the whole path where it has no `/`.
pub open spec fn parent_name(path: Seq<char>) -> (Seq<char>, Seq<char>) {
    let k = last_index_of(path, '/');
    if k >= 0 {
        (path.take(k), path.skip(k + 1))
    } else {
        (Seq::empty(), path)
    }
}

/// `name` under `parent`, or `name` alone where the parent is empty.
pub open spec fn joined(parent: Seq<char>, name: Seq<char>) -> Seq<char> {
    if parent.len() == 0 {
        name
    } else {
        parent.push('/') + name
    }
}

/// The path with a trailing `/`, the form of a directory key.
pub open spec fn dir_form(path: Seq<char>) -> Seq<char> {
    if ends_with_char(path, '/') {
        path
    } else {
        path.push('/')
    }
}

/// The prefix that marks a whiteout file name.
pub open spec fn whiteout_prefix() -> Seq<char> {
    seq!['.', 'w', 'h', '.']
}

/// The name of the whiteout that makes a directory opaque.
pub open spec fn opaque_marker() -> Seq<char> {
    seq!['.', 'w', 'h', '.', '.', 'w', 'h', '.', '.', 'o', 'p', 'q']
}

/// The name of the path is a whiteout.
pub open spec fn is_whiteout_path(path: Seq<char>) -> bool {
    starts_with(parent_name(path).1, whiteout_prefix())
}

/// A path component that names an entry: not empty, not `.`, not `..`.
pub open spec fn is_normal_component(c: Seq<char>) -> bool {
    c.len() > 0 && c != seq!['.'] && c != seq!['.', '.']
}

/// The component names an entry.
pub open spec fn normal_component() -> spec_fn(Seq<char>) -> bool {
    |c: Seq<char>| is_normal_component(c)
}

/// The key under which a layer's tar entry is stored: the normal components
/// of its path joined with `/`.
pub open spec fn normalized_tar_path(path: Seq<char>) -> Seq<char> {
    join_with(split_on(path, '/').filter(normal_component()), '/')
}

/// The components a link target is resolved from: none for an absolute
/// target or a link at the top, else those of the directory holding the link.
pub open spec fn link_base(parent: Seq<char>, target: Seq<char>) -> Seq<Seq<char>> {
    if starts_with(target, seq!['/']) || parent.len() == 0 {
        Seq::empty()
    } else {
        split_on(parent, '/')
    }
}

/// The components reached from `base` by walking `parts`: an empty part or
/// `.` stays, `..` goes up (`None` where there is nothing to go up from),
/// any other part goes down.
pub open spec fn link_walk(base: Seq<Seq<char>>, parts: Seq<Seq<char>>) -> Option<Seq<Seq<char>>>
    decreases parts.len(),
{
    if parts.len() == 0 {
        Some(base)
    } else {
        match link_walk(base, parts.drop_last()) {
            None => None,
            Some(st) => {
                let c = parts.last();
                if c.len() == 0 || c == seq!['.'] {
                    Some(st)
                } else if c == seq!['.', '.'] {
                    if st.len() == 0 {
                        None
                    } else {
                        Some(st.drop_last())
                    }
                } else {
                    Some(st.push(c))
                }
            },
        }
    }
}

/// The image path a link at a path under `parent` leads to, or `None` where
/// it leads above the image root.
pub open spec fn normalized_link(parent: Seq<char>, target: Seq<char>) -> Option<Seq<char>> {
    match link_walk(link_base(parent, target), split_on(target, '/')) {
        Some(st) => Some(join_with(st, '/')),
        None => None,
    }
}

/// The parent and the name of `path` (`rsplit_once('/')`, or `("", path)`).
pub fn split_parent_name(path: &str) -> (r: (String, String))
    ensures
        (r.0@, r.1@) == parent_name(path@),
{
    let cs = chars_of(path);
    match find_last(&cs, '/') {
        Some(k) => {
            proof {
                lemma_last_index_of(path@, '/');
            }
            let parent = string_of_range(&cs, 0, k);
            let name = string_of_range(&cs, k + 1, cs.len());
            assert(parent@ =~= path@.take(k as int));
            assert(name@ =~= path@.skip(k + 1));
            (parent, name)
        },
        None => (String::new(), path.to_owned()),
    }
}

/// `name` under `parent`.
pub fn join_path(parent: &str, name: &str) -> (r: String)
    ensures
        r@ == joined(parent@, name@),
{
    if parent.is_empty() {
        name.to_owned()
    } else {
        let p = with_char(parent, '/');
        concat(p.as_str(), name)
    }
}

/// The directory form of `path`: with a trailing `/`.
pub fn ensure_dir_path(path: &str) -> (r: String)
    ensures
        r@ == dir_form(path@),
{
    if has_last_char(path, '/') {
        path.to_owned()
    } else {
        with_char(path, '/')
    }
}

/// Whether the file name of `path` marks a whiteout.
pub fn is_whiteout(path: &str) -> (b: bool)
    ensures
        b == is_whiteout_path(path@),
{
    let (_, name) = split_parent_name(path);
    let prefix = ".wh.";
    proof {
        reveal_strlit(".wh.");
        assert(prefix@ =~= whiteout_prefix());
    }
    has_prefix(name.as_str(), prefix)
}

/// Whether `part` is a path component that names an entry.
pub fn is_normal(part: &str) -> (b: bool)
    ensures
        b == is_normal_component(part@),
{
    let cs = chars_of(part);
    if cs.len() == 0 {
        false
    } else if cs.len() == 1 && cs[0] == '.' {
        assert(part@ =~= seq!['.']);
        false
    } else if cs.len() == 2 && cs[0] == '.' && cs[1] == '.' {
        assert(part@ =~= seq!['.', '.']);
        false
    } else {
        assert(part@ != seq!['.'] ==> true);
        assert(cs@.len() != 1 || cs@[0] != '.');
        assert(part@ != seq!['.']);
        assert(part@ != seq!['.', '.']);
        true
    }
}

/// The key under which a layer stores an entry whose tar path is `path`.
pub fn normalize_tar_path(path: &str) -> (r: String)
    ensures
        r@ == normalized_tar_path(path@),
{
    let parts = split_str(path, '/');
    let ghost ps = parts.deep_view();
    let mut kept: Vec<String> = Vec::new();
    let mut i: usize = 0;
    proof {
        reveal(Seq::filter);
        assert(ps.take(0) =~= Seq::<Seq<char>>::empty());
        assert(kept.deep_view() =~= ps.take(0).filter(normal_component()));
    }
    while i < parts.len()
        invariant
            ps == parts.deep_view(),
            i <= parts.len(),
            kept.deep_view() == ps.take(i as int).filter(normal_component()),
        decreases parts.len() - i,
    {
        let ghost before = kept.deep_view();
        let keep = is_normal(parts[i].as_str());
        if keep {
            kept.push(parts[i].clone());
        }
        proof {
            reveal(Seq::filter);
            let t1 = ps.take(i + 1);
            assert(t1.drop_last() =~= ps.take(i as int));
            assert(t1.last() == ps[i as int]);
            if keep {
                assert(kept.deep_view() =~= before.push(ps[i as int]));
            } else {
                assert(kept.deep_view() =~= before);
            }
        }
        i = i + 1;
    }
    assert(ps.take(parts.len() as int) =~= ps);
    join_str(&kept, '/')
}

/// The image path that a link whose parent directory is `parent` and whose
/// target is `target` leads to. It fails where the target climbs above the
/// image root.
pub fn normalize_link_target(parent: &str, target: &str) -> (r: Result<String, ContainerError>)
    ensures
        match r {
            Ok(p) => normalized_link(parent@, target@) == Some(p@),
            Err(e) => normalized_link(parent@, target@).is_none()
                && e is LinkEscapesImageRoot,
        },
{
    let slash = "/";
    proof {
        reveal_strlit("/");
        assert(slash@ =~= seq!['/']);
    }
    let mut stack: Vec<String> = if has_prefix(target, slash) || parent.is_empty() {
        Vec::new()
    } else {
        split_str(parent, '/')
    };
    assert(stack.deep_view() =~= link_base(parent@, target@));
    let parts = split_str(target, '/');
    let ghost ps = parts.deep_view();
    let ghost base = link_base(parent@, target@);
    let mut i: usize = 0;
    assert(ps.take(0) =~= Seq::<Seq<char>>::empty());
    while i < parts.len()
        invariant
            ps == parts.deep_view(),
            ps == split_on(target@, '/'),
            base == link_base(parent@, target@),
            i <= parts.len(),
            link_walk(base, ps.take(i as int)) == Some(stack.deep_view()),
        decreases parts.len() - i,
    {
        let ghost before = stack.deep_view();
        let ghost t1 = ps.take(i + 1);
        assert(t1.drop_last() =~= ps.take(i as int));
        assert(t1.last() == ps[i as int]);
        let part = &parts[i];
        let cs = chars_of(part.as_str());
        if cs.len() == 0 || (cs.len() == 1 && cs[0] == '.') {
            proof {
                if cs.len() == 1 {
                    assert(part@ =~= seq!['.']);
                }
            }
        } else if cs.len() == 2 && cs[0] == '.' && cs[1] == '.' {
            assert(part@ =~= seq!['.', '.']);
            if stack.len() == 0 {
                proof {
                    assert(link_walk(base, t1).is_none());
                    lemma_walk_stays_none(base, ps, i as int + 1);
                    assert(ps.take(ps.len() as int) =~= ps);
                    assert(link_walk(base, ps).is_none());
                    assert(normalized_link(parent@, target@).is_none());
                }
                return Err(ContainerError::LinkEscapesImageRoot);
            }
            stack.pop();
            assert(stack.deep_view() =~= before.drop_last());
        } else {
            assert(part@ != seq!['.'] && part@ != seq!['.', '.']) by {
                if part@ == seq!['.'] {
                    assert(cs@.len() == 1 && cs@[0] == '.');
                }
                if part@ == seq!['.', '.'] {
                    assert(cs@.len() == 2 && cs@[0] == '.' && cs@[1] == '.');
                }
            }
            stack.push(part.clone());
            assert(stack.deep_view() =~= before.push(part@));
        }
        i = i + 1;
    }
    assert(ps.take(parts.len() as int) =~= ps);
    Ok(join_str(&stack, '/'))
}

/// Once the walk fails, walking further parts does not help.
proof fn lemma_walk_stays_none(base: Seq<Seq<char>>, ps: Seq<Seq<char>>, i: int)
    requires
        0 <= i <= ps.len(),
        link_walk(base, ps.take(i)).is_none(),
    ensures
        link_walk(base, ps.take(ps.len() as int)).is_none(),
    decreases ps.len() - i,
{
    if i < ps.len() {
        assert(ps.take(i + 1).drop_last() =~= ps.take(i));
        lemma_walk_stays_none(base, ps, i + 1);
    }
}

/// The normal components of a path: each is not empty, not `.` or `..`,
/// and holds no `/`.
proof fn lemma_normal_components(path: Seq<char>)
    ensures
        forall|i: int| 0 <= i < split_on(path, '/').filter(normal_component()).len() ==> {
            let c = #[trigger] split_on(path, '/').filter(normal_component())[i];
            is_normal_component(c) && !c.contains('/')
        },
{
    let parts = split_on(path, '/');
    let f = parts.filter(normal_component());
    lemma_filter_members(parts, normal_component());
    lemma_split_pieces(path, '/');
    lemma_filter_sorted_like(parts, normal_component());
    assert forall|i: int| 0 <= i < f.len() implies {
        let c = #[trigger] f[i];
        is_normal_component(c) && !c.contains('/')
    } by {
        assert(normal_component()(f[i]));
        let j = choose|j: int| 0 <= j < parts.len() && parts[j] == f[i];
        assert(!parts[j].contains('/'));
    }
}

/// Each element a filter keeps is an element of the sequence.
pub proof fn lemma_filter_sorted_like<A>(s: Seq<A>, pred: spec_fn(A) -> bool)
    ensures
        forall|i: int| 0 <= i < s.filter(pred).len() ==> s.contains(#[trigger] s.filter(pred)[i]),
    decreases s.len(),
{
    reveal(Seq::filter);
    if s.len() > 0 {
        let d = s.drop_last();
        lemma_filter_sorted_like(d, pred);
        let f = s.filter(pred);
        let fd = d.filter(pred);
        assert forall|i: int| 0 <= i < f.len() implies s.contains(#[trigger] f[i]) by {
            if i < fd.len() {
                let j = choose|j: int| 0 <= j < d.len() && d[j] == fd[i];
                assert(s[j] == d[j]);
            } else {
                assert(s[s.len() - 1] == f[i]);
            }
        }
    }
}

/// Normalizing a layer's tar path a second time changes nothing.
pub proof fn law_normalized_tar_path_idempotent(path: Seq<char>)
    ensures
        normalized_tar_path(normalized_tar_path(path)) == normalized_tar_path(path),
{
    let f = split_on(path, '/').filter(normal_component());
    let n = join_with(f, '/');
    lemma_normal_components(path);
    if f.len() == 0 {
        reveal(Seq::filter);
        assert(n =~= Seq::<char>::empty());
        assert(split_on(n, '/') =~= seq![Seq::<char>::empty()]);
        let t = split_on(n, '/');
        assert(t.drop_last() =~= Seq::<Seq<char>>::empty());
        assert(t.drop_last().filter(normal_component()) =~= Seq::<Seq<char>>::empty());
        assert(!normal_component()(t.last()));
        assert(t.filter(normal_component()) =~= Seq::<Seq<char>>::empty());
    } else {
        lemma_split_join(f, '/');
        lemma_filter_all(f, normal_component());
    }
}

/// A non-empty normalized tar path is its non-empty components joined with
/// `/`, and it has at least one.
pub proof fn lemma_normalized_tar_path_canonical(path: Seq<char>)
    ensures
        normalized_tar_path(path).len() > 0 ==> components(normalized_tar_path(path)).len() > 0
            && join_with(components(normalized_tar_path(path)), '/') == normalized_tar_path(path),
{
    let f = split_on(path, '/').filter(normal_component());
    let n = join_with(f, '/');
    lemma_normal_components(path);
    if f.len() == 0 {
        reveal(Seq::filter);
        assert(n =~= Seq::<char>::empty());
    } else {
        lemma_split_join(f, '/');
        assert forall|i: int| 0 <= i < f.len() implies nonempty_component()(#[trigger] f[i]) by {
            assert(is_normal_component(f[i]));
        }
        lemma_filter_all(f, nonempty_component());
        assert(components(n) == f);
    }
}

/// Joining two non-empty lists of pieces joins their joins with the
/// separator.
pub proof fn lemma_join_concat(a: Seq<Seq<char>>, b: Seq<Seq<char>>, sep: char)
    requires
        a.len() >= 1,
        b.len() >= 1,
    ensures
        join_with(a + b, sep) == join_with(a, sep).push(sep) + join_with(b, sep),
    decreases b.len(),
{
    assert((a + b).drop_last() =~= a + b.drop_last());
    assert((a + b).last() == b.last());
    if b.len() == 1 {
        assert(a + b.drop_last() =~= a);
        assert(join_with(a + b, sep) =~= join_with(a, sep).push(sep) + join_with(b, sep));
    } else {
        lemma_join_concat(a, b.drop_last(), sep);
        assert(join_with(a + b, sep) =~= join_with(a, sep).push(sep) + join_with(b, sep));
    }
}

/// Walking two lists of parts one after the other is walking the first,
/// then the second from where the first ends.
proof fn lemma_walk_concat(base: Seq<Seq<char>>, a: Seq<Seq<char>>, b: Seq<Seq<char>>)
    ensures
        link_walk(base, a + b) == match link_walk(base, a) {
            None => None,
            Some(st) => link_walk(st, b),
        },
    decreases b.len(),
{
    if b.len() == 0 {
        assert(a + b =~= a);
    } else {
        lemma_walk_concat(base, a, b.drop_last());
        assert((a + b).drop_last() =~= a + b.drop_last());
        assert((a + b).last() == b.last());
    }
}

/// Walking normal components from the image root goes down each of them.
proof fn lemma_walk_normal(p: Seq<Seq<char>>)
    requires
        forall|i: int| 0 <= i < p.len() ==> is_normal_component(#[trigger] p[i]),
    ensures
        link_walk(Seq::empty(), p) == Some(p),
    decreases p.len(),
{
    if p.len() > 0 {
        lemma_walk_normal(p.drop_last());
        assert(is_normal_component(p[p.len() - 1]));
        assert(p.drop_last().push(p.last()) =~= p);
    }
}

/// A link target is resolved from the directory holding the link: an
/// absolute target leads where it leads from the image root, whatever the
/// directory; a relative target under a directory made of normal
/// components leads where the directory and the target, joined with `/`,
/// lead from the image root.
pub proof fn law_link_target_relative_to_parent(parent: Seq<char>, target: Seq<char>)
    ensures
        starts_with(target, seq!['/']) ==> normalized_link(parent, target) == normalized_link(
            Seq::empty(),
            target,
        ),
        parent.len() > 0 && !starts_with(target, seq!['/']) && (forall|i: int|
            0 <= i < split_on(parent, '/').len() ==> is_normal_component(#[trigger] split_on(parent, '/')[i]))
            ==> normalized_link(parent, target) == normalized_link(Seq::empty(), parent.push('/') + target),
{
    let p = split_on(parent, '/');
    let t = split_on(target, '/');
    if parent.len() > 0 && !starts_with(target, seq!['/']) && (forall|i: int|
        0 <= i < p.len() ==> is_normal_component(#[trigger] p[i])) {
        lemma_split_on_nonempty(parent, '/');
        lemma_split_on_nonempty(target, '/');
        lemma_split_pieces(parent, '/');
        lemma_split_pieces(target, '/');
        lemma_join_split(parent, '/');
        lemma_join_split(target, '/');
        lemma_join_concat(p, t, '/');
        assert forall|i: int| 0 <= i < (p + t).len() implies !(#[trigger] (p + t)[i]).contains('/') by {
            if i < p.len() {
                assert((p + t)[i] == p[i]);
            } else {
                assert((p + t)[i] == t[i - p.len()]);
            }
        }
        lemma_split_join(p + t, '/');
        lemma_walk_normal(p);
        lemma_walk_concat(Seq::empty(), p, t);
        assert(link_base(Seq::empty(), parent.push('/') + target) == Seq::<Seq<char>>::empty());
        assert(link_base(parent, target) == p);
    }
}

/// A normalized tar path is relative: it does not start with `/`.
pub proof fn lemma_normalized_tar_path_relative(path: Seq<char>)
    ensures
        !starts_with(normalized_tar_path(path), seq!['/']),
{
    let f = split_on(path, '/').filter(normal_component());
    lemma_normal_components(path);
    if f.len() > 0 {
        lemma_join_starts_with_first(f, '/');
        let n = normalized_tar_path(path);
        if starts_with(n, seq!['/']) {
            assert(n.subrange(0, 1)[0] == n[0]);
            assert(n[0] == '/');
            assert(n.subrange(0, f[0].len() as int) == f[0]);
            assert(f[0][0] == n[0]);
            assert(f[0].contains('/'));
        }
    }
}

/// The whiteout `.wh.<name>` under `parent` is named that way.
pub proof fn lemma_parent_name_of_joined(parent: Seq<char>, name: Seq<char>)
    requires
        !name.contains('/'),
    ensures
        parent_name(joined(parent, name)) == (parent, name),
{
    let j = joined(parent, name);
    if parent.len() == 0 {
        assert(last_index_of(name, '/') == -1) by {
            lemma_last_index_of(name, '/');
            if last_index_of(name, '/') >= 0 {
                assert(name.contains('/'));
            }
        }
    } else {
        lemma_last_index_of(j, '/');
        let k = last_index_of(j, '/');
        assert(j[parent.len() as int] == '/');
        assert(k >= parent.len()) by {
            if k < parent.len() {
                assert(parent.len() < j.len());
            }
        }
        assert(k == parent.len()) by {
            if k > parent.len() {
                assert(j[k] == name[k - parent.len() - 1]);
                assert(name.contains('/'));
            }
        }
        assert(j.take(k) =~= parent);
        assert(j.skip(k + 1) =~= name);
    }
}

} // verus!
