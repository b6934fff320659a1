//! Character-level models of the string operations this library performs on
//! paths, and executable helpers proved against them.

use vstd::prelude::*;

verus! {

/// `p` is a prefix of `s`.
pub open spec fn starts_with(s: Seq<char>, p: Seq<char>) -> bool {
    p.len() <= s.len() && s.subrange(0, p.len() as int) == p
}

/// `s` is not empty and its last character is `c`.
pub open spec fn ends_with_char(s: Seq<char>, c: char) -> bool {
    s.len() > 0 && s.last() == c
}

/// `s` without all of its leading `c` characters.
pub open spec fn trim_start_char(s: Seq<char>, c: char) -> Seq<char>
    decreases s.len(),
{
    if s.len() > 0 && s[0] == c {
        trim_start_char(s.drop_first(), c)
    } else {
        s
    }
}

/// `s` without all of its trailing `c` characters.
pub open spec fn trim_end_char(s: Seq<char>, c: char) -> Seq<char>
    decreases s.len(),
{
    if s.len() > 0 && s.last() == c {
        trim_end_char(s.drop_last(), c)
    } else {
        s
    }
}

/// The pieces of `s` between occurrences of `sep`, as `str::split` gives them:
/// one more piece than there are separators, empty pieces included.
pub open spec fn split_on(s: Seq<char>, sep: char) -> Seq<Seq<char>>
    decreases s.len(),
{
    if s.len() == 0 {
        seq![Seq::empty()]
    } else {
        let parts = split_on(s.drop_last(), sep);
        if s.last() == sep {
            parts.push(Seq::empty())
        } else {
            parts.update(parts.len() - 1, parts.last().push(s.last()))
        }
    }
}

/// The pieces joined with `sep` between each two of them.
pub open spec fn join_with(parts: Seq<Seq<char>>, sep: char) -> Seq<char>
    decreases parts.len(),
{
    if parts.len() == 0 {
        Seq::empty()
    } else if parts.len() == 1 {
        parts[0]
    } else {
        join_with(parts.drop_last(), sep).push(sep) + parts.last()
    }
}

/// The index of the first `c` in `s`, or -1 where there is none.
pub open spec fn first_index_of(s: Seq<char>, c: char) -> int
    decreases s.len(),
{
    if s.len() == 0 {
        -1
    } else if s[0] == c {
        0
    } else if first_index_of(s.drop_first(), c) < 0 {
        -1
    } else {
        first_index_of(s.drop_first(), c) + 1
    }
}

/// The index of the last `c` in `s`, or -1 where there is none.
pub open spec fn last_index_of(s: Seq<char>, c: char) -> int
    decreases s.len(),
{
    if s.len() == 0 {
        -1
    } else if s.last() == c {
        s.len() - 1
    } else {
        last_index_of(s.drop_last(), c)
    }
}

/// `s` strictly precedes `t` in the lexicographic order of their characters'
/// code points (the order of `String`'s `Ord`).
pub open spec fn lex_lt(s: Seq<char>, t: Seq<char>) -> bool
    decreases s.len(),
{
    if s.len() == 0 {
        t.len() > 0
    } else if t.len() == 0 {
        false
    } else if s[0] != t[0] {
        s[0] < t[0]
    } else {
        lex_lt(s.drop_first(), t.drop_first())
    }
}

pub proof fn lemma_split_on_nonempty(s: Seq<char>, sep: char)
    ensures
        split_on(s, sep).len() >= 1,
    decreases s.len(),
{
    if s.len() > 0 {
        lemma_split_on_nonempty(s.drop_last(), sep);
    }
}

proof fn lemma_join_extend_last(parts: Seq<Seq<char>>, sep: char, x: char)
    requires
        parts.len() >= 1,
    ensures
        join_with(parts.update(parts.len() - 1, parts.last().push(x)), sep) == join_with(parts, sep).push(x),
{
    let q = parts.update(parts.len() - 1, parts.last().push(x));
    if parts.len() > 1 {
        assert(q.drop_last() =~= parts.drop_last());
        assert(join_with(q, sep) =~= join_with(parts, sep).push(x));
    }
}

/// Joining the pieces of a split gives the string back.
pub proof fn lemma_join_split(s: Seq<char>, sep: char)
    ensures
        join_with(split_on(s, sep), sep) == s,
    decreases s.len(),
{
    if s.len() > 0 {
        let parts = split_on(s.drop_last(), sep);
        lemma_join_split(s.drop_last(), sep);
        lemma_split_on_nonempty(s.drop_last(), sep);
        if s.last() == sep {
            let q = parts.push(Seq::empty());
            assert(q.drop_last() =~= parts);
            assert(join_with(q, sep) =~= s.drop_last().push(sep));
            assert(s.drop_last().push(sep) =~= s);
        } else {
            lemma_join_extend_last(parts, sep, s.last());
            assert(s.drop_last().push(s.last()) =~= s);
        }
    } else {
        assert(join_with(split_on(s, sep), sep) =~= s);
    }
}

/// No piece of a split holds the separator.
pub proof fn lemma_split_pieces(s: Seq<char>, sep: char)
    ensures
        forall|i: int| 0 <= i < split_on(s, sep).len() ==> !(#[trigger] split_on(s, sep)[i]).contains(sep),
    decreases s.len(),
{
    if s.len() > 0 {
        lemma_split_pieces(s.drop_last(), sep);
        lemma_split_on_nonempty(s.drop_last(), sep);
        let parts = split_on(s.drop_last(), sep);
        if s.last() != sep {
            let q = split_on(s, sep);
            assert forall|i: int| 0 <= i < q.len() implies !(#[trigger] q[i]).contains(sep) by {
                if i == q.len() - 1 {
                    if q[i].contains(sep) {
                        let j = choose|j: int| 0 <= j < q[i].len() && q[i][j] == sep;
                        if j < parts.last().len() {
                            assert(parts.last()[j] == sep);
                            assert(parts.last().contains(sep));
                        }
                    }
                } else {
                    assert(q[i] == parts[i]);
                }
            }
        } else {
            let q = split_on(s, sep);
            assert forall|i: int| 0 <= i < q.len() implies !(#[trigger] q[i]).contains(sep) by {
                if i < q.len() - 1 {
                    assert(q[i] == parts[i]);
                }
            }
        }
    }
}

proof fn lemma_split_append(x: Seq<char>, l: Seq<char>, sep: char)
    requires
        !l.contains(sep),
    ensures
        split_on(x + l, sep) == split_on(x, sep).update(
            split_on(x, sep).len() - 1,
            split_on(x, sep).last() + l,
        ),
    decreases l.len(),
{
    lemma_split_on_nonempty(x, sep);
    let px = split_on(x, sep);
    if l.len() == 0 {
        assert(x + l =~= x);
        assert(px.last() + l =~= px.last());
        assert(px.update(px.len() - 1, px.last() + l) =~= px);
    } else {
        let l1 = l.drop_last();
        assert(!l1.contains(sep)) by {
            if l1.contains(sep) {
                let j = choose|j: int| 0 <= j < l1.len() && l1[j] == sep;
                assert(l[j] == sep);
            }
        }
        lemma_split_append(x, l1, sep);
        assert((x + l).drop_last() =~= x + l1);
        assert((x + l).last() == l.last());
        assert(l.last() != sep) by {
            assert(l[l.len() - 1] == l.last());
        }
        lemma_split_on_nonempty(x + l1, sep);
        assert(split_on(x + l, sep) =~= px.update(px.len() - 1, px.last() + l)) by {
            assert(px.last() + l1 + seq![l.last()] =~= px.last() + l);
            assert((px.last() + l1).push(l.last()) =~= px.last() + l);
        }
    }
}

/// Splitting pieces joined with a separator they do not hold gives the
/// pieces back.
pub proof fn lemma_split_join(parts: Seq<Seq<char>>, sep: char)
    requires
        parts.len() >= 1,
        forall|i: int| 0 <= i < parts.len() ==> !(#[trigger] parts[i]).contains(sep),
    ensures
        split_on(join_with(parts, sep), sep) == parts,
    decreases parts.len(),
{
    if parts.len() == 1 {
        lemma_split_append(Seq::empty(), parts[0], sep);
        assert(Seq::<char>::empty() + parts[0] =~= parts[0]);
        assert(split_on(Seq::<char>::empty(), sep) =~= seq![Seq::<char>::empty()]);
        assert(split_on(parts[0], sep) =~= parts);
    } else {
        let q = parts.drop_last();
        lemma_split_join(q, sep);
        let jq = join_with(q, sep);
        lemma_split_on_nonempty(jq, sep);
        assert(split_on(jq.push(sep), sep) =~= q.push(Seq::empty())) by {
            assert(jq.push(sep).drop_last() =~= jq);
        }
        lemma_split_append(jq.push(sep), parts.last(), sep);
        assert(split_on(join_with(parts, sep), sep) =~= parts);
    }
}

/// The pieces a filter keeps satisfy the predicate.
pub proof fn lemma_filter_members<A>(s: Seq<A>, pred: spec_fn(A) -> bool)
    ensures
        forall|i: int| 0 <= i < s.filter(pred).len() ==> pred(#[trigger] s.filter(pred)[i]),
    decreases s.len(),
{
    reveal(Seq::filter);
    if s.len() > 0 {
        lemma_filter_members(s.drop_last(), pred);
    }
}

/// A filter keeps a sequence whose elements all satisfy the predicate.
pub proof fn lemma_filter_all<A>(s: Seq<A>, pred: spec_fn(A) -> bool)
    requires
        forall|i: int| 0 <= i < s.len() ==> pred(#[trigger] s[i]),
    ensures
        s.filter(pred) == s,
    decreases s.len(),
{
    reveal(Seq::filter);
    if s.len() > 0 {
        lemma_filter_all(s.drop_last(), pred);
        assert(pred(s[s.len() - 1]));
        assert(s.drop_last().push(s.last()) =~= s);
    } else {
        assert(s.filter(pred) =~= s);
    }
}

/// The pieces joined start with the first piece.
pub proof fn lemma_join_starts_with_first(parts: Seq<Seq<char>>, sep: char)
    requires
        parts.len() >= 1,
    ensures
        starts_with(join_with(parts, sep), parts[0]),
    decreases parts.len(),
{
    if parts.len() > 1 {
        lemma_join_starts_with_first(parts.drop_last(), sep);
        let j = join_with(parts.drop_last(), sep);
        assert(join_with(parts, sep).subrange(0, parts[0].len() as int) =~= j.subrange(0, parts[0].len() as int));
    } else {
        assert(join_with(parts, sep).subrange(0, parts[0].len() as int) =~= parts[0]);
    }
}

pub proof fn lemma_last_index_of(s: Seq<char>, c: char)
    ensures
        -1 <= last_index_of(s, c) < s.len(),
        last_index_of(s, c) >= 0 ==> s[last_index_of(s, c)] == c,
        forall|i: int| last_index_of(s, c) < i < s.len() ==> s[i] != c,
    decreases s.len(),
{
    if s.len() > 0 && s.last() != c {
        lemma_last_index_of(s.drop_last(), c);
        assert forall|i: int| last_index_of(s, c) < i < s.len() implies s[i] != c by {
            if i < s.len() - 1 {
                assert(s.drop_last()[i] == s[i]);
            }
        }
    }
}

pub proof fn lemma_lex_irreflexive(s: Seq<char>)
    ensures
        !lex_lt(s, s),
    decreases s.len(),
{
    if s.len() > 0 {
        lemma_lex_irreflexive(s.drop_first());
    }
}

pub proof fn lemma_lex_transitive(s: Seq<char>, t: Seq<char>, u: Seq<char>)
    requires
        lex_lt(s, t),
        lex_lt(t, u),
    ensures
        lex_lt(s, u),
    decreases s.len(),
{
    if s.len() > 0 && t.len() > 0 && u.len() > 0 && s[0] == t[0] && t[0] == u[0] {
        lemma_lex_transitive(s.drop_first(), t.drop_first(), u.drop_first());
    }
}

pub proof fn lemma_lex_total(s: Seq<char>, t: Seq<char>)
    ensures
        s == t || lex_lt(s, t) || lex_lt(t, s),
    decreases s.len(),
{
    if s.len() > 0 && t.len() > 0 {
        if s[0] == t[0] {
            lemma_lex_total(s.drop_first(), t.drop_first());
            if s.drop_first() == t.drop_first() {
                assert(s =~= seq![s[0]] + s.drop_first());
                assert(t =~= seq![t[0]] + t.drop_first());
            }
        }
    } else if s.len() == 0 && t.len() == 0 {
        assert(s =~= t);
    }
}

/// `String::push`: appends `c` to the end of `s`.
#[verifier::external_body]
pub fn push_char(s: &mut String, c: char)
    ensures
        final(s)@ == old(s)@.push(c),
{
    s.push(c);
}

/// The characters of `s`, in order.
pub fn chars_of(s: &str) -> (r: Vec<char>)
    ensures
        r@ == s@,
{
    let mut r: Vec<char> = Vec::new();
    for c in it: s.chars()
        invariant
            it.seq() == s@,
            r@ == it.seq().take(it.index()),
    {
        r.push(c);
    }
    r
}

/// The string of the characters `cs[lo..hi]`.
pub fn string_of_range(cs: &Vec<char>, lo: usize, hi: usize) -> (r: String)
    requires
        lo <= hi <= cs.len(),
    ensures
        r@ == cs@.subrange(lo as int, hi as int),
{
    let mut r = String::new();
    let mut i = lo;
    while i < hi
        invariant
            lo <= i <= hi <= cs.len(),
            r@ == cs@.subrange(lo as int, i as int),
        decreases hi - i,
    {
        push_char(&mut r, cs[i]);
        i = i + 1;
        assert(r@ =~= cs@.subrange(lo as int, i as int));
    }
    r
}

/// `s` followed by `t`.
pub fn concat(s: &str, t: &str) -> (r: String)
    ensures
        r@ == s@ + t@,
{
    let mut r = s.to_owned();
    r.append(t);
    r
}

/// `s` followed by the character `c`.
pub fn with_char(s: &str, c: char) -> (r: String)
    ensures
        r@ == s@.push(c),
{
    let mut r = s.to_owned();
    push_char(&mut r, c);
    r
}

/// Whether `p` is a prefix of `s`.
pub fn has_prefix(s: &str, p: &str) -> (b: bool)
    ensures
        b == starts_with(s@, p@),
{
    let sc = chars_of(s);
    let pc = chars_of(p);
    if pc.len() > sc.len() {
        return false;
    }
    let mut i: usize = 0;
    while i < pc.len()
        invariant
            pc.len() <= sc.len(),
            i <= pc.len(),
            sc@ == s@,
            pc@ == p@,
            forall|j: int| 0 <= j < i ==> sc@[j] == pc@[j],
        decreases pc.len() - i,
    {
        if sc[i] != pc[i] {
            assert(s@.subrange(0, p@.len() as int)[i as int] != p@[i as int]);
            return false;
        }
        i = i + 1;
    }
    assert(s@.subrange(0, p@.len() as int) =~= p@);
    true
}

/// Whether `s` ends with the character `c`.
pub fn has_last_char(s: &str, c: char) -> (b: bool)
    ensures
        b == ends_with_char(s@, c),
{
    let sc = chars_of(s);
    sc.len() > 0 && sc[sc.len() - 1] == c
}

proof fn lemma_trim_start_skip(s: Seq<char>, c: char, i: int)
    requires
        0 <= i <= s.len(),
        forall|j: int| 0 <= j < i ==> s[j] == c,
    ensures
        trim_start_char(s, c) == trim_start_char(s.skip(i), c),
    decreases i,
{
    if i > 0 {
        lemma_trim_start_skip(s.drop_first(), c, i - 1);
        assert(s.drop_first().skip(i - 1) =~= s.skip(i));
    } else {
        assert(s.skip(0) =~= s);
    }
}

/// `s` without its leading `c` characters (`trim_start_matches`).
pub fn trim_start(s: &str, c: char) -> (r: String)
    ensures
        r@ == trim_start_char(s@, c),
{
    let sc = chars_of(s);
    let mut i: usize = 0;
    while i < sc.len() && sc[i] == c
        invariant
            i <= sc.len(),
            sc@ == s@,
            forall|j: int| 0 <= j < i ==> sc@[j] == c,
        decreases sc.len() - i,
    {
        i = i + 1;
    }
    proof {
        lemma_trim_start_skip(s@, c, i as int);
        assert(sc@.subrange(i as int, sc@.len() as int) =~= s@.skip(i as int));
    }
    string_of_range(&sc, i, sc.len())
}

proof fn lemma_trim_end_take(s: Seq<char>, c: char, k: int)
    requires
        0 <= k <= s.len(),
        forall|j: int| k <= j < s.len() ==> s[j] == c,
    ensures
        trim_end_char(s, c) == trim_end_char(s.take(k), c),
    decreases s.len() - k,
{
    if k < s.len() {
        lemma_trim_end_take(s.drop_last(), c, k);
        assert(s.drop_last().take(k) =~= s.take(k));
    } else {
        assert(s.take(k) =~= s);
    }
}

/// `s` without its trailing `c` characters (`trim_end_matches`).
pub fn trim_end(s: &str, c: char) -> (r: String)
    ensures
        r@ == trim_end_char(s@, c),
{
    let sc = chars_of(s);
    let mut k: usize = sc.len();
    while k > 0 && sc[k - 1] == c
        invariant
            k <= sc.len(),
            sc@ == s@,
            forall|j: int| k <= j < sc@.len() ==> sc@[j] == c,
        decreases k,
    {
        k = k - 1;
    }
    proof {
        lemma_trim_end_take(s@, c, k as int);
        assert(sc@.subrange(0, k as int) =~= s@.take(k as int));
    }
    string_of_range(&sc, 0, k)
}

/// The pieces of `s` between occurrences of `sep` (`str::split`).
pub fn split_str(s: &str, sep: char) -> (r: Vec<String>)
    ensures
        r.deep_view() == split_on(s@, sep),
{
    let sc = chars_of(s);
    let mut done: Vec<String> = Vec::new();
    let mut start: usize = 0;
    let mut i: usize = 0;
    assert(sc@.take(0) =~= Seq::<char>::empty());
    assert(done.deep_view().push(sc@.subrange(0, 0)) =~= seq![Seq::<char>::empty()]);
    while i < sc.len()
        invariant
            sc@ == s@,
            start <= i <= sc.len(),
            done.deep_view().push(sc@.subrange(start as int, i as int)) == split_on(
                sc@.take(i as int),
                sep,
            ),
        decreases sc.len() - i,
    {
        let ghost prev = sc@.take(i as int);
        assert(sc@.take(i + 1).drop_last() =~= prev);
        if sc[i] == sep {
            let piece = string_of_range(&sc, start, i);
            done.push(piece);
            start = i + 1;
            assert(done.deep_view() =~= split_on(prev, sep));
            assert(sc@.subrange(start as int, i + 1) =~= Seq::<char>::empty());
        } else {
            assert(sc@.subrange(start as int, i + 1) =~= sc@.subrange(start as int, i as int).push(
                sc@[i as int],
            ));
        }
        i = i + 1;
        assert(done.deep_view().push(sc@.subrange(start as int, i as int)) =~= split_on(
            sc@.take(i as int),
            sep,
        ));
    }
    let last = string_of_range(&sc, start, sc.len());
    done.push(last);
    assert(sc@.take(sc.len() as int) =~= s@);
    assert(done.deep_view() =~= split_on(s@, sep));
    done
}

/// The strings of `parts` joined with `sep` between each two (`join`).
pub fn join_str(parts: &Vec<String>, sep: char) -> (r: String)
    ensures
        r@ == join_with(parts.deep_view(), sep),
{
    let mut r = String::new();
    let mut i: usize = 0;
    while i < parts.len()
        invariant
            i <= parts.len(),
            r@ == join_with(parts.deep_view().take(i as int), sep),
        decreases parts.len() - i,
    {
        let ghost pv = parts.deep_view();
        assert(pv.take(i + 1).drop_last() =~= pv.take(i as int));
        if i > 0 {
            push_char(&mut r, sep);
        }
        r.append(parts[i].as_str());
        i = i + 1;
        assert(pv.take(i as int).last() == parts[i - 1]@);
        if i == 1 {
            assert(r@ =~= join_with(pv.take(i as int), sep));
        }
    }
    assert(parts.deep_view().take(parts.len() as int) =~= parts.deep_view());
    r
}

/// The strings of `parts[lo..]` joined with `sep` between each two.
pub fn join_from(parts: &Vec<String>, lo: usize, sep: char) -> (r: String)
    requires
        lo <= parts.len(),
    ensures
        r@ == join_with(parts.deep_view().skip(lo as int), sep),
{
    let mut rest: Vec<String> = Vec::new();
    let mut i: usize = lo;
    while i < parts.len()
        invariant
            lo <= i <= parts.len(),
            rest.deep_view() == parts.deep_view().subrange(lo as int, i as int),
        decreases parts.len() - i,
    {
        let ghost before = rest.deep_view();
        let piece = parts[i].clone();
        rest.push(piece);
        assert(rest.deep_view() =~= before.push(parts.deep_view()[i as int]));
        i = i + 1;
        assert(rest.deep_view() =~= parts.deep_view().subrange(lo as int, i as int));
    }
    assert(parts.deep_view().subrange(lo as int, parts.len() as int) =~= parts.deep_view().skip(lo as int));
    join_str(&rest, sep)
}

/// The index of the last `c` in `s`, if any.
pub fn find_last(sc: &Vec<char>, c: char) -> (r: Option<usize>)
    ensures
        match r {
            Some(k) => k as int == last_index_of(sc@, c),
            None => last_index_of(sc@, c) == -1,
        },
{
    proof {
        lemma_last_index_of(sc@, c);
    }
    let mut k: usize = sc.len();
    while k > 0
        invariant
            k <= sc.len(),
            forall|j: int| k <= j < sc@.len() ==> sc@[j] != c,
            last_index_of(sc@, c) < k,
            -1 <= last_index_of(sc@, c),
            last_index_of(sc@, c) >= 0 ==> sc@[last_index_of(sc@, c)] == c,
            forall|j: int| last_index_of(sc@, c) < j < sc@.len() ==> sc@[j] != c,
        decreases k,
    {
        if sc[k - 1] == c {
            return Some(k - 1);
        }
        k = k - 1;
    }
    None
}

proof fn lemma_first_index_of(s: Seq<char>, c: char)
    ensures
        -1 <= first_index_of(s, c) < s.len(),
        first_index_of(s, c) >= 0 ==> s[first_index_of(s, c)] == c,
        forall|i: int| 0 <= i < s.len() && (first_index_of(s, c) < 0 || i < first_index_of(s, c)) ==> s[i] != c,
    decreases s.len(),
{
    if s.len() > 0 && s[0] != c {
        lemma_first_index_of(s.drop_first(), c);
        assert forall|i: int| 0 <= i < s.len() && (first_index_of(s, c) < 0 || i < first_index_of(s, c)) implies s[i] != c by {
            if i > 0 {
                assert(s.drop_first()[i - 1] == s[i]);
            }
        }
    }
}

/// The index of the first `c` in `cs`, if any.
pub fn find_first(cs: &Vec<char>, c: char) -> (r: Option<usize>)
    ensures
        match r {
            Some(k) => k as int == first_index_of(cs@, c) && k < cs.len(),
            None => first_index_of(cs@, c) == -1,
        },
{
    proof {
        lemma_first_index_of(cs@, c);
    }
    let mut k: usize = 0;
    while k < cs.len()
        invariant
            k <= cs.len(),
            forall|j: int| 0 <= j < k ==> cs@[j] != c,
            -1 <= first_index_of(cs@, c) < cs@.len(),
            first_index_of(cs@, c) >= 0 ==> cs@[first_index_of(cs@, c)] == c,
            forall|i: int| 0 <= i < cs@.len() && (first_index_of(cs@, c) < 0 || i < first_index_of(cs@, c)) ==> cs@[i] != c,
        decreases cs.len() - k,
    {
        if cs[k] == c {
            return Some(k);
        }
        k = k + 1;
    }
    None
}

/// Whether `s` and `t` hold the same characters.
pub fn same_str(s: &str, t: &str) -> (b: bool)
    ensures
        b == (s@ == t@),
{
    let sc = chars_of(s);
    let tc = chars_of(t);
    if sc.len() != tc.len() {
        return false;
    }
    let mut i: usize = 0;
    while i < sc.len()
        invariant
            sc@ == s@,
            tc@ == t@,
            sc.len() == tc.len(),
            i <= sc.len(),
            forall|j: int| 0 <= j < i ==> sc@[j] == tc@[j],
        decreases sc.len() - i,
    {
        if sc[i] != tc[i] {
            return false;
        }
        i = i + 1;
    }
    assert(s@ =~= t@);
    true
}

/// Whether `s` precedes `t` in the order of `String`.
pub fn str_lt(s: &str, t: &str) -> (b: bool)
    ensures
        b == lex_lt(s@, t@),
{
    let sc = chars_of(s);
    let tc = chars_of(t);
    let mut i: usize = 0;
    assert(s@.skip(0) =~= s@ && t@.skip(0) =~= t@);
    while i < sc.len() && i < tc.len() && sc[i] == tc[i]
        invariant
            sc@ == s@,
            tc@ == t@,
            i <= sc.len(),
            i <= tc.len(),
            lex_lt(s@, t@) == lex_lt(s@.skip(i as int), t@.skip(i as int)),
        decreases sc.len() - i,
    {
        assert(s@.skip(i as int).drop_first() =~= s@.skip(i + 1));
        assert(t@.skip(i as int).drop_first() =~= t@.skip(i + 1));
        i = i + 1;
    }
    if i == sc.len() {
        i < tc.len()
    } else if i == tc.len() {
        false
    } else {
        sc[i] < tc[i]
    }
}

} // verus!
