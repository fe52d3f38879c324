//! The match engine: scores and ranks application-index entries against a
//! query. Matching is ASCII-case-insensitive; an entry matches when the
//! trimmed query occurs inside its display name, or at least as a fuzzy
//! subsequence of it. Matches are ordered by: substring match before
//! subsequence-only match, then earlier match offset, then shorter name,
//! then case-folded name, and finally index position, which makes the
//! ranking a deterministic function of the index and the query.

use vstd::prelude::*;
use crate::index::{admitted_entry, lemma_hidden_never_indexed, spec_build, AppEntry, AppEntryV,
    AppIndex, RawEntryV};
use crate::sanitize::{trim, trim_vec};
use crate::text::{char_off, lemma_char_off_index, lower, lower_vec, str_chars};

verus! {

/// `p` occurs in `t` starting at position `i`.
pub open spec fn is_substring_at(t: Seq<char>, p: Seq<char>, i: int) -> bool {
    0 <= i && i + p.len() <= t.len() && t.subrange(i, i + p.len()) == p
}

/// `p` occurs somewhere in `t`.
pub open spec fn has_substring(t: Seq<char>, p: Seq<char>) -> bool {
    exists|i: int| is_substring_at(t, p, i)
}

/// The earliest position where `p` occurs in `t` (meaningful only when it
/// occurs at all).
pub open spec fn sub_off(t: Seq<char>, p: Seq<char>) -> int
    decreases t.len(),
{
    if is_substring_at(t, p, 0) {
        0
    } else if t.len() == 0 {
        0
    } else {
        1 + sub_off(t.drop_first(), p)
    }
}

/// All characters of `p` appear in `t` in order, not necessarily adjacent.
pub open spec fn is_subseq(p: Seq<char>, t: Seq<char>) -> bool
    decreases p.len() + t.len(),
{
    if p.len() == 0 {
        true
    } else if t.len() == 0 {
        false
    } else if p.first() == t.first() {
        is_subseq(p.drop_first(), t.drop_first())
    } else {
        is_subseq(p, t.drop_first())
    }
}

/// The query, trimmed and case-folded, as it is matched against names.
pub open spec fn norm_query(q: Seq<char>) -> Seq<char> {
    lower(trim(q))
}

/// Whether the normalized query `nq` matches display name `name`.
pub open spec fn matched(nq: Seq<char>, name: Seq<char>) -> bool {
    is_subseq(nq, lower(name))
}

/// The sort key of one matching entry; smaller keys rank higher.
pub ghost struct MatchKey {
    pub kind: int,
    pub off: int,
    pub nlen: int,
    pub lowname: Seq<char>,
    pub idx: int,
}

/// The sort key of entry `i` for normalized query `nq`: substring matches
/// (kind 0) before subsequence-only matches (kind 1), then the match start
/// offset, then the name length, then the folded name itself, and last the
/// index position as a stable tie-break.
pub open spec fn key_of(entries: Seq<AppEntryV>, nq: Seq<char>, i: int) -> MatchKey {
    let nn = lower(entries[i].name);
    MatchKey {
        kind: if has_substring(nn, nq) {
            0
        } else {
            1
        },
        off: if has_substring(nn, nq) {
            sub_off(nn, nq)
        } else if nq.len() > 0 {
            char_off(nn, nq.first())
        } else {
            0
        },
        nlen: nn.len() as int,
        lowname: nn,
        idx: i,
    }
}

/// Strict lexicographic order on character sequences.
pub open spec fn lex_lt(x: Seq<char>, y: Seq<char>) -> bool
    decreases x.len() + y.len(),
{
    if y.len() == 0 {
        false
    } else if x.len() == 0 {
        true
    } else if x.first() != y.first() {
        x.first() < y.first()
    } else {
        lex_lt(x.drop_first(), y.drop_first())
    }
}

/// Strict order on sort keys: lexicographic over kind, offset, name length,
/// folded name, and index position.
pub open spec fn key_lt(a: MatchKey, b: MatchKey) -> bool {
    a.kind < b.kind || (a.kind == b.kind && (a.off < b.off || (a.off == b.off && (a.nlen < b.nlen
        || (a.nlen == b.nlen && (lex_lt(a.lowname, b.lowname) || (a.lowname == b.lowname && a.idx
        < b.idx)))))))
}

proof fn lemma_lex_lt_connected(x: Seq<char>, y: Seq<char>)
    ensures
        x == y || lex_lt(x, y) || lex_lt(y, x),
    decreases x.len() + y.len(),
{
    if y.len() == 0 && x.len() == 0 {
        assert(x =~= y);
    } else if x.len() > 0 && y.len() > 0 && x.first() == y.first() {
        lemma_lex_lt_connected(x.drop_first(), y.drop_first());
        if x.drop_first() == y.drop_first() {
            assert forall|i: int| 0 <= i < x.len() implies x[i] == y[i] by {
                if i > 0 {
                    assert(x[i] == x.drop_first()[i - 1]);
                    assert(y[i] == y.drop_first()[i - 1]);
                }
            }
            assert(x =~= y);
        }
    }
}

proof fn lemma_lex_lt_trans(x: Seq<char>, y: Seq<char>, z: Seq<char>)
    requires
        lex_lt(x, y),
        lex_lt(y, z),
    ensures
        lex_lt(x, z),
    decreases x.len() + y.len() + z.len(),
{
    if x.len() > 0 && y.len() > 0 && z.len() > 0 && x.first() == y.first() && y.first()
        == z.first() {
        lemma_lex_lt_trans(x.drop_first(), y.drop_first(), z.drop_first());
    }
}

proof fn lemma_key_lt_total(a: MatchKey, b: MatchKey)
    requires
        a.idx != b.idx,
    ensures
        key_lt(a, b) || key_lt(b, a),
{
    lemma_lex_lt_connected(a.lowname, b.lowname);
}

proof fn lemma_key_lt_trans(a: MatchKey, b: MatchKey, c: MatchKey)
    requires
        key_lt(a, b),
        key_lt(b, c),
    ensures
        key_lt(a, c),
{
    if a.kind == b.kind && b.kind == c.kind && a.off == b.off && b.off == c.off && a.nlen == b.nlen
        && b.nlen == c.nlen && lex_lt(a.lowname, b.lowname) && lex_lt(b.lowname, c.lowname) {
        lemma_lex_lt_trans(a.lowname, b.lowname, c.lowname);
    }
}

/// `v` placed into `s` directly before the first element it ranks above.
pub open spec fn insert_sorted(s: Seq<int>, v: int, entries: Seq<AppEntryV>, nq: Seq<char>) -> Seq<
    int,
>
    decreases s.len(),
{
    if s.len() == 0 {
        seq![v]
    } else if key_lt(key_of(entries, nq, v), key_of(entries, nq, s.first())) {
        seq![v] + s
    } else {
        seq![s.first()] + insert_sorted(s.drop_first(), v, entries, nq)
    }
}

proof fn lemma_insert_sorted_split(
    s: Seq<int>,
    v: int,
    entries: Seq<AppEntryV>,
    nq: Seq<char>,
    j: int,
)
    requires
        0 <= j <= s.len(),
        forall|k: int|
            0 <= k < j ==> !key_lt(key_of(entries, nq, v), key_of(entries, nq, #[trigger] s[k])),
        j == s.len() || key_lt(key_of(entries, nq, v), key_of(entries, nq, s[j])),
    ensures
        insert_sorted(s, v, entries, nq) == s.subrange(0, j) + seq![v] + s.subrange(
            j,
            s.len() as int,
        ),
    decreases s.len(),
{
    if s.len() == 0 {
        assert(insert_sorted(s, v, entries, nq) =~= s.subrange(0, 0) + seq![v] + s.subrange(0, 0));
    } else if key_lt(key_of(entries, nq, v), key_of(entries, nq, s.first())) {
        assert(j == 0);
        assert(insert_sorted(s, v, entries, nq) =~= s.subrange(0, 0) + seq![v] + s.subrange(
            0,
            s.len() as int,
        ));
    } else {
        assert(j >= 1);
        let d = s.drop_first();
        assert forall|k: int|
            0 <= k < j - 1 implies !key_lt(
            key_of(entries, nq, v),
            key_of(entries, nq, #[trigger] d[k]),
        ) by {
            assert(d[k] == s[k + 1]);
        }
        if j - 1 < d.len() {
            assert(d[j - 1] == s[j]);
        }
        lemma_insert_sorted_split(d, v, entries, nq, j - 1);
        assert(seq![s.first()] + (d.subrange(0, j - 1) + seq![v] + d.subrange(
            j - 1,
            d.len() as int,
        )) =~= s.subrange(0, j) + seq![v] + s.subrange(j, s.len() as int));
    }
}

/// The ranked positions of the matching entries among the first `n`.
pub open spec fn spec_rank_ids(entries: Seq<AppEntryV>, nq: Seq<char>, n: int) -> Seq<int>
    decreases n,
{
    if n <= 0 {
        Seq::empty()
    } else {
        let prev = spec_rank_ids(entries, nq, n - 1);
        if matched(nq, entries[n - 1].name) {
            insert_sorted(prev, n - 1, entries, nq)
        } else {
            prev
        }
    }
}

/// The ranked matches for raw query `q`: the matching entries, best first.
/// An empty (or all-whitespace) query yields no matches at all.
pub open spec fn spec_rank(entries: Seq<AppEntryV>, q: Seq<char>) -> Seq<AppEntryV> {
    let nq = norm_query(q);
    if nq.len() == 0 {
        Seq::empty()
    } else {
        spec_rank_ids(entries, nq, entries.len() as int).map_values(|i: int| entries[i])
    }
}

proof fn lemma_sub_off_index(t: Seq<char>, p: Seq<char>, k: int)
    requires
        is_substring_at(t, p, k),
        forall|j: int| 0 <= j < k ==> !is_substring_at(t, p, j),
    ensures
        sub_off(t, p) == k,
    decreases k,
{
    if k > 0 {
        let d = t.drop_first();
        assert(d =~= t.subrange(1, t.len() as int));
        assert forall|j: int| 0 <= j < k - 1 implies !is_substring_at(d, p, j) by {
            if is_substring_at(d, p, j) {
                assert(t.subrange(j + 1, j + 1 + p.len()) =~= d.subrange(j, j + p.len()));
                assert(is_substring_at(t, p, j + 1));
            }
        }
        assert(t.subrange(k, k + p.len()) =~= d.subrange(k - 1, k - 1 + p.len()));
        assert(is_substring_at(d, p, k - 1));
        lemma_sub_off_index(d, p, k - 1);
        assert(t.len() > 0);
        assert(!is_substring_at(t, p, 0));
    }
}

/// Whether `p@` occurs in `t@` starting at `i`.
fn check_at(t: &Vec<char>, p: &Vec<char>, i: usize) -> (r: bool)
    requires
        i + p@.len() <= t@.len(),
    ensures
        r == is_substring_at(t@, p@, i as int),
{
    let tl = t.len();
    let mut j: usize = 0;
    while j < p.len()
        invariant
            j <= p@.len(),
            i + p@.len() <= t@.len(),
            tl == t@.len(),
            forall|m: int| 0 <= m < j ==> t@[i + m] == p@[m],
        decreases p@.len() - j,
    {
        if t[i + j] != p[j] {
            proof {
                assert(t@.subrange(i as int, i + p@.len())[j as int] == t@[i + j]);
            }
            return false;
        }
        j = j + 1;
    }
    proof {
        assert(t@.subrange(i as int, i + p@.len()) =~= p@);
    }
    true
}

/// The earliest occurrence of `p@` in `t@`, if any.
fn find_sub(t: &Vec<char>, p: &Vec<char>) -> (r: Option<usize>)
    requires
        p@.len() > 0,
    ensures
        (match r {
            Option::Some(k) => is_substring_at(t@, p@, k as int) && k as int == sub_off(t@, p@),
            Option::None => !has_substring(t@, p@),
        }),
{
    if p.len() > t.len() {
        proof {
            assert forall|i: int| !is_substring_at(t@, p@, i) by {}
        }
        return Option::None;
    }
    let tl = t.len();
    let bound = tl - p.len();
    let mut i: usize = 0;
    while i <= bound
        invariant
            0 < p@.len() <= t@.len(),
            tl == t@.len(),
            bound == t@.len() - p@.len(),
            i <= bound + 1,
            forall|j: int| 0 <= j < i ==> !is_substring_at(t@, p@, j),
        decreases bound + 1 - i,
    {
        if check_at(t, p, i) {
            proof {
                lemma_sub_off_index(t@, p@, i as int);
            }
            return Option::Some(i);
        }
        i = i + 1;
    }
    proof {
        assert forall|j: int| !is_substring_at(t@, p@, j) by {
            if 0 <= j && j + p@.len() <= t@.len() {
                assert(j < i);
            }
        }
    }
    Option::None
}

/// The earliest position of `c` in `t@`, if any.
fn find_char(t: &Vec<char>, c: char) -> (r: Option<usize>)
    ensures
        (match r {
            Option::Some(k) => k < t@.len() && t@[k as int] == c && k as int == char_off(t@, c),
            Option::None => forall|j: int| 0 <= j < t@.len() ==> t@[j] != c,
        }),
{
    let mut i: usize = 0;
    while i < t.len()
        invariant
            i <= t@.len(),
            forall|j: int| 0 <= j < i ==> t@[j] != c,
        decreases t@.len() - i,
    {
        if t[i] == c {
            proof {
                lemma_char_off_index(t@, c, i as int);
            }
            return Option::Some(i);
        }
        i = i + 1;
    }
    Option::None
}

/// Whether `p@` is a subsequence of `t@`.
fn is_subseq_exec(p: &Vec<char>, t: &Vec<char>) -> (r: bool)
    ensures
        r == is_subseq(p@, t@),
{
    let mut pi: usize = 0;
    let mut ti: usize = 0;
    proof {
        assert(p@.skip(0) =~= p@);
        assert(t@.skip(0) =~= t@);
    }
    while pi < p.len() && ti < t.len()
        invariant
            pi <= p@.len(),
            ti <= t@.len(),
            is_subseq(p@, t@) == is_subseq(p@.skip(pi as int), t@.skip(ti as int)),
        decreases t@.len() - ti,
    {
        proof {
            let ps = p@.skip(pi as int);
            let ts = t@.skip(ti as int);
            assert(ps.first() == p@[pi as int]);
            assert(ts.first() == t@[ti as int]);
            assert(ps.drop_first() =~= p@.skip(pi as int + 1));
            assert(ts.drop_first() =~= t@.skip(ti as int + 1));
        }
        if p[pi] == t[ti] {
            pi = pi + 1;
        }
        ti = ti + 1;
    }
    proof {
        if pi >= p@.len() {
            assert(p@.skip(pi as int).len() == 0);
        } else {
            assert(t@.skip(ti as int).len() == 0);
            assert(p@.skip(pi as int).len() > 0);
        }
    }
    pi == p.len()
}

/// Strict lexicographic comparison of `x@` and `y@`.
fn lex_lt_exec(x: &Vec<char>, y: &Vec<char>) -> (r: bool)
    ensures
        r == lex_lt(x@, y@),
{
    let mut i: usize = 0;
    proof {
        assert(x@.skip(0) =~= x@);
        assert(y@.skip(0) =~= y@);
    }
    while i < x.len() && i < y.len() && x[i] == y[i]
        invariant
            i <= x@.len(),
            i <= y@.len(),
            lex_lt(x@, y@) == lex_lt(x@.skip(i as int), y@.skip(i as int)),
        decreases x@.len() - i,
    {
        proof {
            let xs = x@.skip(i as int);
            let ys = y@.skip(i as int);
            assert(xs.first() == x@[i as int]);
            assert(ys.first() == y@[i as int]);
            assert(xs.drop_first() =~= x@.skip(i as int + 1));
            assert(ys.drop_first() =~= y@.skip(i as int + 1));
        }
        i = i + 1;
    }
    proof {
        let xs = x@.skip(i as int);
        let ys = y@.skip(i as int);
        if i < x@.len() {
            assert(xs.first() == x@[i as int]);
        }
        if i < y@.len() {
            assert(ys.first() == y@[i as int]);
        }
    }
    if i >= y.len() {
        false
    } else if i >= x.len() {
        true
    } else {
        x[i] < y[i]
    }
}

/// One matching entry with its precomputed sort-key fields.
struct Scored {
    idx: usize,
    is_sub: bool,
    off: usize,
    lowname: Vec<char>,
}

/// The key that a `Scored` record denotes.
spec fn scored_key(sc: Scored) -> MatchKey {
    MatchKey {
        kind: if sc.is_sub {
            0
        } else {
            1
        },
        off: sc.off as int,
        nlen: sc.lowname@.len() as int,
        lowname: sc.lowname@,
        idx: sc.idx as int,
    }
}

/// A `Scored` record is faithful to entry `sc.idx` of `entries` for `nq`.
spec fn scored_wf(sc: Scored, entries: Seq<AppEntryV>, nq: Seq<char>) -> bool {
    0 <= sc.idx < entries.len() && matched(nq, entries[sc.idx as int].name) && scored_key(sc)
        == key_of(entries, nq, sc.idx as int)
}

fn scored_lt(a: &Scored, b: &Scored) -> (r: bool)
    ensures
        r == key_lt(scored_key(*a), scored_key(*b)),
{
    let ak: usize = if a.is_sub {
        0
    } else {
        1
    };
    let bk: usize = if b.is_sub {
        0
    } else {
        1
    };
    if ak != bk {
        return ak < bk;
    }
    if a.off != b.off {
        return a.off < b.off;
    }
    if a.lowname.len() != b.lowname.len() {
        return a.lowname.len() < b.lowname.len();
    }
    if lex_lt_exec(&a.lowname, &b.lowname) {
        return true;
    }
    if lex_lt_exec(&b.lowname, &a.lowname) {
        return false;
    }
    proof {
        lemma_lex_lt_connected(a.lowname@, b.lowname@);
    }
    a.idx < b.idx
}

/// Ranks the index entries against `query`: the result holds exactly the
/// matching entries, best match first, and is a deterministic function of
/// the query and the index. Substring matches come before subsequence-only
/// matches; ties fall back to match offset, name length, folded name, and
/// index order.
pub fn rank(query: &str, index: &AppIndex) -> (r: Vec<AppEntry>)
    ensures
        r@.map_values(|e: AppEntry| e@) == spec_rank(index@, query@),
        forall|a: int|
            0 <= a < r@.len() ==> matched(norm_query(query@), (#[trigger] r@[a])@.name),
        forall|a: int, b: int|
            0 <= a < b < r@.len() ==> key_lt(
                key_of(index@, norm_query(query@), spec_rank_ids(
                    index@,
                    norm_query(query@),
                    index@.len() as int,
                )[a]),
                key_of(index@, norm_query(query@), spec_rank_ids(
                    index@,
                    norm_query(query@),
                    index@.len() as int,
                )[b]),
            ),
{
    let ghost entries = index@;
    let qchars = str_chars(query);
    let trimmed = trim_vec(&qchars);
    let nq = lower_vec(&trimmed);
    let ghost gnq = norm_query(query@);
    proof {
        assert(nq@ == gnq);
    }
    let mut sorted: Vec<Scored> = Vec::new();
    if nq.len() == 0 {
        let r: Vec<AppEntry> = Vec::new();
        proof {
            assert(r@.map_values(|e: AppEntry| e@) =~= spec_rank(index@, query@));
        }
        return r;
    }
    let n = index.len();
    let mut i: usize = 0;
    while i < n
        invariant
            n == entries.len(),
            entries == index@,
            nq@ == gnq,
            nq@.len() > 0,
            i <= n,
            sorted@.map_values(|sc: Scored| sc.idx as int) == spec_rank_ids(
                entries,
                gnq,
                i as int,
            ),
            forall|k: int| 0 <= k < sorted@.len() ==> (#[trigger] sorted@[k]).idx < i,
            forall|k: int| 0 <= k < sorted@.len() ==> scored_wf(#[trigger] sorted@[k], entries, gnq),
            forall|a: int, b: int|
                0 <= a < b < sorted@.len() ==> key_lt(
                    scored_key(#[trigger] sorted@[a]),
                    scored_key(#[trigger] sorted@[b]),
                ),
        decreases n - i,
    {
        let e = index.get(i);
        let nn = lower_vec(&str_chars(e.name.as_str()));
        proof {
            assert(nn@ == lower(entries[i as int].name));
        }
        if is_subseq_exec(&nq, &nn) {
            let (is_sub, off): (bool, usize) = match find_sub(&nn, &nq) {
                Option::Some(o) => (true, o),
                Option::None => {
                    let o = match find_char(&nn, nq[0]) {
                        Option::Some(o) => o,
                        Option::None => {
                            proof {
                                assert(is_subseq(nq@, nn@));
                                assert(nq@.first() == nq@[0]);
                                lemma_subseq_first_occurs(nq@, nn@);
                                assert(false);
                            }
                            0
                        },
                    };
                    (false, o)
                },
            };
            let sc = Scored { idx: i, is_sub, off, lowname: nn };
            proof {
                assert(scored_wf(sc, entries, gnq));
            }
            let mut j: usize = 0;
            while j < sorted.len() && !scored_lt(&sc, &sorted[j])
                invariant
                    j <= sorted@.len(),
                    forall|k: int|
                        0 <= k < j ==> !key_lt(scored_key(sc), scored_key(#[trigger] sorted@[k])),
                decreases sorted@.len() - j,
            {
                j = j + 1;
            }
            let ghost old_sorted = sorted@;
            proof {
                lemma_insert_sorted_split(
                    old_sorted.map_values(|sc2: Scored| sc2.idx as int),
                    i as int,
                    entries,
                    gnq,
                    j as int,
                );
            }
            sorted.insert(j, sc);
            proof {
                let ids_old = old_sorted.map_values(|sc2: Scored| sc2.idx as int);
                let ids_new = sorted@.map_values(|sc2: Scored| sc2.idx as int);
                assert(sorted@ =~= old_sorted.subrange(0, j as int) + seq![sc]
                    + old_sorted.subrange(j as int, old_sorted.len() as int));
                assert(ids_new =~= ids_old.subrange(0, j as int) + seq![i as int]
                    + ids_old.subrange(j as int, ids_old.len() as int));
                assert forall|k: int|
                    0 <= k < j implies key_lt(
                    scored_key(old_sorted[k]),
                    scored_key(sc),
                ) by {
                    lemma_key_lt_total(scored_key(old_sorted[k]), scored_key(sc));
                }
                assert forall|a: int, b: int|
                    0 <= a < b < sorted@.len() implies key_lt(
                    scored_key(#[trigger] sorted@[a]),
                    scored_key(#[trigger] sorted@[b]),
                ) by {
                    if a == j && b > j {
                        if b > j + 1 {
                            lemma_key_lt_trans(
                                scored_key(sc),
                                scored_key(old_sorted[j as int]),
                                scored_key(old_sorted[b - 1]),
                            );
                        }
                    }
                }
                let ghost cur = spec_rank_ids(entries, gnq, i as int + 1);
                assert(cur == insert_sorted(ids_old, i as int, entries, gnq));
            }
            i = i + 1;
        } else {
            proof {
                assert(spec_rank_ids(entries, gnq, i as int + 1) == spec_rank_ids(
                    entries,
                    gnq,
                    i as int,
                ));
            }
            i = i + 1;
        }
    }
    let mut r: Vec<AppEntry> = Vec::new();
    let ghost ids = spec_rank_ids(entries, gnq, entries.len() as int);
    let mut m: usize = 0;
    while m < sorted.len()
        invariant
            entries == index@,
            ids == spec_rank_ids(entries, gnq, entries.len() as int),
            sorted@.map_values(|sc: Scored| sc.idx as int) == ids,
            forall|k: int| 0 <= k < sorted@.len() ==> scored_wf(#[trigger] sorted@[k], entries, gnq),
            m <= sorted@.len(),
            r@.len() == m,
            forall|k: int| 0 <= k < m ==> (#[trigger] r@[k])@ == entries[ids[k]],
        decreases sorted@.len() - m,
    {
        let sc_idx = sorted[m].idx;
        proof {
            assert(sorted@.map_values(|sc: Scored| sc.idx as int)[m as int] == sc_idx as int);
        }
        r.push(index.get(sc_idx).duplicate());
        m = m + 1;
    }
    proof {
        assert(r@.map_values(|e: AppEntry| e@) =~= ids.map_values(|i2: int| entries[i2]));
        assert forall|a: int|
            0 <= a < r@.len() implies matched(gnq, (#[trigger] r@[a])@.name) by {
            let sc = sorted@[a];
            assert(scored_wf(sc, entries, gnq));
            assert(r@[a]@ == entries[ids[a]]);
            assert(ids[a] == sc.idx as int);
        }
        assert forall|a: int, b: int|
            0 <= a < b < r@.len() implies key_lt(
            key_of(entries, gnq, ids[a]),
            key_of(entries, gnq, ids[b]),
        ) by {
            assert(scored_key(sorted@[a]) == key_of(entries, gnq, ids[a]));
            assert(scored_key(sorted@[b]) == key_of(entries, gnq, ids[b]));
        }
    }
    r
}

proof fn lemma_insert_sorted_membership(s: Seq<int>, v: int, entries: Seq<AppEntryV>, nq: Seq<char>)
    ensures
        insert_sorted(s, v, entries, nq).len() == s.len() + 1,
        forall|k: int|
            0 <= k < insert_sorted(s, v, entries, nq).len() ==> (#[trigger] insert_sorted(
                s,
                v,
                entries,
                nq,
            )[k]) == v || s.contains(insert_sorted(s, v, entries, nq)[k]),
        insert_sorted(s, v, entries, nq).contains(v),
        forall|k: int|
            0 <= k < s.len() ==> insert_sorted(s, v, entries, nq).contains(#[trigger] s[k]),
    decreases s.len(),
{
    let r = insert_sorted(s, v, entries, nq);
    if s.len() == 0 {
        assert(r[0] == v);
    } else if key_lt(key_of(entries, nq, v), key_of(entries, nq, s.first())) {
        assert forall|k: int| 0 <= k < r.len() implies (#[trigger] r[k]) == v || s.contains(
            r[k],
        ) by {
            if k > 0 {
                assert(r[k] == s[k - 1]);
            }
        }
        assert(r[0] == v);
        assert forall|k: int| 0 <= k < s.len() implies r.contains(#[trigger] s[k]) by {
            assert(r[k + 1] == s[k]);
        }
    } else {
        let d = s.drop_first();
        lemma_insert_sorted_membership(d, v, entries, nq);
        let rd = insert_sorted(d, v, entries, nq);
        assert forall|k: int| 0 <= k < r.len() implies (#[trigger] r[k]) == v || s.contains(
            r[k],
        ) by {
            if k == 0 {
                assert(r[0] == s[0]);
                assert(s.contains(s[0]));
            } else {
                assert(r[k] == rd[k - 1]);
                if rd[k - 1] != v {
                    assert(d.contains(rd[k - 1]));
                    let m = choose|m: int| 0 <= m < d.len() && d[m] == rd[k - 1];
                    assert(s[m + 1] == d[m]);
                    assert(s.contains(s[m + 1]));
                }
            }
        }
        let mv = choose|m: int| 0 <= m < rd.len() && rd[m] == v;
        assert(r[mv + 1] == v);
        assert forall|k: int| 0 <= k < s.len() implies r.contains(#[trigger] s[k]) by {
            if k == 0 {
                assert(r[0] == s[0]);
            } else {
                assert(d[k - 1] == s[k]);
                assert(rd.contains(d[k - 1]));
                let m = choose|m: int| 0 <= m < rd.len() && rd[m] == d[k - 1];
                assert(r[m + 1] == s[k]);
            }
        }
    }
}

proof fn lemma_rank_ids_valid(entries: Seq<AppEntryV>, nq: Seq<char>, n: int)
    requires
        n <= entries.len(),
    ensures
        forall|k: int|
            0 <= k < spec_rank_ids(entries, nq, n).len() ==> 0 <= (#[trigger] spec_rank_ids(
                entries,
                nq,
                n,
            )[k]) < n && matched(nq, entries[spec_rank_ids(entries, nq, n)[k]].name),
    decreases n,
{
    if n > 0 {
        lemma_rank_ids_valid(entries, nq, n - 1);
        let prev = spec_rank_ids(entries, nq, n - 1);
        if matched(nq, entries[n - 1].name) {
            lemma_insert_sorted_membership(prev, n - 1, entries, nq);
            let r = spec_rank_ids(entries, nq, n);
            assert forall|k: int| 0 <= k < r.len() implies 0 <= (#[trigger] r[k]) < n && matched(
                nq,
                entries[r[k]].name,
            ) by {
                if r[k] != n - 1 {
                    assert(prev.contains(r[k]));
                    let m = choose|m: int| 0 <= m < prev.len() && prev[m] == r[k];
                }
            }
        }
    }
}

proof fn lemma_insert_sorted_sorted(s: Seq<int>, v: int, entries: Seq<AppEntryV>, nq: Seq<char>)
    requires
        forall|a: int, b: int|
            0 <= a < b < s.len() ==> key_lt(
                key_of(entries, nq, #[trigger] s[a]),
                key_of(entries, nq, #[trigger] s[b]),
            ),
        forall|k: int| 0 <= k < s.len() ==> (#[trigger] s[k]) != v,
    ensures
        forall|a: int, b: int|
            0 <= a < b < insert_sorted(s, v, entries, nq).len() ==> key_lt(
                key_of(entries, nq, #[trigger] insert_sorted(s, v, entries, nq)[a]),
                key_of(entries, nq, #[trigger] insert_sorted(s, v, entries, nq)[b]),
            ),
    decreases s.len(),
{
    let r = insert_sorted(s, v, entries, nq);
    let kv = key_of(entries, nq, v);
    if s.len() == 0 {
    } else if key_lt(kv, key_of(entries, nq, s.first())) {
        assert forall|a: int, b: int|
            0 <= a < b < r.len() implies key_lt(
            key_of(entries, nq, #[trigger] r[a]),
            key_of(entries, nq, #[trigger] r[b]),
        ) by {
            assert(r[b] == s[b - 1]);
            if a == 0 {
                if b > 1 {
                    lemma_key_lt_trans(
                        kv,
                        key_of(entries, nq, s[0]),
                        key_of(entries, nq, s[b - 1]),
                    );
                }
            } else {
                assert(r[a] == s[a - 1]);
            }
        }
    } else {
        let d = s.drop_first();
        assert forall|a: int, b: int|
            0 <= a < b < d.len() implies key_lt(
            key_of(entries, nq, #[trigger] d[a]),
            key_of(entries, nq, #[trigger] d[b]),
        ) by {
            assert(d[a] == s[a + 1]);
            assert(d[b] == s[b + 1]);
        }
        assert forall|k: int| 0 <= k < d.len() implies (#[trigger] d[k]) != v by {
            assert(d[k] == s[k + 1]);
        }
        lemma_insert_sorted_sorted(d, v, entries, nq);
        lemma_insert_sorted_membership(d, v, entries, nq);
        let rd = insert_sorted(d, v, entries, nq);
        lemma_key_lt_total(kv, key_of(entries, nq, s.first()));
        assert forall|a: int, b: int|
            0 <= a < b < r.len() implies key_lt(
            key_of(entries, nq, #[trigger] r[a]),
            key_of(entries, nq, #[trigger] r[b]),
        ) by {
            if a == 0 {
                assert(r[0] == s[0]);
                assert(r[b] == rd[b - 1]);
                if rd[b - 1] == v {
                    assert(key_lt(key_of(entries, nq, s[0]), kv));
                } else {
                    assert(d.contains(rd[b - 1]));
                    let m = choose|m: int| 0 <= m < d.len() && d[m] == rd[b - 1];
                    assert(s[m + 1] == d[m]);
                }
            } else {
                assert(r[a] == rd[a - 1]);
                assert(r[b] == rd[b - 1]);
            }
        }
    }
}

proof fn lemma_rank_ids_sorted(entries: Seq<AppEntryV>, nq: Seq<char>, n: int)
    requires
        n <= entries.len(),
    ensures
        forall|a: int, b: int|
            0 <= a < b < spec_rank_ids(entries, nq, n).len() ==> key_lt(
                key_of(entries, nq, #[trigger] spec_rank_ids(entries, nq, n)[a]),
                key_of(entries, nq, #[trigger] spec_rank_ids(entries, nq, n)[b]),
            ),
    decreases n,
{
    if n > 0 {
        lemma_rank_ids_sorted(entries, nq, n - 1);
        lemma_rank_ids_valid(entries, nq, n - 1);
        let prev = spec_rank_ids(entries, nq, n - 1);
        if matched(nq, entries[n - 1].name) {
            assert forall|k: int| 0 <= k < prev.len() implies (#[trigger] prev[k]) != n - 1 by {}
            lemma_insert_sorted_sorted(prev, n - 1, entries, nq);
        }
    }
}

/// Substring matches always precede subsequence-only matches: if a ranked
/// entry holds the query as a substring of its folded name, so does every
/// entry ranked before it.
pub proof fn lemma_substring_matches_first(entries: Seq<AppEntryV>, q: Seq<char>, a: int, b: int)
    requires
        0 <= a < b < spec_rank(entries, q).len(),
        has_substring(lower(spec_rank(entries, q)[b].name), norm_query(q)),
    ensures
        has_substring(lower(spec_rank(entries, q)[a].name), norm_query(q)),
{
    let nq = norm_query(q);
    lemma_rank_ids_sorted(entries, nq, entries.len() as int);
    lemma_rank_ids_valid(entries, nq, entries.len() as int);
    let ids = spec_rank_ids(entries, nq, entries.len() as int);
    assert(spec_rank(entries, q)[a] == entries[ids[a]]);
    assert(spec_rank(entries, q)[b] == entries[ids[b]]);
    assert(key_lt(key_of(entries, nq, ids[a]), key_of(entries, nq, ids[b])));
}

proof fn lemma_lex_lt_irrefl(x: Seq<char>)
    ensures
        !lex_lt(x, x),
    decreases x.len(),
{
    if x.len() > 0 {
        lemma_lex_lt_irrefl(x.drop_first());
    }
}

/// No index entry appears more than once among the ranked matches.
pub proof fn lemma_rank_no_duplicates(entries: Seq<AppEntryV>, q: Seq<char>, a: int, b: int)
    requires
        0 <= a < b < spec_rank(entries, q).len(),
    ensures
        spec_rank_ids(entries, norm_query(q), entries.len() as int)[a] != spec_rank_ids(
            entries,
            norm_query(q),
            entries.len() as int,
        )[b],
{
    let nq = norm_query(q);
    lemma_rank_ids_sorted(entries, nq, entries.len() as int);
    let ids = spec_rank_ids(entries, nq, entries.len() as int);
    if ids[a] == ids[b] {
        assert(key_lt(key_of(entries, nq, ids[a]), key_of(entries, nq, ids[b])));
        lemma_lex_lt_irrefl(key_of(entries, nq, ids[a]).lowname);
        assert(false);
    }
}

proof fn lemma_rank_ids_complete(entries: Seq<AppEntryV>, nq: Seq<char>, n: int)
    requires
        n <= entries.len(),
    ensures
        forall|i: int|
            0 <= i < n && matched(nq, entries[i].name) ==> spec_rank_ids(
                entries,
                nq,
                n,
            ).contains(i),
    decreases n,
{
    if n > 0 {
        lemma_rank_ids_complete(entries, nq, n - 1);
        let prev = spec_rank_ids(entries, nq, n - 1);
        let r = spec_rank_ids(entries, nq, n);
        if matched(nq, entries[n - 1].name) {
            lemma_insert_sorted_membership(prev, n - 1, entries, nq);
            assert forall|i: int|
                0 <= i < n && matched(nq, entries[i].name) implies r.contains(i) by {
                if i < n - 1 {
                    assert(prev.contains(i));
                    let m = choose|m: int| 0 <= m < prev.len() && prev[m] == i;
                    assert(r.contains(prev[m]));
                }
            }
        }
    }
}

/// Every matching index entry appears among the ranked matches of a
/// non-empty query.
pub proof fn lemma_rank_complete(entries: Seq<AppEntryV>, q: Seq<char>, i: int)
    requires
        0 <= i < entries.len(),
        matched(norm_query(q), entries[i].name),
        norm_query(q).len() > 0,
    ensures
        exists|j: int|
            0 <= j < spec_rank(entries, q).len() && #[trigger] spec_rank(entries, q)[j]
                == entries[i],
{
    let nq = norm_query(q);
    lemma_rank_ids_complete(entries, nq, entries.len() as int);
    let ids = spec_rank_ids(entries, nq, entries.len() as int);
    assert(ids.contains(i));
    let j = choose|j: int| 0 <= j < ids.len() && ids[j] == i;
    assert(spec_rank(entries, q)[j] == entries[i]);
}

/// Every ranked entry is an entry of the index that the query matches.
pub proof fn lemma_rank_from_index(entries: Seq<AppEntryV>, q: Seq<char>, j: int)
    requires
        0 <= j < spec_rank(entries, q).len(),
    ensures
        exists|i: int|
            0 <= i < entries.len() && #[trigger] spec_rank(entries, q)[j] == entries[i] && matched(
                norm_query(q),
                entries[i].name,
            ),
{
    let nq = norm_query(q);
    lemma_rank_ids_valid(entries, nq, entries.len() as int);
    let ids = spec_rank_ids(entries, nq, entries.len() as int);
    assert(spec_rank(entries, q)[j] == entries[ids[j]]);
}

/// A descriptor marked hidden never appears in any match result: every
/// ranked entry of an index built from raw descriptor records comes from a
/// record that was not hidden.
pub proof fn lemma_hidden_never_matched(raw: Seq<RawEntryV>, q: Seq<char>, j: int)
    requires
        0 <= j < spec_rank(spec_build(raw), q).len(),
    ensures
        exists|i: int|
            0 <= i < raw.len() && !(#[trigger] raw[i]).hidden && spec_rank(spec_build(raw), q)[j]
                == admitted_entry(raw[i]),
{
    let entries = spec_build(raw);
    lemma_rank_from_index(entries, q, j);
    let e = choose|i: int|
        0 <= i < entries.len() && #[trigger] spec_rank(entries, q)[j] == entries[i] && matched(
            norm_query(q),
            entries[i].name,
        );
    lemma_hidden_never_indexed(raw, e);
}

proof fn lemma_subseq_drop_left(p: Seq<char>, t: Seq<char>)
    requires
        is_subseq(p, t),
        p.len() > 0,
    ensures
        is_subseq(p.drop_first(), t),
    decreases p.len() + t.len(),
{
    if p.first() == t.first() {
        lemma_subseq_widen_right(p.drop_first(), t);
    } else {
        lemma_subseq_drop_left(p, t.drop_first());
        lemma_subseq_widen_right(p.drop_first(), t);
    }
}

proof fn lemma_subseq_widen_right(x: Seq<char>, u: Seq<char>)
    requires
        u.len() > 0,
        is_subseq(x, u.drop_first()),
    ensures
        is_subseq(x, u),
    decreases x.len() + u.len(),
{
    if x.len() > 0 {
        if x.first() == u.first() {
            lemma_subseq_drop_left(x, u.drop_first());
        }
    }
}

proof fn lemma_prefix_subseq(p: Seq<char>, t: Seq<char>)
    requires
        p.len() <= t.len(),
        p == t.subrange(0, p.len() as int),
    ensures
        is_subseq(p, t),
    decreases p.len(),
{
    if p.len() > 0 {
        assert(p.first() == t.first());
        assert(p.drop_first() =~= t.drop_first().subrange(0, p.len() - 1));
        lemma_prefix_subseq(p.drop_first(), t.drop_first());
    }
}

/// A substring occurrence is in particular a subsequence match, so an entry
/// whose folded name holds the query as a substring is matched.
pub proof fn lemma_substring_matches(t: Seq<char>, p: Seq<char>, i: int)
    requires
        is_substring_at(t, p, i),
    ensures
        is_subseq(p, t),
    decreases i,
{
    if i == 0 {
        lemma_prefix_subseq(p, t);
    } else {
        let d = t.drop_first();
        assert(d.subrange(i - 1, i - 1 + p.len()) =~= t.subrange(i, i + p.len()));
        assert(is_substring_at(d, p, i - 1));
        lemma_substring_matches(d, p, i - 1);
        lemma_subseq_widen_right(p, t);
    }
}

/// The first character of a non-empty subsequence of `t` occurs in `t`.
proof fn lemma_subseq_first_occurs(p: Seq<char>, t: Seq<char>)
    requires
        p.len() > 0,
        is_subseq(p, t),
    ensures
        exists|j: int| 0 <= j < t.len() && t[j] == p.first(),
    decreases t.len(),
{
    if t.len() > 0 {
        if p.first() == t.first() {
            assert(t[0] == p.first());
        } else {
            lemma_subseq_first_occurs(p, t.drop_first());
            let j = choose|j: int| 0 <= j < t.drop_first().len() && t.drop_first()[j] == p.first();
            assert(t[j + 1] == p.first());
        }
    }
}

} // verus!
