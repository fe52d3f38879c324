//! The icon cache: memoizes the resolution of an icon name or file path to a
//! renderable icon handle. The handle itself is modeled as plain data — a
//! decoded image source, a themed icon name, or the generic fallback — and
//! the host performs the actual file probing and decoding. For a given key
//! at most one cache entry ever exists: a second resolution of a cached key
//! returns the stored handle and changes nothing.

use vstd::prelude::*;
use crate::text::str_eq;

verus! {

/// A resolved icon handle, as plain data: the host renders `Image` by
/// decoding the named file at a fixed target dimension, `Themed` through the
/// icon theme, and `Fallback` as the generic application icon.
pub enum IconHandle {
    Image(String),
    Themed(String),
    Fallback,
}

/// Mathematical model of an icon handle.
pub ghost enum IconHandleV {
    ImageV(Seq<char>),
    ThemedV(Seq<char>),
    FallbackV,
}

impl View for IconHandle {
    type V = IconHandleV;

    open spec fn view(&self) -> IconHandleV {
        match self {
            IconHandle::Image(p) => IconHandleV::ImageV(p@),
            IconHandle::Themed(n) => IconHandleV::ThemedV(n@),
            IconHandle::Fallback => IconHandleV::FallbackV,
        }
    }
}

impl IconHandle {
    /// An exact copy of the handle.
    pub fn duplicate(&self) -> (c: IconHandle)
        ensures
            c@ == self@,
    {
        match self {
            IconHandle::Image(p) => IconHandle::Image(p.clone()),
            IconHandle::Themed(n) => IconHandle::Themed(n.clone()),
            IconHandle::Fallback => IconHandle::Fallback,
        }
    }
}

/// One cache entry: the key it was resolved under, and the handle.
struct IconEntry {
    key: String,
    handle: IconHandle,
}

/// The stored handle for `k`, scanning pairs in order.
pub open spec fn cache_lookup(m: Seq<(Seq<char>, IconHandleV)>, k: Seq<char>) -> Option<
    IconHandleV,
>
    decreases m.len(),
{
    if m.len() == 0 {
        Option::None
    } else if m.first().0 == k {
        Option::Some(m.first().1)
    } else {
        cache_lookup(m.drop_first(), k)
    }
}

/// No two cache entries share a key.
pub open spec fn keys_distinct(m: Seq<(Seq<char>, IconHandleV)>) -> bool {
    forall|i: int, j: int| 0 <= i < j < m.len() ==> (#[trigger] m[i]).0 != (#[trigger] m[j]).0
}

/// How many entries hold key `k`.
pub open spec fn count_key(m: Seq<(Seq<char>, IconHandleV)>, k: Seq<char>) -> nat
    decreases m.len(),
{
    if m.len() == 0 {
        0
    } else {
        count_key(m.drop_first(), k) + if m.first().0 == k {
            1nat
        } else {
            0nat
        }
    }
}

/// The cache after resolving `k` with freshly produced handle `h`: a cached
/// key keeps its stored handle and the cache is unchanged; an uncached key
/// is bound to `h`.
pub open spec fn spec_resolve(
    m: Seq<(Seq<char>, IconHandleV)>,
    k: Seq<char>,
    h: IconHandleV,
) -> (Seq<(Seq<char>, IconHandleV)>, IconHandleV) {
    match cache_lookup(m, k) {
        Option::Some(v) => (m, v),
        Option::None => (m.push((k, h)), h),
    }
}

proof fn lemma_lookup_none_iff_absent(m: Seq<(Seq<char>, IconHandleV)>, k: Seq<char>)
    ensures
        (cache_lookup(m, k) is None) <==> (forall|i: int| 0 <= i < m.len() ==> (#[trigger] m[i]).0
            != k),
    decreases m.len(),
{
    if m.len() > 0 {
        lemma_lookup_none_iff_absent(m.drop_first(), k);
        if m.first().0 != k {
            if cache_lookup(m.drop_first(), k) is None {
                assert forall|i: int| 0 <= i < m.len() implies (#[trigger] m[i]).0 != k by {
                    if i > 0 {
                        assert(m[i] == m.drop_first()[i - 1]);
                    }
                }
            } else {
                let i = choose|i: int|
                    0 <= i < m.drop_first().len() && (#[trigger] m.drop_first()[i]).0 == k;
                assert(m[i + 1] == m.drop_first()[i]);
            }
        }
    }
}

proof fn lemma_lookup_push_absent(m: Seq<(Seq<char>, IconHandleV)>, k: Seq<char>, h: IconHandleV)
    requires
        cache_lookup(m, k) is None,
    ensures
        cache_lookup(m.push((k, h)), k) == Option::Some(h),
    decreases m.len(),
{
    if m.len() == 0 {
        assert(m.push((k, h)).first() == (k, h));
    } else {
        assert(m.push((k, h)).first() == m.first());
        assert(m.push((k, h)).drop_first() =~= m.drop_first().push((k, h)));
        lemma_lookup_push_absent(m.drop_first(), k, h);
    }
}

proof fn lemma_count_push(m: Seq<(Seq<char>, IconHandleV)>, k: Seq<char>, p: (Seq<char>, IconHandleV))
    ensures
        count_key(m.push(p), k) == count_key(m, k) + if p.0 == k {
            1nat
        } else {
            0nat
        },
    decreases m.len(),
{
    if m.len() == 0 {
        assert(m.push(p).drop_first() =~= m);
    } else {
        assert(m.push(p).first() == m.first());
        assert(m.push(p).drop_first() =~= m.drop_first().push(p));
        lemma_count_push(m.drop_first(), k, p);
    }
}

proof fn lemma_absent_count_zero(m: Seq<(Seq<char>, IconHandleV)>, k: Seq<char>)
    requires
        forall|i: int| 0 <= i < m.len() ==> (#[trigger] m[i]).0 != k,
    ensures
        count_key(m, k) == 0,
    decreases m.len(),
{
    if m.len() > 0 {
        assert forall|i: int| 0 <= i < m.drop_first().len() implies (#[trigger] m.drop_first()[
        i]).0 != k by {
            assert(m.drop_first()[i] == m[i + 1]);
        }
        lemma_absent_count_zero(m.drop_first(), k);
    }
}

proof fn lemma_lookup_some_count_one(m: Seq<(Seq<char>, IconHandleV)>, k: Seq<char>)
    requires
        keys_distinct(m),
        cache_lookup(m, k) is Some,
    ensures
        count_key(m, k) == 1,
    decreases m.len(),
{
    if m.len() > 0 {
        assert forall|i: int, j: int|
            0 <= i < j < m.drop_first().len() implies (#[trigger] m.drop_first()[i]).0 != (
        #[trigger] m.drop_first()[j]).0 by {
            assert(m.drop_first()[i] == m[i + 1]);
            assert(m.drop_first()[j] == m[j + 1]);
        }
        if m.first().0 == k {
            assert forall|i: int| 0 <= i < m.drop_first().len() implies (#[trigger] m.drop_first()[
            i]).0 != k by {
                assert(m.drop_first()[i] == m[i + 1]);
                assert(m[0].0 == k);
            }
            lemma_absent_count_zero(m.drop_first(), k);
        } else {
            lemma_lookup_some_count_one(m.drop_first(), k);
        }
    }
}

/// Resolving the same key twice converges: the second resolution returns the
/// handle the first one produced, changes nothing, and the cache holds
/// exactly one entry for that key.
pub proof fn lemma_single_resolution(
    m: Seq<(Seq<char>, IconHandleV)>,
    k: Seq<char>,
    h1: IconHandleV,
    h2: IconHandleV,
)
    requires
        keys_distinct(m),
    ensures
        ({
            let (m1, r1) = spec_resolve(m, k, h1);
            let (m2, r2) = spec_resolve(m1, k, h2);
            m2 == m1 && r2 == r1 && cache_lookup(m1, k) == Option::Some(r1) && count_key(m1, k)
                == 1 && keys_distinct(m1)
        }),
{
    let (m1, r1) = spec_resolve(m, k, h1);
    if cache_lookup(m, k) is Some {
        lemma_lookup_some_count_one(m, k);
    } else {
        lemma_lookup_push_absent(m, k, h1);
        lemma_lookup_none_iff_absent(m, k);
        lemma_absent_count_zero(m, k);
        lemma_count_push(m, k, (k, h1));
        assert forall|i: int, j: int|
            0 <= i < j < m1.len() implies (#[trigger] m1[i]).0 != (#[trigger] m1[j]).0 by {
            if j < m.len() {
                assert(m1[i] == m[i] && m1[j] == m[j]);
            } else {
                assert(m1[j] == (k, h1));
                assert(m1[i] == m[i]);
            }
        }
        lemma_lookup_some_count_one(m1, k);
    }
}

/// The process-wide icon cache: lookup-or-insert over string keys, with at
/// most one entry per key.
pub struct IconCache {
    entries: Vec<IconEntry>,
}

impl View for IconCache {
    type V = Seq<(Seq<char>, IconHandleV)>;

    closed spec fn view(&self) -> Seq<(Seq<char>, IconHandleV)> {
        self.entries@.map_values(|e: IconEntry| (e.key@, e.handle@))
    }
}

impl IconCache {
    /// No two entries of the cache share a key.
    pub open spec fn wf(&self) -> bool {
        keys_distinct(self@)
    }

    /// A fresh, empty cache.
    pub fn new() -> (c: IconCache)
        ensures
            c@ == Seq::<(Seq<char>, IconHandleV)>::empty(),
            c.wf(),
    {
        let c = IconCache { entries: Vec::new() };
        proof {
            assert(c@ =~= Seq::<(Seq<char>, IconHandleV)>::empty());
        }
        c
    }

    /// The handle cached under `key`, if any.
    pub fn lookup(&self, key: &str) -> (r: Option<IconHandle>)
        ensures
            (match r {
                Option::Some(h) => cache_lookup(self@, key@) == Option::Some(h@),
                Option::None => cache_lookup(self@, key@) is None,
            }),
    {
        let n = self.entries.len();
        let mut i: usize = 0;
        proof {
            assert(self@.skip(0) =~= self@);
        }
        while i < n
            invariant
                n == self.entries@.len(),
                i <= n,
                cache_lookup(self@, key@) == cache_lookup(self@.skip(i as int), key@),
            decreases n - i,
        {
            proof {
                assert(self@.skip(i as int).first() == self@[i as int]);
                assert(self@.skip(i as int).drop_first() =~= self@.skip(i as int + 1));
            }
            if str_eq(self.entries[i].key.as_str(), key) {
                return Option::Some(self.entries[i].handle.duplicate());
            }
            i = i + 1;
        }
        proof {
            assert(self@.skip(i as int).len() == 0);
        }
        Option::None
    }

    /// Looks `key` up; on a miss, stores `fresh` under `key`. Returns the
    /// handle now cached under `key`: the stored one on a hit — the freshly
    /// produced one is dropped — and `fresh` itself on a miss. Either way
    /// the key ends up with exactly one entry.
    pub fn resolve_with(&mut self, key: &str, fresh: IconHandle) -> (h: IconHandle)
        requires
            old(self).wf(),
        ensures
            final(self).wf(),
            ({
                let (m2, h2) = spec_resolve(old(self)@, key@, fresh@);
                final(self)@ == m2 && h@ == h2
            }),
    {
        match self.lookup(key) {
            Option::Some(h) => h,
            Option::None => {
                let out = fresh.duplicate();
                let mut key_s = String::new();
                key_s.append(key);
                proof {
                    assert(key_s@ =~= key@);
                    lemma_lookup_none_iff_absent(old(self)@, key@);
                }
                let ghost before = self@;
                self.entries.push(IconEntry { key: key_s, handle: fresh });
                proof {
                    assert(self@ =~= before.push((key@, fresh@)));
                    assert forall|i: int, j: int|
                        0 <= i < j < self@.len() implies (#[trigger] self@[i]).0 != (
                    #[trigger] self@[j]).0 by {
                        if j < before.len() {
                            assert(self@[i] == before[i] && self@[j] == before[j]);
                        } else {
                            assert(self@[j] == (key@, fresh@));
                            assert(self@[i] == before[i]);
                        }
                    }
                }
                out
            },
        }
    }
}

} // verus!
