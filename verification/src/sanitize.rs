//! The launch sanitizer: removes desktop-entry field-code placeholders
//! (`%f`, `%F`, `%u`, `%U`, `%d`, `%D`, `%n`, `%N`, `%i`, `%c`, `%k`, `%v`,
//! `%m`) from an exec command line and trims surrounding whitespace.
//! Removal keeps going on codes that earlier removals uncover, so the result
//! never holds a field code and sanitizing twice changes nothing.

use vstd::prelude::*;
use crate::text::{is_space_char, is_space_exec, str_chars, chars_to_string};

verus! {

/// The letter part of a desktop-entry field code: `%` followed by one of
/// these letters forms a placeholder that the sanitizer strips.
pub open spec fn is_field_code_letter(c: char) -> bool {
    c == 'f' || c == 'F' || c == 'u' || c == 'U' || c == 'd' || c == 'D' || c == 'n' || c == 'N'
        || c == 'i' || c == 'c' || c == 'k' || c == 'v' || c == 'm'
}

pub fn is_field_code_letter_exec(c: char) -> (r: bool)
    ensures
        r == is_field_code_letter(c),
{
    c == 'f' || c == 'F' || c == 'u' || c == 'U' || c == 'd' || c == 'D' || c == 'n' || c == 'N'
        || c == 'i' || c == 'c' || c == 'k' || c == 'v' || c == 'm'
}

/// Left-to-right removal of field codes: a field-code letter cancels an
/// immediately preceding `%`, so a code uncovered by an earlier removal is
/// removed as well.
pub open spec fn strip_codes(s: Seq<char>) -> Seq<char>
    decreases s.len(),
{
    if s.len() == 0 {
        Seq::empty()
    } else {
        let prev = strip_codes(s.drop_last());
        let c = s.last();
        if prev.len() > 0 && prev.last() == '%' && is_field_code_letter(c) {
            prev.drop_last()
        } else {
            prev.push(c)
        }
    }
}

/// No `%` in `s` is directly followed by a field-code letter.
pub open spec fn code_free(s: Seq<char>) -> bool {
    forall|i: int|
        0 <= i && i + 1 < s.len() ==> !((#[trigger] s[i]) == '%' && is_field_code_letter(s[i + 1]))
}

/// `s` without its leading whitespace.
pub open spec fn trim_start(s: Seq<char>) -> Seq<char>
    decreases s.len(),
{
    if s.len() > 0 && is_space_char(s.first()) {
        trim_start(s.drop_first())
    } else {
        s
    }
}

/// `s` without its trailing whitespace.
pub open spec fn trim_end(s: Seq<char>) -> Seq<char>
    decreases s.len(),
{
    if s.len() > 0 && is_space_char(s.last()) {
        trim_end(s.drop_last())
    } else {
        s
    }
}

/// `s` without leading and trailing whitespace.
pub open spec fn trim(s: Seq<char>) -> Seq<char> {
    trim_end(trim_start(s))
}

/// The sanitized form of an exec line: field codes removed, then trimmed.
pub open spec fn sanitize_spec(s: Seq<char>) -> Seq<char> {
    trim(strip_codes(s))
}

proof fn lemma_code_free_subrange(s: Seq<char>, a: int, b: int)
    requires
        code_free(s),
        0 <= a <= b <= s.len(),
    ensures
        code_free(s.subrange(a, b)),
{
    let t = s.subrange(a, b);
    assert forall|i: int|
        0 <= i && i + 1 < t.len() implies !((#[trigger] t[i]) == '%' && is_field_code_letter(
        t[i + 1],
    )) by {
        assert(t[i] == s[a + i]);
        assert(t[i + 1] == s[a + i + 1]);
    }
}

proof fn lemma_strip_codes_code_free(s: Seq<char>)
    ensures
        code_free(strip_codes(s)),
    decreases s.len(),
{
    if s.len() == 0 {
    } else {
        lemma_strip_codes_code_free(s.drop_last());
        let prev = strip_codes(s.drop_last());
        let c = s.last();
        if prev.len() > 0 && prev.last() == '%' && is_field_code_letter(c) {
            lemma_code_free_subrange(prev, 0, prev.len() - 1);
            assert(prev.drop_last() =~= prev.subrange(0, prev.len() - 1));
        } else {
            let r = prev.push(c);
            assert forall|i: int|
                0 <= i && i + 1 < r.len() implies !((#[trigger] r[i]) == '%'
                && is_field_code_letter(r[i + 1])) by {
                if i + 1 < prev.len() {
                    assert(r[i] == prev[i]);
                    assert(r[i + 1] == prev[i + 1]);
                } else {
                    assert(i + 1 == prev.len());
                    if prev.len() > 0 {
                        assert(r[i] == prev.last());
                    }
                    assert(r[i + 1] == c);
                }
            }
        }
    }
}

proof fn lemma_strip_codes_identity(s: Seq<char>)
    requires
        code_free(s),
    ensures
        strip_codes(s) == s,
    decreases s.len(),
{
    if s.len() == 0 {
        assert(strip_codes(s) =~= s);
    } else {
        lemma_code_free_subrange(s, 0, s.len() - 1);
        assert(s.drop_last() =~= s.subrange(0, s.len() - 1));
        lemma_strip_codes_identity(s.drop_last());
        let prev = strip_codes(s.drop_last());
        let c = s.last();
        if prev.len() > 0 && prev.last() == '%' && is_field_code_letter(c) {
            assert(s[s.len() - 2] == '%' && is_field_code_letter(s[s.len() - 1]));
            assert(false);
        }
        assert(strip_codes(s) =~= s);
    }
}

proof fn lemma_trim_start_code_free(s: Seq<char>)
    requires
        code_free(s),
    ensures
        code_free(trim_start(s)),
    decreases s.len(),
{
    if s.len() > 0 && is_space_char(s.first()) {
        lemma_code_free_subrange(s, 1, s.len() as int);
        assert(s.drop_first() =~= s.subrange(1, s.len() as int));
        lemma_trim_start_code_free(s.drop_first());
    }
}

proof fn lemma_trim_end_code_free(s: Seq<char>)
    requires
        code_free(s),
    ensures
        code_free(trim_end(s)),
    decreases s.len(),
{
    if s.len() > 0 && is_space_char(s.last()) {
        lemma_code_free_subrange(s, 0, s.len() - 1);
        assert(s.drop_last() =~= s.subrange(0, s.len() - 1));
        lemma_trim_end_code_free(s.drop_last());
    }
}

proof fn lemma_trim_start_no_leading(s: Seq<char>)
    ensures
        trim_start(s).len() > 0 ==> !is_space_char(trim_start(s).first()),
    decreases s.len(),
{
    if s.len() > 0 && is_space_char(s.first()) {
        lemma_trim_start_no_leading(s.drop_first());
    }
}

proof fn lemma_trim_end_no_trailing(s: Seq<char>)
    ensures
        trim_end(s).len() > 0 ==> !is_space_char(trim_end(s).last()),
    decreases s.len(),
{
    if s.len() > 0 && is_space_char(s.last()) {
        lemma_trim_end_no_trailing(s.drop_last());
    }
}

proof fn lemma_trim_end_keeps_first(s: Seq<char>)
    ensures
        trim_end(s).len() > 0 ==> s.len() > 0 && trim_end(s).first() == s.first(),
    decreases s.len(),
{
    if s.len() > 0 && is_space_char(s.last()) {
        lemma_trim_end_keeps_first(s.drop_last());
    }
}

proof fn lemma_trim_end_idempotent(s: Seq<char>)
    ensures
        trim_end(trim_end(s)) == trim_end(s),
{
    lemma_trim_end_no_trailing(s);
    let t = trim_end(s);
    if t.len() > 0 {
        assert(!is_space_char(t.last()));
    }
}

/// Sanitizing an already sanitized exec line changes nothing: the sanitized
/// form holds no field code, no leading and no trailing whitespace.
pub proof fn lemma_sanitize_idempotent(s: Seq<char>)
    ensures
        sanitize_spec(sanitize_spec(s)) == sanitize_spec(s),
{
    let stripped = strip_codes(s);
    let t = sanitize_spec(s);
    lemma_strip_codes_code_free(s);
    lemma_trim_start_code_free(stripped);
    lemma_trim_end_code_free(trim_start(stripped));
    lemma_strip_codes_identity(t);
    lemma_trim_start_no_leading(stripped);
    lemma_trim_end_keeps_first(trim_start(stripped));
    if t.len() > 0 {
        assert(!is_space_char(t.first()));
    }
    assert(trim_start(t) == t);
    lemma_trim_end_idempotent(trim_start(stripped));
}

proof fn lemma_trim_start_index(s: Seq<char>, k: int)
    requires
        0 <= k <= s.len(),
        forall|i: int| 0 <= i < k ==> is_space_char(#[trigger] s[i]),
        k == s.len() || !is_space_char(s[k]),
    ensures
        trim_start(s) == s.subrange(k, s.len() as int),
    decreases k,
{
    if k == 0 {
        if s.len() == 0 || !is_space_char(s.first()) {
            assert(trim_start(s) =~= s.subrange(0, s.len() as int));
        }
    } else {
        assert(is_space_char(s[0]));
        let d = s.drop_first();
        assert(d =~= s.subrange(1, s.len() as int));
        assert forall|i: int| 0 <= i < k - 1 implies is_space_char(#[trigger] d[i]) by {
            assert(d[i] == s[i + 1]);
        }
        if k - 1 < d.len() {
            assert(d[k - 1] == s[k]);
        }
        lemma_trim_start_index(d, k - 1);
        assert(d.subrange(k - 1, d.len() as int) =~= s.subrange(k, s.len() as int));
    }
}

proof fn lemma_trim_end_index(s: Seq<char>, k: int)
    requires
        0 <= k <= s.len(),
        forall|i: int| k <= i < s.len() ==> is_space_char(#[trigger] s[i]),
        k == 0 || !is_space_char(s[k - 1]),
    ensures
        trim_end(s) == s.subrange(0, k),
    decreases s.len(),
{
    if s.len() > k {
        assert(is_space_char(s[s.len() - 1]));
        let d = s.drop_last();
        assert(d =~= s.subrange(0, s.len() - 1));
        lemma_trim_end_index(d, k);
        assert(d.subrange(0, k) =~= s.subrange(0, k));
    } else {
        if s.len() > 0 {
            assert(!is_space_char(s.last()));
        }
        assert(trim_end(s) =~= s.subrange(0, k));
    }
}

/// A copy of `buf` without leading and trailing whitespace.
pub fn trim_vec(buf: &Vec<char>) -> (out: Vec<char>)
    ensures
        out@ == trim(buf@),
{
    let mut start: usize = 0;
    while start < buf.len() && is_space_exec(buf[start])
        invariant
            start <= buf@.len(),
            forall|j: int| 0 <= j < start ==> is_space_char(#[trigger] buf@[j]),
        decreases buf@.len() - start,
    {
        start = start + 1;
    }
    let mut end: usize = buf.len();
    while end > start && is_space_exec(buf[end - 1])
        invariant
            start <= end <= buf@.len(),
            forall|j: int| end <= j < buf@.len() ==> is_space_char(#[trigger] buf@[j]),
        decreases end,
    {
        end = end - 1;
    }
    let mut out: Vec<char> = Vec::new();
    let mut j: usize = start;
    while j < end
        invariant
            start <= j <= end <= buf@.len(),
            out@ == buf@.subrange(start as int, j as int),
        decreases end - j,
    {
        out.push(buf[j]);
        j = j + 1;
        proof {
            assert(out@ =~= buf@.subrange(start as int, j as int));
        }
    }
    proof {
        lemma_trim_start_index(buf@, start as int);
        let t1 = buf@.subrange(start as int, buf@.len() as int);
        assert forall|i2: int| end - start <= i2 < t1.len() implies is_space_char(
            #[trigger] t1[i2],
        ) by {
            assert(t1[i2] == buf@[start + i2]);
        }
        if end > start {
            assert(t1[end - start - 1] == buf@[end - 1]);
        }
        lemma_trim_end_index(t1, end - start);
        assert(t1.subrange(0, end - start) =~= buf@.subrange(start as int, end as int));
    }
    out
}

/// Strips all field codes from an exec command line and trims the result.
/// The result holds no field code and no surrounding whitespace, so
/// sanitizing it again returns it unchanged.
pub fn get_exec(exec: &str) -> (r: String)
    ensures
        r@ == sanitize_spec(exec@),
{
    let chars = str_chars(exec);
    let mut buf: Vec<char> = Vec::new();
    let mut i: usize = 0;
    while i < chars.len()
        invariant
            chars@ == exec@,
            i <= chars@.len(),
            buf@ == strip_codes(chars@.subrange(0, i as int)),
        decreases chars@.len() - i,
    {
        let c = chars[i];
        let ghost pre = chars@.subrange(0, i as int);
        let ghost cur = chars@.subrange(0, i as int + 1);
        proof {
            assert(cur.drop_last() =~= pre);
            assert(cur.last() == c);
        }
        let blen = buf.len();
        if blen > 0 && buf[blen - 1] == '%' && is_field_code_letter_exec(c) {
            buf.pop();
            proof {
                assert(buf@ =~= strip_codes(pre).drop_last());
            }
        } else {
            buf.push(c);
        }
        i = i + 1;
    }
    proof {
        assert(chars@.subrange(0, chars@.len() as int) =~= exec@);
    }
    let out = trim_vec(&buf);
    chars_to_string(&out)
}

} // verus!
