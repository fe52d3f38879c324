//! Locale selection: picks, from the host's list of available locales, the
//! first one that the `LANG`-style language string begins with, falling back
//! to English. Reading the environment is the host's part; the choice is
//! made here.

use vstd::prelude::*;
use crate::text::{str_chars, vec_slice, chars_eq};

verus! {

/// `p` is a prefix of `s`.
pub open spec fn is_prefix_of(p: Seq<char>, s: Seq<char>) -> bool {
    p.len() <= s.len() && s.subrange(0, p.len() as int) == p
}

/// The first locale of `avail` that `lang` begins with, or `en` if none.
pub open spec fn pick_locale(lang: Seq<char>, avail: Seq<Seq<char>>) -> Seq<char>
    decreases avail.len(),
{
    if avail.len() == 0 {
        "en"@
    } else if is_prefix_of(avail.first(), lang) {
        avail.first()
    } else {
        pick_locale(lang, avail.drop_first())
    }
}

/// Whether `language@` begins with `p@`.
fn is_prefix_exec(p: &Vec<char>, s: &Vec<char>) -> (r: bool)
    ensures
        r == is_prefix_of(p@, s@),
{
    if p.len() > s.len() {
        return false;
    }
    let head = vec_slice(s, 0, p.len());
    chars_eq(p, &head)
}

/// Picks the locale for the given language string: the first entry of
/// `available` that `language` starts with, or `en` when none fits.
pub fn get_locale(language: &str, available: &Vec<String>) -> (r: String)
    ensures
        r@ == pick_locale(language@, available@.map_values(|s: String| s@)),
{
    let lang = str_chars(language);
    let ghost avs = available@.map_values(|s: String| s@);
    let mut i: usize = 0;
    proof {
        assert(avs.skip(0) =~= avs);
    }
    while i < available.len()
        invariant
            i <= available@.len(),
            lang@ == language@,
            avs == available@.map_values(|s: String| s@),
            pick_locale(language@, avs) == pick_locale(language@, avs.skip(i as int)),
        decreases available@.len() - i,
    {
        let cand = str_chars(available[i].as_str());
        proof {
            assert(avs.skip(i as int).first() == avs[i as int]);
            assert(avs.skip(i as int).drop_first() =~= avs.skip(i as int + 1));
        }
        if is_prefix_exec(&cand, &lang) {
            return available[i].clone();
        }
        i = i + 1;
    }
    proof {
        assert(avs.skip(i as int).len() == 0);
    }
    String::from_str("en")
}

} // verus!
