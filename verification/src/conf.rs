//! Configuration parsing: an INI-style file with a `[general]` section and
//! the keys `theme`, `terminal`, `args` (space-separated tokens) and
//! `search_placeholder`. Unknown keys are ignored, malformed lines are
//! skipped, keys outside `[general]` have no effect, and parsing never
//! fails: missing values keep their defaults. The file itself is read by the
//! host; this module parses its text.

use vstd::prelude::*;
use crate::sanitize::trim;
use crate::text::{char_off, chars_eq, chars_to_string, find_char_from, lemma_char_off_index,
    str_chars, vec_slice};

verus! {

/// Mathematical model of the general configuration.
pub ghost struct GeneralConfV {
    pub theme: Seq<char>,
    pub terminal: Seq<char>,
    pub args: Seq<Seq<char>>,
    pub search_placeholder: Seq<char>,
}

/// The general configuration: icon theme, terminal program and its launch
/// arguments, and the placeholder text of the search entry.
pub struct GeneralConf {
    pub theme: String,
    pub terminal: String,
    pub args: Vec<String>,
    pub search_placeholder: String,
}

impl View for GeneralConf {
    type V = GeneralConfV;

    open spec fn view(&self) -> GeneralConfV {
        GeneralConfV {
            theme: self.theme@,
            terminal: self.terminal@,
            args: self.args@.map_values(|s: String| s@),
            search_placeholder: self.search_placeholder@,
        }
    }
}

/// The whole configuration: the general section and the stylesheet text.
pub struct Config {
    pub general: GeneralConf,
    pub css: String,
}

pub open spec fn contains_char(s: Seq<char>, c: char) -> bool {
    exists|i: int| 0 <= i < s.len() && s[i] == c
}

/// `s` split at every occurrence of `c`; the separators are dropped and the
/// final piece is kept even when empty.
pub open spec fn split_at_char(s: Seq<char>, c: char) -> Seq<Seq<char>>
    decreases s.len(),
{
    if contains_char(s, c) {
        let k = char_off(s, c);
        if 0 <= k < s.len() {
            seq![s.subrange(0, k)] + split_at_char(s.subrange(k + 1, s.len() as int), c)
        } else {
            seq![s]
        }
    } else {
        seq![s]
    }
}

/// The whitespace-separated tokens of `s`: split at spaces, empty pieces
/// dropped.
pub open spec fn split_tokens(s: Seq<char>) -> Seq<Seq<char>>
    decreases s.len(),
{
    if contains_char(s, ' ') {
        let k = char_off(s, ' ');
        if 0 <= k < s.len() {
            let rest = split_tokens(s.subrange(k + 1, s.len() as int));
            if k > 0 {
                seq![s.subrange(0, k)] + rest
            } else {
                rest
            }
        } else {
            seq![s]
        }
    } else {
        if s.len() > 0 {
            seq![s]
        } else {
            Seq::empty()
        }
    }
}

/// One configuration line applied to the state `(inside [general], conf)`:
/// blank lines, comments (`;` or `#`), malformed lines and unknown keys
/// change nothing; a section header switches the flag; a `key=value`
/// property inside `[general]` updates the matching field, values trimmed,
/// `args` further split into tokens.
pub open spec fn apply_line(st: (bool, GeneralConfV), line: Seq<char>) -> (bool, GeneralConfV) {
    let t = trim(line);
    if t.len() == 0 {
        st
    } else if t[0] == ';' || t[0] == '#' {
        st
    } else if t[0] == '[' {
        if t.len() >= 2 && t[t.len() - 1] == ']' {
            (trim(t.subrange(1, t.len() - 1)) == "general"@, st.1)
        } else {
            st
        }
    } else if contains_char(t, '=') {
        let k = char_off(t, '=');
        let key = trim(t.subrange(0, k));
        let val = trim(t.subrange(k + 1, t.len() as int));
        if !st.0 {
            st
        } else if key == "theme"@ {
            (st.0, GeneralConfV { theme: val, ..st.1 })
        } else if key == "terminal"@ {
            (st.0, GeneralConfV { terminal: val, ..st.1 })
        } else if key == "args"@ {
            (st.0, GeneralConfV { args: split_tokens(val), ..st.1 })
        } else if key == "search_placeholder"@ {
            (st.0, GeneralConfV { search_placeholder: val, ..st.1 })
        } else {
            st
        }
    } else {
        st
    }
}

/// All lines applied in order.
pub open spec fn conf_fold(st: (bool, GeneralConfV), lines: Seq<Seq<char>>) -> (bool, GeneralConfV)
    decreases lines.len(),
{
    if lines.len() == 0 {
        st
    } else {
        conf_fold(apply_line(st, lines.first()), lines.drop_first())
    }
}

/// The configuration that `data` yields over the defaults `dflt`.
pub open spec fn spec_conf(data: Seq<char>, dflt: GeneralConfV) -> GeneralConfV {
    conf_fold((false, dflt), split_at_char(data, '\n')).1
}

impl GeneralConf {
    /// The built-in defaults: theme `Adwaita`, terminal `kitty`, argument
    /// list `-e`, and the given (host-localized) search placeholder.
    pub fn default_with(placeholder: String) -> (c: GeneralConf)
        ensures
            c@.theme == "Adwaita"@,
            c@.terminal == "kitty"@,
            c@.args == seq!["-e"@],
            c@.search_placeholder == placeholder@,
    {
        let mut args: Vec<String> = Vec::new();
        args.push(String::from_str("-e"));
        let c = GeneralConf {
            theme: String::from_str("Adwaita"),
            terminal: String::from_str("kitty"),
            args,
            search_placeholder: placeholder,
        };
        proof {
            assert(c@.args =~= seq!["-e"@]);
        }
        c
    }

    /// An exact copy.
    pub fn duplicate(&self) -> (c: GeneralConf)
        ensures
            c@ == self@,
    {
        let mut args: Vec<String> = Vec::new();
        let mut i: usize = 0;
        while i < self.args.len()
            invariant
                i <= self.args@.len(),
                args@.len() == i,
                forall|j: int| 0 <= j < i ==> (#[trigger] args@[j])@ == self.args@[j]@,
            decreases self.args@.len() - i,
        {
            args.push(self.args[i].clone());
            i = i + 1;
        }
        let c = GeneralConf {
            theme: self.theme.clone(),
            terminal: self.terminal.clone(),
            args,
            search_placeholder: self.search_placeholder.clone(),
        };
        proof {
            assert(c@.args =~= self@.args);
        }
        c
    }
}

/// The whitespace-separated tokens of `v@`, as strings.
fn split_tokens_exec(v: &Vec<char>) -> (out: Vec<String>)
    ensures
        out@.map_values(|s: String| s@) == split_tokens(v@),
{
    let mut out: Vec<String> = Vec::new();
    let mut pos: usize = 0;
    let ghost whole = v@;
    proof {
        assert(v@.skip(0) =~= whole);
        assert(out@.map_values(|s: String| s@) =~= Seq::<Seq<char>>::empty());
    }
    while pos < v.len()
        invariant
            pos <= v@.len(),
            split_tokens(whole) == out@.map_values(|s: String| s@) + split_tokens(
                v@.skip(pos as int),
            ),
        decreases v@.len() - pos,
    {
        let ghost rest = v@.skip(pos as int);
        match find_char_from(v, ' ', pos) {
            Option::Some(k) => {
                proof {
                    assert(rest[k - pos] == v@[k as int]);
                    assert forall|j: int| 0 <= j < k - pos implies rest[j] != ' ' by {
                        assert(rest[j] == v@[pos + j]);
                    }
                    lemma_char_off_index(rest, ' ', k - pos);
                    assert(contains_char(rest, ' '));
                    assert(rest.subrange(0, k - pos) =~= v@.subrange(pos as int, k as int));
                    assert(rest.subrange(k - pos + 1, rest.len() as int) =~= v@.skip(k as int + 1));
                }
                if k > pos {
                    let tok = vec_slice(v, pos, k);
                    let ghost prev = out@.map_values(|s: String| s@);
                    out.push(chars_to_string(&tok));
                    proof {
                        assert(out@.map_values(|s: String| s@) =~= prev.push(
                            v@.subrange(pos as int, k as int),
                        ));
                        assert(prev + (seq![v@.subrange(pos as int, k as int)] + split_tokens(
                            v@.skip(k as int + 1),
                        )) =~= prev.push(v@.subrange(pos as int, k as int)) + split_tokens(
                            v@.skip(k as int + 1),
                        ));
                    }
                }
                pos = k + 1;
            },
            Option::None => {
                proof {
                    assert forall|j: int| 0 <= j < rest.len() implies rest[j] != ' ' by {
                        assert(rest[j] == v@[pos + j]);
                    }
                    if contains_char(rest, ' ') {
                        let i = choose|i: int| 0 <= i < rest.len() && rest[i] == ' ';
                        assert(false);
                    }
                }
                proof {
                    assert(rest =~= v@.subrange(pos as int, v@.len() as int));
                }
                let tok = vec_slice(v, pos, v.len());
                let ghost prev = out@.map_values(|s: String| s@);
                out.push(chars_to_string(&tok));
                proof {
                    assert(out@.map_values(|s: String| s@) =~= prev.push(rest));
                    assert(v@.skip(v@.len() as int).len() == 0);
                    assert(split_tokens(v@.skip(v@.len() as int)) =~= Seq::<Seq<char>>::empty());
                    assert(prev + seq![rest] =~= prev.push(rest));
                    assert(prev.push(rest) + Seq::<Seq<char>>::empty() =~= prev.push(rest));
                }
                pos = v.len();
            },
        }
    }
    proof {
        assert(v@.skip(pos as int).len() == 0);
        assert(split_tokens(v@.skip(pos as int)) =~= Seq::<Seq<char>>::empty());
        assert(out@.map_values(|s: String| s@) =~= split_tokens(whole));
    }
    out
}

impl Config {
    /// Parses the text of the configuration file over the given defaults, as
    /// `spec_conf` states: properties of the `[general]` section override
    /// default fields; everything malformed or unknown is skipped.
    pub fn get_conf(data: &str, defaults: GeneralConf) -> (c: GeneralConf)
        ensures
            c@ == spec_conf(data@, defaults@),
    {
        let chars = str_chars(data);
        let n = chars.len();
        let ghost whole = chars@;
        let mut in_general: bool = false;
        let mut conf: GeneralConf = defaults;
        let mut pos: usize = 0;
        let mut done: bool = false;
        proof {
            assert(chars@.skip(0) =~= whole);
        }
        while !done
            invariant
                pos <= chars@.len(),
                n == chars@.len(),
                chars@ == data@,
                !done ==> conf_fold((false, defaults@), split_at_char(whole, '\n')) == conf_fold(
                    (in_general, conf@),
                    split_at_char(chars@.skip(pos as int), '\n'),
                ),
                done ==> (in_general, conf@) == conf_fold(
                    (false, defaults@),
                    split_at_char(whole, '\n'),
                ),
            decreases chars@.len() - pos + if done {
                0int
            } else {
                1int
            },
        {
            let ghost rest = chars@.skip(pos as int);
            let ghost st = (in_general, conf@);
            match find_char_from(&chars, '\n', pos) {
                Option::Some(k) => {
                    proof {
                        assert(rest[k - pos] == chars@[k as int]);
                        assert forall|j: int| 0 <= j < k - pos implies rest[j] != '\n' by {
                            assert(rest[j] == chars@[pos + j]);
                        }
                        lemma_char_off_index(rest, '\n', k - pos);
                        assert(contains_char(rest, '\n'));
                        assert(rest.subrange(0, k - pos) =~= chars@.subrange(pos as int, k as int));
                        assert(rest.subrange(k - pos + 1, rest.len() as int) =~= chars@.skip(
                            k as int + 1,
                        ));
                        assert(split_at_char(rest, '\n') == seq![
                            chars@.subrange(pos as int, k as int),
                        ] + split_at_char(chars@.skip(k as int + 1), '\n'));
                    }
                    let line = vec_slice(&chars, pos, k);
                    apply_line_exec(&mut in_general, &mut conf, &line);
                    proof {
                        assert(split_at_char(rest, '\n').first() == chars@.subrange(
                            pos as int,
                            k as int,
                        ));
                        assert(split_at_char(rest, '\n').drop_first() =~= split_at_char(
                            chars@.skip(k as int + 1),
                            '\n',
                        ));
                        assert(conf_fold(st, split_at_char(rest, '\n')) == conf_fold(
                            (in_general, conf@),
                            split_at_char(chars@.skip(k as int + 1), '\n'),
                        ));
                    }
                    pos = k + 1;
                },
                Option::None => {
                    proof {
                        assert forall|j: int| 0 <= j < rest.len() implies rest[j] != '\n' by {
                            assert(rest[j] == chars@[pos + j]);
                        }
                        if contains_char(rest, '\n') {
                            let i = choose|i: int| 0 <= i < rest.len() && rest[i] == '\n';
                            assert(false);
                        }
                        assert(split_at_char(rest, '\n') == seq![rest]);
                        assert(rest =~= chars@.subrange(pos as int, chars@.len() as int));
                        assert(split_at_char(rest, '\n').drop_first() =~= Seq::<Seq<char>>::empty());
                    }
                    let line = vec_slice(&chars, pos, n);
                    apply_line_exec(&mut in_general, &mut conf, &line);
                    proof {
                        assert(seq![rest].first() == rest);
                        assert(seq![rest].drop_first() =~= Seq::<Seq<char>>::empty());
                        assert(conf_fold(st, seq![rest]) == conf_fold(
                            (in_general, conf@),
                            Seq::<Seq<char>>::empty(),
                        ));
                    }
                    pos = n;
                    done = true;
                },
            }
        }
        conf
    }

    /// The configuration assembled from its parsed section and the
    /// stylesheet text read by the host.
    pub fn assemble(general: GeneralConf, css: String) -> (c: Config)
        ensures
            c.general@ == general@,
            c.css@ == css@,
    {
        Config { general, css }
    }
}

/// Applies one line to the parsing state, as `apply_line` states.
fn apply_line_exec(in_general: &mut bool, conf: &mut GeneralConf, line: &Vec<char>) -> (u: ())
    ensures
        (*final(in_general), final(conf)@) == apply_line((*old(in_general), old(conf)@), line@),
{
    let t = crate::sanitize::trim_vec(line);
    if t.len() == 0 {
        return ;
    }
    let c0 = t[0];
    if c0 == ';' || c0 == '#' {
        return ;
    }
    if c0 == '[' {
        if t.len() >= 2 && t[t.len() - 1] == ']' {
            let inner = vec_slice(&t, 1, t.len() - 1);
            let inner_t = crate::sanitize::trim_vec(&inner);
            let general_lit = str_chars("general");
            proof {
                reveal_strlit("general");
            }
            *in_general = chars_eq(&inner_t, &general_lit);
        }
        return ;
    }
    match find_char_from(&t, '=', 0) {
        Option::Some(k) => {
            proof {
                lemma_char_off_index(t@, '=', k as int);
                assert(contains_char(t@, '='));
            }
            let key_raw = vec_slice(&t, 0, k);
            let key = crate::sanitize::trim_vec(&key_raw);
            let val_raw = vec_slice(&t, k + 1, t.len());
            let val = crate::sanitize::trim_vec(&val_raw);
            if !*in_general {
                return ;
            }
            proof {
                reveal_strlit("theme");
                reveal_strlit("terminal");
                reveal_strlit("args");
                reveal_strlit("search_placeholder");
            }
            if chars_eq(&key, &str_chars("theme")) {
                conf.theme = chars_to_string(&val);
            } else if chars_eq(&key, &str_chars("terminal")) {
                conf.terminal = chars_to_string(&val);
            } else if chars_eq(&key, &str_chars("args")) {
                conf.args = split_tokens_exec(&val);
            } else if chars_eq(&key, &str_chars("search_placeholder")) {
                conf.search_placeholder = chars_to_string(&val);
            }
        },
        Option::None => {
            proof {
                if contains_char(t@, '=') {
                    let i = choose|i: int| 0 <= i < t@.len() && t@[i] == '=';
                    assert(false);
                }
            }
        },
    }
}

} // verus!
