//! The application index: launchable application descriptors, gathered once
//! at startup and read-only afterwards. Descriptor files themselves are read
//! and parsed by an outside collaborator; this module validates the plain
//! records it hands over: descriptors marked hidden are never admitted, and
//! neither are descriptors whose exec line sanitizes to the empty string.

use vstd::prelude::*;
use crate::sanitize::{sanitize_spec, get_exec};
use crate::text::{chars_to_string, str_chars};

verus! {

/// Mathematical model of one launchable application descriptor.
pub ghost struct AppEntryV {
    pub exec_line: Seq<char>,
    pub need_terminal: bool,
    pub icon: Seq<char>,
    pub name: Seq<char>,
    pub description: Seq<char>,
    pub path: Seq<char>,
}

/// One launchable application descriptor, as offered to the user.
pub struct AppEntry {
    pub exec_line: String,
    pub need_terminal: bool,
    pub icon: String,
    pub name: String,
    pub description: String,
    pub path: String,
}

impl View for AppEntry {
    type V = AppEntryV;

    open spec fn view(&self) -> AppEntryV {
        AppEntryV {
            exec_line: self.exec_line@,
            need_terminal: self.need_terminal,
            icon: self.icon@,
            name: self.name@,
            description: self.description@,
            path: self.path@,
        }
    }
}

/// Each piece followed by a single space: the shape of an argument list in
/// front of the final exec string.
pub open spec fn concat_spaced(l: Seq<Seq<char>>) -> Seq<char>
    decreases l.len(),
{
    if l.len() == 0 {
        Seq::empty()
    } else {
        concat_spaced(l.drop_last()) + l.last() + " "@
    }
}

/// The shell command line that launches descriptor `e`: the sanitized exec
/// line alone, or — when the descriptor asks for a terminal — the terminal
/// program, the launch arguments and the sanitized exec line, separated by
/// single spaces.
pub open spec fn command_spec(e: AppEntryV, terminal: Seq<char>, args: Seq<Seq<char>>) -> Seq<
    char,
> {
    if e.need_terminal {
        terminal + " "@ + concat_spaced(args) + sanitize_spec(e.exec_line)
    } else {
        sanitize_spec(e.exec_line)
    }
}

impl AppEntry {
    /// An exact copy of the descriptor.
    pub fn duplicate(&self) -> (r: AppEntry)
        ensures
            r@ == self@,
    {
        AppEntry {
            exec_line: self.exec_line.clone(),
            need_terminal: self.need_terminal,
            icon: self.icon.clone(),
            name: self.name.clone(),
            description: self.description.clone(),
            path: self.path.clone(),
        }
    }

    /// The command line that launches this descriptor, as `command_spec`
    /// states; the host hands it to the shell, fire-and-forget.
    pub fn build_command(&self, terminal: &str, terminal_args: &Vec<String>) -> (cmd: String)
        ensures
            cmd@ == command_spec(
                self@,
                terminal@,
                terminal_args@.map_values(|s: String| s@),
            ),
    {
        let ex = get_exec(self.exec_line.as_str());
        if self.need_terminal {
            let ghost argvs = terminal_args@.map_values(|s: String| s@);
            let mut out = String::new();
            out.append(terminal);
            out.append(" ");
            let mut i: usize = 0;
            proof {
                assert(concat_spaced(argvs.subrange(0, 0)) =~= Seq::<char>::empty());
                assert(out@ =~= terminal@ + " "@ + concat_spaced(argvs.subrange(0, 0)));
            }
            while i < terminal_args.len()
                invariant
                    i <= terminal_args@.len(),
                    argvs == terminal_args@.map_values(|s: String| s@),
                    out@ == terminal@ + " "@ + concat_spaced(argvs.subrange(0, i as int)),
                decreases terminal_args@.len() - i,
            {
                out.append(terminal_args[i].as_str());
                out.append(" ");
                i = i + 1;
                proof {
                    let cur = argvs.subrange(0, i as int);
                    assert(cur.drop_last() =~= argvs.subrange(0, i as int - 1));
                    assert(cur.last() == argvs[i as int - 1]);
                    assert(out@ =~= terminal@ + " "@ + concat_spaced(cur));
                }
            }
            out.append(ex.as_str());
            proof {
                assert(argvs.subrange(0, argvs.len() as int) =~= argvs);
                assert(out@ =~= terminal@ + " "@ + concat_spaced(argvs) + sanitize_spec(
                    self@.exec_line,
                ));
            }
            out
        } else {
            ex
        }
    }
}

/// Mathematical model of a raw descriptor record, as handed over by the
/// descriptor-file collaborator, before validation.
pub ghost struct RawEntryV {
    pub exec_line: Seq<char>,
    pub need_terminal: bool,
    pub icon: Option<Seq<char>>,
    pub name: Seq<char>,
    pub description: Seq<char>,
    pub path: Seq<char>,
    pub hidden: bool,
}

/// A raw descriptor record before validation: `hidden` carries the
/// descriptor's no-display flag, `icon` is absent when the descriptor names
/// none.
pub struct RawEntry {
    pub exec_line: String,
    pub need_terminal: bool,
    pub icon: Option<String>,
    pub name: String,
    pub description: String,
    pub path: String,
    pub hidden: bool,
}

impl View for RawEntry {
    type V = RawEntryV;

    open spec fn view(&self) -> RawEntryV {
        RawEntryV {
            exec_line: self.exec_line@,
            need_terminal: self.need_terminal,
            icon: match self.icon {
                Option::Some(ref s) => Option::Some(s@),
                Option::None => Option::None,
            },
            name: self.name@,
            description: self.description@,
            path: self.path@,
            hidden: self.hidden,
        }
    }
}

/// The icon name assumed for a descriptor that names no icon.
pub open spec fn generic_icon_name() -> Seq<char> {
    "application-x-executable"@
}

/// A raw descriptor is offered if it is not hidden and its exec line is
/// still non-empty after sanitization.
pub open spec fn offered(r: RawEntryV) -> bool {
    !r.hidden && sanitize_spec(r.exec_line).len() > 0
}

/// The descriptor built from an offered raw record.
pub open spec fn admitted_entry(r: RawEntryV) -> AppEntryV {
    AppEntryV {
        exec_line: r.exec_line,
        need_terminal: r.need_terminal,
        icon: match r.icon {
            Option::Some(s) => s,
            Option::None => generic_icon_name(),
        },
        name: r.name,
        description: r.description,
        path: r.path,
    }
}

/// The index entries that a sequence of raw records yields: the offered
/// records, in order, each validated and defaulted.
pub open spec fn spec_build(raw: Seq<RawEntryV>) -> Seq<AppEntryV>
    decreases raw.len(),
{
    if raw.len() == 0 {
        Seq::empty()
    } else {
        spec_build(raw.drop_last()) + if offered(raw.last()) {
            seq![admitted_entry(raw.last())]
        } else {
            Seq::empty()
        }
    }
}

/// The immutable, ordered set of launchable application descriptors.
pub struct AppIndex {
    entries: Vec<AppEntry>,
}

impl View for AppIndex {
    type V = Seq<AppEntryV>;

    closed spec fn view(&self) -> Seq<AppEntryV> {
        self.entries@.map_values(|e: AppEntry| e@)
    }
}

impl AppIndex {
    /// Builds the index from raw descriptor records: hidden descriptors and
    /// descriptors whose exec line sanitizes to nothing are left out, a
    /// missing icon name falls back to the generic one, and the order of the
    /// remaining records is kept.
    pub fn build(raw: Vec<RawEntry>) -> (index: AppIndex)
        ensures
            index@ == spec_build(raw@.map_values(|r: RawEntry| r@)),
    {
        let ghost rv = raw@.map_values(|r: RawEntry| r@);
        let mut entries: Vec<AppEntry> = Vec::new();
        let mut i: usize = 0;
        while i < raw.len()
            invariant
                i <= raw@.len(),
                rv == raw@.map_values(|r: RawEntry| r@),
                entries@.map_values(|e: AppEntry| e@) == spec_build(rv.subrange(0, i as int)),
            decreases raw@.len() - i,
        {
            let ghost pre = rv.subrange(0, i as int);
            let ghost cur = rv.subrange(0, i as int + 1);
            proof {
                assert(cur.drop_last() =~= pre);
                assert(cur.last() == rv[i as int]);
                assert(rv[i as int] == raw@[i as int]@);
            }
            let r = &raw[i];
            let sanitized = get_exec(r.exec_line.as_str());
            if !r.hidden && sanitized.as_str().unicode_len() > 0 {
                let icon = match r.icon {
                    Option::Some(ref s) => s.clone(),
                    Option::None => chars_to_string(&str_chars("application-x-executable")),
                };
                let e = AppEntry {
                    exec_line: r.exec_line.clone(),
                    need_terminal: r.need_terminal,
                    icon,
                    name: r.name.clone(),
                    description: r.description.clone(),
                    path: r.path.clone(),
                };
                proof {
                    assert(e@ == admitted_entry(raw@[i as int]@));
                }
                entries.push(e);
                proof {
                    assert(entries@.map_values(|e2: AppEntry| e2@) =~= spec_build(cur));
                }
            } else {
                proof {
                    assert(!offered(rv[i as int]));
                    assert(entries@.map_values(|e2: AppEntry| e2@) =~= spec_build(cur));
                }
            }
            i = i + 1;
        }
        proof {
            assert(rv.subrange(0, rv.len() as int) =~= rv);
        }
        AppIndex { entries }
    }

    /// How many descriptors the index holds.
    pub fn len(&self) -> (n: usize)
        ensures
            n == self@.len(),
    {
        self.entries.len()
    }

    /// The descriptor at position `i`.
    pub fn get(&self, i: usize) -> (e: &AppEntry)
        requires
            i < self@.len(),
        ensures
            e@ == self@[i as int],
    {
        &self.entries[i]
    }
}

/// A hidden raw descriptor never yields an index entry: every index entry
/// comes from a record that was offered, and offered records are not hidden.
pub proof fn lemma_hidden_never_indexed(raw: Seq<RawEntryV>, j: int)
    requires
        0 <= j < spec_build(raw).len(),
    ensures
        exists|i: int|
            0 <= i < raw.len() && !(#[trigger] raw[i]).hidden && spec_build(raw)[j]
                == admitted_entry(raw[i]),
    decreases raw.len(),
{
    if raw.len() > 0 {
        let prev = spec_build(raw.drop_last());
        if j < prev.len() {
            lemma_hidden_never_indexed(raw.drop_last(), j);
            let i0 = choose|i: int|
                0 <= i < raw.drop_last().len() && !(#[trigger] raw.drop_last()[i]).hidden
                    && prev[j] == admitted_entry(raw.drop_last()[i]);
            assert(raw[i0] == raw.drop_last()[i0]);
            assert(spec_build(raw)[j] == prev[j]);
        } else {
            assert(offered(raw.last()));
            assert(spec_build(raw)[j] == admitted_entry(raw[raw.len() - 1]));
        }
    }
}

} // verus!
