//! Dispatch tables: the ordered entries by which a language plugin says
//! which handler executes which command, and the resolution of a command
//! against such a table.
//!
//! The table is scanned in declared order up to its sentinel. An entry
//! matches a command if its name equals the command's first token, or if its
//! router claims the command. The first match wins. A match flagged as
//! removed fails the resolution; without any match the fallback handler of
//! the language is taken, and without a fallback the command is unknown.

use crate::plugin::{
    AtExitStub, CmdCleanupStub, CommandRouterStub, InitStub, PCallCommandStub, Stubs,
};
use crate::program::Command;
use vstd::prelude::*;

verus! {

/// By what an entry recognises its commands.
#[derive(Debug)]
pub enum Matcher {
    /// By nothing: the entry is the sentinel that ends a table.
    Sentinel,
    /// By the exact name of the command.
    Name(String),
    /// By a predicate of the plugin.
    Router(CommandRouterStub),
}

/// A [`Matcher`] as plain values.
pub enum MatcherView {
    Sentinel,
    Name(Seq<char>),
    Router(CommandRouterStub),
}

impl View for Matcher {
    type V = MatcherView;

    open spec fn view(&self) -> MatcherView {
        match self {
            Matcher::Sentinel => MatcherView::Sentinel,
            Matcher::Name(name) => MatcherView::Name(name@),
            Matcher::Router(stub) => MatcherView::Router(*stub),
        }
    }
}

/// One entry of a dispatch table. It matches by a name or by a router, never
/// by both.
#[derive(Debug)]
pub struct PCallCommand {
    pub matcher: Matcher,
    pub stub: Option<PCallCommandStub>,
    pub deprecated: bool,
    pub removed: bool,
}

impl PCallCommand {
    /// Whether the entry is the sentinel that ends a table.
    pub fn is_sentinel(&self) -> (b: bool)
        ensures
            b == (self@.matcher is Sentinel),
    {
        match &self.matcher {
            Matcher::Sentinel => true,
            _ => false,
        }
    }
}

/// A [`PCallCommand`] as plain values.
pub struct EntryView {
    pub matcher: MatcherView,
    pub stub: Option<PCallCommandStub>,
    pub deprecated: bool,
    pub removed: bool,
}

impl View for PCallCommand {
    type V = EntryView;

    open spec fn view(&self) -> EntryView {
        EntryView {
            matcher: self.matcher@,
            stub: self.stub,
            deprecated: self.deprecated,
            removed: self.removed,
        }
    }
}

/// A language plugin as registered: its name and description, the stubs of
/// its lifecycle hooks, its dispatch table and its fallback handler.
#[derive(Debug)]
pub struct Language {
    pub lang_name: Option<String>,
    pub lang_info: Option<String>,
    pub init: Option<InitStub>,
    pub atexit: Option<AtExitStub>,
    pub cmd_cleanup: Option<CmdCleanupStub>,
    pub pcall_cmds: Vec<PCallCommand>,
    pub fallback: Option<PCallCommandStub>,
}

/// The entries of a table as plain values.
pub open spec fn table_view(entries: Seq<PCallCommand>) -> Seq<EntryView> {
    Seq::new(entries.len(), |i: int| entries[i]@)
}

impl Language {
    /// The dispatch table as plain values.
    pub open spec fn table(&self) -> Seq<EntryView> {
        table_view(self.pcall_cmds@)
    }
}

/// An entry that matches the commands named `cmd_name`.
pub fn make_pcall_cmd(
    cmd_name: &str,
    stub: Option<PCallCommandStub>,
    deprecated: bool,
    removed: bool,
) -> (r: PCallCommand)
    ensures
        r@ == (EntryView { matcher: MatcherView::Name(cmd_name@), stub, deprecated, removed }),
{
    PCallCommand { matcher: Matcher::Name(cmd_name.to_owned()), stub, deprecated, removed }
}

/// An entry that matches the commands that the router `router_stub` claims.
/// Without a router the entry matches by nothing, as the sentinel does.
pub fn make_pcall_cmd_custom_router(
    router_stub: Option<CommandRouterStub>,
    stub: Option<PCallCommandStub>,
    deprecated: bool,
    removed: bool,
) -> (r: PCallCommand)
    ensures
        r@ == (EntryView {
            matcher: match router_stub {
                Some(router) => MatcherView::Router(router),
                None => MatcherView::Sentinel,
            },
            stub,
            deprecated,
            removed,
        }),
{
    let matcher = match router_stub {
        Some(router) => Matcher::Router(router),
        None => Matcher::Sentinel,
    };
    PCallCommand { matcher, stub, deprecated, removed }
}

/// The sentinel entry, which ends a dispatch table.
pub fn make_empty_pcall_cmd() -> (r: PCallCommand)
    ensures
        r@ == (EntryView {
            matcher: MatcherView::Sentinel,
            stub: None,
            deprecated: false,
            removed: false,
        }),
{
    PCallCommand { matcher: Matcher::Sentinel, stub: None, deprecated: false, removed: false }
}

/// The text of `text`, if there is one.
pub open spec fn text_view(text: Option<&str>) -> Option<Seq<char>> {
    match text {
        Some(t) => Some(t@),
        None => None,
    }
}

/// The text of `text`, if there is one.
pub open spec fn string_view(text: Option<String>) -> Option<Seq<char>> {
    match text {
        Some(t) => Some(t@),
        None => None,
    }
}

/// A language with the given name, description, lifecycle hooks, dispatch
/// table and fallback handler, and without a hook for the cleanup of
/// commands.
pub fn make_language(
    lang_name: Option<&str>,
    lang_info: Option<&str>,
    init: Option<InitStub>,
    atexit: Option<AtExitStub>,
    pcall_cmds: Vec<PCallCommand>,
    fallback: Option<PCallCommandStub>,
) -> (r: Language)
    ensures
        string_view(r.lang_name) == text_view(lang_name),
        string_view(r.lang_info) == text_view(lang_info),
        r.init == init,
        r.atexit == atexit,
        r.cmd_cleanup is None,
        r.pcall_cmds == pcall_cmds,
        r.fallback == fallback,
{
    Language {
        lang_name: match lang_name {
            Some(name) => Some(name.to_owned()),
            None => None,
        },
        lang_info: match lang_info {
            Some(info) => Some(info.to_owned()),
            None => None,
        },
        init,
        atexit,
        cmd_cleanup: None,
        pcall_cmds,
        fallback,
    }
}

/// How a command resolves against a dispatch table.
#[derive(Clone, Copy, Debug, PartialEq, Eq, Structural)]
pub enum Resolution {
    /// The entry at `index` matched first. Its handler is `stub`; if the
    /// entry is deprecated, running the command raises an advisory.
    Entry { index: usize, stub: Option<PCallCommandStub>, deprecated: bool },
    /// No entry matched: the fallback handler of the language takes the
    /// command.
    Fallback { fallback: PCallCommandStub },
    /// The entry at `index` matched first and is flagged as removed.
    Removed { index: usize },
    /// No entry matched and the language has no fallback.
    Unknown,
}

/// Whether `entry` matches a command named `name`, where `verdict` is what
/// the router of the entry said of the command, if it has one.
pub open spec fn entry_matches(entry: EntryView, name: Seq<char>, verdict: bool) -> bool {
    match entry.matcher {
        MatcherView::Sentinel => false,
        MatcherView::Name(n) => n == name,
        MatcherView::Router(_) => verdict,
    }
}

/// The first entry at or after `from`, and before the sentinel, that matches
/// a command named `name`; `verdicts[i]` is what the router of entry `i`
/// said.
pub open spec fn first_match(table: Seq<EntryView>, name: Seq<char>, verdicts: Seq<bool>, from: int)
    -> Option<int>
    decreases table.len() - from,
{
    if from < 0 || from >= table.len() || table[from].matcher is Sentinel {
        None
    } else if entry_matches(table[from], name, verdicts[from]) {
        Some(from)
    } else {
        first_match(table, name, verdicts, from + 1)
    }
}

/// What the match at `index` of `table` resolves to.
pub open spec fn matched(table: Seq<EntryView>, index: int) -> Resolution {
    if table[index].removed {
        Resolution::Removed { index: index as usize }
    } else {
        Resolution::Entry {
            index: index as usize,
            stub: table[index].stub,
            deprecated: table[index].deprecated,
        }
    }
}

/// What a command without any match resolves to.
pub open spec fn unmatched(fallback: Option<PCallCommandStub>) -> Resolution {
    match fallback {
        Some(stub) => Resolution::Fallback { fallback: stub },
        None => Resolution::Unknown,
    }
}

/// How a command named `name` resolves against `table` with the fallback
/// `fallback`, given what the routers said.
pub open spec fn resolve_spec(
    table: Seq<EntryView>,
    fallback: Option<PCallCommandStub>,
    name: Seq<char>,
    verdicts: Seq<bool>,
) -> Resolution {
    match first_match(table, name, verdicts, 0) {
        Some(index) => matched(table, index),
        None => unmatched(fallback),
    }
}

/// A scan that meets neither a match nor the sentinel between `from` and
/// `to` goes on at `to`.
pub proof fn lemma_scan_skips(
    table: Seq<EntryView>,
    name: Seq<char>,
    verdicts: Seq<bool>,
    from: int,
    to: int,
)
    requires
        0 <= from <= to <= table.len(),
        forall|j: int|
            from <= j < to ==> !((#[trigger] table[j]).matcher is Sentinel) && !entry_matches(
                table[j],
                name,
                verdicts[j],
            ),
    ensures
        first_match(table, name, verdicts, from) == first_match(table, name, verdicts, to),
    decreases to - from,
{
    if from < to {
        assert(!(table[from].matcher is Sentinel));
        lemma_scan_skips(table, name, verdicts, from + 1, to);
    }
}

/// What a scan finds: a match lies in the table before any sentinel, and no
/// entry before it matches; without a match, no entry before the sentinel or
/// the end of the table matches.
pub proof fn lemma_first_match(
    table: Seq<EntryView>,
    name: Seq<char>,
    verdicts: Seq<bool>,
    from: int,
)
    requires
        0 <= from,
    ensures
        match first_match(table, name, verdicts, from) {
            Some(index) => {
                &&& from <= index < table.len()
                &&& entry_matches(table[index], name, verdicts[index])
                &&& forall|j: int|
                    from <= j < index ==> !((#[trigger] table[j]).matcher is Sentinel)
                        && !entry_matches(table[j], name, verdicts[j])
            },
            None => forall|j: int|
                from <= j < table.len() && entry_matches(#[trigger] table[j], name, verdicts[j])
                    ==> exists|k: int| from <= k < j && (#[trigger] table[k]).matcher is Sentinel,
        },
    decreases table.len() - from,
{
    if from >= table.len() {
    } else if table[from].matcher is Sentinel {
        assert forall|j: int|
            from <= j < table.len() && entry_matches(
                #[trigger] table[j],
                name,
                verdicts[j],
            ) implies exists|k: int| from <= k < j && (#[trigger] table[k]).matcher is Sentinel by {
            assert(table[from].matcher is Sentinel);
        }
    } else if entry_matches(table[from], name, verdicts[from]) {
    } else {
        lemma_first_match(table, name, verdicts, from + 1);
        match first_match(table, name, verdicts, from + 1) {
            Some(index) => {},
            None => {
                assert forall|j: int|
                    from <= j < table.len() && entry_matches(
                        #[trigger] table[j],
                        name,
                        verdicts[j],
                    ) implies exists|k: int|
                    from <= k < j && (#[trigger] table[k]).matcher is Sentinel by {
                    let k = choose|k: int|
                        from + 1 <= k < j && (#[trigger] table[k]).matcher is Sentinel;
                    assert(from <= k < j && table[k].matcher is Sentinel);
                }
            },
        }
    }
}

/// The first match wins: if the entry at `index` matches and no entry
/// before it matches or ends the table, the command resolves by that entry,
/// whatever entries follow it and whatever the fallback is.
pub proof fn lemma_first_match_wins(
    table: Seq<EntryView>,
    fallback: Option<PCallCommandStub>,
    name: Seq<char>,
    verdicts: Seq<bool>,
    index: int,
)
    requires
        0 <= index < table.len(),
        entry_matches(table[index], name, verdicts[index]),
        forall|j: int|
            0 <= j < index ==> !((#[trigger] table[j]).matcher is Sentinel) && !entry_matches(
                table[j],
                name,
                verdicts[j],
            ),
    ensures
        resolve_spec(table, fallback, name, verdicts) == matched(table, index),
{
    lemma_scan_skips(table, name, verdicts, 0, index);
}

/// Only entries before the match are looked at: tables that agree up to
/// and including the first match resolve a command alike.
pub proof fn lemma_later_entries_ignored(
    a: Seq<EntryView>,
    b: Seq<EntryView>,
    fallback_a: Option<PCallCommandStub>,
    fallback_b: Option<PCallCommandStub>,
    name: Seq<char>,
    verdicts: Seq<bool>,
)
    requires
        first_match(a, name, verdicts, 0) matches Some(index) && index < b.len() && forall|j: int|
            0 <= j <= index ==> a[j] == b[j],
    ensures
        resolve_spec(a, fallback_a, name, verdicts) == resolve_spec(b, fallback_b, name, verdicts),
{
    lemma_first_match(a, name, verdicts, 0);
    let index = first_match(a, name, verdicts, 0)->0;
    lemma_first_match_wins(b, fallback_b, name, verdicts, index);
}

/// The sentinel ends the table: if no entry before the sentinel, or before
/// the end of a table without one, matches, the command takes the fallback
/// or is unknown, whatever stands behind the sentinel.
pub proof fn lemma_sentinel_ends_table(
    table: Seq<EntryView>,
    fallback: Option<PCallCommandStub>,
    name: Seq<char>,
    verdicts: Seq<bool>,
    end: int,
)
    requires
        0 <= end <= table.len(),
        end < table.len() ==> table[end].matcher is Sentinel,
        forall|j: int|
            0 <= j < end ==> !((#[trigger] table[j]).matcher is Sentinel) && !entry_matches(
                table[j],
                name,
                verdicts[j],
            ),
    ensures
        resolve_spec(table, fallback, name, verdicts) == unmatched(fallback),
{
    lemma_scan_skips(table, name, verdicts, 0, end);
}

/// A removed entry that matches first fails the resolution, and a
/// deprecated one that matches first and is not removed resolves with its
/// handler and its flag.
pub proof fn lemma_flags_of_the_match(
    table: Seq<EntryView>,
    fallback: Option<PCallCommandStub>,
    name: Seq<char>,
    verdicts: Seq<bool>,
)
    requires
        first_match(table, name, verdicts, 0) is Some,
    ensures
        ({
            let index = first_match(table, name, verdicts, 0)->0;
            let r = resolve_spec(table, fallback, name, verdicts);
            &&& table[index].removed ==> r == (Resolution::Removed { index: index as usize })
            &&& !table[index].removed ==> r == (Resolution::Entry {
                index: index as usize,
                stub: table[index].stub,
                deprecated: table[index].deprecated,
            })
        }),
{
}

/// Whether `a` and `b` hold the same text.
pub fn same_text(a: &String, b: &String) -> (r: bool)
    ensures
        r == (a@ == b@),
{
    *a == *b
}

/// What the match at `index` of the table resolves to.
pub fn resolve_match(entries: &Vec<PCallCommand>, index: usize) -> (r: Resolution)
    requires
        index < entries@.len(),
    ensures
        r == matched(table_view(entries@), index as int),
{
    let entry = &entries[index];
    if entry.removed {
        Resolution::Removed { index }
    } else {
        Resolution::Entry { index, stub: entry.stub, deprecated: entry.deprecated }
    }
}

/// What a command without any match resolves to.
pub fn resolve_unmatched(fallback: Option<PCallCommandStub>) -> (r: Resolution)
    ensures
        r == unmatched(fallback),
{
    match fallback {
        Some(stub) => Resolution::Fallback { fallback: stub },
        None => Resolution::Unknown,
    }
}

/// `verdicts` cut or filled with `false` to the length `len`.
pub open spec fn padded(verdicts: Seq<bool>, len: nat) -> Seq<bool> {
    Seq::new(len, |i: int| i < verdicts.len() && verdicts[i])
}

impl Language {
    /// Resolves a command named `name`, taking from `verdicts` what the
    /// router of each entry says of the command; a router whose verdict
    /// `verdicts` does not hold counts as not claiming it.
    pub fn resolve_with(&self, name: &str, verdicts: &Vec<bool>) -> (r: Resolution)
        ensures
            r == resolve_spec(
                self.table(),
                self.fallback,
                name@,
                padded(verdicts@, self.table().len()),
            ),
    {
        let ghost table = self.table();
        let ghost all = padded(verdicts@, table.len());
        let word = name.to_owned();
        let mut i: usize = 0;
        while i < self.pcall_cmds.len()
            invariant
                i <= self.pcall_cmds@.len(),
                table == self.table(),
                all == padded(verdicts@, table.len()),
                word@ == name@,
                forall|j: int|
                    0 <= j < i ==> !((#[trigger] table[j]).matcher is Sentinel) && !entry_matches(
                        table[j],
                        name@,
                        all[j],
                    ),
            decreases self.pcall_cmds@.len() - i,
        {
            let entry = &self.pcall_cmds[i];
            assert(table[i as int] == entry@);
            proof {
                lemma_scan_skips(table, name@, all, 0, i as int);
            }
            let hit = match &entry.matcher {
                Matcher::Sentinel => {
                    return resolve_unmatched(self.fallback);
                },
                Matcher::Name(n) => same_text(n, &word),
                Matcher::Router(_) => i < verdicts.len() && verdicts[i],
            };
            if hit {
                return resolve_match(&self.pcall_cmds, i);
            }
            i += 1;
        }
        proof {
            lemma_scan_skips(table, name@, all, 0, i as int);
        }
        resolve_unmatched(self.fallback)
    }

    /// Resolves `command`: scans the table in order and asks the router of
    /// each entry that has one, until an entry matches or the table ends.
    ///
    /// Whatever the routers say, the result is the resolution that
    /// [`resolve_spec`] defines for some verdicts of theirs.
    pub fn resolve<'a, S: Stubs>(&self, stubs: &mut S, command: &Command<'a>) -> (r: Resolution)
        ensures
            exists|verdicts: Seq<bool>| #[trigger]
                resolve_spec(self.table(), self.fallback, command@.tokens[0].text, verdicts) == r,
    {
        let ghost table = self.table();
        let ghost name = command@.tokens[0].text;
        let ghost mut verdicts: Seq<bool> = Seq::new(table.len(), |i: int| false);
        let word = command.first_word();
        let mut outcome: Option<Resolution> = None;
        let mut i: usize = 0;
        while i < self.pcall_cmds.len() && outcome.is_none()
            invariant
                i <= self.pcall_cmds@.len(),
                table == self.table(),
                verdicts.len() == table.len(),
                word@ == name,
                outcome is None ==> forall|j: int|
                    0 <= j < i ==> !((#[trigger] table[j]).matcher is Sentinel) && !entry_matches(
                        table[j],
                        name,
                        verdicts[j],
                    ),
                outcome matches Some(r) ==> r == resolve_spec(
                    table,
                    self.fallback,
                    name,
                    verdicts,
                ),
            decreases
                    self.pcall_cmds@.len() - i + if outcome is None {
                        1int
                    } else {
                        0int
                    },
        {
            let entry = &self.pcall_cmds[i];
            assert(table[i as int] == entry@);
            let hit = match &entry.matcher {
                Matcher::Sentinel => false,
                Matcher::Name(n) => same_text(n, word),
                Matcher::Router(router) => {
                    let verdict = stubs.route(*router, command);
                    proof {
                        verdicts = verdicts.update(i as int, verdict);
                    }
                    verdict
                },
            };
            proof {
                lemma_scan_skips(table, name, verdicts, 0, i as int);
            }
            if hit {
                outcome = Some(resolve_match(&self.pcall_cmds, i));
            } else if entry.is_sentinel() {
                outcome = Some(resolve_unmatched(self.fallback));
            } else {
                i += 1;
            }
        }
        match outcome {
            Some(r) => r,
            None => {
                proof {
                    lemma_scan_skips(table, name, verdicts, 0, i as int);
                }
                resolve_unmatched(self.fallback)
            },
        }
    }
}

} // verus!
