//! What a report is narrowed to, and what that means for the exit code.
//!
//! Narrowing filters what is reported and nothing else. It never changes how `PATH` is
//! composed, and entries keep the index they hold in the full composed order.

use vstd::prelude::*;

use crate::report::{any_finding, AuditReport, EntryModel, PathEntry, PathScope, ReportModel};

verus! {

/// Which `PATH` scopes to report on. A display filter only.
#[derive(Debug, Clone, Copy, PartialEq, Eq, Structural)]
pub enum ScopeFilter {
    /// Everything, including directories injected at runtime.
    All,
    /// Only `HKLM` entries.
    Machine,
    /// Only `HKCU` entries.
    User,
}

/// How to report.
#[derive(Debug, Clone, Copy, PartialEq, Eq, Structural)]
pub struct Options {
    /// Emit the report as JSON instead of a table.
    pub json: bool,
    /// Which scopes to report on. Composition and indices are unaffected.
    pub scope: ScopeFilter,
    /// Report only shadowed executables, omitting the composition table.
    pub shadows_only: bool,
    /// Never emit colour, whatever the destination supports.
    pub no_color: bool,
}

/// Whether a filter lets entries of a scope through. Runtime injection is neither machine
/// nor user, so a scoped report omits it.
pub open spec fn lets_through(filter: ScopeFilter, scope: PathScope) -> bool {
    match filter {
        ScopeFilter::All => true,
        ScopeFilter::Machine => scope == PathScope::Machine,
        ScopeFilter::User => scope == PathScope::User,
    }
}

/// The entries a filter lets through, in order and as they are.
pub open spec fn selected(filter: ScopeFilter, entries: Seq<EntryModel>) -> Seq<EntryModel> {
    entries.filter(|entry: EntryModel| lets_through(filter, entry.scope))
}

impl Options {
    /// Whether an entry survives the scope filter.
    pub fn includes(&self, entry: &PathEntry) -> (included: bool)
        ensures
            included == lets_through(self.scope, entry.scope),
    {
        match self.scope {
            ScopeFilter::All => true,
            ScopeFilter::Machine => entry.scope == PathScope::Machine,
            ScopeFilter::User => entry.scope == PathScope::User,
        }
    }

    /// The entries that survive the scope filter.
    pub fn select<'a>(&self, entries: &'a Vec<PathEntry>) -> (chosen: Vec<&'a PathEntry>)
        ensures
            chosen.deep_view() == selected(self.scope, entries.deep_view()),
    {
        let ghost all = entries.deep_view();
        let ghost survives = |entry: EntryModel| lets_through(self.scope, entry.scope);
        let mut chosen: Vec<&'a PathEntry> = Vec::new();
        let mut i: usize = 0;
        assert(all.take(0).filter(survives) =~= chosen.deep_view()) by {
            reveal(Seq::filter);
        }
        while i < entries.len()
            invariant
                all == entries.deep_view(),
                survives == (|entry: EntryModel| lets_through(self.scope, entry.scope)),
                i <= entries.len(),
                chosen.deep_view() == all.take(i as int).filter(survives),
            decreases entries.len() - i,
        {
            let ghost before = chosen.deep_view();
            assert(all[i as int] == entries@[i as int]@);
            assert(all.take(i + 1) =~= all.take(i as int).push(all[i as int]));
            proof {
                all.take(i as int).lemma_filter_push(all[i as int], survives);
            }
            if self.includes(&entries[i]) {
                chosen.push(&entries[i]);
                assert(chosen.deep_view() =~= before.push(all[i as int]));
            }
            i += 1;
        }
        assert(all.take(i as int) =~= all);
        chosen
    }
}

/// Whether a report narrowed to some entries, or to the shadowed names alone, contains a
/// finding.
pub open spec fn finds(report: ReportModel, entries: Seq<EntryModel>, shadows_only: bool) -> bool {
    (!shadows_only && any_finding(entries)) || report.shadowed().len() > 0
}

/// Whether the output actually contained a finding.
///
/// Deliberately about the reported view rather than the whole audit, so a report on the
/// machine scope is clean when the only problem is in the user scope.
pub fn reported_findings(
    report: &AuditReport,
    entries: &Vec<&PathEntry>,
    shadows_only: bool,
) -> (found: bool)
    ensures
        found == finds(report@, entries.deep_view(), shadows_only),
{
    let ghost all = entries.deep_view();
    if !shadows_only {
        let mut i: usize = 0;
        while i < entries.len()
            invariant
                !shadows_only,
                all == entries.deep_view(),
                i <= entries.len(),
                forall|k: int| 0 <= k < i ==> (#[trigger] all[k]).findings.len() == 0,
            decreases entries.len() - i,
        {
            assert(all[i as int] == entries@[i as int]@);
            assert(entries@[i as int].findings.len() == all[i as int].findings.len());
            if entries[i].findings.len() > 0 {
                return true;
            }
            i += 1;
        }
    }
    let shadowed = report.shadowed();
    assert(shadowed.deep_view().len() == shadowed.len());
    shadowed.len() > 0
}

/// A report narrowed to nothing contains a finding exactly when the audit found one.
pub proof fn an_unnarrowed_report_tells_all(report: ReportModel)
    ensures
        finds(report, selected(ScopeFilter::All, report.entries), false) == report.has_findings(),
{
    let survives = |entry: EntryModel| lets_through(ScopeFilter::All, entry.scope);
    assert(report.entries.filter(survives) =~= report.entries) by {
        lemma_filter_all(report.entries, survives);
    }
}

proof fn lemma_filter_all(entries: Seq<EntryModel>, survives: spec_fn(EntryModel) -> bool)
    requires
        forall|entry: EntryModel| #[trigger] survives(entry),
    ensures
        entries.filter(survives) == entries,
    decreases entries.len(),
{
    reveal(Seq::filter);
    if entries.len() > 0 {
        lemma_filter_all(entries.drop_last(), survives);
        assert(entries =~= entries.drop_last().push(entries.last()));
    }
}

/// A finding outside the reported scope does not count: what a narrowed report finds among
/// the entries is what an entry of that scope has.
pub proof fn only_the_reported_scope_counts(
    report: ReportModel,
    filter: ScopeFilter,
    shadows_only: bool,
)
    ensures
        finds(report, selected(filter, report.entries), shadows_only) <==> {
            ||| report.shadowed().len() > 0
            ||| !shadows_only && exists|i: int|
                {
                    &&& 0 <= i < report.entries.len()
                    &&& lets_through(filter, (#[trigger] report.entries[i]).scope)
                    &&& report.entries[i].findings.len() > 0
                }
        },
{
    let all = report.entries;
    let survives = |entry: EntryModel| lets_through(filter, entry.scope);
    let chosen = selected(filter, all);
    if any_finding(chosen) {
        let k = choose|k: int| 0 <= k < chosen.len() && (#[trigger] chosen[k]).findings.len() > 0;
        all.lemma_filter_pred(survives, k);
        assert(chosen.contains(chosen[k]));
        all.lemma_filter_contains_rev(survives, chosen[k]);
        let i = choose|i: int| 0 <= i < all.len() && all[i] == chosen[k];
        assert(lets_through(filter, all[i].scope));
    }
    if exists|i: int|
        {
            &&& 0 <= i < all.len()
            &&& lets_through(filter, (#[trigger] all[i]).scope)
            &&& all[i].findings.len() > 0
        } {
        let i = choose|i: int|
            {
                &&& 0 <= i < all.len()
                &&& lets_through(filter, (#[trigger] all[i]).scope)
                &&& all[i].findings.len() > 0
            };
        all.lemma_filter_contains(survives, i);
        let k = choose|k: int| 0 <= k < chosen.len() && chosen[k] == all[i];
        assert(chosen[k].findings.len() > 0);
    }
}

/// Exit code for a clean audit.
pub const EXIT_CLEAN: u8 = 0;

/// Exit code when the audit found something worth reporting.
pub const EXIT_FINDINGS: u8 = 1;

/// Exit code for a fatal error.
pub const EXIT_FATAL: u8 = 2;

/// How a run ended.
#[derive(Debug, Clone, Copy, PartialEq, Eq, Structural)]
pub enum Ending {
    /// The audit could not be carried out.
    AuditFailed,
    /// The report could not be written.
    WriteFailed,
    /// Whoever was reading the report stopped before its end. Nothing went wrong.
    PipeClosed,
    /// The report was written.
    Written {
        /// Whether it contained a finding.
        findings: bool,
    },
}

/// The exit code of a run.
pub open spec fn code_of(ending: Ending) -> u8 {
    match ending {
        Ending::AuditFailed => EXIT_FATAL,
        Ending::WriteFailed => EXIT_FATAL,
        Ending::PipeClosed => EXIT_CLEAN,
        Ending::Written { findings } => if findings {
            EXIT_FINDINGS
        } else {
            EXIT_CLEAN
        },
    }
}

/// The exit code of a run: it describes what was reported.
pub fn exit_code(ending: Ending) -> (code: u8)
    ensures
        code == code_of(ending),
{
    match ending {
        Ending::AuditFailed | Ending::WriteFailed => EXIT_FATAL,
        Ending::PipeClosed => EXIT_CLEAN,
        Ending::Written { findings } => if findings {
            EXIT_FINDINGS
        } else {
            EXIT_CLEAN
        },
    }
}

/// The entries reported are those of the scope asked for, each as it is, and all entries
/// where no scope was asked for. They keep their order and none is left out.
pub proof fn a_filter_keeps_the_scope_asked_for(
    filter: ScopeFilter,
    entries: Seq<EntryModel>,
    entry: EntryModel,
)
    ensures
        selected(ScopeFilter::All, entries) == entries,
        selected(ScopeFilter::Machine, entries).contains(entry) <==> entries.contains(entry)
            && entry.scope == PathScope::Machine,
        selected(ScopeFilter::User, entries).contains(entry) <==> entries.contains(entry)
            && entry.scope == PathScope::User,
        selected(filter, entries).len() <= entries.len(),
{
    let all = |one: EntryModel| lets_through(ScopeFilter::All, one.scope);
    lemma_filter_all(entries, all);
    lemma_selected(ScopeFilter::Machine, entries, entry);
    lemma_selected(ScopeFilter::User, entries, entry);
    entries.lemma_filter_len(|one: EntryModel| lets_through(filter, one.scope));
}

proof fn lemma_selected(filter: ScopeFilter, entries: Seq<EntryModel>, entry: EntryModel)
    ensures
        selected(filter, entries).contains(entry) <==> entries.contains(entry) && lets_through(
            filter,
            entry.scope,
        ),
{
    let survives = |one: EntryModel| lets_through(filter, one.scope);
    let chosen = selected(filter, entries);
    if chosen.contains(entry) {
        let k = choose|k: int| 0 <= k < chosen.len() && chosen[k] == entry;
        entries.lemma_filter_pred(survives, k);
        entries.lemma_filter_contains_rev(survives, entry);
    }
    if entries.contains(entry) && lets_through(filter, entry.scope) {
        let i = choose|i: int| 0 <= i < entries.len() && entries[i] == entry;
        entries.lemma_filter_contains(survives, i);
    }
}

/// One more entry at the end is reported behind the others if it is of the scope asked for.
pub proof fn entries_are_reported_in_order(
    filter: ScopeFilter,
    entries: Seq<EntryModel>,
    entry: EntryModel,
)
    ensures
        filter == ScopeFilter::Machine && entry.scope == PathScope::Machine ==> selected(
            filter,
            entries.push(entry),
        ) == selected(filter, entries).push(entry),
        filter == ScopeFilter::User && entry.scope == PathScope::User ==> selected(
            filter,
            entries.push(entry),
        ) == selected(filter, entries).push(entry),
        entry.scope == PathScope::ProcessOnly && filter != ScopeFilter::All ==> selected(
            filter,
            entries.push(entry),
        ) == selected(filter, entries),
{
    let survives = |one: EntryModel| lets_through(filter, one.scope);
    entries.lemma_filter_push(entry, survives);
}

/// The exit code is zero for a report without findings, and for a reader who stopped
/// reading; one for a report with findings; and two where something failed.
pub proof fn the_exit_code_tells_how_it_went(ending: Ending)
    ensures
        code_of(ending) == 0 <==> ending == Ending::PipeClosed || ending == (Ending::Written {
            findings: false,
        }),
        code_of(ending) == 1 <==> ending == (Ending::Written { findings: true }),
        code_of(ending) == 2 <==> ending == Ending::AuditFailed || ending == Ending::WriteFailed,
{
}

} // verus!
