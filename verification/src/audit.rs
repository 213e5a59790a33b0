//! The audit itself: every step in order, from the stored value to the report.
//!
//! The registry, the environment, the filesystem and the shells are reached through
//! functions the caller hands in. What is asked of them, in which order, and what their
//! answers amount to is decided here.

use vstd::prelude::*;

use crate::compose::{
    a_live_position_is_the_first_for_its_directory, an_injected_directory_is_live_and_no_repeat,
    compose, composed, composes_to, composition_follows_the_environment, injected, is_reading,
    live_segments, machine_precedes_user_precedes_runtime, reads, segment_count, stored_in,
    takes_any_name, SegmentModel,
};
use crate::executables::{
    agrees, all_files, all_listed, an_occurrence_agrees_with_its_entry, enumerable, enumerate,
    enumerates_to, enumeration, enumeration_follows_the_disk, every_program_is_recorded,
    found_files_are_live_or_not, listed, listings_on, lists, may_come_of_all,
    pathext_decides_within_one_directory, reading_adds_what_went_wrong, takes_any_directory,
    ItemModel, Listing, ListingModel,
};
use crate::pathext::{extensions, extensions_from, looks_for, splits_first_at};
use crate::resolution::{
    every_file_is_recorded_under_its_name, in_resolution_order,
    occurrences_are_listed_as_they_are_searched, the_first_occurrence_wins_now,
};
use crate::constructs::constructs_in;
use crate::masking::{
    a_record_carries_what_the_output_says, answered, answers_follow_the_shells, answers_of,
    every_record_names_a_consulted_interpreter, masked, may_answer_all, paths_to_ask, records_for,
    runs, runs_anything, scan, scans_to, whoever_is_consulted_answered,
};
use crate::probe::{
    annotate, annotates_all, findings_follow_the_filesystem, probed_on, probing_only_adds_findings,
    takes_any_path, tells, Probe,
};
use crate::registry::{
    holds_values, may_store, read_machine_path, read_user_path, scope_path, ScopeModel, VALUE_NAME,
};
use crate::report::{
    live_winner_is_the_first_reachable, AuditError, AuditOptions, AuditReport, Capability,
    EntryModel, InterceptModel, Interpreter, InterpreterModel, OccurrenceModel, PathEntry,
    PathScope, ReportModel, Resolved, ResolvedModel, ShellScan,
};
use crate::text::{lowercase, sorts_before};
use crate::winenv::{Scope, ValueRead, ValueReadModel};

verus! {

/// What a run has computed. Shell masking is claimed only if some interpreter answered:
/// otherwise a name without records would read as one that nothing masks.
pub open spec fn capabilities_of(consulted: Seq<InterpreterModel>) -> Seq<Capability> {
    let always = seq![
        Capability::Composition,
        Capability::EntryFindings,
        Capability::ShadowDetection,
    ];
    if consulted.len() > 0 {
        always.push(Capability::ShellMasking)
    } else {
        always
    }
}

/// The report that the results of a run make up.
pub fn assemble(
    entries: Vec<PathEntry>,
    executables: Vec<Resolved>,
    interpreters_consulted: Vec<Interpreter>,
) -> (report: AuditReport)
    ensures
        report@ == (ReportModel {
            entries: entries.deep_view(),
            executables: executables.deep_view(),
            interpreters_consulted: interpreters_consulted.deep_view(),
            capabilities: capabilities_of(interpreters_consulted.deep_view()),
        }),
{
    let mut capabilities: Vec<Capability> = Vec::new();
    capabilities.push(Capability::Composition);
    capabilities.push(Capability::EntryFindings);
    capabilities.push(Capability::ShadowDetection);
    assert(interpreters_consulted.deep_view().len() == interpreters_consulted.len());
    if interpreters_consulted.len() > 0 {
        capabilities.push(Capability::ShellMasking);
    }
    assert(capabilities@ =~= capabilities_of(interpreters_consulted.deep_view()));
    AuditReport { entries, executables, interpreters_consulted, capabilities }
}

/// Whether a report may come of the values that the two scopes store. The steps build on
/// each other: the filesystem decides which directories are worth reading, reading them
/// is what finds the executables, and those are what the interpreters to ask are found
/// among.
pub open spec fn reports_on<
    F: Fn(&str) -> Option<String>,
    P: Fn(&str) -> Probe,
    D: Fn(&str) -> Listing,
    R: Fn(&str, bool) -> Option<String>,
>(
    mode: ShellScan,
    requested: Seq<Seq<char>>,
    machine: Option<ScopeModel>,
    user: Option<ScopeModel>,
    process: Option<Seq<char>>,
    lookup: F,
    probe: P,
    list: D,
    run: R,
    report: ReportModel,
) -> bool {
    exists|
        ordered: Seq<EntryModel>,
        known: Seq<EntryModel>,
        extensions: Seq<Seq<char>>,
        found: Seq<ResolvedModel>,
    |
        {
            &&& #[trigger] composes_to(lookup, machine, user, process, ordered)
            &&& #[trigger] annotates_all(probe, ordered, known)
            &&& looks_for(lookup, extensions)
            &&& #[trigger] enumerates_to(list, extensions, known, report.entries, found)
            &&& scans_to(
                run,
                mode,
                requested,
                found,
                report.executables,
                report.interpreters_consulted,
            )
            &&& report.capabilities == capabilities_of(report.interpreters_consulted)
        }
}

/// The model of the outcome of an audit, an error by its detail.
pub open spec fn outcome_model(outcome: Result<AuditReport, AuditError>) -> Result<
    ReportModel,
    Seq<char>,
> {
    match outcome {
        Ok(report) => Ok(report@),
        Err(error) => Err(error->0@),
    }
}

/// Whether an audit may come to an outcome: the error of the first scope whose `Path` cannot
/// be had, the machine's before the user's, and otherwise a report.
pub open spec fn audits_to<
    S: Fn(Scope, &str) -> ValueRead,
    F: Fn(&str) -> Option<String>,
    P: Fn(&str) -> Probe,
    D: Fn(&str) -> Listing,
    R: Fn(&str, bool) -> Option<String>,
>(
    mode: ShellScan,
    requested: Seq<Seq<char>>,
    stored: S,
    process: Option<Seq<char>>,
    lookup: F,
    probe: P,
    list: D,
    run: R,
    outcome: Result<ReportModel, Seq<char>>,
) -> bool {
    exists|machine_said: ValueReadModel|
        {
            &&& #[trigger] may_store(stored, Scope::Machine, VALUE_NAME@, machine_said)
            &&& match scope_path(Scope::Machine, machine_said) {
                Err(detail) => outcome == Err::<ReportModel, Seq<char>>(detail),
                Ok(machine) => exists|user_said: ValueReadModel|
                    {
                        &&& #[trigger] may_store(stored, Scope::User, VALUE_NAME@, user_said)
                        &&& match scope_path(Scope::User, user_said) {
                            Err(detail) => outcome == Err::<ReportModel, Seq<char>>(detail),
                            Ok(user) => outcome is Ok && reports_on(
                                mode,
                                requested,
                                machine,
                                user,
                                process,
                                lookup,
                                probe,
                                list,
                                run,
                                outcome->Ok_0,
                            ),
                        }
                    },
            }
        }
}

/// Audit the Windows `PATH` with explicit options.
///
/// Reads the stored value from both registry scopes, composes them the way Windows does,
/// then adds per-entry findings, reads the directories and works out which copy of each
/// name runs. The live process `PATH` counts too, but only to discover directories
/// injected at runtime.
///
/// # Errors
///
/// [`AuditError::Registry`] when the machine or user environment key cannot be read, or
/// its `Path` is not of a string kind. A scope that simply has no `Path` value is not an
/// error; it contributes no entries.
pub fn audit_with<
    S: Fn(Scope, &str) -> ValueRead,
    F: Fn(&str) -> Option<String>,
    P: Fn(&str) -> Probe,
    D: Fn(&str) -> Listing,
    R: Fn(&str, bool) -> Option<String>,
>(
    options: &AuditOptions,
    stored: &S,
    process: Option<&str>,
    lookup: &F,
    probe: &P,
    list: &D,
    run: &R,
) -> (outcome: Result<AuditReport, AuditError>)
    requires
        holds_values(*stored),
        takes_any_name(*lookup),
        takes_any_path(*probe),
        takes_any_directory(*list),
        runs_anything(*run),
    ensures
        audits_to(
            options.shell_scan,
            options.shell_interpreters.deep_view(),
            *stored,
            process.deep_view(),
            *lookup,
            *probe,
            *list,
            *run,
            outcome_model(outcome),
        ),
{
    let machine = match read_machine_path(stored) {
        Ok(value) => value,
        Err(error) => {
            return Err(error);
        },
    };
    let user = match read_user_path(stored) {
        Ok(value) => value,
        Err(error) => {
            return Err(error);
        },
    };

    let mut entries = compose(machine.as_ref(), user.as_ref(), process, lookup);
    let ghost ordered = entries.deep_view();
    annotate(&mut entries, probe);
    let ghost known = entries.deep_view();
    let extensions = extensions(lookup);
    let mut executables = enumerate(&mut entries, &extensions, list);
    let ghost found = executables.deep_view();
    let interpreters_consulted = scan(
        &mut executables,
        options.shell_scan,
        &options.shell_interpreters,
        run,
    );

    let report = assemble(entries, executables, interpreters_consulted);
    assert(composes_to(
        *lookup,
        machine.deep_view(),
        user.deep_view(),
        process.deep_view(),
        ordered,
    ));
    assert(annotates_all(*probe, ordered, known));
    assert(enumerates_to(*list, extensions.deep_view(), known, report@.entries, found));
    Ok(report)
}

/// Audit the Windows `PATH` with the default options, which ask the default interpreter
/// what it masks without loading a user profile.
///
/// # Errors
///
/// As [`audit_with`].
pub fn audit<
    S: Fn(Scope, &str) -> ValueRead,
    F: Fn(&str) -> Option<String>,
    P: Fn(&str) -> Probe,
    D: Fn(&str) -> Listing,
    R: Fn(&str, bool) -> Option<String>,
>(stored: &S, process: Option<&str>, lookup: &F, probe: &P, list: &D, run: &R) -> (outcome: Result<
    AuditReport,
    AuditError,
>)
    requires
        holds_values(*stored),
        takes_any_name(*lookup),
        takes_any_path(*probe),
        takes_any_directory(*list),
        runs_anything(*run),
    ensures
        audits_to(
            ShellScan::Ask { profile: false },
            Seq::empty(),
            *stored,
            process.deep_view(),
            *lookup,
            *probe,
            *list,
            *run,
            outcome_model(outcome),
        ),
{
    let options = AuditOptions::default();
    assert(options.shell_interpreters.deep_view() =~= Seq::<Seq<char>>::empty());
    audit_with(&options, stored, process, lookup, probe, list, run)
}

// ---- what holds of every report ----

/// Every report lists its entries in composed order, each with the index it holds there,
/// and an entry injected at runtime is one that the running process can see.
pub proof fn entries_hold_their_composed_index<
    F: Fn(&str) -> Option<String>,
    P: Fn(&str) -> Probe,
    D: Fn(&str) -> Listing,
    R: Fn(&str, bool) -> Option<String>,
>(
    mode: ShellScan,
    requested: Seq<Seq<char>>,
    machine: Option<ScopeModel>,
    user: Option<ScopeModel>,
    process: Option<Seq<char>>,
    lookup: F,
    probe: P,
    list: D,
    run: R,
    report: ReportModel,
    i: int,
)
    requires
        reports_on(
            mode,
            requested,
            machine,
            user,
            process,
            lookup,
            probe,
            list,
            run,
            report,
        ),
        0 <= i < report.entries.len() <= usize::MAX,
    ensures
        report.entries[i].index == i,
        report.entries[i].scope == PathScope::ProcessOnly ==> report.entries[i].is_live(),
{
    let (ordered, known, extensions, found) = choose|
        ordered: Seq<EntryModel>,
        known: Seq<EntryModel>,
        extensions: Seq<Seq<char>>,
        found: Seq<ResolvedModel>,
    |
        {
            &&& #[trigger] composes_to(lookup, machine, user, process, ordered)
            &&& #[trigger] annotates_all(probe, ordered, known)
            &&& looks_for(lookup, extensions)
            &&& #[trigger] enumerates_to(list, extensions, known, report.entries, found)
        };
    let stored = choose|stored: Seq<SegmentModel>|
        {
            &&& #[trigger] is_reading(lookup, machine, user, stored)
            &&& ordered == composed(stored, live_segments(process))
        };
    probing_only_adds_findings(probe, ordered, known, i);
    let listings = choose|listings: Seq<Option<ListingModel>>|
        {
            &&& #[trigger] may_come_of_all(list, known, listings)
            &&& report.entries == all_listed(known, listings)
        };
    assert(report.entries[i] == listed(known[i], listings[i]));
    machine_precedes_user_precedes_runtime(lookup, machine, user, process, stored);
    assert(ordered[i].index == i);
    if ordered[i].scope == PathScope::ProcessOnly {
        if i < stored.len() {
            assert(is_reading(lookup, machine, user, stored));
            assert(ordered[i].scope != PathScope::ProcessOnly);
        }
        an_injected_directory_is_live_and_no_repeat(stored, live_segments(process), i);
    }
}

/// Every report has one record for each name found, sorted by name, each with at least
/// one occurrence that agrees with the entry it points at; and the first occurrence of a
/// name is what the running process executes, if it can reach any of them.
pub proof fn names_resolve_to_their_entries<
    F: Fn(&str) -> Option<String>,
    P: Fn(&str) -> Probe,
    D: Fn(&str) -> Listing,
    R: Fn(&str, bool) -> Option<String>,
>(
    mode: ShellScan,
    requested: Seq<Seq<char>>,
    machine: Option<ScopeModel>,
    user: Option<ScopeModel>,
    process: Option<Seq<char>>,
    lookup: F,
    probe: P,
    list: D,
    run: R,
    report: ReportModel,
    i: int,
)
    requires
        reports_on(
            mode,
            requested,
            machine,
            user,
            process,
            lookup,
            probe,
            list,
            run,
            report,
        ),
        report.entries.len() <= usize::MAX,
        live_segments(process).len() <= usize::MAX,
        0 <= i < report.executables.len(),
    ensures
        report.executables[i].occurrences.len() > 0,
        forall|j: int|
            0 <= j < i ==> sorts_before(
                (#[trigger] report.executables[j]).stem,
                report.executables[i].stem,
            ),
        forall|a: int|
            0 <= a < report.executables[i].occurrences.len() ==> {
                let occurrence = #[trigger] report.executables[i].occurrences[a];
                &&& occurrence.entry_index < report.entries.len()
                &&& agrees(occurrence, report.entries[occurrence.entry_index as int])
            },
        ({
            let first = report.executables[i].occurrences[0];
            report.executables[i].live_winner() == if first.process_position is Some {
                Some(first)
            } else {
                None
            }
        }),
{
    let (ordered, known, extensions, found) = choose|
        ordered: Seq<EntryModel>,
        known: Seq<EntryModel>,
        extensions: Seq<Seq<char>>,
        found: Seq<ResolvedModel>,
    |
        {
            &&& #[trigger] composes_to(lookup, machine, user, process, ordered)
            &&& #[trigger] annotates_all(probe, ordered, known)
            &&& looks_for(lookup, extensions)
            &&& #[trigger] enumerates_to(list, extensions, known, report.entries, found)
            &&& scans_to(
                run,
                mode,
                requested,
                found,
                report.executables,
                report.interpreters_consulted,
            )
        };
    let stored = choose|stored: Seq<SegmentModel>|
        {
            &&& #[trigger] is_reading(lookup, machine, user, stored)
            &&& ordered == composed(stored, live_segments(process))
        };
    let listings = choose|listings: Seq<Option<ListingModel>>|
        {
            &&& #[trigger] may_come_of_all(list, known, listings)
            &&& report.entries == all_listed(known, listings)
            &&& found == enumeration(known, listings, extensions)
        };
    let files = all_files(known, listings, extensions);
    let live = live_segments(process);
    assert(report.executables.len() == found.len());
    assert forall|j: int| 0 <= j < found.len() implies {
        &&& (#[trigger] report.executables[j]).stem == found[j].stem
        &&& report.executables[j].occurrences == found[j].occurrences
    } by {}
    assert forall|k: int| 0 <= k < known.len() implies {
        &&& (#[trigger] known[k]).index == k
        &&& known[k].process_position != Some(usize::MAX)
        &&& report.entries[k].index == k
        &&& report.entries[k].scope == known[k].scope
        &&& report.entries[k].process_position == known[k].process_position
        &&& report.entries[k].effective() == known[k].effective()
    } by {
        probing_only_adds_findings(probe, ordered, known, k);
        machine_precedes_user_precedes_runtime(lookup, machine, user, process, stored);
        assert(ordered[k].index == k);
        if ordered[k].effective().len() > 0 {
            a_live_position_is_the_first_for_its_directory(stored, live, k);
        }
        assert(report.entries[k] == listed(known[k], listings[k]));
    }
    every_file_is_recorded_under_its_name(in_resolution_order(files));
    assert(found[i].occurrences.len() > 0);
    assert forall|a: int| 0 <= a < report.executables[i].occurrences.len() implies {
        let occurrence = #[trigger] report.executables[i].occurrences[a];
        &&& occurrence.entry_index < report.entries.len()
        &&& agrees(occurrence, report.entries[occurrence.entry_index as int])
    } by {
        an_occurrence_agrees_with_its_entry(known, listings, extensions, i, a);
        let k = choose|k: int|
            0 <= k < known.len() && agrees(found[i].occurrences[a], #[trigger] known[k]);
        assert(known[k].index == k);
    }
    found_files_are_live_or_not(known, listings, extensions);
    the_first_occurrence_wins_now(files, i);
    live_winner_is_the_first_reachable(found[i].occurrences);
    assert(report.executables[i].live_winner() == found[i].live_winner());
}

/// Every record of a shell construct in a report names an interpreter that the report lists
/// as consulted; with none consulted, no name has any.
pub proof fn intercepts_come_from_consulted_interpreters<
    F: Fn(&str) -> Option<String>,
    P: Fn(&str) -> Probe,
    D: Fn(&str) -> Listing,
    R: Fn(&str, bool) -> Option<String>,
>(
    mode: ShellScan,
    requested: Seq<Seq<char>>,
    machine: Option<ScopeModel>,
    user: Option<ScopeModel>,
    process: Option<Seq<char>>,
    lookup: F,
    probe: P,
    list: D,
    run: R,
    report: ReportModel,
    i: int,
    k: int,
)
    requires
        reports_on(
            mode,
            requested,
            machine,
            user,
            process,
            lookup,
            probe,
            list,
            run,
            report,
        ),
        0 <= i < report.executables.len(),
        0 <= k < report.executables[i].intercepts.len(),
    ensures
        ({
            let intercept = report.executables[i].intercepts[k];
            report.interpreters_consulted.contains(
                InterpreterModel {
                    path: intercept.interpreter,
                    profile_loaded: intercept.profile_loaded,
                },
            )
        }),
        report.capabilities.contains(Capability::ShellMasking),
{
    let (ordered, known, extensions, found) = choose|
        ordered: Seq<EntryModel>,
        known: Seq<EntryModel>,
        extensions: Seq<Seq<char>>,
        found: Seq<ResolvedModel>,
    |
        {
            &&& #[trigger] composes_to(lookup, machine, user, process, ordered)
            &&& #[trigger] annotates_all(probe, ordered, known)
            &&& looks_for(lookup, extensions)
            &&& #[trigger] enumerates_to(list, extensions, known, report.entries, found)
            &&& scans_to(
                run,
                mode,
                requested,
                found,
                report.executables,
                report.interpreters_consulted,
            )
            &&& report.capabilities == capabilities_of(report.interpreters_consulted)
        };
    let consulted = report.interpreters_consulted;
    capabilities_say_what_ran(consulted);
    match mode {
        ShellScan::Skip => {
            assert(report.executables[i].intercepts == found[i].intercepts);
        },
        ShellScan::Ask { profile } => {
            let paths = paths_to_ask(found, requested);
            let answers = choose|answers: Seq<Option<Seq<char>>>|
                {
                    &&& #[trigger] may_answer_all(run, paths, profile, answers)
                    &&& report.executables == masked(found, paths, answers, profile)
                    &&& consulted == answered(paths, answers, profile)
                };
            let records = records_for(found[i].stem, paths, answers, profile);
            assert(report.executables[i].intercepts == found[i].intercepts + records);
            assert(report.executables[i].intercepts =~= records);
            every_record_names_a_consulted_interpreter(
                found[i].stem,
                paths,
                answers,
                profile,
                k,
            );
            assert(consulted.len() > 0);
        },
    }
}

/// Everything an audit asks for, as it stands on one machine.
pub ghost struct Surroundings {
    /// What the registry says when asked for a value.
    pub registry: spec_fn(Scope, Seq<char>) -> ValueReadModel,
    /// The live process `PATH`.
    pub process: Option<Seq<char>>,
    /// What the environment holds.
    pub environment: spec_fn(Seq<char>) -> Option<Seq<char>>,
    /// What the filesystem says of a path.
    pub filesystem: spec_fn(Seq<char>) -> Probe,
    /// What a directory holds.
    pub disk: spec_fn(Seq<char>) -> ListingModel,
    /// What an interpreter answers.
    pub shells: spec_fn(Seq<char>, bool) -> Option<Seq<char>>,
}

/// The report on given surroundings and stored values.
pub open spec fn report_on(
    surroundings: Surroundings,
    mode: ShellScan,
    requested: Seq<Seq<char>>,
    machine: Option<ScopeModel>,
    user: Option<ScopeModel>,
) -> ReportModel {
    let ordered = composed(
        stored_in(machine, user, surroundings.environment),
        live_segments(surroundings.process),
    );
    let known = probed_on(ordered, surroundings.filesystem);
    let extensions = extensions_from((surroundings.environment)("PATHEXT"@));
    let listings = listings_on(known, surroundings.disk);
    let found = enumeration(known, listings, extensions);
    let (executables, consulted) = match mode {
        ShellScan::Skip => (found, Seq::empty()),
        ShellScan::Ask { profile } => {
            let paths = paths_to_ask(found, requested);
            let answers = answers_of(paths, profile, surroundings.shells);
            (masked(found, paths, answers, profile), answered(paths, answers, profile))
        },
    };
    ReportModel {
        entries: all_listed(known, listings),
        executables,
        interpreters_consulted: consulted,
        capabilities: capabilities_of(consulted),
    }
}

proof fn lemma_report_on<
    F: Fn(&str) -> Option<String>,
    P: Fn(&str) -> Probe,
    D: Fn(&str) -> Listing,
    R: Fn(&str, bool) -> Option<String>,
>(
    surroundings: Surroundings,
    mode: ShellScan,
    requested: Seq<Seq<char>>,
    machine: Option<ScopeModel>,
    user: Option<ScopeModel>,
    lookup: F,
    probe: P,
    list: D,
    run: R,
    report: ReportModel,
)
    requires
        reads(lookup, surroundings.environment),
        tells(probe, surroundings.filesystem),
        lists(list, surroundings.disk),
        runs(run, surroundings.shells),
        reports_on(
            mode,
            requested,
            machine,
            user,
            surroundings.process,
            lookup,
            probe,
            list,
            run,
            report,
        ),
    ensures
        report == report_on(surroundings, mode, requested, machine, user),
{
    let process = surroundings.process;
    let (ordered, known, extensions, found) = choose|
        ordered: Seq<EntryModel>,
        known: Seq<EntryModel>,
        extensions: Seq<Seq<char>>,
        found: Seq<ResolvedModel>,
    |
        {
            &&& #[trigger] composes_to(lookup, machine, user, process, ordered)
            &&& #[trigger] annotates_all(probe, ordered, known)
            &&& looks_for(lookup, extensions)
            &&& #[trigger] enumerates_to(list, extensions, known, report.entries, found)
            &&& scans_to(
                run,
                mode,
                requested,
                found,
                report.executables,
                report.interpreters_consulted,
            )
            &&& report.capabilities == capabilities_of(report.interpreters_consulted)
        };
    let stored = choose|stored: Seq<SegmentModel>|
        {
            &&& #[trigger] is_reading(lookup, machine, user, stored)
            &&& ordered == composed(stored, live_segments(process))
        };
    composition_follows_the_environment(
        lookup,
        surroundings.environment,
        machine,
        user,
        stored,
    );
    findings_follow_the_filesystem(probe, surroundings.filesystem, ordered, known);
    let listings = choose|listings: Seq<Option<ListingModel>>|
        {
            &&& #[trigger] may_come_of_all(list, known, listings)
            &&& report.entries == all_listed(known, listings)
            &&& found == enumeration(known, listings, extensions)
        };
    enumeration_follows_the_disk(list, surroundings.disk, known, listings);
    match mode {
        ShellScan::Skip => {},
        ShellScan::Ask { profile } => {
            let paths = paths_to_ask(found, requested);
            let answers = choose|answers: Seq<Option<Seq<char>>>|
                {
                    &&& #[trigger] may_answer_all(run, paths, profile, answers)
                    &&& report.executables == masked(found, paths, answers, profile)
                    &&& report.interpreters_consulted == answered(paths, answers, profile)
                };
            answers_follow_the_shells(run, surroundings.shells, paths, profile, answers);
        },
    }
}

/// Whether a registry always says one and the same thing of a value.
pub open spec fn keeps<S: Fn(Scope, &str) -> ValueRead>(
    stored: S,
    registry: spec_fn(Scope, Seq<char>) -> ValueReadModel,
) -> bool {
    forall|scope: Scope, name: &str, said: ValueRead| #[trigger]
        call_ensures(stored, (scope, name), said) ==> said@ == registry(scope, name@)
}

/// The outcome of an audit of given surroundings.
pub open spec fn outcome_on(
    surroundings: Surroundings,
    mode: ShellScan,
    requested: Seq<Seq<char>>,
) -> Result<ReportModel, Seq<char>> {
    let machine_said = (surroundings.registry)(Scope::Machine, VALUE_NAME@);
    let user_said = (surroundings.registry)(Scope::User, VALUE_NAME@);
    match (scope_path(Scope::Machine, machine_said), scope_path(Scope::User, user_said)) {
        (Err(detail), _) => Err(detail),
        (Ok(_), Err(detail)) => Err(detail),
        (Ok(machine), Ok(user)) => Ok(report_on(surroundings, mode, requested, machine, user)),
    }
}

/// An audit is reproducible: on surroundings that stand still there is one outcome, and it
/// is worked out from them alone.
pub proof fn the_outcome_follows_the_surroundings<
    S: Fn(Scope, &str) -> ValueRead,
    F: Fn(&str) -> Option<String>,
    P: Fn(&str) -> Probe,
    D: Fn(&str) -> Listing,
    R: Fn(&str, bool) -> Option<String>,
>(
    surroundings: Surroundings,
    mode: ShellScan,
    requested: Seq<Seq<char>>,
    stored: S,
    lookup: F,
    probe: P,
    list: D,
    run: R,
    outcome: Result<ReportModel, Seq<char>>,
)
    requires
        keeps(stored, surroundings.registry),
        reads(lookup, surroundings.environment),
        tells(probe, surroundings.filesystem),
        lists(list, surroundings.disk),
        runs(run, surroundings.shells),
        audits_to(
            mode,
            requested,
            stored,
            surroundings.process,
            lookup,
            probe,
            list,
            run,
            outcome,
        ),
    ensures
        outcome == outcome_on(surroundings, mode, requested),
{
    let process = surroundings.process;
    let machine_said = choose|machine_said: ValueReadModel|
        {
            &&& #[trigger] may_store(stored, Scope::Machine, VALUE_NAME@, machine_said)
            &&& match scope_path(Scope::Machine, machine_said) {
                Err(detail) => outcome == Err::<ReportModel, Seq<char>>(detail),
                Ok(machine) => exists|user_said: ValueReadModel|
                    {
                        &&& #[trigger] may_store(stored, Scope::User, VALUE_NAME@, user_said)
                        &&& match scope_path(Scope::User, user_said) {
                            Err(detail) => outcome == Err::<ReportModel, Seq<char>>(detail),
                            Ok(user) => outcome is Ok && reports_on(
                                mode,
                                requested,
                                machine,
                                user,
                                process,
                                lookup,
                                probe,
                                list,
                                run,
                                outcome->Ok_0,
                            ),
                        }
                    },
            }
        };
    assert(machine_said == (surroundings.registry)(Scope::Machine, VALUE_NAME@));
    if let Ok(machine) = scope_path(Scope::Machine, machine_said) {
        let user_said = choose|user_said: ValueReadModel|
            {
                &&& #[trigger] may_store(stored, Scope::User, VALUE_NAME@, user_said)
                &&& match scope_path(Scope::User, user_said) {
                    Err(detail) => outcome == Err::<ReportModel, Seq<char>>(detail),
                    Ok(user) => outcome is Ok && reports_on(
                        mode,
                        requested,
                        machine,
                        user,
                        process,
                        lookup,
                        probe,
                        list,
                        run,
                        outcome->Ok_0,
                    ),
                }
            };
        assert(user_said == (surroundings.registry)(Scope::User, VALUE_NAME@));
        if let Ok(user) = scope_path(Scope::User, user_said) {
            lemma_report_on(
                surroundings,
                mode,
                requested,
                machine,
                user,
                lookup,
                probe,
                list,
                run,
                outcome->Ok_0,
            );
        }
    }
}

/// Shell masking is claimed exactly when some interpreter answered, and everything else
/// is always computed.
pub proof fn capabilities_say_what_ran(consulted: Seq<InterpreterModel>)
    ensures
        capabilities_of(consulted).contains(Capability::Composition),
        capabilities_of(consulted).contains(Capability::EntryFindings),
        capabilities_of(consulted).contains(Capability::ShadowDetection),
        capabilities_of(consulted).contains(Capability::ShellMasking) <==> consulted.len() > 0,
{
    let all = capabilities_of(consulted);
    assert(all[0] == Capability::Composition);
    assert(all[1] == Capability::EntryFindings);
    assert(all[2] == Capability::ShadowDetection);
    if consulted.len() > 0 {
        assert(all[3] == Capability::ShellMasking);
    }
}

// ---- what a report tells of its surroundings ----

/// What an audit composes, and what it knows of the entries before it reads directories.
pub open spec fn known_on(
    surroundings: Surroundings,
    machine: Option<ScopeModel>,
    user: Option<ScopeModel>,
) -> Seq<EntryModel> {
    probed_on(
        composed(
            stored_in(machine, user, surroundings.environment),
            live_segments(surroundings.process),
        ),
        surroundings.filesystem,
    )
}

proof fn lemma_executables_on(
    surroundings: Surroundings,
    mode: ShellScan,
    requested: Seq<Seq<char>>,
    machine: Option<ScopeModel>,
    user: Option<ScopeModel>,
)
    ensures
        ({
            let report = report_on(surroundings, mode, requested, machine, user);
            let known = known_on(surroundings, machine, user);
            let found = enumeration(
                known,
                listings_on(known, surroundings.disk),
                extensions_from((surroundings.environment)("PATHEXT"@)),
            );
            &&& report.entries == all_listed(known, listings_on(known, surroundings.disk))
            &&& report.executables.len() == found.len()
            &&& forall|i: int|
                0 <= i < found.len() ==> {
                    &&& (#[trigger] report.executables[i]).stem == found[i].stem
                    &&& report.executables[i].occurrences == found[i].occurrences
                }
        }),
{
}

/// Every program in a directory that is worth reading is in the report, under its name and
/// with the entry it is in.
pub proof fn every_program_is_reported(
    surroundings: Surroundings,
    mode: ShellScan,
    requested: Seq<Seq<char>>,
    machine: Option<ScopeModel>,
    user: Option<ScopeModel>,
    e: int,
    items: Seq<ItemModel>,
    m: int,
    stem: Seq<char>,
    rank: int,
)
    requires
        ({
            let report = report_on(surroundings, mode, requested, machine, user);
            let extensions = extensions_from((surroundings.environment)("PATHEXT"@));
            &&& extensions.len() <= usize::MAX
            &&& 0 <= e < report.entries.len()
            &&& enumerable(report.entries[e])
            &&& (surroundings.disk)(report.entries[e].effective()) == ListingModel::Items(items)
            &&& 0 <= m < items.len()
            &&& items[m].details is Some
            &&& !items[m].details->0.is_directory
            &&& splits_first_at(lowercase(items[m].file_name), extensions, stem, rank)
        }),
    ensures
        ({
            let report = report_on(surroundings, mode, requested, machine, user);
            let entry = report.entries[e];
            exists|i: int|
                {
                    &&& 0 <= i < report.executables.len()
                    &&& (#[trigger] report.executables[i]).stem == stem
                    &&& report.executables[i].occurrences.contains(
                        OccurrenceModel {
                            entry_index: entry.index,
                            scope: entry.scope,
                            process_position: entry.process_position,
                            directory: entry.effective(),
                            file_name: items[m].file_name,
                            is_reparse_point: items[m].details->0.attributes & 0x400 != 0,
                        },
                    )
                }
        }),
{
    let report = report_on(surroundings, mode, requested, machine, user);
    let known = known_on(surroundings, machine, user);
    let listings = listings_on(known, surroundings.disk);
    let extensions = extensions_from((surroundings.environment)("PATHEXT"@));
    let found = enumeration(known, listings, extensions);
    lemma_executables_on(surroundings, mode, requested, machine, user);
    reading_adds_what_went_wrong(known, listings, e);
    assert(report.entries[e].effective() == known[e].effective());
    assert(enumerable(known[e])) by {
        if !enumerable(known[e]) {
            assert(listings[e] is None);
            assert(report.entries[e] == known[e]);
        }
    }
    assert(listings[e] == Some(ListingModel::Items(items)));
    every_program_is_recorded(known, listings, extensions, e, items, m, stem, rank);
    let i = choose|i: int|
        {
            &&& 0 <= i < found.len()
            &&& (#[trigger] found[i]).stem == stem
            &&& found[i].occurrences.contains(
                OccurrenceModel {
                    entry_index: known[e].index,
                    scope: known[e].scope,
                    process_position: known[e].process_position,
                    directory: known[e].effective(),
                    file_name: items[m].file_name,
                    is_reparse_point: items[m].details->0.attributes & 0x400 != 0,
                },
            )
        };
    assert(report.executables[i].stem == stem);
}

/// The places of a name are listed as Windows searches them: those the process can reach
/// first, by live position; at one position, or at none, by composed index; and in one entry
/// by the rank of the extension.
pub proof fn copies_are_reported_as_windows_searches_them(
    surroundings: Surroundings,
    mode: ShellScan,
    requested: Seq<Seq<char>>,
    machine: Option<ScopeModel>,
    user: Option<ScopeModel>,
    i: int,
    a: int,
    b: int,
)
    requires
        ({
            let report = report_on(surroundings, mode, requested, machine, user);
            &&& extensions_from((surroundings.environment)("PATHEXT"@)).len() <= usize::MAX
            &&& live_segments(surroundings.process).len() <= usize::MAX
            &&& 0 <= i < report.executables.len()
            &&& 0 <= a < b < report.executables[i].occurrences.len()
        }),
    ensures
        ({
            let report = report_on(surroundings, mode, requested, machine, user);
            let extensions = extensions_from((surroundings.environment)("PATHEXT"@));
            let stem = report.executables[i].stem;
            let first = report.executables[i].occurrences[a];
            let second = report.executables[i].occurrences[b];
            &&& second.process_position is Some ==> first.process_position is Some
                && first.process_position->0 <= second.process_position->0
            &&& first.process_position == second.process_position ==> first.entry_index
                <= second.entry_index
            &&& first.process_position == second.process_position && first.entry_index
                == second.entry_index ==> exists|better: int, worse: int|
                {
                    &&& better <= worse
                    &&& #[trigger] splits_first_at(
                        lowercase(first.file_name),
                        extensions,
                        stem,
                        better,
                    )
                    &&& #[trigger] splits_first_at(
                        lowercase(second.file_name),
                        extensions,
                        stem,
                        worse,
                    )
                }
        }),
{
    let known = known_on(surroundings, machine, user);
    let listings = listings_on(known, surroundings.disk);
    let extensions = extensions_from((surroundings.environment)("PATHEXT"@));
    let found = enumeration(known, listings, extensions);
    let files = all_files(known, listings, extensions);
    lemma_executables_on(surroundings, mode, requested, machine, user);
    lemma_positions_are_small(surroundings, machine, user);
    found_files_are_live_or_not(known, listings, extensions);
    assert forall|k: int| 0 <= k < files.len() implies (
    #[trigger] files[k]).origin.process_position != Some(usize::MAX) by {
        let j = choose|j: int|
            0 <= j < known.len() && (#[trigger] known[j]).process_position
                == files[k].origin.process_position;
        assert(known[j].process_position != Some(usize::MAX));
    }
    occurrences_are_listed_as_they_are_searched(files, i, a, b);
    let first = found[i].occurrences[a];
    let second = found[i].occurrences[b];
    if first.process_position == second.process_position && first.entry_index
        == second.entry_index {
        an_occurrence_agrees_with_its_entry(known, listings, extensions, i, a);
        let k = choose|k: int| 0 <= k < known.len() && agrees(first, #[trigger] known[k]);
        assert(known[k].process_position != Some(usize::MAX));
        let (better, worse) = pathext_decides_within_one_directory(
            known,
            listings,
            extensions,
            i,
            a,
            b,
        );
        assert(splits_first_at(
            lowercase(first.file_name),
            extensions,
            found[i].stem,
            better,
        ));
    }
}

proof fn lemma_positions_are_small(
    surroundings: Surroundings,
    machine: Option<ScopeModel>,
    user: Option<ScopeModel>,
)
    requires
        live_segments(surroundings.process).len() <= usize::MAX,
    ensures
        forall|k: int|
            0 <= k < known_on(surroundings, machine, user).len() ==> (#[trigger] known_on(
                surroundings,
                machine,
                user,
            )[k]).process_position != Some(usize::MAX),
{
    let stored = stored_in(machine, user, surroundings.environment);
    let live = live_segments(surroundings.process);
    let ordered = composed(stored, live);
    let known = known_on(surroundings, machine, user);
    assert forall|k: int| 0 <= k < known.len() implies (#[trigger] known[k]).process_position
        != Some(usize::MAX) by {
        assert(known[k].process_position == ordered[k].process_position);
        if ordered[k].effective().len() > 0 {
            a_live_position_is_the_first_for_its_directory(stored, live, k);
        } else {
            assert(ordered[k].effective() == (stored + injected(stored, live))[k].effective);
        }
    }
}

/// What a consulted shell says of a name is in the report: whoever is listed as consulted
/// answered, and for every name it answers to there is a record with the construct and the
/// target it gave.
pub proof fn what_the_shells_say_is_reported(
    surroundings: Surroundings,
    profile: bool,
    requested: Seq<Seq<char>>,
    machine: Option<ScopeModel>,
    user: Option<ScopeModel>,
    c: int,
    i: int,
)
    requires
        ({
            let report = report_on(
                surroundings,
                ShellScan::Ask { profile },
                requested,
                machine,
                user,
            );
            &&& 0 <= c < report.interpreters_consulted.len()
            &&& 0 <= i < report.executables.len()
        }),
    ensures
        ({
            let report = report_on(
                surroundings,
                ShellScan::Ask { profile },
                requested,
                machine,
                user,
            );
            let consulted = report.interpreters_consulted[c];
            let stem = report.executables[i].stem;
            let said = (surroundings.shells)(consulted.path, profile);
            &&& consulted.profile_loaded == profile
            &&& said is Some
            &&& constructs_in(said->0).contains_key(stem)
                ==> report.executables[i].intercepts.contains(
                InterceptModel {
                    construct: constructs_in(said->0)[stem].0,
                    resolves_to: constructs_in(said->0)[stem].1,
                    interpreter: consulted.path,
                    profile_loaded: profile,
                },
            )
        }),
{
    let known = known_on(surroundings, machine, user);
    let found = enumeration(
        known,
        listings_on(known, surroundings.disk),
        extensions_from((surroundings.environment)("PATHEXT"@)),
    );
    let paths = paths_to_ask(found, requested);
    let answers = answers_of(paths, profile, surroundings.shells);
    let j = whoever_is_consulted_answered(paths, answers, profile, c);
    let report = report_on(surroundings, ShellScan::Ask { profile }, requested, machine, user);
    let output = answers[j]->0;
    let stem = found[i].stem;
    if constructs_in(output).contains_key(stem) {
        a_record_carries_what_the_output_says(stem, paths, answers, profile, j, output);
        let records = records_for(stem, paths, answers, profile);
        let record = InterceptModel {
            construct: constructs_in(output)[stem].0,
            resolves_to: constructs_in(output)[stem].1,
            interpreter: paths[j],
            profile_loaded: profile,
        };
        let k = choose|k: int| 0 <= k < records.len() && records[k] == record;
        assert(report.executables[i].intercepts == found[i].intercepts + records);
        assert(report.executables[i].intercepts[found[i].intercepts.len() + k] == record);
    }
}

/// Without a scan no shell is consulted, no name has a record, and masking is not claimed.
pub proof fn without_a_scan_nothing_is_masked(
    surroundings: Surroundings,
    requested: Seq<Seq<char>>,
    machine: Option<ScopeModel>,
    user: Option<ScopeModel>,
    i: int,
)
    ensures
        ({
            let report = report_on(surroundings, ShellScan::Skip, requested, machine, user);
            &&& report.interpreters_consulted.len() == 0
            &&& !report.capabilities.contains(Capability::ShellMasking)
            &&& 0 <= i < report.executables.len() ==> report.executables[i].intercepts.len() == 0
        }),
{
    let report = report_on(surroundings, ShellScan::Skip, requested, machine, user);
    capabilities_say_what_ran(report.interpreters_consulted);
}

/// An audit fails exactly when the `Path` of one of the two scopes cannot be had, and then
/// with that scope's error; the machine's comes first.
pub proof fn an_audit_fails_with_the_first_error(
    surroundings: Surroundings,
    mode: ShellScan,
    requested: Seq<Seq<char>>,
)
    ensures
        ({
            let machine = scope_path(
                Scope::Machine,
                (surroundings.registry)(Scope::Machine, "Path"@),
            );
            let user = scope_path(Scope::User, (surroundings.registry)(Scope::User, "Path"@));
            let outcome = outcome_on(surroundings, mode, requested);
            &&& outcome is Err <==> machine is Err || user is Err
            &&& machine is Err ==> outcome->Err_0 == machine->Err_0
            &&& machine is Ok && user is Err ==> outcome->Err_0 == user->Err_0
            &&& machine is Ok && user is Ok ==> outcome->Ok_0.entries.len() >= segment_count(
                machine->Ok_0,
            ) + segment_count(user->Ok_0)
        }),
{
}

} // verus!
