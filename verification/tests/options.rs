//! What a report is narrowed to, and the exit code that goes with it.

use pathdoc::options::{
    exit_code, reported_findings, Ending, Options, ScopeFilter, EXIT_CLEAN, EXIT_FATAL,
    EXIT_FINDINGS,
};
use pathdoc::{
    AuditReport, Capability, Finding, Occurrence, PathEntry, PathScope, Resolved, ValueKind,
};

fn entry(index: usize, scope: PathScope, findings: Vec<Finding>) -> PathEntry {
    PathEntry {
        index,
        scope,
        raw: r"C:\somewhere".to_owned(),
        expanded: None,
        value_kind: Some(ValueKind::Sz),
        process_position: None,
        findings,
    }
}

fn report(entries: Vec<PathEntry>) -> AuditReport {
    AuditReport {
        entries,
        executables: Vec::new(),
        interpreters_consulted: Vec::new(),
        capabilities: vec![Capability::Composition, Capability::EntryFindings],
    }
}

fn occurrence(entry_index: usize, file_name: &str) -> Occurrence {
    Occurrence {
        entry_index,
        scope: PathScope::Machine,
        process_position: Some(entry_index),
        directory: format!(r"C:\place{entry_index}"),
        file_name: file_name.to_owned(),
        is_reparse_point: false,
    }
}

fn narrowed_to(scope: ScopeFilter) -> Options {
    Options {
        json: false,
        scope,
        shadows_only: false,
        no_color: false,
    }
}

#[test]
fn scope_filters_by_origin() {
    let all = narrowed_to(ScopeFilter::All);
    let machine = narrowed_to(ScopeFilter::Machine);
    let user = narrowed_to(ScopeFilter::User);
    let entry = |scope: PathScope| entry(0, scope, Vec::new());

    for scope in [PathScope::Machine, PathScope::User, PathScope::ProcessOnly] {
        assert!(all.includes(&entry(scope)));
    }

    assert!(machine.includes(&entry(PathScope::Machine)));
    assert!(!machine.includes(&entry(PathScope::User)));
    // Runtime injection is neither machine nor user, so a scoped run omits it.
    assert!(!machine.includes(&entry(PathScope::ProcessOnly)));

    assert!(user.includes(&entry(PathScope::User)));
    assert!(!user.includes(&entry(PathScope::Machine)));
}

#[test]
fn a_clean_report_exits_clean() {
    let report = report(vec![entry(0, PathScope::Machine, Vec::new())]);
    let entries: Vec<&PathEntry> = report.entries.iter().collect();

    assert!(!reported_findings(&report, &entries, false));
}

#[test]
fn a_finding_in_the_reported_scope_counts() {
    let report = report(vec![entry(0, PathScope::User, vec![Finding::Missing])]);
    let entries: Vec<&PathEntry> = report.entries.iter().collect();

    assert!(reported_findings(&report, &entries, false));
}

#[test]
fn a_finding_outside_the_reported_scope_does_not() {
    let report = report(vec![
        entry(0, PathScope::Machine, Vec::new()),
        entry(1, PathScope::User, vec![Finding::Missing]),
    ]);
    // As `--scope machine` would filter it.
    let entries: Vec<&PathEntry> = report
        .entries
        .iter()
        .filter(|entry| entry.scope == PathScope::Machine)
        .collect();

    assert!(!reported_findings(&report, &entries, false));
}

#[test]
fn a_name_that_resolves_uniquely_is_not_a_finding() {
    // The trap this guards: `executables` is never empty on a real machine, so
    // testing it for emptiness would make every run exit non-zero.
    let mut clean = report(vec![entry(0, PathScope::Machine, Vec::new())]);
    clean.capabilities.push(Capability::ShadowDetection);
    clean.executables = vec![Resolved {
        stem: "gzip".to_owned(),
        occurrences: vec![occurrence(0, "gzip.exe")],
        intercepts: Vec::new(),
    }];
    let entries: Vec<&PathEntry> = clean.entries.iter().collect();

    assert!(!reported_findings(&clean, &entries, false));
}

#[test]
fn shadows_only_ignores_entry_findings_but_not_shadowing() {
    let mut with_shadow = report(vec![entry(0, PathScope::User, vec![Finding::Missing])]);
    let entries: Vec<&PathEntry> = with_shadow.entries.iter().collect();

    // Entry findings are not on screen, so they cannot be what failed.
    assert!(!reported_findings(&with_shadow, &entries, true));

    with_shadow.capabilities.push(Capability::ShadowDetection);
    with_shadow.executables = vec![Resolved {
        stem: "git".to_owned(),
        occurrences: vec![occurrence(0, "git.exe"), occurrence(1, "git.exe")],
        intercepts: Vec::new(),
    }];
    let entries: Vec<&PathEntry> = with_shadow.entries.iter().collect();

    assert!(reported_findings(&with_shadow, &entries, true));
}

#[test]
fn a_selection_keeps_order_and_indices() {
    let report = report(vec![
        entry(0, PathScope::Machine, Vec::new()),
        entry(1, PathScope::User, vec![Finding::Missing]),
        entry(2, PathScope::ProcessOnly, Vec::new()),
        entry(3, PathScope::User, Vec::new()),
    ]);
    let indices = |scope: ScopeFilter| -> Vec<usize> {
        narrowed_to(scope)
            .select(&report.entries)
            .iter()
            .map(|entry| entry.index)
            .collect()
    };

    assert_eq!(indices(ScopeFilter::All), vec![0, 1, 2, 3]);
    assert_eq!(indices(ScopeFilter::Machine), vec![0]);
    assert_eq!(indices(ScopeFilter::User), vec![1, 3]);
}

#[test]
fn a_report_on_everything_finds_what_the_audit_found() {
    for findings in [Vec::new(), vec![Finding::Empty]] {
        let report = report(vec![entry(0, PathScope::ProcessOnly, findings)]);
        let everything = narrowed_to(ScopeFilter::All).select(&report.entries);

        assert_eq!(
            reported_findings(&report, &everything, false),
            report.has_findings()
        );
    }
}

#[test]
fn the_exit_code_describes_what_was_reported() {
    assert_eq!(exit_code(Ending::Written { findings: false }), EXIT_CLEAN);
    assert_eq!(exit_code(Ending::Written { findings: true }), EXIT_FINDINGS);
    assert_eq!(exit_code(Ending::PipeClosed), EXIT_CLEAN);
    assert_eq!(exit_code(Ending::WriteFailed), EXIT_FATAL);
    assert_eq!(exit_code(Ending::AuditFailed), EXIT_FATAL);
    assert_eq!((EXIT_CLEAN, EXIT_FINDINGS, EXIT_FATAL), (0, 1, 2));
}
