//! The table a report is rendered as.

use std::io::Write;

use anstream::StripStream;
use pathdoc::table::{join, write_report};
use pathdoc::{
    AuditReport, Capability, Finding, Occurrence, PathEntry, PathScope, Resolved, ValueKind,
};

fn styled(report: &AuditReport, shadows_only: bool) -> String {
    let entries: Vec<&PathEntry> = report.entries.iter().collect();
    let mut text = String::new();
    write_report(&mut text, report, &entries, shadows_only);
    text
}

/// Renders with the ANSI stripped, so assertions read like the output does.
fn render(report: &AuditReport, shadows_only: bool) -> String {
    let text = styled(report, shadows_only);
    let mut buffer = Vec::new();
    {
        let mut stream = StripStream::new(&mut buffer);
        if let Err(err) = stream.write_all(text.as_bytes()) {
            panic!("rendering failed: {err}");
        }
    }
    match String::from_utf8(buffer) {
        Ok(text) => text,
        Err(err) => panic!("output was not utf-8: {err}"),
    }
}

fn entry(index: usize, scope: PathScope, raw: &str) -> PathEntry {
    PathEntry {
        index,
        scope,
        raw: raw.to_owned(),
        expanded: None,
        value_kind: Some(ValueKind::ExpandSz),
        process_position: Some(index),
        findings: Vec::new(),
    }
}

/// An entry the running process cannot see: added to the registry after it
/// started.
fn unseen_entry(index: usize, scope: PathScope, raw: &str) -> PathEntry {
    let mut entry = entry(index, scope, raw);
    entry.process_position = None;
    entry
}

/// A report from a build without shadow detection.
fn report(entries: Vec<PathEntry>) -> AuditReport {
    AuditReport {
        entries,
        executables: Vec::new(),
        interpreters_consulted: Vec::new(),
        capabilities: vec![Capability::Composition, Capability::EntryFindings],
    }
}

fn occurrence(entry_index: usize, directory: &str, file_name: &str) -> Occurrence {
    Occurrence {
        entry_index,
        scope: PathScope::Machine,
        process_position: Some(entry_index),
        directory: directory.to_owned(),
        file_name: file_name.to_owned(),
        is_reparse_point: false,
    }
}

#[test]
fn the_table_lists_entries_in_composed_order() {
    let text = render(
        &report(vec![
            entry(0, PathScope::Machine, r"C:\WINDOWS\system32"),
            entry(1, PathScope::User, r"C:\Users\Someone\.cargo\bin"),
        ]),
        false,
    );

    let system32 = text.find(r"C:\WINDOWS\system32");
    let cargo = text.find(r"C:\Users\Someone\.cargo\bin");
    assert!(system32.is_some() && cargo.is_some());
    assert!(system32 < cargo, "machine entry must be rendered first");
    assert!(text.contains("1 machine, 1 user, 0 injected at runtime"));
    assert!(text.contains("REG_EXPAND_SZ"));
}

#[test]
fn the_stored_form_is_shown_only_when_it_differs() {
    let mut expanded = entry(0, PathScope::Machine, r"%SystemRoot%\system32");
    expanded.expanded = Some(r"C:\WINDOWS\system32".to_owned());
    let plain = entry(1, PathScope::Machine, r"C:\Program Files\Git\cmd");

    let text = render(&report(vec![expanded, plain]), false);

    assert!(text.contains(r"stored as %SystemRoot%\system32"));
    assert_eq!(text.matches("stored as").count(), 1);
}

#[test]
fn an_entry_the_process_cannot_see_is_called_out_with_a_restart_hint() {
    // The fix is "restart your shell" and nothing else in the report hints at
    // it, so the table has to say so.
    let text = render(
        &report(vec![
            entry(0, PathScope::Machine, r"C:\WINDOWS\system32"),
            unseen_entry(1, PathScope::Machine, r"C:\Program Files\GitHub CLI\"),
        ]),
        false,
    );

    assert!(text.contains("LIVE"), "the live position column is missing");
    assert!(text.contains("1 entry is on PATH in the registry but not in this process"));
    assert!(text.contains("Restart the shell to pick it up."));
}

#[test]
fn entries_the_process_can_all_see_get_no_restart_hint() {
    let text = render(
        &report(vec![entry(0, PathScope::Machine, r"C:\WINDOWS\system32")]),
        false,
    );

    assert!(!text.contains("Restart the shell"));
}

#[test]
fn a_process_only_entry_shows_a_dash_for_its_value_type() {
    let mut injected = entry(0, PathScope::ProcessOnly, r"C:\shim");
    injected.value_kind = None;

    let text = render(&report(vec![injected]), false);

    assert!(text.contains("process-only"));
    assert!(text.contains("0 machine, 0 user, 1 injected at runtime"));
}

#[test]
fn findings_are_listed_with_the_index_they_belong_to() {
    let mut dead = entry(3, PathScope::User, r"C:\Users\Someone\nope");
    dead.findings = vec![Finding::Missing];
    let mut messy = entry(4, PathScope::User, r"C:\Users\Someone\again");
    messy.findings = vec![Finding::Relative, Finding::Duplicate { first_seen_at: 3 }];

    let text = render(&report(vec![dead, messy]), false);

    assert!(text.contains("Findings  (3)"));
    assert!(text.contains("missing"));
    assert!(text.contains("relative"));
    assert!(text.contains("duplicate of #3"));
}

#[test]
fn a_clean_path_says_so() {
    let text = render(
        &report(vec![entry(0, PathScope::Machine, r"C:\WINDOWS")]),
        false,
    );

    assert!(text.contains("Findings  (0)"));
    assert!(text.contains("Nothing to report."));
}

#[test]
fn an_uncomputed_shadow_section_refuses_to_look_clean() {
    let text = render(
        &report(vec![entry(0, PathScope::Machine, r"C:\WINDOWS")]),
        false,
    );

    assert!(text.contains("Shadowed executables  (not computed)"));
    assert!(text.contains("did not run"));
    // The dangerous wording would be a bare zero.
    assert!(!text.contains("Shadowed executables  (0"));
}

#[test]
fn shadows_only_omits_the_composition_and_findings() {
    let mut dead = entry(0, PathScope::User, r"C:\Users\Someone\nope");
    dead.findings = vec![Finding::Missing];

    let text = render(&report(vec![dead]), true);

    assert!(!text.contains("PATH composition"));
    assert!(!text.contains("Findings"));
    assert!(text.contains("Shadowed executables"));
}

/// A report from a build that did enumerate.
fn enumerated(entries: Vec<PathEntry>, executables: Vec<Resolved>) -> AuditReport {
    AuditReport {
        entries,
        executables,
        interpreters_consulted: Vec::new(),
        capabilities: vec![
            Capability::Composition,
            Capability::EntryFindings,
            Capability::ShadowDetection,
        ],
    }
}

#[test]
fn a_shadowed_stem_names_the_winner_and_the_hidden_copies() {
    let mut vendored = occurrence(1, r"C:\Users\Someone\hermes\git\cmd", "git.exe");
    vendored.is_reparse_point = true;
    let computed = enumerated(
        vec![
            entry(0, PathScope::Machine, r"C:\Program Files\Git\cmd"),
            entry(1, PathScope::User, r"C:\Users\Someone\hermes\git\cmd"),
        ],
        vec![Resolved {
            stem: "git".to_owned(),
            intercepts: Vec::new(),
            occurrences: vec![
                occurrence(0, r"C:\Program Files\Git\cmd", "git.exe"),
                vendored,
            ],
        }],
    );

    let text = render(&computed, true);

    assert!(text.contains("Shadowed executables  (1 of 1 names)"));
    // The full path, not just the file name, so it can be acted on.
    assert!(text.contains(r"C:\Program Files\Git\cmd\git.exe"));
    let wins = text.find("wins");
    let hidden = text.find("hidden");
    assert!(wins.is_some() && hidden.is_some());
    assert!(wins < hidden, "the winner is listed first");
    assert!(text.contains("reparse point, not followed"));
}

#[test]
fn a_name_that_resolves_uniquely_is_counted_but_not_listed() {
    // Around a thousand of these on a real machine, so the table counts them
    // and `--json` carries them.
    let computed = enumerated(
        vec![entry(0, PathScope::User, r"C:\Users\Someone\vendored")],
        vec![Resolved {
            stem: "gzip".to_owned(),
            intercepts: Vec::new(),
            occurrences: vec![occurrence(0, r"C:\Users\Someone\vendored", "gzip.exe")],
        }],
    );

    let text = render(&computed, true);

    assert!(text.contains("Shadowed executables  (0 of 1 names)"));
    assert!(text.contains("No executable name resolves from more than one place."));
    assert!(!text.contains("gzip"));
}

#[test]
fn a_contest_inside_one_directory_says_pathext_decided_it() {
    let computed = enumerated(
        vec![entry(0, PathScope::Machine, r"C:\WINDOWS\system32")],
        vec![Resolved {
            stem: "powercfg".to_owned(),
            intercepts: Vec::new(),
            occurrences: vec![
                occurrence(0, r"C:\WINDOWS\system32", "powercfg.exe"),
                occurrence(0, r"C:\WINDOWS\system32", "powercfg.cpl"),
            ],
        }],
    );

    let text = render(&computed, true);

    assert!(text.contains("one directory, decided by PATHEXT order"));
}

#[test]
fn a_directory_that_already_ends_in_a_separator_is_not_doubled() {
    assert_eq!(
        join(r"C:\WINDOWS\System32\OpenSSH\", "ssh.exe"),
        r"C:\WINDOWS\System32\OpenSSH\ssh.exe"
    );
    assert_eq!(
        join(r"C:\Program Files\Git\cmd", "git.exe"),
        r"C:\Program Files\Git\cmd\git.exe"
    );
}

#[test]
fn an_empty_scope_is_reported_rather_than_left_blank() {
    let text = render(&report(Vec::new()), false);

    assert!(text.contains("No entries in scope."));
}

#[test]
fn the_whole_table_reads_like_this() {
    let mut system32 = entry(0, PathScope::Machine, r"%SystemRoot%\system32");
    system32.expanded = Some(r"C:\WINDOWS\system32".to_owned());
    system32.process_position = Some(1);
    let mut nope = unseen_entry(1, PathScope::User, "nope");
    nope.value_kind = Some(ValueKind::Sz);
    nope.findings = vec![Finding::Relative, Finding::Missing];
    let mut shim = entry(2, PathScope::ProcessOnly, r"C:\shim");
    shim.value_kind = None;
    shim.process_position = Some(0);
    let mut ours = occurrence(2, r"C:\shim", "node.exe");
    ours.scope = PathScope::ProcessOnly;
    ours.process_position = Some(0);
    let mut theirs = occurrence(0, r"C:\WINDOWS\system32", "node.exe");
    theirs.process_position = Some(1);
    let mut unseen = occurrence(1, "nope", "node.exe");
    unseen.process_position = None;
    let computed = enumerated(
        vec![system32, nope, shim],
        vec![Resolved {
            stem: "node".to_owned(),
            intercepts: Vec::new(),
            occurrences: vec![ours, theirs, unseen],
        }],
    );

    let lines: Vec<String> = render(&computed, false)
        .lines()
        .map(str::to_owned)
        .collect();
    assert_eq!(
        lines,
        vec![
            "",
            "PATH composition  (1 machine, 1 user, 1 injected at runtime)",
            "",
            "  IDX  LIVE  SCOPE         VALUE TYPE     DIRECTORY",
            r"    0     1  machine       REG_EXPAND_SZ  C:\WINDOWS\system32",
            r"                                          stored as %SystemRoot%\system32",
            r"    1     -  user          REG_SZ         nope",
            r"    2     0  process-only  -              C:\shim",
            "",
            "  1 entry is on PATH in the registry but not in this process. Restart the shell to pick it up.",
            "",
            "Findings  (2)",
            "",
            "    1  relative  nope",
            "    1  missing   nope",
            "",
            "Shadowed executables  (1 of 1 names)",
            "",
            "  Ranked as this process resolves them. A copy this process cannot reach is",
            "  marked unseen, and a name a new shell would resolve differently says so.",
            "",
            "  node",
            r"    wins    #2   C:\shim\node.exe",
            r"    hidden  #0   C:\WINDOWS\system32\node.exe",
            r"    unseen  #1   nope\node.exe",
            r"    note    a new process would run C:\WINDOWS\system32\node.exe",
        ]
    );
}

#[test]
fn several_unseen_entries_are_counted() {
    let text = render(
        &report(vec![
            unseen_entry(0, PathScope::Machine, r"C:\one"),
            unseen_entry(1, PathScope::User, r"C:\two"),
        ]),
        false,
    );

    assert!(text.contains(
        "2 entries are on PATH in the registry but not in this process. Restart the shell to pick them up."
    ));
}

#[test]
fn styles_are_switched_on_and_off() {
    let mut dead = entry(0, PathScope::User, r"C:\nope");
    dead.findings = vec![Finding::Missing, Finding::Relative];
    let text = styled(&report(vec![dead]), false);

    assert!(text.contains("\u{1b}[1mPATH composition\u{1b}[0m"));
    assert!(text.contains("\u{1b}[31mmissing \u{1b}[0m"));
    assert!(text.contains("\u{1b}[33mrelative\u{1b}[0m"));
    assert!(text.contains("\u{1b}[2mExecutable enumeration did not run"));
}

#[test]
fn the_winner_is_not_styled_at_all() {
    let computed = enumerated(
        Vec::new(),
        vec![Resolved {
            stem: "git".to_owned(),
            intercepts: Vec::new(),
            occurrences: vec![
                occurrence(0, r"C:\one", "git.exe"),
                occurrence(1, r"C:\two", "git.exe"),
            ],
        }],
    );
    let text = styled(&computed, true);

    assert!(text.contains("\n    wins    #0   C:\\one\\git.exe\n"));
    assert!(text.contains("\n    \u{1b}[2mhidden  #1   C:\\two\\git.exe\u{1b}[0m\n"));
}

#[test]
fn the_index_column_widens_for_large_indices() {
    let text = render(
        &report(vec![entry(12345, PathScope::Machine, r"C:\one")]),
        false,
    );

    assert!(text.contains("    IDX  LIVE  SCOPE"));
    assert!(text.contains("  12345  12345  machine"));
}
