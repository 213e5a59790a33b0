//! Reports: what they say, and what an audit puts into them.

use pathdoc::executables::{DirectoryItem, ItemDetails, Listing};
use pathdoc::probe::Probe;
use pathdoc::winenv::{Scope, ValueRead};
use pathdoc::{
    audit, audit_with, AuditError, AuditOptions, AuditReport, Capability, Finding, Intercept,
    Interpreter, Occurrence, PathEntry, PathScope, Resolved, ShellConstruct, ShellScan,
};

// ---- a small machine to audit ----

fn stored(scope: Scope, name: &str) -> ValueRead {
    assert_eq!(name, "Path");
    match scope {
        Scope::Machine => ValueRead::Present {
            registry_type: "REG_EXPAND_SZ".to_owned(),
            text: Ok(r"%SystemRoot%\system32;C:\tools".to_owned()),
        },
        Scope::User => ValueRead::ValueAbsent,
    }
}

fn lookup(name: &str) -> Option<String> {
    if name.eq_ignore_ascii_case("SystemRoot") {
        Some(r"C:\WINDOWS".to_owned())
    } else {
        None
    }
}

fn probe(path: &str) -> Probe {
    if path == r"C:\tools" {
        Probe::NotFound
    } else {
        Probe::Directory
    }
}

fn list(directory: &str) -> Listing {
    let names: &[&str] = match directory {
        r"C:\WINDOWS\system32" => &["powershell.exe", "sc.exe", "winrm.cmd", "winrm.vbs"],
        r"C:\shim" => &["node.exe"],
        _ => panic!("{directory} was read"),
    };
    Listing::Items(
        names
            .iter()
            .map(|name| DirectoryItem {
                file_name: (*name).to_owned(),
                details: Some(ItemDetails {
                    is_directory: false,
                    attributes: 0x20,
                }),
            })
            .collect(),
    )
}

fn run(path: &str, profile: bool) -> Option<String> {
    assert_eq!(path, r"C:\WINDOWS\system32\powershell.exe");
    assert!(!profile);
    Some("alias\tsc\tSet-Content\n".to_owned())
}

const PROCESS: &str = r"C:\shim;C:\WINDOWS\system32";

fn audit_here() -> Result<AuditReport, AuditError> {
    audit(&stored, Some(PROCESS), &lookup, &probe, &list, &run)
}

#[test]
fn empty_report_has_no_findings() {
    assert!(!AuditReport::default().has_findings());
}

#[test]
fn a_default_report_claims_to_have_computed_nothing() {
    let report = AuditReport::default();
    assert!(!report.computed(Capability::Composition));
    assert!(!report.computed(Capability::ShadowDetection));
}

#[test]
fn the_effective_value_prefers_the_expansion() {
    let mut entry = PathEntry {
        index: 0,
        scope: PathScope::Machine,
        raw: r"%SystemRoot%".to_owned(),
        expanded: None,
        value_kind: None,
        process_position: Some(0),
        findings: Vec::new(),
    };
    assert_eq!(entry.effective(), r"%SystemRoot%");

    entry.expanded = Some(r"C:\WINDOWS".to_owned());
    assert_eq!(entry.effective(), r"C:\WINDOWS");
}

#[test]
fn an_entry_absent_from_the_process_block_is_not_live() {
    let mut entry = PathEntry {
        index: 0,
        scope: PathScope::Machine,
        raw: r"C:\just\installed".to_owned(),
        expanded: None,
        value_kind: None,
        process_position: None,
        findings: Vec::new(),
    };
    // Added to the registry since this process started. Not an error, and not
    // resolvable until something restarts.
    assert!(!entry.is_live());

    entry.process_position = Some(4);
    assert!(entry.is_live());
}

#[test]
fn audit_reads_the_registry_and_composes_something() {
    // Every Windows machine has a machine `PATH`, so the composed list cannot be
    // empty.
    match audit_here() {
        Ok(report) => {
            assert!(!report.entries.is_empty());
            for (position, entry) in report.entries.iter().enumerate() {
                assert_eq!(entry.index, position);
            }
        }
        Err(err) => panic!("audit failed: {}", err.to_string()),
    }
}

#[test]
fn audit_reports_what_it_computed() {
    match audit_here() {
        Ok(report) => {
            assert!(report.computed(Capability::Composition));
            assert!(report.computed(Capability::EntryFindings));
            assert!(report.computed(Capability::ShadowDetection));
        }
        Err(err) => panic!("audit failed: {}", err.to_string()),
    }
}

#[test]
fn audit_finds_executables_and_shadowing_is_a_subset_of_them() {
    // `system32` alone guarantees both, since it ships several names under two
    // extensions apiece.
    match audit_here() {
        Ok(report) => {
            assert!(!report.executables.is_empty());
            let shadowed = report.shadowed().len();
            assert!(shadowed <= report.executables.len());
            for resolved in report.shadowed() {
                assert!(resolved.occurrences.len() > 1);
            }
        }
        Err(err) => panic!("audit failed: {}", err.to_string()),
    }
}

#[test]
fn every_entry_reports_whether_this_process_can_see_it() {
    match audit_here() {
        Ok(report) => {
            // `system32` is on both the registry and the process
            // block of any Windows process, so at least one entry is live.
            assert!(report.entries.iter().any(PathEntry::is_live));

            // A process-only entry is by definition one the process can see.
            for entry in &report.entries {
                if entry.scope == PathScope::ProcessOnly {
                    assert!(
                        entry.is_live(),
                        "{:?} is process-only yet has no process position",
                        entry.effective()
                    );
                }
            }
        }
        Err(err) => panic!("audit failed: {}", err.to_string()),
    }
}

#[test]
fn a_single_occurrence_is_not_shadowed() {
    let resolved = Resolved {
        stem: "gzip".to_owned(),
        occurrences: vec![Occurrence {
            entry_index: 17,
            scope: PathScope::User,
            process_position: Some(17),
            directory: r"C:\vendored\usr\bin".to_owned(),
            file_name: "gzip.exe".to_owned(),
            is_reparse_point: false,
        }],
        intercepts: Vec::new(),
    };

    assert!(!resolved.is_shadowed());
    assert!(!resolved.is_pathext_only());
    assert!(!resolved.is_intercepted());
    assert!(!resolved.winner_depends_on_context());
    assert_eq!(
        resolved
            .live_winner()
            .map(|occurrence| occurrence.entry_index),
        Some(17)
    );
    assert_eq!(
        resolved
            .fresh_winner()
            .map(|occurrence| occurrence.entry_index),
        Some(17)
    );
}

#[test]
fn a_contest_inside_one_directory_is_decided_by_pathext() {
    let occurrence = |file_name: &str| Occurrence {
        entry_index: 0,
        scope: PathScope::Machine,
        process_position: Some(1),
        directory: r"C:\WINDOWS\system32".to_owned(),
        file_name: file_name.to_owned(),
        is_reparse_point: false,
    };
    let resolved = Resolved {
        stem: "powercfg".to_owned(),
        occurrences: vec![occurrence("powercfg.exe"), occurrence("powercfg.cpl")],
        intercepts: Vec::new(),
    };

    assert!(resolved.is_shadowed());
    assert!(resolved.is_pathext_only());
    assert!(!resolved.winner_depends_on_context());
}

#[test]
fn the_two_winners_are_derivable_the_way_a_json_consumer_would() {
    // Documented derivation rules, asserted so they stay true: live winner is
    // the first occurrence with a process position, fresh winner is the lowest
    // entry index among those that are not process-only.
    let shim = Occurrence {
        entry_index: 9,
        scope: PathScope::ProcessOnly,
        process_position: Some(0),
        directory: r"C:\shim".to_owned(),
        file_name: "node.exe".to_owned(),
        is_reparse_point: false,
    };
    let registry = Occurrence {
        entry_index: 3,
        scope: PathScope::User,
        process_position: Some(5),
        directory: r"C:\registry".to_owned(),
        file_name: "node.exe".to_owned(),
        is_reparse_point: false,
    };
    // Live order: the shim is at process position 0, so it comes first.
    let resolved = Resolved {
        stem: "node".to_owned(),
        occurrences: vec![shim, registry],
        intercepts: Vec::new(),
    };

    assert_eq!(
        resolved.live_winner().map(|found| found.directory.as_str()),
        Some(r"C:\shim")
    );
    assert_eq!(
        resolved
            .fresh_winner()
            .map(|found| found.directory.as_str()),
        Some(r"C:\registry")
    );
    assert!(resolved.winner_depends_on_context());
}

// ---- what the small machine's report says ----

#[test]
fn an_audit_puts_every_step_into_the_report() {
    let report = match audit_here() {
        Ok(report) => report,
        Err(err) => panic!("audit failed: {}", err.to_string()),
    };

    let directories: Vec<&str> = report.entries.iter().map(PathEntry::effective).collect();
    assert_eq!(
        directories,
        vec![r"C:\WINDOWS\system32", r"C:\tools", r"C:\shim"]
    );
    assert_eq!(report.entries[0].process_position, Some(1));
    assert_eq!(report.entries[1].findings, vec![Finding::Missing]);
    assert_eq!(report.entries[2].scope, PathScope::ProcessOnly);
    assert!(report.entries[2].findings.is_empty());

    let stems: Vec<&str> = report
        .executables
        .iter()
        .map(|resolved| resolved.stem.as_str())
        .collect();
    assert_eq!(stems, vec!["node", "powershell", "sc", "winrm"]);

    // `winrm.cmd` beats `winrm.vbs` in system32, and PATHEXT is why.
    let winrm = &report.executables[3];
    assert!(winrm.is_pathext_only());
    assert_eq!(winrm.occurrences[0].file_name, "winrm.cmd");
    assert_eq!(report.shadowed().len(), 1);
    assert!(report.has_findings());

    let sc = &report.executables[2];
    assert!(sc.is_intercepted());
    assert!(report.consulted(r"c:\windows\SYSTEM32\powershell.exe"));
    assert!(!report.consulted(r"C:\seven\pwsh.exe"));
    assert!(report.computed(Capability::ShellMasking));
}

#[test]
fn skipping_the_shells_claims_no_masking() {
    let options = AuditOptions::default().with_shell_scan(ShellScan::Skip);
    let report = match audit_with(&options, &stored, Some(PROCESS), &lookup, &probe, &list, &run) {
        Ok(report) => report,
        Err(err) => panic!("audit failed: {}", err.to_string()),
    };

    assert!(!report.computed(Capability::ShellMasking));
    assert!(report.computed(Capability::ShadowDetection));
    assert!(report.interpreters_consulted.is_empty());
    assert!(report
        .executables
        .iter()
        .all(|resolved| resolved.intercepts.is_empty()));
}

#[test]
fn an_audit_without_a_process_path_has_nothing_live() {
    let report = match audit(&stored, None, &lookup, &probe, &list, &run) {
        Ok(report) => report,
        Err(err) => panic!("audit failed: {}", err.to_string()),
    };

    assert_eq!(report.entries.len(), 2);
    assert!(!report.entries.iter().any(PathEntry::is_live));
    assert!(report.executables[0].live_winner().is_none());
    assert!(report.executables[0].fresh_winner().is_some());
}

#[test]
fn an_unreadable_scope_makes_an_audit_impossible() {
    let refuse_machine = |scope: Scope, _: &str| match scope {
        Scope::Machine => ValueRead::KeyRefused("denied".to_owned()),
        Scope::User => panic!("the user scope was read"),
    };
    match audit(&refuse_machine, None, &lookup, &probe, &list, &run) {
        Ok(report) => panic!("expected an error, got {report:?}"),
        Err(AuditError::Registry(detail)) => assert_eq!(
            detail,
            r"HKLM\SYSTEM\CurrentControlSet\Control\Session Manager\Environment: cannot open: denied"
        ),
    }

    let refuse_user = |scope: Scope, _: &str| match scope {
        Scope::Machine => ValueRead::KeyAbsent,
        Scope::User => ValueRead::ValueRefused("denied".to_owned()),
    };
    match audit(&refuse_user, None, &lookup, &probe, &list, &run) {
        Ok(report) => panic!("expected an error, got {report:?}"),
        Err(AuditError::Registry(detail)) => {
            assert_eq!(detail, r"HKCU\Environment\Path: cannot read: denied");
        }
    }
}

#[test]
fn two_audits_of_one_machine_agree() {
    match (audit_here(), audit_here()) {
        (Ok(first), Ok(second)) => assert_eq!(first, second),
        other => panic!("audit failed: {other:?}"),
    }
}

#[test]
fn options_default_to_asking_without_a_profile() {
    let options = AuditOptions::default();
    assert_eq!(options.shell_scan, ShellScan::Ask { profile: false });
    assert!(options.shell_interpreters.is_empty());
    assert_eq!(ShellScan::default(), ShellScan::Ask { profile: false });

    let options = options
        .with_shell_scan(ShellScan::Ask { profile: true })
        .with_shell_interpreters(vec!["pwsh".to_owned()]);
    assert_eq!(options.shell_scan, ShellScan::Ask { profile: true });
    assert_eq!(options.clone().shell_interpreters, vec!["pwsh"]);
}

#[test]
fn a_fresh_process_runs_the_lowest_registry_index() {
    let at = |entry_index: usize, scope: PathScope| Occurrence {
        entry_index,
        scope,
        process_position: Some(9 - entry_index),
        directory: String::new(),
        file_name: String::new(),
        is_reparse_point: false,
    };
    let resolved = Resolved {
        stem: "tool".to_owned(),
        occurrences: vec![
            at(1, PathScope::ProcessOnly),
            at(5, PathScope::User),
            at(2, PathScope::Machine),
            at(4, PathScope::User),
        ],
        intercepts: Vec::new(),
    };

    assert_eq!(resolved.live_winner().map(|found| found.entry_index), Some(1));
    assert_eq!(resolved.fresh_winner().map(|found| found.entry_index), Some(2));
}

#[test]
fn an_intercept_is_found_by_its_interpreter_whatever_the_case() {
    let resolved = Resolved {
        stem: "sc".to_owned(),
        occurrences: Vec::new(),
        intercepts: vec![Intercept {
            construct: ShellConstruct::Alias,
            resolves_to: Some("Set-Content".to_owned()),
            interpreter: r"C:\PS\powershell.exe".to_owned(),
            profile_loaded: false,
        }],
    };
    let mut report = AuditReport::default();
    report.interpreters_consulted = vec![Interpreter {
        path: r"C:\PS\powershell.exe".to_owned(),
        profile_loaded: false,
    }];

    assert!(resolved.is_intercepted());
    assert!(resolved.intercept_by(r"c:\ps\POWERSHELL.exe").is_some());
    assert!(resolved.intercept_by(r"c:\ps\pwsh.exe").is_none());
    assert!(!resolved.is_pathext_only());
    assert!(report.consulted(r"c:\ps\powershell.EXE"));
    assert!(!report.consulted(r"c:\ps"));
}

#[test]
fn a_directory_that_is_on_path_twice_is_read_once() {
    let twice = |scope: Scope, _: &str| match scope {
        Scope::Machine => ValueRead::Present {
            registry_type: "REG_SZ".to_owned(),
            text: Ok(r"C:\one;C:\other;c:\ONE\".to_owned()),
        },
        Scope::User => ValueRead::KeyAbsent,
    };
    let exists = |_: &str| Probe::Directory;
    let read = std::cell::RefCell::new(Vec::new());
    let count = |directory: &str| {
        read.borrow_mut().push(directory.to_owned());
        Listing::Items(vec![DirectoryItem {
            file_name: "tool.exe".to_owned(),
            details: Some(ItemDetails {
                is_directory: false,
                attributes: 0x20,
            }),
        }])
    };
    let silent = |_: &str, _: bool| None;
    let report = match audit(&twice, None, &lookup, &exists, &count, &silent) {
        Ok(report) => report,
        Err(err) => panic!("audit failed: {}", err.to_string()),
    };

    assert_eq!(read.into_inner(), vec![r"C:\one", r"C:\other"]);
    assert_eq!(
        report.entries[2].findings,
        vec![Finding::Duplicate { first_seen_at: 0 }]
    );
    let tool = &report.executables[0];
    assert_eq!(tool.occurrences.len(), 2);
    for occurrence in &tool.occurrences {
        let entry = &report.entries[occurrence.entry_index];
        assert_eq!(occurrence.directory, entry.effective());
        assert_eq!(occurrence.scope, entry.scope);
        assert_eq!(occurrence.process_position, entry.process_position);
    }
}
