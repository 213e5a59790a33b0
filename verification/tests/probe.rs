//! What the filesystem says about an entry.

use pathdoc::probe::{annotate, finding_for_probe, Probe};
use pathdoc::{Finding, PathEntry, PathScope};

fn entry(index: usize, raw: &str) -> PathEntry {
    PathEntry {
        index,
        scope: PathScope::Machine,
        raw: raw.to_owned(),
        expanded: None,
        value_kind: None,
        process_position: None,
        findings: Vec::new(),
    }
}

/// A directory, a file in it, and nothing else.
fn disk(path: &str) -> Probe {
    match path {
        r"C:\sandbox" => Probe::Directory,
        r"C:\sandbox\stray.txt" => Probe::NotADirectory,
        r"C:\locked" => Probe::Unknown,
        _ => Probe::NotFound,
    }
}

#[test]
fn a_real_directory_gets_no_findings() {
    let mut entries = vec![entry(0, r"C:\sandbox")];

    annotate(&mut entries, &disk);

    assert!(entries[0].findings.is_empty());
}

#[test]
fn a_file_on_the_path_is_not_a_directory() {
    let mut entries = vec![entry(0, r"C:\sandbox\stray.txt")];

    annotate(&mut entries, &disk);

    assert_eq!(entries[0].findings, vec![Finding::NotADirectory]);
}

#[test]
fn an_absent_directory_is_missing() {
    let mut entries = vec![entry(0, r"C:\sandbox\no-such-directory")];

    annotate(&mut entries, &disk);

    assert_eq!(entries[0].findings, vec![Finding::Missing]);
}

#[test]
fn the_expanded_form_is_what_gets_probed() {
    let mut probed = entry(0, "%SOMETHING%");
    probed.expanded = Some(r"C:\sandbox".to_owned());
    let mut entries = vec![probed];

    annotate(&mut entries, &disk);

    assert!(entries[0].findings.is_empty());
}

#[test]
fn an_empty_entry_is_not_probed() {
    let mut entries = vec![entry(0, "")];

    annotate(&mut entries, &disk);

    // `Empty` is compose's business; there is nothing on disk to check.
    assert!(entries[0].findings.is_empty());
}

#[test]
fn a_failure_to_tell_is_no_finding() {
    let mut entries = vec![entry(0, r"C:\locked")];

    annotate(&mut entries, &disk);

    assert!(entries[0].findings.is_empty());
    assert_eq!(finding_for_probe(Probe::Unknown), None);
}

#[test]
fn earlier_findings_are_kept_in_front() {
    let mut relative = entry(0, "bin");
    relative.findings = vec![Finding::Relative];
    let mut entries = vec![relative];

    annotate(&mut entries, &disk);

    assert_eq!(
        entries[0].findings,
        vec![Finding::Relative, Finding::Missing]
    );
}
