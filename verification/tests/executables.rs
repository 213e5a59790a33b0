//! Which files are programs, and which copy of a name wins.

use pathdoc::executables::{
    enumerate, finding_for_read_error, is_enumerable, DirectoryItem, ItemDetails, Listing,
    ReadError, FILE_ATTRIBUTE_REPARSE_POINT,
};
use pathdoc::pathext::{classify, extensions, parse_extensions, DEFAULT_PATHEXT};
use pathdoc::{Finding, PathEntry, PathScope, Resolved};

fn windows_pathext() -> Vec<String> {
    parse_extensions(DEFAULT_PATHEXT)
}

/// The ordinary case: a registry entry the running process can also see, at the
/// same position. That is what a fresh shell looks like.
fn entry(index: usize, directory: &str, findings: Vec<Finding>) -> PathEntry {
    PathEntry {
        index,
        scope: PathScope::Machine,
        raw: directory.to_owned(),
        expanded: None,
        value_kind: None,
        process_position: Some(index),
        findings,
    }
}

/// An entry at an arbitrary live position, or none at all.
fn entry_at(
    index: usize,
    scope: PathScope,
    directory: &str,
    process_position: Option<usize>,
) -> PathEntry {
    PathEntry {
        index,
        scope,
        raw: directory.to_owned(),
        expanded: None,
        value_kind: None,
        process_position,
        findings: Vec::new(),
    }
}

fn file(name: &str) -> DirectoryItem {
    DirectoryItem {
        file_name: name.to_owned(),
        details: Some(ItemDetails {
            is_directory: false,
            attributes: 0x20,
        }),
    }
}

fn listing(names: &[&str]) -> Listing {
    Listing::Items(names.iter().map(|name| file(name)).collect())
}

// ---- PATHEXT parsing ----

#[test]
fn pathext_is_read_from_the_environment() {
    let configured = |name: &str| {
        if name == "PATHEXT" {
            Some(".EXE;.CPL".to_owned())
        } else {
            None
        }
    };

    // Not the documented default, which is the point of reading it.
    assert_eq!(extensions(&configured), vec![".exe", ".cpl"]);
}

#[test]
fn an_absent_or_empty_pathext_falls_back_to_the_documented_default() {
    let silent = |_: &str| None;
    let blank = |_: &str| Some(String::new());

    assert_eq!(extensions(&silent), windows_pathext());
    assert_eq!(extensions(&blank), windows_pathext());
    assert_eq!(
        extensions(&silent).first().map(String::as_str),
        Some(".com")
    );
}

#[test]
fn pathext_order_is_preserved_because_it_is_precedence() {
    let parsed = windows_pathext();

    let com = parsed.iter().position(|ext| ext == ".com");
    let exe = parsed.iter().position(|ext| ext == ".exe");
    assert!(com < exe, "`.com` must outrank `.exe`");
}

#[test]
fn pathext_parsing_tolerates_untidy_values() {
    // Padding, a missing dot, mixed case, a stray separator and a repeat.
    let parsed = parse_extensions(" .EXE ; bat;;.Cmd;.exe;");

    assert_eq!(parsed, vec![".exe", ".bat", ".cmd"]);
}

#[test]
fn the_documented_default_is_eleven_extensions() {
    assert_eq!(
        windows_pathext(),
        vec![
            ".com", ".exe", ".bat", ".cmd", ".vbs", ".vbe", ".js", ".jse", ".wsf", ".wsh", ".msc"
        ]
    );
}

#[test]
fn a_blank_pathext_falls_back_too() {
    let blank = |_: &str| Some(" ; ;\t".to_owned());

    assert_eq!(extensions(&blank), windows_pathext());
}

#[test]
fn extensions_written_out_again_are_read_back() {
    for raw in [DEFAULT_PATHEXT, " .EXE ; bat;;.Cmd;.exe;", "", ";;", "a b; .. ;X.Y", ".ÉXÉ;ß; .é"] {
        let parsed = parse_extensions(raw);

        assert_eq!(parse_extensions(&parsed.join(";")), parsed);
    }
}

#[test]
fn extensions_come_in_the_order_their_pieces_first_appear() {
    assert_eq!(parse_extensions("b;A;B;.a;c"), vec![".b", ".a", ".c"]);
    // Every piece that is not blank is there, and nothing else.
    assert_eq!(parse_extensions(" ;.;\t; x"), vec![".", ".x"]);
}

// ---- classifying file names ----

#[test]
fn only_files_with_an_executable_extension_count() {
    let pathext = windows_pathext();

    assert_eq!(classify("git.exe", &pathext), Some(("git".to_owned(), 1)));
    assert_eq!(classify("readme.md", &pathext), None);
    assert_eq!(classify("git", &pathext), None);
}

#[test]
fn extension_matching_ignores_case() {
    let pathext = windows_pathext();

    // `system32` really does ship `HOSTNAME.EXE` in capitals.
    assert_eq!(
        classify("HOSTNAME.EXE", &pathext),
        classify("hostname.exe", &pathext)
    );
}

#[test]
fn only_the_matched_extension_is_stripped() {
    let pathext = windows_pathext();

    // Otherwise `python3.11` and `python3` would be confused for each other,
    // and they are different programs sitting in the same directory.
    assert_eq!(
        classify("python3.11.exe", &pathext).map(|(stem, _)| stem),
        Some("python3.11".to_owned())
    );
    assert_eq!(
        classify("python3.exe", &pathext).map(|(stem, _)| stem),
        Some("python3".to_owned())
    );
}

#[test]
fn a_longer_extension_is_not_confused_with_a_shorter_one() {
    let pathext = windows_pathext();

    assert_eq!(
        classify("script.jse", &pathext).map(|(stem, _)| stem),
        Some("script".to_owned())
    );
    assert_eq!(
        classify("script.js", &pathext).map(|(stem, _)| stem),
        Some("script".to_owned())
    );
    // Different extensions, so different ranks.
    assert_ne!(
        classify("script.jse", &pathext).map(|(_, rank)| rank),
        classify("script.js", &pathext).map(|(_, rank)| rank)
    );
}

#[test]
fn a_bare_extension_names_no_program() {
    assert_eq!(classify(".exe", &windows_pathext()), None);
}

#[test]
fn names_of_other_alphabets_are_lowered_too() {
    let pathext = windows_pathext();

    assert_eq!(
        classify("\u{c4}PFEL.EXE", &pathext),
        Some(("\u{e4}pfel".to_owned(), 1))
    );
}

// ---- which entries get enumerated ----

#[test]
fn a_healthy_entry_is_enumerated() {
    assert!(is_enumerable(&entry(0, r"C:\one", Vec::new())));
}

#[test]
fn a_duplicate_is_not_enumerated_twice() {
    // The earlier entry names the same directory. Reading it again would make
    // every program in it shadow itself.
    assert!(!is_enumerable(&entry(
        1,
        r"C:\one",
        vec![Finding::Duplicate { first_seen_at: 0 }]
    )));
}

#[test]
fn there_is_nothing_to_read_in_a_broken_entry() {
    for finding in [Finding::Missing, Finding::NotADirectory, Finding::Empty] {
        assert!(!is_enumerable(&entry(0, r"C:\one", vec![finding])));
    }
}

#[test]
fn a_relative_entry_is_still_enumerated() {
    // Windows would search it, so reporting what is in it is the honest answer.
    assert!(is_enumerable(&entry(0, "bin", vec![Finding::Relative])));
}

#[test]
fn a_directory_that_will_not_open_is_unreadable_not_missing() {
    assert_eq!(
        finding_for_read_error(ReadError::PermissionDenied),
        Finding::Unreadable
    );
    assert_eq!(finding_for_read_error(ReadError::Other), Finding::Unreadable);
    // Vanished between the probe and the read.
    assert_eq!(
        finding_for_read_error(ReadError::NotFound),
        Finding::Missing
    );
}

// ---- enumeration ----

#[test]
fn enumeration_finds_executables_and_ignores_everything_else() {
    let list = |_: &str| listing(&["tool.exe", "notes.txt", "script.cmd"]);
    let mut entries = vec![entry(0, r"C:\basic", Vec::new())];

    let resolved = enumerate(&mut entries, &windows_pathext(), &list);

    let stems: Vec<&str> = resolved.iter().map(|item| item.stem.as_str()).collect();
    assert_eq!(
        stems,
        vec!["script", "tool"],
        "sorted by stem, no notes.txt"
    );
    assert!(entries[0].findings.is_empty());
}

#[test]
fn an_occurrence_knows_its_directory_without_a_join() {
    let list = |_: &str| listing(&["tool.exe"]);
    let mut entries = vec![entry(7, r"C:\directory", Vec::new())];

    let resolved = enumerate(&mut entries, &windows_pathext(), &list);

    let Some(occurrence) = resolved.first().and_then(Resolved::live_winner) else {
        panic!("tool.exe was not found")
    };
    assert_eq!(occurrence.entry_index, 7);
    assert_eq!(occurrence.scope, PathScope::Machine);
    assert_eq!(occurrence.process_position, Some(7));
    assert_eq!(occurrence.directory, r"C:\directory");
    assert_eq!(occurrence.file_name, "tool.exe");
    assert!(!occurrence.is_reparse_point);
}

#[test]
fn path_order_decides_between_directories() {
    let list = |_: &str| listing(&["tool.exe"]);
    let mut entries = vec![
        entry(0, r"C:\wins", Vec::new()),
        entry(1, r"C:\loses", Vec::new()),
    ];

    let resolved = enumerate(&mut entries, &windows_pathext(), &list);

    assert_eq!(resolved.len(), 1);
    let tool = &resolved[0];
    assert!(tool.is_shadowed());
    assert!(!tool.is_pathext_only());
    assert_eq!(tool.occurrences.len(), 2);
    assert_eq!(tool.occurrences[0].directory, r"C:\wins");
    assert_eq!(tool.occurrences[1].directory, r"C:\loses");
}

#[test]
fn pathext_order_decides_within_one_directory() {
    // `.com` outranks `.exe`, which is the surprise this exists to surface.
    let list = |_: &str| listing(&["tool.exe", "tool.com"]);
    let mut entries = vec![entry(0, r"C:\pathext", Vec::new())];

    let resolved = enumerate(&mut entries, &windows_pathext(), &list);

    assert_eq!(resolved.len(), 1);
    let tool = &resolved[0];
    assert!(tool.is_shadowed());
    assert!(
        tool.is_pathext_only(),
        "one directory, so PATH order cannot be the tie-breaker"
    );
    assert_eq!(
        tool.live_winner()
            .map(|occurrence| occurrence.file_name.as_str()),
        Some("tool.com")
    );
    // One directory, so no context can disagree about which file wins.
    assert!(!tool.winner_depends_on_context());
}

#[test]
fn live_position_outranks_composed_index() {
    // A shim injected at runtime sits at the front of the live PATH but is
    // appended to the end of the composed order, so ranking by composed index
    // would name the wrong winner.
    let list = |_: &str| listing(&["node.exe"]);
    let mut entries = vec![
        // Composed first, but the process sees it second.
        entry_at(0, PathScope::User, r"C:\registry", Some(1)),
        // Composed last, and injected at the front of the live PATH.
        entry_at(1, PathScope::ProcessOnly, r"C:\shim", Some(0)),
    ];

    let resolved = enumerate(&mut entries, &windows_pathext(), &list);
    let node = &resolved[0];

    // What actually runs now.
    assert_eq!(
        node.live_winner().map(|found| found.directory.as_str()),
        Some(r"C:\shim")
    );
    // What would run in a new process, where the shim does not exist.
    assert_eq!(
        node.fresh_winner().map(|found| found.directory.as_str()),
        Some(r"C:\registry")
    );
    assert!(
        node.winner_depends_on_context(),
        "the two answers differ, and saying only one of them would be wrong"
    );
}

#[test]
fn a_directory_the_process_cannot_see_wins_nothing_now() {
    // A registry entry added after the shell started. It will win once the
    // shell restarts, and not before.
    let list = |_: &str| listing(&["tool.exe"]);
    let mut entries = vec![
        entry_at(0, PathScope::Machine, r"C:\unseen", None),
        entry_at(1, PathScope::User, r"C:\visible", Some(3)),
    ];

    let resolved = enumerate(&mut entries, &windows_pathext(), &list);
    let tool = &resolved[0];

    assert_eq!(
        tool.live_winner().map(|found| found.directory.as_str()),
        Some(r"C:\visible")
    );
    // But composed order still says the new entry outranks it.
    assert_eq!(
        tool.fresh_winner().map(|found| found.directory.as_str()),
        Some(r"C:\unseen")
    );
    // Occurrences are in live order, so the one that cannot be reached is last.
    assert_eq!(tool.occurrences[0].directory, r"C:\visible");
    assert_eq!(tool.occurrences[1].directory, r"C:\unseen");
    assert_eq!(tool.occurrences[1].process_position, None);
}

#[test]
fn a_name_only_in_an_unseen_directory_has_no_live_winner() {
    let list = |_: &str| listing(&["just.exe"]);
    let mut entries = vec![entry_at(0, PathScope::User, r"C:\only-unseen", None)];

    let resolved = enumerate(&mut entries, &windows_pathext(), &list);
    let just = &resolved[0];

    // Honest: nothing on this process's PATH answers to `just` yet.
    assert!(just.live_winner().is_none());
    assert!(just.fresh_winner().is_some());
    // Not a disagreement, just an absence.
    assert!(!just.winner_depends_on_context());
}

#[test]
fn a_name_only_in_a_process_only_directory_has_no_fresh_winner() {
    let list = |_: &str| listing(&["node.exe"]);
    let mut entries = vec![entry_at(0, PathScope::ProcessOnly, r"C:\only-shim", Some(0))];

    let resolved = enumerate(&mut entries, &windows_pathext(), &list);
    let node = &resolved[0];

    assert!(node.live_winner().is_some());
    // A fresh process would not have this directory on PATH at all.
    assert!(node.fresh_winner().is_none());
    assert!(!node.winner_depends_on_context());
}

#[test]
fn a_name_found_once_is_still_recorded() {
    let list = |_: &str| listing(&["gzip.exe"]);
    let mut entries = vec![entry(0, r"C:\single", Vec::new())];

    let resolved = enumerate(&mut entries, &windows_pathext(), &list);

    assert_eq!(resolved.len(), 1);
    assert_eq!(resolved[0].stem, "gzip");
    assert!(!resolved[0].is_shadowed());
}

#[test]
fn a_missing_directory_is_not_read_and_gains_no_new_finding() {
    let list = |directory: &str| -> Listing { panic!("{directory} was read") };
    let mut entries = vec![entry(
        0,
        r"C:\pathdoc-does-not-exist",
        vec![Finding::Missing],
    )];

    let resolved = enumerate(&mut entries, &windows_pathext(), &list);

    assert!(resolved.is_empty());
    assert_eq!(entries[0].findings, vec![Finding::Missing]);
}

#[test]
fn a_directory_that_denies_enumeration_is_reported_unreadable() {
    let list = |_: &str| Listing::Failed(ReadError::PermissionDenied);
    let mut entries = vec![entry(0, r"C:\denied", Vec::new())];

    let resolved = enumerate(&mut entries, &windows_pathext(), &list);

    assert_eq!(entries[0].findings, vec![Finding::Unreadable]);
    assert!(
        resolved.is_empty(),
        "nothing can be claimed about a directory that would not open"
    );
}

#[test]
fn a_directory_that_vanished_is_missing() {
    let list = |_: &str| Listing::Failed(ReadError::NotFound);
    let mut entries = vec![entry(0, r"C:\gone", vec![Finding::Relative])];

    let resolved = enumerate(&mut entries, &windows_pathext(), &list);

    assert!(resolved.is_empty());
    assert_eq!(
        entries[0].findings,
        vec![Finding::Relative, Finding::Missing]
    );
}

#[test]
fn the_expansion_is_what_gets_read() {
    let list = |directory: &str| {
        assert_eq!(directory, r"C:\WINDOWS");
        listing(&["tool.exe"])
    };
    let mut expanded = entry(0, "%SystemRoot%", Vec::new());
    expanded.expanded = Some(r"C:\WINDOWS".to_owned());
    let mut entries = vec![expanded];

    let resolved = enumerate(&mut entries, &windows_pathext(), &list);

    assert_eq!(resolved[0].occurrences[0].directory, r"C:\WINDOWS");
}

#[test]
fn directories_and_undescribed_items_are_no_programs() {
    let list = |_: &str| {
        Listing::Items(vec![
            DirectoryItem {
                file_name: "folder.exe".to_owned(),
                details: Some(ItemDetails {
                    is_directory: true,
                    attributes: 0x10,
                }),
            },
            DirectoryItem {
                file_name: "unknown.exe".to_owned(),
                details: None,
            },
            file("known.exe"),
        ])
    };
    let mut entries = vec![entry(0, r"C:\mixed", Vec::new())];

    let resolved = enumerate(&mut entries, &windows_pathext(), &list);

    assert_eq!(resolved.len(), 1);
    assert_eq!(resolved[0].stem, "known");
}

#[test]
fn a_reparse_point_is_reported_as_one() {
    let list = |_: &str| {
        Listing::Items(vec![DirectoryItem {
            file_name: "uv.exe".to_owned(),
            details: Some(ItemDetails {
                is_directory: false,
                attributes: FILE_ATTRIBUTE_REPARSE_POINT | 0x20,
            }),
        }])
    };
    let mut entries = vec![entry(0, r"C:\links", Vec::new())];

    let resolved = enumerate(&mut entries, &windows_pathext(), &list);

    assert!(resolved[0].occurrences[0].is_reparse_point);
}

#[test]
fn the_order_a_directory_lists_things_in_does_not_matter() {
    let one = |_: &str| listing(&["b.exe", "A.exe", "a.cmd", "a.com", "B.CMD"]);
    let other = |_: &str| listing(&["a.com", "B.CMD", "a.cmd", "A.exe", "b.exe"]);
    let mut first = vec![entry(0, r"C:\one", Vec::new())];
    let mut second = vec![entry(0, r"C:\one", Vec::new())];

    let left = enumerate(&mut first, &windows_pathext(), &one);
    let right = enumerate(&mut second, &windows_pathext(), &other);

    assert_eq!(left, right);
    let names: Vec<&str> = left[0]
        .occurrences
        .iter()
        .map(|occurrence| occurrence.file_name.as_str())
        .collect();
    assert_eq!(names, vec!["a.com", "A.exe", "a.cmd"]);
}
