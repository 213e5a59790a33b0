//! A machine with a long `PATH`, and the answers that were worked out for it by hand.
//!
//! | Fact | Value |
//! | --- | --- |
//! | machine entries | 8 |
//! | user entries | 14 |
//! | composed registry entries | 22 |
//! | index 0 | `C:\WINDOWS\system32`, stored as `%SystemRoot%\system32` |
//! | index 7 | `C:\Program Files\Git\cmd` |
//! | index 8 | `C:\Users\Chamal Upulitha\.cargo\bin`, first user entry |
//! | dead entries | exactly one, `...\AppData\Local\Programs\Ollama` |
//! | injected | `fnm_multishells`, process-only and clean |
//! | `git.exe` | three, `C:\Program Files\Git\cmd` winning |
//! | `bash.exe` | two, both vendored inside `hermes` |
//! | `gzip`, `unzip`, `sdiff` | one each, all vendored inside `hermes` |
//! | `python.exe` | one, `~\.local\bin`, no `WindowsApps` stub |
//! | `uv.exe` | two, `...\WinGet\Links` winning |

use pathdoc::executables::{
    DirectoryItem, ItemDetails, Listing, ReadError, FILE_ATTRIBUTE_REPARSE_POINT,
};
use pathdoc::probe::Probe;
use pathdoc::winenv::{Scope, ValueRead};
use pathdoc::{audit, AuditReport, Capability, Finding, PathEntry, PathScope, Resolved, ValueKind};

/// Number of entries the machine scope contributes on this machine.
const MACHINE_ENTRIES: usize = 8;
/// Number of entries the user scope contributes on this machine.
const USER_ENTRIES: usize = 14;

const MACHINE_PATH: &str = r"%SystemRoot%\system32;%SystemRoot%;%SystemRoot%\System32\Wbem;%SYSTEMROOT%\System32\WindowsPowerShell\v1.0\;%SYSTEMROOT%\System32\OpenSSH\;C:\Program Files\dotnet\;C:\Program Files\PowerShell\7\;C:\Program Files\Git\cmd";

const USER_PATH: &str = r"C:\Users\Chamal Upulitha\.cargo\bin;C:\Users\Chamal Upulitha\AppData\Local\Microsoft\WinGet\Links;C:\Users\Chamal Upulitha\.local\bin;C:\Users\Chamal Upulitha\AppData\Local\hermes\bin;C:\Users\Chamal Upulitha\AppData\Local\Microsoft\WindowsApps;C:\Users\Chamal Upulitha\AppData\Local\Programs\Microsoft VS Code\bin;C:\Users\Chamal Upulitha\AppData\Local\Programs\Ollama;C:\Users\Chamal Upulitha\AppData\Local\hermes\git\cmd;C:\Users\Chamal Upulitha\AppData\Local\hermes\git\bin;C:\Users\Chamal Upulitha\AppData\Local\hermes\git\usr\bin;C:\Users\Chamal Upulitha\AppData\Local\hermes\node;C:\Users\Chamal Upulitha\AppData\Local\hermes\ffmpeg;C:\Users\Chamal Upulitha\AppData\Roaming\npm;C:\Users\Chamal Upulitha\.dotnet\tools";

const SHIM: &str = r"C:\Users\Chamal Upulitha\AppData\Local\fnm_multishells\1234_5678";

fn stored(scope: Scope, _: &str) -> ValueRead {
    ValueRead::Present {
        registry_type: "REG_EXPAND_SZ".to_owned(),
        text: Ok(match scope {
            Scope::Machine => MACHINE_PATH,
            Scope::User => USER_PATH,
        }
        .to_owned()),
    }
}

fn lookup(name: &str) -> Option<String> {
    match name.to_lowercase().as_str() {
        "systemroot" => Some(r"C:\WINDOWS".to_owned()),
        "pathext" => Some(".COM;.EXE;.BAT;.CMD;.VBS;.VBE;.JS;.JSE;.WSF;.WSH;.MSC;.CPL".to_owned()),
        _ => None,
    }
}

fn probe(path: &str) -> Probe {
    if path.ends_with(r"\Ollama") {
        Probe::NotFound
    } else {
        Probe::Directory
    }
}

fn files(names: &[&str], attributes: u32) -> Listing {
    Listing::Items(
        names
            .iter()
            .map(|name| DirectoryItem {
                file_name: (*name).to_owned(),
                details: Some(ItemDetails {
                    is_directory: false,
                    attributes,
                }),
            })
            .collect(),
    )
}

fn list(directory: &str) -> Listing {
    let local = r"C:\Users\Chamal Upulitha\AppData\Local";
    if directory == r"C:\WINDOWS\system32" {
        let mut names = vec![
            "powercfg.cpl".to_owned(),
            "powercfg.exe".to_owned(),
            "winrm.vbs".to_owned(),
            "winrm.cmd".to_owned(),
            "HOSTNAME.EXE".to_owned(),
        ];
        names.extend((0..600).map(|number| format!("tool{number}.exe")));
        let names: Vec<&str> = names.iter().map(String::as_str).collect();
        files(&names, 0x20)
    } else if directory == r"C:\Program Files\Git\cmd" {
        files(&["git.exe", "git-gui.exe"], 0x20)
    } else if directory == format!(r"{local}\Microsoft\WinGet\Links") {
        files(
            &["uv.exe", "uvx.exe", "uvw.exe"],
            FILE_ATTRIBUTE_REPARSE_POINT | 0x20,
        )
    } else if directory == r"C:\Users\Chamal Upulitha\.local\bin" {
        files(&["python.exe", "python3.exe", "python3.11.exe"], 0x20)
    } else if directory == format!(r"{local}\hermes\bin") {
        files(&["uvw.exe", "uvx.exe", "uv.exe", "README.md"], 0x20)
    } else if directory == format!(r"{local}\hermes\git\cmd") {
        files(&["git.exe"], 0x20)
    } else if directory == format!(r"{local}\hermes\git\bin") {
        files(&["git.exe", "bash.exe"], 0x20)
    } else if directory == format!(r"{local}\hermes\git\usr\bin") {
        files(&["bash.exe", "gzip.exe", "unzip.exe", "sdiff.exe"], 0x20)
    } else if directory.ends_with("Ollama") {
        Listing::Failed(ReadError::NotFound)
    } else {
        files(&[], 0x20)
    }
}

fn run(_: &str, _: bool) -> Option<String> {
    None
}

fn report() -> AuditReport {
    let expanded = MACHINE_PATH
        .replace("%SystemRoot%", r"C:\WINDOWS")
        .replace("%SYSTEMROOT%", r"C:\WINDOWS");
    let process = format!("{SHIM};{expanded};{USER_PATH}");
    match audit(&stored, Some(&process), &lookup, &probe, &list, &run) {
        Ok(report) => report,
        Err(err) => panic!("audit failed: {}", err.to_string()),
    }
}

fn in_scope(report: &AuditReport, scope: PathScope) -> Vec<&PathEntry> {
    report
        .entries
        .iter()
        .filter(|entry| entry.scope == scope)
        .collect()
}

#[test]
fn scope_counts_match_provisioning() {
    let report = report();
    let machine = in_scope(&report, PathScope::Machine);
    let user = in_scope(&report, PathScope::User);

    assert_eq!(machine.len(), MACHINE_ENTRIES, "machine entries");
    assert_eq!(user.len(), USER_ENTRIES, "user entries");
    assert_eq!(
        machine.len() + user.len(),
        MACHINE_ENTRIES + USER_ENTRIES,
        "composed registry entries"
    );

    // Registry entries take the first indices, contiguously, machine first.
    for (position, entry) in machine.iter().chain(user.iter()).enumerate() {
        assert_eq!(entry.index, position);
    }
}

#[test]
fn pinned_indices_are_where_windows_puts_them() {
    let report = report();

    let first = &report.entries[0];
    assert_eq!(first.effective(), r"C:\WINDOWS\system32");
    // Stored literally as an environment reference, and reported as both facts.
    assert_eq!(first.raw, r"%SystemRoot%\system32");
    assert_eq!(first.expanded.as_deref(), Some(r"C:\WINDOWS\system32"));
    assert_eq!(first.value_kind, Some(ValueKind::ExpandSz));
    assert_eq!(first.scope, PathScope::Machine);

    // Last machine entry. This is the one that beats both vendored gits, purely
    // because machine PATH is composed before user PATH.
    let last_machine = &report.entries[MACHINE_ENTRIES - 1];
    assert_eq!(last_machine.effective(), r"C:\Program Files\Git\cmd");
    assert_eq!(last_machine.scope, PathScope::Machine);
    // Stored expandable but with nothing to expand, so there is no second form.
    assert_eq!(last_machine.value_kind, Some(ValueKind::ExpandSz));
    assert_eq!(last_machine.expanded, None);

    // First user entry, immediately after the machine block.
    let first_user = &report.entries[MACHINE_ENTRIES];
    assert_eq!(
        first_user.effective(),
        r"C:\Users\Chamal Upulitha\.cargo\bin"
    );
    assert_eq!(first_user.scope, PathScope::User);
    assert_eq!(first_user.value_kind, Some(ValueKind::ExpandSz));
    assert_eq!(first_user.expanded, None);
}

#[test]
fn the_only_dead_entry_is_ollama() {
    let report = report();

    let dead: Vec<&PathEntry> = report
        .entries
        .iter()
        .filter(|entry| entry.findings.contains(&Finding::Missing))
        .collect();

    assert_eq!(
        dead.len(),
        1,
        "expected exactly one dead entry, got {:?}",
        dead.iter().map(|e| e.effective()).collect::<Vec<_>>()
    );
    assert!(
        dead[0]
            .effective()
            .ends_with(r"\AppData\Local\Programs\Ollama"),
        "unexpected dead entry: {:?}",
        dead[0].effective()
    );
    assert_eq!(dead[0].scope, PathScope::User);
}

#[test]
fn the_fnm_shim_is_process_only_and_carries_no_findings() {
    let report = report();
    let injected = in_scope(&report, PathScope::ProcessOnly);

    let shim = injected
        .iter()
        .find(|entry| entry.effective().contains("fnm_multishells"));
    let Some(shim) = shim else {
        panic!(
            "the fnm shim is on the process PATH but was not reported as process-only; got {:?}",
            injected
                .iter()
                .map(|entry| entry.effective())
                .collect::<Vec<_>>()
        );
    };

    // Injected at runtime is legitimate, not a problem to report.
    assert!(
        shim.findings.is_empty(),
        "the fnm shim must not be flagged: {:?}",
        shim.findings
    );
    // It did not come from the registry, so there is no value kind to record.
    assert_eq!(shim.value_kind, None);
    assert_eq!(shim.expanded, None);

    // Runtime injection lands after the registry block, never inside it.
    for entry in &injected {
        assert!(
            entry.index >= MACHINE_ENTRIES + USER_ENTRIES,
            "process-only entry {:?} landed inside the registry block at index {}",
            entry.effective(),
            entry.index
        );
    }
}

/// Index of `C:\Program Files\Git\cmd`, the last machine entry.
const GIT_FOR_WINDOWS: usize = 7;
/// Index of `...\AppData\Local\Microsoft\WinGet\Links`.
const WINGET_LINKS: usize = 9;
/// Index of `...\.local\bin`, where uv puts its Python shims.
const LOCAL_BIN: usize = 10;
/// Index of `...\AppData\Local\hermes\bin`.
const HERMES_BIN: usize = 11;
/// Index of `...\AppData\Local\hermes\git\cmd`.
const HERMES_GIT_CMD: usize = 15;
/// Index of `...\AppData\Local\hermes\git\bin`.
const HERMES_GIT_BIN: usize = 16;
/// Index of `...\AppData\Local\hermes\git\usr\bin`, the vendored coreutils.
const HERMES_GIT_USR_BIN: usize = 17;

fn resolved<'a>(report: &'a AuditReport, stem: &str) -> &'a Resolved {
    match report
        .executables
        .iter()
        .find(|candidate| candidate.stem == stem)
    {
        Some(found) => found,
        None => panic!("`{stem}` resolves from nowhere on this PATH"),
    }
}

/// Assert one occurrence, by position, names the expected entry and file.
fn assert_occurrence(resolved: &Resolved, position: usize, entry_index: usize, file_name: &str) {
    let Some(occurrence) = resolved.occurrences.get(position) else {
        panic!(
            "`{}` has no occurrence {position}; it has {}",
            resolved.stem,
            resolved.occurrences.len()
        )
    };

    assert_eq!(
        occurrence.entry_index, entry_index,
        "`{}` occurrence {position} came from {} ({:?}), expected entry {entry_index}",
        resolved.stem, occurrence.entry_index, occurrence.directory
    );
    assert_eq!(occurrence.file_name, file_name);
}

#[test]
fn git_for_windows_beats_both_vendored_copies() {
    let report = report();
    let git = resolved(&report, "git");

    assert!(git.is_shadowed());
    assert_eq!(
        git.occurrences.len(),
        3,
        "expected three git.exe, found {:?}",
        git.occurrences
            .iter()
            .map(|occurrence| occurrence.directory.as_str())
            .collect::<Vec<_>>()
    );

    // Machine PATH is composed before user PATH, which is the entire reason the
    // real install won here without anybody intervening.
    assert_occurrence(git, 0, GIT_FOR_WINDOWS, "git.exe");
    assert_occurrence(git, 1, HERMES_GIT_CMD, "git.exe");
    assert_occurrence(git, 2, HERMES_GIT_BIN, "git.exe");
    assert!(!git.is_pathext_only());

    let Some(winner) = git.live_winner() else {
        panic!("a shadowed name with no winner")
    };
    assert_eq!(winner.directory, r"C:\Program Files\Git\cmd");
}

#[test]
fn the_vendored_unix_tools_are_named_even_though_nothing_competes_with_them() {
    let report = report();

    // All three appear exactly once, so a conflicts-only report could never have
    // mentioned them.
    for stem in ["gzip", "unzip", "sdiff"] {
        let tool = resolved(&report, stem);

        assert!(
            !tool.is_shadowed(),
            "`{stem}` was expected to appear exactly once, found {:?}",
            tool.occurrences
                .iter()
                .map(|occurrence| occurrence.directory.as_str())
                .collect::<Vec<_>>()
        );
        assert_occurrence(tool, 0, HERMES_GIT_USR_BIN, &format!("{stem}.exe"));
    }
}

#[test]
fn bash_resolves_inside_hermes_twice_over() {
    let report = report();
    let bash = resolved(&report, "bash");

    assert!(bash.is_shadowed());
    assert_eq!(bash.occurrences.len(), 2);
    assert_occurrence(bash, 0, HERMES_GIT_BIN, "bash.exe");
    assert_occurrence(bash, 1, HERMES_GIT_USR_BIN, "bash.exe");
}

#[test]
fn python_resolves_from_local_bin_with_no_store_stub_left() {
    let report = report();
    let python = resolved(&report, "python");

    assert_occurrence(python, 0, LOCAL_BIN, "python.exe");
    assert!(
        !python.is_shadowed(),
        "expected one python.exe, found {:?}",
        python
            .occurrences
            .iter()
            .map(|occurrence| occurrence.directory.as_str())
            .collect::<Vec<_>>()
    );

    // The App Execution Aliases were turned off during provisioning. If one ever
    // comes back it will land in WindowsApps at index 12 and win nothing, but it
    // would still show up here.
    assert!(
        !python
            .occurrences
            .iter()
            .any(|occurrence| occurrence.directory.contains("WindowsApps")),
        "a WindowsApps stub is back on PATH"
    );
    assert!(
        !python
            .occurrences
            .iter()
            .any(|occurrence| occurrence.is_reparse_point),
        "python.exe should be a real binary, not an alias stub"
    );
}

#[test]
fn versioned_python_shims_are_separate_programs() {
    let report = report();

    // `python3.11.exe` must not be filed under `python3`. Only the matched
    // PATHEXT extension comes off the end of a name.
    let python3 = resolved(&report, "python3");
    assert_occurrence(python3, 0, LOCAL_BIN, "python3.exe");
    assert!(!python3.is_shadowed());

    let pinned = resolved(&report, "python3.11");
    assert_occurrence(pinned, 0, LOCAL_BIN, "python3.11.exe");
}

#[test]
fn our_uv_beats_the_vendored_one_on_user_path_order() {
    let report = report();

    // WinGet\Links was moved to the front of the user PATH during provisioning
    // precisely so this would be the outcome. Same for uv's sibling shims.
    for stem in ["uv", "uvx", "uvw"] {
        let tool = resolved(&report, stem);

        assert!(tool.is_shadowed(), "`{stem}` should appear twice");
        assert_eq!(tool.occurrences.len(), 2);
        assert_occurrence(tool, 0, WINGET_LINKS, &format!("{stem}.exe"));
        assert_occurrence(tool, 1, HERMES_BIN, &format!("{stem}.exe"));

        // WinGet\Links holds symlinks to the real package, and the winner being a
        // reparse point is reported rather than resolved away. The other side of
        // this is `python.exe`, which is a real binary and must not be flagged.
        assert!(
            tool.occurrences[0].is_reparse_point,
            "`{stem}` in WinGet\\Links is a symlink and should be reported as one"
        );
        assert!(!tool.occurrences[1].is_reparse_point);
    }
}

#[test]
fn a_contest_inside_system32_is_decided_by_pathext_not_path() {
    let report = report();
    let powercfg = resolved(&report, "powercfg");

    // Both live in system32, entry 0. `.exe` outranks `.cpl` in PATHEXT, and no
    // amount of reordering PATH would change that.
    assert!(powercfg.is_shadowed());
    assert!(powercfg.is_pathext_only());
    assert_occurrence(powercfg, 0, 0, "powercfg.exe");
    assert_occurrence(powercfg, 1, 0, "powercfg.cpl");
}

#[test]
fn enumeration_ran_and_nothing_on_this_path_refused_to_open() {
    let report = report();

    assert!(report.computed(Capability::ShadowDetection));
    assert!(
        report.executables.len() > 500,
        "system32 alone should account for hundreds of names, got {}",
        report.executables.len()
    );

    // Nothing on this PATH is ACL-locked. If that ever changes this is the test
    // that will say so, rather than the count quietly shifting.
    let unreadable: Vec<&str> = report
        .entries
        .iter()
        .filter(|entry| entry.findings.contains(&Finding::Unreadable))
        .map(PathEntry::effective)
        .collect();
    assert!(unreadable.is_empty(), "unreadable: {unreadable:?}");
}
