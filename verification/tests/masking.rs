//! What shells answer to before `PATH` is searched.

use pathdoc::constructs::{arguments, parse, SCRIPT};
use pathdoc::masking::{interpreter_path, interpreters_to_ask, scan};
use pathdoc::{Occurrence, PathScope, Resolved, ShellConstruct, ShellScan};

fn resolved(stem: &str, directory: &str, file_name: &str) -> Resolved {
    Resolved {
        stem: stem.to_owned(),
        occurrences: vec![Occurrence {
            entry_index: 0,
            scope: PathScope::Machine,
            process_position: Some(0),
            directory: directory.to_owned(),
            file_name: file_name.to_owned(),
            is_reparse_point: false,
        }],
        intercepts: Vec::new(),
    }
}

fn silent(path: &str, _: bool) -> Option<String> {
    panic!("{path} was run")
}

// ---- parsing ----

#[test]
fn an_alias_records_what_it_points_at() {
    let constructs = parse("alias\tsc\tSet-Content\n");

    assert_eq!(
        constructs.get("sc"),
        Some(&(ShellConstruct::Alias, Some("Set-Content".to_owned())))
    );
}

#[test]
fn a_function_has_no_target_because_it_is_its_own_definition() {
    let constructs = parse("function\tmore\t\n");

    assert_eq!(
        constructs.get("more"),
        Some(&(ShellConstruct::Function, None))
    );
}

#[test]
fn names_are_indexed_case_insensitively() {
    let constructs = parse("alias\tWhere\tWhere-Object\n");

    assert!(constructs.contains_key("where"));
    assert!(!constructs.contains_key("Where"));
}

#[test]
fn an_alias_outranks_a_function_of_the_same_name() {
    // PowerShell's own precedence: alias, then function.
    let constructs = parse("alias\tls\tGet-ChildItem\nfunction\tls\t\n");

    assert_eq!(
        constructs.get("ls").map(|(construct, _)| *construct),
        Some(ShellConstruct::Alias)
    );
}

#[test]
fn junk_lines_are_skipped_rather_than_guessed_at() {
    let constructs = parse(
        "\n\
         cmdlet\tGet-Item\tsomething\n\
         alias\t\tempty name\n\
         nonsense\n\
         alias\tgood\tGet-Item\n",
    );

    assert_eq!(constructs.len(), 1);
    assert!(constructs.contains_key("good"));
}

#[test]
fn carriage_returns_and_blank_targets_are_tolerated() {
    let constructs = parse("alias\tone\t  Get-One \r\nalias\ttwo\t   \r\nalias\tthree");

    assert_eq!(
        constructs.get("one"),
        Some(&(ShellConstruct::Alias, Some("Get-One".to_owned())))
    );
    assert_eq!(constructs.get("two"), Some(&(ShellConstruct::Alias, None)));
    assert_eq!(
        constructs.get("three"),
        Some(&(ShellConstruct::Alias, None))
    );
    assert_eq!(constructs.len(), 3);
}

#[test]
fn the_first_line_for_a_name_is_the_one_that_counts() {
    let constructs = parse("alias\tcd\tSet-Location\nalias\tCD\tOther\n");

    assert_eq!(
        constructs.get("cd"),
        Some(&(ShellConstruct::Alias, Some("Set-Location".to_owned())))
    );
    assert_eq!(constructs.len(), 1);
}

#[test]
fn two_outputs_in_a_row_say_what_the_first_says_and_then_the_second() {
    let first = "alias\tLS\tGet-ChildItem\r\nfunction\tmore\t";
    let second = "function\tls\t\nfunction\thelp\tbody\nalias\tmore\tOther";
    let both = parse(&format!("{first}\n{second}"));

    for name in ["ls", "more", "help", "LS"] {
        let expected = parse(first).get(name).cloned();
        assert_eq!(
            both.get(name).cloned(),
            expected.or_else(|| parse(second).get(name).cloned())
        );
    }
    assert_eq!(both.len(), 3);
    // A function has no target, whatever follows its name.
    assert_eq!(both.get("help"), Some(&(ShellConstruct::Function, None)));
}

#[test]
fn names_beyond_ascii_are_kept_in_lower_case_too() {
    let constructs = parse("alias\tÉCOUTE\tGet-Item\nfunction\técoute\t");

    assert_eq!(constructs.len(), 1);
    assert_eq!(
        constructs.get("écoute"),
        Some(&(ShellConstruct::Alias, Some("Get-Item".to_owned())))
    );
    assert!(!constructs.contains_key(""));
}

#[test]
fn an_output_that_ends_in_a_blank_line_adds_nothing() {
    let both = parse("alias\ta\tx\n\nalias\tb\ty");

    assert_eq!(both.len(), 2);
    assert!(both.contains_key("a") && both.contains_key("b"));
}

// ---- interpreter selection ----

#[test]
fn the_interpreter_is_named_by_absolute_path_from_our_own_enumeration() {
    // Not a fresh `PATH` search: the path comes from what was already resolved,
    // so it is the copy the audit itself vouched for.
    let executables = vec![
        resolved("git", r"C:\Program Files\Git\cmd", "git.exe"),
        resolved(
            "powershell",
            r"C:\WINDOWS\System32\WindowsPowerShell\v1.0",
            "powershell.exe",
        ),
    ];

    assert_eq!(
        interpreter_path(&executables),
        Some(r"C:\WINDOWS\System32\WindowsPowerShell\v1.0\powershell.exe".to_owned())
    );
}

#[test]
fn a_trailing_separator_on_the_directory_is_not_doubled() {
    // `%SYSTEMROOT%\System32\WindowsPowerShell\v1.0\` really is stored with one.
    let executables = vec![resolved(
        "powershell",
        r"C:\WINDOWS\System32\WindowsPowerShell\v1.0\",
        "powershell.exe",
    )];

    assert_eq!(
        interpreter_path(&executables),
        Some(r"C:\WINDOWS\System32\WindowsPowerShell\v1.0\powershell.exe".to_owned())
    );
}

#[test]
fn with_no_interpreter_on_path_there_is_nothing_to_ask() {
    let executables = vec![resolved("git", r"C:\Program Files\Git\cmd", "git.exe")];

    assert_eq!(interpreter_path(&executables), None);
}

#[test]
fn an_unseen_interpreter_is_better_than_none() {
    let mut powershell = resolved("powershell", r"C:\new", "powershell.exe");
    powershell.occurrences[0].process_position = None;

    assert_eq!(
        interpreter_path(&vec![powershell]),
        Some(r"C:\new\powershell.exe".to_owned())
    );
}

#[test]
fn a_request_is_a_stem_or_an_absolute_path() {
    let executables = vec![
        resolved("powershell", r"C:\ps", "powershell.exe"),
        resolved("pwsh", r"C:\seven", "pwsh.exe"),
    ];
    let ask = |requested: &[&str]| {
        let requested: Vec<String> = requested.iter().map(|text| (*text).to_owned()).collect();
        interpreters_to_ask(&executables, &requested)
    };

    assert_eq!(ask(&[]), vec![r"C:\ps\powershell.exe"]);
    assert_eq!(
        ask(&["PWSH", "powershell"]),
        vec![r"C:\seven\pwsh.exe", r"C:\ps\powershell.exe"]
    );
    assert_eq!(ask(&[r"D:\other\pwsh.exe"]), vec![r"D:\other\pwsh.exe"]);
    // What is not there cannot be asked, and nothing is asked twice.
    assert_eq!(
        ask(&["fish", "pwsh", r"c:\SEVEN\pwsh.exe"]),
        vec![r"C:\seven\pwsh.exe"]
    );
}

#[test]
fn the_profile_stays_out_unless_asked_for() {
    assert_eq!(
        arguments(false),
        vec!["-NoProfile", "-NonInteractive", "-Command", SCRIPT]
    );
    assert_eq!(arguments(true), vec!["-NonInteractive", "-Command", SCRIPT]);
    assert_eq!(
        SCRIPT,
        "\
$ErrorActionPreference = 'SilentlyContinue'
$sep = [char]9
foreach ($a in Get-Command -CommandType Alias) {
    'alias' + $sep + $a.Name + $sep + $a.Definition
}
foreach ($f in Get-Command -CommandType Function) {
    'function' + $sep + $f.Name + $sep
}"
    );
}

// ---- the scan as a whole ----

#[test]
fn a_skipped_scan_claims_nothing() {
    let mut executables = vec![resolved("sc", r"C:\WINDOWS\system32", "sc.exe")];

    let consulted = scan(&mut executables, ShellScan::Skip, &Vec::new(), &silent);

    assert!(
        consulted.is_empty(),
        "a skipped scan must not report itself as having run"
    );
    assert!(executables[0].intercepts.is_empty());
}

#[test]
fn a_scan_with_no_interpreter_claims_nothing() {
    let mut executables = vec![resolved("sc", r"C:\WINDOWS\system32", "sc.exe")];

    let consulted = scan(
        &mut executables,
        ShellScan::Ask { profile: false },
        &Vec::new(),
        &silent,
    );

    // No `powershell` in this list, so the scan cannot run, and must say so
    // rather than leaving an absent intercept that reads as "not masked".
    assert!(consulted.is_empty());
    assert!(executables[0].intercepts.is_empty());
}

#[test]
fn the_real_shell_reports_its_own_built_in_aliases() {
    // What Windows PowerShell says: `sc` for Set-Content and `where` for
    // Where-Object are built in and present without a profile.
    let shell = |path: &str, profile: bool| {
        assert!(path.ends_with("powershell.exe"));
        assert!(!profile);
        Some("alias\tsc\tSet-Content\r\nalias\twhere\tWhere-Object\r\n".to_owned())
    };
    let interpreter = r"C:\WINDOWS\System32\WindowsPowerShell\v1.0";
    let mut executables = vec![
        resolved("powershell", interpreter, "powershell.exe"),
        resolved("sc", r"C:\WINDOWS\system32", "sc.exe"),
        resolved("pathdoc-not-a-real-name", r"C:\nowhere", "nope.exe"),
    ];

    let consulted = scan(
        &mut executables,
        ShellScan::Ask { profile: false },
        &Vec::new(),
        &shell,
    );
    assert_eq!(
        consulted.len(),
        1,
        "the scan should have run against {interpreter}"
    );

    let Some(intercept) = executables[1].intercepts.first() else {
        panic!("`sc` is a built-in alias and should have been reported")
    };
    assert_eq!(intercept.construct, ShellConstruct::Alias);
    assert_eq!(intercept.resolves_to.as_deref(), Some("Set-Content"));
    assert!(intercept.interpreter.ends_with("powershell.exe"));
    assert!(!intercept.profile_loaded);

    // A name nothing answers to stays clean, which is what makes the capability
    // flag meaningful rather than decorative.
    assert!(executables[2].intercepts.is_empty());
}

#[test]
fn a_shell_that_gives_no_answer_is_not_consulted() {
    let mute = |_: &str, _: bool| None;
    let mut executables = vec![
        resolved("powershell", r"C:\ps", "powershell.exe"),
        resolved("sc", r"C:\WINDOWS\system32", "sc.exe"),
    ];

    let consulted = scan(
        &mut executables,
        ShellScan::Ask { profile: true },
        &Vec::new(),
        &mute,
    );

    assert!(consulted.is_empty());
    assert!(executables[1].intercepts.is_empty());
}

#[test]
fn two_shells_may_disagree_about_a_name() {
    // `curl` is an alias in Windows PowerShell and the real file in PowerShell 7.
    let shells = |path: &str, _: bool| {
        if path.ends_with("powershell.exe") {
            Some("alias\tcurl\tInvoke-WebRequest\nfunction\tmore\t\n".to_owned())
        } else {
            Some("function\tmore\t\n".to_owned())
        }
    };
    let mut executables = vec![
        resolved("curl", r"C:\WINDOWS\system32", "curl.exe"),
        resolved("more", r"C:\WINDOWS\system32", "more.com"),
        resolved("powershell", r"C:\ps", "powershell.exe"),
        resolved("pwsh", r"C:\seven", "pwsh.exe"),
    ];

    let consulted = scan(
        &mut executables,
        ShellScan::Ask { profile: true },
        &vec!["powershell".to_owned(), "pwsh".to_owned()],
        &shells,
    );

    let paths: Vec<&str> = consulted.iter().map(|shell| shell.path.as_str()).collect();
    assert_eq!(paths, vec![r"C:\ps\powershell.exe", r"C:\seven\pwsh.exe"]);
    assert!(consulted.iter().all(|shell| shell.profile_loaded));

    let curl = &executables[0];
    assert_eq!(curl.intercepts.len(), 1);
    assert!(curl.intercept_by(r"c:\PS\powershell.exe").is_some());
    assert!(curl.intercept_by(r"C:\seven\pwsh.exe").is_none());

    let more = &executables[1];
    assert_eq!(more.intercepts.len(), 2);
    for shell in &consulted {
        assert_eq!(
            more.intercept_by(&shell.path)
                .map(|intercept| intercept.construct),
            Some(ShellConstruct::Function)
        );
    }
}
