//! Splitting, expanding and composing `PATH` values.

use pathdoc::compose::{
    canonical_key, compose, expand, is_absolute, resolve, split_segments, unwrap_quotes,
};
use pathdoc::registry::ScopeValue;
use pathdoc::{Finding, PathScope, ValueKind};

/// Nothing here depends on the machine the tests run on. Every input is
/// supplied explicitly, including the environment lookup.
fn no_vars(_: &str) -> Option<String> {
    None
}

fn vars(name: &str) -> Option<String> {
    match name {
        "SystemRoot" => Some(r"C:\WINDOWS".to_owned()),
        "USERPROFILE" => Some(r"C:\Users\Someone".to_owned()),
        _ => None,
    }
}

fn scope(text: &str, kind: ValueKind) -> ScopeValue {
    ScopeValue {
        text: text.to_owned(),
        kind,
    }
}

#[test]
fn an_empty_value_contributes_no_entries() {
    assert!(split_segments("").is_empty());
}

#[test]
fn segments_split_on_semicolons() {
    assert_eq!(
        split_segments(r"C:\one;C:\two;C:\three"),
        vec![r"C:\one", r"C:\two", r"C:\three"]
    );
}

#[test]
fn a_trailing_separator_leaves_an_empty_segment() {
    assert_eq!(split_segments(r"C:\one;"), vec![r"C:\one", ""]);
    assert_eq!(split_segments(r";C:\one"), vec!["", r"C:\one"]);
    assert_eq!(
        split_segments(r"C:\one;;C:\two"),
        vec![r"C:\one", "", r"C:\two"]
    );
}

#[test]
fn a_quoted_segment_may_contain_a_separator() {
    assert_eq!(
        split_segments(r#"C:\one;"C:\two;still two";C:\three"#),
        vec![r"C:\one", r#""C:\two;still two""#, r"C:\three"]
    );
}

#[test]
fn quotes_and_padding_are_not_part_of_the_directory_name() {
    assert_eq!(unwrap_quotes(r#"  "C:\one"  "#), r"C:\one");
    assert_eq!(unwrap_quotes(r"  C:\one  "), r"C:\one");
    // A lone quote is not a matched pair and is left alone.
    assert_eq!(unwrap_quotes(r#""C:\one"#), r#""C:\one"#);
}

#[test]
fn expansion_substitutes_known_names() {
    assert_eq!(
        expand(r"%SystemRoot%\system32", &vars),
        r"C:\WINDOWS\system32"
    );
}

#[test]
fn expansion_leaves_unknown_names_verbatim() {
    assert_eq!(expand(r"%NOPE%\bin", &vars), r"%NOPE%\bin");
    assert_eq!(expand(r"%%", &vars), "%%");
    assert_eq!(expand(r"C:\100% effort", &no_vars), r"C:\100% effort");
    assert_eq!(expand(r"C:\plain", &no_vars), r"C:\plain");
}

#[test]
fn expansion_handles_adjacent_references() {
    assert_eq!(
        expand("%SystemRoot%%SystemRoot%", &vars),
        r"C:\WINDOWSC:\WINDOWS"
    );
}

#[test]
fn reg_sz_is_never_expanded() {
    // The whole point of recording the value kind: a literal percent sign in
    // a REG_SZ is part of the directory name.
    assert_eq!(
        resolve(r"%SystemRoot%\system32", Some(ValueKind::Sz), &vars),
        r"%SystemRoot%\system32"
    );
    assert_eq!(
        resolve(r"%SystemRoot%\system32", Some(ValueKind::ExpandSz), &vars),
        r"C:\WINDOWS\system32"
    );
}

#[test]
fn absoluteness_follows_windows_rules() {
    for absolute in [
        r"C:\one",
        "C:/one",
        r"\\server\share",
        r"\\?\C:\one",
        r"z:\one",
    ] {
        assert!(is_absolute(absolute), "{absolute} should be absolute");
    }
    for relative in ["bin", ".", "..", r"\bin", "/bin", "C:bin", "", "C:"] {
        assert!(!is_absolute(relative), "{relative} should be relative");
    }
}

#[test]
fn canonical_keys_ignore_case_and_trailing_separators() {
    assert_eq!(canonical_key(r"C:\One\"), canonical_key(r"c:\one"));
    assert_eq!(canonical_key(r"C:\One//"), canonical_key(r"C:\one"));
    // Drive root and drive-relative stay distinct.
    assert_ne!(canonical_key(r"C:\"), canonical_key("C:"));
}

#[test]
fn machine_entries_come_before_user_entries() {
    let machine = scope(r"C:\m1;C:\m2", ValueKind::Sz);
    let user = scope(r"C:\u1", ValueKind::Sz);

    let entries = compose(Some(&machine), Some(&user), None, &no_vars);

    assert_eq!(entries.len(), 3);
    assert_eq!(entries[0].raw, r"C:\m1");
    assert_eq!(entries[1].raw, r"C:\m2");
    assert_eq!(entries[2].raw, r"C:\u1");
    assert_eq!(entries[0].scope, PathScope::Machine);
    assert_eq!(entries[1].scope, PathScope::Machine);
    assert_eq!(entries[2].scope, PathScope::User);
    for (position, entry) in entries.iter().enumerate() {
        assert_eq!(entry.index, position);
    }
}

#[test]
fn a_missing_scope_is_skipped_rather_than_faked() {
    let user = scope(r"C:\u1", ValueKind::Sz);

    let entries = compose(None, Some(&user), None, &no_vars);

    assert_eq!(entries.len(), 1);
    assert_eq!(entries[0].index, 0);
    assert_eq!(entries[0].scope, PathScope::User);
}

#[test]
fn the_stored_form_is_kept_alongside_the_resolved_one() {
    let machine = scope(
        r"%SystemRoot%\system32;C:\Program Files\Git\cmd",
        ValueKind::ExpandSz,
    );

    let entries = compose(Some(&machine), None, None, &vars);

    assert_eq!(entries[0].raw, r"%SystemRoot%\system32");
    assert_eq!(entries[0].expanded.as_deref(), Some(r"C:\WINDOWS\system32"));
    assert_eq!(entries[0].value_kind, Some(ValueKind::ExpandSz));
    assert_eq!(entries[0].effective(), r"C:\WINDOWS\system32");

    // Nothing to expand, so there is no second form to report.
    assert_eq!(entries[1].expanded, None);
    assert_eq!(entries[1].effective(), r"C:\Program Files\Git\cmd");
}

#[test]
fn a_stray_separator_is_reported_as_empty() {
    let machine = scope(r"C:\one;;C:\two", ValueKind::Sz);

    let entries = compose(Some(&machine), None, None, &no_vars);

    assert_eq!(entries.len(), 3);
    assert_eq!(entries[1].findings, vec![Finding::Empty]);
    assert!(entries[0].findings.is_empty());
    assert!(entries[2].findings.is_empty());
}

#[test]
fn a_relative_entry_is_reported() {
    let machine = scope(r"C:\one;bin", ValueKind::Sz);

    let entries = compose(Some(&machine), None, None, &no_vars);

    assert_eq!(entries[1].findings, vec![Finding::Relative]);
}

#[test]
fn a_repeat_points_at_the_entry_that_wins() {
    let machine = scope(r"C:\One;C:\Program Files", ValueKind::Sz);
    let user = scope(r"C:\one\", ValueKind::Sz);

    let entries = compose(Some(&machine), Some(&user), None, &no_vars);

    assert!(entries[0].findings.is_empty());
    assert_eq!(
        entries[2].findings,
        vec![Finding::Duplicate { first_seen_at: 0 }]
    );
}

#[test]
fn expansion_can_reveal_a_duplicate() {
    // Stored differently, same directory once resolved.
    let machine = scope(r"%SystemRoot%;C:\WINDOWS", ValueKind::ExpandSz);

    let entries = compose(Some(&machine), None, None, &vars);

    assert_eq!(
        entries[1].findings,
        vec![Finding::Duplicate { first_seen_at: 0 }]
    );
}

#[test]
fn a_runtime_injected_directory_is_process_only() {
    let machine = scope(r"C:\m1", ValueKind::Sz);
    let user = scope(r"C:\u1", ValueKind::Sz);
    let process = r"C:\shim;C:\m1;C:\u1";

    let entries = compose(Some(&machine), Some(&user), Some(process), &no_vars);

    assert_eq!(entries.len(), 3);
    let injected = &entries[2];
    assert_eq!(injected.scope, PathScope::ProcessOnly);
    assert_eq!(injected.raw, r"C:\shim");
    // Nothing was read from the registry for it, so there is no value kind.
    assert_eq!(injected.value_kind, None);
    // Being injected at runtime is legitimate, not a finding.
    assert!(injected.findings.is_empty());
}

#[test]
fn a_registry_entry_is_not_repeated_as_process_only() {
    let machine = scope(r"C:\One", ValueKind::Sz);
    // Same directory, different spelling, plus a stray separator.
    let process = r"c:\one\;;C:\One";

    let entries = compose(Some(&machine), None, Some(process), &no_vars);

    assert_eq!(entries.len(), 1);
    assert_eq!(entries[0].scope, PathScope::Machine);
}

#[test]
fn process_only_entries_are_deduplicated_against_each_other() {
    let process = r"C:\shim;C:\shim\";

    let entries = compose(None, None, Some(process), &no_vars);

    assert_eq!(entries.len(), 1);
    assert_eq!(entries[0].scope, PathScope::ProcessOnly);
}

// ---- live positions ----

#[test]
fn a_live_position_counts_every_segment_of_the_process_path() {
    let machine = scope(r"C:\one;C:\two", ValueKind::Sz);
    // The empty segment and the shim take up positions too.
    let process = r"C:\shim;;c:\TWO\;C:\one;C:\two";

    let entries = compose(Some(&machine), None, Some(process), &no_vars);

    assert_eq!(entries.len(), 3);
    assert_eq!(entries[0].process_position, Some(3));
    // The first of the two spellings counts.
    assert_eq!(entries[1].process_position, Some(2));
    assert_eq!(entries[2].process_position, Some(0));
    assert_eq!(entries[2].scope, PathScope::ProcessOnly);
}

#[test]
fn an_entry_the_process_lacks_has_no_position() {
    let user = scope(r"C:\just\installed", ValueKind::Sz);

    let entries = compose(None, Some(&user), Some(r"C:\other"), &no_vars);

    assert_eq!(entries[0].process_position, None);
    assert!(!entries[0].is_live());
    assert!(entries[1].is_live());
}

#[test]
fn an_empty_entry_is_never_live() {
    let machine = scope(r"C:\one;", ValueKind::Sz);

    let entries = compose(Some(&machine), None, Some(r"C:\one;"), &no_vars);

    assert_eq!(entries.len(), 2);
    assert_eq!(entries[1].findings, vec![Finding::Empty]);
    assert_eq!(entries[1].process_position, None);
}

#[test]
fn a_duplicate_shares_the_position_of_its_directory() {
    let machine = scope(r"C:\one;C:\ONE\", ValueKind::Sz);

    let entries = compose(Some(&machine), None, Some(r"C:\zero;C:\one"), &no_vars);

    assert_eq!(entries[0].process_position, Some(1));
    assert_eq!(entries[1].process_position, Some(1));
    assert_eq!(
        entries[1].findings,
        vec![Finding::Duplicate { first_seen_at: 0 }]
    );
}

#[test]
fn a_relative_repeat_is_both() {
    let machine = scope(r"bin;BIN", ValueKind::Sz);

    let entries = compose(Some(&machine), None, None, &no_vars);

    assert_eq!(entries[0].findings, vec![Finding::Relative]);
    assert_eq!(
        entries[1].findings,
        vec![Finding::Relative, Finding::Duplicate { first_seen_at: 0 }]
    );
}

#[test]
fn a_quoted_entry_keeps_its_stored_form() {
    let machine = scope(r#"C:\one;"C:\two;still two""#, ValueKind::Sz);

    let entries = compose(Some(&machine), None, None, &no_vars);

    assert_eq!(entries.len(), 2);
    assert_eq!(entries[1].raw, r#""C:\two;still two""#);
    assert_eq!(entries[1].expanded.as_deref(), Some(r"C:\two;still two"));
}

#[test]
fn an_unclosed_quote_swallows_the_rest() {
    assert_eq!(
        split_segments(r#"C:\one;"C:\two;C:\three"#),
        vec![r"C:\one", r#""C:\two;C:\three"#]
    );
}

#[test]
fn a_half_open_reference_stays_verbatim() {
    assert_eq!(expand("%SystemRoot", &vars), "%SystemRoot");
    assert_eq!(expand("%NOPE%SystemRoot%", &vars), "%NOPE%SystemRoot%");
    assert_eq!(expand("%SystemRoot%%", &vars), r"C:\WINDOWS%");
    assert_eq!(expand("", &vars), "");
}

#[test]
fn keys_of_other_alphabets_ignore_case_too() {
    assert_eq!(
        canonical_key("C:\\\u{c4}pfel\\"),
        canonical_key("c:\\\u{e4}PFEL")
    );
    assert_eq!(canonical_key(r"C:\One\Two"), r"c:\one\two");
    assert_eq!(canonical_key(r"\"), r"\");
}

#[test]
fn joining_the_segments_gives_the_value_back() {
    for value in [r"C:\one;;C:\two;", r#""a;b";c"#, ";", "plain"] {
        assert_eq!(split_segments(value).join(";"), value);
    }
}
