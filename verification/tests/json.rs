//! The JSON form of a report. Every assertion is a promise to a consumer.

use pathdoc::envelope::json_report;
use pathdoc::json::{Json, Member};
use pathdoc::options::{Options, ScopeFilter};
use pathdoc::{
    AuditReport, Capability, Finding, Intercept, Interpreter, JsonReport, Occurrence, PathEntry,
    PathScope, Resolved, ShellConstruct, ValueKind, SCHEMA_VERSION,
};
use serde_json::Value;

fn to_value(json: &Json) -> Value {
    match json {
        Json::Null => Value::Null,
        Json::Flag(flag) => Value::from(*flag),
        Json::Number(number) => Value::from(*number),
        Json::OtherNumber(written) => parse(written),
        Json::Text(text) => Value::from(text.as_str()),
        Json::List(items) => Value::Array(items.iter().map(to_value).collect()),
        Json::Object(members) => Value::Object(
            members
                .iter()
                .map(|member| (member.name.clone(), to_value(&member.value)))
                .collect(),
        ),
    }
}

fn from_value(value: &Value) -> Json {
    match value {
        Value::Null => Json::Null,
        Value::Bool(flag) => Json::Flag(*flag),
        Value::Number(number) => match number.as_u64() {
            Some(number) => Json::Number(number),
            None => Json::OtherNumber(number.to_string()),
        },
        Value::String(text) => Json::Text(text.clone()),
        Value::Array(items) => Json::List(items.iter().map(from_value).collect()),
        Value::Object(members) => Json::Object(
            members
                .iter()
                .map(|(name, value)| Member {
                    name: name.clone(),
                    value: from_value(value),
                })
                .collect(),
        ),
    }
}

fn write(report: &AuditReport, entries: &Vec<&PathEntry>, shadows_only: bool) -> String {
    let envelope = json_report(report, entries, shadows_only);
    match serde_json::to_string_pretty(&to_value(&envelope.to_json())) {
        Ok(text) => text,
        Err(err) => panic!("rendering failed: {err}"),
    }
}

fn render(report: &AuditReport, shadows_only: bool) -> String {
    let entries: Vec<&PathEntry> = report.entries.iter().collect();
    write(report, &entries, shadows_only)
}

fn parse(text: &str) -> Value {
    match serde_json::from_str(text) {
        Ok(value) => value,
        Err(err) => panic!("output was not valid json: {err}"),
    }
}

fn words(words: &[&str]) -> Value {
    Value::from(words.to_vec())
}

fn object(members: &[(&str, Value)]) -> Value {
    Value::Object(
        members
            .iter()
            .map(|(name, value)| ((*name).to_owned(), value.clone()))
            .collect(),
    )
}

fn sample() -> AuditReport {
    AuditReport {
        entries: vec![
            PathEntry {
                index: 0,
                scope: PathScope::Machine,
                raw: r"%SystemRoot%\system32".to_owned(),
                expanded: Some(r"C:\WINDOWS\system32".to_owned()),
                value_kind: Some(ValueKind::ExpandSz),
                // Second in the live PATH, behind the injected shim.
                process_position: Some(1),
                findings: Vec::new(),
            },
            PathEntry {
                index: 1,
                scope: PathScope::User,
                raw: r"C:\Users\Someone\nope".to_owned(),
                expanded: None,
                value_kind: Some(ValueKind::Sz),
                // On PATH in the registry, but not in this process.
                process_position: None,
                findings: vec![Finding::Missing, Finding::Duplicate { first_seen_at: 0 }],
            },
            PathEntry {
                index: 2,
                scope: PathScope::ProcessOnly,
                raw: r"C:\shim".to_owned(),
                expanded: None,
                value_kind: None,
                // Injected at the front.
                process_position: Some(0),
                findings: Vec::new(),
            },
        ],
        executables: Vec::new(),
        interpreters_consulted: Vec::new(),
        capabilities: vec![Capability::Composition, Capability::EntryFindings],
    }
}

#[test]
fn the_envelope_carries_the_schema_version_and_capabilities() {
    let value = parse(&render(&sample(), false));

    assert_eq!(value["schemaVersion"], 4);
    assert_eq!(
        value["capabilities"],
        words(&["composition", "entryFindings"])
    );
}

#[test]
fn an_empty_executables_array_is_distinguishable_from_an_uncomputed_one() {
    let uncomputed = parse(&render(&sample(), false));
    assert_eq!(uncomputed["executables"], words(&[]));
    assert!(
        !uncomputed["capabilities"]
            .as_array()
            .into_iter()
            .flatten()
            .any(|capability| capability == "shadowDetection"),
        "an uncomputed run must not claim shadowDetection"
    );

    let mut computed = sample();
    computed.capabilities.push(Capability::ShadowDetection);
    let clean = parse(&render(&computed, false));
    assert_eq!(clean["executables"], words(&[]));
    assert_eq!(
        clean["capabilities"],
        words(&["composition", "entryFindings", "shadowDetection"])
    );
}

#[test]
fn entry_fields_are_camel_case() {
    let value = parse(&render(&sample(), false));
    let entry = &value["entries"][0];

    assert_eq!(entry["index"], 0);
    assert_eq!(entry["scope"], "machine");
    assert_eq!(entry["raw"], r"%SystemRoot%\system32");
    assert_eq!(entry["expanded"], r"C:\WINDOWS\system32");
    assert_eq!(entry["valueKind"], "REG_EXPAND_SZ");
    assert_eq!(entry["findings"], words(&[]));
}

#[test]
fn the_registry_value_type_is_reported_by_its_real_name() {
    let value = parse(&render(&sample(), false));

    assert_eq!(value["entries"][0]["valueKind"], "REG_EXPAND_SZ");
    assert_eq!(value["entries"][1]["valueKind"], "REG_SZ");
    // Runtime injection came from no registry value at all.
    assert!(value["entries"][2]["valueKind"].is_null());
    assert_eq!(value["entries"][2]["scope"], "processOnly");
}

#[test]
fn an_absent_expansion_is_null_rather_than_missing() {
    let value = parse(&render(&sample(), false));

    // A typed consumer gets `string | null`, not `string | undefined`.
    assert!(value["entries"][1].get("expanded").is_some());
    assert!(value["entries"][1]["expanded"].is_null());
}

#[test]
fn findings_are_a_discriminated_union() {
    let value = parse(&render(&sample(), false));
    let findings = &value["entries"][1]["findings"];

    assert_eq!(findings[0], object(&[("kind", Value::from("missing"))]));
    assert_eq!(
        findings[1],
        object(&[
            ("kind", Value::from("duplicate")),
            ("firstSeenAt", Value::from(0)),
        ])
    );
}

#[test]
fn executable_fields_are_camel_case() {
    let mut report = sample();
    report.capabilities.push(Capability::ShadowDetection);
    report.executables = vec![Resolved {
        stem: "git".to_owned(),
        intercepts: Vec::new(),
        occurrences: vec![Occurrence {
            entry_index: 0,
            scope: PathScope::Machine,
            process_position: Some(1),
            directory: r"C:\Program Files\Git\cmd".to_owned(),
            file_name: "git.exe".to_owned(),
            is_reparse_point: true,
        }],
    }];

    let value = parse(&render(&report, false));
    let occurrence = &value["executables"][0]["occurrences"][0];

    assert_eq!(value["executables"][0]["stem"], "git");
    assert_eq!(occurrence["entryIndex"], 0);
    assert_eq!(occurrence["scope"], "machine");
    assert_eq!(occurrence["processPosition"], 1);
    assert_eq!(occurrence["directory"], r"C:\Program Files\Git\cmd");
    assert_eq!(occurrence["fileName"], "git.exe");
    assert_eq!(occurrence["isReparsePoint"], true);
}

#[test]
fn an_entry_carries_its_live_position_or_null() {
    let value = parse(&render(&sample(), false));

    assert_eq!(value["entries"][0]["processPosition"], 1);
    // On PATH in the registry, absent from this process. Null, not missing, so
    // a typed consumer gets `number | null`.
    assert!(value["entries"][1].get("processPosition").is_some());
    assert!(value["entries"][1]["processPosition"].is_null());
    // Runtime injection goes to the front.
    assert_eq!(value["entries"][2]["processPosition"], 0);
}

#[test]
fn both_winners_are_derivable_from_the_json_alone() {
    // The documented rules: live winner is the first occurrence with a non-null
    // processPosition; fresh winner is the lowest entryIndex among occurrences
    // whose scope is not processOnly.
    let mut report = sample();
    report.capabilities.push(Capability::ShadowDetection);
    report.executables = vec![Resolved {
        stem: "node".to_owned(),
        intercepts: Vec::new(),
        occurrences: vec![
            Occurrence {
                entry_index: 2,
                scope: PathScope::ProcessOnly,
                process_position: Some(0),
                directory: r"C:\shim".to_owned(),
                file_name: "node.exe".to_owned(),
                is_reparse_point: false,
            },
            Occurrence {
                entry_index: 1,
                scope: PathScope::User,
                process_position: Some(5),
                directory: r"C:\registry".to_owned(),
                file_name: "node.exe".to_owned(),
                is_reparse_point: false,
            },
        ],
    }];

    let value = parse(&render(&report, false));
    let occurrences = match value["executables"][0]["occurrences"].as_array() {
        Some(occurrences) => occurrences.clone(),
        None => panic!("occurrences was not an array"),
    };

    let live = occurrences
        .iter()
        .find(|occurrence| !occurrence["processPosition"].is_null());
    assert_eq!(
        live.map(|occurrence| occurrence["directory"].clone()),
        Some(Value::from(r"C:\shim"))
    );

    let fresh = occurrences
        .iter()
        .filter(|occurrence| occurrence["scope"] != "processOnly")
        .min_by_key(|occurrence| occurrence["entryIndex"].as_u64().unwrap_or(u64::MAX));
    assert_eq!(
        fresh.map(|occurrence| occurrence["directory"].clone()),
        Some(Value::from(r"C:\registry"))
    );
}

#[test]
fn an_occurrence_stands_alone_without_the_entries_array() {
    // The reason `directory` is denormalised: under `--shadows-only` there are
    // no entries to join against at all.
    let mut report = sample();
    report.capabilities.push(Capability::ShadowDetection);
    report.executables = vec![Resolved {
        stem: "gzip".to_owned(),
        intercepts: Vec::new(),
        occurrences: vec![Occurrence {
            entry_index: 17,
            scope: PathScope::User,
            process_position: Some(17),
            directory: r"C:\Users\Someone\vendored\usr\bin".to_owned(),
            file_name: "gzip.exe".to_owned(),
            is_reparse_point: false,
        }],
    }];

    let value = parse(&render(&report, true));

    assert_eq!(value["entries"], words(&[]));
    assert_eq!(
        value["executables"][0]["occurrences"][0]["directory"],
        r"C:\Users\Someone\vendored\usr\bin"
    );
}

#[test]
fn an_intercept_is_camel_case_and_names_the_interpreter_absolutely() {
    let mut report = sample();
    report.capabilities.push(Capability::ShadowDetection);
    report.capabilities.push(Capability::ShellMasking);
    report.executables = vec![Resolved {
        stem: "sc".to_owned(),
        intercepts: vec![Intercept {
            construct: ShellConstruct::Alias,
            resolves_to: Some("Set-Content".to_owned()),
            interpreter: r"C:\WINDOWS\System32\WindowsPowerShell\v1.0\powershell.exe".to_owned(),
            profile_loaded: false,
        }],
        occurrences: vec![Occurrence {
            entry_index: 0,
            scope: PathScope::Machine,
            process_position: Some(1),
            directory: r"C:\WINDOWS\system32".to_owned(),
            file_name: "sc.exe".to_owned(),
            is_reparse_point: false,
        }],
    }];

    let value = parse(&render(&report, false));
    let intercept = &value["executables"][0]["intercepts"][0];

    assert_eq!(intercept["construct"], "alias");
    assert_eq!(intercept["resolvesTo"], "Set-Content");
    // Absolute path, not a shell name: the answer differs between interpreters,
    // so "PowerShell" would be ambiguous exactly where it matters.
    assert_eq!(
        intercept["interpreter"],
        r"C:\WINDOWS\System32\WindowsPowerShell\v1.0\powershell.exe"
    );
    assert_eq!(intercept["profileLoaded"], false);
}

#[test]
fn a_function_intercept_has_a_null_target() {
    let mut report = sample();
    report.capabilities.push(Capability::ShellMasking);
    report.executables = vec![Resolved {
        stem: "more".to_owned(),
        intercepts: vec![Intercept {
            construct: ShellConstruct::Function,
            resolves_to: None,
            interpreter: r"C:\WINDOWS\powershell.exe".to_owned(),
            profile_loaded: true,
        }],
        occurrences: Vec::new(),
    }];

    let intercept = parse(&render(&report, false))["executables"][0]["intercepts"][0].clone();

    assert_eq!(intercept["construct"], "function");
    // A function is its own definition, so `string | null` and not a fake target.
    assert!(intercept.get("resolvesTo").is_some());
    assert!(intercept["resolvesTo"].is_null());
    assert_eq!(intercept["profileLoaded"], true);
}

#[test]
fn a_null_intercept_is_distinguishable_from_an_unchecked_scan() {
    // The whole reason ShellMasking is a capability. The mistake it prevents is
    // reporting "nothing masks this" when nothing was asked.
    let unchecked = parse(&render(&sample(), false));
    assert!(
        !unchecked["capabilities"]
            .as_array()
            .into_iter()
            .flatten()
            .any(|capability| capability == "shellMasking"),
        "a run that did not scan must not claim shellMasking"
    );

    let mut scanned = sample();
    scanned.capabilities.push(Capability::ShellMasking);
    scanned.interpreters_consulted.push(Interpreter {
        path: r"C:\ps\powershell.exe".to_owned(),
        profile_loaded: false,
    });
    scanned.executables = vec![Resolved {
        stem: "gzip".to_owned(),
        intercepts: Vec::new(),
        occurrences: Vec::new(),
    }];
    let value = parse(&render(&scanned, false));

    assert!(value["capabilities"]
        .as_array()
        .into_iter()
        .flatten()
        .any(|capability| capability == "shellMasking"));
    assert_eq!(
        value["interpretersConsulted"][0],
        object(&[
            ("path", Value::from(r"C:\ps\powershell.exe")),
            ("profileLoaded", Value::from(false)),
        ])
    );
    // Now, and only now, does an empty list mean "nothing masks it".
    assert_eq!(value["executables"][0]["intercepts"], words(&[]));
}

#[test]
fn shadows_only_empties_the_entries_without_removing_the_field() {
    let value = parse(&render(&sample(), true));

    assert_eq!(value["entries"], words(&[]));
    assert_eq!(value["schemaVersion"], 4);
}

#[test]
fn the_contract_round_trips_through_rust() {
    // A Rust consumer shelling out should be able to read its own output back.
    let text = render(&sample(), false);
    let decoded: JsonReport = match JsonReport::from_json(&from_value(&parse(&text))) {
        Some(decoded) => decoded,
        None => panic!("could not read our own output"),
    };

    assert_eq!(decoded, JsonReport::from(sample()));
}

#[test]
fn indices_survive_scope_filtering() {
    let report = sample();
    // Only the user-scope entry, as `--scope user` would give.
    let options = Options {
        json: true,
        scope: ScopeFilter::User,
        shadows_only: false,
        no_color: false,
    };
    let entries = options.select(&report.entries);
    let value = parse(&write(&report, &entries, false));

    assert_eq!(value["entries"].as_array().map(Vec::len), Some(1));
    // Still index 1, not renumbered to 0.
    assert_eq!(value["entries"][0]["index"], 1);
}

#[test]
fn members_come_in_the_documented_order() {
    let envelope = JsonReport::from(sample());
    let Json::Object(members) = envelope.to_json() else {
        panic!("a report is an object")
    };
    let names: Vec<&str> = members.iter().map(|member| member.name.as_str()).collect();

    assert_eq!(
        names,
        vec![
            "schemaVersion",
            "capabilities",
            "entries",
            "executables",
            "interpretersConsulted"
        ]
    );
    assert_eq!(envelope.schema_version, SCHEMA_VERSION);
}

#[test]
fn every_finding_and_record_is_read_back() {
    let mut report = sample();
    report.entries[0].findings = vec![
        Finding::Missing,
        Finding::NotADirectory,
        Finding::Duplicate { first_seen_at: 7 },
        Finding::Empty,
        Finding::Relative,
        Finding::Unreadable,
    ];
    report.capabilities = vec![
        Capability::Composition,
        Capability::EntryFindings,
        Capability::ShadowDetection,
        Capability::ShellMasking,
    ];
    report.interpreters_consulted = vec![Interpreter {
        path: "\"quoted\"\n".to_owned(),
        profile_loaded: true,
    }];
    report.executables = vec![Resolved {
        stem: "sc".to_owned(),
        occurrences: vec![Occurrence {
            entry_index: 3,
            scope: PathScope::User,
            process_position: None,
            directory: r"C:\one".to_owned(),
            file_name: "sc.exe".to_owned(),
            is_reparse_point: true,
        }],
        intercepts: vec![
            Intercept {
                construct: ShellConstruct::Alias,
                resolves_to: Some("Set-Content".to_owned()),
                interpreter: "one".to_owned(),
                profile_loaded: true,
            },
            Intercept {
                construct: ShellConstruct::Function,
                resolves_to: None,
                interpreter: "two".to_owned(),
                profile_loaded: false,
            },
        ],
    }];
    let text = render(&report, false);

    assert!(text.contains("\"kind\": \"notADirectory\""));
    assert_eq!(
        JsonReport::from_json(&from_value(&parse(&text))),
        Some(JsonReport::from(report))
    );
}

#[test]
fn what_is_no_report_is_not_read_as_one() {
    let change = |name: &str, value: Value| {
        let mut tree = parse(&render(&sample(), false));
        tree[name] = value;
        JsonReport::from_json(&from_value(&tree))
    };

    assert!(change("schemaVersion", Value::from("4")).is_none());
    assert!(change("schemaVersion", Value::from(u64::MAX)).is_none());
    assert!(change("capabilities", words(&["telepathy"])).is_none());
    assert!(change("entries", Value::Null).is_none());
    assert!(JsonReport::from_json(&Json::List(Vec::new())).is_none());
    assert!(JsonReport::from_json(&Json::Object(Vec::new())).is_none());
    // What a report does not have is passed over.
    assert!(change("comment", Value::from("new")).is_some());
}

#[test]
fn an_absent_optional_member_reads_as_null() {
    let mut tree = parse(&render(&sample(), false));
    if let Some(entry) = tree["entries"][2].as_object_mut() {
        entry.remove("expanded");
        entry.remove("valueKind");
    }

    assert_eq!(
        JsonReport::from_json(&from_value(&tree)),
        Some(JsonReport::from(sample()))
    );
}

#[test]
fn a_repeated_member_is_refused() {
    let Json::Object(mut members) = JsonReport::from(sample()).to_json() else {
        panic!("a report is an object")
    };
    members.push(Member {
        name: "schemaVersion".to_owned(),
        value: Json::Number(4),
    });

    assert!(JsonReport::from_json(&Json::Object(members)).is_none());
}

/// A report written without member names, every record a list in the documented order.
const POSITIONAL: &str = r#"[
    4,
    ["composition", {"shellMasking": null}],
    [
        [0, {"machine": null}, "C:\\a", null, {"REG_SZ": null}, 1, [["missing"]]],
        [1, "user", "C:\\A", "C:\\a", null, null, [["duplicate", 0], {"kind": "empty"}]]
    ],
    [
        ["git", [[0, "machine", 1, "C:\\a", "git.exe", false]], [["alias", "x", "C:\\p", true]]]
    ],
    [["C:\\p", true]]
]"#;

fn read(text: &str) -> Option<JsonReport> {
    JsonReport::from_json(&from_value(&parse(text)))
}

#[test]
fn records_are_read_by_position_too() {
    let expected = JsonReport {
        schema_version: 4,
        capabilities: vec![Capability::Composition, Capability::ShellMasking],
        entries: vec![
            PathEntry {
                index: 0,
                scope: PathScope::Machine,
                raw: r"C:\a".to_owned(),
                expanded: None,
                value_kind: Some(ValueKind::Sz),
                process_position: Some(1),
                findings: vec![Finding::Missing],
            },
            PathEntry {
                index: 1,
                scope: PathScope::User,
                raw: r"C:\A".to_owned(),
                expanded: Some(r"C:\a".to_owned()),
                value_kind: None,
                process_position: None,
                findings: vec![Finding::Duplicate { first_seen_at: 0 }, Finding::Empty],
            },
        ],
        executables: vec![Resolved {
            stem: "git".to_owned(),
            occurrences: vec![Occurrence {
                entry_index: 0,
                scope: PathScope::Machine,
                process_position: Some(1),
                directory: r"C:\a".to_owned(),
                file_name: "git.exe".to_owned(),
                is_reparse_point: false,
            }],
            intercepts: vec![Intercept {
                construct: ShellConstruct::Alias,
                resolves_to: Some("x".to_owned()),
                interpreter: r"C:\p".to_owned(),
                profile_loaded: true,
            }],
        }],
        interpreters_consulted: vec![Interpreter {
            path: r"C:\p".to_owned(),
            profile_loaded: true,
        }],
    };

    assert_eq!(read(POSITIONAL), Some(expected));
}

#[test]
fn a_record_by_position_has_every_field_and_no_more() {
    let change = |from: &str, to: &str| {
        assert!(POSITIONAL.contains(from), "nothing to change: {from}");
        read(&POSITIONAL.replacen(from, to, 1))
    };

    assert_eq!(read("[4, [], [], []]"), None);
    assert_eq!(read("[4, [], [], [], [], []]"), None);
    assert!(read("[4, [], [], [], []]").is_some());
    // A field that may be null may still not be left out.
    assert_eq!(change(r#""x", "C:\\p", true"#, r#""C:\\p", true"#), None);
    assert_eq!(change(r#"["C:\\p", true]]"#, r#"["C:\\p", true, 0]]"#), None);
    assert_eq!(change(r#"["missing"]"#, r#"["missing", 0]"#), None);
    assert_eq!(change(r#"["missing"]"#, "[]"), None);
    assert_eq!(change(r#"["missing"]"#, r#""missing""#), None);
    assert_eq!(change(r#"["duplicate", 0]"#, r#"["duplicate"]"#), None);
    assert_eq!(change(r#"["duplicate", 0]"#, r#"["duplicate", 0, 0]"#), None);
}

#[test]
fn a_word_alone_in_an_object_holds_null() {
    let change = |to: &str| read(&POSITIONAL.replacen(r#"{"machine": null}"#, to, 1));

    assert!(change(r#""machine""#).is_some());
    assert_eq!(change(r#"{"machine": 0}"#), None);
    assert_eq!(change("{}"), None);
    assert_eq!(change(r#"{"machine": null, "user": null}"#), None);
    assert_eq!(change(r#"["machine"]"#), None);
}

#[test]
fn a_number_that_counts_nothing_is_refused_where_a_count_is_due() {
    let mut tree = parse(&render(&sample(), false));
    tree["comment"] = parse("-1.5");
    assert_eq!(
        JsonReport::from_json(&from_value(&tree)),
        Some(JsonReport::from(sample()))
    );

    for written in ["-1", "0.5", "4.0"] {
        tree["schemaVersion"] = parse(written);
        assert_eq!(JsonReport::from_json(&from_value(&tree)), None);
    }
}
