//! The serialised form of a report: a versioned shape with fixed field names.
//!
//! A front end that links this library and one that reads the JSON form see the same
//! contract. Field names are in camel case. A value that may be absent is `null` rather
//! than missing, so a typed consumer gets `string | null` and not `string | undefined`. A
//! finding is a discriminated union on `kind`.

use vstd::prelude::*;

use crate::json::{
    a_list_is_read_back, a_member_is_found_by_its_name, accept, as_flag, as_number, as_tag,
    as_text, as_word, could_hold, decode_all, distinct_names, encode_all, flag_in, has_room,
    list_in, list_of, member, number, number_in, number_or_null, object, optional,
    optional_number, optional_text, require, required, sought, string, tag_in, text_in,
    text_or_null, word_in, Json, JsonModel, Member, Sought,
};
use crate::report::{
    AuditReport, Capability, EntryModel, Finding, Intercept, InterceptModel, Interpreter,
    InterpreterModel, Occurrence, OccurrenceModel, PathEntry, PathScope, ReportModel, Resolved,
    ResolvedModel, ShellConstruct, ValueKind, SCHEMA_VERSION,
};
use crate::text::same_text;

verus! {

/// The serialised form of an [`AuditReport`], carrying the schema version.
///
/// `entries` may be a filtered subset of a report; `index` remains the true composed index
/// in every case, so a filtered list still says where each entry really sits.
#[derive(Debug, PartialEq, Eq)]
pub struct JsonReport {
    /// Value of [`SCHEMA_VERSION`] at the time of writing.
    pub schema_version: u32,
    /// What the run computed.
    pub capabilities: Vec<Capability>,
    /// Composed `PATH` entries, possibly filtered.
    pub entries: Vec<PathEntry>,
    /// Every executable name found. Never filtered by scope: which copy of a name wins is
    /// decided across the whole `PATH`.
    pub executables: Vec<Resolved>,
    /// Interpreters that were asked what they mask, and answered.
    pub interpreters_consulted: Vec<Interpreter>,
}

/// The model of a [`JsonReport`].
pub ghost struct EnvelopeModel {
    pub schema_version: u32,
    pub capabilities: Seq<Capability>,
    pub entries: Seq<EntryModel>,
    pub executables: Seq<ResolvedModel>,
    pub interpreters_consulted: Seq<InterpreterModel>,
}

impl View for JsonReport {
    type V = EnvelopeModel;

    open spec fn view(&self) -> EnvelopeModel {
        EnvelopeModel {
            schema_version: self.schema_version,
            capabilities: self.capabilities.deep_view(),
            entries: self.entries.deep_view(),
            executables: self.executables.deep_view(),
            interpreters_consulted: self.interpreters_consulted.deep_view(),
        }
    }
}

impl DeepView for JsonReport {
    type V = EnvelopeModel;

    open spec fn deep_view(&self) -> EnvelopeModel {
        self@
    }
}

impl Clone for JsonReport {
    fn clone(&self) -> (copy: Self)
        ensures
            copy@ == self@,
    {
        let copy = JsonReport {
            schema_version: self.schema_version,
            capabilities: self.capabilities.clone(),
            entries: self.entries.clone(),
            executables: self.executables.clone(),
            interpreters_consulted: self.interpreters_consulted.clone(),
        };
        assert(copy@.capabilities =~= self@.capabilities);
        assert(copy@.entries =~= self@.entries);
        assert(copy@.executables =~= self@.executables);
        assert(copy@.interpreters_consulted =~= self@.interpreters_consulted);
        copy
    }
}

/// The envelope of a report narrowed to some entries, or to the executables alone.
pub open spec fn envelope_of(
    report: ReportModel,
    entries: Seq<EntryModel>,
    shadows_only: bool,
) -> EnvelopeModel {
    EnvelopeModel {
        schema_version: SCHEMA_VERSION,
        capabilities: report.capabilities,
        entries: if shadows_only {
            Seq::empty()
        } else {
            entries
        },
        executables: report.executables,
        interpreters_consulted: report.interpreters_consulted,
    }
}

/// Narrowing a report touches its entries alone. The executables, and what is needed to
/// read them, are the same however it is narrowed: which copy of a name wins is decided
/// across the whole `PATH`.
pub proof fn narrowing_touches_the_entries_alone(
    report: ReportModel,
    entries: Seq<EntryModel>,
    shadows_only: bool,
)
    ensures
        envelope_of(report, entries, shadows_only) == (EnvelopeModel {
            entries: envelope_of(report, entries, shadows_only).entries,
            ..envelope_of(report, report.entries, false)
        }),
        envelope_of(report, entries, true).entries.len() == 0,
{
}

/// Copies of some entries.
fn copy_entries(entries: &Vec<&PathEntry>) -> (copies: Vec<PathEntry>)
    ensures
        copies.deep_view() == entries.deep_view(),
{
    let ghost all = entries.deep_view();
    let mut copies: Vec<PathEntry> = Vec::new();
    let mut i: usize = 0;
    while i < entries.len()
        invariant
            all == entries.deep_view(),
            i <= entries.len(),
            copies.deep_view() =~= all.take(i as int),
        decreases entries.len() - i,
    {
        let ghost before = copies.deep_view();
        assert(all[i as int] == entries@[i as int]@);
        let copy = entries[i].clone();
        copies.push(copy);
        assert(copies.deep_view() =~= before.push(copy@));
        i += 1;
    }
    assert(all.take(i as int) =~= all);
    copies
}

/// The envelope to serialise. `entries` is already filtered by scope; under `shadows_only`
/// the entries are empty rather than absent, so the shape does not change with the flags
/// used to produce it.
pub fn json_report(report: &AuditReport, entries: &Vec<&PathEntry>, shadows_only: bool) -> (
    envelope: JsonReport)
    ensures
        envelope@ == envelope_of(report@, entries.deep_view(), shadows_only),
{
    let copy = report.clone();
    let entries_in = if shadows_only {
        let none: Vec<PathEntry> = Vec::new();
        assert(none.deep_view() =~= Seq::<EntryModel>::empty());
        none
    } else {
        copy_entries(entries)
    };
    let envelope = JsonReport {
        schema_version: SCHEMA_VERSION,
        capabilities: copy.capabilities,
        entries: entries_in,
        executables: copy.executables,
        interpreters_consulted: copy.interpreters_consulted,
    };
    assert(envelope@.capabilities =~= report@.capabilities);
    envelope
}

impl From<AuditReport> for JsonReport {
    fn from(report: AuditReport) -> (envelope: Self) {
        JsonReport {
            schema_version: SCHEMA_VERSION,
            capabilities: report.capabilities,
            entries: report.entries,
            executables: report.executables,
            interpreters_consulted: report.interpreters_consulted,
        }
    }
}

impl vstd::std_specs::convert::FromSpecImpl<AuditReport> for JsonReport {
    open spec fn obeys_from_spec() -> bool {
        true
    }

    open spec fn from_spec(report: AuditReport) -> Self {
        JsonReport {
            schema_version: SCHEMA_VERSION,
            capabilities: report.capabilities,
            entries: report.entries,
            executables: report.executables,
            interpreters_consulted: report.interpreters_consulted,
        }
    }
}

// ---- writing ----

/// The word for a scope.
pub open spec fn scope_word(scope: PathScope) -> Seq<char> {
    match scope {
        PathScope::Machine => "machine"@,
        PathScope::User => "user"@,
        PathScope::ProcessOnly => "processOnly"@,
    }
}

/// A scope in JSON.
pub open spec fn scope_json(scope: PathScope) -> JsonModel {
    JsonModel::Text(scope_word(scope))
}

/// A scope in JSON.
fn write_scope(scope: &PathScope) -> (json: Json)
    ensures
        json@ == scope_json(*scope),
{
    match scope {
        PathScope::Machine => string("machine"),
        PathScope::User => string("user"),
        PathScope::ProcessOnly => string("processOnly"),
    }
}

/// The word for a registry value type.
pub open spec fn kind_word(kind: ValueKind) -> Seq<char> {
    match kind {
        ValueKind::Sz => "REG_SZ"@,
        ValueKind::ExpandSz => "REG_EXPAND_SZ"@,
    }
}

/// A registry value type in JSON.
pub open spec fn kind_json(kind: ValueKind) -> JsonModel {
    JsonModel::Text(kind_word(kind))
}

/// A registry value type in JSON.
fn write_kind(kind: &ValueKind) -> (json: Json)
    ensures
        json@ == kind_json(*kind),
{
    match kind {
        ValueKind::Sz => string("REG_SZ"),
        ValueKind::ExpandSz => string("REG_EXPAND_SZ"),
    }
}

/// The word for a capability.
pub open spec fn capability_word(capability: Capability) -> Seq<char> {
    match capability {
        Capability::Composition => "composition"@,
        Capability::EntryFindings => "entryFindings"@,
        Capability::ShadowDetection => "shadowDetection"@,
        Capability::ShellMasking => "shellMasking"@,
    }
}

/// A capability in JSON.
pub open spec fn capability_json(capability: Capability) -> JsonModel {
    JsonModel::Text(capability_word(capability))
}

/// A capability in JSON.
fn write_capability(capability: &Capability) -> (json: Json)
    ensures
        json@ == capability_json(*capability),
{
    match capability {
        Capability::Composition => string("composition"),
        Capability::EntryFindings => string("entryFindings"),
        Capability::ShadowDetection => string("shadowDetection"),
        Capability::ShellMasking => string("shellMasking"),
    }
}

/// Some capabilities in JSON.
pub open spec fn capability_list_json(values: Seq<Capability>) -> JsonModel {
    list_of(values, |capability: Capability| capability_json(capability))
}

/// Some capabilities in JSON.
fn write_capability_list(values: &Vec<Capability>) -> (json: Json)
    ensures
        json@ == capability_list_json(values.deep_view()),
{
    encode_all(
        values,
        write_capability,
        Ghost(|capability: Capability| capability_json(capability)),
    )
}

/// The word for a shell construct.
pub open spec fn construct_word(construct: ShellConstruct) -> Seq<char> {
    match construct {
        ShellConstruct::Alias => "alias"@,
        ShellConstruct::Function => "function"@,
    }
}

/// A shell construct in JSON.
pub open spec fn construct_json(construct: ShellConstruct) -> JsonModel {
    JsonModel::Text(construct_word(construct))
}

/// A shell construct in JSON.
fn write_construct(construct: &ShellConstruct) -> (json: Json)
    ensures
        json@ == construct_json(*construct),
{
    match construct {
        ShellConstruct::Alias => string("alias"),
        ShellConstruct::Function => string("function"),
    }
}

/// A finding in JSON: an object that says which kind of finding it is and, for a
/// duplicate, which entry it repeats.
pub open spec fn finding_json(finding: Finding) -> JsonModel {
    match finding {
        Finding::Missing => JsonModel::Object(seq![("kind"@, JsonModel::Text("missing"@))]),
        Finding::NotADirectory => JsonModel::Object(
            seq![("kind"@, JsonModel::Text("notADirectory"@))],
        ),
        Finding::Duplicate { first_seen_at } => JsonModel::Object(
            seq![
                ("kind"@, JsonModel::Text("duplicate"@)),
                ("firstSeenAt"@, JsonModel::Number(first_seen_at as nat)),
            ],
        ),
        Finding::Empty => JsonModel::Object(seq![("kind"@, JsonModel::Text("empty"@))]),
        Finding::Relative => JsonModel::Object(seq![("kind"@, JsonModel::Text("relative"@))]),
        Finding::Unreadable => JsonModel::Object(seq![("kind"@, JsonModel::Text("unreadable"@))]),
    }
}

/// A finding in JSON.
fn write_finding(finding: &Finding) -> (json: Json)
    ensures
        json@ == finding_json(*finding),
{
    let mut members: Vec<Member> = Vec::new();
    match finding {
        Finding::Missing => {
            members.push(member("kind", string("missing")));
            assert(members.deep_view() =~= seq![("kind"@, JsonModel::Text("missing"@))]);
        },
        Finding::NotADirectory => {
            members.push(member("kind", string("notADirectory")));
            assert(members.deep_view() =~= seq![("kind"@, JsonModel::Text("notADirectory"@))]);
        },
        Finding::Duplicate { first_seen_at } => {
            members.push(member("kind", string("duplicate")));
            members.push(member("firstSeenAt", number(*first_seen_at)));
            assert(members.deep_view() =~= seq![
                ("kind"@, JsonModel::Text("duplicate"@)),
                ("firstSeenAt"@, JsonModel::Number(*first_seen_at as nat)),
            ]);
        },
        Finding::Empty => {
            members.push(member("kind", string("empty")));
            assert(members.deep_view() =~= seq![("kind"@, JsonModel::Text("empty"@))]);
        },
        Finding::Relative => {
            members.push(member("kind", string("relative")));
            assert(members.deep_view() =~= seq![("kind"@, JsonModel::Text("relative"@))]);
        },
        Finding::Unreadable => {
            members.push(member("kind", string("unreadable")));
            assert(members.deep_view() =~= seq![("kind"@, JsonModel::Text("unreadable"@))]);
        },
    }
    object(members)
}

/// Some findings in JSON.
pub open spec fn finding_list_json(values: Seq<Finding>) -> JsonModel {
    list_of(values, |finding: Finding| finding_json(finding))
}

/// Some findings in JSON.
fn write_finding_list(values: &Vec<Finding>) -> (json: Json)
    ensures
        json@ == finding_list_json(values.deep_view()),
{
    encode_all(values, write_finding, Ghost(|finding: Finding| finding_json(finding)))
}

/// A registry value type in JSON, or `null` for an entry that came from no registry value.
pub open spec fn kind_or_null(kind: Option<ValueKind>) -> JsonModel {
    match kind {
        Some(known) => kind_json(known),
        None => JsonModel::Null,
    }
}

/// The members of a record of a shell construct in JSON.
pub open spec fn intercept_members(intercept: InterceptModel) -> Seq<(Seq<char>, JsonModel)> {
    seq![
        ("construct"@, construct_json(intercept.construct)),
        ("resolvesTo"@, text_or_null(intercept.resolves_to)),
        ("interpreter"@, JsonModel::Text(intercept.interpreter)),
        ("profileLoaded"@, JsonModel::Flag(intercept.profile_loaded)),
    ]
}

/// A record of a shell construct in JSON.
pub open spec fn intercept_json(intercept: InterceptModel) -> JsonModel {
    JsonModel::Object(intercept_members(intercept))
}

/// A record of a shell construct in JSON.
fn write_intercept(intercept: &Intercept) -> (json: Json)
    ensures
        json@ == intercept_json(intercept@),
{
    let mut members: Vec<Member> = Vec::new();
    members.push(member("construct", write_construct(&intercept.construct)));
    members.push(member("resolvesTo", optional_text(&intercept.resolves_to)));
    members.push(member("interpreter", string(intercept.interpreter.as_str())));
    members.push(member("profileLoaded", Json::Flag(intercept.profile_loaded)));
    assert(members.deep_view() =~= intercept_members(intercept@));
    object(members)
}

/// Some records of shell constructs in JSON.
pub open spec fn intercept_list_json(values: Seq<InterceptModel>) -> JsonModel {
    list_of(values, |intercept: InterceptModel| intercept_json(intercept))
}

/// Some records of shell constructs in JSON.
fn write_intercept_list(values: &Vec<Intercept>) -> (json: Json)
    ensures
        json@ == intercept_list_json(values.deep_view()),
{
    encode_all(
        values,
        write_intercept,
        Ghost(|intercept: InterceptModel| intercept_json(intercept)),
    )
}

/// The members of a consulted interpreter in JSON.
pub open spec fn interpreter_members(interpreter: InterpreterModel) -> Seq<(Seq<char>, JsonModel)> {
    seq![
        ("path"@, JsonModel::Text(interpreter.path)),
        ("profileLoaded"@, JsonModel::Flag(interpreter.profile_loaded)),
    ]
}

/// A consulted interpreter in JSON.
pub open spec fn interpreter_json(interpreter: InterpreterModel) -> JsonModel {
    JsonModel::Object(interpreter_members(interpreter))
}

/// A consulted interpreter in JSON.
fn write_interpreter(interpreter: &Interpreter) -> (json: Json)
    ensures
        json@ == interpreter_json(interpreter@),
{
    let mut members: Vec<Member> = Vec::new();
    members.push(member("path", string(interpreter.path.as_str())));
    members.push(member("profileLoaded", Json::Flag(interpreter.profile_loaded)));
    assert(members.deep_view() =~= interpreter_members(interpreter@));
    object(members)
}

/// Some consulted interpreters in JSON.
pub open spec fn interpreter_list_json(values: Seq<InterpreterModel>) -> JsonModel {
    list_of(values, |interpreter: InterpreterModel| interpreter_json(interpreter))
}

/// Some consulted interpreters in JSON.
fn write_interpreter_list(values: &Vec<Interpreter>) -> (json: Json)
    ensures
        json@ == interpreter_list_json(values.deep_view()),
{
    encode_all(
        values,
        write_interpreter,
        Ghost(|interpreter: InterpreterModel| interpreter_json(interpreter)),
    )
}

/// The members of an entry in JSON.
pub open spec fn entry_members(entry: EntryModel) -> Seq<(Seq<char>, JsonModel)> {
    seq![
        ("index"@, JsonModel::Number(entry.index as nat)),
        ("scope"@, scope_json(entry.scope)),
        ("raw"@, JsonModel::Text(entry.raw)),
        ("expanded"@, text_or_null(entry.expanded)),
        ("valueKind"@, kind_or_null(entry.value_kind)),
        ("processPosition"@, number_or_null(entry.process_position)),
        ("findings"@, finding_list_json(entry.findings)),
    ]
}

/// An entry in JSON.
pub open spec fn entry_json(entry: EntryModel) -> JsonModel {
    JsonModel::Object(entry_members(entry))
}

/// An entry in JSON.
fn write_entry(entry: &PathEntry) -> (json: Json)
    ensures
        json@ == entry_json(entry@),
{
    let mut members: Vec<Member> = Vec::new();
    members.push(member("index", number(entry.index)));
    members.push(member("scope", write_scope(&entry.scope)));
    members.push(member("raw", string(entry.raw.as_str())));
    members.push(member("expanded", optional_text(&entry.expanded)));
    let kind = match entry.value_kind {
        Some(known) => write_kind(&known),
        None => Json::Null,
    };
    members.push(member("valueKind", kind));
    members.push(member("processPosition", optional_number(entry.process_position)));
    members.push(member("findings", write_finding_list(&entry.findings)));
    assert(entry.findings.deep_view() =~= entry@.findings);
    assert(members.deep_view() =~= entry_members(entry@));
    object(members)
}

/// Some entries in JSON.
pub open spec fn entry_list_json(values: Seq<EntryModel>) -> JsonModel {
    list_of(values, |entry: EntryModel| entry_json(entry))
}

/// Some entries in JSON.
fn write_entry_list(values: &Vec<PathEntry>) -> (json: Json)
    ensures
        json@ == entry_list_json(values.deep_view()),
{
    encode_all(values, write_entry, Ghost(|entry: EntryModel| entry_json(entry)))
}

/// The members of an occurrence in JSON.
pub open spec fn occurrence_members(occurrence: OccurrenceModel) -> Seq<(Seq<char>, JsonModel)> {
    seq![
        ("entryIndex"@, JsonModel::Number(occurrence.entry_index as nat)),
        ("scope"@, scope_json(occurrence.scope)),
        ("processPosition"@, number_or_null(occurrence.process_position)),
        ("directory"@, JsonModel::Text(occurrence.directory)),
        ("fileName"@, JsonModel::Text(occurrence.file_name)),
        ("isReparsePoint"@, JsonModel::Flag(occurrence.is_reparse_point)),
    ]
}

/// An occurrence in JSON.
pub open spec fn occurrence_json(occurrence: OccurrenceModel) -> JsonModel {
    JsonModel::Object(occurrence_members(occurrence))
}

/// An occurrence in JSON.
fn write_occurrence(occurrence: &Occurrence) -> (json: Json)
    ensures
        json@ == occurrence_json(occurrence@),
{
    let mut members: Vec<Member> = Vec::new();
    members.push(member("entryIndex", number(occurrence.entry_index)));
    members.push(member("scope", write_scope(&occurrence.scope)));
    members.push(member("processPosition", optional_number(occurrence.process_position)));
    members.push(member("directory", string(occurrence.directory.as_str())));
    members.push(member("fileName", string(occurrence.file_name.as_str())));
    members.push(member("isReparsePoint", Json::Flag(occurrence.is_reparse_point)));
    assert(members.deep_view() =~= occurrence_members(occurrence@));
    object(members)
}

/// Some occurrences in JSON.
pub open spec fn occurrence_list_json(values: Seq<OccurrenceModel>) -> JsonModel {
    list_of(values, |occurrence: OccurrenceModel| occurrence_json(occurrence))
}

/// Some occurrences in JSON.
fn write_occurrence_list(values: &Vec<Occurrence>) -> (json: Json)
    ensures
        json@ == occurrence_list_json(values.deep_view()),
{
    encode_all(
        values,
        write_occurrence,
        Ghost(|occurrence: OccurrenceModel| occurrence_json(occurrence)),
    )
}

/// The members of a name and the places it resolves from in JSON.
pub open spec fn resolved_members(resolved: ResolvedModel) -> Seq<(Seq<char>, JsonModel)> {
    seq![
        ("stem"@, JsonModel::Text(resolved.stem)),
        ("occurrences"@, occurrence_list_json(resolved.occurrences)),
        ("intercepts"@, intercept_list_json(resolved.intercepts)),
    ]
}

/// A name and the places it resolves from in JSON.
pub open spec fn resolved_json(resolved: ResolvedModel) -> JsonModel {
    JsonModel::Object(resolved_members(resolved))
}

/// A name and the places it resolves from in JSON.
fn write_resolved(resolved: &Resolved) -> (json: Json)
    ensures
        json@ == resolved_json(resolved@),
{
    let mut members: Vec<Member> = Vec::new();
    members.push(member("stem", string(resolved.stem.as_str())));
    members.push(member("occurrences", write_occurrence_list(&resolved.occurrences)));
    members.push(member("intercepts", write_intercept_list(&resolved.intercepts)));
    assert(members.deep_view() =~= resolved_members(resolved@));
    object(members)
}

/// Some names in JSON.
pub open spec fn resolved_list_json(values: Seq<ResolvedModel>) -> JsonModel {
    list_of(values, |resolved: ResolvedModel| resolved_json(resolved))
}

/// Some names in JSON.
fn write_resolved_list(values: &Vec<Resolved>) -> (json: Json)
    ensures
        json@ == resolved_list_json(values.deep_view()),
{
    encode_all(values, write_resolved, Ghost(|resolved: ResolvedModel| resolved_json(resolved)))
}

/// The members of a report in JSON.
pub open spec fn report_members(report: EnvelopeModel) -> Seq<(Seq<char>, JsonModel)> {
    seq![
        ("schemaVersion"@, JsonModel::Number(report.schema_version as nat)),
        ("capabilities"@, capability_list_json(report.capabilities)),
        ("entries"@, entry_list_json(report.entries)),
        ("executables"@, resolved_list_json(report.executables)),
        ("interpretersConsulted"@, interpreter_list_json(report.interpreters_consulted)),
    ]
}

/// A report in JSON.
pub open spec fn report_json(report: EnvelopeModel) -> JsonModel {
    JsonModel::Object(report_members(report))
}

/// A report in JSON.
fn write_report_json(report: &JsonReport) -> (json: Json)
    ensures
        json@ == report_json(report@),
{
    let mut members: Vec<Member> = Vec::new();
    members.push(member("schemaVersion", Json::Number(report.schema_version as u64)));
    members.push(member("capabilities", write_capability_list(&report.capabilities)));
    members.push(member("entries", write_entry_list(&report.entries)));
    members.push(member("executables", write_resolved_list(&report.executables)));
    members.push(
        member(
            "interpretersConsulted",
            write_interpreter_list(&report.interpreters_consulted),
        ),
    );
    assert(members.deep_view() =~= report_members(report@));
    object(members)
}

// ---- reading ----

/// The scope a JSON value stands for.
pub open spec fn scope_in(json: JsonModel) -> Option<PathScope> {
    match word_in(json) {
        Some(word) => if word == "machine"@ {
            Some(PathScope::Machine)
        } else if word == "user"@ {
            Some(PathScope::User)
        } else if word == "processOnly"@ {
            Some(PathScope::ProcessOnly)
        } else {
            None
        },
        None => None,
    }
}

/// The scope a JSON value stands for.
fn read_scope(json: &Json) -> (value: Option<PathScope>)
    ensures
        value == scope_in(json@),
{
    let word = as_word(json)?;
    if same_text(word, "machine") {
        return Some(PathScope::Machine);
    }
    if same_text(word, "user") {
        return Some(PathScope::User);
    }
    if same_text(word, "processOnly") {
        return Some(PathScope::ProcessOnly);
    }
    None
}

/// The registry value type a JSON value stands for.
pub open spec fn kind_in(json: JsonModel) -> Option<ValueKind> {
    match word_in(json) {
        Some(word) => if word == "REG_SZ"@ {
            Some(ValueKind::Sz)
        } else if word == "REG_EXPAND_SZ"@ {
            Some(ValueKind::ExpandSz)
        } else {
            None
        },
        None => None,
    }
}

/// The registry value type a JSON value stands for.
fn read_kind(json: &Json) -> (value: Option<ValueKind>)
    ensures
        value == kind_in(json@),
{
    let word = as_word(json)?;
    if same_text(word, "REG_SZ") {
        return Some(ValueKind::Sz);
    }
    if same_text(word, "REG_EXPAND_SZ") {
        return Some(ValueKind::ExpandSz);
    }
    None
}

/// The capability a JSON value stands for.
pub open spec fn capability_in(json: JsonModel) -> Option<Capability> {
    match word_in(json) {
        Some(word) => if word == "composition"@ {
            Some(Capability::Composition)
        } else if word == "entryFindings"@ {
            Some(Capability::EntryFindings)
        } else if word == "shadowDetection"@ {
            Some(Capability::ShadowDetection)
        } else if word == "shellMasking"@ {
            Some(Capability::ShellMasking)
        } else {
            None
        },
        None => None,
    }
}

/// The capability a JSON value stands for.
fn read_capability(json: &Json) -> (value: Option<Capability>)
    ensures
        value == capability_in(json@),
{
    let word = as_word(json)?;
    if same_text(word, "composition") {
        return Some(Capability::Composition);
    }
    if same_text(word, "entryFindings") {
        return Some(Capability::EntryFindings);
    }
    if same_text(word, "shadowDetection") {
        return Some(Capability::ShadowDetection);
    }
    if same_text(word, "shellMasking") {
        return Some(Capability::ShellMasking);
    }
    None
}

/// The shell construct a JSON value stands for.
pub open spec fn construct_in(json: JsonModel) -> Option<ShellConstruct> {
    match word_in(json) {
        Some(word) => if word == "alias"@ {
            Some(ShellConstruct::Alias)
        } else if word == "function"@ {
            Some(ShellConstruct::Function)
        } else {
            None
        },
        None => None,
    }
}

/// The shell construct a JSON value stands for.
fn read_construct(json: &Json) -> (value: Option<ShellConstruct>)
    ensures
        value == construct_in(json@),
{
    let word = as_word(json)?;
    if same_text(word, "alias") {
        return Some(ShellConstruct::Alias);
    }
    if same_text(word, "function") {
        return Some(ShellConstruct::Function);
    }
    None
}

/// What a field that has to be there stands for.
pub open spec fn required_as<T>(
    json: JsonModel,
    name: Seq<char>,
    position: int,
    count: nat,
    reading: spec_fn(JsonModel) -> Option<T>,
) -> Option<T> {
    match required(json, name, position, count) {
        Some(value) => reading(value),
        None => None,
    }
}

/// What a field that may be `null`, or absent from an object, stands for.
pub open spec fn optional_as<T>(
    json: JsonModel,
    name: Seq<char>,
    position: int,
    count: nat,
    reading: spec_fn(JsonModel) -> Option<T>,
) -> Option<Option<T>> {
    match optional(json, name, position, count) {
        Some(Some(value)) => match reading(value) {
            Some(known) => Some(Some(known)),
            None => None,
        },
        Some(None) => Some(None),
        None => None,
    }
}

/// The string a field stands for.
fn need_text(json: &Json, name: &str, position: usize, count: usize) -> (value: Option<String>)
    requires
        position < count,
    ensures
        value.deep_view() == required_as(
            json@,
            name@,
            position as int,
            count as nat,
            |item: JsonModel| text_in(item),
        ),
{
    match require(json, name, position, count) {
        Some(item) => match as_text(item) {
            Some(content) => Some(content.to_owned()),
            None => None,
        },
        None => None,
    }
}

/// The number a field stands for.
fn need_number(json: &Json, name: &str, position: usize, count: usize) -> (value: Option<usize>)
    requires
        position < count,
    ensures
        value == required_as(
            json@,
            name@,
            position as int,
            count as nat,
            |item: JsonModel| number_in(item),
        ),
{
    match require(json, name, position, count) {
        Some(item) => as_number(item),
        None => None,
    }
}

/// The flag a field stands for.
fn need_flag(json: &Json, name: &str, position: usize, count: usize) -> (value: Option<bool>)
    requires
        position < count,
    ensures
        value == required_as(
            json@,
            name@,
            position as int,
            count as nat,
            |item: JsonModel| flag_in(item),
        ),
{
    match require(json, name, position, count) {
        Some(item) => as_flag(item),
        None => None,
    }
}

/// The string a field stands for, if it is there.
fn maybe_text(json: &Json, name: &str, position: usize, count: usize) -> (value: Option<Option<String>>)
    requires
        position < count,
    ensures
        value.deep_view() == optional_as(
            json@,
            name@,
            position as int,
            count as nat,
            |item: JsonModel| text_in(item),
        ),
{
    match accept(json, name, position, count) {
        Some(Some(item)) => match as_text(item) {
            Some(content) => Some(Some(content.to_owned())),
            None => None,
        },
        Some(None) => Some(None),
        None => None,
    }
}

/// The number a field stands for, if it is there.
fn maybe_number(json: &Json, name: &str, position: usize, count: usize) -> (value: Option<Option<usize>>)
    requires
        position < count,
    ensures
        value == optional_as(
            json@,
            name@,
            position as int,
            count as nat,
            |item: JsonModel| number_in(item),
        ),
{
    match accept(json, name, position, count) {
        Some(Some(item)) => match as_number(item) {
            Some(known) => Some(Some(known)),
            None => None,
        },
        Some(None) => Some(None),
        None => None,
    }
}

/// The finding without further fields that a word stands for.
pub open spec fn plain_finding(word: Seq<char>) -> Option<Finding> {
    if word == "missing"@ {
        Some(Finding::Missing)
    } else if word == "notADirectory"@ {
        Some(Finding::NotADirectory)
    } else if word == "empty"@ {
        Some(Finding::Empty)
    } else if word == "relative"@ {
        Some(Finding::Relative)
    } else if word == "unreadable"@ {
        Some(Finding::Unreadable)
    } else {
        None
    }
}

/// The finding without further fields that a word stands for.
fn read_plain_finding(word: &str) -> (finding: Option<Finding>)
    ensures
        finding == plain_finding(word@),
{
    if same_text(word, "missing") {
        return Some(Finding::Missing);
    }
    if same_text(word, "notADirectory") {
        return Some(Finding::NotADirectory);
    }
    if same_text(word, "empty") {
        return Some(Finding::Empty);
    }
    if same_text(word, "relative") {
        return Some(Finding::Relative);
    }
    if same_text(word, "unreadable") {
        return Some(Finding::Unreadable);
    }
    None
}

/// The finding a JSON value stands for.
pub open spec fn finding_in(json: JsonModel) -> Option<Finding> {
    match tag_in(json, "kind"@) {
        Some(word) => if word == "duplicate"@ {
            match required_as(json, "firstSeenAt"@, 1, 2, |item: JsonModel| number_in(item)) {
                Some(first_seen_at) => Some(Finding::Duplicate { first_seen_at }),
                None => None,
            }
        } else if has_room(json, 1) {
            plain_finding(word)
        } else {
            None
        },
        None => None,
    }
}

/// The finding a JSON value stands for.
fn read_finding(json: &Json) -> (value: Option<Finding>)
    ensures
        value == finding_in(json@),
{
    let word = as_tag(json, "kind")?;
    if same_text(word, "duplicate") {
        let first_seen_at = need_number(json, "firstSeenAt", 1, 2)?;
        return Some(Finding::Duplicate { first_seen_at });
    }
    if could_hold(json, 1) {
        read_plain_finding(word)
    } else {
        None
    }
}

/// The record of a shell construct a JSON value stands for.
pub open spec fn intercept_in(json: JsonModel) -> Option<InterceptModel> {
    match (
        required_as(json, "construct"@, 0, 4, |item: JsonModel| construct_in(item)),
        optional_as(json, "resolvesTo"@, 1, 4, |item: JsonModel| text_in(item)),
        required_as(json, "interpreter"@, 2, 4, |item: JsonModel| text_in(item)),
        required_as(json, "profileLoaded"@, 3, 4, |item: JsonModel| flag_in(item)),
    ) {
        (Some(construct), Some(resolves_to), Some(interpreter), Some(profile_loaded)) => Some(
            InterceptModel { construct, resolves_to, interpreter, profile_loaded },
        ),
        _ => None,
    }
}

/// The record of a shell construct a JSON value stands for.
fn read_intercept(json: &Json) -> (value: Option<Intercept>)
    ensures
        value.deep_view() == intercept_in(json@),
{
    let construct = read_construct(require(json, "construct", 0, 4)?)?;
    let resolves_to = maybe_text(json, "resolvesTo", 1, 4)?;
    let interpreter = need_text(json, "interpreter", 2, 4)?;
    let profile_loaded = need_flag(json, "profileLoaded", 3, 4)?;
    Some(Intercept { construct, resolves_to, interpreter, profile_loaded })
}

/// The consulted interpreter a JSON value stands for.
pub open spec fn interpreter_in(json: JsonModel) -> Option<InterpreterModel> {
    match (
        required_as(json, "path"@, 0, 2, |item: JsonModel| text_in(item)),
        required_as(json, "profileLoaded"@, 1, 2, |item: JsonModel| flag_in(item)),
    ) {
        (Some(path), Some(profile_loaded)) => Some(
            InterpreterModel { path, profile_loaded },
        ),
        _ => None,
    }
}

/// The consulted interpreter a JSON value stands for.
fn read_interpreter(json: &Json) -> (value: Option<Interpreter>)
    ensures
        value.deep_view() == interpreter_in(json@),
{
    let path = need_text(json, "path", 0, 2)?;
    let profile_loaded = need_flag(json, "profileLoaded", 1, 2)?;
    Some(Interpreter { path, profile_loaded })
}

/// The findings a JSON value stands for.
pub open spec fn finding_list_in(json: JsonModel) -> Option<Seq<Finding>> {
    list_in(json, |item: JsonModel| finding_in(item))
}

/// The findings a JSON value stands for.
fn read_finding_list(json: &Json) -> (values: Option<Vec<Finding>>)
    ensures
        values.deep_view() == finding_list_in(json@),
{
    decode_all(json, read_finding, Ghost(|item: JsonModel| finding_in(item)))
}

/// The entry a JSON value stands for.
pub open spec fn entry_in(json: JsonModel) -> Option<EntryModel> {
    match (
        required_as(json, "index"@, 0, 7, |item: JsonModel| number_in(item)),
        required_as(json, "scope"@, 1, 7, |item: JsonModel| scope_in(item)),
        required_as(json, "raw"@, 2, 7, |item: JsonModel| text_in(item)),
        optional_as(json, "expanded"@, 3, 7, |item: JsonModel| text_in(item)),
        optional_as(json, "valueKind"@, 4, 7, |item: JsonModel| kind_in(item)),
        optional_as(json, "processPosition"@, 5, 7, |item: JsonModel| number_in(item)),
        required_as(json, "findings"@, 6, 7, |item: JsonModel| finding_list_in(item)),
    ) {
        (
            Some(index),
            Some(scope),
            Some(raw),
            Some(expanded),
            Some(value_kind),
            Some(process_position),
            Some(findings),
        ) => Some(
            EntryModel {
                index,
                scope,
                raw,
                expanded,
                value_kind,
                process_position,
                findings,
            },
        ),
        _ => None,
    }
}

/// The entry a JSON value stands for.
fn read_entry(json: &Json) -> (value: Option<PathEntry>)
    ensures
        value.deep_view() == entry_in(json@),
{
    let index = need_number(json, "index", 0, 7)?;
    let scope = read_scope(require(json, "scope", 1, 7)?)?;
    let raw = need_text(json, "raw", 2, 7)?;
    let expanded = maybe_text(json, "expanded", 3, 7)?;
    let value_kind = match accept(json, "valueKind", 4, 7)? {
        Some(item) => Some(read_kind(item)?),
        None => None,
    };
    let process_position = maybe_number(json, "processPosition", 5, 7)?;
    let findings = read_finding_list(require(json, "findings", 6, 7)?)?;
    assert(findings.deep_view() =~= findings@);
    Some(PathEntry { index, scope, raw, expanded, value_kind, process_position, findings })
}

/// The occurrence a JSON value stands for.
pub open spec fn occurrence_in(json: JsonModel) -> Option<OccurrenceModel> {
    match (
        required_as(json, "entryIndex"@, 0, 6, |item: JsonModel| number_in(item)),
        required_as(json, "scope"@, 1, 6, |item: JsonModel| scope_in(item)),
        optional_as(json, "processPosition"@, 2, 6, |item: JsonModel| number_in(item)),
        required_as(json, "directory"@, 3, 6, |item: JsonModel| text_in(item)),
        required_as(json, "fileName"@, 4, 6, |item: JsonModel| text_in(item)),
        required_as(json, "isReparsePoint"@, 5, 6, |item: JsonModel| flag_in(item)),
    ) {
        (
            Some(entry_index),
            Some(scope),
            Some(process_position),
            Some(directory),
            Some(file_name),
            Some(is_reparse_point),
        ) => Some(
            OccurrenceModel {
                entry_index,
                scope,
                process_position,
                directory,
                file_name,
                is_reparse_point,
            },
        ),
        _ => None,
    }
}

/// The occurrence a JSON value stands for.
fn read_occurrence(json: &Json) -> (value: Option<Occurrence>)
    ensures
        value.deep_view() == occurrence_in(json@),
{
    let entry_index = need_number(json, "entryIndex", 0, 6)?;
    let scope = read_scope(require(json, "scope", 1, 6)?)?;
    let process_position = maybe_number(json, "processPosition", 2, 6)?;
    let directory = need_text(json, "directory", 3, 6)?;
    let file_name = need_text(json, "fileName", 4, 6)?;
    let is_reparse_point = need_flag(json, "isReparsePoint", 5, 6)?;
    Some(
        Occurrence {
            entry_index,
            scope,
            process_position,
            directory,
            file_name,
            is_reparse_point,
        },
    )
}

/// The occurrences a JSON value stands for.
pub open spec fn occurrence_list_in(json: JsonModel) -> Option<Seq<OccurrenceModel>> {
    list_in(json, |item: JsonModel| occurrence_in(item))
}

/// The occurrences a JSON value stands for.
fn read_occurrence_list(json: &Json) -> (values: Option<Vec<Occurrence>>)
    ensures
        values.deep_view() == occurrence_list_in(json@),
{
    decode_all(json, read_occurrence, Ghost(|item: JsonModel| occurrence_in(item)))
}

/// The records of shell constructs a JSON value stands for.
pub open spec fn intercept_list_in(json: JsonModel) -> Option<Seq<InterceptModel>> {
    list_in(json, |item: JsonModel| intercept_in(item))
}

/// The records of shell constructs a JSON value stands for.
fn read_intercept_list(json: &Json) -> (values: Option<Vec<Intercept>>)
    ensures
        values.deep_view() == intercept_list_in(json@),
{
    decode_all(json, read_intercept, Ghost(|item: JsonModel| intercept_in(item)))
}

/// The name and the places it resolves from a JSON value stands for.
pub open spec fn resolved_in(json: JsonModel) -> Option<ResolvedModel> {
    match (
        required_as(json, "stem"@, 0, 3, |item: JsonModel| text_in(item)),
        required_as(json, "occurrences"@, 1, 3, |item: JsonModel| occurrence_list_in(item)),
        required_as(json, "intercepts"@, 2, 3, |item: JsonModel| intercept_list_in(item)),
    ) {
        (Some(stem), Some(occurrences), Some(intercepts)) => Some(
            ResolvedModel { stem, occurrences, intercepts },
        ),
        _ => None,
    }
}

/// The name and the places it resolves from a JSON value stands for.
fn read_resolved(json: &Json) -> (value: Option<Resolved>)
    ensures
        value.deep_view() == resolved_in(json@),
{
    let stem = need_text(json, "stem", 0, 3)?;
    let occurrences = read_occurrence_list(require(json, "occurrences", 1, 3)?)?;
    let intercepts = read_intercept_list(require(json, "intercepts", 2, 3)?)?;
    Some(Resolved { stem, occurrences, intercepts })
}

/// The capabilities a JSON value stands for.
pub open spec fn capability_list_in(json: JsonModel) -> Option<Seq<Capability>> {
    list_in(json, |item: JsonModel| capability_in(item))
}

/// The capabilities a JSON value stands for.
fn read_capability_list(json: &Json) -> (values: Option<Vec<Capability>>)
    ensures
        values.deep_view() == capability_list_in(json@),
{
    decode_all(json, read_capability, Ghost(|item: JsonModel| capability_in(item)))
}

/// The entries a JSON value stands for.
pub open spec fn entry_list_in(json: JsonModel) -> Option<Seq<EntryModel>> {
    list_in(json, |item: JsonModel| entry_in(item))
}

/// The entries a JSON value stands for.
fn read_entry_list(json: &Json) -> (values: Option<Vec<PathEntry>>)
    ensures
        values.deep_view() == entry_list_in(json@),
{
    decode_all(json, read_entry, Ghost(|item: JsonModel| entry_in(item)))
}

/// The names a JSON value stands for.
pub open spec fn resolved_list_in(json: JsonModel) -> Option<Seq<ResolvedModel>> {
    list_in(json, |item: JsonModel| resolved_in(item))
}

/// The names a JSON value stands for.
fn read_resolved_list(json: &Json) -> (values: Option<Vec<Resolved>>)
    ensures
        values.deep_view() == resolved_list_in(json@),
{
    decode_all(json, read_resolved, Ghost(|item: JsonModel| resolved_in(item)))
}

/// The consulted interpreters a JSON value stands for.
pub open spec fn interpreter_list_in(json: JsonModel) -> Option<Seq<InterpreterModel>> {
    list_in(json, |item: JsonModel| interpreter_in(item))
}

/// The consulted interpreters a JSON value stands for.
fn read_interpreter_list(json: &Json) -> (values: Option<Vec<Interpreter>>)
    ensures
        values.deep_view() == interpreter_list_in(json@),
{
    decode_all(json, read_interpreter, Ghost(|item: JsonModel| interpreter_in(item)))
}

/// The schema version a JSON value stands for.
pub open spec fn version_in(json: JsonModel) -> Option<u32> {
    match json {
        JsonModel::Number(value) => if value <= u32::MAX {
            Some(value as u32)
        } else {
            None
        },
        _ => None,
    }
}

/// The schema version a JSON value stands for.
fn read_version(json: &Json) -> (version: Option<u32>)
    ensures
        version == version_in(json@),
{
    match json {
        Json::Number(value) => if *value <= u32::MAX as u64 {
            Some(*value as u32)
        } else {
            None
        },
        _ => None,
    }
}

/// The report a JSON value stands for.
pub open spec fn report_in(json: JsonModel) -> Option<EnvelopeModel> {
    match (
        required_as(json, "schemaVersion"@, 0, 5, |item: JsonModel| version_in(item)),
        required_as(json, "capabilities"@, 1, 5, |item: JsonModel| capability_list_in(item)),
        required_as(json, "entries"@, 2, 5, |item: JsonModel| entry_list_in(item)),
        required_as(json, "executables"@, 3, 5, |item: JsonModel| resolved_list_in(item)),
        required_as(json, "interpretersConsulted"@, 4, 5, |item: JsonModel| interpreter_list_in(item)),
    ) {
        (
            Some(schema_version),
            Some(capabilities),
            Some(entries),
            Some(executables),
            Some(interpreters_consulted),
        ) => Some(
            EnvelopeModel {
                schema_version,
                capabilities,
                entries,
                executables,
                interpreters_consulted,
            },
        ),
        _ => None,
    }
}

/// The report a JSON value stands for.
fn read_report(json: &Json) -> (value: Option<JsonReport>)
    ensures
        value.deep_view() == report_in(json@),
{
    let schema_version = read_version(require(json, "schemaVersion", 0, 5)?)?;
    let capabilities = read_capability_list(require(json, "capabilities", 1, 5)?)?;
    let entries = read_entry_list(require(json, "entries", 2, 5)?)?;
    let executables = read_resolved_list(require(json, "executables", 3, 5)?)?;
    let interpreters_consulted = read_interpreter_list(require(json, "interpretersConsulted", 4, 5)?)?;
    Some(JsonReport { schema_version, capabilities, entries, executables, interpreters_consulted })
}

impl JsonReport {
    /// The JSON form of this report.
    pub fn to_json(&self) -> (json: Json)
        ensures
            json@ == report_json(self@),
    {
        write_report_json(self)
    }

    /// The report a JSON value stands for, if it has the shape of one. Members that no
    /// report has are passed over. A record may also be an array with one item for each of
    /// its fields, in the order they are written in, and a word may be an object with that
    /// word for its only member and `null` for the value.
    pub fn from_json(json: &Json) -> (report: Option<JsonReport>)
        ensures
            report.deep_view() == report_in(json@),
    {
        read_report(json)
    }
}

// ---- what holds of writing and reading ----

proof fn lemma_scope_read_back(scope: PathScope)
    ensures
        scope_in(scope_json(scope)) == Some(scope),
{
    reveal_strlit("machine");
    assert("machine"@.len() == 7);
    reveal_strlit("user");
    assert("user"@.len() == 4);
    reveal_strlit("processOnly");
    assert("processOnly"@.len() == 11);
}

proof fn lemma_kind_read_back(kind: ValueKind)
    ensures
        kind_in(kind_json(kind)) == Some(kind),
{
    reveal_strlit("REG_SZ");
    assert("REG_SZ"@.len() == 6);
    reveal_strlit("REG_EXPAND_SZ");
    assert("REG_EXPAND_SZ"@.len() == 13);
}

proof fn lemma_capability_read_back(capability: Capability)
    ensures
        capability_in(capability_json(capability)) == Some(capability),
{
    reveal_strlit("composition");
    assert("composition"@.len() == 11);
    reveal_strlit("entryFindings");
    assert("entryFindings"@.len() == 13);
    reveal_strlit("shadowDetection");
    assert("shadowDetection"@.len() == 15);
    reveal_strlit("shellMasking");
    assert("shellMasking"@.len() == 12);
}

proof fn lemma_construct_read_back(construct: ShellConstruct)
    ensures
        construct_in(construct_json(construct)) == Some(construct),
{
    reveal_strlit("alias");
    assert("alias"@.len() == 5);
    reveal_strlit("function");
    assert("function"@.len() == 8);
}

proof fn lemma_finding_read_back(finding: Finding)
    ensures
        finding_in(finding_json(finding)) == Some(finding),
{
    let members = finding_json(finding)->Object_0;
    reveal_strlit("kind");
    assert("kind"@.len() == 4);
    reveal_strlit("firstSeenAt");
    assert("firstSeenAt"@.len() == 11);
    reveal_strlit("missing");
    assert("missing"@.len() == 7);
    reveal_strlit("notADirectory");
    assert("notADirectory"@.len() == 13);
    reveal_strlit("duplicate");
    assert("duplicate"@.len() == 9);
    reveal_strlit("empty");
    assert("empty"@.len() == 5);
    reveal_strlit("relative");
    assert("relative"@.len() == 8);
    reveal_strlit("unreadable");
    assert("unreadable"@.len() == 10);
    assert(distinct_names(members));
    a_member_is_found_by_its_name(members, 0);
    assert(members[0].0 == "kind"@);
    if members.len() > 1 {
        a_member_is_found_by_its_name(members, 1);
        assert(members[1].0 == "firstSeenAt"@);
    }
}

proof fn lemma_intercept_read_back(intercept: InterceptModel)
    ensures
        intercept_in(intercept_json(intercept)) == Some(intercept),
{
    let members = intercept_members(intercept);
    reveal_strlit("construct");
    assert("construct"@.len() == 9);
    reveal_strlit("resolvesTo");
    assert("resolvesTo"@.len() == 10);
    reveal_strlit("interpreter");
    assert("interpreter"@.len() == 11);
    reveal_strlit("profileLoaded");
    assert("profileLoaded"@.len() == 13);
    assert(distinct_names(members));
    a_member_is_found_by_its_name(members, 0);
    assert(members[0].0 == "construct"@);
    lemma_construct_read_back(intercept.construct);
    a_member_is_found_by_its_name(members, 1);
    assert(members[1].0 == "resolvesTo"@);
    a_member_is_found_by_its_name(members, 2);
    assert(members[2].0 == "interpreter"@);
    a_member_is_found_by_its_name(members, 3);
    assert(members[3].0 == "profileLoaded"@);
}

proof fn lemma_interpreter_read_back(interpreter: InterpreterModel)
    ensures
        interpreter_in(interpreter_json(interpreter)) == Some(interpreter),
{
    let members = interpreter_members(interpreter);
    reveal_strlit("path");
    assert("path"@.len() == 4);
    reveal_strlit("profileLoaded");
    assert("profileLoaded"@.len() == 13);
    assert(distinct_names(members));
    a_member_is_found_by_its_name(members, 0);
    assert(members[0].0 == "path"@);
    a_member_is_found_by_its_name(members, 1);
    assert(members[1].0 == "profileLoaded"@);
}

proof fn lemma_entry_read_back(entry: EntryModel)
    ensures
        entry_in(entry_json(entry)) == Some(entry),
{
    let members = entry_members(entry);
    reveal_strlit("index");
    assert("index"@.len() == 5);
    reveal_strlit("scope");
    assert("scope"@.len() == 5);
    reveal_strlit("raw");
    assert("raw"@.len() == 3);
    reveal_strlit("expanded");
    assert("expanded"@.len() == 8);
    reveal_strlit("valueKind");
    assert("valueKind"@.len() == 9);
    reveal_strlit("processPosition");
    assert("processPosition"@.len() == 15);
    reveal_strlit("findings");
    assert("findings"@.len() == 8);
    assert("index"@[0] != "scope"@[0]);
    assert("expanded"@[0] != "findings"@[0]);
    assert(distinct_names(members));
    a_member_is_found_by_its_name(members, 0);
    assert(members[0].0 == "index"@);
    a_member_is_found_by_its_name(members, 1);
    assert(members[1].0 == "scope"@);
    lemma_scope_read_back(entry.scope);
    a_member_is_found_by_its_name(members, 2);
    assert(members[2].0 == "raw"@);
    a_member_is_found_by_its_name(members, 3);
    assert(members[3].0 == "expanded"@);
    a_member_is_found_by_its_name(members, 4);
    assert(members[4].0 == "valueKind"@);
    if let Some(known) = entry.value_kind {
        lemma_kind_read_back(known);
    }
    a_member_is_found_by_its_name(members, 5);
    assert(members[5].0 == "processPosition"@);
    a_member_is_found_by_its_name(members, 6);
    assert(members[6].0 == "findings"@);
    assert forall|i: int| 0 <= i < entry.findings.len() implies finding_in(
        finding_json(#[trigger] entry.findings[i]),
    ) == Some(entry.findings[i]) by {
        lemma_finding_read_back(entry.findings[i]);
    }
    a_list_is_read_back(
        entry.findings,
        |finding: Finding| finding_json(finding),
        |item: JsonModel| finding_in(item),
    );
}

proof fn lemma_occurrence_read_back(occurrence: OccurrenceModel)
    ensures
        occurrence_in(occurrence_json(occurrence)) == Some(occurrence),
{
    let members = occurrence_members(occurrence);
    reveal_strlit("entryIndex");
    assert("entryIndex"@.len() == 10);
    reveal_strlit("scope");
    assert("scope"@.len() == 5);
    reveal_strlit("processPosition");
    assert("processPosition"@.len() == 15);
    reveal_strlit("directory");
    assert("directory"@.len() == 9);
    reveal_strlit("fileName");
    assert("fileName"@.len() == 8);
    reveal_strlit("isReparsePoint");
    assert("isReparsePoint"@.len() == 14);
    assert(distinct_names(members));
    a_member_is_found_by_its_name(members, 0);
    assert(members[0].0 == "entryIndex"@);
    a_member_is_found_by_its_name(members, 1);
    assert(members[1].0 == "scope"@);
    lemma_scope_read_back(occurrence.scope);
    a_member_is_found_by_its_name(members, 2);
    assert(members[2].0 == "processPosition"@);
    a_member_is_found_by_its_name(members, 3);
    assert(members[3].0 == "directory"@);
    a_member_is_found_by_its_name(members, 4);
    assert(members[4].0 == "fileName"@);
    a_member_is_found_by_its_name(members, 5);
    assert(members[5].0 == "isReparsePoint"@);
}

proof fn lemma_resolved_read_back(resolved: ResolvedModel)
    ensures
        resolved_in(resolved_json(resolved)) == Some(resolved),
{
    let members = resolved_members(resolved);
    reveal_strlit("stem");
    assert("stem"@.len() == 4);
    reveal_strlit("occurrences");
    assert("occurrences"@.len() == 11);
    reveal_strlit("intercepts");
    assert("intercepts"@.len() == 10);
    assert(distinct_names(members));
    a_member_is_found_by_its_name(members, 0);
    assert(members[0].0 == "stem"@);
    a_member_is_found_by_its_name(members, 1);
    assert(members[1].0 == "occurrences"@);
    assert forall|i: int| 0 <= i < resolved.occurrences.len() implies occurrence_in(
        occurrence_json(#[trigger] resolved.occurrences[i]),
    ) == Some(resolved.occurrences[i]) by {
        lemma_occurrence_read_back(resolved.occurrences[i]);
    }
    a_list_is_read_back(
        resolved.occurrences,
        |occurrence: OccurrenceModel| occurrence_json(occurrence),
        |item: JsonModel| occurrence_in(item),
    );
    a_member_is_found_by_its_name(members, 2);
    assert(members[2].0 == "intercepts"@);
    assert forall|i: int| 0 <= i < resolved.intercepts.len() implies intercept_in(
        intercept_json(#[trigger] resolved.intercepts[i]),
    ) == Some(resolved.intercepts[i]) by {
        lemma_intercept_read_back(resolved.intercepts[i]);
    }
    a_list_is_read_back(
        resolved.intercepts,
        |intercept: InterceptModel| intercept_json(intercept),
        |item: JsonModel| intercept_in(item),
    );
}

/// Reading a report gives back what was written: the JSON form loses nothing.
pub proof fn reading_gives_back_what_was_written(report: EnvelopeModel)
    ensures
        report_in(report_json(report)) == Some(report),
{
    let members = report_members(report);
    reveal_strlit("schemaVersion");
    assert("schemaVersion"@.len() == 13);
    reveal_strlit("capabilities");
    assert("capabilities"@.len() == 12);
    reveal_strlit("entries");
    assert("entries"@.len() == 7);
    reveal_strlit("executables");
    assert("executables"@.len() == 11);
    reveal_strlit("interpretersConsulted");
    assert("interpretersConsulted"@.len() == 21);
    assert(distinct_names(members));
    a_member_is_found_by_its_name(members, 0);
    assert(members[0].0 == "schemaVersion"@);
    a_member_is_found_by_its_name(members, 1);
    assert(members[1].0 == "capabilities"@);
    assert forall|i: int| 0 <= i < report.capabilities.len() implies capability_in(
        capability_json(#[trigger] report.capabilities[i]),
    ) == Some(report.capabilities[i]) by {
        lemma_capability_read_back(report.capabilities[i]);
    }
    a_list_is_read_back(
        report.capabilities,
        |capability: Capability| capability_json(capability),
        |item: JsonModel| capability_in(item),
    );
    a_member_is_found_by_its_name(members, 2);
    assert(members[2].0 == "entries"@);
    assert forall|i: int| 0 <= i < report.entries.len() implies entry_in(
        entry_json(#[trigger] report.entries[i]),
    ) == Some(report.entries[i]) by {
        lemma_entry_read_back(report.entries[i]);
    }
    a_list_is_read_back(
        report.entries,
        |entry: EntryModel| entry_json(entry),
        |item: JsonModel| entry_in(item),
    );
    a_member_is_found_by_its_name(members, 3);
    assert(members[3].0 == "executables"@);
    assert forall|i: int| 0 <= i < report.executables.len() implies resolved_in(
        resolved_json(#[trigger] report.executables[i]),
    ) == Some(report.executables[i]) by {
        lemma_resolved_read_back(report.executables[i]);
    }
    a_list_is_read_back(
        report.executables,
        |resolved: ResolvedModel| resolved_json(resolved),
        |item: JsonModel| resolved_in(item),
    );
    a_member_is_found_by_its_name(members, 4);
    assert(members[4].0 == "interpretersConsulted"@);
    assert forall|i: int| 0 <= i < report.interpreters_consulted.len() implies interpreter_in(
        interpreter_json(#[trigger] report.interpreters_consulted[i]),
    ) == Some(report.interpreters_consulted[i]) by {
        lemma_interpreter_read_back(report.interpreters_consulted[i]);
    }
    a_list_is_read_back(
        report.interpreters_consulted,
        |interpreter: InterpreterModel| interpreter_json(interpreter),
        |item: JsonModel| interpreter_in(item),
    );
}

/// An envelope holds the report: its executables, its interpreters and its capabilities as
/// they are, and the entries it was narrowed to, unless the executables alone were asked for.
pub proof fn an_envelope_holds_the_report(
    report: ReportModel,
    entries: Seq<EntryModel>,
    shadows_only: bool,
)
    ensures
        envelope_of(report, entries, shadows_only).executables == report.executables,
        envelope_of(report, entries, shadows_only).interpreters_consulted
            == report.interpreters_consulted,
        envelope_of(report, entries, shadows_only).capabilities == report.capabilities,
        envelope_of(report, entries, shadows_only).schema_version == 4,
        envelope_of(report, entries, false).entries == entries,
        envelope_of(report, entries, true).entries == Seq::<EntryModel>::empty(),
{
}

// ---- what the form of a record is ----

/// A consulted interpreter is written as an object with these members and values.
pub proof fn an_interpreter_is_written_by_field(interpreter: InterpreterModel)
    ensures
        sought(interpreter_members(interpreter), "path"@) == Sought::Once(
            JsonModel::Text(interpreter.path),
        ),
        sought(interpreter_members(interpreter), "profileLoaded"@) == Sought::Once(
            JsonModel::Flag(interpreter.profile_loaded),
        ),
        interpreter_json(interpreter) == JsonModel::Object(interpreter_members(interpreter)),
        interpreter_members(interpreter).len() == 2,
{
    let members = interpreter_members(interpreter);
    reveal_strlit("path");
    assert("path"@.len() == 4);
    reveal_strlit("profileLoaded");
    assert("profileLoaded"@.len() == 13);
    assert(distinct_names(members));
    a_member_is_found_by_its_name(members, 0);
    assert(members[0].0 == "path"@);
    a_member_is_found_by_its_name(members, 1);
    assert(members[1].0 == "profileLoaded"@);
}

/// A consulted interpreter written as a list of its values, in the documented order, reads like
/// one written as an object.
pub proof fn an_interpreter_reads_alike_by_position(values: Seq<JsonModel>)
    requires
        values.len() == 2,
    ensures
        interpreter_in(JsonModel::List(values)) == interpreter_in(
            JsonModel::Object(
                seq![
                    ("path"@, values[0]),
                    ("profileLoaded"@, values[1]),
                ],
            ),
        ),
{
    let members = seq![
        ("path"@, values[0]),
        ("profileLoaded"@, values[1]),
    ];
    reveal_strlit("path");
    assert("path"@.len() == 4);
    reveal_strlit("profileLoaded");
    assert("profileLoaded"@.len() == 13);
    assert(distinct_names(members));
    a_member_is_found_by_its_name(members, 0);
    assert(members[0].0 == "path"@);
    a_member_is_found_by_its_name(members, 1);
    assert(members[1].0 == "profileLoaded"@);
}

/// What a consulted interpreter does not have is passed over when it is read.
pub proof fn an_interpreter_may_hold_more(
    members: Seq<(Seq<char>, JsonModel)>,
    name: Seq<char>,
    value: JsonModel,
)
    requires
        name != "path"@,
        name != "profileLoaded"@,
    ensures
        interpreter_in(JsonModel::Object(members.push((name, value)))) == interpreter_in(
            JsonModel::Object(members),
        ),
{
    let more = members.push((name, value));
    assert(more.drop_last() =~= members);
    assert(more.last() == (name, value));
    assert(sought(more, "path"@) == sought(members, "path"@));
    assert(sought(more, "profileLoaded"@) == sought(members, "profileLoaded"@));
}

/// A record of a shell construct is written as an object with these members and values.
pub proof fn an_intercept_is_written_by_field(intercept: InterceptModel)
    ensures
        sought(intercept_members(intercept), "construct"@) == Sought::Once(
            JsonModel::Text(
                if intercept.construct == ShellConstruct::Alias {
                    "alias"@
                } else {
                    "function"@
                },
            ),
        ),
        sought(intercept_members(intercept), "resolvesTo"@) == Sought::Once(
            match intercept.resolves_to {
                Some(target) => JsonModel::Text(target),
                None => JsonModel::Null,
            },
        ),
        sought(intercept_members(intercept), "interpreter"@) == Sought::Once(
            JsonModel::Text(intercept.interpreter),
        ),
        sought(intercept_members(intercept), "profileLoaded"@) == Sought::Once(
            JsonModel::Flag(intercept.profile_loaded),
        ),
        intercept_json(intercept) == JsonModel::Object(intercept_members(intercept)),
        intercept_members(intercept).len() == 4,
{
    let members = intercept_members(intercept);
    reveal_strlit("construct");
    assert("construct"@.len() == 9);
    reveal_strlit("resolvesTo");
    assert("resolvesTo"@.len() == 10);
    reveal_strlit("interpreter");
    assert("interpreter"@.len() == 11);
    reveal_strlit("profileLoaded");
    assert("profileLoaded"@.len() == 13);
    assert(distinct_names(members));
    a_member_is_found_by_its_name(members, 0);
    assert(members[0].0 == "construct"@);
    a_member_is_found_by_its_name(members, 1);
    assert(members[1].0 == "resolvesTo"@);
    a_member_is_found_by_its_name(members, 2);
    assert(members[2].0 == "interpreter"@);
    a_member_is_found_by_its_name(members, 3);
    assert(members[3].0 == "profileLoaded"@);
}

/// A record of a shell construct written as a list of its values, in the documented order,
/// reads like one written as an object.
pub proof fn an_intercept_reads_alike_by_position(values: Seq<JsonModel>)
    requires
        values.len() == 4,
    ensures
        intercept_in(JsonModel::List(values)) == intercept_in(
            JsonModel::Object(
                seq![
                    ("construct"@, values[0]),
                    ("resolvesTo"@, values[1]),
                    ("interpreter"@, values[2]),
                    ("profileLoaded"@, values[3]),
                ],
            ),
        ),
{
    let members = seq![
        ("construct"@, values[0]),
        ("resolvesTo"@, values[1]),
        ("interpreter"@, values[2]),
        ("profileLoaded"@, values[3]),
    ];
    reveal_strlit("construct");
    assert("construct"@.len() == 9);
    reveal_strlit("resolvesTo");
    assert("resolvesTo"@.len() == 10);
    reveal_strlit("interpreter");
    assert("interpreter"@.len() == 11);
    reveal_strlit("profileLoaded");
    assert("profileLoaded"@.len() == 13);
    assert(distinct_names(members));
    a_member_is_found_by_its_name(members, 0);
    assert(members[0].0 == "construct"@);
    a_member_is_found_by_its_name(members, 1);
    assert(members[1].0 == "resolvesTo"@);
    a_member_is_found_by_its_name(members, 2);
    assert(members[2].0 == "interpreter"@);
    a_member_is_found_by_its_name(members, 3);
    assert(members[3].0 == "profileLoaded"@);
}

/// What a record of a shell construct does not have is passed over when it is read.
pub proof fn an_intercept_may_hold_more(
    members: Seq<(Seq<char>, JsonModel)>,
    name: Seq<char>,
    value: JsonModel,
)
    requires
        name != "construct"@,
        name != "resolvesTo"@,
        name != "interpreter"@,
        name != "profileLoaded"@,
    ensures
        intercept_in(JsonModel::Object(members.push((name, value)))) == intercept_in(
            JsonModel::Object(members),
        ),
{
    let more = members.push((name, value));
    assert(more.drop_last() =~= members);
    assert(more.last() == (name, value));
    assert(sought(more, "construct"@) == sought(members, "construct"@));
    assert(sought(more, "resolvesTo"@) == sought(members, "resolvesTo"@));
    assert(sought(more, "interpreter"@) == sought(members, "interpreter"@));
    assert(sought(more, "profileLoaded"@) == sought(members, "profileLoaded"@));
}

/// An occurrence is written as an object with these members and values.
pub proof fn an_occurrence_is_written_by_field(occurrence: OccurrenceModel)
    ensures
        sought(occurrence_members(occurrence), "entryIndex"@) == Sought::Once(
            JsonModel::Number(occurrence.entry_index as nat),
        ),
        sought(occurrence_members(occurrence), "scope"@) == Sought::Once(
            JsonModel::Text(
                match occurrence.scope {
                    PathScope::Machine => "machine"@,
                    PathScope::User => "user"@,
                    PathScope::ProcessOnly => "processOnly"@,
                },
            ),
        ),
        sought(occurrence_members(occurrence), "processPosition"@) == Sought::Once(
            match occurrence.process_position {
                Some(position) => JsonModel::Number(position as nat),
                None => JsonModel::Null,
            },
        ),
        sought(occurrence_members(occurrence), "directory"@) == Sought::Once(
            JsonModel::Text(occurrence.directory),
        ),
        sought(occurrence_members(occurrence), "fileName"@) == Sought::Once(
            JsonModel::Text(occurrence.file_name),
        ),
        sought(occurrence_members(occurrence), "isReparsePoint"@) == Sought::Once(
            JsonModel::Flag(occurrence.is_reparse_point),
        ),
        occurrence_json(occurrence) == JsonModel::Object(occurrence_members(occurrence)),
        occurrence_members(occurrence).len() == 6,
{
    let members = occurrence_members(occurrence);
    reveal_strlit("entryIndex");
    assert("entryIndex"@.len() == 10);
    reveal_strlit("scope");
    assert("scope"@.len() == 5);
    reveal_strlit("processPosition");
    assert("processPosition"@.len() == 15);
    reveal_strlit("directory");
    assert("directory"@.len() == 9);
    reveal_strlit("fileName");
    assert("fileName"@.len() == 8);
    reveal_strlit("isReparsePoint");
    assert("isReparsePoint"@.len() == 14);
    assert(distinct_names(members));
    a_member_is_found_by_its_name(members, 0);
    assert(members[0].0 == "entryIndex"@);
    a_member_is_found_by_its_name(members, 1);
    assert(members[1].0 == "scope"@);
    a_member_is_found_by_its_name(members, 2);
    assert(members[2].0 == "processPosition"@);
    a_member_is_found_by_its_name(members, 3);
    assert(members[3].0 == "directory"@);
    a_member_is_found_by_its_name(members, 4);
    assert(members[4].0 == "fileName"@);
    a_member_is_found_by_its_name(members, 5);
    assert(members[5].0 == "isReparsePoint"@);
}

/// An occurrence written as a list of its values, in the documented order, reads like
/// one written as an object.
pub proof fn an_occurrence_reads_alike_by_position(values: Seq<JsonModel>)
    requires
        values.len() == 6,
    ensures
        occurrence_in(JsonModel::List(values)) == occurrence_in(
            JsonModel::Object(
                seq![
                    ("entryIndex"@, values[0]),
                    ("scope"@, values[1]),
                    ("processPosition"@, values[2]),
                    ("directory"@, values[3]),
                    ("fileName"@, values[4]),
                    ("isReparsePoint"@, values[5]),
                ],
            ),
        ),
{
    let members = seq![
        ("entryIndex"@, values[0]),
        ("scope"@, values[1]),
        ("processPosition"@, values[2]),
        ("directory"@, values[3]),
        ("fileName"@, values[4]),
        ("isReparsePoint"@, values[5]),
    ];
    reveal_strlit("entryIndex");
    assert("entryIndex"@.len() == 10);
    reveal_strlit("scope");
    assert("scope"@.len() == 5);
    reveal_strlit("processPosition");
    assert("processPosition"@.len() == 15);
    reveal_strlit("directory");
    assert("directory"@.len() == 9);
    reveal_strlit("fileName");
    assert("fileName"@.len() == 8);
    reveal_strlit("isReparsePoint");
    assert("isReparsePoint"@.len() == 14);
    assert(distinct_names(members));
    a_member_is_found_by_its_name(members, 0);
    assert(members[0].0 == "entryIndex"@);
    a_member_is_found_by_its_name(members, 1);
    assert(members[1].0 == "scope"@);
    a_member_is_found_by_its_name(members, 2);
    assert(members[2].0 == "processPosition"@);
    a_member_is_found_by_its_name(members, 3);
    assert(members[3].0 == "directory"@);
    a_member_is_found_by_its_name(members, 4);
    assert(members[4].0 == "fileName"@);
    a_member_is_found_by_its_name(members, 5);
    assert(members[5].0 == "isReparsePoint"@);
}

/// What an occurrence does not have is passed over when it is read.
pub proof fn an_occurrence_may_hold_more(
    members: Seq<(Seq<char>, JsonModel)>,
    name: Seq<char>,
    value: JsonModel,
)
    requires
        name != "entryIndex"@,
        name != "scope"@,
        name != "processPosition"@,
        name != "directory"@,
        name != "fileName"@,
        name != "isReparsePoint"@,
    ensures
        occurrence_in(JsonModel::Object(members.push((name, value)))) == occurrence_in(
            JsonModel::Object(members),
        ),
{
    let more = members.push((name, value));
    assert(more.drop_last() =~= members);
    assert(more.last() == (name, value));
    assert(sought(more, "entryIndex"@) == sought(members, "entryIndex"@));
    assert(sought(more, "scope"@) == sought(members, "scope"@));
    assert(sought(more, "processPosition"@) == sought(members, "processPosition"@));
    assert(sought(more, "directory"@) == sought(members, "directory"@));
    assert(sought(more, "fileName"@) == sought(members, "fileName"@));
    assert(sought(more, "isReparsePoint"@) == sought(members, "isReparsePoint"@));
}

/// An entry is written as an object with these members and values.
pub proof fn an_entry_is_written_by_field(entry: EntryModel)
    ensures
        sought(entry_members(entry), "index"@) == Sought::Once(
            JsonModel::Number(entry.index as nat),
        ),
        sought(entry_members(entry), "scope"@) == Sought::Once(
            JsonModel::Text(
                match entry.scope {
                    PathScope::Machine => "machine"@,
                    PathScope::User => "user"@,
                    PathScope::ProcessOnly => "processOnly"@,
                },
            ),
        ),
        sought(entry_members(entry), "raw"@) == Sought::Once(JsonModel::Text(entry.raw)),
        sought(entry_members(entry), "expanded"@) == Sought::Once(
            match entry.expanded {
                Some(expanded) => JsonModel::Text(expanded),
                None => JsonModel::Null,
            },
        ),
        sought(entry_members(entry), "valueKind"@) == Sought::Once(
            match entry.value_kind {
                Some(ValueKind::Sz) => JsonModel::Text("REG_SZ"@),
                Some(ValueKind::ExpandSz) => JsonModel::Text("REG_EXPAND_SZ"@),
                None => JsonModel::Null,
            },
        ),
        sought(entry_members(entry), "processPosition"@) == Sought::Once(
            match entry.process_position {
                Some(position) => JsonModel::Number(position as nat),
                None => JsonModel::Null,
            },
        ),
        match sought(entry_members(entry), "findings"@) {
            Sought::Once(JsonModel::List(items)) => {
                &&& items.len() == entry.findings.len()
                &&& forall|i: int|
                    0 <= i < items.len() ==> #[trigger] items[i] == finding_json(entry.findings[i])
            },
            _ => false,
        },
        entry_json(entry) == JsonModel::Object(entry_members(entry)),
        entry_members(entry).len() == 7,
{
    let members = entry_members(entry);
    reveal_strlit("index");
    assert("index"@.len() == 5);
    reveal_strlit("scope");
    assert("scope"@.len() == 5);
    reveal_strlit("raw");
    assert("raw"@.len() == 3);
    reveal_strlit("expanded");
    assert("expanded"@.len() == 8);
    reveal_strlit("valueKind");
    assert("valueKind"@.len() == 9);
    reveal_strlit("processPosition");
    assert("processPosition"@.len() == 15);
    reveal_strlit("findings");
    assert("findings"@.len() == 8);
    assert("index"@[0] != "scope"@[0]);
    assert("expanded"@[0] != "findings"@[0]);
    assert(distinct_names(members));
    a_member_is_found_by_its_name(members, 0);
    assert(members[0].0 == "index"@);
    a_member_is_found_by_its_name(members, 1);
    assert(members[1].0 == "scope"@);
    a_member_is_found_by_its_name(members, 2);
    assert(members[2].0 == "raw"@);
    a_member_is_found_by_its_name(members, 3);
    assert(members[3].0 == "expanded"@);
    a_member_is_found_by_its_name(members, 4);
    assert(members[4].0 == "valueKind"@);
    a_member_is_found_by_its_name(members, 5);
    assert(members[5].0 == "processPosition"@);
    a_member_is_found_by_its_name(members, 6);
    assert(members[6].0 == "findings"@);
}

/// An entry written as a list of its values, in the documented order, reads like
/// one written as an object.
pub proof fn an_entry_reads_alike_by_position(values: Seq<JsonModel>)
    requires
        values.len() == 7,
    ensures
        entry_in(JsonModel::List(values)) == entry_in(
            JsonModel::Object(
                seq![
                    ("index"@, values[0]),
                    ("scope"@, values[1]),
                    ("raw"@, values[2]),
                    ("expanded"@, values[3]),
                    ("valueKind"@, values[4]),
                    ("processPosition"@, values[5]),
                    ("findings"@, values[6]),
                ],
            ),
        ),
{
    let members = seq![
        ("index"@, values[0]),
        ("scope"@, values[1]),
        ("raw"@, values[2]),
        ("expanded"@, values[3]),
        ("valueKind"@, values[4]),
        ("processPosition"@, values[5]),
        ("findings"@, values[6]),
    ];
    reveal_strlit("index");
    assert("index"@.len() == 5);
    reveal_strlit("scope");
    assert("scope"@.len() == 5);
    reveal_strlit("raw");
    assert("raw"@.len() == 3);
    reveal_strlit("expanded");
    assert("expanded"@.len() == 8);
    reveal_strlit("valueKind");
    assert("valueKind"@.len() == 9);
    reveal_strlit("processPosition");
    assert("processPosition"@.len() == 15);
    reveal_strlit("findings");
    assert("findings"@.len() == 8);
    assert("index"@[0] != "scope"@[0]);
    assert("expanded"@[0] != "findings"@[0]);
    assert(distinct_names(members));
    a_member_is_found_by_its_name(members, 0);
    assert(members[0].0 == "index"@);
    a_member_is_found_by_its_name(members, 1);
    assert(members[1].0 == "scope"@);
    a_member_is_found_by_its_name(members, 2);
    assert(members[2].0 == "raw"@);
    a_member_is_found_by_its_name(members, 3);
    assert(members[3].0 == "expanded"@);
    a_member_is_found_by_its_name(members, 4);
    assert(members[4].0 == "valueKind"@);
    a_member_is_found_by_its_name(members, 5);
    assert(members[5].0 == "processPosition"@);
    a_member_is_found_by_its_name(members, 6);
    assert(members[6].0 == "findings"@);
}

/// What an entry does not have is passed over when it is read.
pub proof fn an_entry_may_hold_more(
    members: Seq<(Seq<char>, JsonModel)>,
    name: Seq<char>,
    value: JsonModel,
)
    requires
        name != "index"@,
        name != "scope"@,
        name != "raw"@,
        name != "expanded"@,
        name != "valueKind"@,
        name != "processPosition"@,
        name != "findings"@,
    ensures
        entry_in(JsonModel::Object(members.push((name, value)))) == entry_in(
            JsonModel::Object(members),
        ),
{
    let more = members.push((name, value));
    assert(more.drop_last() =~= members);
    assert(more.last() == (name, value));
    assert(sought(more, "index"@) == sought(members, "index"@));
    assert(sought(more, "scope"@) == sought(members, "scope"@));
    assert(sought(more, "raw"@) == sought(members, "raw"@));
    assert(sought(more, "expanded"@) == sought(members, "expanded"@));
    assert(sought(more, "valueKind"@) == sought(members, "valueKind"@));
    assert(sought(more, "processPosition"@) == sought(members, "processPosition"@));
    assert(sought(more, "findings"@) == sought(members, "findings"@));
}

/// A name is written as an object with these members and values.
pub proof fn a_name_is_written_by_field(resolved: ResolvedModel)
    ensures
        sought(resolved_members(resolved), "stem"@) == Sought::Once(JsonModel::Text(resolved.stem)),
        match sought(resolved_members(resolved), "occurrences"@) {
            Sought::Once(JsonModel::List(items)) => {
                &&& items.len() == resolved.occurrences.len()
                &&& forall|i: int|
                    0 <= i < items.len() ==> #[trigger] items[i]
                        == occurrence_json(resolved.occurrences[i])
            },
            _ => false,
        },
        match sought(resolved_members(resolved), "intercepts"@) {
            Sought::Once(JsonModel::List(items)) => {
                &&& items.len() == resolved.intercepts.len()
                &&& forall|i: int|
                    0 <= i < items.len() ==> #[trigger] items[i]
                        == intercept_json(resolved.intercepts[i])
            },
            _ => false,
        },
        resolved_json(resolved) == JsonModel::Object(resolved_members(resolved)),
        resolved_members(resolved).len() == 3,
{
    let members = resolved_members(resolved);
    reveal_strlit("stem");
    assert("stem"@.len() == 4);
    reveal_strlit("occurrences");
    assert("occurrences"@.len() == 11);
    reveal_strlit("intercepts");
    assert("intercepts"@.len() == 10);
    assert(distinct_names(members));
    a_member_is_found_by_its_name(members, 0);
    assert(members[0].0 == "stem"@);
    a_member_is_found_by_its_name(members, 1);
    assert(members[1].0 == "occurrences"@);
    a_member_is_found_by_its_name(members, 2);
    assert(members[2].0 == "intercepts"@);
}

/// A name written as a list of its values, in the documented order, reads like
/// one written as an object.
pub proof fn a_name_reads_alike_by_position(values: Seq<JsonModel>)
    requires
        values.len() == 3,
    ensures
        resolved_in(JsonModel::List(values)) == resolved_in(
            JsonModel::Object(
                seq![
                    ("stem"@, values[0]),
                    ("occurrences"@, values[1]),
                    ("intercepts"@, values[2]),
                ],
            ),
        ),
{
    let members = seq![
        ("stem"@, values[0]),
        ("occurrences"@, values[1]),
        ("intercepts"@, values[2]),
    ];
    reveal_strlit("stem");
    assert("stem"@.len() == 4);
    reveal_strlit("occurrences");
    assert("occurrences"@.len() == 11);
    reveal_strlit("intercepts");
    assert("intercepts"@.len() == 10);
    assert(distinct_names(members));
    a_member_is_found_by_its_name(members, 0);
    assert(members[0].0 == "stem"@);
    a_member_is_found_by_its_name(members, 1);
    assert(members[1].0 == "occurrences"@);
    a_member_is_found_by_its_name(members, 2);
    assert(members[2].0 == "intercepts"@);
}

/// What a name does not have is passed over when it is read.
pub proof fn a_name_may_hold_more(
    members: Seq<(Seq<char>, JsonModel)>,
    name: Seq<char>,
    value: JsonModel,
)
    requires
        name != "stem"@,
        name != "occurrences"@,
        name != "intercepts"@,
    ensures
        resolved_in(JsonModel::Object(members.push((name, value)))) == resolved_in(
            JsonModel::Object(members),
        ),
{
    let more = members.push((name, value));
    assert(more.drop_last() =~= members);
    assert(more.last() == (name, value));
    assert(sought(more, "stem"@) == sought(members, "stem"@));
    assert(sought(more, "occurrences"@) == sought(members, "occurrences"@));
    assert(sought(more, "intercepts"@) == sought(members, "intercepts"@));
}

/// A report is written as an object with these members and values.
pub proof fn a_report_is_written_by_field(report: EnvelopeModel)
    ensures
        sought(report_members(report), "schemaVersion"@) == Sought::Once(
            JsonModel::Number(report.schema_version as nat),
        ),
        match sought(report_members(report), "capabilities"@) {
            Sought::Once(JsonModel::List(items)) => {
                &&& items.len() == report.capabilities.len()
                &&& forall|i: int|
                    0 <= i < items.len() ==> #[trigger] items[i]
                        == capability_json(report.capabilities[i])
            },
            _ => false,
        },
        match sought(report_members(report), "entries"@) {
            Sought::Once(JsonModel::List(items)) => {
                &&& items.len() == report.entries.len()
                &&& forall|i: int|
                    0 <= i < items.len() ==> #[trigger] items[i] == entry_json(report.entries[i])
            },
            _ => false,
        },
        match sought(report_members(report), "executables"@) {
            Sought::Once(JsonModel::List(items)) => {
                &&& items.len() == report.executables.len()
                &&& forall|i: int|
                    0 <= i < items.len() ==> #[trigger] items[i]
                        == resolved_json(report.executables[i])
            },
            _ => false,
        },
        match sought(report_members(report), "interpretersConsulted"@) {
            Sought::Once(JsonModel::List(items)) => {
                &&& items.len() == report.interpreters_consulted.len()
                &&& forall|i: int|
                    0 <= i < items.len() ==> #[trigger] items[i]
                        == interpreter_json(report.interpreters_consulted[i])
            },
            _ => false,
        },
        report_json(report) == JsonModel::Object(report_members(report)),
        report_members(report).len() == 5,
{
    let members = report_members(report);
    reveal_strlit("schemaVersion");
    assert("schemaVersion"@.len() == 13);
    reveal_strlit("capabilities");
    assert("capabilities"@.len() == 12);
    reveal_strlit("entries");
    assert("entries"@.len() == 7);
    reveal_strlit("executables");
    assert("executables"@.len() == 11);
    reveal_strlit("interpretersConsulted");
    assert("interpretersConsulted"@.len() == 21);
    assert(distinct_names(members));
    a_member_is_found_by_its_name(members, 0);
    assert(members[0].0 == "schemaVersion"@);
    a_member_is_found_by_its_name(members, 1);
    assert(members[1].0 == "capabilities"@);
    a_member_is_found_by_its_name(members, 2);
    assert(members[2].0 == "entries"@);
    a_member_is_found_by_its_name(members, 3);
    assert(members[3].0 == "executables"@);
    a_member_is_found_by_its_name(members, 4);
    assert(members[4].0 == "interpretersConsulted"@);
}

/// A report written as a list of its values, in the documented order, reads like
/// one written as an object.
pub proof fn a_report_reads_alike_by_position(values: Seq<JsonModel>)
    requires
        values.len() == 5,
    ensures
        report_in(JsonModel::List(values)) == report_in(
            JsonModel::Object(
                seq![
                    ("schemaVersion"@, values[0]),
                    ("capabilities"@, values[1]),
                    ("entries"@, values[2]),
                    ("executables"@, values[3]),
                    ("interpretersConsulted"@, values[4]),
                ],
            ),
        ),
{
    let members = seq![
        ("schemaVersion"@, values[0]),
        ("capabilities"@, values[1]),
        ("entries"@, values[2]),
        ("executables"@, values[3]),
        ("interpretersConsulted"@, values[4]),
    ];
    reveal_strlit("schemaVersion");
    assert("schemaVersion"@.len() == 13);
    reveal_strlit("capabilities");
    assert("capabilities"@.len() == 12);
    reveal_strlit("entries");
    assert("entries"@.len() == 7);
    reveal_strlit("executables");
    assert("executables"@.len() == 11);
    reveal_strlit("interpretersConsulted");
    assert("interpretersConsulted"@.len() == 21);
    assert(distinct_names(members));
    a_member_is_found_by_its_name(members, 0);
    assert(members[0].0 == "schemaVersion"@);
    a_member_is_found_by_its_name(members, 1);
    assert(members[1].0 == "capabilities"@);
    a_member_is_found_by_its_name(members, 2);
    assert(members[2].0 == "entries"@);
    a_member_is_found_by_its_name(members, 3);
    assert(members[3].0 == "executables"@);
    a_member_is_found_by_its_name(members, 4);
    assert(members[4].0 == "interpretersConsulted"@);
}

/// What a report does not have is passed over when it is read.
pub proof fn a_report_may_hold_more(
    members: Seq<(Seq<char>, JsonModel)>,
    name: Seq<char>,
    value: JsonModel,
)
    requires
        name != "schemaVersion"@,
        name != "capabilities"@,
        name != "entries"@,
        name != "executables"@,
        name != "interpretersConsulted"@,
    ensures
        report_in(JsonModel::Object(members.push((name, value)))) == report_in(
            JsonModel::Object(members),
        ),
{
    let more = members.push((name, value));
    assert(more.drop_last() =~= members);
    assert(more.last() == (name, value));
    assert(sought(more, "schemaVersion"@) == sought(members, "schemaVersion"@));
    assert(sought(more, "capabilities"@) == sought(members, "capabilities"@));
    assert(sought(more, "entries"@) == sought(members, "entries"@));
    assert(sought(more, "executables"@) == sought(members, "executables"@));
    assert(sought(more, "interpretersConsulted"@) == sought(members, "interpretersConsulted"@));
}

/// No other word stands for a scope, a value type, a capability, a construct or a finding.
pub proof fn other_words_stand_for_nothing(word: Seq<char>)
    ensures
        scope_in(JsonModel::Text(word)) is Some <==> word == "machine"@ || word == "user"@ || word
            == "processOnly"@,
        kind_in(JsonModel::Text(word)) is Some <==> word == "REG_SZ"@ || word == "REG_EXPAND_SZ"@,
        capability_in(JsonModel::Text(word)) is Some <==> word == "composition"@ || word
            == "entryFindings"@ || word == "shadowDetection"@ || word == "shellMasking"@,
        construct_in(JsonModel::Text(word)) is Some <==> word == "alias"@ || word == "function"@,
        plain_finding(word) is Some <==> word == "missing"@ || word == "notADirectory"@ || word
            == "empty"@ || word == "relative"@ || word == "unreadable"@,
{
}

/// A field that may be null may also be left out of an object.
pub proof fn what_may_be_null_may_be_left_out(
    members: Seq<(Seq<char>, JsonModel)>,
    name: Seq<char>,
)
    requires
        sought(members, name) == Sought::Absent,
    ensures
        name == "expanded"@ || name == "valueKind"@ || name == "processPosition"@ ==> entry_in(
            JsonModel::Object(members),
        ) == entry_in(JsonModel::Object(members.push((name, JsonModel::Null)))),
        name == "processPosition"@ ==> occurrence_in(JsonModel::Object(members)) == occurrence_in(
            JsonModel::Object(members.push((name, JsonModel::Null))),
        ),
        name == "resolvesTo"@ ==> intercept_in(JsonModel::Object(members)) == intercept_in(
            JsonModel::Object(members.push((name, JsonModel::Null))),
        ),
{
    let more = members.push((name, JsonModel::Null));
    assert(more.drop_last() =~= members);
    assert(more.last() == (name, JsonModel::Null));
    assert(sought(more, name) == Sought::Once(JsonModel::Null));
    assert forall|other: Seq<char>| other != name implies #[trigger] sought(more, other) == sought(
        members,
        other,
    ) by {}
}

/// Whatever else has to be there: without it there is no report, entry, occurrence, name,
/// record or interpreter.
pub proof fn what_is_required_may_not_be_left_out(
    members: Seq<(Seq<char>, JsonModel)>,
    name: Seq<char>,
)
    requires
        sought(members, name) == Sought::Absent,
    ensures
        name == "schemaVersion"@ || name == "capabilities"@ || name == "entries"@ || name
            == "executables"@ || name == "interpretersConsulted"@ ==> report_in(
            JsonModel::Object(members),
        ) is None,
        name == "index"@ || name == "scope"@ || name == "raw"@ || name == "findings"@ ==> entry_in(
            JsonModel::Object(members),
        ) is None,
        name == "entryIndex"@ || name == "scope"@ || name == "directory"@ || name == "fileName"@
            || name == "isReparsePoint"@ ==> occurrence_in(JsonModel::Object(members)) is None,
        name == "stem"@ || name == "occurrences"@ || name == "intercepts"@ ==> resolved_in(
            JsonModel::Object(members),
        ) is None,
        name == "construct"@ || name == "interpreter"@ || name == "profileLoaded"@
            ==> intercept_in(JsonModel::Object(members)) is None,
        name == "path"@ || name == "profileLoaded"@ ==> interpreter_in(JsonModel::Object(members))
            is None,
{
}

} // verus!
