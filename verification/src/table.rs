//! The human-readable rendering of a report. Every column width and style in the project
//! is decided here.

use vstd::prelude::*;

use crate::report::{
    first_live, live_winner_is_the_first_reachable, AuditReport, Capability, EntryModel, Finding,
    OccurrenceModel, PathEntry, PathScope, ReportModel, Resolved, ResolvedModel, ValueKind,
};
use crate::style::{
    broken, broken_style, heading_style, heading_text, muted, muted_style, plain, plain_style,
    untidy, untidy_style, Colour, TextStyle,
};
use crate::text::{
    blanks, decimal, decimal_width, ends_with_char, padded_left, padded_right, push_blanks,
    push_padded_left, push_padded_right, to_decimal,
};

verus! {

/// Width of the `LIVE` column, which holds a small number or a dash.
pub const LIVE_WIDTH: usize = 4;

/// Width of the widest scope label, `process-only`.
pub const SCOPE_WIDTH: usize = 12;

/// Width of the widest value type label, `REG_EXPAND_SZ`.
pub const KIND_WIDTH: usize = 13;

/// Minimum width of the index column, so the `IDX` header fits.
pub const MIN_INDEX_WIDTH: usize = 3;

// ---- the pieces ----

/// A path and a file name joined by one separator, which the path may already end with.
pub open spec fn joined_path(directory: Seq<char>, file_name: Seq<char>) -> Seq<char> {
    if directory.len() > 0 && (directory.last() == '\\' || directory.last() == '/') {
        directory + file_name
    } else {
        directory + "\\"@ + file_name
    }
}

/// Join a directory and a file name, tolerating a directory that already ends in a
/// separator.
pub fn join(directory: &str, file_name: &str) -> (path: String)
    ensures
        path@ == joined_path(directory@, file_name@),
{
    let mut path = directory.to_owned();
    if !ends_with_char(directory, '\\') && !ends_with_char(directory, '/') {
        path.append("\\");
    }
    path.append(file_name);
    path
}

/// A piece of text in a style.
pub open spec fn styled(style: TextStyle, text: Seq<char>) -> Seq<char> {
    style.codes() + text + style.reset()
}

/// Append a piece of text in a style.
fn push_styled(out: &mut String, style: TextStyle, text: &str)
    ensures
        final(out)@ == old(out)@ + styled(style, text@),
{
    let mut piece = style.render();
    piece.append(text);
    piece.append(style.render_reset().as_str());
    out.append(piece.as_str());
}

/// A blank line, a bold section title with a parenthesised summary, and a blank line.
pub open spec fn heading_lines(title: Seq<char>, summary: Seq<char>) -> Seq<char> {
    "\n"@ + styled(heading_style(), title) + "  ("@ + summary + ")\n\n"@
}

/// A blank line, then a bold section title with a parenthesised summary.
fn heading(out: &mut String, title: &str, summary: &str)
    ensures
        final(out)@ == old(out)@ + heading_lines(title@, summary@),
{
    let mut lines = "\n".to_owned();
    push_styled(&mut lines, heading_text(), title);
    lines.append("  (");
    lines.append(summary);
    lines.append(")\n\n");
    out.append(lines.as_str());
}

/// An indented, muted line.
pub open spec fn note_line(text: Seq<char>) -> Seq<char> {
    "  "@ + styled(muted_style(), text) + "\n"@
}

/// An indented, muted line for when a section has nothing in it.
fn note(out: &mut String, text: &str)
    ensures
        final(out)@ == old(out)@ + note_line(text@),
{
    let mut line = "  ".to_owned();
    push_styled(&mut line, muted(), text);
    line.append("\n");
    out.append(line.as_str());
}

/// The label of a scope.
pub open spec fn scope_name(scope: PathScope) -> Seq<char> {
    match scope {
        PathScope::Machine => "machine"@,
        PathScope::User => "user"@,
        PathScope::ProcessOnly => "process-only"@,
    }
}

/// The label of a scope.
pub fn scope_label(scope: PathScope) -> (label: &'static str)
    ensures
        label@ == scope_name(scope),
{
    match scope {
        PathScope::Machine => "machine",
        PathScope::User => "user",
        PathScope::ProcessOnly => "process-only",
    }
}

/// The registry's name of a value type, rather than a prettified version of it.
pub open spec fn kind_name(kind: ValueKind) -> Seq<char> {
    match kind {
        ValueKind::Sz => "REG_SZ"@,
        ValueKind::ExpandSz => "REG_EXPAND_SZ"@,
    }
}

/// The registry's name of a value type.
pub fn kind_label(kind: ValueKind) -> (label: &'static str)
    ensures
        label@ == kind_name(kind),
{
    match kind {
        ValueKind::Sz => "REG_SZ",
        ValueKind::ExpandSz => "REG_EXPAND_SZ",
    }
}

/// The label of a finding.
pub open spec fn finding_name(finding: Finding) -> Seq<char> {
    match finding {
        Finding::Missing => "missing"@,
        Finding::NotADirectory => "not a directory"@,
        Finding::Duplicate { first_seen_at } => "duplicate of #"@ + decimal(first_seen_at as nat),
        Finding::Empty => "empty segment"@,
        Finding::Relative => "relative"@,
        Finding::Unreadable => "unreadable"@,
    }
}

/// The label of a finding.
pub fn finding_label(finding: &Finding) -> (label: String)
    ensures
        label@ == finding_name(*finding),
{
    match finding {
        Finding::Missing => "missing".to_owned(),
        Finding::NotADirectory => "not a directory".to_owned(),
        Finding::Duplicate { first_seen_at } => {
            let mut label = "duplicate of #".to_owned();
            label.append(to_decimal(*first_seen_at as u128).as_str());
            label
        },
        Finding::Empty => "empty segment".to_owned(),
        Finding::Relative => "relative".to_owned(),
        Finding::Unreadable => "unreadable".to_owned(),
    }
}

/// Broken versus untidy: a missing directory is a defect, a duplicate is noise.
pub open spec fn style_of(finding: Finding) -> TextStyle {
    match finding {
        Finding::Missing => broken_style(),
        Finding::NotADirectory => broken_style(),
        Finding::Unreadable => broken_style(),
        Finding::Duplicate { first_seen_at: _ } => untidy_style(),
        Finding::Empty => untidy_style(),
        Finding::Relative => untidy_style(),
    }
}

/// The style a finding is shown in.
pub fn finding_style(finding: &Finding) -> (style: TextStyle)
    ensures
        style == style_of(*finding),
{
    match finding {
        Finding::Missing | Finding::NotADirectory | Finding::Unreadable => broken(),
        Finding::Duplicate { first_seen_at: _ } | Finding::Empty | Finding::Relative => untidy(),
    }
}

// ---- the columns ----

/// The greater of two widths.
pub open spec fn wider(left: nat, right: nat) -> nat {
    if left < right {
        right
    } else {
        left
    }
}

/// Wide enough for the largest index present, but never narrower than the header.
pub open spec fn index_column(entries: Seq<EntryModel>) -> nat
    decreases entries.len(),
{
    if entries.len() == 0 {
        MIN_INDEX_WIDTH as nat
    } else {
        wider(index_column(entries.drop_last()), decimal(entries.last().index as nat).len())
    }
}

/// Wide enough for the largest index present, but never narrower than the header.
pub fn index_width(entries: &Vec<&PathEntry>) -> (width: usize)
    ensures
        width == index_column(entries.deep_view()),
        MIN_INDEX_WIDTH <= width <= 20,
{
    let ghost all = entries.deep_view();
    let mut width: usize = MIN_INDEX_WIDTH;
    let mut i: usize = 0;
    while i < entries.len()
        invariant
            all == entries.deep_view(),
            i <= entries.len(),
            width == index_column(all.take(i as int)),
            MIN_INDEX_WIDTH <= width <= 20,
        decreases entries.len() - i,
    {
        assert(all.take(i + 1).drop_last() =~= all.take(i as int));
        assert(all[i as int] == entries@[i as int]@);
        let own = decimal_width(entries[i].index);
        if width < own {
            width = own;
        }
        i += 1;
    }
    assert(all.take(i as int) =~= all);
    width
}

/// The entries of one scope.
pub open spec fn of_scope(entries: Seq<EntryModel>, scope: PathScope) -> Seq<EntryModel> {
    entries.filter(|entry: EntryModel| entry.scope == scope)
}

/// How many entries are of one scope.
pub fn count(entries: &Vec<&PathEntry>, scope: PathScope) -> (count: usize)
    ensures
        count == of_scope(entries.deep_view(), scope).len(),
{
    let ghost all = entries.deep_view();
    let ghost counts = |entry: EntryModel| entry.scope == scope;
    let mut count: usize = 0;
    let mut i: usize = 0;
    assert(all.take(0).filter(counts).len() == 0) by {
        reveal(Seq::filter);
    }
    while i < entries.len()
        invariant
            all == entries.deep_view(),
            counts == (|entry: EntryModel| entry.scope == scope),
            i <= entries.len(),
            count <= i,
            count == all.take(i as int).filter(counts).len(),
        decreases entries.len() - i,
    {
        assert(all[i as int] == entries@[i as int]@);
        assert(all.take(i + 1) =~= all.take(i as int).push(all[i as int]));
        proof {
            all.take(i as int).lemma_filter_push(all[i as int], counts);
        }
        if entries[i].scope == scope {
            count += 1;
        }
        i += 1;
    }
    assert(all.take(i as int) =~= all);
    count
}

/// The entries that are on `PATH` in the registry but not in the running process.
pub open spec fn unseen_in(entries: Seq<EntryModel>) -> Seq<EntryModel> {
    entries.filter(|entry: EntryModel| entry.scope != PathScope::ProcessOnly && !entry.is_live())
}

/// How many entries are on `PATH` in the registry but not in the running process.
fn count_unseen(entries: &Vec<&PathEntry>) -> (count: usize)
    ensures
        count == unseen_in(entries.deep_view()).len(),
{
    let ghost all = entries.deep_view();
    let ghost counts = |entry: EntryModel|
        entry.scope != PathScope::ProcessOnly && !entry.is_live();
    let mut count: usize = 0;
    let mut i: usize = 0;
    assert(all.take(0).filter(counts).len() == 0) by {
        reveal(Seq::filter);
    }
    while i < entries.len()
        invariant
            all == entries.deep_view(),
            counts == (|entry: EntryModel|
                entry.scope != PathScope::ProcessOnly && !entry.is_live()),
            i <= entries.len(),
            count <= i,
            count == all.take(i as int).filter(counts).len(),
        decreases entries.len() - i,
    {
        assert(all[i as int] == entries@[i as int]@);
        assert(all.take(i + 1) =~= all.take(i as int).push(all[i as int]));
        proof {
            all.take(i as int).lemma_filter_push(all[i as int], counts);
        }
        if entries[i].scope != PathScope::ProcessOnly && !entries[i].is_live() {
            count += 1;
        }
        i += 1;
    }
    assert(all.take(i as int) =~= all);
    count
}

// ---- the composition ----

/// The column headers.
pub open spec fn header_line(index_width: nat) -> Seq<char> {
    "  "@ + heading_style().codes() + padded_left("IDX"@, index_width) + "  "@ + padded_left(
        "LIVE"@,
        LIVE_WIDTH as nat,
    ) + "  "@ + padded_right("SCOPE"@, SCOPE_WIDTH as nat) + "  "@ + padded_right(
        "VALUE TYPE"@,
        KIND_WIDTH as nat,
    ) + "  "@ + "DIRECTORY"@ + heading_style().reset() + "\n"@
}

/// The column headers.
fn header(index_width: usize) -> (line: String)
    ensures
        line@ == header_line(index_width as nat),
{
    let mut line = "  ".to_owned();
    line.append(heading_text().render().as_str());
    push_padded_left(&mut line, "IDX", index_width);
    line.append("  ");
    push_padded_left(&mut line, "LIVE", LIVE_WIDTH);
    line.append("  ");
    push_padded_right(&mut line, "SCOPE", SCOPE_WIDTH);
    line.append("  ");
    push_padded_right(&mut line, "VALUE TYPE", KIND_WIDTH);
    line.append("  ");
    line.append("DIRECTORY");
    line.append(heading_text().render_reset().as_str());
    line.append("\n");
    line
}

/// An entry's position in the running process, or a muted dash where it has none.
pub open spec fn live_cell(position: Option<usize>) -> Seq<char> {
    match position {
        Some(at) => padded_left(decimal(at as nat), LIVE_WIDTH as nat),
        None => styled(muted_style(), padded_left("-"@, LIVE_WIDTH as nat)),
    }
}

/// An entry's scope. Runtime injection is a shade quieter than a registry entry.
pub open spec fn scope_cell(scope: PathScope) -> Seq<char> {
    let label = padded_right(scope_name(scope), SCOPE_WIDTH as nat);
    match scope {
        PathScope::ProcessOnly => styled(muted_style(), label),
        _ => label,
    }
}

/// The type an entry's value is stored under, or a muted dash where there is none.
pub open spec fn kind_cell(kind: Option<ValueKind>) -> Seq<char> {
    match kind {
        Some(known) => padded_right(kind_name(known), KIND_WIDTH as nat),
        None => styled(muted_style(), padded_right("-"@, KIND_WIDTH as nat)),
    }
}

/// The stored form of an entry, shown only when it differs from the effective one.
pub open spec fn stored_line(entry: EntryModel, index_width: nat) -> Seq<char> {
    if entry.expanded is Some {
        blanks(index_width + 39) + muted_style().codes() + "stored as "@ + entry.raw
            + muted_style().reset() + "\n"@
    } else {
        Seq::empty()
    }
}

/// One row of the composition table.
pub open spec fn entry_row(entry: EntryModel, index_width: nat) -> Seq<char> {
    "  "@ + padded_left(decimal(entry.index as nat), index_width) + "  "@ + live_cell(
        entry.process_position,
    ) + "  "@ + scope_cell(entry.scope) + "  "@ + kind_cell(entry.value_kind) + "  "@
        + entry.effective() + "\n"@ + stored_line(entry, index_width)
}

/// A label filled up on the left, in a style.
fn push_styled_left(out: &mut String, style: TextStyle, text: &str, width: usize)
    ensures
        final(out)@ == old(out)@ + styled(style, padded_left(text@, width as nat)),
{
    let mut label = String::new();
    push_padded_left(&mut label, text, width);
    assert(label@ =~= padded_left(text@, width as nat));
    push_styled(out, style, label.as_str());
}

/// A label filled up on the right, in a style.
fn push_styled_right(out: &mut String, style: TextStyle, text: &str, width: usize)
    ensures
        final(out)@ == old(out)@ + styled(style, padded_right(text@, width as nat)),
{
    let mut label = String::new();
    push_padded_right(&mut label, text, width);
    assert(label@ =~= padded_right(text@, width as nat));
    push_styled(out, style, label.as_str());
}

/// The stored form of an entry, if it is to be shown.
fn push_stored(out: &mut String, entry: &PathEntry, index_width: usize)
    requires
        index_width <= 20,
    ensures
        final(out)@ == old(out)@ + stored_line(entry@, index_width as nat),
{
    if entry.expanded.is_some() {
        let indent: usize = 2 + index_width + 2 + LIVE_WIDTH + 2 + SCOPE_WIDTH + 2 + KIND_WIDTH + 2;
        let mut line = String::new();
        push_blanks(&mut line, indent);
        assert(line@ =~= blanks((index_width + 39) as nat));
        line.append(muted().render().as_str());
        line.append("stored as ");
        line.append(entry.raw.as_str());
        line.append(muted().render_reset().as_str());
        line.append("\n");
        out.append(line.as_str());
    } else {
        assert(out@ =~= out@ + stored_line(entry@, index_width as nat));
    }
}

/// One row of the composition table.
fn row(entry: &PathEntry, index_width: usize) -> (line: String)
    requires
        index_width <= 20,
    ensures
        line@ == entry_row(entry@, index_width as nat),
{
    let mut line = "  ".to_owned();
    push_padded_left(&mut line, to_decimal(entry.index as u128).as_str(), index_width);
    line.append("  ");
    match entry.process_position {
        Some(position) => push_padded_left(
            &mut line,
            to_decimal(position as u128).as_str(),
            LIVE_WIDTH,
        ),
        None => push_styled_left(&mut line, muted(), "-", LIVE_WIDTH),
    }
    line.append("  ");
    match entry.scope {
        PathScope::ProcessOnly => push_styled_right(
            &mut line,
            muted(),
            scope_label(entry.scope),
            SCOPE_WIDTH,
        ),
        _ => push_padded_right(&mut line, scope_label(entry.scope), SCOPE_WIDTH),
    }
    line.append("  ");
    match entry.value_kind {
        Some(kind) => push_padded_right(&mut line, kind_label(kind), KIND_WIDTH),
        None => push_styled_right(&mut line, muted(), "-", KIND_WIDTH),
    }
    line.append("  ");
    line.append(entry.effective());
    line.append("\n");
    push_stored(&mut line, entry, index_width);
    line
}

/// The rows of some entries.
pub open spec fn entry_rows(entries: Seq<EntryModel>, index_width: nat) -> Seq<char>
    decreases entries.len(),
{
    if entries.len() == 0 {
        Seq::empty()
    } else {
        entry_rows(entries.drop_last(), index_width) + entry_row(entries.last(), index_width)
    }
}

/// The rows of some entries.
fn rows(entries: &Vec<&PathEntry>, index_width: usize) -> (lines: String)
    requires
        index_width <= 20,
    ensures
        lines@ == entry_rows(entries.deep_view(), index_width as nat),
{
    let ghost all = entries.deep_view();
    let mut lines = String::new();
    let mut i: usize = 0;
    assert(lines@ =~= entry_rows(all.take(0), index_width as nat));
    while i < entries.len()
        invariant
            index_width <= 20,
            all == entries.deep_view(),
            i <= entries.len(),
            lines@ == entry_rows(all.take(i as int), index_width as nat),
        decreases entries.len() - i,
    {
        assert(all.take(i + 1).drop_last() =~= all.take(i as int));
        assert(all[i as int] == entries@[i as int]@);
        lines.append(row(entries[i], index_width).as_str());
        i += 1;
    }
    assert(all.take(i as int) =~= all);
    lines
}

/// What to say when the registry knows entries that the running process does not: the fix
/// is to restart the shell, and nothing else in the report hints at it.
pub open spec fn restart_hint(unseen: nat) -> Seq<char> {
    if unseen == 0 {
        Seq::empty()
    } else if unseen == 1 {
        "\n"@ + note_line(
            decimal(unseen) + " entry is on PATH in the registry but not in this process. Restart the shell to pick it up."@,
        )
    } else {
        "\n"@ + note_line(
            decimal(unseen) + " entries are on PATH in the registry but not in this process. Restart the shell to pick them up."@,
        )
    }
}

/// Append the hint that a restart is due.
fn push_restart_hint(out: &mut String, unseen: usize)
    ensures
        final(out)@ == old(out)@ + restart_hint(unseen as nat),
{
    if unseen == 0 {
        assert(out@ =~= out@ + restart_hint(0));
        return;
    }
    let mut text = to_decimal(unseen as u128);
    if unseen == 1 {
        text.append(" entry is on PATH in the registry but not in this process. Restart the shell to pick it up.");
    } else {
        text.append(" entries are on PATH in the registry but not in this process. Restart the shell to pick them up.");
    }
    let mut lines = "\n".to_owned();
    note(&mut lines, text.as_str());
    out.append(lines.as_str());
}

/// The summary of the composition.
pub open spec fn composition_summary(entries: Seq<EntryModel>) -> Seq<char> {
    decimal(of_scope(entries, PathScope::Machine).len()) + " machine, "@ + decimal(
        of_scope(entries, PathScope::User).len(),
    ) + " user, "@ + decimal(of_scope(entries, PathScope::ProcessOnly).len())
        + " injected at runtime"@
}

/// The ordered composition table.
pub open spec fn composition_section(entries: Seq<EntryModel>) -> Seq<char> {
    let top = heading_lines("PATH composition"@, composition_summary(entries));
    let index_width = index_column(entries);
    if entries.len() == 0 {
        top + note_line("No entries in scope."@)
    } else {
        top + header_line(index_width) + entry_rows(entries, index_width) + restart_hint(
            unseen_in(entries).len(),
        )
    }
}

/// The ordered composition table.
pub fn write_composition(out: &mut String, entries: &Vec<&PathEntry>)
    ensures
        final(out)@ == old(out)@ + composition_section(entries.deep_view()),
{
    let mut summary = to_decimal(count(entries, PathScope::Machine) as u128);
    summary.append(" machine, ");
    summary.append(to_decimal(count(entries, PathScope::User) as u128).as_str());
    summary.append(" user, ");
    summary.append(to_decimal(count(entries, PathScope::ProcessOnly) as u128).as_str());
    summary.append(" injected at runtime");

    let mut section = String::new();
    heading(&mut section, "PATH composition", summary.as_str());
    assert(section@ =~= heading_lines(
        "PATH composition"@,
        composition_summary(entries.deep_view()),
    ));
    assert(entries.deep_view().len() == entries.len());
    if entries.len() == 0 {
        note(&mut section, "No entries in scope.");
    } else {
        let index_width = index_width(entries);
        section.append(header(index_width).as_str());
        section.append(rows(entries, index_width).as_str());
        push_restart_hint(&mut section, count_unseen(entries));
    }
    out.append(section.as_str());
}

// ---- the findings ----

/// How many findings some entries have together.
pub open spec fn finding_count(entries: Seq<EntryModel>) -> nat
    decreases entries.len(),
{
    if entries.len() == 0 {
        0
    } else {
        finding_count(entries.drop_last()) + entries.last().findings.len()
    }
}

/// How many findings some entries have together.
fn count_findings(entries: &Vec<&PathEntry>) -> (count: u128)
    ensures
        count == finding_count(entries.deep_view()),
{
    let ghost all = entries.deep_view();
    let mut count: u128 = 0;
    let mut i: usize = 0;
    while i < entries.len()
        invariant
            all == entries.deep_view(),
            i <= entries.len(),
            count == finding_count(all.take(i as int)),
            count <= i * usize::MAX,
        decreases entries.len() - i,
    {
        assert(all.take(i + 1).drop_last() =~= all.take(i as int));
        assert(all[i as int] == entries@[i as int]@);
        assert(entries@[i as int].findings.deep_view().len() == entries@[i as int].findings.len());
        assert((i + 1) * usize::MAX == i * usize::MAX + usize::MAX) by (nonlinear_arith);
        assert((i + 1) * usize::MAX <= u128::MAX) by (nonlinear_arith)
            requires
                i + 1 <= usize::MAX,
                usize::MAX <= 0xffff_ffff_ffff_ffff,
        ;
        count += entries[i].findings.len() as u128;
        i += 1;
    }
    assert(all.take(i as int) =~= all);
    count
}

/// Wide enough for the longest label of some findings.
pub open spec fn label_width_in(findings: Seq<Finding>) -> nat
    decreases findings.len(),
{
    if findings.len() == 0 {
        0
    } else {
        wider(label_width_in(findings.drop_last()), finding_name(findings.last()).len())
    }
}

/// Wide enough for the longest label of any finding that some entries have.
pub open spec fn label_column(entries: Seq<EntryModel>) -> nat
    decreases entries.len(),
{
    if entries.len() == 0 {
        0
    } else {
        wider(label_column(entries.drop_last()), label_width_in(entries.last().findings))
    }
}

/// Wide enough for the longest label of an entry's findings.
fn label_width(entry: &PathEntry) -> (width: usize)
    ensures
        width == label_width_in(entry@.findings),
{
    let ghost all = entry@.findings;
    let mut width: usize = 0;
    let mut i: usize = 0;
    assert(all.len() == entry.findings.len());
    while i < entry.findings.len()
        invariant
            all == entry@.findings,
            i <= entry.findings.len(),
            width == label_width_in(all.take(i as int)),
        decreases entry.findings.len() - i,
    {
        assert(all.take(i + 1).drop_last() =~= all.take(i as int));
        assert(all[i as int] == entry.findings@[i as int]);
        let own = finding_label(&entry.findings[i]).as_str().unicode_len();
        if width < own {
            width = own;
        }
        i += 1;
    }
    assert(all.take(i as int) =~= all);
    width
}

/// Wide enough for the longest label of any finding that some entries have.
fn widest_label(entries: &Vec<&PathEntry>) -> (width: usize)
    ensures
        width == label_column(entries.deep_view()),
{
    let ghost all = entries.deep_view();
    let mut width: usize = 0;
    let mut i: usize = 0;
    while i < entries.len()
        invariant
            all == entries.deep_view(),
            i <= entries.len(),
            width == label_column(all.take(i as int)),
        decreases entries.len() - i,
    {
        assert(all.take(i + 1).drop_last() =~= all.take(i as int));
        assert(all[i as int] == entries@[i as int]@);
        let own = label_width(entries[i]);
        if width < own {
            width = own;
        }
        i += 1;
    }
    assert(all.take(i as int) =~= all);
    width
}

/// One row of the findings table.
pub open spec fn finding_row(
    entry: EntryModel,
    finding: Finding,
    index_width: nat,
    label_width: nat,
) -> Seq<char> {
    "  "@ + padded_left(decimal(entry.index as nat), index_width) + "  "@ + styled(
        style_of(finding),
        padded_right(finding_name(finding), label_width),
    ) + "  "@ + entry.effective() + "\n"@
}

/// The rows of some of an entry's findings.
pub open spec fn rows_of(
    entry: EntryModel,
    findings: Seq<Finding>,
    index_width: nat,
    label_width: nat,
) -> Seq<char>
    decreases findings.len(),
{
    if findings.len() == 0 {
        Seq::empty()
    } else {
        rows_of(entry, findings.drop_last(), index_width, label_width) + finding_row(
            entry,
            findings.last(),
            index_width,
            label_width,
        )
    }
}

/// The rows of all findings of some entries.
pub open spec fn finding_rows(
    entries: Seq<EntryModel>,
    index_width: nat,
    label_width: nat,
) -> Seq<char>
    decreases entries.len(),
{
    if entries.len() == 0 {
        Seq::empty()
    } else {
        finding_rows(entries.drop_last(), index_width, label_width) + rows_of(
            entries.last(),
            entries.last().findings,
            index_width,
            label_width,
        )
    }
}

/// The rows of an entry's findings.
fn entry_finding_rows(entry: &PathEntry, index_width: usize, label_width: usize) -> (lines: String)
    ensures
        lines@ == rows_of(entry@, entry@.findings, index_width as nat, label_width as nat),
{
    let ghost all = entry@.findings;
    let mut lines = String::new();
    let mut i: usize = 0;
    assert(all.len() == entry.findings.len());
    assert(lines@ =~= rows_of(entry@, all.take(0), index_width as nat, label_width as nat));
    while i < entry.findings.len()
        invariant
            all == entry@.findings,
            i <= entry.findings.len(),
            lines@ == rows_of(
                entry@,
                all.take(i as int),
                index_width as nat,
                label_width as nat,
            ),
        decreases entry.findings.len() - i,
    {
        assert(all.take(i + 1).drop_last() =~= all.take(i as int));
        assert(all[i as int] == entry.findings@[i as int]);
        let finding = &entry.findings[i];
        let mut line = "  ".to_owned();
        push_padded_left(&mut line, to_decimal(entry.index as u128).as_str(), index_width);
        line.append("  ");
        push_styled_right(
            &mut line,
            finding_style(finding),
            finding_label(finding).as_str(),
            label_width,
        );
        line.append("  ");
        line.append(entry.effective());
        line.append("\n");
        lines.append(line.as_str());
        i += 1;
    }
    assert(all.take(i as int) =~= all);
    lines
}

/// The entries with something wrong with them.
pub open spec fn findings_section(entries: Seq<EntryModel>) -> Seq<char> {
    let total = finding_count(entries);
    let top = heading_lines("Findings"@, decimal(total));
    if total == 0 {
        top + note_line("Nothing to report."@)
    } else {
        top + finding_rows(entries, index_column(entries), label_column(entries))
    }
}

/// Only the entries with something wrong with them.
pub fn write_findings(out: &mut String, entries: &Vec<&PathEntry>)
    ensures
        final(out)@ == old(out)@ + findings_section(entries.deep_view()),
{
    let ghost all = entries.deep_view();
    let total = count_findings(entries);
    let mut section = String::new();
    heading(&mut section, "Findings", to_decimal(total).as_str());
    assert(section@ =~= heading_lines("Findings"@, decimal(total as nat)));
    if total == 0 {
        note(&mut section, "Nothing to report.");
    } else {
        let index_width = index_width(entries);
        let label_width = widest_label(entries);
        let mut lines = String::new();
        let mut i: usize = 0;
        assert(lines@ =~= finding_rows(all.take(0), index_width as nat, label_width as nat));
        while i < entries.len()
            invariant
                all == entries.deep_view(),
                i <= entries.len(),
                lines@ == finding_rows(
                    all.take(i as int),
                    index_width as nat,
                    label_width as nat,
                ),
            decreases entries.len() - i,
        {
            assert(all.take(i + 1).drop_last() =~= all.take(i as int));
            assert(all[i as int] == entries@[i as int]@);
            lines.append(entry_finding_rows(entries[i], index_width, label_width).as_str());
            i += 1;
        }
        assert(all.take(i as int) =~= all);
        section.append(lines.as_str());
    }
    out.append(section.as_str());
}

// ---- the contested names ----

/// The word for the part an occurrence plays, and the style of its row. The first one the
/// running process can reach wins; one it cannot reach wins nothing until something
/// restarts.
pub open spec fn part_of(occurrences: Seq<OccurrenceModel>, position: int) -> (
    Seq<char>,
    TextStyle,
) {
    if first_live(occurrences) == Some(position) {
        ("wins  "@, plain_style())
    } else if occurrences[position].process_position is None {
        ("unseen"@, muted_style())
    } else {
        ("hidden"@, muted_style())
    }
}

/// One occurrence of a contested name.
pub open spec fn occurrence_row(occurrences: Seq<OccurrenceModel>, position: int) -> Seq<char> {
    let occurrence = occurrences[position];
    let (marker, style) = part_of(occurrences, position);
    "    "@ + style.codes() + marker + "  #"@ + padded_right(
        decimal(occurrence.entry_index as nat),
        3,
    ) + " "@ + joined_path(occurrence.directory, occurrence.file_name) + (
    if occurrence.is_reparse_point {
        "  (reparse point, not followed)"@
    } else {
        ""@
    }) + style.reset() + "\n"@
}

/// The first occurrences of a contested name.
pub open spec fn occurrence_rows(occurrences: Seq<OccurrenceModel>, shown: int) -> Seq<char>
    decreases shown,
{
    if shown <= 0 {
        Seq::empty()
    } else {
        occurrence_rows(occurrences, shown - 1) + occurrence_row(occurrences, shown - 1)
    }
}

/// The name itself, and whether reordering `PATH` could change who wins.
pub open spec fn name_line(resolved: ResolvedModel) -> Seq<char> {
    let name = "  "@ + styled(heading_style(), resolved.stem);
    if resolved.is_pathext_only() {
        name + "  "@ + styled(muted_style(), "one directory, decided by PATHEXT order"@) + "\n"@
    } else {
        name + "\n"@
    }
}

/// What a new process would run, when that is not what this one runs.
pub open spec fn fresh_line(resolved: ResolvedModel) -> Seq<char> {
    match resolved.fresh_winner() {
        Some(fresh) if resolved.winner_depends_on_context() => "    "@ + styled(
            muted_style(),
            "note    a new process would run "@ + joined_path(fresh.directory, fresh.file_name),
        ) + "\n"@,
        _ => Seq::empty(),
    }
}

/// Everything about one contested name.
pub open spec fn contested_block(resolved: ResolvedModel) -> Seq<char> {
    name_line(resolved) + occurrence_rows(
        resolved.occurrences,
        resolved.occurrences.len() as int,
    ) + fresh_line(resolved)
}

/// Everything about some contested names.
pub open spec fn contested_blocks(names: Seq<ResolvedModel>) -> Seq<char>
    decreases names.len(),
{
    if names.len() == 0 {
        Seq::empty()
    } else {
        contested_blocks(names.drop_last()) + contested_block(names.last())
    }
}

/// The position of the first occurrence the running process can reach.
fn live_place(resolved: &Resolved) -> (place: Option<usize>)
    ensures
        match (place, first_live(resolved@.occurrences)) {
            (Some(at), Some(model)) => at == model,
            (None, None) => true,
            _ => false,
        },
{
    let ghost all = resolved@.occurrences;
    proof {
        live_winner_is_the_first_reachable(all);
    }
    assert(all.len() == resolved.occurrences.len());
    let mut i: usize = 0;
    while i < resolved.occurrences.len()
        invariant
            all == resolved@.occurrences,
            all.len() == resolved.occurrences.len(),
            i <= resolved.occurrences.len(),
            forall|k: int| 0 <= k < i ==> (#[trigger] all[k]).process_position is None,
        decreases resolved.occurrences.len() - i,
    {
        assert(all[i as int] == resolved.occurrences@[i as int]@);
        if resolved.occurrences[i].process_position.is_some() {
            proof {
                live_winner_is_the_first_reachable(all);
            }
            return Some(i);
        }
        i += 1;
    }
    None
}

/// One occurrence of a contested name.
fn show_occurrence(
    resolved: &Resolved,
    position: usize,
    live_place: Option<usize>,
) -> (line: String)
    requires
        position < resolved.occurrences.len(),
        match (live_place, first_live(resolved@.occurrences)) {
            (Some(at), Some(model)) => at == model,
            (None, None) => true,
            _ => false,
        },
    ensures
        line@ == occurrence_row(resolved@.occurrences, position as int),
{
    let occurrence = &resolved.occurrences[position];
    assert(resolved@.occurrences[position as int] == occurrence@);
    let wins = match live_place {
        Some(at) => at == position,
        None => false,
    };
    let (marker, style) = if wins {
        ("wins  ", plain())
    } else if occurrence.process_position.is_none() {
        ("unseen", muted())
    } else {
        ("hidden", muted())
    };
    let mut line = "    ".to_owned();
    line.append(style.render().as_str());
    line.append(marker);
    line.append("  #");
    push_padded_right(&mut line, to_decimal(occurrence.entry_index as u128).as_str(), 3);
    line.append(" ");
    line.append(join(occurrence.directory.as_str(), occurrence.file_name.as_str()).as_str());
    if occurrence.is_reparse_point {
        line.append("  (reparse point, not followed)");
    } else {
        line.append("");
    }
    line.append(style.render_reset().as_str());
    line.append("\n");
    line
}

/// What a new process would run, when that is not what this one runs.
fn push_fresh(out: &mut String, resolved: &Resolved)
    ensures
        final(out)@ == old(out)@ + fresh_line(resolved@),
{
    if resolved.winner_depends_on_context() {
        if let Some(fresh) = resolved.fresh_winner() {
            let mut text = "note    a new process would run ".to_owned();
            text.append(join(fresh.directory.as_str(), fresh.file_name.as_str()).as_str());
            let mut line = "    ".to_owned();
            push_styled(&mut line, muted(), text.as_str());
            line.append("\n");
            out.append(line.as_str());
            return;
        }
    }
    assert(out@ =~= out@ + fresh_line(resolved@));
}

/// Everything about one contested name.
fn show_contested(resolved: &Resolved) -> (block: String)
    ensures
        block@ == contested_block(resolved@),
{
    let ghost all = resolved@.occurrences;
    let mut block = "  ".to_owned();
    push_styled(&mut block, heading_text(), resolved.stem.as_str());
    if resolved.is_pathext_only() {
        block.append("  ");
        push_styled(&mut block, muted(), "one directory, decided by PATHEXT order");
    }
    block.append("\n");
    assert(block@ == name_line(resolved@));
    let place = live_place(resolved);
    let mut lines = String::new();
    let mut i: usize = 0;
    assert(lines@ =~= occurrence_rows(all, 0));
    assert(all.len() == resolved.occurrences.len());
    while i < resolved.occurrences.len()
        invariant
            all == resolved@.occurrences,
            all.len() == resolved.occurrences.len(),
            i <= resolved.occurrences.len(),
            match (place, first_live(all)) {
                (Some(at), Some(model)) => at == model,
                (None, None) => true,
                _ => false,
            },
            lines@ == occurrence_rows(all, i as int),
        decreases resolved.occurrences.len() - i,
    {
        lines.append(show_occurrence(resolved, i, place).as_str());
        i += 1;
    }
    block.append(lines.as_str());
    push_fresh(&mut block, resolved);
    block
}

/// The contested names, and a count of how many resolved uniquely.
pub open spec fn executables_section(report: ReportModel) -> Seq<char> {
    let title = "Shadowed executables"@;
    let shadowed = report.shadowed();
    let summary = decimal(shadowed.len()) + " of "@ + decimal(report.executables.len())
        + " names"@;
    if !report.capabilities.contains(Capability::ShadowDetection) {
        heading_lines(title, "not computed"@) + note_line(
            "Executable enumeration did not run, so the empty result above says\n  nothing about shadowing."@,
        )
    } else if shadowed.len() == 0 {
        heading_lines(title, summary) + note_line(
            "No executable name resolves from more than one place."@,
        )
    } else {
        heading_lines(title, summary) + note_line(
            "Ranked as this process resolves them. A copy this process cannot reach is\n  marked unseen, and a name a new shell would resolve differently says so."@,
        ) + "\n"@ + contested_blocks(shadowed)
    }
}

/// The contested names, and a count of how many resolved uniquely.
///
/// Only the contested ones: there are around a thousand names on an ordinary machine, and
/// a thousand-row table helps nobody.
pub fn write_executables(out: &mut String, report: &AuditReport)
    ensures
        final(out)@ == old(out)@ + executables_section(report@),
{
    let title = "Shadowed executables";
    let mut section = String::new();
    if !report.computed(Capability::ShadowDetection) {
        heading(&mut section, title, "not computed");
        assert(section@ =~= heading_lines(title@, "not computed"@));
        note(
            &mut section,
            "Executable enumeration did not run, so the empty result above says\n  nothing about shadowing.",
        );
        out.append(section.as_str());
        return;
    }
    let shadowed = report.shadowed();
    let ghost names = shadowed.deep_view();
    assert(names.len() == shadowed.len());
    assert(report@.executables.len() == report.executables.len());
    let mut summary = to_decimal(shadowed.len() as u128);
    summary.append(" of ");
    summary.append(to_decimal(report.executables.len() as u128).as_str());
    summary.append(" names");
    heading(&mut section, title, summary.as_str());
    assert(section@ =~= heading_lines(title@, summary@));
    if shadowed.len() == 0 {
        note(&mut section, "No executable name resolves from more than one place.");
        out.append(section.as_str());
        return;
    }
    note(
        &mut section,
        "Ranked as this process resolves them. A copy this process cannot reach is\n  marked unseen, and a name a new shell would resolve differently says so.",
    );
    section.append("\n");
    let mut blocks = String::new();
    let mut i: usize = 0;
    assert(blocks@ =~= contested_blocks(names.take(0)));
    while i < shadowed.len()
        invariant
            names == shadowed.deep_view(),
            i <= shadowed.len(),
            blocks@ == contested_blocks(names.take(i as int)),
        decreases shadowed.len() - i,
    {
        assert(names.take(i + 1).drop_last() =~= names.take(i as int));
        assert(names[i as int] == shadowed@[i as int]@);
        blocks.append(show_contested(shadowed[i]).as_str());
        i += 1;
    }
    assert(names.take(i as int) =~= names);
    section.append(blocks.as_str());
    out.append(section.as_str());
}

/// The whole report, narrowed to some entries, or to the contested names alone.
pub open spec fn report_text(
    report: ReportModel,
    entries: Seq<EntryModel>,
    shadows_only: bool,
) -> Seq<char> {
    if shadows_only {
        executables_section(report)
    } else {
        composition_section(entries) + findings_section(entries) + executables_section(report)
    }
}

/// Write the whole report.
///
/// `entries` is already narrowed; `report` is passed whole because the last section needs
/// the capability list, which describes the run rather than the narrowed view.
pub fn write_report(
    out: &mut String,
    report: &AuditReport,
    entries: &Vec<&PathEntry>,
    shadows_only: bool,
)
    ensures
        final(out)@ == old(out)@ + report_text(report@, entries.deep_view(), shadows_only),
{
    let ghost start = out@;
    if !shadows_only {
        write_composition(out, entries);
        write_findings(out, entries);
    }
    write_executables(out, report);
    assert(out@ =~= start + report_text(report@, entries.deep_view(), shadows_only));
}

// ---- what a reader finds in the table ----

/// Whether a text stands somewhere in another.
pub open spec fn stands_in(part: Seq<char>, whole: Seq<char>) -> bool {
    exists|before: Seq<char>, after: Seq<char>| whole == #[trigger] (before + part + after)
}

proof fn lemma_stands_at(before: Seq<char>, part: Seq<char>, after: Seq<char>, whole: Seq<char>)
    requires
        whole =~= before + part + after,
    ensures
        stands_in(part, whole),
{
    assert(whole == before + part + after);
}

proof fn lemma_stands_deeper(
    part: Seq<char>,
    inner: Seq<char>,
    before: Seq<char>,
    after: Seq<char>,
    whole: Seq<char>,
)
    requires
        stands_in(part, inner),
        whole =~= before + inner + after,
    ensures
        stands_in(part, whole),
{
    let (b, a) = choose|b: Seq<char>, a: Seq<char>| inner == #[trigger] (b + part + a);
    lemma_stands_at(before + b, part, a + after, whole);
}

/// A directory and a file name are joined by one separator: the one the directory ends with,
/// or else a backslash.
pub proof fn one_separator_joins_a_path(directory: Seq<char>, file_name: Seq<char>)
    ensures
        joined_path(directory.push('\\'), file_name) == directory.push('\\') + file_name,
        joined_path(directory.push('/'), file_name) == directory.push('/') + file_name,
        directory.len() == 0 || (directory.last() != '\\' && directory.last() != '/')
            ==> joined_path(directory, file_name) == directory.push('\\') + file_name,
{
    reveal_strlit("\\");
    if directory.len() == 0 || (directory.last() != '\\' && directory.last() != '/') {
        assert(joined_path(directory, file_name) =~= directory.push('\\') + file_name);
    }
}

/// The index column is wide enough for every index and for its header, and no wider than one
/// of those needs.
pub proof fn the_index_column_just_fits(entries: Seq<EntryModel>)
    ensures
        index_column(entries) >= 3,
        forall|i: int|
            0 <= i < entries.len() ==> decimal((#[trigger] entries[i]).index as nat).len()
                <= index_column(entries),
        index_column(entries) == 3 || exists|i: int|
            0 <= i < entries.len() && decimal((#[trigger] entries[i]).index as nat).len()
                == index_column(entries),
    decreases entries.len(),
{
    if entries.len() > 0 {
        let fewer = entries.drop_last();
        the_index_column_just_fits(fewer);
        assert forall|i: int| 0 <= i < entries.len() implies decimal(
            (#[trigger] entries[i]).index as nat,
        ).len() <= index_column(entries) by {
            if i < fewer.len() {
                assert(fewer[i] == entries[i]);
            }
        }
        if index_column(entries) != 3 {
            if index_column(entries) == index_column(fewer) {
                let i = choose|i: int|
                    0 <= i < fewer.len() && decimal((#[trigger] fewer[i]).index as nat).len()
                        == index_column(fewer);
                assert(entries[i] == fewer[i]);
            } else {
                assert(entries[entries.len() - 1] == entries.last());
            }
        }
    }
}

/// The label column is wide enough for every label, and no wider than the longest.
pub proof fn the_label_column_just_fits(entries: Seq<EntryModel>, i: int, k: int)
    requires
        0 <= i < entries.len(),
        0 <= k < entries[i].findings.len(),
    ensures
        finding_name(entries[i].findings[k]).len() <= label_column(entries),
    decreases entries.len(),
{
    if i < entries.len() - 1 {
        assert(entries.drop_last()[i] == entries[i]);
        the_label_column_just_fits(entries.drop_last(), i, k);
    } else {
        lemma_label_fits(entries[i].findings, k);
    }
}

proof fn lemma_label_fits(findings: Seq<Finding>, k: int)
    requires
        0 <= k < findings.len(),
    ensures
        finding_name(findings[k]).len() <= label_width_in(findings),
    decreases findings.len(),
{
    if k < findings.len() - 1 {
        assert(findings.drop_last()[k] == findings[k]);
        lemma_label_fits(findings.drop_last(), k);
    }
}

/// Every scope is counted: the three counts in the summary add up to the number of entries.
pub proof fn every_entry_is_counted_once(entries: Seq<EntryModel>)
    ensures
        of_scope(entries, PathScope::Machine).len() + of_scope(entries, PathScope::User).len()
            + of_scope(entries, PathScope::ProcessOnly).len() == entries.len(),
    decreases entries.len(),
{
    let machine = |entry: EntryModel| entry.scope == PathScope::Machine;
    let user = |entry: EntryModel| entry.scope == PathScope::User;
    let process = |entry: EntryModel| entry.scope == PathScope::ProcessOnly;
    if entries.len() > 0 {
        let fewer = entries.drop_last();
        every_entry_is_counted_once(fewer);
        fewer.lemma_filter_push(entries.last(), machine);
        fewer.lemma_filter_push(entries.last(), user);
        fewer.lemma_filter_push(entries.last(), process);
        assert(fewer.push(entries.last()) =~= entries);
    } else {
        reveal(Seq::filter);
    }
}

/// An entry counts for its own scope.
pub proof fn an_entry_counts_for_its_scope(
    entries: Seq<EntryModel>,
    entry: EntryModel,
    scope: PathScope,
)
    ensures
        of_scope(entries.push(entry), scope).len() == of_scope(entries, scope).len() + (
        if entry.scope == scope {
            1int
        } else {
            0int
        }),
        unseen_in(entries.push(entry)).len() == unseen_in(entries).len() + (if entry.scope
            != PathScope::ProcessOnly && entry.process_position is None {
            1int
        } else {
            0int
        }),
        finding_count(entries.push(entry)) == finding_count(entries) + entry.findings.len(),
        finding_count(Seq::empty()) == 0,
{
    let counts = |one: EntryModel| one.scope == scope;
    let unseen = |one: EntryModel| one.scope != PathScope::ProcessOnly && !one.is_live();
    entries.lemma_filter_push(entry, counts);
    entries.lemma_filter_push(entry, unseen);
    assert(entries.push(entry).drop_last() =~= entries);
}

/// A restart is hinted at exactly when the registry lists an entry that this process does
/// not see, and the hint says how many there are.
pub proof fn a_restart_is_hinted_at_when_due(unseen: nat)
    ensures
        restart_hint(unseen).len() == 0 <==> unseen == 0,
        unseen > 0 ==> stands_in(decimal(unseen), restart_hint(unseen)),
{
    reveal_strlit("\n");
    reveal_strlit("  ");
    if unseen > 0 {
        let tail = if unseen == 1 {
            " entry is on PATH in the registry but not in this process. Restart the shell to pick it up."@
        } else {
            " entries are on PATH in the registry but not in this process. Restart the shell to pick them up."@
        };
        let style = muted_style();
        lemma_stands_at(
            "\n"@ + "  "@ + style.codes(),
            decimal(unseen),
            tail + style.reset() + "\n"@,
            restart_hint(unseen),
        );
        assert(restart_hint(unseen)[0] == '\n');
    }
}

/// A row shows the entry: its index, its position in the running process or a dash, its
/// scope, its type or a dash, and its directory; and its text as stored where that differs.
pub proof fn a_row_shows_its_entry(entry: EntryModel, index_width: nat)
    ensures
        stands_in(decimal(entry.index as nat), entry_row(entry, index_width)),
        entry.process_position is Some ==> stands_in(
            decimal(entry.process_position->0 as nat),
            entry_row(entry, index_width),
        ),
        stands_in(
            match entry.scope {
                PathScope::Machine => "machine"@,
                PathScope::User => "user"@,
                PathScope::ProcessOnly => "process-only"@,
            },
            entry_row(entry, index_width),
        ),
        entry.value_kind is Some ==> stands_in(
            match entry.value_kind->0 {
                ValueKind::Sz => "REG_SZ"@,
                ValueKind::ExpandSz => "REG_EXPAND_SZ"@,
            },
            entry_row(entry, index_width),
        ),
        stands_in("  "@ + entry.effective() + "\n"@, entry_row(entry, index_width)),
        entry.expanded is Some ==> stands_in(
            "stored as "@ + entry.raw,
            entry_row(entry, index_width),
        ),
{
    let scope = scope_cell(entry.scope);
    let stored = stored_line(entry, index_width);
    lemma_padded_holds(decimal(entry.index as nat), index_width);
    lemma_row_holds_index(entry, index_width, decimal(entry.index as nat));
    if let Some(at) = entry.process_position {
        lemma_padded_holds(decimal(at as nat), LIVE_WIDTH as nat);
        lemma_row_holds_live(entry, index_width, decimal(at as nat));
    }
    let label = scope_name(entry.scope);
    lemma_padded_holds(label, SCOPE_WIDTH as nat);
    if entry.scope == PathScope::ProcessOnly {
        lemma_stands_deeper(
            label,
            padded_right(label, SCOPE_WIDTH as nat),
            muted_style().codes(),
            muted_style().reset(),
            scope,
        );
    }
    lemma_row_holds_scope(entry, index_width, label);
    if let Some(known) = entry.value_kind {
        lemma_padded_holds(kind_name(known), KIND_WIDTH as nat);
        lemma_row_holds_kind(entry, index_width, kind_name(known));
    }
    lemma_row_holds_directory(entry, index_width);
    if entry.expanded is Some {
        let text = "stored as "@ + entry.raw;
        let indent = blanks(index_width + 39) + muted_style().codes();
        lemma_stands_at(indent, text, muted_style().reset() + "\n"@, stored);
        lemma_row_holds_stored(entry, index_width, text);
    }
}

proof fn lemma_stands_before(part: Seq<char>, whole: Seq<char>, more: Seq<char>)
    requires
        stands_in(part, whole),
    ensures
        stands_in(part, whole + more),
{
    lemma_stands_deeper(part, whole, Seq::empty(), more, whole + more);
}

proof fn lemma_stands_behind(part: Seq<char>, whole: Seq<char>, before: Seq<char>)
    requires
        stands_in(part, whole),
    ensures
        stands_in(part, before + whole),
{
    lemma_stands_deeper(part, whole, before, Seq::empty(), before + whole);
}

/// The cells of a row up to the index, the live position, the scope, and the type.
spec fn row_parts(entry: EntryModel, index_width: nat) -> (
    Seq<char>,
    Seq<char>,
    Seq<char>,
    Seq<char>,
) {
    let a = "  "@ + padded_left(decimal(entry.index as nat), index_width);
    let b = a + "  "@ + live_cell(entry.process_position);
    let c = b + "  "@ + scope_cell(entry.scope);
    let d = c + "  "@ + kind_cell(entry.value_kind);
    (a, b, c, d)
}

proof fn lemma_row_from_kind(entry: EntryModel, index_width: nat, part: Seq<char>)
    requires
        stands_in(part, row_parts(entry, index_width).3),
    ensures
        stands_in(part, entry_row(entry, index_width)),
{
    let d = row_parts(entry, index_width).3;
    lemma_stands_before(part, d, "  "@);
    lemma_stands_before(part, d + "  "@, entry.effective());
    lemma_stands_before(part, d + "  "@ + entry.effective(), "\n"@);
    lemma_stands_before(
        part,
        d + "  "@ + entry.effective() + "\n"@,
        stored_line(entry, index_width),
    );
}

proof fn lemma_row_holds_kind(entry: EntryModel, index_width: nat, part: Seq<char>)
    requires
        stands_in(part, kind_cell(entry.value_kind)),
    ensures
        stands_in(part, entry_row(entry, index_width)),
{
    let (a, b, c, d) = row_parts(entry, index_width);
    lemma_stands_behind(part, kind_cell(entry.value_kind), c + "  "@);
    lemma_row_from_kind(entry, index_width, part);
}

proof fn lemma_row_from_scope(entry: EntryModel, index_width: nat, part: Seq<char>)
    requires
        stands_in(part, row_parts(entry, index_width).2),
    ensures
        stands_in(part, entry_row(entry, index_width)),
{
    let (a, b, c, d) = row_parts(entry, index_width);
    lemma_stands_before(part, c, "  "@);
    lemma_stands_before(part, c + "  "@, kind_cell(entry.value_kind));
    lemma_row_from_kind(entry, index_width, part);
}

proof fn lemma_row_holds_scope(entry: EntryModel, index_width: nat, part: Seq<char>)
    requires
        stands_in(part, scope_cell(entry.scope)),
    ensures
        stands_in(part, entry_row(entry, index_width)),
{
    let (a, b, c, d) = row_parts(entry, index_width);
    lemma_stands_behind(part, scope_cell(entry.scope), b + "  "@);
    lemma_row_from_scope(entry, index_width, part);
}

proof fn lemma_row_from_live(entry: EntryModel, index_width: nat, part: Seq<char>)
    requires
        stands_in(part, row_parts(entry, index_width).1),
    ensures
        stands_in(part, entry_row(entry, index_width)),
{
    let (a, b, c, d) = row_parts(entry, index_width);
    lemma_stands_before(part, b, "  "@);
    lemma_stands_before(part, b + "  "@, scope_cell(entry.scope));
    lemma_row_from_scope(entry, index_width, part);
}

proof fn lemma_row_holds_live(entry: EntryModel, index_width: nat, part: Seq<char>)
    requires
        stands_in(part, live_cell(entry.process_position)),
    ensures
        stands_in(part, entry_row(entry, index_width)),
{
    let (a, b, c, d) = row_parts(entry, index_width);
    lemma_stands_behind(part, live_cell(entry.process_position), a + "  "@);
    lemma_row_from_live(entry, index_width, part);
}

proof fn lemma_row_holds_index(entry: EntryModel, index_width: nat, part: Seq<char>)
    requires
        stands_in(part, padded_left(decimal(entry.index as nat), index_width)),
    ensures
        stands_in(part, entry_row(entry, index_width)),
{
    let (a, b, c, d) = row_parts(entry, index_width);
    lemma_stands_behind(part, padded_left(decimal(entry.index as nat), index_width), "  "@);
    lemma_stands_before(part, a, "  "@);
    lemma_stands_before(part, a + "  "@, live_cell(entry.process_position));
    lemma_row_from_live(entry, index_width, part);
}

proof fn lemma_row_holds_directory(entry: EntryModel, index_width: nat)
    ensures
        stands_in("  "@ + entry.effective() + "\n"@, entry_row(entry, index_width)),
{
    let d = row_parts(entry, index_width).3;
    let part = "  "@ + entry.effective() + "\n"@;
    let stored = stored_line(entry, index_width);
    lemma_stands_at(d, part, stored, d + "  "@ + entry.effective() + "\n"@ + stored);
}

proof fn lemma_row_holds_stored(entry: EntryModel, index_width: nat, part: Seq<char>)
    requires
        stands_in(part, stored_line(entry, index_width)),
    ensures
        stands_in(part, entry_row(entry, index_width)),
{
    let d = row_parts(entry, index_width).3;
    lemma_stands_behind(
        part,
        stored_line(entry, index_width),
        d + "  "@ + entry.effective() + "\n"@,
    );
}

proof fn lemma_padded_holds(text: Seq<char>, width: nat)
    ensures
        stands_in(text, padded_left(text, width)),
        stands_in(text, padded_right(text, width)),
{
    let none = Seq::<char>::empty();
    if text.len() < width {
        let fill = blanks((width - text.len()) as nat);
        lemma_stands_at(fill, text, none, padded_left(text, width));
        lemma_stands_at(none, text, fill, padded_right(text, width));
    } else {
        lemma_stands_at(none, text, none, text);
    }
}

/// Columns line up: in a row without control sequences the directory starts right behind the
/// column headers' own, and so does the text as stored.
pub proof fn the_directories_line_up(entry: EntryModel, index_width: nat)
    requires
        decimal(entry.index as nat).len() <= index_width,
        entry.process_position is Some,
        decimal(entry.process_position->0 as nat).len() <= 4,
        entry.scope != PathScope::ProcessOnly,
        entry.value_kind is Some,
    ensures
        ({
            let row = entry_row(entry, index_width);
            let column = (index_width + 39) as int;
            &&& row.len() >= column + entry.effective().len() + 1
            &&& row.subrange(column, column + entry.effective().len()) == entry.effective()
            &&& row[column + entry.effective().len()] == '\n'
        }),
{
    reveal_strlit("  ");
    reveal_strlit("\n");
    reveal_strlit("machine");
    reveal_strlit("user");
    reveal_strlit("REG_SZ");
    reveal_strlit("REG_EXPAND_SZ");
    let row = entry_row(entry, index_width);
    let index = padded_left(decimal(entry.index as nat), index_width);
    let live = live_cell(entry.process_position);
    let scope = scope_cell(entry.scope);
    let kind = kind_cell(entry.value_kind);
    let head = "  "@ + index + "  "@ + live + "  "@ + scope + "  "@ + kind + "  "@;
    assert(index.len() == index_width);
    assert(live.len() == 4);
    assert(scope.len() == 12);
    assert(kind.len() == 13);
    assert(head.len() == index_width + 39);
    assert(row =~= head + entry.effective() + "\n"@ + stored_line(entry, index_width));
    assert(row.subrange(
        head.len() as int,
        (head.len() + entry.effective().len()) as int,
    ) =~= entry.effective());
}

/// The composition lists the row of every entry, in order, and nothing is in it when there
/// are no entries but a note to that effect.
pub proof fn every_entry_has_its_row(entries: Seq<EntryModel>, i: int)
    requires
        0 <= i < entries.len(),
    ensures
        stands_in(entry_row(entries[i], index_column(entries)), composition_section(entries)),
        entry_rows(entries, index_column(entries)) == entry_rows(
            entries.take(i),
            index_column(entries),
        ) + entry_row(entries[i], index_column(entries)) + entry_rows(
            entries.skip(i + 1),
            index_column(entries),
        ),
{
    let width = index_column(entries);
    lemma_rows_split(entries, i, width);
    let rows = entry_rows(entries, width);
    lemma_stands_at(
        entry_rows(entries.take(i), width),
        entry_row(entries[i], width),
        entry_rows(entries.skip(i + 1), width),
        rows,
    );
    let top = heading_lines("PATH composition"@, composition_summary(entries));
    lemma_stands_deeper(
        entry_row(entries[i], width),
        rows,
        top + header_line(width),
        restart_hint(unseen_in(entries).len()),
        composition_section(entries),
    );
}

proof fn lemma_rows_split(entries: Seq<EntryModel>, i: int, width: nat)
    requires
        0 <= i < entries.len(),
    ensures
        entry_rows(entries, width) == entry_rows(entries.take(i), width) + entry_row(
            entries[i],
            width,
        ) + entry_rows(entries.skip(i + 1), width),
    decreases entries.len(),
{
    let fewer = entries.drop_last();
    if i == fewer.len() {
        assert(entries.take(i) =~= fewer);
        assert(entries.skip(i + 1) =~= Seq::empty());
        let nothing = entry_rows(entries.skip(i + 1), width);
        assert(nothing =~= Seq::empty());
        lemma_regrouped(
            entry_rows(fewer, width),
            entry_row(entries[i], width),
            nothing,
            nothing,
        );
    } else {
        lemma_rows_split(fewer, i, width);
        let tail = entries.skip(i + 1);
        assert(fewer.take(i) =~= entries.take(i));
        assert(tail.drop_last() =~= fewer.skip(i + 1));
        assert(tail.last() == entries.last());
        lemma_regrouped(
            entry_rows(entries.take(i), width),
            entry_row(entries[i], width),
            entry_rows(fewer.skip(i + 1), width),
            entry_row(entries.last(), width),
        );
    }
}

proof fn lemma_regrouped(a: Seq<char>, b: Seq<char>, c: Seq<char>, d: Seq<char>)
    ensures
        (a + b + c) + d == a + b + (c + d),
        c.len() == 0 ==> a + b + c == a + b,
{
    assert((a + b + c) + d =~= a + b + (c + d));
    if c.len() == 0 {
        assert(a + b + c =~= a + b);
    }
}

/// Every finding has a row, which says what it is, of which entry and of which directory.
pub proof fn every_finding_has_its_row(entries: Seq<EntryModel>, i: int, k: int)
    requires
        0 <= i < entries.len(),
        0 <= k < entries[i].findings.len(),
    ensures
        ({
            let entry = entries[i];
            let finding = entry.findings[k];
            let row = finding_row(entry, finding, index_column(entries), label_column(entries));
            &&& stands_in(row, findings_section(entries))
            &&& stands_in(decimal(entry.index as nat), row)
            &&& stands_in(finding_name(finding), row)
            &&& stands_in("  "@ + entry.effective() + "\n"@, row)
        }),
{
    let entry = entries[i];
    let finding = entry.findings[k];
    let width = index_column(entries);
    let labels = label_column(entries);
    let row = finding_row(entry, finding, width, labels);
    lemma_finding_rows(entries, i, k, width, labels);
    lemma_some_findings(entries, i);
    let rows = finding_rows(entries, width, labels);
    let none = Seq::<char>::empty();
    lemma_stands_deeper(
        row,
        rows,
        heading_lines("Findings"@, decimal(finding_count(entries))),
        none,
        findings_section(entries),
    );
    let index = padded_left(decimal(entry.index as nat), width);
    let name = finding_name(finding);
    let label = padded_right(name, labels);
    let style = style_of(finding);
    let end = "  "@ + entry.effective() + "\n"@;
    lemma_padded_holds(decimal(entry.index as nat), width);
    lemma_padded_holds(name, labels);
    lemma_stands_deeper(
        decimal(entry.index as nat),
        index,
        "  "@,
        "  "@ + styled(style, label) + end,
        row,
    );
    lemma_stands_deeper(
        name,
        label,
        "  "@ + index + "  "@ + style.codes(),
        style.reset() + end,
        row,
    );
    lemma_stands_at("  "@ + index + "  "@ + styled(style, label), end, none, row);
}

proof fn lemma_some_findings(entries: Seq<EntryModel>, i: int)
    requires
        0 <= i < entries.len(),
    ensures
        finding_count(entries) >= entries[i].findings.len(),
    decreases entries.len(),
{
    if i < entries.len() - 1 {
        assert(entries.drop_last()[i] == entries[i]);
        lemma_some_findings(entries.drop_last(), i);
    }
}

proof fn lemma_finding_rows(entries: Seq<EntryModel>, i: int, k: int, width: nat, labels: nat)
    requires
        0 <= i < entries.len(),
        0 <= k < entries[i].findings.len(),
    ensures
        stands_in(
            finding_row(entries[i], entries[i].findings[k], width, labels),
            finding_rows(entries, width, labels),
        ),
    decreases entries.len(),
{
    let fewer = entries.drop_last();
    let row = finding_row(entries[i], entries[i].findings[k], width, labels);
    let before = finding_rows(fewer, width, labels);
    let own = rows_of(entries.last(), entries.last().findings, width, labels);
    let none = Seq::<char>::empty();
    if i < fewer.len() {
        assert(fewer[i] == entries[i]);
        lemma_finding_rows(fewer, i, k, width, labels);
        lemma_stands_deeper(row, before, none, own, finding_rows(entries, width, labels));
    } else {
        lemma_rows_of(entries.last(), entries.last().findings, k, width, labels);
        lemma_stands_deeper(row, own, before, none, finding_rows(entries, width, labels));
    }
}

proof fn lemma_rows_of(
    entry: EntryModel,
    findings: Seq<Finding>,
    k: int,
    width: nat,
    labels: nat,
)
    requires
        0 <= k < findings.len(),
    ensures
        stands_in(
            finding_row(entry, findings[k], width, labels),
            rows_of(entry, findings, width, labels),
        ),
    decreases findings.len(),
{
    let fewer = findings.drop_last();
    let row = finding_row(entry, findings[k], width, labels);
    let before = rows_of(entry, fewer, width, labels);
    let last = finding_row(entry, findings.last(), width, labels);
    let none = Seq::<char>::empty();
    if k < fewer.len() {
        assert(fewer[k] == findings[k]);
        lemma_rows_of(entry, fewer, k, width, labels);
        lemma_stands_deeper(row, before, none, last, rows_of(entry, findings, width, labels));
    } else {
        lemma_stands_at(before, row, none, rows_of(entry, findings, width, labels));
    }
}

/// What is broken is shown as broken, what is untidy as untidy, and a repeat says which entry
/// it repeats.
pub proof fn a_finding_says_what_it_is(first_seen_at: usize)
    ensures
        finding_name(Finding::Missing) == "missing"@,
        finding_name(Finding::NotADirectory) == "not a directory"@,
        finding_name(Finding::Empty) == "empty segment"@,
        finding_name(Finding::Relative) == "relative"@,
        finding_name(Finding::Unreadable) == "unreadable"@,
        finding_name(Finding::Duplicate { first_seen_at }) == "duplicate of #"@ + decimal(
            first_seen_at as nat,
        ),
        style_of(Finding::Missing).colour == Some(Colour::Red),
        style_of(Finding::NotADirectory).colour == Some(Colour::Red),
        style_of(Finding::Unreadable).colour == Some(Colour::Red),
        style_of(Finding::Duplicate { first_seen_at }).colour == Some(Colour::Yellow),
        style_of(Finding::Empty).colour == Some(Colour::Yellow),
        style_of(Finding::Relative).colour == Some(Colour::Yellow),
{
}

/// One place of a contested name wins at most: the first that the process can reach. The
/// others it can reach are hidden, and those it cannot are unseen.
pub proof fn the_first_reachable_place_wins(occurrences: Seq<OccurrenceModel>, position: int)
    requires
        0 <= position < occurrences.len(),
    ensures
        ({
            let marker = part_of(occurrences, position).0;
            let first = occurrences[position].process_position is Some && forall|k: int|
                0 <= k < position ==> (#[trigger] occurrences[k]).process_position is None;
            &&& first ==> marker == "wins  "@
            &&& !first && occurrences[position].process_position is Some ==> marker == "hidden"@
            &&& occurrences[position].process_position is None ==> marker == "unseen"@
            &&& stands_in(marker, occurrence_row(occurrences, position))
        }),
{
    live_winner_is_the_first_reachable(occurrences);
    let occurrence = occurrences[position];
    let (marker, style) = part_of(occurrences, position);
    lemma_stands_at(
        "    "@ + style.codes(),
        marker,
        "  #"@ + padded_right(decimal(occurrence.entry_index as nat), 3) + " "@ + joined_path(
            occurrence.directory,
            occurrence.file_name,
        ) + (if occurrence.is_reparse_point {
            "  (reparse point, not followed)"@
        } else {
            ""@
        }) + style.reset() + "\n"@,
        occurrence_row(occurrences, position),
    );
}

/// A place of a contested name is shown with its path, its entry, and whether it is a reparse
/// point.
pub proof fn a_place_is_shown_with_its_path(occurrences: Seq<OccurrenceModel>, position: int)
    requires
        0 <= position < occurrences.len(),
    ensures
        ({
            let occurrence = occurrences[position];
            let row = occurrence_row(occurrences, position);
            &&& stands_in(joined_path(occurrence.directory, occurrence.file_name), row)
            &&& stands_in("  #"@ + decimal(occurrence.entry_index as nat), row)
            &&& occurrence.is_reparse_point ==> stands_in(
                "  (reparse point, not followed)"@,
                row,
            )
        }),
{
    let occurrence = occurrences[position];
    let (marker, style) = part_of(occurrences, position);
    let number = decimal(occurrence.entry_index as nat);
    let path = joined_path(occurrence.directory, occurrence.file_name);
    let note = if occurrence.is_reparse_point {
        "  (reparse point, not followed)"@
    } else {
        ""@
    };
    lemma_cells_of_a_place(
        "    "@ + style.codes() + marker,
        "  #"@,
        number,
        path,
        note,
        style.reset(),
    );
}

proof fn lemma_cells_of_a_place(
    head: Seq<char>,
    sign: Seq<char>,
    number: Seq<char>,
    path: Seq<char>,
    note: Seq<char>,
    tail: Seq<char>,
)
    ensures
        ({
            let row = head + sign + padded_right(number, 3) + " "@ + path + note + tail + "\n"@;
            stands_in(path, row) && stands_in(sign + number, row) && stands_in(note, row)
        }),
{
    let padded = padded_right(number, 3);
    let numbered = head + sign + padded;
    let none = Seq::<char>::empty();
    let fill = if number.len() < 3 {
        blanks((3 - number.len()) as nat)
    } else {
        none
    };
    lemma_stands_at(head, sign + number, fill, numbered);
    lemma_stands_before(sign + number, numbered, " "@);
    lemma_stands_before(sign + number, numbered + " "@, path);
    lemma_stands_before(sign + number, numbered + " "@ + path, note);
    lemma_stands_before(sign + number, numbered + " "@ + path + note, tail);
    lemma_stands_before(sign + number, numbered + " "@ + path + note + tail, "\n"@);

    lemma_stands_at(numbered + " "@, path, none, numbered + " "@ + path);
    lemma_stands_before(path, numbered + " "@ + path, note);
    lemma_stands_before(path, numbered + " "@ + path + note, tail);
    lemma_stands_before(path, numbered + " "@ + path + note + tail, "\n"@);

    lemma_stands_at(numbered + " "@ + path, note, none, numbered + " "@ + path + note);
    lemma_stands_before(note, numbered + " "@ + path + note, tail);
    lemma_stands_before(note, numbered + " "@ + path + note + tail, "\n"@);
}

/// Every contested name is shown with the row of every place it was found in.
pub proof fn every_contested_name_is_shown(report: ReportModel, i: int, position: int)
    requires
        report.capabilities.contains(Capability::ShadowDetection),
        0 <= i < report.shadowed().len(),
        0 <= position < report.shadowed()[i].occurrences.len(),
    ensures
        stands_in(report.shadowed()[i].stem, executables_section(report)),
        stands_in(
            occurrence_row(report.shadowed()[i].occurrences, position),
            executables_section(report),
        ),
{
    let names = report.shadowed();
    let resolved = names[i];
    let block = contested_block(resolved);
    let none = Seq::<char>::empty();
    let count = resolved.occurrences.len() as int;
    let rows = occurrence_rows(resolved.occurrences, count);
    let row = occurrence_row(resolved.occurrences, position);
    lemma_occurrence_shown(resolved.occurrences, position, count);
    lemma_stands_deeper(row, rows, name_line(resolved), fresh_line(resolved), block);
    let rest = if resolved.is_pathext_only() {
        "  "@ + styled(muted_style(), "one directory, decided by PATHEXT order"@) + "\n"@
    } else {
        "\n"@
    };
    lemma_stands_at(
        "  "@ + heading_style().codes(),
        resolved.stem,
        heading_style().reset() + rest,
        name_line(resolved),
    );
    lemma_stands_deeper(
        resolved.stem,
        name_line(resolved),
        none,
        rows + fresh_line(resolved),
        block,
    );
    lemma_block_shown(names, i, row);
    lemma_block_shown(names, i, resolved.stem);
    let summary = decimal(names.len()) + " of "@ + decimal(report.executables.len()) + " names"@;
    let top = heading_lines("Shadowed executables"@, summary) + note_line(
        "Ranked as this process resolves them. A copy this process cannot reach is\n  marked unseen, and a name a new shell would resolve differently says so."@,
    ) + "\n"@;
    lemma_stands_deeper(row, contested_blocks(names), top, none, executables_section(report));
    lemma_stands_deeper(
        resolved.stem,
        contested_blocks(names),
        top,
        none,
        executables_section(report),
    );
}

proof fn lemma_occurrence_shown(occurrences: Seq<OccurrenceModel>, position: int, shown: int)
    requires
        0 <= position < shown <= occurrences.len(),
    ensures
        stands_in(
            occurrence_row(occurrences, position),
            occurrence_rows(occurrences, shown),
        ),
    decreases shown,
{
    let row = occurrence_row(occurrences, position);
    let before = occurrence_rows(occurrences, shown - 1);
    let last = occurrence_row(occurrences, shown - 1);
    let none = Seq::<char>::empty();
    if position < shown - 1 {
        lemma_occurrence_shown(occurrences, position, shown - 1);
        lemma_stands_deeper(row, before, none, last, occurrence_rows(occurrences, shown));
    } else {
        lemma_stands_at(before, row, none, occurrence_rows(occurrences, shown));
    }
}

proof fn lemma_block_shown(names: Seq<ResolvedModel>, i: int, part: Seq<char>)
    requires
        0 <= i < names.len(),
        stands_in(part, contested_block(names[i])),
    ensures
        stands_in(part, contested_blocks(names)),
    decreases names.len(),
{
    let fewer = names.drop_last();
    let before = contested_blocks(fewer);
    let last = contested_block(names.last());
    let none = Seq::<char>::empty();
    if i < fewer.len() {
        assert(fewer[i] == names[i]);
        lemma_block_shown(fewer, i, part);
        lemma_stands_deeper(part, before, none, last, contested_blocks(names));
    } else {
        lemma_stands_deeper(part, last, before, none, contested_blocks(names));
    }
}

/// A name says what a new process would run exactly where that comes from another entry than
/// what this one runs.
pub proof fn a_different_fresh_winner_is_pointed_out(resolved: ResolvedModel)
    ensures
        resolved.winner_depends_on_context() ==> resolved.fresh_winner() is Some && stands_in(
            "a new process would run "@ + joined_path(
                resolved.fresh_winner()->0.directory,
                resolved.fresh_winner()->0.file_name,
            ),
            fresh_line(resolved),
        ),
        !resolved.winner_depends_on_context() ==> fresh_line(resolved).len() == 0,
{
    if resolved.winner_depends_on_context() {
        let fresh = resolved.fresh_winner()->0;
        let path = joined_path(fresh.directory, fresh.file_name);
        reveal_strlit("note    a new process would run ");
        reveal_strlit("a new process would run ");
        reveal_strlit("note    ");
        assert("note    a new process would run "@ =~= "note    "@ + "a new process would run "@);
        lemma_stands_at(
            "    "@ + muted_style().codes() + "note    "@,
            "a new process would run "@ + path,
            muted_style().reset() + "\n"@,
            fresh_line(resolved),
        );
    }
}

/// A report shows the composition, the findings and the contested names, in that order, and
/// the contested names alone where only they were asked for.
pub proof fn a_report_has_its_sections(report: ReportModel, entries: Seq<EntryModel>)
    ensures
        report_text(report, entries, false) == composition_section(entries) + findings_section(
            entries,
        ) + executables_section(report),
        report_text(report, entries, true) == executables_section(report),
{
}

/// A heading shows its title and its summary, a note its text.
pub proof fn a_heading_shows_its_summary(title: Seq<char>, summary: Seq<char>)
    ensures
        stands_in(title, heading_lines(title, summary)),
        stands_in("("@ + summary + ")"@, heading_lines(title, summary)),
        stands_in(title, note_line(title)),
{
    let style = heading_style();
    reveal_strlit("  (");
    reveal_strlit("(");
    reveal_strlit(")");
    reveal_strlit("  ");
    reveal_strlit("\n\n");
    reveal_strlit(")\n\n");
    let lines = heading_lines(title, summary);
    lemma_stands_at(
        "\n"@ + style.codes(),
        title,
        style.reset() + "  ("@ + summary + ")\n\n"@,
        lines,
    );
    assert("  ("@ =~= "  "@ + "("@);
    assert(")\n\n"@ =~= ")"@ + "\n\n"@);
    lemma_stands_at(
        "\n"@ + styled(style, title) + "  "@,
        "("@ + summary + ")"@,
        "\n\n"@,
        lines,
    );
    lemma_stands_at(
        "  "@ + muted_style().codes(),
        title,
        muted_style().reset() + "\n"@,
        note_line(title),
    );
}

/// The sections say how much there is: how many entries of each scope, how many findings, and
/// how many of all names are contested.
pub proof fn the_sections_say_how_much_there_is(
    entries: Seq<EntryModel>,
    report: ReportModel,
)
    ensures
        stands_in(
            "("@ + (decimal(of_scope(entries, PathScope::Machine).len()) + " machine, "@ + decimal(
                of_scope(entries, PathScope::User).len(),
            ) + " user, "@ + decimal(of_scope(entries, PathScope::ProcessOnly).len())
                + " injected at runtime"@) + ")"@,
            composition_section(entries),
        ),
        stands_in("("@ + decimal(finding_count(entries)) + ")"@, findings_section(entries)),
        report.capabilities.contains(Capability::ShadowDetection) ==> stands_in(
            "("@ + (decimal(report.shadowed().len()) + " of "@ + decimal(report.executables.len())
                + " names"@) + ")"@,
            executables_section(report),
        ),
        !report.capabilities.contains(Capability::ShadowDetection) ==> stands_in(
            "("@ + "not computed"@ + ")"@,
            executables_section(report),
        ),
{
    let summary = composition_summary(entries);
    let top = heading_lines("PATH composition"@, summary);
    a_heading_shows_its_summary("PATH composition"@, summary);
    let part = "("@ + summary + ")"@;
    if entries.len() == 0 {
        lemma_stands_before(part, top, note_line("No entries in scope."@));
    } else {
        let width = index_column(entries);
        lemma_stands_before(part, top, header_line(width));
        lemma_stands_before(part, top + header_line(width), entry_rows(entries, width));
        lemma_stands_before(
            part,
            top + header_line(width) + entry_rows(entries, width),
            restart_hint(unseen_in(entries).len()),
        );
    }
    lemma_findings_counted(entries);
    lemma_names_counted(report);
}

proof fn lemma_findings_counted(entries: Seq<EntryModel>)
    ensures
        stands_in("("@ + decimal(finding_count(entries)) + ")"@, findings_section(entries)),
{
    let summary = decimal(finding_count(entries));
    let top = heading_lines("Findings"@, summary);
    let part = "("@ + summary + ")"@;
    a_heading_shows_its_summary("Findings"@, summary);
    lemma_stands_before(part, top, note_line("Nothing to report."@));
    lemma_stands_before(
        part,
        top,
        finding_rows(entries, index_column(entries), label_column(entries)),
    );
}

proof fn lemma_names_counted(report: ReportModel)
    ensures
        report.capabilities.contains(Capability::ShadowDetection) ==> stands_in(
            "("@ + (decimal(report.shadowed().len()) + " of "@ + decimal(report.executables.len())
                + " names"@) + ")"@,
            executables_section(report),
        ),
        !report.capabilities.contains(Capability::ShadowDetection) ==> stands_in(
            "("@ + "not computed"@ + ")"@,
            executables_section(report),
        ),
{
    let title = "Shadowed executables"@;
    if report.capabilities.contains(Capability::ShadowDetection) {
        let names = report.shadowed();
        let summary = decimal(names.len()) + " of "@ + decimal(report.executables.len())
            + " names"@;
        let top = heading_lines(title, summary);
        let part = "("@ + summary + ")"@;
        a_heading_shows_its_summary(title, summary);
        if names.len() == 0 {
            lemma_stands_before(
                part,
                top,
                note_line("No executable name resolves from more than one place."@),
            );
        } else {
            let ranked = note_line(
                "Ranked as this process resolves them. A copy this process cannot reach is\n  marked unseen, and a name a new shell would resolve differently says so."@,
            );
            lemma_stands_before(part, top, ranked);
            lemma_stands_before(part, top + ranked, "\n"@);
            lemma_stands_before(part, top + ranked + "\n"@, contested_blocks(names));
        }
    } else {
        a_heading_shows_its_summary(title, "not computed"@);
        lemma_stands_before(
            "("@ + "not computed"@ + ")"@,
            heading_lines(title, "not computed"@),
            note_line(
                "Executable enumeration did not run, so the empty result above says\n  nothing about shadowing."@,
            ),
        );
    }
}

/// A section with nothing in it says so, and a section with something in it says nothing of
/// the kind.
pub proof fn an_empty_section_says_so(entries: Seq<EntryModel>)
    ensures
        entries.len() == 0 ==> stands_in("No entries in scope."@, composition_section(entries)),
        finding_count(entries) == 0 ==> stands_in(
            "Nothing to report."@,
            findings_section(entries),
        ),
{
    if entries.len() == 0 {
        a_heading_shows_its_summary("No entries in scope."@, Seq::empty());
        lemma_stands_behind(
            "No entries in scope."@,
            note_line("No entries in scope."@),
            heading_lines("PATH composition"@, composition_summary(entries)),
        );
    }
    if finding_count(entries) == 0 {
        a_heading_shows_its_summary("Nothing to report."@, Seq::empty());
        lemma_stands_behind(
            "Nothing to report."@,
            note_line("Nothing to report."@),
            heading_lines("Findings"@, decimal(finding_count(entries))),
        );
    }
}

/// A contest inside one directory is marked as such, and no other is.
pub proof fn a_contest_inside_one_directory_is_marked(resolved: ResolvedModel)
    ensures
        resolved.is_pathext_only() ==> stands_in(
            "one directory, decided by PATHEXT order"@,
            name_line(resolved),
        ),
        !resolved.is_pathext_only() ==> name_line(resolved) == "  "@ + styled(
            heading_style(),
            resolved.stem,
        ) + "\n"@,
{
    if resolved.is_pathext_only() {
        let name = "  "@ + styled(heading_style(), resolved.stem) + "  "@;
        let text = "one directory, decided by PATHEXT order"@;
        lemma_stands_at(
            name + muted_style().codes(),
            text,
            muted_style().reset() + "\n"@,
            name_line(resolved),
        );
    }
}

/// The columns have these headers, in this order.
pub proof fn the_columns_have_their_headers(index_width: nat)
    ensures
        stands_in("IDX"@, header_line(index_width)),
        stands_in("DIRECTORY"@, header_line(index_width)),
        header_line(index_width) == "  "@ + heading_style().codes() + padded_left(
            "IDX"@,
            index_width,
        ) + "  "@ + padded_left("LIVE"@, 4) + "  "@ + padded_right("SCOPE"@, 12) + "  "@
            + padded_right("VALUE TYPE"@, 13) + "  "@ + "DIRECTORY"@ + heading_style().reset()
            + "\n"@,
{
    lemma_padded_holds("IDX"@, index_width);
    let idx = padded_left("IDX"@, index_width);
    let style = heading_style();
    let cells = "  "@ + padded_left("LIVE"@, 4) + "  "@ + padded_right("SCOPE"@, 12) + "  "@
        + padded_right("VALUE TYPE"@, 13) + "  "@;
    let line = header_line(index_width);
    lemma_stands_deeper(
        "IDX"@,
        idx,
        "  "@ + style.codes(),
        cells + "DIRECTORY"@ + style.reset() + "\n"@,
        line,
    );
    lemma_stands_at(
        "  "@ + style.codes() + idx + cells,
        "DIRECTORY"@,
        style.reset() + "\n"@,
        line,
    );
}

} // verus!
