//! Turning stored `PATH` text into the ordered entry list Windows resolves.
//!
//! Windows composes the effective `PATH` as machine entries first, then user entries.
//! Getting that backwards inverts every later verdict about which copy of a program
//! wins, so it is the one thing this module exists to get right.
//!
//! Everything here is pure. There is no registry, no filesystem and no environment
//! access except through an injected lookup.

use vstd::prelude::*;

use crate::registry::{ScopeModel, ScopeValue};
use crate::report::{EntryModel, Finding, PathEntry, PathScope, ValueKind};
use crate::text::{
    all_white, ascii_lower, ascii_lowercase, ascii_text, ends_with_char,
    equal_ignoring_ascii_case, free_of, is_path_separator, joined, lowercase, pieces,
    pieces_join_back, same_text, split_on, splitting_at_a_separator, starts_with_char, to_chars,
    trim, trim_end_separators, trimmed, trimming_is_idempotent,
    trimming_removes_surrounding_whitespace, white_space, without_trailing_separators,
};

verus! {

// ---- segments ----

/// Whether a quotation is still open at the end of a text.
pub open spec fn quoted(text: Seq<char>) -> bool
    decreases text.len(),
{
    if text.len() == 0 {
        false
    } else if text.last() == '"' {
        !quoted(text.drop_last())
    } else {
        quoted(text.drop_last())
    }
}

/// The parts of a text between the semicolons that stand outside quotation marks.
pub open spec fn unquoted_parts(text: Seq<char>) -> Seq<Seq<char>>
    decreases text.len(),
{
    if text.len() == 0 {
        seq![Seq::empty()]
    } else {
        let before = unquoted_parts(text.drop_last());
        if text.last() == ';' && !quoted(text.drop_last()) {
            before.push(Seq::empty())
        } else {
            before.drop_last().push(before.last().push(text.last()))
        }
    }
}

/// The segments of a `PATH` value. An empty value has none at all; an empty segment
/// inside a non-empty value is kept.
pub open spec fn segments(text: Seq<char>) -> Seq<Seq<char>> {
    if text.len() == 0 {
        Seq::empty()
    } else {
        unquoted_parts(text)
    }
}

/// Split a `PATH` value on unquoted separators.
///
/// An empty value contributes no entries at all. An empty *segment* inside a non-empty
/// value is kept, because a stray `;` is a real finding.
pub fn split_segments(text: &str) -> (split: Vec<&str>)
    ensures
        split.deep_view() == segments(text@),
{
    let mut split: Vec<&str> = Vec::new();
    let chars = to_chars(text);
    if chars.len() == 0 {
        assert(split.deep_view() =~= segments(text@));
        return split;
    }
    let mut start: usize = 0;
    let mut inside = false;
    let mut i: usize = 0;
    assert(text@.take(0) =~= Seq::empty());
    assert(unquoted_parts(text@.take(0)) =~= split.deep_view().push(text@.subrange(0, 0)));
    while i < chars.len()
        invariant
            chars@ == text@,
            start <= i <= chars.len(),
            inside == quoted(text@.take(i as int)),
            unquoted_parts(text@.take(i as int)) == split.deep_view().push(
                text@.subrange(start as int, i as int),
            ),
        decreases chars.len() - i,
    {
        let ghost before = split.deep_view();
        let ghost part = text@.subrange(start as int, i as int);
        assert(text@.take(i + 1).drop_last() =~= text@.take(i as int));
        if chars[i] == ';' && !inside {
            split.push(text.substring_char(start, i));
            start = i + 1;
            assert(split.deep_view() =~= before.push(part));
            assert(text@.subrange(start as int, i + 1) =~= Seq::empty());
        } else {
            if chars[i] == '"' {
                inside = !inside;
            }
            assert(before.push(part).drop_last() =~= before);
            assert(text@.subrange(start as int, i + 1) =~= part.push(text@[i as int]));
        }
        i += 1;
    }
    assert(text@.take(i as int) =~= text@);
    let ghost before = split.deep_view();
    split.push(text.substring_char(start, i));
    assert(split.deep_view() =~= before.push(text@.subrange(start as int, i as int)));
    split
}

/// Splitting loses nothing: the segments of a value joined by separators are the
/// value.
pub proof fn segments_join_back(text: Seq<char>)
    ensures
        joined(segments(text), ';') == text,
{
    if text.len() > 0 {
        lemma_parts_join_back(text);
    }
}

proof fn lemma_parts_join_back(text: Seq<char>)
    ensures
        unquoted_parts(text).len() >= 1,
        joined(unquoted_parts(text), ';') == text,
    decreases text.len(),
{
    if text.len() > 0 {
        lemma_parts_join_back(text.drop_last());
        let before = unquoted_parts(text.drop_last());
        let parts = unquoted_parts(text);
        if text.last() == ';' && !quoted(text.drop_last()) {
            assert(parts.drop_last() =~= before);
            assert(joined(parts, ';') =~= text);
        } else {
            assert(parts.drop_last() =~= before.drop_last());
            assert(joined(parts, ';') =~= joined(before, ';').push(text.last()));
            assert(text =~= text.drop_last().push(text.last()));
        }
    } else {
        assert(joined(unquoted_parts(text), ';') =~= text);
    }
}

// ---- environment references ----

/// Whether a lookup may answer a name with a value, or with none.
pub open spec fn answers<F: Fn(&str) -> Option<String>>(
    lookup: F,
    name: Seq<char>,
    value: Option<Seq<char>>,
) -> bool {
    exists|asked: &str, answer: Option<String>| #[trigger]
        call_ensures(lookup, (asked,), answer) && asked@ == name && answer.deep_view() == value
}

/// Whether a lookup takes every name.
pub open spec fn takes_any_name<F: Fn(&str) -> Option<String>>(lookup: F) -> bool {
    forall|name: &str| #[trigger] call_requires(lookup, (name,))
}

/// Whether a lookup always answers as one given environment does.
pub open spec fn reads<F: Fn(&str) -> Option<String>>(
    lookup: F,
    environment: spec_fn(Seq<char>) -> Option<Seq<char>>,
) -> bool {
    forall|name: &str, answer: Option<String>| #[trigger]
        call_ensures(lookup, (name,), answer) ==> answer.deep_view() == environment(name@)
}

/// A reference as it was written, percent signs included.
pub open spec fn reference(name: Seq<char>) -> Seq<char> {
    seq!['%'] + name + seq!['%']
}

/// What replaces a reference: the value of the name, or the reference itself when the
/// name is empty or has no value.
pub open spec fn substitute(name: Seq<char>, value: Option<Seq<char>>) -> Seq<char> {
    match value {
        Some(value) if name.len() > 0 => value,
        _ => reference(name),
    }
}

/// Whether the piece at a position, of a text cut at every percent sign, is the name in
/// a reference. References pair the percent signs off from the left, so every second
/// piece is a name, unless its closing percent sign is missing.
pub open spec fn is_name(parts: Seq<Seq<char>>, k: int) -> bool {
    0 <= k && k % 2 == 1 && k + 1 < parts.len()
}

/// The first pieces of a text cut at every percent sign, put back together with the
/// names in references replaced. `values` holds a value for each name, by position.
pub open spec fn substituted(
    parts: Seq<Seq<char>>,
    values: Seq<Option<Seq<char>>>,
    count: int,
) -> Seq<char>
    decreases count,
{
    if count <= 0 {
        Seq::empty()
    } else {
        let before = substituted(parts, values, count - 1);
        let last = count - 1;
        if is_name(parts, last) {
            before + substitute(parts[last], values[last])
        } else if last % 2 == 1 {
            before + (seq!['%'] + parts[last])
        } else {
            before + parts[last]
        }
    }
}

/// Whether a text may come out of expanding another: every reference is replaced by
/// what the lookup may answer for it.
pub open spec fn expands_to<F: Fn(&str) -> Option<String>>(
    lookup: F,
    raw: Seq<char>,
    expanded: Seq<char>,
) -> bool {
    let parts = pieces(raw, '%');
    exists|values: Seq<Option<Seq<char>>>|
        {
            &&& values.len() == parts.len()
            &&& forall|k: int|
                is_name(parts, k) && parts[k].len() > 0 ==> answers(
                    lookup,
                    parts[k],
                    #[trigger] values[k],
                )
            &&& expanded == #[trigger] substituted(parts, values, parts.len() as int)
        }
}

/// A text with every reference replaced by what an environment holds.
pub open spec fn expansion(
    raw: Seq<char>,
    environment: spec_fn(Seq<char>) -> Option<Seq<char>>,
) -> Seq<char> {
    let parts = pieces(raw, '%');
    substituted(parts, parts.map_values(environment), parts.len() as int)
}

/// Substitute `%NAME%` references, leaving anything unresolved verbatim.
///
/// An undefined name keeps its percent signs, and a lone `%` is just a character.
pub fn expand<F: Fn(&str) -> Option<String>>(raw: &str, lookup: &F) -> (expanded: String)
    requires
        takes_any_name(*lookup),
    ensures
        expands_to(*lookup, raw@, expanded@),
{
    let split = split_on(raw, '%');
    let ghost parts = pieces(raw@, '%');
    let ghost mut values: Seq<Option<Seq<char>>> = Seq::empty();
    let mut out = String::new();
    let mut i: usize = 0;
    while i < split.len()
        invariant
            takes_any_name(*lookup),
            split.deep_view() == parts,
            i <= split.len(),
            values.len() == i,
            forall|k: int|
                k < i && is_name(parts, k) && parts[k].len() > 0 ==> answers(
                    *lookup,
                    parts[k],
                    #[trigger] values[k],
                ),
            out@ == substituted(parts, values, i as int),
        decreases split.len() - i,
    {
        let part = split[i];
        assert(part@ == parts[i as int]);
        let ghost before = out@;
        let ghost old_values = values;
        let mut value: Option<String> = None;
        if i % 2 == 1 && i + 1 < split.len() {
            if !part.is_empty() {
                value = lookup(part);
                assert(answers(*lookup, parts[i as int], value.deep_view()));
            }
            match &value {
                Some(text) => {
                    out.append(text.as_str());
                },
                None => {
                    out.push('%');
                    out.append(part);
                    out.push('%');
                    assert(out@ =~= before + reference(part@));
                },
            }
        } else if i % 2 == 1 {
            out.push('%');
            out.append(part);
            assert(out@ =~= before + (seq!['%'] + part@));
        } else {
            out.append(part);
        }
        proof {
            values = values.push(value.deep_view());
            lemma_substituted_prefix(parts, old_values, values, i as int);
            assert forall|k: int|
                k < i + 1 && is_name(parts, k) && parts[k].len() > 0 implies answers(
                *lookup,
                parts[k],
                #[trigger] values[k],
            ) by {
                if k < i {
                    assert(values[k] == old_values[k]);
                }
            }
        }
        i += 1;
    }
    assert(i == parts.len());
    assert(out@ == substituted(parts, values, parts.len() as int));
    out
}

proof fn lemma_substituted_prefix(
    parts: Seq<Seq<char>>,
    left: Seq<Option<Seq<char>>>,
    right: Seq<Option<Seq<char>>>,
    count: int,
)
    requires
        forall|k: int| 0 <= k < count && is_name(parts, k) ==> {
            ||| #[trigger] left[k] == right[k]
            ||| parts[k].len() == 0
        },
    ensures
        substituted(parts, left, count) == substituted(parts, right, count),
    decreases count,
{
    if count > 0 {
        lemma_substituted_prefix(parts, left, right, count - 1);
        let last = count - 1;
        if is_name(parts, last) {
            assert(left[last] == right[last] || parts[last].len() == 0);
            assert(substitute(parts[last], left[last]) == substitute(parts[last], right[last]));
        }
    }
}

/// A lookup that always answers as one environment does leaves no choice: a text
/// expands to exactly its expansion in that environment.
pub proof fn expansion_follows_the_environment<F: Fn(&str) -> Option<String>>(
    lookup: F,
    environment: spec_fn(Seq<char>) -> Option<Seq<char>>,
    raw: Seq<char>,
    expanded: Seq<char>,
)
    requires
        reads(lookup, environment),
        expands_to(lookup, raw, expanded),
    ensures
        expanded == expansion(raw, environment),
{
    let parts = pieces(raw, '%');
    let values = choose|values: Seq<Option<Seq<char>>>|
        {
            &&& values.len() == parts.len()
            &&& forall|k: int|
                is_name(parts, k) && parts[k].len() > 0 ==> answers(
                    lookup,
                    parts[k],
                    #[trigger] values[k],
                )
            &&& expanded == #[trigger] substituted(parts, values, parts.len() as int)
        };
    lemma_substituted_prefix(parts, values, parts.map_values(environment), parts.len() as int);
}

/// A name nothing defines is left as it was written: in an environment without
/// variables every text expands to itself.
pub proof fn undefined_references_stay_verbatim(raw: Seq<char>)
    ensures
        expansion(raw, |name: Seq<char>| None) == raw,
{
    let nothing = |name: Seq<char>| -> Option<Seq<char>> { None };
    let parts = pieces(raw, '%');
    pieces_join_back(raw, '%');
    lemma_nothing_substituted(parts, parts.map_values(nothing), parts.len() as int);
    assert(parts.take(parts.len() as int) =~= parts);
}

/// A text without percent signs expands to itself in every environment.
pub proof fn plain_text_expands_to_itself(
    raw: Seq<char>,
    environment: spec_fn(Seq<char>) -> Option<Seq<char>>,
)
    requires
        !raw.contains('%'),
    ensures
        expansion(raw, environment) == raw,
{
    lemma_single_piece(raw, '%');
    let parts = pieces(raw, '%');
    reveal_with_fuel(substituted, 2);
    assert(expansion(raw, environment) =~= raw);
}

proof fn lemma_single_piece(text: Seq<char>, separator: char)
    requires
        !text.contains(separator),
    ensures
        pieces(text, separator) == seq![text],
    decreases text.len(),
{
    if text.len() > 0 {
        assert forall|i: int| 0 <= i < text.drop_last().len() implies text.drop_last()[i]
            != separator by {
            assert(text.contains(text[i]));
        }
        lemma_single_piece(text.drop_last(), separator);
        assert(text.contains(text.last()));
        assert(text.drop_last().push(text.last()) =~= text);
        assert(seq![text.drop_last()].drop_last().push(text) =~= seq![text]);
    } else {
        assert(text =~= Seq::empty());
    }
}

proof fn lemma_nothing_substituted(
    parts: Seq<Seq<char>>,
    values: Seq<Option<Seq<char>>>,
    count: int,
)
    requires
        1 <= count <= parts.len(),
        values.len() == parts.len(),
        forall|k: int| 0 <= k < values.len() ==> values[k] is None,
    ensures
        substituted(parts, values, count) == if is_name(parts, count - 1) {
            joined(parts.take(count), '%').push('%')
        } else {
            joined(parts.take(count), '%')
        },
    decreases count,
{
    let taken = parts.take(count);
    if count == 1 {
        reveal_with_fuel(substituted, 2);
        assert(substituted(parts, values, 1) =~= parts[0]);
    } else {
        lemma_nothing_substituted(parts, values, count - 1);
        assert(taken.drop_last() =~= parts.take(count - 1));
        assert(taken.last() == parts[count - 1]);
        if is_name(parts, count - 1) {
            assert(substitute(parts[count - 1], values[count - 1]) == reference(parts[count - 1]));
            assert(substituted(parts, values, count) =~= joined(taken, '%').push('%'));
        } else {
            assert(substituted(parts, values, count) =~= joined(taken, '%'));
        }
    }
}

// ---- directory names ----

/// A value without surrounding whitespace and without one matched pair of surrounding
/// quotation marks.
pub open spec fn unquoted(value: Seq<char>) -> Seq<char> {
    let outer = trimmed(value);
    if outer.len() >= 2 && outer[0] == '"' && outer.last() == '"' {
        trimmed(outer.subrange(1, outer.len() - 1))
    } else {
        outer
    }
}

/// Trim whitespace and strip one matched pair of surrounding quotes.
pub fn unwrap_quotes(value: &str) -> (name: &str)
    ensures
        name@ == unquoted(value@),
{
    proof {
        trimming_is_idempotent(value@);
    }
    let outer = trim(value);
    let length = outer.unicode_len();
    if length >= 2 && starts_with_char(outer, '"') && ends_with_char(outer, '"') {
        trim(outer.substring_char(1, length - 1))
    } else {
        outer
    }
}

/// Whether a directory name may come out of resolving one stored segment. Only a
/// `REG_EXPAND_SZ` is expanded; a `REG_SZ` holding percent signs is a literal name.
pub open spec fn resolves_to<F: Fn(&str) -> Option<String>>(
    lookup: F,
    raw: Seq<char>,
    kind: Option<ValueKind>,
    effective: Seq<char>,
) -> bool {
    if kind == Some(ValueKind::ExpandSz) {
        exists|expanded: Seq<char>| #[trigger]
            expands_to(lookup, raw, expanded) && effective == unquoted(expanded)
    } else {
        effective == unquoted(raw)
    }
}

/// The value Windows would actually resolve for one stored segment.
pub fn resolve<F: Fn(&str) -> Option<String>>(
    raw: &str,
    kind: Option<ValueKind>,
    lookup: &F,
) -> (effective: String)
    requires
        takes_any_name(*lookup),
    ensures
        resolves_to(*lookup, raw@, kind, effective@),
{
    match kind {
        Some(ValueKind::ExpandSz) => {
            let expanded = expand(raw, lookup);
            unwrap_quotes(expanded.as_str()).to_owned()
        },
        _ => unwrap_quotes(raw).to_owned(),
    }
}

/// A literal value is never expanded: whatever the environment holds, a percent sign in a
/// `REG_SZ` is part of the directory name.
pub proof fn a_literal_value_is_never_expanded<F: Fn(&str) -> Option<String>>(
    lookup: F,
    raw: Seq<char>,
    effective: Seq<char>,
)
    requires
        resolves_to(lookup, raw, Some(ValueKind::Sz), effective),
    ensures
        effective == unquoted(raw),
{
}

/// With a lookup that always answers as one environment does, a segment resolves to
/// exactly one directory name, and a `REG_SZ` to one that no environment can change.
pub proof fn resolution_follows_the_environment<F: Fn(&str) -> Option<String>>(
    lookup: F,
    environment: spec_fn(Seq<char>) -> Option<Seq<char>>,
    raw: Seq<char>,
    kind: Option<ValueKind>,
    effective: Seq<char>,
)
    requires
        reads(lookup, environment),
        resolves_to(lookup, raw, kind, effective),
    ensures
        kind == Some(ValueKind::ExpandSz) ==> effective == unquoted(expansion(raw, environment)),
        kind != Some(ValueKind::ExpandSz) ==> effective == unquoted(raw),
{
    if kind == Some(ValueKind::ExpandSz) {
        let expanded = choose|expanded: Seq<char>| #[trigger]
            expands_to(lookup, raw, expanded) && effective == unquoted(expanded);
        expansion_follows_the_environment(lookup, environment, raw, expanded);
    }
}

/// The part of a directory name that tells it from others, but for letter case.
/// Trailing separators do not count, except that a drive root keeps its own.
pub open spec fn key_text(effective: Seq<char>) -> Seq<char> {
    let stripped = without_trailing_separators(effective);
    if stripped.len() == 0 || stripped.last() == ':' {
        effective
    } else {
        stripped
    }
}

/// The key by which directories are told apart.
pub open spec fn key_of(effective: Seq<char>) -> Seq<char> {
    lowercase(key_text(effective))
}

/// The part of a directory name that tells it from others, but for letter case.
pub fn distinguishing_text(effective: &str) -> (text: &str)
    ensures
        text@ == key_text(effective@),
{
    let stripped = trim_end_separators(effective);
    // `C:\` must not collapse to `C:`; drive-relative and drive-root are genuinely
    // different locations.
    if stripped.is_empty() || ends_with_char(stripped, ':') {
        effective
    } else {
        stripped
    }
}

/// Key used to decide whether two entries name the same directory.
///
/// Textual on purpose. Canonicalising on disk would follow reparse points and fail on
/// a directory that does not exist, and both are facts worth reporting.
pub fn canonical_key(effective: &str) -> (key: String)
    ensures
        key@ == key_of(effective@),
{
    distinguishing_text(effective).to_lowercase()
}

/// One more separator at the end of a directory name does not make it another
/// directory, unless nothing else is left or a drive letter is.
pub proof fn a_trailing_separator_does_not_matter(effective: Seq<char>, separator: char)
    requires
        is_path_separator(separator),
        without_trailing_separators(effective).len() > 0,
        without_trailing_separators(effective).last() != ':',
    ensures
        key_of(effective.push(separator)) == key_of(effective),
{
    assert(effective.push(separator).drop_last() =~= effective);
}

/// ASCII directory names that differ only in letter case have the same key.
pub proof fn letter_case_does_not_matter(left: Seq<char>, right: Seq<char>)
    requires
        ascii_text(left),
        ascii_text(right),
        equal_ignoring_ascii_case(left, right),
    ensures
        key_of(left) == key_of(right),
{
    lemma_stripping_ignores_case(left, right);
    let kept = without_trailing_separators(left).len() as int;
    let a = key_text(left);
    let b = key_text(right);
    if kept > 0 {
        assert(ascii_lower(left[kept - 1]) == ascii_lower(right[kept - 1]));
        assert((left[kept - 1] == ':') == (right[kept - 1] == ':'));
    }
    assert forall|i: int| 0 <= i < a.len() implies ascii_lower(a[i]) == ascii_lower(b[i]) by {
        assert(a[i] == left[i]);
        assert(b[i] == right[i]);
    }
    assert(ascii_lowercase(a) =~= ascii_lowercase(b));
}

proof fn lemma_stripping_ignores_case(left: Seq<char>, right: Seq<char>)
    requires
        equal_ignoring_ascii_case(left, right),
    ensures
        ({
            let kept = without_trailing_separators(left).len() as int;
            &&& kept <= left.len()
            &&& without_trailing_separators(left) == left.take(kept)
            &&& without_trailing_separators(right) == right.take(kept)
        }),
    decreases left.len(),
{
    if left.len() > 0 {
        let last = left.len() - 1;
        assert(ascii_lower(left[last]) == ascii_lower(right[last]));
        if is_path_separator(left[last]) {
            assert forall|i: int| 0 <= i < last implies ascii_lower(
                #[trigger] left.drop_last()[i],
            ) == ascii_lower(right.drop_last()[i]) by {
                assert(ascii_lower(left[i]) == ascii_lower(right[i]));
            }
            lemma_stripping_ignores_case(left.drop_last(), right.drop_last());
        }
    }
    let kept = without_trailing_separators(left).len() as int;
    assert(without_trailing_separators(left) =~= left.take(kept));
    assert(without_trailing_separators(right) =~= right.take(kept));
}

/// Whether a character is an ASCII letter.
pub open spec fn ascii_letter(c: char) -> bool {
    ('A' <= c <= 'Z') || ('a' <= c <= 'z')
}

/// Whether a directory name is absolute by Windows' rules: it starts with two
/// separators, or with a drive letter, a colon and a separator.
pub open spec fn absolute(value: Seq<char>) -> bool {
    ||| value.len() >= 2 && is_path_separator(value[0]) && is_path_separator(value[1])
    ||| value.len() >= 3 && ascii_letter(value[0]) && value[1] == ':' && is_path_separator(
        value[2],
    )
}

/// Whether a `PATH` entry is absolute by Windows' rules.
///
/// Note that `\bin` is rooted but drive-relative, and `C:bin` is relative to the
/// drive's current directory, so neither is absolute.
pub fn is_absolute(value: &str) -> (is: bool)
    ensures
        is == absolute(value@),
{
    let chars = to_chars(value);
    if chars.len() >= 2 && (chars[0] == '\\' || chars[0] == '/') && (chars[1] == '\\' || chars[1]
        == '/') {
        return true;
    }
    chars.len() >= 3 && (('A' <= chars[0] && chars[0] <= 'Z') || ('a' <= chars[0] && chars[0]
        <= 'z')) && chars[1] == ':' && (chars[2] == '\\' || chars[2] == '/')
}

// ---- composition ----

/// One segment of a `PATH` value, with the directory name it resolves to.
pub struct Segment {
    /// Where the value came from.
    pub scope: PathScope,
    /// The type of the registry value, where there was one.
    pub value_kind: Option<ValueKind>,
    /// The segment as stored.
    pub raw: String,
    /// The directory name it resolves to.
    pub effective: String,
    /// The key that tells this directory from others.
    pub key: String,
}

/// The model of a [`Segment`]. Its key follows from the directory name.
pub ghost struct SegmentModel {
    pub scope: PathScope,
    pub value_kind: Option<ValueKind>,
    pub raw: Seq<char>,
    pub effective: Seq<char>,
}

impl View for Segment {
    type V = SegmentModel;

    open spec fn view(&self) -> SegmentModel {
        SegmentModel {
            scope: self.scope,
            value_kind: self.value_kind,
            raw: self.raw@,
            effective: self.effective@,
        }
    }
}

impl DeepView for Segment {
    type V = SegmentModel;

    open spec fn deep_view(&self) -> SegmentModel {
        self@
    }
}

impl Segment {
    /// Whether the key is the one the directory name calls for.
    pub open spec fn well_formed(self) -> bool {
        self.key@ == key_of(self.effective@)
    }

    /// Take a segment together with the directory name it resolves to.
    pub fn new(
        scope: PathScope,
        value_kind: Option<ValueKind>,
        raw: &str,
        effective: String,
    ) -> (segment: Self)
        ensures
            segment.well_formed(),
            segment@ == (SegmentModel { scope, value_kind, raw: raw@, effective: effective@ }),
    {
        let key = canonical_key(effective.as_str());
        Segment { scope, value_kind, raw: raw.to_owned(), effective, key }
    }
}

/// Whether every segment of a list has the key its directory name calls for.
pub open spec fn all_well_formed(segments: Seq<Segment>) -> bool {
    forall|i: int| 0 <= i < segments.len() ==> (#[trigger] segments[i]).well_formed()
}

/// The position of the first segment that names the directory with a given key.
/// An empty segment names no directory.
pub open spec fn first_naming(segments: Seq<SegmentModel>, key: Seq<char>) -> Option<int>
    decreases segments.len(),
{
    if segments.len() == 0 {
        None
    } else {
        match first_naming(segments.drop_last(), key) {
            Some(found) => Some(found),
            None => if segments.last().effective.len() > 0 && key_of(segments.last().effective)
                == key {
                Some(segments.len() - 1)
            } else {
                None
            },
        }
    }
}

/// The segments of the live process `PATH` that name a directory which neither the
/// registry nor an earlier segment names, in order.
pub open spec fn injected(stored: Seq<SegmentModel>, live: Seq<SegmentModel>) -> Seq<SegmentModel>
    decreases live.len(),
{
    if live.len() == 0 {
        Seq::empty()
    } else {
        let earlier = injected(stored, live.drop_last());
        let segment = live.last();
        if segment.effective.len() > 0 && first_naming(
            stored + earlier,
            key_of(segment.effective),
        ) is None {
            earlier.push(segment)
        } else {
            earlier
        }
    }
}

/// The findings about the segment at a position that follow from the order alone.
pub open spec fn order_findings(segments: Seq<SegmentModel>, i: int) -> Seq<Finding> {
    let effective = segments[i].effective;
    if effective.len() == 0 {
        seq![Finding::Empty]
    } else {
        let relative = if absolute(effective) {
            Seq::empty()
        } else {
            seq![Finding::Relative]
        };
        match first_naming(segments.take(i), key_of(effective)) {
            Some(first) => relative.push(Finding::Duplicate { first_seen_at: first as usize }),
            None => relative,
        }
    }
}

/// Where a directory sits in the live process `PATH`.
pub open spec fn live_position(live: Seq<SegmentModel>, effective: Seq<char>) -> Option<usize> {
    if effective.len() == 0 {
        None
    } else {
        match first_naming(live, key_of(effective)) {
            Some(position) => Some(position as usize),
            None => None,
        }
    }
}

/// The entry for the segment at a position of the composed order.
pub open spec fn entry_for(
    segments: Seq<SegmentModel>,
    live: Seq<SegmentModel>,
    i: int,
) -> EntryModel {
    let segment = segments[i];
    EntryModel {
        index: i as usize,
        scope: segment.scope,
        raw: segment.raw,
        expanded: if segment.effective == segment.raw {
            None
        } else {
            Some(segment.effective)
        },
        value_kind: segment.value_kind,
        process_position: live_position(live, segment.effective),
        findings: order_findings(segments, i),
    }
}

/// The entries composed from the segments the registry stores and those of the live
/// process `PATH`: one for each stored segment, in order, and after them one for each
/// directory injected at runtime.
pub open spec fn composed(stored: Seq<SegmentModel>, live: Seq<SegmentModel>) -> Seq<EntryModel> {
    let all = stored + injected(stored, live);
    Seq::new(all.len(), |i: int| entry_for(all, live, i))
}

/// The segments of the live process `PATH`. That text is already expanded, and it came
/// from no registry value.
pub open spec fn live_segments(process: Option<Seq<char>>) -> Seq<SegmentModel> {
    match process {
        Some(text) => Seq::new(
            segments(text).len(),
            |i: int|
                SegmentModel {
                    scope: PathScope::ProcessOnly,
                    value_kind: None,
                    raw: segments(text)[i],
                    effective: unquoted(segments(text)[i]),
                },
        ),
        None => Seq::empty(),
    }
}

/// How many segments a stored value contributes.
pub open spec fn segment_count(value: Option<ScopeModel>) -> nat {
    match value {
        Some(value) => segments(value.text).len(),
        None => 0,
    }
}

/// Whether a segment may be what the segment at a position of a stored value resolves
/// to.
pub open spec fn is_reading_of<F: Fn(&str) -> Option<String>>(
    lookup: F,
    scope: PathScope,
    value: ScopeModel,
    i: int,
    segment: SegmentModel,
) -> bool {
    &&& segment.scope == scope
    &&& segment.value_kind == Some(value.kind)
    &&& segment.raw == segments(value.text)[i]
    &&& resolves_to(lookup, segment.raw, segment.value_kind, segment.effective)
}

/// Whether some segments may be what the two stored values resolve to: all of the
/// machine value first, then all of the user value.
pub open spec fn is_reading<F: Fn(&str) -> Option<String>>(
    lookup: F,
    machine: Option<ScopeModel>,
    user: Option<ScopeModel>,
    stored: Seq<SegmentModel>,
) -> bool {
    let split = segment_count(machine) as int;
    &&& stored.len() == split + segment_count(user)
    &&& forall|i: int|
        0 <= i < split ==> is_reading_of(
            lookup,
            PathScope::Machine,
            machine->0,
            i,
            #[trigger] stored[i],
        )
    &&& forall|i: int|
        split <= i < stored.len() ==> is_reading_of(
            lookup,
            PathScope::User,
            user->0,
            i - split,
            #[trigger] stored[i],
        )
}

/// Find the first of some segments that names the directory with a given key.
fn find_key(list: &Vec<Segment>, count: usize, key: &String) -> (found: Option<usize>)
    requires
        all_well_formed(list@),
        count <= list.len(),
    ensures
        match found {
            Some(position) => position < count && first_naming(
                list.deep_view().take(count as int),
                key@,
            ) == Some(position as int),
            None => first_naming(list.deep_view().take(count as int), key@) is None,
        },
{
    let ghost all = list.deep_view();
    let mut i: usize = 0;
    assert(all.take(0) =~= Seq::empty());
    while i < count
        invariant
            all == list.deep_view(),
            all_well_formed(list@),
            i <= count <= list.len(),
            first_naming(all.take(i as int), key@) is None,
        decreases count - i,
    {
        assert(all.take(i + 1).drop_last() =~= all.take(i as int));
        assert(list@[i as int].well_formed());
        if !list[i].effective.as_str().is_empty() && list[i].key == *key {
            proof {
                lemma_first_naming_extends(all.take(count as int), key@, i + 1);
                assert(all.take(count as int).take(i + 1) =~= all.take(i + 1));
            }
            return Some(i);
        }
        i += 1;
    }
    None
}

proof fn lemma_first_naming_extends(list: Seq<SegmentModel>, key: Seq<char>, prefix: int)
    requires
        0 <= prefix <= list.len(),
        first_naming(list.take(prefix), key) is Some,
    ensures
        first_naming(list, key) == first_naming(list.take(prefix), key),
    decreases list.len(),
{
    if prefix < list.len() {
        assert(list.drop_last().take(prefix) =~= list.take(prefix));
        lemma_first_naming_extends(list.drop_last(), key, prefix);
    } else {
        assert(list.take(prefix) =~= list);
    }
}

/// Build one entry and record the order-dependent findings for it.
///
/// Findings that depend on the filesystem are added later, so this stays pure.
pub fn build(index: usize, all: &Vec<Segment>, live: &Vec<Segment>) -> (entry: PathEntry)
    requires
        index < all.len(),
        all_well_formed(all@),
        all_well_formed(live@),
    ensures
        entry@ == entry_for(all.deep_view(), live.deep_view(), index as int),
{
    let segment = &all[index];
    assert(segment.well_formed());
    assert(segment@ == all.deep_view()[index as int]);
    let mut findings: Vec<Finding> = Vec::new();
    let mut process_position: Option<usize> = None;
    if segment.effective.as_str().is_empty() {
        findings.push(Finding::Empty);
    } else {
        if !is_absolute(segment.effective.as_str()) {
            findings.push(Finding::Relative);
        }
        match find_key(all, index, &segment.key) {
            Some(first_seen_at) => {
                findings.push(Finding::Duplicate { first_seen_at });
            },
            None => {},
        }
        process_position = find_key(live, live.len(), &segment.key);
        assert(live.deep_view().take(live.len() as int) =~= live.deep_view());
    }
    assert(findings@ =~= order_findings(all.deep_view(), index as int));
    let expanded = if same_text(segment.effective.as_str(), segment.raw.as_str()) {
        None
    } else {
        Some(segment.effective.clone())
    };
    PathEntry {
        index,
        scope: segment.scope,
        raw: segment.raw.clone(),
        expanded,
        value_kind: segment.value_kind,
        process_position,
        findings,
    }
}

/// Resolve the segments of one stored value, and add them to those there are.
fn add_scope<F: Fn(&str) -> Option<String>>(
    all: &mut Vec<Segment>,
    scope: PathScope,
    value: Option<&ScopeValue>,
    lookup: &F,
)
    requires
        takes_any_name(*lookup),
        all_well_formed(old(all)@),
    ensures
        all_well_formed(final(all)@),
        final(all).len() == old(all).len() + segment_count(value.deep_view()),
        final(all).deep_view().take(old(all).len() as int) == old(all).deep_view(),
        forall|i: int|
            old(all).len() <= i < final(all).len() ==> is_reading_of(
                *lookup,
                scope,
                value.deep_view()->0,
                i - old(all).len(),
                #[trigger] final(all).deep_view()[i],
            ),
{
    let ghost start = all.deep_view();
    let ghost offset = all.len() as int;
    match value {
        Some(value) => {
            let split = split_segments(value.text.as_str());
            let mut i: usize = 0;
            assert(all.deep_view().take(offset) =~= start);
            while i < split.len()
                invariant
                    takes_any_name(*lookup),
                    split.deep_view() == segments(value.text@),
                    i <= split.len(),
                    all_well_formed(all@),
                    start.len() == offset,
                    all.len() == offset + i,
                    all.deep_view().take(offset) == start,
                    forall|k: int|
                        offset <= k < all.len() ==> is_reading_of(
                            *lookup,
                            scope,
                            value@,
                            k - offset,
                            #[trigger] all.deep_view()[k],
                        ),
                decreases split.len() - i,
            {
                let ghost before = all.deep_view();
                let raw = split[i];
                assert(raw@ == segments(value.text@)[i as int]);
                let effective = resolve(raw, Some(value.kind), lookup);
                all.push(Segment::new(scope, Some(value.kind), raw, effective));
                assert(all.deep_view() =~= before.push(all@.last()@));
                assert(all.deep_view().take(offset) =~= before.take(offset));
                assert forall|k: int| offset <= k < all.len() implies is_reading_of(
                    *lookup,
                    scope,
                    value@,
                    k - offset,
                    #[trigger] all.deep_view()[k],
                ) by {
                    if k < before.len() {
                        assert(all.deep_view()[k] == before[k]);
                    }
                }
                i += 1;
            }
        },
        None => {
            assert(all.deep_view().take(offset) =~= start);
        },
    }
}

/// The segments of the live process `PATH`.
fn read_live(process: Option<&str>) -> (live: Vec<Segment>)
    ensures
        all_well_formed(live@),
        live.deep_view() == live_segments(process.deep_view()),
{
    let mut live: Vec<Segment> = Vec::new();
    if let Some(text) = process {
        let split = split_segments(text);
        let ghost model = live_segments(Some(text@));
        let mut i: usize = 0;
        assert(live.deep_view() =~= model.take(0));
        while i < split.len()
            invariant
                split.deep_view() == segments(text@),
                model == live_segments(Some(text@)),
                i <= split.len(),
                all_well_formed(live@),
                live.deep_view() == model.take(i as int),
            decreases split.len() - i,
        {
            let ghost before = live.deep_view();
            let raw = split[i];
            assert(raw@ == segments(text@)[i as int]);
            let effective = unwrap_quotes(raw).to_owned();
            live.push(Segment::new(PathScope::ProcessOnly, None, raw, effective));
            assert(live.deep_view() =~= before.push(model[i as int]));
            assert(model.take(i + 1) =~= model.take(i as int).push(model[i as int]));
            i += 1;
        }
        assert(model.take(i as int) =~= model);
    } else {
        assert(live.deep_view() =~= Seq::empty());
    }
    live
}

/// Whether some entries may be what composing comes to.
pub open spec fn composes_to<F: Fn(&str) -> Option<String>>(
    lookup: F,
    machine: Option<ScopeModel>,
    user: Option<ScopeModel>,
    process: Option<Seq<char>>,
    entries: Seq<EntryModel>,
) -> bool {
    exists|stored: Seq<SegmentModel>|
        {
            &&& #[trigger] is_reading(lookup, machine, user, stored)
            &&& entries == composed(stored, live_segments(process))
        }
}

/// Compose the ordered entry list.
///
/// Registry entries come first, machine before user, and take the first indices. Any
/// directory found in `process` but in neither registry scope is appended after them
/// as [`PathScope::ProcessOnly`]: the registry order is the composition Windows would
/// build for a fresh process, and runtime injection is a separate fact on top.
pub fn compose<F: Fn(&str) -> Option<String>>(
    machine: Option<&ScopeValue>,
    user: Option<&ScopeValue>,
    process: Option<&str>,
    lookup: &F,
) -> (entries: Vec<PathEntry>)
    requires
        takes_any_name(*lookup),
    ensures
        composes_to(
            *lookup,
            machine.deep_view(),
            user.deep_view(),
            process.deep_view(),
            entries.deep_view(),
        ),
{
    let mut all: Vec<Segment> = Vec::new();
    add_scope(&mut all, PathScope::Machine, machine, lookup);
    let ghost first = all.deep_view();
    add_scope(&mut all, PathScope::User, user, lookup);
    let ghost stored = all.deep_view();
    proof {
        assert forall|i: int| 0 <= i < first.len() implies is_reading_of(
            *lookup,
            PathScope::Machine,
            machine.deep_view()->0,
            i,
            #[trigger] stored[i],
        ) by {
            assert(stored[i] == stored.take(first.len() as int)[i]);
        }
        assert(is_reading(*lookup, machine.deep_view(), user.deep_view(), stored));
    }

    let live = read_live(process);
    let ghost live_model = live.deep_view();
    let mut i: usize = 0;
    assert(live_model.take(0) =~= Seq::empty());
    assert(all.deep_view() =~= stored + injected(stored, live_model.take(0)));
    while i < live.len()
        invariant
            live_model == live.deep_view(),
            all_well_formed(live@),
            all_well_formed(all@),
            i <= live.len(),
            all.deep_view() == stored + injected(stored, live_model.take(i as int)),
        decreases live.len() - i,
    {
        let ghost before = all.deep_view();
        assert(live_model.take(i + 1).drop_last() =~= live_model.take(i as int));
        assert(live@[i as int].well_formed());
        assert(live@[i as int]@ == live_model[i as int]);
        assert(all.deep_view().take(all.len() as int) =~= all.deep_view());
        if !live[i].effective.as_str().is_empty() && find_key(
            &all,
            all.len(),
            &live[i].key,
        ).is_none() {
            let segment = Segment::new(
                live[i].scope,
                live[i].value_kind,
                live[i].raw.as_str(),
                live[i].effective.clone(),
            );
            all.push(segment);
            assert(all.deep_view() =~= before.push(live_model[i as int]));
            assert(all.deep_view() =~= stored + injected(stored, live_model.take(i + 1)));
        }
        i += 1;
    }
    assert(live_model.take(i as int) =~= live_model);

    let ghost model = all.deep_view();
    let mut entries: Vec<PathEntry> = Vec::new();
    let mut index: usize = 0;
    while index < all.len()
        invariant
            all_well_formed(live@),
            all_well_formed(all@),
            model == all.deep_view(),
            live_model == live.deep_view(),
            index <= all.len(),
            entries.deep_view() =~= Seq::new(
                index as nat,
                |k: int| entry_for(model, live_model, k),
            ),
        decreases all.len() - index,
    {
        let ghost before = entries.deep_view();
        entries.push(build(index, &all, &live));
        assert(entries.deep_view() =~= before.push(entry_for(model, live_model, index as int)));
        index += 1;
    }
    assert(entries.deep_view() =~= composed(stored, live_model));
    entries
}

// ---- what holds of every composition ----

/// Whether a segment names the directory with a given key.
pub open spec fn names(segment: SegmentModel, key: Seq<char>) -> bool {
    segment.effective.len() > 0 && key_of(segment.effective) == key
}

proof fn lemma_first_naming(list: Seq<SegmentModel>, key: Seq<char>)
    ensures
        match first_naming(list, key) {
            Some(found) => {
                &&& 0 <= found < list.len()
                &&& names(list[found], key)
                &&& forall|i: int| 0 <= i < found ==> !names(#[trigger] list[i], key)
            },
            None => forall|i: int| 0 <= i < list.len() ==> !names(#[trigger] list[i], key),
        },
    decreases list.len(),
{
    if list.len() > 0 {
        let shorter = list.drop_last();
        lemma_first_naming(shorter, key);
        assert(forall|i: int| 0 <= i < shorter.len() ==> shorter[i] == list[i]);
    }
}

proof fn lemma_injected(stored: Seq<SegmentModel>, live: Seq<SegmentModel>)
    ensures
        forall|k: int|
            0 <= k < injected(stored, live).len() ==> {
                let segment = #[trigger] injected(stored, live)[k];
                &&& live.contains(segment)
                &&& segment.effective.len() > 0
                &&& first_naming(
                    stored + injected(stored, live).take(k),
                    key_of(segment.effective),
                ) is None
            },
        forall|i: int|
            0 <= i < live.len() && (#[trigger] live[i]).effective.len() > 0 ==> first_naming(
                stored + injected(stored, live),
                key_of(live[i].effective),
            ) is Some,
    decreases live.len(),
{
    if live.len() > 0 {
        let shorter = live.drop_last();
        let earlier = injected(stored, shorter);
        let whole = injected(stored, live);
        let last = live.last();
        lemma_injected(stored, shorter);
        assert forall|k: int| 0 <= k < whole.len() implies {
            let segment = #[trigger] whole[k];
            &&& live.contains(segment)
            &&& segment.effective.len() > 0
            &&& first_naming(stored + whole.take(k), key_of(segment.effective)) is None
        } by {
            if k < earlier.len() {
                assert(whole[k] == earlier[k]);
                assert(whole.take(k) =~= earlier.take(k));
                let j = choose|j: int| 0 <= j < shorter.len() && shorter[j] == earlier[k];
                assert(live[j] == whole[k]);
            } else {
                assert(whole.take(k) =~= earlier);
                assert(live[live.len() - 1] == whole[k]);
            }
        }
        assert forall|i: int|
            0 <= i < live.len() && (#[trigger] live[i]).effective.len() > 0 implies first_naming(
            stored + whole,
            key_of(live[i].effective),
        ) is Some by {
            let key = key_of(live[i].effective);
            if i < shorter.len() {
                assert(shorter[i] == live[i]);
                lemma_first_naming(stored + earlier, key);
                let found = first_naming(stored + earlier, key)->0;
                lemma_first_naming(stored + whole, key);
                assert((stored + whole)[found] == (stored + earlier)[found]);
            } else {
                lemma_first_naming(stored + earlier, key);
                lemma_first_naming(stored + whole, key);
                if first_naming(stored + earlier, key) is None {
                    assert((stored + whole)[(stored.len() + earlier.len()) as int] == last);
                } else {
                    assert(whole == earlier);
                }
            }
        }
    }
}

/// The composed order is machine entries, then user entries, then directories injected
/// at runtime, and every entry carries its position in that order.
pub proof fn machine_precedes_user_precedes_runtime<F: Fn(&str) -> Option<String>>(
    lookup: F,
    machine: Option<ScopeModel>,
    user: Option<ScopeModel>,
    process: Option<Seq<char>>,
    stored: Seq<SegmentModel>,
)
    requires
        is_reading(lookup, machine, user, stored),
        composed(stored, live_segments(process)).len() <= usize::MAX,
    ensures
        ({
            let entries = composed(stored, live_segments(process));
            let of_machine = segment_count(machine) as int;
            let of_registry = of_machine + segment_count(user);
            &&& entries.len() >= of_registry
            &&& forall|i: int| 0 <= i < entries.len() ==> (#[trigger] entries[i]).index == i
            &&& forall|i: int|
                0 <= i < of_machine ==> {
                    &&& (#[trigger] entries[i]).scope == PathScope::Machine
                    &&& entries[i].raw == segments(machine->0.text)[i]
                    &&& entries[i].value_kind == Some(machine->0.kind)
                }
            &&& forall|i: int|
                of_machine <= i < of_registry ==> {
                    &&& (#[trigger] entries[i]).scope == PathScope::User
                    &&& entries[i].raw == segments(user->0.text)[i - of_machine]
                    &&& entries[i].value_kind == Some(user->0.kind)
                }
            &&& forall|i: int|
                of_registry <= i < entries.len() ==> {
                    &&& (#[trigger] entries[i]).scope == PathScope::ProcessOnly
                    &&& entries[i].value_kind is None
                }
        }),
{
    let live = live_segments(process);
    let entries = composed(stored, live);
    let added = injected(stored, live);
    lemma_injected(stored, live);
    assert forall|i: int| stored.len() <= i < entries.len() implies {
        &&& (#[trigger] entries[i]).scope == PathScope::ProcessOnly
        &&& entries[i].value_kind is None
    } by {
        let segment = added[i - stored.len()];
        assert((stored + added)[i] == segment);
        let j = choose|j: int| 0 <= j < live.len() && live[j] == segment;
        assert(live[j].scope == PathScope::ProcessOnly);
    }
}

/// Being injected at runtime is legitimate: such a directory is one the process can
/// see, it is not empty, and it repeats no other entry.
pub proof fn an_injected_directory_is_live_and_no_repeat(
    stored: Seq<SegmentModel>,
    live: Seq<SegmentModel>,
    i: int,
)
    requires
        stored.len() <= i < composed(stored, live).len(),
    ensures
        composed(stored, live)[i].is_live(),
        composed(stored, live)[i].effective().len() > 0,
        forall|k: int|
            0 <= k < composed(stored, live)[i].findings.len() ==> composed(
                stored,
                live,
            )[i].findings[k] == Finding::Relative,
{
    let added = injected(stored, live);
    let all = stored + added;
    let k = i - stored.len();
    let segment = added[k];
    let key = key_of(segment.effective);
    assert(all[i] == segment);
    assert(live.contains(segment) && segment.effective.len() > 0 && first_naming(
        all.take(i),
        key,
    ) is None) by {
        lemma_injected(stored, live);
        assert(all.take(i) =~= stored + added.take(k));
    }
    assert(first_naming(live, key) is Some) by {
        let j = choose|j: int| 0 <= j < live.len() && live[j] == segment;
        lemma_first_naming(live, key);
        assert(names(live[j], key));
    }
    let entry = entry_for(all, live, i);
    assert(composed(stored, live)[i] == entry);
    assert(entry.effective() == segment.effective);
    assert(entry.findings == order_findings(all, i));
}

/// A repeat points at an earlier entry for the same directory, one that is itself no
/// repeat; and an entry that is neither empty nor a repeat is the first for its
/// directory.
pub proof fn a_repeat_points_at_the_first_entry_for_its_directory(
    stored: Seq<SegmentModel>,
    live: Seq<SegmentModel>,
    i: int,
)
    requires
        0 <= i < composed(stored, live).len() <= usize::MAX,
        composed(stored, live)[i].effective().len() > 0,
    ensures
        ({
            let entries = composed(stored, live);
            let key = key_of(entries[i].effective());
            &&& forall|first: usize|
                entries[i].findings.contains(Finding::Duplicate { first_seen_at: first }) ==> {
                    &&& first < i
                    &&& entries[first as int].effective().len() > 0
                    &&& key_of(entries[first as int].effective()) == key
                    &&& forall|other: usize|
                        !entries[first as int].findings.contains(
                            Finding::Duplicate { first_seen_at: other },
                        )
                }
            &&& (forall|first: usize|
                !entries[i].findings.contains(Finding::Duplicate { first_seen_at: first })) ==> (
            forall|j: int|
                0 <= j < i && (#[trigger] entries[j]).effective().len() > 0 ==> key_of(
                    entries[j].effective(),
                ) != key)
        }),
{
    let all = stored + injected(stored, live);
    let entries = composed(stored, live);
    let key = key_of(entries[i].effective());
    assert forall|j: int| 0 <= j < entries.len() implies (#[trigger] entries[j]).effective()
        == all[j].effective by {}
    lemma_first_naming(all.take(i), key);
    assert forall|first: usize|
        entries[i].findings.contains(Finding::Duplicate { first_seen_at: first }) implies {
        &&& first < i
        &&& entries[first as int].effective().len() > 0
        &&& key_of(entries[first as int].effective()) == key
        &&& forall|other: usize|
            !entries[first as int].findings.contains(Finding::Duplicate { first_seen_at: other })
    } by {
        let found = first_naming(all.take(i), key)->0;
        assert(first == found);
        assert(all.take(i)[found] == all[found]);
        lemma_first_naming(all.take(found), key);
        assert forall|k: int| 0 <= k < found implies !names(all.take(found)[k], key) by {
            assert(all.take(i)[k] == all.take(found)[k]);
        }
        assert(first_naming(all.take(found), key) is None);
    }
    if forall|first: usize|
        !entries[i].findings.contains(Finding::Duplicate { first_seen_at: first }) {
        if first_naming(all.take(i), key) is Some {
            let found = first_naming(all.take(i), key)->0;
            assert(entries[i].findings.last() == (Finding::Duplicate {
                first_seen_at: found as usize,
            }));
            assert(entries[i].findings.contains(
                Finding::Duplicate { first_seen_at: found as usize },
            ));
        }
        assert forall|j: int|
            0 <= j < i && (#[trigger] entries[j]).effective().len() > 0 implies key_of(
            entries[j].effective(),
        ) != key by {
            assert(all.take(i)[j] == all[j]);
        }
    }
}

/// Nothing on the live process `PATH` is left out: every directory it names is named by
/// an entry, and by one that knows itself to be live.
pub proof fn every_live_directory_has_a_live_entry(
    stored: Seq<SegmentModel>,
    live: Seq<SegmentModel>,
    position: int,
)
    requires
        0 <= position < live.len(),
        live[position].effective.len() > 0,
    ensures
        exists|i: int|
            {
                &&& 0 <= i < composed(stored, live).len()
                &&& (#[trigger] composed(stored, live)[i]).is_live()
                &&& key_of(composed(stored, live)[i].effective()) == key_of(
                    live[position].effective,
                )
            },
{
    let all = stored + injected(stored, live);
    let key = key_of(live[position].effective);
    lemma_injected(stored, live);
    lemma_first_naming(all, key);
    lemma_first_naming(live, key);
    assert(names(live[position], key));
    let i = first_naming(all, key)->0;
    assert(composed(stored, live)[i].is_live());
}

/// An entry is live exactly when the live process `PATH` names its directory, and then
/// it carries the position of the first segment that does.
pub proof fn a_live_position_is_the_first_for_its_directory(
    stored: Seq<SegmentModel>,
    live: Seq<SegmentModel>,
    i: int,
)
    requires
        0 <= i < composed(stored, live).len(),
        composed(stored, live)[i].effective().len() > 0,
        live.len() <= usize::MAX,
    ensures
        ({
            let entry = composed(stored, live)[i];
            let key = key_of(entry.effective());
            match entry.process_position {
                Some(position) => {
                    &&& position < live.len()
                    &&& names(live[position as int], key)
                    &&& forall|k: int| 0 <= k < position ==> !names(#[trigger] live[k], key)
                },
                None => forall|k: int| 0 <= k < live.len() ==> !names(#[trigger] live[k], key),
            }
        }),
{
    lemma_first_naming(live, key_of(composed(stored, live)[i].effective()));
}

/// The segments of the two stored values as they resolve in one environment.
pub open spec fn stored_in(
    machine: Option<ScopeModel>,
    user: Option<ScopeModel>,
    environment: spec_fn(Seq<char>) -> Option<Seq<char>>,
) -> Seq<SegmentModel> {
    let split = segment_count(machine) as int;
    Seq::new(
        segment_count(machine) + segment_count(user),
        |i: int|
            {
                let (scope, value, raw) = if i < split {
                    (PathScope::Machine, machine->0, segments(machine->0.text)[i])
                } else {
                    (PathScope::User, user->0, segments(user->0.text)[i - split])
                };
                SegmentModel {
                    scope,
                    value_kind: Some(value.kind),
                    raw,
                    effective: if value.kind == ValueKind::ExpandSz {
                        unquoted(expansion(raw, environment))
                    } else {
                        unquoted(raw)
                    },
                }
            },
    )
}

/// With a lookup that always answers as one environment does, the stored values can be
/// read in one way only, so the composed entries follow from the values, the process
/// `PATH` and the environment.
pub proof fn composition_follows_the_environment<F: Fn(&str) -> Option<String>>(
    lookup: F,
    environment: spec_fn(Seq<char>) -> Option<Seq<char>>,
    machine: Option<ScopeModel>,
    user: Option<ScopeModel>,
    stored: Seq<SegmentModel>,
)
    requires
        reads(lookup, environment),
        is_reading(lookup, machine, user, stored),
    ensures
        stored == stored_in(machine, user, environment),
{
    let expected = stored_in(machine, user, environment);
    assert forall|i: int| 0 <= i < stored.len() implies stored[i] == expected[i] by {
        resolution_follows_the_environment(
            lookup,
            environment,
            stored[i].raw,
            stored[i].value_kind,
            stored[i].effective,
        );
    }
    assert(stored =~= expected);
}

// ---- what expansion and keys are for ----

proof fn lemma_substituted_behind(
    head: Seq<Seq<char>>,
    parts: Seq<Seq<char>>,
    head_values: Seq<Option<Seq<char>>>,
    values: Seq<Option<Seq<char>>>,
    count: int,
)
    requires
        head.len() % 2 == 0,
        head_values.len() == head.len(),
        values.len() == parts.len(),
        parts.len() > 0,
        0 <= count <= parts.len(),
    ensures
        substituted(head + parts, head_values + values, head.len() + count) == substituted(
            head + parts,
            head_values + values,
            head.len() as int,
        ) + substituted(parts, values, count),
    decreases count,
{
    let all = head + parts;
    let all_values = head_values + values;
    let start = substituted(all, all_values, head.len() as int);
    if count == 0 {
        assert(substituted(parts, values, 0) =~= Seq::empty());
        assert(start + Seq::<char>::empty() =~= start);
    } else {
        lemma_substituted_behind(head, parts, head_values, values, count - 1);
        let last = count - 1;
        assert(all[head.len() + last] == parts[last]);
        assert(all_values[head.len() + last] == values[last]);
        assert(is_name(all, head.len() + last) == is_name(parts, last));
        assert((head.len() + last) % 2 == last % 2);
        assert(substituted(all, all_values, head.len() + count) =~= start + substituted(
            parts,
            values,
            count,
        ));
    }
}

/// A reference to a variable that has a value is replaced by the value wherever it stands,
/// and one to a variable that has none stays as it was written. What is in front of it stays
/// as it is, and what is behind it is expanded on its own.
pub proof fn a_reference_is_replaced_by_its_value(
    before: Seq<char>,
    name: Seq<char>,
    rest: Seq<char>,
    environment: spec_fn(Seq<char>) -> Option<Seq<char>>,
)
    requires
        free_of(before, '%'),
        free_of(name, '%'),
        name.len() > 0,
    ensures
        expansion(before + seq!['%'] + name + seq!['%'] + rest, environment) == before + (
        match environment(name) {
            Some(value) => value,
            None => seq!['%'] + name + seq!['%'],
        }) + expansion(rest, environment),
{
    lemma_two_pieces_first(before, name, rest, environment);
}

/// Two percent signs in a row name no variable and stay as they are.
pub proof fn an_empty_reference_stays(
    before: Seq<char>,
    rest: Seq<char>,
    environment: spec_fn(Seq<char>) -> Option<Seq<char>>,
)
    requires
        free_of(before, '%'),
    ensures
        expansion(before + seq!['%', '%'] + rest, environment) == before + seq!['%', '%']
            + expansion(rest, environment),
{
    let nothing = Seq::<char>::empty();
    lemma_two_pieces_first(before, nothing, rest, environment);
    assert(before + seq!['%', '%'] + rest =~= before + seq!['%'] + nothing + seq!['%'] + rest);
    assert(before + seq!['%', '%'] + expansion(rest, environment) =~= before + (seq!['%']
        + nothing + seq!['%']) + expansion(rest, environment));
}

/// A percent sign without a second one behind it is just a character.
pub proof fn a_lone_percent_sign_stays(
    before: Seq<char>,
    after: Seq<char>,
    environment: spec_fn(Seq<char>) -> Option<Seq<char>>,
)
    requires
        free_of(before, '%'),
        free_of(after, '%'),
    ensures
        expansion(before.push('%') + after, environment) == before.push('%') + after,
{
    splitting_at_a_separator(before, after, '%');
    lemma_free_is_one_piece(before, '%');
    lemma_free_is_one_piece(after, '%');
    let parts = pieces(before.push('%') + after, '%');
    assert(parts =~= seq![before, after]);
    reveal_with_fuel(substituted, 3);
    assert(expansion(before.push('%') + after, environment) =~= before.push('%') + after);
}

proof fn lemma_free_is_one_piece(text: Seq<char>, separator: char)
    requires
        free_of(text, separator),
    ensures
        pieces(text, separator) == seq![text],
{
    assert(!text.contains(separator));
    lemma_single_piece(text, separator);
}

proof fn lemma_two_pieces_first(
    before: Seq<char>,
    name: Seq<char>,
    rest: Seq<char>,
    environment: spec_fn(Seq<char>) -> Option<Seq<char>>,
)
    requires
        free_of(before, '%'),
        free_of(name, '%'),
    ensures
        expansion(before + seq!['%'] + name + seq!['%'] + rest, environment) == before + (
        match environment(name) {
            Some(value) if name.len() > 0 => value,
            _ => seq!['%'] + name + seq!['%'],
        }) + expansion(rest, environment),
{
    let whole = before + seq!['%'] + name + seq!['%'] + rest;
    let tail = name.push('%') + rest;
    assert(whole =~= before.push('%') + tail);
    splitting_at_a_separator(before, tail, '%');
    splitting_at_a_separator(name, rest, '%');
    lemma_free_is_one_piece(before, '%');
    lemma_free_is_one_piece(name, '%');
    pieces_join_back(rest, '%');
    let head = seq![before, name];
    let parts = pieces(rest, '%');
    let all = head + parts;
    assert(pieces(whole, '%') =~= all);
    let values = parts.map_values(environment);
    let head_values = head.map_values(environment);
    assert(all.map_values(environment) =~= head_values + values);
    lemma_substituted_behind(head, parts, head_values, values, parts.len() as int);
    reveal_with_fuel(substituted, 3);
    assert(is_name(all, 1) && !is_name(all, 0));
    assert(substituted(all, head_values + values, 2) =~= before + (match environment(name) {
        Some(value) if name.len() > 0 => value,
        _ => seq!['%'] + name + seq!['%'],
    }));
}

proof fn lemma_key_text_keeps_the_stem(effective: Seq<char>)
    ensures
        without_trailing_separators(key_text(effective)) == without_trailing_separators(effective),
        ascii_text(effective) ==> ascii_text(key_text(effective)),
{
    lemma_stripped(effective);
}

proof fn lemma_stripped(path: Seq<char>)
    ensures
        without_trailing_separators(path).len() <= path.len(),
        without_trailing_separators(path) == path.take(
            without_trailing_separators(path).len() as int,
        ),
        without_trailing_separators(path).len() > 0 ==> !is_path_separator(
            without_trailing_separators(path).last(),
        ),
        without_trailing_separators(without_trailing_separators(path))
            == without_trailing_separators(path),
        forall|i: int|
            without_trailing_separators(path).len() <= i < path.len() ==> is_path_separator(
                #[trigger] path[i],
            ),
    decreases path.len(),
{
    if path.len() > 0 && is_path_separator(path.last()) {
        lemma_stripped(path.drop_last());
        assert forall|i: int|
            without_trailing_separators(path).len() <= i < path.len() implies is_path_separator(
            #[trigger] path[i],
        ) by {
            if i < path.len() - 1 {
                assert(path[i] == path.drop_last()[i]);
            }
        }
    }
    assert(without_trailing_separators(path) =~= path.take(
        without_trailing_separators(path).len() as int,
    ));
}

/// Keys tell directories apart: ASCII names with one key are equal but for letter case and
/// the separators they end with, and a drive root shares its key with no name that does not
/// end in the very same separators.
pub proof fn one_key_means_one_directory(left: Seq<char>, right: Seq<char>)
    requires
        ascii_text(left),
        ascii_text(right),
        key_of(left) == key_of(right),
    ensures
        equal_ignoring_ascii_case(
            without_trailing_separators(left),
            without_trailing_separators(right),
        ),
        without_trailing_separators(left).len() == 0 || without_trailing_separators(left).last()
            == ':' ==> equal_ignoring_ascii_case(left, right),
{
    lemma_key_text_keeps_the_stem(left);
    lemma_key_text_keeps_the_stem(right);
    let a = key_text(left);
    let b = key_text(right);
    lemma_stripped(left);
    lemma_stripped(right);
    assert(ascii_lowercase(a) == ascii_lowercase(b));
    assert forall|i: int| 0 <= i < a.len() implies ascii_lower(#[trigger] a[i]) == ascii_lower(
        b[i],
    ) by {
        assert(ascii_lowercase(a)[i] == ascii_lowercase(b)[i]);
    }
    assert(a.len() == ascii_lowercase(a).len() && b.len() == ascii_lowercase(b).len());
    lemma_stripping_ignores_case(a, b);
    let kept = without_trailing_separators(a).len() as int;
    assert forall|i: int| 0 <= i < kept implies ascii_lower(
        #[trigger] without_trailing_separators(left)[i],
    ) == ascii_lower(without_trailing_separators(right)[i]) by {
        assert(ascii_lower(a[i]) == ascii_lower(b[i]));
    }
    let stem = without_trailing_separators(left);
    if stem.len() == 0 || stem.last() == ':' {
        assert(a == left);
        if stem.len() > 0 {
            assert(ascii_lower(a[kept - 1]) == ascii_lower(b[kept - 1]));
            assert(without_trailing_separators(right).last() == ':');
        }
        assert(b == right);
    }
}

/// ASCII names that are equal but for letter case and the separators they end with have one
/// key, unless nothing else is left of them or a drive letter is.
pub proof fn one_directory_means_one_key(left: Seq<char>, right: Seq<char>)
    requires
        ascii_text(left),
        ascii_text(right),
        without_trailing_separators(left).len() > 0,
        without_trailing_separators(left).last() != ':',
        equal_ignoring_ascii_case(
            without_trailing_separators(left),
            without_trailing_separators(right),
        ),
    ensures
        key_of(left) == key_of(right),
        key_of(left) == ascii_lowercase(without_trailing_separators(left)),
{
    let a = without_trailing_separators(left);
    let b = without_trailing_separators(right);
    lemma_stripped(left);
    lemma_stripped(right);
    let last = a.len() - 1;
    assert(ascii_lower(a[last]) == ascii_lower(b[last]));
    assert forall|i: int| 0 <= i < a.len() implies ascii_lower(a[i]) == ascii_lower(b[i]) by {}
    assert(ascii_lowercase(a) =~= ascii_lowercase(b));
}

/// A name loses the separators it ends with and nothing else.
pub proof fn only_trailing_separators_are_stripped(
    path: Seq<char>,
    separators: Seq<char>,
)
    requires
        path.len() == 0 || (path.last() != '\\' && path.last() != '/'),
        forall|i: int|
            0 <= i < separators.len() ==> (#[trigger] separators[i] == '\\' || separators[i]
                == '/'),
    ensures
        without_trailing_separators(path + separators) == path,
    decreases separators.len(),
{
    if separators.len() == 0 {
        assert(path + separators =~= path);
    } else {
        let whole = path + separators;
        assert(separators[separators.len() - 1] == whole.last());
        only_trailing_separators_are_stripped(path, separators.drop_last());
        assert(whole.drop_last() =~= path + separators.drop_last());
    }
}

// ---- what segments and directory names are ----

/// How many quotation marks a text holds.
pub open spec fn quote_count(text: Seq<char>) -> nat
    decreases text.len(),
{
    if text.len() == 0 {
        0
    } else {
        quote_count(text.drop_last()) + if text.last() == '"' {
            1nat
        } else {
            0nat
        }
    }
}

/// A quotation is open behind an odd number of quotation marks.
pub proof fn an_odd_quotation_mark_opens(text: Seq<char>)
    ensures
        quoted(text) <==> quote_count(text) % 2 == 1,
    decreases text.len(),
{
    if text.len() > 0 {
        an_odd_quotation_mark_opens(text.drop_last());
    }
}

proof fn lemma_quoted_behind(left: Seq<char>, right: Seq<char>)
    requires
        !quoted(left),
    ensures
        quoted(left.push(';') + right) == quoted(right),
    decreases right.len(),
{
    let whole = left.push(';') + right;
    if right.len() > 0 {
        lemma_quoted_behind(left, right.drop_last());
        assert(whole.drop_last() =~= left.push(';') + right.drop_last());
        assert(whole.last() == right.last());
    } else {
        assert(whole =~= left.push(';'));
        assert(left.push(';').drop_last() =~= left);
    }
}

/// A semicolon behind an even number of quotation marks separates: the segments are those
/// of what stands in front of it and those of what stands behind it.
pub proof fn a_semicolon_outside_quotes_separates(left: Seq<char>, right: Seq<char>)
    requires
        quote_count(left) % 2 == 0,
    ensures
        segments(left.push(';') + right) == unquoted_parts(left) + unquoted_parts(right),
        left.len() > 0 ==> segments(left) == unquoted_parts(left),
        left.len() == 0 ==> segments(left) == Seq::<Seq<char>>::empty() && unquoted_parts(left)
            == seq![Seq::<char>::empty()],
{
    an_odd_quotation_mark_opens(left);
    lemma_parts_of_two(left, right);
}

proof fn lemma_parts_of_two(left: Seq<char>, right: Seq<char>)
    requires
        !quoted(left),
    ensures
        unquoted_parts(left.push(';') + right) == unquoted_parts(left) + unquoted_parts(right),
    decreases right.len(),
{
    let whole = left.push(';') + right;
    if right.len() == 0 {
        assert(whole =~= left.push(';'));
        assert(left.push(';').drop_last() =~= left);
        assert(unquoted_parts(whole) =~= unquoted_parts(left) + unquoted_parts(right));
    } else {
        let shorter = right.drop_last();
        lemma_parts_of_two(left, shorter);
        lemma_quoted_behind(left, shorter);
        lemma_parts_join_back(shorter);
        assert(whole.drop_last() =~= left.push(';') + shorter);
        assert(whole.last() == right.last());
        assert(unquoted_parts(whole) =~= unquoted_parts(left) + unquoted_parts(right));
    }
}

/// A text whose semicolons all stand inside quotation marks is one segment.
pub proof fn a_semicolon_inside_quotes_does_not_separate(text: Seq<char>)
    requires
        text.len() > 0,
        forall|i: int|
            0 <= i < text.len() && #[trigger] text[i] == ';' ==> quote_count(text.take(i)) % 2
                == 1,
    ensures
        segments(text) == seq![text],
{
    lemma_one_part(text);
}

proof fn lemma_one_part(text: Seq<char>)
    requires
        forall|i: int|
            0 <= i < text.len() && #[trigger] text[i] == ';' ==> quote_count(text.take(i)) % 2
                == 1,
    ensures
        unquoted_parts(text) == seq![text],
    decreases text.len(),
{
    if text.len() > 0 {
        let shorter = text.drop_last();
        let last = text.len() - 1;
        assert forall|i: int|
            0 <= i < shorter.len() && #[trigger] shorter[i] == ';' implies quote_count(
            shorter.take(i),
        ) % 2 == 1 by {
            assert(text[i] == ';');
            assert(shorter.take(i) =~= text.take(i));
        }
        lemma_one_part(shorter);
        an_odd_quotation_mark_opens(shorter);
        if text[last] == ';' {
            assert(text.take(last) =~= shorter);
        }
        assert(shorter.push(text.last()) =~= text);
        assert(unquoted_parts(text) =~= seq![text]);
    } else {
        assert(text =~= Seq::empty());
    }
}

/// One pair of quotation marks around a name does not belong to it, nor does whitespace
/// inside or outside of them.
pub proof fn surrounding_quotes_are_removed(
    before: Seq<char>,
    inner_before: Seq<char>,
    name: Seq<char>,
    inner_after: Seq<char>,
    after: Seq<char>,
)
    requires
        all_white(before),
        all_white(inner_before),
        all_white(inner_after),
        all_white(after),
        name.len() == 0 || (!white_space(name[0]) && !white_space(name.last())),
    ensures
        unquoted(
            before + (seq!['"'] + (inner_before + name + inner_after) + seq!['"']) + after,
        ) == name,
{
    let inner = inner_before + name + inner_after;
    let outer = seq!['"'] + inner + seq!['"'];
    trimming_removes_surrounding_whitespace(before, outer, after);
    trimming_removes_surrounding_whitespace(inner_before, name, inner_after);
    assert(outer.subrange(1, outer.len() - 1) =~= inner);
}

/// A name that is not in quotation marks is kept as it is, but for the whitespace around it.
pub proof fn an_unquoted_name_is_kept(before: Seq<char>, name: Seq<char>, after: Seq<char>)
    requires
        all_white(before),
        all_white(after),
        name.len() == 0 || (!white_space(name[0]) && !white_space(name.last())),
        name.len() < 2 || name[0] != '"' || name.last() != '"',
    ensures
        unquoted(before + name + after) == name,
{
    trimming_removes_surrounding_whitespace(before, name, after);
}

/// A name is absolute if it starts with two separators, or with a letter, a colon and a
/// separator, and in no other case.
pub proof fn these_names_are_absolute(value: Seq<char>)
    ensures
        absolute(value) <==> {
            ||| value.len() >= 2 && (value[0] == '\\' || value[0] == '/') && (value[1] == '\\'
                || value[1] == '/')
            ||| value.len() >= 3 && (65 <= value[0] as int <= 90 || 97 <= value[0] as int <= 122)
                && value[1] == ':' && (value[2] == '\\' || value[2] == '/')
        },
{
}

/// What follows from the order alone: an empty entry is empty and nothing else; any other is
/// relative exactly if its name is not absolute, a repeat exactly if an earlier entry has its
/// key, and nothing else.
pub proof fn the_order_accounts_for_every_finding(
    stored: Seq<SegmentModel>,
    live: Seq<SegmentModel>,
    i: int,
)
    requires
        0 <= i < composed(stored, live).len() <= usize::MAX,
    ensures
        ({
            let entries = composed(stored, live);
            let entry = entries[i];
            let relative = entry.findings.contains(Finding::Relative);
            let repeat = exists|j: int|
                {
                    &&& 0 <= j < i
                    &&& (#[trigger] entries[j]).effective().len() > 0
                    &&& key_of(entries[j].effective()) == key_of(entry.effective())
                };
            &&& entry.effective().len() == 0 ==> entry.findings == seq![Finding::Empty]
                && entry.process_position is None
            &&& entry.effective().len() > 0 ==> {
                &&& relative <==> !absolute(entry.effective())
                &&& entry.findings.len() == (if relative {
                    1int
                } else {
                    0int
                }) + (if repeat {
                    1int
                } else {
                    0int
                })
                &&& repeat ==> entry.findings.last() is Duplicate
                &&& relative ==> entry.findings[0] == Finding::Relative
            }
        }),
{
    let all = stored + injected(stored, live);
    let entries = composed(stored, live);
    let entry = entries[i];
    let key = key_of(entry.effective());
    assert forall|j: int| 0 <= j < entries.len() implies (#[trigger] entries[j]).effective()
        == all[j].effective by {}
    lemma_first_naming(all.take(i), key);
    if entry.effective().len() > 0 {
        if !absolute(entry.effective()) {
            assert(entry.findings[0] == Finding::Relative);
        }
        if let Some(found) = first_naming(all.take(i), key) {
            assert(all.take(i)[found] == all[found]);
            assert(entries[found].effective().len() > 0);
        } else {
            assert forall|j: int|
                0 <= j < i && (#[trigger] entries[j]).effective().len() > 0 implies key_of(
                entries[j].effective(),
            ) != key by {
                assert(!names(all.take(i)[j], key));
            }
        }
    }
}

/// The entry for a stored segment is that segment: its scope, its type, its text as stored,
/// and the directory it resolves to, which is shown apart only where it differs.
pub proof fn an_entry_is_its_segment(
    stored: Seq<SegmentModel>,
    live: Seq<SegmentModel>,
    i: int,
)
    requires
        0 <= i < stored.len() <= usize::MAX,
    ensures
        i < composed(stored, live).len(),
        composed(stored, live)[i].index == i,
        composed(stored, live)[i].scope == stored[i].scope,
        composed(stored, live)[i].value_kind == stored[i].value_kind,
        composed(stored, live)[i].raw == stored[i].raw,
        composed(stored, live)[i].effective() == stored[i].effective,
        composed(stored, live)[i].expanded is None <==> stored[i].raw == stored[i].effective,
{
    assert((stored + injected(stored, live))[i] == stored[i]);
}

/// The entries behind the stored ones are segments of the live process `PATH`, in the order
/// they have there.
pub proof fn injected_directories_keep_their_order(
    stored: Seq<SegmentModel>,
    live: Seq<SegmentModel>,
    k: int,
    l: int,
) -> (places: (int, int))
    requires
        stored.len() <= k < l < composed(stored, live).len(),
    ensures
        0 <= places.0 < places.1 < live.len(),
        composed(stored, live)[k].raw == live[places.0].raw,
        composed(stored, live)[k].effective() == live[places.0].effective,
        composed(stored, live)[l].raw == live[places.1].raw,
        composed(stored, live)[l].effective() == live[places.1].effective,
{
    let all = stored + injected(stored, live);
    let places = lemma_injected_places(stored, live, k - stored.len(), l - stored.len());
    assert(all[k] == live[places.0] && all[l] == live[places.1]);
    places
}

proof fn lemma_injected_places(
    stored: Seq<SegmentModel>,
    live: Seq<SegmentModel>,
    k: int,
    l: int,
) -> (places: (int, int))
    requires
        0 <= k < l < injected(stored, live).len(),
    ensures
        0 <= places.0 < places.1 < live.len(),
        live[places.0] == injected(stored, live)[k],
        live[places.1] == injected(stored, live)[l],
    decreases live.len(),
{
    let shorter = live.drop_last();
    let earlier = injected(stored, shorter);
    if l < earlier.len() {
        lemma_injected_places(stored, shorter, k, l)
    } else {
        lemma_injected(stored, shorter);
        assert(live.last() == injected(stored, live)[l]);
        assert(shorter.contains(earlier[k]));
        let p = choose|p: int| 0 <= p < shorter.len() && shorter[p] == earlier[k];
        (p, live.len() - 1)
    }
}

/// The live process `PATH` is taken as it is: one segment for each of its parts, in order,
/// with nothing expanded and the quotation marks removed.
pub proof fn the_live_path_is_not_expanded(text: Seq<char>, i: int)
    requires
        0 <= i < segments(text).len(),
    ensures
        live_segments(Some(text)).len() == segments(text).len(),
        live_segments(Some(text))[i].raw == segments(text)[i],
        live_segments(Some(text))[i].effective == unquoted(segments(text)[i]),
        live_segments(Some(text))[i].scope == PathScope::ProcessOnly,
        live_segments(Some(text))[i].value_kind is None,
        live_segments(None).len() == 0,
{
}

/// With a lookup that always answers as one environment does, the directory of a stored
/// entry is its text with every reference replaced, if it is stored to be expanded, and its
/// text as it is otherwise; either way without quotation marks around it.
pub proof fn an_entry_names_the_directory_it_resolves_to<F: Fn(&str) -> Option<String>>(
    lookup: F,
    environment: spec_fn(Seq<char>) -> Option<Seq<char>>,
    machine: Option<ScopeModel>,
    user: Option<ScopeModel>,
    live: Seq<SegmentModel>,
    stored: Seq<SegmentModel>,
    i: int,
)
    requires
        reads(lookup, environment),
        is_reading(lookup, machine, user, stored),
        0 <= i < stored.len() <= usize::MAX,
    ensures
        ({
            let entry = composed(stored, live)[i];
            &&& entry.value_kind == Some(ValueKind::ExpandSz) ==> entry.effective() == unquoted(
                expansion(entry.raw, environment),
            )
            &&& entry.value_kind == Some(ValueKind::Sz) ==> entry.effective() == unquoted(
                entry.raw,
            )
            &&& entry.value_kind is Some
        }),
{
    an_entry_is_its_segment(stored, live, i);
    composition_follows_the_environment(lookup, environment, machine, user, stored);
}

/// An entry behind the stored ones is a segment of the live process `PATH`, as it stands
/// there.
pub proof fn an_injected_entry_is_a_live_segment(
    stored: Seq<SegmentModel>,
    live: Seq<SegmentModel>,
    i: int,
) -> (place: int)
    requires
        stored.len() <= i < composed(stored, live).len() <= usize::MAX,
    ensures
        0 <= place < live.len(),
        composed(stored, live)[i].index == i,
        composed(stored, live)[i].scope == live[place].scope,
        composed(stored, live)[i].value_kind == live[place].value_kind,
        composed(stored, live)[i].raw == live[place].raw,
        composed(stored, live)[i].effective() == live[place].effective,
        composed(stored, live)[i].expanded is None <==> live[place].raw == live[place].effective,
        forall|k: int|
            0 <= k < stored.len() && (#[trigger] stored[k]).effective.len() > 0 ==> key_of(
                stored[k].effective,
            ) != key_of(live[place].effective),
{
    let added = injected(stored, live);
    let all = stored + added;
    let segment = added[i - stored.len()];
    lemma_injected(stored, live);
    assert(all[i] == segment);
    assert(live.contains(segment));
    let place = choose|place: int| 0 <= place < live.len() && live[place] == segment;
    let before = stored + added.take(i - stored.len());
    let key = key_of(segment.effective);
    lemma_first_naming(before, key);
    assert forall|k: int|
        0 <= k < stored.len() && (#[trigger] stored[k]).effective.len() > 0 implies key_of(
        stored[k].effective,
    ) != key by {
        assert(before[k] == stored[k]);
        assert(!names(before[k], key));
    }
    place
}

/// A directory that the live process `PATH` names and the registry does not is added, once.
pub proof fn a_directory_of_the_process_alone_is_added(
    stored: Seq<SegmentModel>,
    live: Seq<SegmentModel>,
    position: int,
)
    requires
        0 <= position < live.len(),
        live[position].effective.len() > 0,
        forall|k: int|
            0 <= k < stored.len() && (#[trigger] stored[k]).effective.len() > 0 ==> key_of(
                stored[k].effective,
            ) != key_of(live[position].effective),
    ensures
        exists|i: int|
            {
                &&& stored.len() <= i < composed(stored, live).len()
                &&& key_of((#[trigger] composed(stored, live)[i]).effective()) == key_of(
                    live[position].effective,
                )
            },
{
    let all = stored + injected(stored, live);
    let key = key_of(live[position].effective);
    lemma_injected(stored, live);
    lemma_first_naming(all, key);
    let i = first_naming(all, key)->0;
    if i < stored.len() {
        assert(all[i] == stored[i]);
    }
    assert(composed(stored, live)[i].effective() == all[i].effective);
}

/// A key is the name in lower case, without the separators it ends with; a drive root, or a
/// name of nothing but separators, keeps them.
pub proof fn a_key_is_the_name_in_lower_case(name: Seq<char>, separators: Seq<char>)
    requires
        name.len() == 0 || (name.last() != '\\' && name.last() != '/'),
        forall|i: int|
            0 <= i < separators.len() ==> (#[trigger] separators[i] == '\\' || separators[i]
                == '/'),
    ensures
        name.len() > 0 && name.last() != ':' ==> key_of(name + separators) == lowercase(name),
        name.len() == 0 || name.last() == ':' ==> key_of(name + separators) == lowercase(
            name + separators,
        ),
{
    only_trailing_separators_are_stripped(name, separators);
}

} // verus!
