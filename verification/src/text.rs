//! Text primitives shared by the rest of the library.
//!
//! Every string is modelled by the sequence of its characters. Nothing here knows
//! about `PATH`; the rules that do are built on top of these few operations.

use vstd::prelude::*;

verus! {

/// What [`str::to_lowercase`] makes of a text that is not all ASCII: its lower-case
/// equivalent by the rules of Unicode.
pub uninterp spec fn unicode_lowercase(text: Seq<char>) -> Seq<char>;

/// Whether every character of a text is an ASCII character.
pub open spec fn ascii_text(text: Seq<char>) -> bool {
    forall|i: int| 0 <= i < text.len() ==> (#[trigger] text[i]) <= '\u{7f}'
}

/// The lower-case form of an ASCII letter; any other character is its own.
pub open spec fn ascii_lower(c: char) -> char {
    if 'A' <= c <= 'Z' {
        ((c as u32) + 32) as char
    } else {
        c
    }
}

/// A text with every ASCII letter in lower case.
pub open spec fn ascii_lowercase(text: Seq<char>) -> Seq<char> {
    Seq::new(text.len(), |i: int| ascii_lower(text[i]))
}

/// The lower-case equivalent of a text.
pub open spec fn lowercase(text: Seq<char>) -> Seq<char> {
    if ascii_text(text) {
        ascii_lowercase(text)
    } else {
        unicode_lowercase(text)
    }
}

/// [`str::to_lowercase`] maps the letters `A` to `Z` of an ASCII text to `a` to `z` and
/// leaves its other characters alone. Of any other text it gives
/// [`unicode_lowercase`], of which nothing more is said.
pub assume_specification[ str::to_lowercase ](text: &str) -> (lowered: String)
    ensures
        ascii_text(text@) ==> lowered@ == ascii_lowercase(text@),
        !ascii_text(text@) ==> lowered@ == unicode_lowercase(text@),
;

/// [`String::push`] appends one character to the end of the string.
pub assume_specification[ String::push ](text: &mut String, character: char)
    ensures
        final(text)@ == old(text)@.push(character),
;

/// The characters of a string, in order.
pub fn to_chars(text: &str) -> (chars: Vec<char>)
    ensures
        chars@ == text@,
{
    let mut chars: Vec<char> = Vec::new();
    for character in it: text.chars()
        invariant
            it.seq() == text@,
            chars@ == it.seq().take(it.index() as int),
    {
        chars.push(character);
    }
    chars
}

/// Whether two strings hold the same characters.
pub fn same_text(left: &str, right: &str) -> (same: bool)
    ensures
        same == (left@ == right@),
{
    let a = to_chars(left);
    let b = to_chars(right);
    if a.len() != b.len() {
        return false;
    }
    let mut i: usize = 0;
    while i < a.len()
        invariant
            i <= a.len(),
            a.len() == b.len(),
            a@ == left@,
            b@ == right@,
            forall|k: int| 0 <= k < i ==> a@[k] == b@[k],
        decreases a.len() - i,
    {
        if a[i] != b[i] {
            return false;
        }
        i += 1;
    }
    assert(left@ =~= right@);
    true
}

// ---- whitespace ----

/// Whether a character has the Unicode property `White_Space`.
pub open spec fn white_space(c: char) -> bool {
    ||| '\u{9}' <= c <= '\u{d}'
    ||| c == '\u{20}'
    ||| c == '\u{85}'
    ||| c == '\u{a0}'
    ||| c == '\u{1680}'
    ||| '\u{2000}' <= c <= '\u{200a}'
    ||| c == '\u{2028}'
    ||| c == '\u{2029}'
    ||| c == '\u{202f}'
    ||| c == '\u{205f}'
    ||| c == '\u{3000}'
}

/// Whether a character has the Unicode property `White_Space`.
pub fn is_white_space(c: char) -> (white: bool)
    ensures
        white == white_space(c),
{
    ('\u{9}' <= c && c <= '\u{d}') || c == '\u{20}' || c == '\u{85}' || c == '\u{a0}' || c
        == '\u{1680}' || ('\u{2000}' <= c && c <= '\u{200a}') || c == '\u{2028}' || c == '\u{2029}'
        || c == '\u{202f}' || c == '\u{205f}' || c == '\u{3000}'
}

/// A text without the whitespace it starts with.
pub open spec fn trimmed_start(text: Seq<char>) -> Seq<char>
    decreases text.len(),
{
    if text.len() > 0 && white_space(text[0]) {
        trimmed_start(text.drop_first())
    } else {
        text
    }
}

/// A text without the whitespace it ends with.
pub open spec fn trimmed_end(text: Seq<char>) -> Seq<char>
    decreases text.len(),
{
    if text.len() > 0 && white_space(text.last()) {
        trimmed_end(text.drop_last())
    } else {
        text
    }
}

/// A text without surrounding whitespace.
pub open spec fn trimmed(text: Seq<char>) -> Seq<char> {
    trimmed_end(trimmed_start(text))
}

/// Remove surrounding whitespace.
pub fn trim(text: &str) -> (rest: &str)
    ensures
        rest@ == trimmed(text@),
{
    let chars = to_chars(text);
    let mut start: usize = 0;
    assert(text@.skip(0) =~= text@);
    while start < chars.len() && is_white_space(chars[start])
        invariant
            chars@ == text@,
            start <= chars.len(),
            trimmed_start(text@) == trimmed_start(text@.skip(start as int)),
        decreases chars.len() - start,
    {
        assert(text@.skip(start as int).drop_first() =~= text@.skip(start + 1));
        start += 1;
    }
    assert(trimmed_start(text@) =~= text@.subrange(start as int, text@.len() as int)) by {
        assert(text@.skip(start as int) =~= text@.subrange(start as int, text@.len() as int));
    }

    let mut end: usize = chars.len();
    while end > start && is_white_space(chars[end - 1])
        invariant
            chars@ == text@,
            start <= end <= chars.len(),
            trimmed(text@) == trimmed_end(text@.subrange(start as int, end as int)),
        decreases end - start,
    {
        assert(text@.subrange(start as int, end as int).drop_last() =~= text@.subrange(
            start as int,
            end - 1,
        ));
        end -= 1;
    }
    text.substring_char(start, end)
}

/// Surrounding whitespace is gone once it has been removed: doing so twice changes
/// nothing more.
pub proof fn trimming_is_idempotent(text: Seq<char>)
    ensures
        trimmed(trimmed(text)) == trimmed(text),
        trimmed(text).len() > 0 ==> !white_space(trimmed(text)[0]) && !white_space(
            trimmed(text).last(),
        ),
{
    lemma_trimmed_start(text);
    lemma_trimmed_end(trimmed_start(text));
    let once = trimmed(text);
    if once.len() > 0 {
        assert(once[0] == trimmed_start(text)[0]);
    }
}

proof fn lemma_trimmed_start(text: Seq<char>)
    ensures
        trimmed_start(text).len() > 0 ==> !white_space(trimmed_start(text)[0]),
    decreases text.len(),
{
    if text.len() > 0 && white_space(text[0]) {
        lemma_trimmed_start(text.drop_first());
    }
}

proof fn lemma_trimmed_end(text: Seq<char>)
    ensures
        trimmed_end(text).len() <= text.len(),
        trimmed_end(text) == text.take(trimmed_end(text).len() as int),
        trimmed_end(text).len() > 0 ==> !white_space(trimmed_end(text).last()),
    decreases text.len(),
{
    if text.len() > 0 && white_space(text.last()) {
        lemma_trimmed_end(text.drop_last());
    }
    assert(trimmed_end(text) =~= text.take(trimmed_end(text).len() as int));
}

/// Trimming only takes characters away: what a text does not hold, the trimmed text does
/// not hold either, and an ASCII text stays one.
pub proof fn trimming_adds_nothing(text: Seq<char>, character: char)
    ensures
        ascii_text(text) ==> ascii_text(trimmed(text)),
        free_of(text, character) ==> free_of(trimmed(text), character),
{
    lemma_trimmed_start_part(text, character);
    lemma_trimmed_end(trimmed_start(text));
}

proof fn lemma_trimmed_start_part(text: Seq<char>, character: char)
    ensures
        ascii_text(text) ==> ascii_text(trimmed_start(text)),
        free_of(text, character) ==> free_of(trimmed_start(text), character),
    decreases text.len(),
{
    if text.len() > 0 && white_space(text[0]) {
        lemma_trimmed_start_part(text.drop_first(), character);
    }
}

// ---- splitting ----

/// The pieces of a text between the occurrences of a separator. There is always one
/// more piece than there are separators, so an empty text is one empty piece.
pub open spec fn pieces(text: Seq<char>, separator: char) -> Seq<Seq<char>>
    decreases text.len(),
{
    if text.len() == 0 {
        seq![Seq::empty()]
    } else {
        let before = pieces(text.drop_last(), separator);
        if text.last() == separator {
            before.push(Seq::empty())
        } else {
            before.drop_last().push(before.last().push(text.last()))
        }
    }
}

/// Split a text at every occurrence of a separator.
pub fn split_on(text: &str, separator: char) -> (split: Vec<&str>)
    ensures
        split.deep_view() == pieces(text@, separator),
{
    let chars = to_chars(text);
    let mut split: Vec<&str> = Vec::new();
    let mut start: usize = 0;
    let mut i: usize = 0;
    assert(text@.take(0) =~= Seq::empty());
    assert(pieces(text@.take(0), separator) =~= split.deep_view().push(text@.subrange(0, 0)));
    while i < chars.len()
        invariant
            chars@ == text@,
            start <= i <= chars.len(),
            pieces(text@.take(i as int), separator) == split.deep_view().push(
                text@.subrange(start as int, i as int),
            ),
        decreases chars.len() - i,
    {
        let ghost before = split.deep_view();
        let ghost piece = text@.subrange(start as int, i as int);
        assert(text@.take(i + 1).drop_last() =~= text@.take(i as int));
        if chars[i] == separator {
            split.push(text.substring_char(start, i));
            start = i + 1;
            assert(split.deep_view() =~= before.push(piece));
            assert(text@.subrange(start as int, i + 1) =~= Seq::empty());
        } else {
            assert(before.push(piece).drop_last() =~= before);
            assert(text@.subrange(start as int, i + 1) =~= piece.push(text@[i as int]));
        }
        i += 1;
    }
    assert(text@.take(i as int) =~= text@);
    let ghost before = split.deep_view();
    split.push(text.substring_char(start, i));
    assert(split.deep_view() =~= before.push(text@.subrange(start as int, i as int)));
    split
}

/// Pieces put back together with a separator between them.
pub open spec fn joined(parts: Seq<Seq<char>>, separator: char) -> Seq<char>
    decreases parts.len(),
{
    if parts.len() == 0 {
        Seq::empty()
    } else if parts.len() == 1 {
        parts[0]
    } else {
        joined(parts.drop_last(), separator).push(separator) + parts.last()
    }
}

/// Splitting loses nothing: the pieces of a text joined by the separator are the text.
pub proof fn pieces_join_back(text: Seq<char>, separator: char)
    ensures
        pieces(text, separator).len() >= 1,
        joined(pieces(text, separator), separator) == text,
    decreases text.len(),
{
    if text.len() > 0 {
        pieces_join_back(text.drop_last(), separator);
        let before = pieces(text.drop_last(), separator);
        let split = pieces(text, separator);
        if text.last() == separator {
            assert(split.drop_last() =~= before);
            assert(joined(split, separator) =~= text);
        } else {
            assert(split.drop_last() =~= before.drop_last());
            assert(joined(split, separator) =~= joined(before, separator).push(text.last()));
            assert(text =~= text.drop_last().push(text.last()));
        }
    } else {
        assert(joined(pieces(text, separator), separator) =~= text);
    }
}

/// Whether a text holds a character nowhere.
pub open spec fn free_of(text: Seq<char>, character: char) -> bool {
    forall|i: int| 0 <= i < text.len() ==> #[trigger] text[i] != character
}

proof fn lemma_pieces_append(text: Seq<char>, more: Seq<char>, separator: char)
    requires
        free_of(more, separator),
    ensures
        pieces(text + more, separator) == pieces(text, separator).drop_last().push(
            pieces(text, separator).last() + more,
        ),
    decreases more.len(),
{
    pieces_join_back(text, separator);
    if more.len() == 0 {
        assert(text + more =~= text);
        assert(pieces(text, separator).last() + more =~= pieces(text, separator).last());
        assert(pieces(text, separator) =~= pieces(text, separator).drop_last().push(
            pieces(text, separator).last(),
        ));
    } else {
        let shorter = more.drop_last();
        assert forall|i: int| 0 <= i < shorter.len() implies #[trigger] shorter[i] != separator by {
            assert(shorter[i] == more[i]);
        }
        lemma_pieces_append(text, shorter, separator);
        assert((text + more).drop_last() =~= text + shorter);
        assert(pieces(text, separator).last() + more =~= (pieces(text, separator).last()
            + shorter).push(more.last()));
        assert(pieces(text + more, separator) =~= pieces(text, separator).drop_last().push(
            pieces(text, separator).last() + more,
        ));
    }
}

/// Splitting a join of texts that are free of the separator gives the texts back.
pub proof fn splitting_undoes_joining(parts: Seq<Seq<char>>, separator: char)
    requires
        parts.len() >= 1,
        forall|i: int| 0 <= i < parts.len() ==> free_of(#[trigger] parts[i], separator),
    ensures
        pieces(joined(parts, separator), separator) == parts,
    decreases parts.len(),
{
    if parts.len() == 1 {
        assert(free_of(parts[0], separator));
        lemma_pieces_append(Seq::empty(), parts[0], separator);
        assert(Seq::empty() + parts[0] =~= parts[0]);
        assert(pieces(parts[0], separator) =~= parts);
    } else {
        let shorter = parts.drop_last();
        assert forall|i: int| 0 <= i < shorter.len() implies free_of(
            #[trigger] shorter[i],
            separator,
        ) by {
            assert(shorter[i] == parts[i]);
        }
        splitting_undoes_joining(shorter, separator);
        let head = joined(shorter, separator).push(separator);
        assert(head.drop_last() =~= joined(shorter, separator));
        assert(pieces(head, separator) == shorter.push(Seq::empty()));
        assert(free_of(parts[parts.len() - 1], separator));
        lemma_pieces_append(head, parts.last(), separator);
        assert(Seq::empty() + parts.last() =~= parts.last());
        assert(pieces(head, separator).drop_last() =~= shorter);
        assert(pieces(joined(parts, separator), separator) =~= parts);
    }
}

/// Two texts with a separator between them split into the pieces of the first followed by
/// those of the second.
pub proof fn splitting_at_a_separator(left: Seq<char>, right: Seq<char>, separator: char)
    ensures
        pieces(left.push(separator) + right, separator) == pieces(left, separator) + pieces(
            right,
            separator,
        ),
    decreases right.len(),
{
    let whole = left.push(separator) + right;
    if right.len() == 0 {
        assert(whole =~= left.push(separator));
        assert(left.push(separator).drop_last() =~= left);
        assert(pieces(right, separator) =~= seq![Seq::<char>::empty()]);
        assert(pieces(whole, separator) =~= pieces(left, separator) + pieces(right, separator));
    } else {
        let shorter = right.drop_last();
        splitting_at_a_separator(left, shorter, separator);
        pieces_join_back(shorter, separator);
        assert(whole.drop_last() =~= left.push(separator) + shorter);
        assert(whole.last() == right.last());
        assert(pieces(whole, separator) =~= pieces(left, separator) + pieces(right, separator));
    }
}

/// Splitting only takes separators away: no piece holds one, and the pieces of an ASCII
/// text are ASCII texts.
pub proof fn splitting_adds_nothing(text: Seq<char>, separator: char)
    ensures
        forall|k: int|
            0 <= k < pieces(text, separator).len() ==> free_of(
                #[trigger] pieces(text, separator)[k],
                separator,
            ),
        ascii_text(text) ==> forall|k: int|
            0 <= k < pieces(text, separator).len() ==> ascii_text(
                #[trigger] pieces(text, separator)[k],
            ),
    decreases text.len(),
{
    if text.len() > 0 {
        let shorter = text.drop_last();
        splitting_adds_nothing(shorter, separator);
        pieces_join_back(shorter, separator);
        if ascii_text(text) {
            assert forall|i: int| 0 <= i < shorter.len() implies (#[trigger] shorter[i])
                <= '\u{7f}' by {
                assert(shorter[i] == text[i]);
            }
            assert(text[text.len() - 1] <= '\u{7f}');
        }
        let before = pieces(shorter, separator);
        let after = pieces(text, separator);
        assert(free_of(before[before.len() - 1], separator));
        assert forall|k: int| 0 <= k < after.len() implies free_of(
            #[trigger] after[k],
            separator,
        ) by {
            if k < after.len() - 1 {
                assert(after[k] == before[k]);
            }
        }
        if ascii_text(text) {
            assert(ascii_text(before[before.len() - 1]));
            assert forall|k: int| 0 <= k < after.len() implies ascii_text(#[trigger] after[k]) by {
                if k < after.len() - 1 {
                    assert(after[k] == before[k]);
                }
            }
        }
    }
}

/// A text without separators is one piece.
pub proof fn an_unseparated_text_is_one_piece(text: Seq<char>, separator: char)
    requires
        free_of(text, separator),
    ensures
        pieces(text, separator) == seq![text],
{
    lemma_pieces_append(Seq::empty(), text, separator);
    assert(Seq::empty() + text =~= text);
    assert(pieces(text, separator) =~= seq![text]);
}

/// A line without the carriage return that belongs to its line ending.
pub open spec fn without_carriage_return(line: Seq<char>) -> Seq<char> {
    if line.len() > 0 && line.last() == '\r' {
        line.drop_last()
    } else {
        line
    }
}

/// The lines of a text. A line ends at a line feed or at a carriage return followed by
/// one; the ending of the last line is optional.
pub open spec fn lines_of(text: Seq<char>) -> Seq<Seq<char>> {
    let split = pieces(text, '\n');
    let ended = Seq::new((split.len() - 1) as nat, |i: int| without_carriage_return(split[i]));
    if split.last().len() == 0 {
        ended
    } else {
        ended.push(split.last())
    }
}

/// Split a text into its lines.
pub fn lines(text: &str) -> (lines: Vec<&str>)
    ensures
        lines.deep_view() == lines_of(text@),
{
    let split = split_on(text, '\n');
    proof {
        pieces_join_back(text@, '\n');
    }
    let ghost model = pieces(text@, '\n');
    assert(model.len() == split.len());
    let last: usize = split.len() - 1;
    let mut lines: Vec<&str> = Vec::new();
    let mut i: usize = 0;
    while i < last
        invariant
            split.deep_view() == model,
            last == split.len() - 1,
            i <= last,
            lines.deep_view() =~= Seq::new(i as nat, |k: int| without_carriage_return(model[k])),
        decreases last - i,
    {
        let line = split[i];
        assert(line@ == model[i as int]);
        let length = line.unicode_len();
        let ghost before = lines.deep_view();
        if length > 0 && line.get_char(length - 1) == '\r' {
            let kept = line.substring_char(0, length - 1);
            assert(kept@ =~= without_carriage_return(model[i as int]));
            lines.push(kept);
        } else {
            lines.push(line);
        }
        assert(lines.deep_view() =~= before.push(without_carriage_return(model[i as int])));
        i += 1;
    }
    assert(split[last as int]@ == model.last());
    if !split[last].is_empty() {
        let ghost before = lines.deep_view();
        lines.push(split[last]);
        assert(lines.deep_view() =~= before.push(model.last()));
    }
    assert(lines.deep_view() =~= lines_of(text@));
    lines
}

// ---- prefixes, suffixes and single characters ----

/// Whether a text ends with another.
pub fn ends_with(text: &str, suffix: &str) -> (ends: bool)
    ensures
        ends == suffix@.is_suffix_of(text@),
{
    let whole = text.unicode_len();
    let part = suffix.unicode_len();
    if part > whole {
        return false;
    }
    let tail = text.substring_char(whole - part, whole);
    same_text(tail, suffix)
}

/// Whether a text starts with a given character.
pub fn starts_with_char(text: &str, character: char) -> (starts: bool)
    ensures
        starts == (text@.len() > 0 && text@[0] == character),
{
    text.unicode_len() > 0 && text.get_char(0) == character
}

/// Whether a text ends with a given character.
pub fn ends_with_char(text: &str, character: char) -> (ends: bool)
    ensures
        ends == (text@.len() > 0 && text@.last() == character),
{
    let length = text.unicode_len();
    length > 0 && text.get_char(length - 1) == character
}

/// Whether a character separates the components of a Windows path.
pub open spec fn is_path_separator(c: char) -> bool {
    c == '\\' || c == '/'
}

/// A path without the separators it ends with.
pub open spec fn without_trailing_separators(path: Seq<char>) -> Seq<char>
    decreases path.len(),
{
    if path.len() > 0 && is_path_separator(path.last()) {
        without_trailing_separators(path.drop_last())
    } else {
        path
    }
}

/// Remove every separator a path ends with.
pub fn trim_end_separators(path: &str) -> (rest: &str)
    ensures
        rest@ == without_trailing_separators(path@),
{
    let chars = to_chars(path);
    let mut end: usize = chars.len();
    assert(path@.take(end as int) =~= path@);
    while end > 0 && (chars[end - 1] == '\\' || chars[end - 1] == '/')
        invariant
            chars@ == path@,
            end <= chars.len(),
            without_trailing_separators(path@) == without_trailing_separators(
                path@.take(end as int),
            ),
        decreases end,
    {
        assert(path@.take(end as int).drop_last() =~= path@.take(end - 1));
        end -= 1;
    }
    assert(path@.take(end as int) =~= path@.subrange(0, end as int));
    path.substring_char(0, end)
}

// ---- case ----

/// Whether two texts are equal but for the case of ASCII letters.
pub open spec fn equal_ignoring_ascii_case(left: Seq<char>, right: Seq<char>) -> bool {
    &&& left.len() == right.len()
    &&& forall|i: int|
        0 <= i < left.len() ==> ascii_lower(#[trigger] left[i]) == ascii_lower(right[i])
}

fn to_ascii_lower(c: char) -> (lower: char)
    ensures
        lower == ascii_lower(c),
{
    if 'A' <= c && c <= 'Z' {
        ((c as u8) + 32) as char
    } else {
        c
    }
}

/// Compare two texts, taking ASCII letters of either case as equal.
pub fn eq_ignore_ascii_case(left: &str, right: &str) -> (equal: bool)
    ensures
        equal == equal_ignoring_ascii_case(left@, right@),
{
    let a = to_chars(left);
    let b = to_chars(right);
    if a.len() != b.len() {
        return false;
    }
    let mut i: usize = 0;
    while i < a.len()
        invariant
            i <= a.len(),
            a.len() == b.len(),
            a@ == left@,
            b@ == right@,
            forall|k: int| 0 <= k < i ==> ascii_lower(#[trigger] left@[k]) == ascii_lower(right@[k]),
        decreases a.len() - i,
    {
        if to_ascii_lower(a[i]) != to_ascii_lower(b[i]) {
            assert(left@[i as int] == a@[i as int]);
            return false;
        }
        i += 1;
    }
    true
}

// ---- order ----

/// Whether one text sorts strictly before another: by the first character in which
/// they differ, or by being a proper prefix.
pub open spec fn sorts_before(left: Seq<char>, right: Seq<char>) -> bool
    decreases left.len(),
{
    if right.len() == 0 {
        false
    } else if left.len() == 0 {
        true
    } else if left[0] != right[0] {
        left[0] < right[0]
    } else {
        sorts_before(left.drop_first(), right.drop_first())
    }
}

/// Whether one text sorts strictly before another.
pub fn text_sorts_before(left: &str, right: &str) -> (before: bool)
    ensures
        before == sorts_before(left@, right@),
{
    let a = to_chars(left);
    let b = to_chars(right);
    let mut i: usize = 0;
    assert(a@.skip(0) =~= a@);
    assert(b@.skip(0) =~= b@);
    while i < a.len() && i < b.len() && a[i] == b[i]
        invariant
            a@ == left@,
            b@ == right@,
            i <= a.len(),
            i <= b.len(),
            sorts_before(left@, right@) == sorts_before(a@.skip(i as int), b@.skip(i as int)),
        decreases a.len() - i,
    {
        assert(a@.skip(i as int).drop_first() =~= a@.skip(i + 1));
        assert(b@.skip(i as int).drop_first() =~= b@.skip(i + 1));
        i += 1;
    }
    if i >= b.len() {
        false
    } else if i >= a.len() {
        true
    } else {
        a[i] < b[i]
    }
}

/// Exactly one of two different texts sorts before the other, and none before itself.
pub proof fn text_order_is_total(left: Seq<char>, right: Seq<char>)
    ensures
        !sorts_before(left, left),
        left != right ==> sorts_before(left, right) != sorts_before(right, left),
        sorts_before(left, right) ==> left != right && !sorts_before(right, left),
    decreases left.len(),
{
    if left.len() > 0 {
        if right.len() > 0 && left[0] == right[0] {
            text_order_is_total(left.drop_first(), right.drop_first());
            if left.drop_first() == right.drop_first() {
                assert(left =~= seq![left[0]] + left.drop_first());
                assert(right =~= seq![right[0]] + right.drop_first());
            }
        } else {
            text_order_is_total(left.drop_first(), left.drop_first());
        }
    } else if right.len() == 0 {
        assert(left =~= right);
    }
}

/// The order of texts is transitive.
pub proof fn text_order_is_transitive(first: Seq<char>, second: Seq<char>, third: Seq<char>)
    requires
        sorts_before(first, second),
        sorts_before(second, third),
    ensures
        sorts_before(first, third),
    decreases first.len(),
{
    if first.len() > 0 && first[0] == second[0] && second[0] == third[0] {
        text_order_is_transitive(first.drop_first(), second.drop_first(), third.drop_first());
    }
}

// ---- numbers and columns ----

/// One decimal digit.
pub open spec fn digit(value: nat) -> char {
    (48 + value) as char
}

/// A number in decimal, without leading zeros.
pub open spec fn decimal(value: nat) -> Seq<char>
    decreases value,
{
    if value < 10 {
        seq![digit(value)]
    } else {
        decimal(value / 10).push(digit(value % 10))
    }
}

/// Write a number in decimal.
pub fn to_decimal(value: u128) -> (text: String)
    ensures
        text@ == decimal(value as nat),
    decreases value,
{
    let mut text = if value < 10 {
        String::new()
    } else {
        to_decimal(value / 10)
    };
    text.push((48 + (value % 10) as u8) as char);
    assert(text@ =~= decimal(value as nat));
    text
}

/// How many digits a number has in decimal.
pub fn decimal_width(value: usize) -> (width: usize)
    ensures
        width == decimal(value as nat).len(),
        1 <= width <= 20,
{
    proof {
        lemma_decimal_bound(value as nat);
    }
    let mut width: usize = 1;
    let mut remaining = value;
    while remaining >= 10
        invariant
            width >= 1,
            width + decimal(remaining as nat).len() == decimal(value as nat).len() + 1,
            1 <= decimal(value as nat).len() <= 20,
            forall|n: nat| #[trigger] decimal(n).len() >= 1,
        decreases remaining,
    {
        remaining /= 10;
        width += 1;
    }
    width
}

proof fn lemma_decimal_bound(value: nat)
    requires
        value <= usize::MAX,
    ensures
        1 <= decimal(value).len() <= 20,
        forall|n: nat| #[trigger] decimal(n).len() >= 1,
{
    assert forall|n: nat| #[trigger] decimal(n).len() >= 1 by {
        lemma_decimal_nonempty(n);
    }
    reveal_with_fuel(decimal, 21);
}

proof fn lemma_decimal_nonempty(value: nat)
    ensures
        decimal(value).len() >= 1,
    decreases value,
{
    if value >= 10 {
        lemma_decimal_nonempty(value / 10);
    }
}

/// A run of blanks.
pub open spec fn blanks(count: nat) -> Seq<char> {
    Seq::new(count, |i: int| ' ')
}

/// A text filled up with blanks on the right to a minimum width.
pub open spec fn padded_right(text: Seq<char>, width: nat) -> Seq<char> {
    if text.len() < width {
        text + blanks((width - text.len()) as nat)
    } else {
        text
    }
}

/// A text filled up with blanks on the left to a minimum width.
pub open spec fn padded_left(text: Seq<char>, width: nat) -> Seq<char> {
    if text.len() < width {
        blanks((width - text.len()) as nat) + text
    } else {
        text
    }
}

/// Append a run of blanks.
pub fn push_blanks(out: &mut String, count: usize)
    ensures
        final(out)@ == old(out)@ + blanks(count as nat),
{
    let ghost start = out@;
    let mut i: usize = 0;
    assert(out@ =~= start + blanks(0));
    while i < count
        invariant
            i <= count,
            out@ == start + blanks(i as nat),
        decreases count - i,
    {
        out.push(' ');
        i += 1;
        assert(out@ =~= start + blanks(i as nat));
    }
}

/// Append a text filled up with blanks on the right.
pub fn push_padded_right(out: &mut String, text: &str, width: usize)
    ensures
        final(out)@ == old(out)@ + padded_right(text@, width as nat),
{
    let ghost start = out@;
    let length = text.unicode_len();
    out.append(text);
    if length < width {
        push_blanks(out, width - length);
        assert(out@ =~= start + padded_right(text@, width as nat));
    }
}

/// Append a text filled up with blanks on the left.
pub fn push_padded_left(out: &mut String, text: &str, width: usize)
    ensures
        final(out)@ == old(out)@ + padded_left(text@, width as nat),
{
    let ghost start = out@;
    let length = text.unicode_len();
    if length < width {
        push_blanks(out, width - length);
    }
    out.append(text);
    assert(out@ =~= start + padded_left(text@, width as nat));
}

// ---- what these operations are for ----

/// Whether a text is nothing but whitespace.
pub open spec fn all_white(text: Seq<char>) -> bool {
    forall|i: int| 0 <= i < text.len() ==> white_space(#[trigger] text[i])
}

/// Trimming removes the whitespace around a text, all of it and nothing else.
pub proof fn trimming_removes_surrounding_whitespace(
    before: Seq<char>,
    core: Seq<char>,
    after: Seq<char>,
)
    requires
        all_white(before),
        all_white(after),
        core.len() == 0 || (!white_space(core[0]) && !white_space(core.last())),
    ensures
        trimmed(before + core + after) == core,
{
    if core.len() == 0 {
        let blank = before + core + after;
        assert(all_white(blank));
        lemma_white_start(blank, Seq::empty());
        assert(blank + Seq::<char>::empty() =~= blank);
        assert(trimmed(blank) =~= core);
    } else {
        let rest = core + after;
        assert(before + core + after =~= before + rest);
        lemma_white_start(before, rest);
        assert(rest[0] == core[0]);
        lemma_white_end(core, after);
    }
}

proof fn lemma_white_start(white: Seq<char>, rest: Seq<char>)
    requires
        all_white(white),
    ensures
        trimmed_start(white + rest) == trimmed_start(rest),
    decreases white.len(),
{
    if white.len() > 0 {
        assert(white_space(white[0]));
        let shorter = white.drop_first();
        assert forall|i: int| 0 <= i < shorter.len() implies white_space(#[trigger] shorter[i]) by {
            assert(white_space(white[i + 1]));
        }
        lemma_white_start(shorter, rest);
        assert((white + rest).drop_first() =~= shorter + rest);
    } else {
        assert(white + rest =~= rest);
    }
}

proof fn lemma_white_end(core: Seq<char>, white: Seq<char>)
    requires
        all_white(white),
        core.len() > 0,
        !white_space(core.last()),
    ensures
        trimmed_end(core + white) == core,
    decreases white.len(),
{
    if white.len() > 0 {
        assert(white_space(white[white.len() - 1]));
        let shorter = white.drop_last();
        assert forall|i: int| 0 <= i < shorter.len() implies white_space(#[trigger] shorter[i]) by {
            assert(white_space(white[i]));
        }
        lemma_white_end(core, shorter);
        assert((core + white).drop_last() =~= core + shorter);
    } else {
        assert(core + white =~= core);
    }
}

/// No visible ASCII character is whitespace, a blank and the control characters from tab to
/// carriage return are, and beyond ASCII the characters are these.
pub proof fn these_characters_are_whitespace(c: char)
    ensures
        white_space(c) <==> {
            let code = c as int;
            ||| code == 9 || code == 10 || code == 11 || code == 12 || code == 13 || code == 32
            ||| code == 133 || code == 160 || code == 5760 || code == 12288
            ||| code == 8232 || code == 8233 || code == 8239 || code == 8287
            ||| 8192 <= code && code <= 8202
        },
        '!' <= c <= '~' ==> !white_space(c),
{
}

/// Upper-case ASCII letters move to their lower-case forms, and no other character moves.
pub proof fn only_letters_change_case(c: char)
    ensures
        65 <= c as int <= 90 ==> ascii_lower(c) as int == c as int + 32,
        !(65 <= c as int <= 90) ==> ascii_lower(c) == c,
{
}

/// A line ends at a line feed, which does not belong to it, nor does one carriage return in
/// front of the line feed; what follows are the lines of the rest.
pub proof fn a_line_ends_at_a_line_feed(line: Seq<char>, rest: Seq<char>)
    requires
        free_of(line, '\n'),
    ensures
        line.len() == 0 || line.last() != '\r' ==> lines_of(line.push('\n') + rest) == seq![line]
            + lines_of(rest),
        lines_of(line.push('\r').push('\n') + rest) == seq![line] + lines_of(rest),
{
    lemma_first_line(line, rest);
    let returned = line.push('\r');
    assert forall|i: int| 0 <= i < returned.len() implies #[trigger] returned[i] != '\n' by {
        if i < line.len() {
            assert(returned[i] == line[i]);
        }
    }
    lemma_first_line(returned, rest);
    assert(returned.drop_last() =~= line);
}

proof fn lemma_first_line(line: Seq<char>, rest: Seq<char>)
    requires
        free_of(line, '\n'),
    ensures
        lines_of(line.push('\n') + rest) == seq![without_carriage_return(line)] + lines_of(rest),
{
    an_unseparated_text_is_one_piece(line, '\n');
    splitting_at_a_separator(line, rest, '\n');
    pieces_join_back(rest, '\n');
    let split = pieces(rest, '\n');
    let all = pieces(line.push('\n') + rest, '\n');
    assert(all =~= seq![line] + split);
    assert(all.last() == split.last());
    assert(lines_of(line.push('\n') + rest) =~= seq![without_carriage_return(line)] + lines_of(
        rest,
    ));
}

/// A text without line feeds is one line, unless it is empty: then it is none.
pub proof fn the_last_line_needs_no_ending(line: Seq<char>)
    requires
        free_of(line, '\n'),
    ensures
        line.len() > 0 ==> lines_of(line) == seq![line],
        line.len() == 0 ==> lines_of(line) == Seq::<Seq<char>>::empty(),
{
    an_unseparated_text_is_one_piece(line, '\n');
    if line.len() > 0 {
        assert(lines_of(line) =~= seq![line]);
    } else {
        assert(lines_of(line) =~= Seq::empty());
    }
}

/// The first character in which two texts differ decides which sorts first.
pub proof fn the_first_difference_decides(
    common: Seq<char>,
    x: char,
    y: char,
    left: Seq<char>,
    right: Seq<char>,
)
    requires
        x != y,
    ensures
        sorts_before(common + seq![x] + left, common + seq![y] + right) <==> x < y,
    decreases common.len(),
{
    let a = common + seq![x] + left;
    let b = common + seq![y] + right;
    if common.len() > 0 {
        let rest = common.drop_first();
        the_first_difference_decides(rest, x, y, left, right);
        assert(a.drop_first() =~= rest + seq![x] + left);
        assert(b.drop_first() =~= rest + seq![y] + right);
        assert(a[0] == b[0]);
    } else {
        assert(a[0] == x && b[0] == y);
    }
}

/// A text sorts before every longer one that starts with it.
pub proof fn a_prefix_sorts_first(text: Seq<char>, more: Seq<char>)
    requires
        more.len() > 0,
    ensures
        sorts_before(text, text + more),
    decreases text.len(),
{
    if text.len() > 0 {
        a_prefix_sorts_first(text.drop_first(), more);
        assert((text + more).drop_first() =~= text.drop_first() + more);
    }
}

/// The number that a run of decimal digits stands for.
pub open spec fn value_of(digits: Seq<char>) -> int
    decreases digits.len(),
{
    if digits.len() == 0 {
        0
    } else {
        10 * value_of(digits.drop_last()) + (digits.last() as int - '0' as int)
    }
}

/// A number written in decimal reads as that number, is made of digits alone, and starts
/// with a zero only where it is zero.
pub proof fn a_decimal_reads_as_its_number(value: nat)
    ensures
        value_of(decimal(value)) == value,
        decimal(value).len() >= 1,
        forall|i: int| 0 <= i < decimal(value).len() ==> '0' <= #[trigger] decimal(value)[i] <= '9',
        value > 0 ==> decimal(value)[0] != '0',
        value == 0 ==> decimal(value) == seq!['0'],
    decreases value,
{
    reveal_with_fuel(value_of, 2);
    let text = decimal(value);
    if value < 10 {
        assert(text.drop_last() =~= Seq::empty());
        assert(text.last() as int == 48 + value);
        if value == 0 {
            assert(text =~= seq!['0']);
        }
    } else {
        a_decimal_reads_as_its_number(value / 10);
        assert(text.drop_last() =~= decimal(value / 10));
        assert(text.last() as int == 48 + value % 10);
        assert(text[0] == decimal(value / 10)[0]);
    }
}

/// Padding keeps the text and adds nothing but blanks, on the one side, up to the width.
pub proof fn padding_adds_blanks_up_to_the_width(text: Seq<char>, width: nat)
    ensures
        text.is_prefix_of(padded_right(text, width)),
        text.is_suffix_of(padded_left(text, width)),
        padded_right(text, width).len() == if text.len() < width {
            width
        } else {
            text.len()
        },
        padded_left(text, width).len() == padded_right(text, width).len(),
        forall|i: int|
            text.len() <= i < padded_right(text, width).len() ==> #[trigger] padded_right(
                text,
                width,
            )[i] == ' ',
        forall|i: int|
            0 <= i < padded_left(text, width).len() - text.len() ==> #[trigger] padded_left(
                text,
                width,
            )[i] == ' ',
{
    let right = padded_right(text, width);
    let left = padded_left(text, width);
    assert(right.take(text.len() as int) =~= text);
    assert(left.subrange(left.len() - text.len(), left.len() as int) =~= text);
}

/// Two texts are equal but for the case of ASCII letters exactly when they are equal once
/// those letters are in lower case.
pub proof fn equal_but_for_case_means_equal_in_lower_case(left: Seq<char>, right: Seq<char>)
    ensures
        equal_ignoring_ascii_case(left, right) <==> ascii_lowercase(left) == ascii_lowercase(right),
{
    let a = ascii_lowercase(left);
    let b = ascii_lowercase(right);
    if equal_ignoring_ascii_case(left, right) {
        assert(a =~= b);
    }
    if a == b {
        assert(a.len() == left.len() && b.len() == right.len());
        assert forall|i: int| 0 <= i < left.len() implies ascii_lower(#[trigger] left[i])
            == ascii_lower(right[i]) by {
            assert(a[i] == b[i]);
        }
    }
}

} // verus!
