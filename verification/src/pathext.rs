//! Which files are programs.
//!
//! Windows tries each extension in `PATHEXT` in order, so their order is precedence. It is
//! read from the environment rather than hard-coded: a machine may list more extensions
//! than the documented default does.

use vstd::prelude::*;

use crate::compose::{answers, takes_any_name};
use crate::text::{
    all_white, ascii_lower, ascii_lowercase, ascii_text, ends_with, equal_ignoring_ascii_case,
    free_of, joined, lowercase, only_letters_change_case, pieces, split_on,
    splitting_adds_nothing, splitting_undoes_joining, starts_with_char, trim, trimmed, trimmed_end,
    trimmed_start, trimming_adds_nothing, trimming_is_idempotent,
    trimming_removes_surrounding_whitespace, white_space,
};

verus! {

/// `PATHEXT` as Windows documents it, used only when the environment is silent.
pub const DEFAULT_PATHEXT: &'static str = ".COM;.EXE;.BAT;.CMD;.VBS;.VBE;.JS;.JSE;.WSF;.WSH;.MSC";

// ---- which extensions count ----

/// An extension with the dot it must start with.
pub open spec fn dotted(extension: Seq<char>) -> Seq<char> {
    if extension.len() > 0 && extension[0] == '.' {
        extension
    } else {
        seq!['.'] + extension
    }
}

/// The extension one piece of a `PATHEXT` value stands for.
pub open spec fn extension_of(piece: Seq<char>) -> Seq<char> {
    dotted(lowercase(trimmed(piece)))
}

/// The extensions some pieces of a `PATHEXT` value stand for: blank pieces stand for
/// none, and a repeat counts only where it stands first.
pub open spec fn extension_list(split: Seq<Seq<char>>) -> Seq<Seq<char>>
    decreases split.len(),
{
    if split.len() == 0 {
        Seq::empty()
    } else {
        let before = extension_list(split.drop_last());
        let extension = extension_of(split.last());
        if trimmed(split.last()).len() == 0 || before.contains(extension) {
            before
        } else {
            before.push(extension)
        }
    }
}

/// The extensions of a `PATHEXT` value, lower-cased, in the order that is their
/// precedence.
pub open spec fn extensions_in(raw: Seq<char>) -> Seq<Seq<char>> {
    extension_list(pieces(raw, ';'))
}

/// The extensions to look for, given what the environment holds for `PATHEXT`.
pub open spec fn extensions_from(configured: Option<Seq<char>>) -> Seq<Seq<char>> {
    let parsed = match configured {
        Some(raw) => extensions_in(raw),
        None => Seq::empty(),
    };
    if parsed.len() == 0 {
        extensions_in(DEFAULT_PATHEXT@)
    } else {
        parsed
    }
}

/// Put the dot an extension must start with in front of it, where it is missing.
pub fn with_dot(extension: String) -> (with: String)
    ensures
        with@ == dotted(extension@),
{
    if starts_with_char(extension.as_str(), '.') {
        extension
    } else {
        let mut with = String::new();
        with.push('.');
        with.append(extension.as_str());
        assert(with@ =~= dotted(extension@));
        with
    }
}

/// Whether a list of texts holds a given one.
fn holds(list: &Vec<String>, text: &String) -> (found: bool)
    ensures
        found == list.deep_view().contains(text@),
{
    let mut i: usize = 0;
    while i < list.len()
        invariant
            i <= list.len(),
            forall|k: int| 0 <= k < i ==> #[trigger] list.deep_view()[k] != text@,
        decreases list.len() - i,
    {
        if list[i] == *text {
            assert(list.deep_view()[i as int] == text@);
            return true;
        }
        i += 1;
    }
    false
}

/// Split a `PATHEXT` value into lower-cased extensions, order preserved.
pub fn parse_extensions(raw: &str) -> (extensions: Vec<String>)
    ensures
        extensions.deep_view() == extensions_in(raw@),
{
    let split = split_on(raw, ';');
    let ghost model = pieces(raw@, ';');
    let mut extensions: Vec<String> = Vec::new();
    let mut i: usize = 0;
    assert(extensions.deep_view() =~= extension_list(model.take(0)));
    while i < split.len()
        invariant
            split.deep_view() == model,
            i <= split.len(),
            extensions.deep_view() == extension_list(model.take(i as int)),
        decreases split.len() - i,
    {
        assert(split[i as int]@ == model[i as int]);
        assert(model.take(i + 1).drop_last() =~= model.take(i as int));
        let trimmed_piece = trim(split[i]);
        if !trimmed_piece.is_empty() {
            let extension = with_dot(trimmed_piece.to_lowercase());
            // A repeat would only ever match at its first rank.
            if !holds(&extensions, &extension) {
                let ghost before = extensions.deep_view();
                extensions.push(extension);
                assert(extensions.deep_view() =~= before.push(extension_of(model[i as int])));
            }
        }
        i += 1;
    }
    assert(model.take(i as int) =~= model);
    extensions
}

/// The extensions to look for, given what the environment holds for `PATHEXT`.
pub fn extensions_for(configured: Option<&str>) -> (extensions: Vec<String>)
    ensures
        extensions.deep_view() == extensions_from(configured.deep_view()),
{
    if let Some(raw) = configured {
        let parsed = parse_extensions(raw);
        assert(parsed.deep_view().len() == parsed.len());
        if parsed.len() > 0 {
            return parsed;
        }
    }
    parse_extensions(DEFAULT_PATHEXT)
}

/// Whether some extensions may be what the environment says to look for.
pub open spec fn looks_for<F: Fn(&str) -> Option<String>>(
    lookup: F,
    extensions: Seq<Seq<char>>,
) -> bool {
    exists|configured: Option<Seq<char>>| #[trigger]
        answers(lookup, "PATHEXT"@, configured) && extensions == extensions_from(configured)
}

/// The executable extensions to look for, in `PATHEXT` order.
pub fn extensions<F: Fn(&str) -> Option<String>>(lookup: &F) -> (extensions: Vec<String>)
    requires
        takes_any_name(*lookup),
    ensures
        looks_for(*lookup, extensions.deep_view()),
{
    let configured = lookup("PATHEXT");
    assert(answers(*lookup, "PATHEXT"@, configured.deep_view()));
    match &configured {
        Some(raw) => extensions_for(Some(raw.as_str())),
        None => extensions_for(None),
    }
}

/// Every extension starts with a dot, and none occurs twice.
pub proof fn extensions_are_dotted_and_distinct(raw: Seq<char>)
    ensures
        extensions_in(raw).no_duplicates(),
        forall|i: int|
            0 <= i < extensions_in(raw).len() ==> (#[trigger] extensions_in(raw)[i]).len() > 0
                && extensions_in(raw)[i][0] == '.',
{
    lemma_extension_list(pieces(raw, ';'));
}

proof fn lemma_documented(piece: Seq<char>, extension: Seq<char>)
    requires
        piece.len() > 1,
        piece[0] == '.',
        forall|i: int| 1 <= i < piece.len() ==> 'A' <= #[trigger] piece[i] <= 'Z',
        extension.len() == piece.len(),
        extension[0] == '.',
        forall|i: int|
            1 <= i < piece.len() ==> #[trigger] extension[i] == ascii_lower(piece[i]),
    ensures
        trimmed(piece) == piece,
        extension_of(piece) == extension,
        free_of(piece, ';'),
{
    assert(piece.last() == piece[piece.len() - 1]);
    assert(ascii_lowercase(piece) =~= extension);
}

proof fn lemma_one_more(
    split: Seq<Seq<char>>,
    before: Seq<Seq<char>>,
    piece: Seq<char>,
    extension: Seq<char>,
)
    requires
        extension_list(split) == before,
        trimmed(piece).len() > 0,
        extension_of(piece) == extension,
        forall|i: int|
            0 <= i < before.len() ==> {
                ||| (#[trigger] before[i]).len() != extension.len()
                ||| before[i][1] != extension[1]
                ||| before[i][2] != extension[2]
                ||| before[i][3] != extension[3]
            },
    ensures
        extension_list(split.push(piece)) == before.push(extension),
{
    assert(split.push(piece).drop_last() =~= split);
    assert(!before.contains(extension));
}

/// The documented default stands for these extensions, in this order.
pub proof fn the_documented_extensions()
    ensures
        extensions_in(DEFAULT_PATHEXT@) == seq![
            ".com"@,
            ".exe"@,
            ".bat"@,
            ".cmd"@,
            ".vbs"@,
            ".vbe"@,
            ".js"@,
            ".jse"@,
            ".wsf"@,
            ".wsh"@,
            ".msc"@,
        ],
{
    reveal_strlit(".COM");
    reveal_strlit(".com");
    lemma_documented(".COM"@, ".com"@);
    reveal_strlit(".EXE");
    reveal_strlit(".exe");
    lemma_documented(".EXE"@, ".exe"@);
    reveal_strlit(".BAT");
    reveal_strlit(".bat");
    lemma_documented(".BAT"@, ".bat"@);
    reveal_strlit(".CMD");
    reveal_strlit(".cmd");
    lemma_documented(".CMD"@, ".cmd"@);
    reveal_strlit(".VBS");
    reveal_strlit(".vbs");
    lemma_documented(".VBS"@, ".vbs"@);
    reveal_strlit(".VBE");
    reveal_strlit(".vbe");
    lemma_documented(".VBE"@, ".vbe"@);
    reveal_strlit(".JS");
    reveal_strlit(".js");
    lemma_documented(".JS"@, ".js"@);
    reveal_strlit(".JSE");
    reveal_strlit(".jse");
    lemma_documented(".JSE"@, ".jse"@);
    reveal_strlit(".WSF");
    reveal_strlit(".wsf");
    lemma_documented(".WSF"@, ".wsf"@);
    reveal_strlit(".WSH");
    reveal_strlit(".wsh");
    lemma_documented(".WSH"@, ".wsh"@);
    reveal_strlit(".MSC");
    reveal_strlit(".msc");
    lemma_documented(".MSC"@, ".msc"@);
    reveal_strlit(".COM;.EXE;.BAT;.CMD;.VBS;.VBE;.JS;.JSE;.WSF;.WSH;.MSC");
    let p0 = Seq::<Seq<char>>::empty();
    let e0 = Seq::<Seq<char>>::empty();
    let p1 = p0.push(".COM"@);
    let e1 = e0.push(".com"@);
    lemma_one_more(p0, e0, ".COM"@, ".com"@);
    let p2 = p1.push(".EXE"@);
    let e2 = e1.push(".exe"@);
    lemma_one_more(p1, e1, ".EXE"@, ".exe"@);
    let p3 = p2.push(".BAT"@);
    let e3 = e2.push(".bat"@);
    lemma_one_more(p2, e2, ".BAT"@, ".bat"@);
    let p4 = p3.push(".CMD"@);
    let e4 = e3.push(".cmd"@);
    lemma_one_more(p3, e3, ".CMD"@, ".cmd"@);
    let p5 = p4.push(".VBS"@);
    let e5 = e4.push(".vbs"@);
    lemma_one_more(p4, e4, ".VBS"@, ".vbs"@);
    let p6 = p5.push(".VBE"@);
    let e6 = e5.push(".vbe"@);
    lemma_one_more(p5, e5, ".VBE"@, ".vbe"@);
    let p7 = p6.push(".JS"@);
    let e7 = e6.push(".js"@);
    lemma_one_more(p6, e6, ".JS"@, ".js"@);
    let p8 = p7.push(".JSE"@);
    let e8 = e7.push(".jse"@);
    lemma_one_more(p7, e7, ".JSE"@, ".jse"@);
    let p9 = p8.push(".WSF"@);
    let e9 = e8.push(".wsf"@);
    lemma_one_more(p8, e8, ".WSF"@, ".wsf"@);
    let p10 = p9.push(".WSH"@);
    let e10 = e9.push(".wsh"@);
    lemma_one_more(p9, e9, ".WSH"@, ".wsh"@);
    let p11 = p10.push(".MSC"@);
    let e11 = e10.push(".msc"@);
    lemma_one_more(p10, e10, ".MSC"@, ".msc"@);
    assert(joined(p1, ';') =~= DEFAULT_PATHEXT@.take(4)) by {
        assert(p1.drop_last() =~= p0);
    }
    assert(joined(p2, ';') =~= DEFAULT_PATHEXT@.take(9)) by {
        assert(p2.drop_last() =~= p1);
    }
    assert(joined(p3, ';') =~= DEFAULT_PATHEXT@.take(14)) by {
        assert(p3.drop_last() =~= p2);
    }
    assert(joined(p4, ';') =~= DEFAULT_PATHEXT@.take(19)) by {
        assert(p4.drop_last() =~= p3);
    }
    assert(joined(p5, ';') =~= DEFAULT_PATHEXT@.take(24)) by {
        assert(p5.drop_last() =~= p4);
    }
    assert(joined(p6, ';') =~= DEFAULT_PATHEXT@.take(29)) by {
        assert(p6.drop_last() =~= p5);
    }
    assert(joined(p7, ';') =~= DEFAULT_PATHEXT@.take(33)) by {
        assert(p7.drop_last() =~= p6);
    }
    assert(joined(p8, ';') =~= DEFAULT_PATHEXT@.take(38)) by {
        assert(p8.drop_last() =~= p7);
    }
    assert(joined(p9, ';') =~= DEFAULT_PATHEXT@.take(43)) by {
        assert(p9.drop_last() =~= p8);
    }
    assert(joined(p10, ';') =~= DEFAULT_PATHEXT@.take(48)) by {
        assert(p10.drop_last() =~= p9);
    }
    assert(joined(p11, ';') =~= DEFAULT_PATHEXT@.take(53)) by {
        assert(p11.drop_last() =~= p10);
    }
    assert(DEFAULT_PATHEXT@.take(53) =~= DEFAULT_PATHEXT@);
    splitting_undoes_joining(p11, ';');
}

/// Whether an extension stands for one of some pieces that is not blank.
pub open spec fn stands_for_one(split: Seq<Seq<char>>, extension: Seq<char>) -> bool {
    exists|k: int|
        0 <= k < split.len() && trimmed(#[trigger] split[k]).len() > 0 && extension_of(split[k])
            == extension
}

/// Every extension of a `PATHEXT` value stands for a piece that is not blank, and every
/// piece that is not blank is stood for.
pub proof fn extensions_stand_for_the_pieces(raw: Seq<char>)
    ensures
        forall|extension: Seq<char>| #[trigger]
            extensions_in(raw).contains(extension) <==> stands_for_one(
                pieces(raw, ';'),
                extension,
            ),
{
    lemma_stands_for(pieces(raw, ';'));
}

proof fn lemma_stands_for(split: Seq<Seq<char>>)
    ensures
        forall|extension: Seq<char>| #[trigger]
            extension_list(split).contains(extension) <==> stands_for_one(split, extension),
    decreases split.len(),
{
    if split.len() > 0 {
        let shorter = split.drop_last();
        let before = extension_list(shorter);
        let after = extension_list(split);
        let last = extension_of(split.last());
        lemma_stands_for(shorter);
        assert forall|extension: Seq<char>| #[trigger]
            after.contains(extension) <==> stands_for_one(split, extension) by {
            if after.contains(extension) {
                let i = choose|i: int| 0 <= i < after.len() && after[i] == extension;
                if i < before.len() {
                    assert(before[i] == extension);
                    assert(before.contains(extension));
                    let k = choose|k: int|
                        0 <= k < shorter.len() && trimmed(#[trigger] shorter[k]).len() > 0
                            && extension_of(shorter[k]) == extension;
                    assert(split[k] == shorter[k]);
                } else {
                    assert(split[split.len() - 1] == split.last());
                }
            }
            if stands_for_one(split, extension) {
                let k = choose|k: int|
                    0 <= k < split.len() && trimmed(#[trigger] split[k]).len() > 0
                        && extension_of(split[k]) == extension;
                if k < shorter.len() {
                    assert(shorter[k] == split[k]);
                    assert(stands_for_one(shorter, extension));
                    assert(before.contains(extension));
                } else {
                    assert(extension == last);
                }
                if before.contains(extension) {
                    let i = choose|i: int| 0 <= i < before.len() && before[i] == extension;
                    assert(after[i] == extension);
                } else {
                    assert(after[after.len() - 1] == extension);
                }
            }
        }
    }
}

/// The extensions come in the order in which their pieces appear first: whatever follows
/// some pieces only adds to what they stand for.
pub proof fn extensions_come_in_order_of_appearance(split: Seq<Seq<char>>, n: int)
    requires
        0 <= n <= split.len(),
    ensures
        extension_list(split.take(n)).is_prefix_of(extension_list(split)),
    decreases split.len(),
{
    if n == split.len() {
        assert(split.take(n) =~= split);
    } else {
        extensions_come_in_order_of_appearance(split.drop_last(), n);
        assert(split.drop_last().take(n) =~= split.take(n));
        let first = extension_list(split.take(n));
        let before = extension_list(split.drop_last());
        let all = extension_list(split);
        assert(all.take(first.len() as int) =~= before.take(first.len() as int));
    }
}

/// Whether reading an extension as a piece of a `PATHEXT` value gives it back: it holds no
/// separator, and trimming and lower-casing leave it as it is.
pub open spec fn settled(extension: Seq<char>) -> bool {
    &&& free_of(extension, ';')
    &&& extension_of(extension) == extension
}

proof fn lemma_settled_is_not_blank(extension: Seq<char>)
    requires
        settled(extension),
    ensures
        trimmed(extension).len() > 0,
{
    if trimmed(extension).len() == 0 {
        assert(ascii_lowercase(trimmed(extension)) =~= Seq::empty());
        assert(extension =~= seq!['.']);
        assert(trimmed_start(extension) == extension);
        assert(trimmed_end(extension) == extension);
    }
}

proof fn lemma_settled_list(extensions: Seq<Seq<char>>)
    requires
        extensions.no_duplicates(),
        forall|i: int| 0 <= i < extensions.len() ==> settled(#[trigger] extensions[i]),
    ensures
        extension_list(extensions) == extensions,
    decreases extensions.len(),
{
    if extensions.len() > 0 {
        let shorter = extensions.drop_last();
        assert forall|i: int| 0 <= i < shorter.len() implies settled(#[trigger] shorter[i]) by {
            assert(shorter[i] == extensions[i]);
        }
        lemma_settled_list(shorter);
        assert(settled(extensions[extensions.len() - 1]));
        lemma_settled_is_not_blank(extensions.last());
        assert(!shorter.contains(extensions.last())) by {
            if shorter.contains(extensions.last()) {
                let k = choose|k: int| 0 <= k < shorter.len() && shorter[k] == extensions.last();
                assert(extensions[k] == extensions[extensions.len() - 1]);
            }
        }
        assert(shorter.push(extensions.last()) =~= extensions);
    } else {
        assert(extension_list(extensions) =~= extensions);
    }
}

proof fn lemma_lowered_settles(name: Seq<char>)
    requires
        ascii_text(name),
        name.len() > 0,
        trimmed(name) == name,
        free_of(name, ';'),
    ensures
        settled(dotted(ascii_lowercase(name))),
        ascii_lowercase(dotted(ascii_lowercase(name))) == dotted(ascii_lowercase(name)),
{
    let lowered = ascii_lowercase(name);
    let extension = dotted(lowered);
    trimming_is_idempotent(name);
    assert(lowered.len() == name.len());
    assert(extension[0] == '.');
    assert(extension.last() == lowered.last());
    assert(lowered.last() == ascii_lower(name.last()));
    assert(!white_space(extension[0]) && !white_space(extension.last()));
    assert(trimmed(extension) == extension);
    assert forall|i: int| 0 <= i < extension.len() implies {
        &&& (#[trigger] extension[i]) <= '\u{7f}'
        &&& ascii_lower(extension[i]) == extension[i]
        &&& extension[i] != ';'
    } by {
        let shift = extension.len() - lowered.len();
        if i >= shift {
            assert(extension[i] == lowered[i - shift]);
            assert(name[i - shift] <= '\u{7f}');
            assert(name[i - shift] != ';');
        }
    }
    assert(ascii_text(extension));
    assert(ascii_lowercase(extension) =~= extension);
}

/// Writing the extensions of a `PATHEXT` value out again and reading that gives the same
/// extensions, whenever each of them is settled.
pub proof fn extensions_are_read_back(raw: Seq<char>)
    requires
        forall|i: int|
            0 <= i < extensions_in(raw).len() ==> settled(#[trigger] extensions_in(raw)[i]),
    ensures
        extensions_in(joined(extensions_in(raw), ';')) == extensions_in(raw),
{
    let extensions = extensions_in(raw);
    extensions_are_dotted_and_distinct(raw);
    lemma_settled_list(extensions);
    if extensions.len() > 0 {
        assert forall|i: int| 0 <= i < extensions.len() implies free_of(
            #[trigger] extensions[i],
            ';',
        ) by {
            assert(settled(extensions[i]));
        }
        splitting_undoes_joining(extensions, ';');
    } else {
        let blank = pieces(Seq::<char>::empty(), ';');
        assert(joined(extensions, ';') =~= Seq::<char>::empty());
        assert(blank =~= seq![Seq::<char>::empty()]);
        assert(blank.drop_last() =~= Seq::<Seq<char>>::empty());
        assert(extension_list(blank.drop_last()) =~= Seq::<Seq<char>>::empty());
        assert(trimmed(blank.last()).len() == 0);
        assert(extensions_in(joined(extensions, ';')) =~= extensions);
    }
}

/// The extensions of an ASCII `PATHEXT` value are settled and in lower case, so they are
/// always read back.
///
/// Of other values [`extensions_are_read_back`] says when: nothing is known of lower-casing
/// other text twice.
pub proof fn ascii_extensions_are_read_back(raw: Seq<char>)
    requires
        ascii_text(raw),
    ensures
        extensions_in(joined(extensions_in(raw), ';')) == extensions_in(raw),
        forall|i: int|
            0 <= i < extensions_in(raw).len() ==> settled(#[trigger] extensions_in(raw)[i])
                && ascii_lowercase(extensions_in(raw)[i]) == extensions_in(raw)[i],
{
    let extensions = extensions_in(raw);
    let split = pieces(raw, ';');
    extensions_stand_for_the_pieces(raw);
    splitting_adds_nothing(raw, ';');
    assert forall|i: int| 0 <= i < extensions.len() implies settled(#[trigger] extensions[i])
        && ascii_lowercase(extensions[i]) == extensions[i] by {
        assert(extensions.contains(extensions[i]));
        assert(stands_for_one(split, extensions[i]));
        let k = choose|k: int|
            0 <= k < split.len() && trimmed(#[trigger] split[k]).len() > 0 && extension_of(
                split[k],
            ) == extensions[i];
        trimming_adds_nothing(split[k], ';');
        trimming_is_idempotent(split[k]);
        lemma_lowered_settles(trimmed(split[k]));
    }
    extensions_are_read_back(raw);
}

/// There is always something to look for, whatever the environment holds.
pub proof fn there_is_always_an_extension(configured: Option<Seq<char>>)
    ensures
        extensions_from(configured).len() > 0,
{
    the_documented_extensions();
}

proof fn lemma_extension_list(split: Seq<Seq<char>>)
    ensures
        extension_list(split).no_duplicates(),
        forall|i: int|
            0 <= i < extension_list(split).len() ==> (#[trigger] extension_list(split)[i]).len()
                > 0 && extension_list(split)[i][0] == '.',
    decreases split.len(),
{
    if split.len() > 0 {
        lemma_extension_list(split.drop_last());
        let before = extension_list(split.drop_last());
        let extension = extension_of(split.last());
        if trimmed(split.last()).len() > 0 && !before.contains(extension) {
            let after = before.push(extension);
            assert forall|i: int| 0 <= i < after.len() implies (#[trigger] after[i]).len() > 0
                && after[i][0] == '.' by {
                if i < before.len() {
                    assert(after[i] == before[i]);
                }
            }
            assert forall|i: int, j: int| 0 <= i < after.len() && 0 <= j < after.len() && i
                != j implies after[i] != after[j] by {
                if i < before.len() {
                    assert(before.contains(before[i]));
                }
                if j < before.len() {
                    assert(before.contains(before[j]));
                }
            }
        }
    }
}

// ---- which file names count ----

/// Whether a lower-cased file name ends in an extension and has something before it.
pub open spec fn has_extension(lowered: Seq<char>, extension: Seq<char>) -> bool {
    extension.is_suffix_of(lowered) && extension.len() < lowered.len()
}

/// The rank of the first extension a lower-cased file name has.
pub open spec fn rank_of(lowered: Seq<char>, extensions: Seq<Seq<char>>) -> Option<int>
    decreases extensions.len(),
{
    if extensions.len() == 0 {
        None
    } else {
        match rank_of(lowered, extensions.drop_last()) {
            Some(rank) => Some(rank),
            None => if has_extension(lowered, extensions.last()) {
                Some(extensions.len() - 1)
            } else {
                None
            },
        }
    }
}

/// The stem and rank of a lower-cased file name, if it is executable at all.
pub open spec fn classified(lowered: Seq<char>, extensions: Seq<Seq<char>>) -> Option<
    (Seq<char>, usize),
> {
    match rank_of(lowered, extensions) {
        Some(rank) => Some(
            (lowered.take(lowered.len() - extensions[rank].len()), rank as usize),
        ),
        None => None,
    }
}

/// The stem and rank of a lower-cased file name, if it is executable at all.
pub fn classify_lowered(lowered: &str, extensions: &Vec<String>) -> (class: Option<
    (String, usize),
>)
    ensures
        class.deep_view() == classified(lowered@, extensions.deep_view()),
{
    let ghost all = extensions.deep_view();
    let whole = lowered.unicode_len();
    let mut rank: usize = 0;
    assert(all.take(0) =~= Seq::empty());
    while rank < extensions.len()
        invariant
            all == extensions.deep_view(),
            whole == lowered@.len(),
            rank <= extensions.len(),
            rank_of(lowered@, all.take(rank as int)) is None,
        decreases extensions.len() - rank,
    {
        assert(all.take(rank + 1).drop_last() =~= all.take(rank as int));
        assert(all[rank as int] == extensions@[rank as int]@);
        let extension = extensions[rank].as_str();
        let length = extension.unicode_len();
        // A file called exactly `.exe` names no program.
        if length < whole && ends_with(lowered, extension) {
            proof {
                lemma_rank_extends(lowered@, all, rank + 1);
            }
            let stem = lowered.substring_char(0, whole - length).to_owned();
            assert(stem@ =~= lowered@.take(lowered@.len() - all[rank as int].len()));
            return Some((stem, rank));
        }
        rank += 1;
    }
    assert(all.take(rank as int) =~= all);
    None
}

proof fn lemma_rank_extends(lowered: Seq<char>, extensions: Seq<Seq<char>>, prefix: int)
    requires
        0 <= prefix <= extensions.len(),
        rank_of(lowered, extensions.take(prefix)) is Some,
    ensures
        rank_of(lowered, extensions) == rank_of(lowered, extensions.take(prefix)),
    decreases extensions.len(),
{
    if prefix < extensions.len() {
        assert(extensions.drop_last().take(prefix) =~= extensions.take(prefix));
        lemma_rank_extends(lowered, extensions.drop_last(), prefix);
    } else {
        assert(extensions.take(prefix) =~= extensions);
    }
}

/// The stem and `PATHEXT` rank of a file name, if it is executable at all.
///
/// Only the matched extension is removed, so `python3.11.exe` is the program
/// `python3.11` and not the program `python3`.
pub fn classify(file_name: &str, extensions: &Vec<String>) -> (class: Option<(String, usize)>)
    ensures
        class.deep_view() == classified(lowercase(file_name@), extensions.deep_view()),
{
    let lowered = file_name.to_lowercase();
    classify_lowered(lowered.as_str(), extensions)
}

/// The stem is what is left of the lower-cased name without the matched extension; it
/// is never empty, and no extension of a better rank would have matched.
pub proof fn only_the_matched_extension_is_stripped(
    lowered: Seq<char>,
    extensions: Seq<Seq<char>>,
)
    requires
        extensions.len() <= usize::MAX,
    ensures
        match classified(lowered, extensions) {
            Some((stem, rank)) => {
                &&& stem.len() > 0
                &&& rank < extensions.len()
                &&& stem + extensions[rank as int] == lowered
                &&& forall|better: int|
                    0 <= better < rank ==> !has_extension(lowered, #[trigger] extensions[better])
            },
            None => forall|rank: int|
                0 <= rank < extensions.len() ==> !has_extension(
                    lowered,
                    #[trigger] extensions[rank],
                ),
        },
{
    lemma_rank(lowered, extensions);
    if let Some(rank) = rank_of(lowered, extensions) {
        let extension = extensions[rank];
        let stem = lowered.take(lowered.len() - extension.len());
        assert(stem + extension =~= lowered);
    }
}

proof fn lemma_rank(lowered: Seq<char>, extensions: Seq<Seq<char>>)
    ensures
        match rank_of(lowered, extensions) {
            Some(rank) => {
                &&& 0 <= rank < extensions.len()
                &&& has_extension(lowered, extensions[rank])
                &&& forall|better: int|
                    0 <= better < rank ==> !has_extension(lowered, #[trigger] extensions[better])
            },
            None => forall|rank: int|
                0 <= rank < extensions.len() ==> !has_extension(
                    lowered,
                    #[trigger] extensions[rank],
                ),
        },
    decreases extensions.len(),
{
    if extensions.len() > 0 {
        let shorter = extensions.drop_last();
        lemma_rank(lowered, shorter);
        assert(forall|i: int| 0 <= i < shorter.len() ==> shorter[i] == extensions[i]);
    }
}

/// The case of ASCII letters in an ASCII file name makes no difference to how it is
/// classified.
pub proof fn file_names_are_classified_without_regard_to_case(
    left: Seq<char>,
    right: Seq<char>,
    extensions: Seq<Seq<char>>,
)
    requires
        ascii_text(left),
        ascii_text(right),
        equal_ignoring_ascii_case(left, right),
    ensures
        classified(lowercase(left), extensions) == classified(lowercase(right), extensions),
{
    assert(ascii_lowercase(left) =~= ascii_lowercase(right));
}

/// Whether a lower-cased file name is a stem followed by the extension of a given rank,
/// and is no stem followed by an extension of a better rank.
pub open spec fn splits_first_at(
    lowered: Seq<char>,
    extensions: Seq<Seq<char>>,
    stem: Seq<char>,
    rank: int,
) -> bool {
    &&& 0 <= rank < extensions.len()
    &&& stem.len() > 0
    &&& lowered == stem + extensions[rank]
    &&& forall|better: int, other: Seq<char>|
        0 <= better < rank && other.len() > 0 ==> lowered != #[trigger] (other
            + extensions[better])
}

/// A file name is a program exactly when it is something followed by an extension, and
/// then the extension that stands first in the list decides the stem and the rank.
pub proof fn the_first_extension_of_a_name_decides(
    lowered: Seq<char>,
    extensions: Seq<Seq<char>>,
    stem: Seq<char>,
    rank: int,
)
    requires
        extensions.len() <= usize::MAX,
        0 <= rank < extensions.len(),
    ensures
        splits_first_at(lowered, extensions, stem, rank) <==> classified(lowered, extensions)
            == Some((stem, rank as usize)),
        lowered == stem + extensions[rank] && stem.len() > 0 ==> match classified(
            lowered,
            extensions,
        ) {
            Some((_, first)) => first <= rank,
            None => false,
        },
{
    only_the_matched_extension_is_stripped(lowered, extensions);
    lemma_rank(lowered, extensions);
    if lowered == stem + extensions[rank] && stem.len() > 0 {
        assert(extensions[rank] =~= lowered.subrange(stem.len() as int, lowered.len() as int));
        assert(has_extension(lowered, extensions[rank]));
    }
    if splits_first_at(lowered, extensions, stem, rank) {
        let found = rank_of(lowered, extensions)->0;
        if found < rank {
            let other = lowered.take(lowered.len() - extensions[found].len());
            assert(lowered =~= other + extensions[found]);
            assert(false);
        }
        assert(found == rank);
        assert(stem =~= lowered.take(lowered.len() - extensions[rank].len()));
    }
    if classified(lowered, extensions) == Some((stem, rank as usize)) {
        assert forall|better: int, other: Seq<char>|
            0 <= better < rank && other.len() > 0 implies lowered != #[trigger] (other
            + extensions[better]) by {
            if lowered == other + extensions[better] {
                assert(extensions[better] =~= lowered.subrange(
                    other.len() as int,
                    lowered.len() as int,
                ));
                assert(has_extension(lowered, extensions[better]));
            }
        }
    }
}

/// A piece of a `PATHEXT` value stands for what is left of it in lower case without the
/// whitespace around it, behind a dot where it has none.
pub proof fn a_piece_stands_for_its_lower_case_form(
    before: Seq<char>,
    name: Seq<char>,
    after: Seq<char>,
)
    requires
        all_white(before),
        all_white(after),
        name.len() > 0,
        !white_space(name[0]),
        !white_space(name.last()),
    ensures
        trimmed(before + name + after) == name,
        ascii_text(name) && name[0] == '.' ==> extension_of(before + name + after)
            == ascii_lowercase(name),
        ascii_text(name) && name[0] != '.' ==> extension_of(before + name + after) == seq!['.']
            + ascii_lowercase(name),
{
    trimming_removes_surrounding_whitespace(before, name, after);
    if ascii_text(name) {
        let first = name[0];
        assert(ascii_lowercase(name)[0] == ascii_lower(first));
        only_letters_change_case(first);
    }
}

/// Every piece of a `PATHEXT` value that is not blank is one of the extensions to look for,
/// in lower case and behind a dot.
pub proof fn every_listed_extension_counts(
    raw: Seq<char>,
    k: int,
    before: Seq<char>,
    name: Seq<char>,
    after: Seq<char>,
)
    requires
        0 <= k < pieces(raw, ';').len(),
        pieces(raw, ';')[k] == before + name + after,
        all_white(before),
        all_white(after),
        name.len() > 0,
        !white_space(name[0]),
        !white_space(name.last()),
        ascii_text(name),
    ensures
        name[0] == '.' ==> extensions_in(raw).contains(ascii_lowercase(name)),
        name[0] != '.' ==> extensions_in(raw).contains(seq!['.'] + ascii_lowercase(name)),
{
    a_piece_stands_for_its_lower_case_form(before, name, after);
    extensions_stand_for_the_pieces(raw);
    assert(stands_for_one(pieces(raw, ';'), extension_of(pieces(raw, ';')[k])));
}

/// The order of the extensions is the order in which they are listed first: of two
/// extensions, the one with the better rank has its first piece in front of every piece of
/// the other.
pub proof fn a_better_rank_is_listed_earlier(
    split: Seq<Seq<char>>,
    better: int,
    worse: int,
) -> (k: int)
    requires
        0 <= better < worse < extension_list(split).len(),
    ensures
        0 <= k < split.len(),
        trimmed(split[k]).len() > 0,
        extension_of(split[k]) == extension_list(split)[better],
        forall|m: int|
            0 <= m <= k && trimmed(#[trigger] split[m]).len() > 0 ==> extension_of(split[m])
                != extension_list(split)[worse],
    decreases split.len(),
{
    let shorter = split.drop_last();
    let before = extension_list(shorter);
    if worse < before.len() {
        let k = a_better_rank_is_listed_earlier(shorter, better, worse);
        assert forall|m: int| 0 <= m <= k && trimmed(#[trigger] split[m]).len()
            > 0 implies extension_of(split[m]) != extension_list(split)[worse] by {
            assert(shorter[m] == split[m]);
        }
        k
    } else {
        lemma_stands_for(shorter);
        let wanted = extension_list(split)[worse];
        assert(before.contains(before[better]));
        assert(stands_for_one(shorter, before[better]));
        let k = choose|k: int|
            0 <= k < shorter.len() && trimmed(#[trigger] shorter[k]).len() > 0 && extension_of(
                shorter[k],
            ) == before[better];
        assert(!before.contains(wanted));
        assert forall|m: int| 0 <= m <= k && trimmed(#[trigger] split[m]).len()
            > 0 implies extension_of(split[m]) != wanted by {
            assert(shorter[m] == split[m]);
            if extension_of(shorter[m]) == wanted {
                assert(stands_for_one(shorter, wanted));
            }
        }
        k
    }
}

/// A value that lists any extension at all is used as it is; one that lists none, like no
/// value, leaves the documented default.
pub proof fn the_environment_decides_what_to_look_for(raw: Seq<char>)
    ensures
        (exists|k: int|
            0 <= k < pieces(raw, ';').len() && trimmed(#[trigger] pieces(raw, ';')[k]).len() > 0)
            ==> extensions_from(Some(raw)) == extensions_in(raw),
        (forall|k: int|
            0 <= k < pieces(raw, ';').len() ==> trimmed(#[trigger] pieces(raw, ';')[k]).len()
                == 0) ==> extensions_from(Some(raw)) == extensions_in(DEFAULT_PATHEXT@),
        extensions_from(None) == extensions_in(DEFAULT_PATHEXT@),
{
    extensions_stand_for_the_pieces(raw);
    let split = pieces(raw, ';');
    if exists|k: int| 0 <= k < split.len() && trimmed(#[trigger] split[k]).len() > 0 {
        let k = choose|k: int| 0 <= k < split.len() && trimmed(#[trigger] split[k]).len() > 0;
        assert(stands_for_one(split, extension_of(split[k])));
        assert(extensions_in(raw).contains(extension_of(split[k])));
    } else if extensions_in(raw).len() > 0 {
        assert(extensions_in(raw).contains(extensions_in(raw)[0]));
        assert(stands_for_one(split, extensions_in(raw)[0]));
    }
}

/// What a piece stands for is settled by its lower-case form, whatever alphabet it is in.
pub proof fn a_piece_stands_for_its_own_form(
    before: Seq<char>,
    name: Seq<char>,
    after: Seq<char>,
)
    requires
        all_white(before),
        all_white(after),
        name.len() > 0,
        !white_space(name[0]),
        !white_space(name.last()),
    ensures
        ({
            let lowered = lowercase(name);
            let extension = extension_of(before + name + after);
            &&& lowered.len() > 0 && lowered[0] == '.' ==> extension == lowered
            &&& lowered.len() == 0 || lowered[0] != '.' ==> extension == seq!['.'] + lowered
        }),
{
    trimming_removes_surrounding_whitespace(before, name, after);
}

} // verus!
