//! What a shell says it answers to.
//!
//! An interpreter is given a script that lists its aliases and functions, one on a line;
//! what it prints is read back here.

use vstd::prelude::*;

use crate::report::ShellConstruct;
use crate::text::{
    an_unseparated_text_is_one_piece, ascii_lowercase, ascii_text, free_of, lines, lines_of,
    lowercase, pieces, pieces_join_back, same_text, split_on, splitting_adds_nothing,
    splitting_at_a_separator, trim, trimmed, without_carriage_return,
};

verus! {

/// Field separator in the script's output.
pub const SEPARATOR: char = '\t';

/// The script an interpreter is given. It emits one line for each construct: its kind,
/// its name, and an alias's target.
///
/// A function's definition is its whole body, which may contain anything including
/// newlines, so it is deliberately not asked for: the name is the mask.
pub const SCRIPT: &'static str = "$ErrorActionPreference = 'SilentlyContinue'\n$sep = [char]9\nforeach ($a in Get-Command -CommandType Alias) {\n    'alias' + $sep + $a.Name + $sep + $a.Definition\n}\nforeach ($f in Get-Command -CommandType Function) {\n    'function' + $sep + $f.Name + $sep\n}";

/// The arguments an interpreter is run with.
///
/// Loading a user profile runs arbitrary user code, so it is kept out unless it was
/// asked for.
pub open spec fn arguments_for(profile: bool) -> Seq<Seq<char>> {
    if profile {
        seq!["-NonInteractive"@, "-Command"@, SCRIPT@]
    } else {
        seq!["-NoProfile"@, "-NonInteractive"@, "-Command"@, SCRIPT@]
    }
}

/// The arguments to run an interpreter with.
pub fn arguments(profile: bool) -> (arguments: Vec<&'static str>)
    ensures
        arguments.deep_view() == arguments_for(profile),
{
    let mut arguments: Vec<&'static str> = Vec::new();
    if !profile {
        arguments.push("-NoProfile");
    }
    arguments.push("-NonInteractive");
    arguments.push("-Command");
    arguments.push(SCRIPT);
    assert(arguments.deep_view() =~= arguments_for(profile));
    arguments
}

// ---- what an interpreter says ----

/// What answers to a name: the kind of construct and, for an alias, its target.
pub type Answer = (ShellConstruct, Option<String>);

/// The model of an [`Answer`].
pub type AnswerModel = (ShellConstruct, Option<Seq<char>>);

/// The model of an answer.
pub open spec fn answer_model(answer: Answer) -> AnswerModel {
    (answer.0, answer.1.deep_view())
}

/// The target an alias's third field names: none if it is absent or blank.
pub open spec fn alias_target(fields: Seq<Seq<char>>) -> Option<Seq<char>> {
    if fields.len() > 2 && trimmed(fields[2]).len() > 0 {
        Some(trimmed(fields[2]))
    } else {
        None
    }
}

/// What one line of the script's output says: a name in lower case and what answers to
/// it. A line of any other shape says nothing.
pub open spec fn construct_on(line: Seq<char>) -> Option<(Seq<char>, AnswerModel)> {
    let fields = pieces(line, SEPARATOR);
    if fields.len() < 2 || fields[1].len() == 0 {
        None
    } else if fields[0] == "alias"@ {
        Some((lowercase(fields[1]), (ShellConstruct::Alias, alias_target(fields))))
    } else if fields[0] == "function"@ {
        Some((lowercase(fields[1]), (ShellConstruct::Function, None)))
    } else {
        None
    }
}

/// What some lines of the script's output say. The first line for a name counts, which
/// puts an alias before a function of the same name, as PowerShell does.
pub open spec fn constructs_on(lines: Seq<Seq<char>>) -> Map<Seq<char>, AnswerModel>
    decreases lines.len(),
{
    if lines.len() == 0 {
        Map::empty()
    } else {
        let before = constructs_on(lines.drop_last());
        match construct_on(lines.last()) {
            Some((name, answer)) => if before.contains_key(name) {
                before
            } else {
                before.insert(name, answer)
            },
            None => before,
        }
    }
}

/// What a whole output of the script says.
pub open spec fn constructs_in(output: Seq<char>) -> Map<Seq<char>, AnswerModel> {
    constructs_on(lines_of(output))
}

/// The first line for a name counts: whatever comes after some lines changes nothing
/// about the names that they speak of.
pub proof fn the_first_line_for_a_name_counts(lines: Seq<Seq<char>>, more: Seq<Seq<char>>)
    ensures
        constructs_on(lines).submap_of(constructs_on(lines + more)),
    decreases more.len(),
{
    if more.len() == 0 {
        assert(lines + more =~= lines);
    } else {
        the_first_line_for_a_name_counts(lines, more.drop_last());
        assert((lines + more).drop_last() =~= lines + more.drop_last());
        assert((lines + more).last() == more.last());
    }
}

proof fn lemma_constructs_add(lines: Seq<Seq<char>>, more: Seq<Seq<char>>)
    ensures
        constructs_on(lines + more) == constructs_on(more).union_prefer_right(
            constructs_on(lines),
        ),
    decreases more.len(),
{
    let first = constructs_on(lines);
    if more.len() == 0 {
        assert(lines + more =~= lines);
        assert(first =~= constructs_on(more).union_prefer_right(first));
    } else {
        let fewer = more.drop_last();
        lemma_constructs_add(lines, fewer);
        assert((lines + more).drop_last() =~= lines + fewer);
        assert((lines + more).last() == more.last());
        assert(constructs_on(lines + more) =~= constructs_on(more).union_prefer_right(first));
    }
}

proof fn lemma_last_piece(text: Seq<char>, separator: char)
    ensures
        pieces(text, separator).last().len() > 0 ==> text.len() > 0 && pieces(
            text,
            separator,
        ).last().last() == text.last(),
{
    if text.len() > 0 {
        pieces_join_back(text.drop_last(), separator);
    }
}

proof fn lemma_lines_of_two(left: Seq<char>, right: Seq<char>)
    requires
        left.len() == 0 || left.last() != '\r',
    ensures
        constructs_in(left.push('\n') + right) == constructs_on(lines_of(left) + lines_of(right)),
{
    let split = pieces(left, '\n');
    let whole = left.push('\n') + right;
    pieces_join_back(left, '\n');
    pieces_join_back(right, '\n');
    splitting_at_a_separator(left, right, '\n');
    lemma_last_piece(left, '\n');
    assert(without_carriage_return(split.last()) == split.last());
    let ended = Seq::new((split.len() - 1) as nat, |i: int| without_carriage_return(split[i]));
    assert(lines_of(whole) =~= ended.push(split.last()) + lines_of(right));
    if split.last().len() == 0 {
        assert(construct_on(split.last()) is None) by {
            assert(split.last() =~= Seq::<char>::empty());
            assert(pieces(Seq::<char>::empty(), SEPARATOR).len() == 1);
        }
        assert(lines_of(left) == ended);
        lemma_constructs_add(ended, lines_of(right));
        lemma_constructs_add(ended.push(split.last()), lines_of(right));
        assert(ended.push(split.last()).drop_last() =~= ended);
        assert(constructs_on(ended.push(split.last())) == constructs_on(ended));
    } else {
        assert(lines_of(left) == ended.push(split.last()));
    }
}

/// Of two outputs joined by a line break, the first that speaks of a name decides what
/// answers to it. An alias listed first outranks a function listed later.
///
/// The first may not end in a carriage return, which would become part of the line break.
pub proof fn the_first_output_for_a_name_decides(first: Seq<char>, second: Seq<char>)
    requires
        first.len() == 0 || first.last() != '\r',
    ensures
        constructs_in(first.push('\n') + second) == constructs_in(second).union_prefer_right(
            constructs_in(first),
        ),
{
    lemma_lines_of_two(first, second);
    lemma_constructs_add(lines_of(first), lines_of(second));
}

/// Whether a key and what answers to it are what a line can say: the key is a name in
/// lower case, a function has no target, and a target is not empty.
pub open spec fn sensible(key: Seq<char>, answer: AnswerModel) -> bool {
    &&& exists|name: Seq<char>| name.len() > 0 && key == #[trigger] lowercase(name)
    &&& answer.0 == ShellConstruct::Function ==> answer.1 is None
    &&& answer.1 is Some ==> answer.1->0.len() > 0
}

/// Whether a name has a lower-case form that is not empty and that lower-casing leaves as it
/// is. Every ASCII name has one.
pub open spec fn lowers_to_a_name(name: Seq<char>) -> bool {
    lowercase(name).len() > 0 && lowercase(lowercase(name)) == lowercase(name)
}

/// Everything an output says stands on one of its lines and is sensible: names are kept in
/// lower case, and only an alias points at something.
pub proof fn what_an_output_says_is_sensible(output: Seq<char>, key: Seq<char>)
    requires
        constructs_in(output).contains_key(key),
    ensures
        sensible(key, constructs_in(output)[key]),
        exists|i: int|
            0 <= i < lines_of(output).len() && #[trigger] construct_on(lines_of(output)[i])
                == Some((key, constructs_in(output)[key])),
{
    lemma_sensible(lines_of(output), key);
}

proof fn lemma_sensible(lines: Seq<Seq<char>>, key: Seq<char>)
    requires
        constructs_on(lines).contains_key(key),
    ensures
        sensible(key, constructs_on(lines)[key]),
        exists|i: int|
            0 <= i < lines.len() && #[trigger] construct_on(lines[i]) == Some(
                (key, constructs_on(lines)[key]),
            ),
    decreases lines.len(),
{
    let shorter = lines.drop_last();
    let before = constructs_on(shorter);
    if before.contains_key(key) {
        lemma_sensible(shorter, key);
        let i = choose|i: int|
            0 <= i < shorter.len() && #[trigger] construct_on(shorter[i]) == Some(
                (key, before[key]),
            );
        assert(shorter[i] == lines[i]);
        assert(construct_on(lines[i]) == Some((key, constructs_on(lines)[key])));
    } else {
        let fields = pieces(lines.last(), SEPARATOR);
        assert(key == lowercase(fields[1]));
        assert(construct_on(lines[lines.len() - 1]) == Some((key, constructs_on(lines)[key])));
    }
}

/// No key is empty and every key is in lower case, whenever each name that a line gives has
/// a lower-case form of that kind.
pub proof fn keys_are_names_in_lower_case(output: Seq<char>, key: Seq<char>)
    requires
        constructs_in(output).contains_key(key),
        forall|i: int|
            0 <= i < lines_of(output).len() && (#[trigger] construct_on(
                lines_of(output)[i],
            )) is Some ==> lowers_to_a_name(pieces(lines_of(output)[i], SEPARATOR)[1]),
    ensures
        key.len() > 0,
        lowercase(key) == key,
{
    what_an_output_says_is_sensible(output, key);
    let i = choose|i: int|
        0 <= i < lines_of(output).len() && #[trigger] construct_on(lines_of(output)[i]) == Some(
            (key, constructs_in(output)[key]),
        );
    assert(lowers_to_a_name(pieces(lines_of(output)[i], SEPARATOR)[1]));
}

/// The keys of an ASCII output are never empty and always in lower case.
///
/// Of other outputs [`keys_are_names_in_lower_case`] says when: nothing is known of the
/// length of other texts in lower case.
pub proof fn ascii_keys_are_names_in_lower_case(output: Seq<char>, key: Seq<char>)
    requires
        constructs_in(output).contains_key(key),
        ascii_text(output),
    ensures
        key.len() > 0,
        ascii_lowercase(key) == key,
        lowercase(key) == key,
{
    let lines = lines_of(output);
    splitting_adds_nothing(output, '\n');
    what_an_output_says_is_sensible(output, key);
    let i = choose|i: int|
        0 <= i < lines.len() && #[trigger] construct_on(lines[i]) == Some(
            (key, constructs_in(output)[key]),
        );
    let name = pieces(lines[i], SEPARATOR)[1];
    splitting_adds_nothing(lines[i], SEPARATOR);
    lemma_ascii_name(name);
}

proof fn lemma_ascii_name(name: Seq<char>)
    requires
        ascii_text(name),
        name.len() > 0,
    ensures
        lowers_to_a_name(name),
        ascii_lowercase(lowercase(name)) == lowercase(name),
{
    let lowered = ascii_lowercase(name);
    assert forall|i: int| 0 <= i < lowered.len() implies (#[trigger] lowered[i]) <= '\u{7f}' by {
        assert(name[i] <= '\u{7f}');
    }
    assert(ascii_lowercase(lowered) =~= lowered);
}

/// Read one line of the script's output.
pub fn parse_line(line: &str) -> (construct: Option<(String, Answer)>)
    ensures
        match (construct, construct_on(line@)) {
            (Some((name, answer)), Some((model_name, model_answer))) => {
                &&& name@ == model_name
                &&& answer_model(answer) == model_answer
            },
            (None, None) => true,
            _ => false,
        },
{
    let fields = split_on(line, SEPARATOR);
    let ghost model = pieces(line@, SEPARATOR);
    assert(model.len() == fields.len());
    if fields.len() < 2 {
        return None;
    }
    let kind = fields[0];
    let name = fields[1];
    assert(model[0] == kind@);
    assert(model[1] == name@);
    if name.is_empty() {
        return None;
    }
    if same_text(kind, "alias") {
        let target = if fields.len() > 2 {
            assert(model[2] == fields@[2]@);
            let text = trim(fields[2]);
            if text.is_empty() {
                None
            } else {
                Some(text.to_owned())
            }
        } else {
            None
        };
        assert(target.deep_view() == alias_target(model));
        return Some((name.to_lowercase(), (ShellConstruct::Alias, target)));
    }
    if same_text(kind, "function") {
        return Some((name.to_lowercase(), (ShellConstruct::Function, None)));
    }
    None
}

/// The constructs an interpreter says it answers to, by name in lower case.
#[derive(Debug)]
pub struct Constructs {
    names: Vec<String>,
    answers: Vec<Answer>,
}

/// A map from names to what answers to each.
spec fn paired(names: Seq<Seq<char>>, answers: Seq<AnswerModel>) -> Map<Seq<char>, AnswerModel>
    decreases names.len(),
{
    if names.len() == 0 {
        Map::empty()
    } else {
        paired(names.drop_last(), answers.drop_last()).insert(names.last(), answers.last())
    }
}

proof fn lemma_paired(names: Seq<Seq<char>>, answers: Seq<AnswerModel>)
    requires
        names.len() == answers.len(),
        names.no_duplicates(),
    ensures
        paired(names, answers).dom().finite(),
        paired(names, answers).dom().len() == names.len(),
        forall|name: Seq<char>| #[trigger]
            paired(names, answers).contains_key(name) <==> names.contains(name),
        forall|i: int|
            0 <= i < names.len() ==> paired(names, answers)[#[trigger] names[i]] == answers[i],
    decreases names.len(),
{
    if names.len() > 0 {
        let shorter = names.drop_last();
        lemma_paired(shorter, answers.drop_last());
        assert forall|name: Seq<char>| #[trigger]
            paired(names, answers).contains_key(name) <==> names.contains(name) by {
            if names.contains(name) && name != names.last() {
                let k = choose|k: int| 0 <= k < names.len() && names[k] == name;
                assert(shorter[k] == name);
            }
            if shorter.contains(name) {
                let k = choose|k: int| 0 <= k < shorter.len() && shorter[k] == name;
                assert(names[k] == name);
            }
            assert(names[names.len() - 1] == names.last());
        }
        assert(!shorter.contains(names.last())) by {
            if shorter.contains(names.last()) {
                let k = choose|k: int| 0 <= k < shorter.len() && shorter[k] == names.last();
                assert(names[k] == names[names.len() - 1]);
            }
        }
        assert forall|i: int| 0 <= i < names.len() implies paired(names, answers)[
            #[trigger] names[i]] == answers[i] by {
            if i < shorter.len() {
                assert(shorter[i] == names[i]);
            }
        }
    }
}

impl Constructs {
    spec fn name_list(self) -> Seq<Seq<char>> {
        self.names.deep_view()
    }

    spec fn answer_list(self) -> Seq<AnswerModel> {
        Seq::new(self.answers@.len(), |i: int| answer_model(self.answers@[i]))
    }

    #[verifier::type_invariant]
    spec fn well_formed(self) -> bool {
        &&& self.names.len() == self.answers.len()
        &&& self.name_list().no_duplicates()
    }

    /// No constructs at all.
    pub fn new() -> (constructs: Self)
        ensures
            constructs@ == Map::<Seq<char>, AnswerModel>::empty(),
    {
        Constructs { names: Vec::new(), answers: Vec::new() }
    }

    /// How many names are answered to.
    pub fn len(&self) -> (count: usize)
        ensures
            count == self@.dom().len(),
    {
        proof {
            use_type_invariant(self);
            lemma_paired(self.name_list(), self.answer_list());
        }
        self.names.len()
    }

    /// What answers to a name, if anything does.
    pub fn get(&self, name: &str) -> (answer: Option<&Answer>)
        ensures
            match answer {
                Some(found) => {
                    &&& self@.contains_key(name@)
                    &&& answer_model(*found) == self@[name@]
                },
                None => !self@.contains_key(name@),
            },
    {
        proof {
            use_type_invariant(self);
            lemma_paired(self.name_list(), self.answer_list());
        }
        let mut i: usize = 0;
        while i < self.names.len()
            invariant
                i <= self.names.len(),
                self.names.len() == self.answers.len(),
                forall|k: int| 0 <= k < i ==> #[trigger] self.name_list()[k] != name@,
            decreases self.names.len() - i,
        {
            if same_text(self.names[i].as_str(), name) {
                assert(self.name_list()[i as int] == name@);
                proof {
                    use_type_invariant(self);
                    lemma_paired(self.name_list(), self.answer_list());
                }
                return Some(&self.answers[i]);
            }
            i += 1;
        }
        None
    }

    /// Whether anything answers to a name.
    pub fn contains_key(&self, name: &str) -> (contains: bool)
        ensures
            contains == self@.contains_key(name@),
    {
        self.get(name).is_some()
    }

    /// Add what answers to a name, unless something does already.
    fn insert_first(self, name: String, answer: Answer) -> (constructs: Self)
        ensures
            constructs@ == if self@.contains_key(name@) {
                self@
            } else {
                self@.insert(name@, answer_model(answer))
            },
    {
        if self.contains_key(name.as_str()) {
            return self;
        }
        proof {
            use_type_invariant(&self);
            lemma_paired(self.name_list(), self.answer_list());
        }
        let ghost names_before = self.name_list();
        let ghost answers_before = self.answer_list();
        let mut names = self.names;
        let mut answers = self.answers;
        names.push(name);
        answers.push(answer);
        assert(names.deep_view() =~= names_before.push(name@));
        assert(names.deep_view().drop_last() =~= names_before);
        let ghost after = Seq::new(answers@.len(), |i: int| answer_model(answers@[i]));
        assert(after.drop_last() =~= answers_before);
        assert(names.deep_view().no_duplicates()) by {
            assert forall|k: int| 0 <= k < names_before.len() implies #[trigger] names_before[k]
                != name@ by {
                assert(names_before.contains(names_before[k]));
            }
        }
        Constructs { names, answers }
    }
}

impl View for Constructs {
    type V = Map<Seq<char>, AnswerModel>;

    closed spec fn view(&self) -> Map<Seq<char>, AnswerModel> {
        paired(self.name_list(), self.answer_list())
    }
}

/// Index the script's output by lower-cased name.
pub fn parse(output: &str) -> (constructs: Constructs)
    ensures
        constructs@ == constructs_in(output@),
{
    let all = lines(output);
    let ghost model = lines_of(output@);
    let mut constructs = Constructs::new();
    let mut i: usize = 0;
    assert(model.take(0) =~= Seq::empty());
    while i < all.len()
        invariant
            model == all.deep_view(),
            i <= all.len(),
            constructs@ == constructs_on(model.take(i as int)),
        decreases all.len() - i,
    {
        assert(model.take(i + 1).drop_last() =~= model.take(i as int));
        assert(model[i as int] == all@[i as int]@);
        if let Some((name, answer)) = parse_line(all[i]) {
            constructs = constructs.insert_first(name, answer);
        }
        i += 1;
    }
    assert(model.take(i as int) =~= model);
    constructs
}

// ---- what a line says ----

proof fn lemma_fields(kind: Seq<char>, name: Seq<char>, rest: Seq<char>)
    requires
        free_of(kind, '\t'),
        free_of(name, '\t'),
    ensures
        pieces(kind.push('\t') + name, '\t') == seq![kind, name],
        pieces(kind.push('\t') + (name.push('\t') + rest), '\t') == seq![kind, name] + pieces(
            rest,
            '\t',
        ),
{
    an_unseparated_text_is_one_piece(kind, '\t');
    an_unseparated_text_is_one_piece(name, '\t');
    splitting_at_a_separator(kind, name, '\t');
    splitting_at_a_separator(name, rest, '\t');
    splitting_at_a_separator(kind, name.push('\t') + rest, '\t');
    assert(pieces(kind.push('\t') + name, '\t') =~= seq![kind, name]);
    assert(pieces(kind.push('\t') + (name.push('\t') + rest), '\t') =~= seq![kind, name] + pieces(
        rest,
        '\t',
    ));
}

/// A line with the word `alias`, a name and a target says that the name, in lower case, is
/// an alias for exactly that target. Whatever follows behind one more separator is ignored.
pub proof fn an_alias_line_names_its_target(name: Seq<char>, target: Seq<char>, more: Seq<char>)
    requires
        name.len() > 0,
        free_of(name, '\t'),
        free_of(target, '\t'),
        trimmed(target).len() > 0,
    ensures
        construct_on("alias"@.push('\t') + (name.push('\t') + target)) == Some(
            (lowercase(name), (ShellConstruct::Alias, Some(trimmed(target)))),
        ),
        construct_on("alias"@.push('\t') + (name.push('\t') + (target.push('\t') + more))) == Some(
            (lowercase(name), (ShellConstruct::Alias, Some(trimmed(target)))),
        ),
{
    reveal_strlit("alias");
    lemma_fields("alias"@, name, target);
    lemma_fields("alias"@, name, target.push('\t') + more);
    an_unseparated_text_is_one_piece(target, '\t');
    splitting_at_a_separator(target, more, '\t');
    let fields = pieces("alias"@.push('\t') + (name.push('\t') + (target.push('\t') + more)), '\t');
    assert(fields[0] == "alias"@ && fields[1] == name && fields[2] == target);
    let short = pieces("alias"@.push('\t') + (name.push('\t') + target), '\t');
    assert(short[0] == "alias"@ && short[1] == name && short[2] == target);
}

/// An alias whose target is blank, or not there at all, is an alias without one.
pub proof fn an_alias_line_may_lack_a_target(name: Seq<char>, target: Seq<char>)
    requires
        name.len() > 0,
        free_of(name, '\t'),
        free_of(target, '\t'),
        trimmed(target).len() == 0,
    ensures
        construct_on("alias"@.push('\t') + name) == Some(
            (lowercase(name), (ShellConstruct::Alias, None::<Seq<char>>)),
        ),
        construct_on("alias"@.push('\t') + (name.push('\t') + target)) == Some(
            (lowercase(name), (ShellConstruct::Alias, None::<Seq<char>>)),
        ),
{
    reveal_strlit("alias");
    lemma_fields("alias"@, name, target);
    an_unseparated_text_is_one_piece(target, '\t');
    let fields = pieces("alias"@.push('\t') + (name.push('\t') + target), '\t');
    assert(fields[0] == "alias"@ && fields[1] == name && fields[2] == target);
}

/// A line with the word `function` and a name says that a function answers to the name, in
/// lower case, whatever follows behind one more separator.
pub proof fn a_function_line_names_a_function(name: Seq<char>, more: Seq<char>)
    requires
        name.len() > 0,
        free_of(name, '\t'),
    ensures
        construct_on("function"@.push('\t') + name) == Some(
            (lowercase(name), (ShellConstruct::Function, None::<Seq<char>>)),
        ),
        construct_on("function"@.push('\t') + (name.push('\t') + more)) == Some(
            (lowercase(name), (ShellConstruct::Function, None::<Seq<char>>)),
        ),
{
    reveal_strlit("alias");
    reveal_strlit("function");
    lemma_fields("function"@, name, more);
    let fields = pieces("function"@.push('\t') + (name.push('\t') + more), '\t');
    assert(fields[0] == "function"@ && fields[1] == name);
    assert("function"@.len() != "alias"@.len());
}

/// Any other line says nothing: one that starts with another word, one without a name, and
/// one without a separator.
pub proof fn any_other_line_says_nothing(kind: Seq<char>, name: Seq<char>, more: Seq<char>)
    requires
        free_of(kind, '\t'),
        free_of(name, '\t'),
        name.len() == 0 || (kind != "alias"@ && kind != "function"@),
    ensures
        construct_on(kind) is None,
        construct_on(kind.push('\t') + name) is None,
        construct_on(kind.push('\t') + (name.push('\t') + more)) is None,
{
    an_unseparated_text_is_one_piece(kind, '\t');
    lemma_fields(kind, name, more);
    let fields = pieces(kind.push('\t') + (name.push('\t') + more), '\t');
    assert(fields[0] == kind && fields[1] == name);
}

/// A line that is the first for its name decides what answers to the name, whatever stands
/// before and behind it.
pub proof fn the_first_line_for_a_name_is_kept(
    output: Seq<char>,
    n: int,
    key: Seq<char>,
    answer: AnswerModel,
)
    requires
        0 <= n < lines_of(output).len(),
        construct_on(lines_of(output)[n]) == Some((key, answer)),
        forall|m: int|
            0 <= m < n ==> match #[trigger] construct_on(lines_of(output)[m]) {
                Some((other, _)) => other != key,
                None => true,
            },
    ensures
        constructs_in(output).contains_key(key),
        constructs_in(output)[key] == answer,
{
    let lines = lines_of(output);
    let first = lines.take(n + 1);
    let before = lines.take(n);
    if constructs_on(before).contains_key(key) {
        lemma_sensible(before, key);
        let m = choose|m: int|
            0 <= m < before.len() && #[trigger] construct_on(before[m]) == Some(
                (key, constructs_on(before)[key]),
            );
        assert(construct_on(lines[m]) is Some);
        assert(false);
    }
    assert(first.drop_last() =~= before);
    assert(first.last() == lines[n]);
    assert(constructs_on(first) == constructs_on(before).insert(key, answer));
    assert(constructs_on(first).dom().contains(key) && constructs_on(first)[key] == answer);
    let rest = lines.skip(n + 1);
    the_first_line_for_a_name_counts(first, rest);
    assert(first + rest =~= lines);
    assert(constructs_on(first).submap_of(constructs_on(lines)));
    assert(constructs_on(lines).dom().contains(key));
}

/// A profile is loaded only where it was asked for, and the script is what is run.
pub proof fn a_profile_is_loaded_on_request_only(profile: bool)
    ensures
        arguments_for(profile).contains("-NoProfile"@) <==> !profile,
        arguments_for(profile).contains("-NonInteractive"@),
        arguments_for(profile).len() >= 2,
        arguments_for(profile).last() == SCRIPT@,
        arguments_for(profile)[arguments_for(profile).len() - 2] == "-Command"@,
{
    reveal_strlit("-NoProfile");
    reveal_strlit("-NonInteractive");
    reveal_strlit("-Command");
    let arguments = arguments_for(profile);
    if profile {
        assert(arguments[0] == "-NonInteractive"@);
        lemma_script_is_no_switch();
        assert("-NonInteractive"@.len() != "-NoProfile"@.len());
        assert("-Command"@.len() != "-NoProfile"@.len());
        assert forall|k: int| 0 <= k < arguments.len() implies arguments[k] != "-NoProfile"@ by {
            assert(k == 0 || k == 1 || k == 2);
        }
    } else {
        assert(arguments[0] == "-NoProfile"@);
        assert(arguments[1] == "-NonInteractive"@);
    }
}

proof fn lemma_script_is_no_switch()
    ensures
        SCRIPT@ != "-NoProfile"@,
{
    reveal_strlit("-NoProfile");
    reveal_strlit(
        "$ErrorActionPreference = 'SilentlyContinue'\n$sep = [char]9\nforeach ($a in Get-Command -CommandType Alias) {\n    'alias' + $sep + $a.Name + $sep + $a.Definition\n}\nforeach ($f in Get-Command -CommandType Function) {\n    'function' + $sep + $f.Name + $sep\n}",
    );
    assert(SCRIPT@[0] == '$');
    assert("-NoProfile"@[0] == '-');
}

} // verus!
