//! What a shell answers to before `PATH` is ever searched.
//!
//! PowerShell resolves a bare name as alias, then function, then cmdlet, then external
//! file. So an alias or function shadows every executable of that name at a layer that
//! `PATH` analysis cannot see.
//!
//! Only a live shell can say what it masks, and its verdict is its own: an interpreter
//! is identified by absolute path, and the path comes from the executables already
//! found rather than from a second, unaudited `PATH` search. Running the interpreter is
//! the caller's business; which interpreters to ask, what to ask them and what their
//! answers mean is decided here.

use vstd::prelude::*;

use crate::compose::{absolute, is_absolute, only_trailing_separators_are_stripped};
use crate::constructs::{
    a_function_line_names_a_function, an_alias_line_names_its_target, answer_model, construct_on,
    constructs_in, parse, the_first_line_for_a_name_is_kept, AnswerModel,
};
use crate::report::{
    first_intercept_by, Intercept, InterceptModel, Interpreter, InterpreterModel, Occurrence,
    OccurrenceModel, Resolved, ResolvedModel, ShellConstruct, ShellScan,
};
use crate::text::{
    ascii_lowercase, eq_ignore_ascii_case, equal_ignoring_ascii_case, free_of, lines_of, lowercase,
    same_text, trim_end_separators, trimmed, without_trailing_separators,
};

verus! {

/// The interpreter to ask when none is requested, by stem.
///
/// Windows PowerShell, not `pwsh`: it is present on every Windows machine, whereas
/// `pwsh` is frequently an execution-alias stub that would launch the Store.
pub const INTERPRETER_STEM: &'static str = "powershell";

// ---- which interpreters to ask ----

/// The path of a file found in a directory, whose trailing separators do not count.
pub open spec fn path_of(occurrence: OccurrenceModel) -> Seq<char> {
    without_trailing_separators(occurrence.directory).push('\\') + occurrence.file_name
}

/// The copy of a name to ask: the one this process would run, since that is the shell a
/// user in this session would get, and failing that the one a fresh process would run.
pub open spec fn copy_to_ask(resolved: ResolvedModel) -> Option<OccurrenceModel> {
    match resolved.live_winner() {
        Some(winner) => Some(winner),
        None => resolved.fresh_winner(),
    }
}

/// The first record for a stem.
pub open spec fn record_of(executables: Seq<ResolvedModel>, stem: Seq<char>) -> Option<
    ResolvedModel,
>
    decreases executables.len(),
{
    if executables.len() == 0 {
        None
    } else if executables[0].stem == stem {
        Some(executables[0])
    } else {
        record_of(executables.drop_first(), stem)
    }
}

/// The absolute path of the interpreter with a given stem, among the executables found.
pub open spec fn path_for_stem(executables: Seq<ResolvedModel>, stem: Seq<char>) -> Option<
    Seq<char>,
> {
    match record_of(executables, stem) {
        Some(resolved) => match copy_to_ask(resolved) {
            Some(occurrence) => Some(path_of(occurrence)),
            None => None,
        },
        None => None,
    }
}

/// The absolute path a request for an interpreter leads to: an absolute path leads to
/// itself, anything else is a stem to look up.
pub open spec fn path_for_request(executables: Seq<ResolvedModel>, request: Seq<char>) -> Option<
    Seq<char>,
> {
    if absolute(request) {
        Some(request)
    } else {
        path_for_stem(executables, lowercase(request))
    }
}

/// Whether a list of paths holds a path, letter case aside.
pub open spec fn holds_path(paths: Seq<Seq<char>>, path: Seq<char>) -> bool {
    exists|i: int|
        0 <= i < paths.len() && equal_ignoring_ascii_case(#[trigger] paths[i], path)
}

/// The paths some requests lead to, each listed once.
pub open spec fn paths_for(executables: Seq<ResolvedModel>, requests: Seq<Seq<char>>) -> Seq<
    Seq<char>,
>
    decreases requests.len(),
{
    if requests.len() == 0 {
        Seq::empty()
    } else {
        let before = paths_for(executables, requests.drop_last());
        match path_for_request(executables, requests.last()) {
            Some(path) => if holds_path(before, path) {
                before
            } else {
                before.push(path)
            },
            None => before,
        }
    }
}

/// The interpreters to ask, by absolute path. No request at all means the default one.
pub open spec fn paths_to_ask(executables: Seq<ResolvedModel>, requested: Seq<Seq<char>>) -> Seq<
    Seq<char>,
> {
    if requested.len() == 0 {
        paths_for(executables, seq![INTERPRETER_STEM@])
    } else {
        paths_for(executables, requested)
    }
}

/// The path of one occurrence.
fn occurrence_path(occurrence: &Occurrence) -> (path: String)
    ensures
        path@ == path_of(occurrence@),
{
    let mut path = trim_end_separators(occurrence.directory.as_str()).to_owned();
    path.push('\\');
    path.append(occurrence.file_name.as_str());
    path
}

/// The absolute path of the interpreter with a given stem, taken from the executables
/// found.
pub fn interpreter_named(executables: &Vec<Resolved>, stem: &str) -> (path: Option<String>)
    ensures
        path.deep_view() == path_for_stem(executables.deep_view(), stem@),
{
    let ghost model = executables.deep_view();
    let mut i: usize = 0;
    assert(model.skip(0) =~= model);
    while i < executables.len()
        invariant
            model == executables.deep_view(),
            i <= executables.len(),
            record_of(model, stem@) == record_of(model.skip(i as int), stem@),
        decreases executables.len() - i,
    {
        assert(model[i as int] == executables@[i as int]@);
        assert(model.skip(i as int).drop_first() =~= model.skip(i + 1));
        if same_text(executables[i].stem.as_str(), stem) {
            return match executables[i].live_winner() {
                Some(winner) => Some(occurrence_path(winner)),
                None => match executables[i].fresh_winner() {
                    Some(winner) => Some(occurrence_path(winner)),
                    None => None,
                },
            };
        }
        i += 1;
    }
    None
}

/// The absolute path of the default interpreter, taken from the executables found.
pub fn interpreter_path(executables: &Vec<Resolved>) -> (path: Option<String>)
    ensures
        path.deep_view() == path_for_stem(executables.deep_view(), INTERPRETER_STEM@),
{
    interpreter_named(executables, INTERPRETER_STEM)
}

/// The absolute path a request for an interpreter leads to.
pub fn requested_path(executables: &Vec<Resolved>, request: &str) -> (path: Option<String>)
    ensures
        path.deep_view() == path_for_request(executables.deep_view(), request@),
{
    if is_absolute(request) {
        Some(request.to_owned())
    } else {
        interpreter_named(executables, request.to_lowercase().as_str())
    }
}

/// Whether a list of paths holds a path, letter case aside.
fn lists_path(paths: &Vec<String>, path: &str) -> (lists: bool)
    ensures
        lists == holds_path(paths.deep_view(), path@),
{
    let ghost model = paths.deep_view();
    let mut i: usize = 0;
    while i < paths.len()
        invariant
            model == paths.deep_view(),
            i <= paths.len(),
            forall|k: int| 0 <= k < i ==> !equal_ignoring_ascii_case(#[trigger] model[k], path@),
        decreases paths.len() - i,
    {
        assert(model[i as int] == paths@[i as int]@);
        if eq_ignore_ascii_case(paths[i].as_str(), path) {
            return true;
        }
        i += 1;
    }
    false
}

/// Add the path a request leads to, if there is one and it is not listed yet.
fn add_request(paths: &mut Vec<String>, executables: &Vec<Resolved>, request: &str)
    ensures
        final(paths).deep_view() == match path_for_request(executables.deep_view(), request@) {
            Some(path) => if holds_path(old(paths).deep_view(), path) {
                old(paths).deep_view()
            } else {
                old(paths).deep_view().push(path)
            },
            None => old(paths).deep_view(),
        },
{
    let ghost before = paths.deep_view();
    if let Some(path) = requested_path(executables, request) {
        if !lists_path(paths, path.as_str()) {
            paths.push(path);
            assert(paths.deep_view() =~= before.push(path@));
        }
    }
}

/// The interpreters to ask, by absolute path.
pub fn interpreters_to_ask(executables: &Vec<Resolved>, requested: &Vec<String>) -> (paths: Vec<
    String,
>)
    ensures
        paths.deep_view() == paths_to_ask(executables.deep_view(), requested.deep_view()),
{
    let ghost model = executables.deep_view();
    let ghost requests = requested.deep_view();
    let mut paths: Vec<String> = Vec::new();
    if requested.len() == 0 {
        let ghost one = seq![INTERPRETER_STEM@];
        assert(one.drop_last() =~= Seq::empty());
        assert(paths.deep_view() =~= paths_for(model, one.drop_last()));
        add_request(&mut paths, executables, INTERPRETER_STEM);
        return paths;
    }
    let mut i: usize = 0;
    assert(paths.deep_view() =~= paths_for(model, requests.take(0)));
    while i < requested.len()
        invariant
            model == executables.deep_view(),
            requests == requested.deep_view(),
            i <= requested.len(),
            paths.deep_view() == paths_for(model, requests.take(i as int)),
        decreases requested.len() - i,
    {
        assert(requests.take(i + 1).drop_last() =~= requests.take(i as int));
        assert(requests[i as int] == requested@[i as int]@);
        add_request(&mut paths, executables, requested[i].as_str());
        i += 1;
    }
    assert(requests.take(i as int) =~= requests);
    paths
}

/// No interpreter is asked twice, under whatever spelling it was requested.
pub proof fn no_interpreter_is_asked_twice(
    executables: Seq<ResolvedModel>,
    requested: Seq<Seq<char>>,
    i: int,
    j: int,
)
    requires
        0 <= i < j < paths_to_ask(executables, requested).len(),
    ensures
        !equal_ignoring_ascii_case(
            paths_to_ask(executables, requested)[i],
            paths_to_ask(executables, requested)[j],
        ),
{
    if requested.len() == 0 {
        lemma_paths_distinct(executables, seq![INTERPRETER_STEM@], i, j);
    } else {
        lemma_paths_distinct(executables, requested, i, j);
    }
}

proof fn lemma_paths_distinct(
    executables: Seq<ResolvedModel>,
    requests: Seq<Seq<char>>,
    i: int,
    j: int,
)
    requires
        0 <= i < j < paths_for(executables, requests).len(),
    ensures
        !equal_ignoring_ascii_case(
            paths_for(executables, requests)[i],
            paths_for(executables, requests)[j],
        ),
    decreases requests.len(),
{
    if requests.len() > 0 {
        let before = paths_for(executables, requests.drop_last());
        if j < before.len() {
            lemma_paths_distinct(executables, requests.drop_last(), i, j);
        } else {
            assert(paths_for(executables, requests)[i] == before[i]);
        }
    }
}

/// With nothing requested, the one interpreter to ask is the default one, if it is among
/// the executables found.
pub proof fn the_default_interpreter_is_looked_up_by_stem(executables: Seq<ResolvedModel>)
    ensures
        paths_to_ask(executables, Seq::empty()) == match path_for_stem(
            executables,
            INTERPRETER_STEM@,
        ) {
            Some(path) => seq![path],
            None => Seq::empty(),
        },
{
    reveal_strlit("powershell");
    let one = seq![INTERPRETER_STEM@];
    assert(ascii_lowercase(INTERPRETER_STEM@) =~= INTERPRETER_STEM@);
    assert(one.drop_last() =~= Seq::empty());
    assert(paths_for(executables, one.drop_last()) =~= Seq::empty());
    assert(paths_to_ask(executables, Seq::empty()) =~= match path_for_stem(
        executables,
        INTERPRETER_STEM@,
    ) {
        Some(path) => seq![path],
        None => Seq::empty(),
    });
}

// ---- what the answers say of the executables ----

/// The record of a shell construct that an interpreter says answers to a name.
pub open spec fn record_from(
    answer: AnswerModel,
    interpreter: Seq<char>,
    profile: bool,
) -> InterceptModel {
    InterceptModel {
        construct: answer.0,
        resolves_to: answer.1,
        interpreter,
        profile_loaded: profile,
    }
}

/// The records that the answers of some interpreters give rise to for one name, in the
/// order the interpreters were asked. An interpreter that gave no answer says nothing.
pub open spec fn records_for(
    stem: Seq<char>,
    paths: Seq<Seq<char>>,
    answers: Seq<Option<Seq<char>>>,
    profile: bool,
) -> Seq<InterceptModel>
    decreases paths.len(),
{
    if paths.len() == 0 || answers.len() != paths.len() {
        Seq::empty()
    } else {
        let before = records_for(stem, paths.drop_last(), answers.drop_last(), profile);
        match answers.last() {
            Some(output) => if constructs_in(output).contains_key(stem) {
                before.push(record_from(constructs_in(output)[stem], paths.last(), profile))
            } else {
                before
            },
            None => before,
        }
    }
}

/// The executables with the records that the answers give rise to.
pub open spec fn masked(
    executables: Seq<ResolvedModel>,
    paths: Seq<Seq<char>>,
    answers: Seq<Option<Seq<char>>>,
    profile: bool,
) -> Seq<ResolvedModel> {
    Seq::new(
        executables.len(),
        |i: int|
            ResolvedModel {
                intercepts: executables[i].intercepts + records_for(
                    executables[i].stem,
                    paths,
                    answers,
                    profile,
                ),
                ..executables[i]
            },
    )
}

/// The interpreters that answered, in the order they were asked.
pub open spec fn answered(
    paths: Seq<Seq<char>>,
    answers: Seq<Option<Seq<char>>>,
    profile: bool,
) -> Seq<InterpreterModel>
    decreases paths.len(),
{
    if paths.len() == 0 || answers.len() != paths.len() {
        Seq::empty()
    } else {
        let before = answered(paths.drop_last(), answers.drop_last(), profile);
        if answers.last() is Some {
            before.push(InterpreterModel { path: paths.last(), profile_loaded: profile })
        } else {
            before
        }
    }
}

/// A copy of an answer's target.
fn copy_target(target: &Option<String>) -> (copy: Option<String>)
    ensures
        copy.deep_view() == target.deep_view(),
{
    match target {
        Some(text) => Some(text.clone()),
        None => None,
    }
}

/// Attach what one interpreter says it masks to the names it masks.
pub fn record_answer(
    executables: &mut Vec<Resolved>,
    interpreter: &str,
    profile: bool,
    output: &str,
)
    ensures
        final(executables).deep_view() == masked(
            old(executables).deep_view(),
            seq![interpreter@],
            seq![Some(output@)],
            profile,
        ),
{
    let constructs = parse(output);
    let ghost before = executables.deep_view();
    let ghost paths = seq![interpreter@];
    let ghost answers = seq![Some(output@)];
    let ghost after = masked(before, paths, answers, profile);
    let mut i: usize = 0;
    while i < executables.len()
        invariant
            constructs@ == constructs_in(output@),
            paths == seq![interpreter@],
            answers == seq![Some(output@)],
            after == masked(before, paths, answers, profile),
            executables.len() == before.len(),
            i <= executables.len(),
            forall|k: int| 0 <= k < i ==> #[trigger] executables.deep_view()[k] == after[k],
            forall|k: int|
                i <= k < before.len() ==> #[trigger] executables.deep_view()[k] == before[k],
        decreases executables.len() - i,
    {
        let ghost current = executables.deep_view();
        assert(current[i as int] == executables@[i as int]@);
        assert(paths.drop_last() =~= Seq::empty());
        assert(records_for(
            before[i as int].stem,
            paths.drop_last(),
            answers.drop_last(),
            profile,
        ) =~= Seq::empty());
        let ghost earlier = executables@[i as int].intercepts.deep_view();
        match constructs.get(executables[i].stem.as_str()) {
            Some(answer) => {
                let intercept = Intercept {
                    construct: answer.0,
                    resolves_to: copy_target(&answer.1),
                    interpreter: interpreter.to_owned(),
                    profile_loaded: profile,
                };
                assert(intercept@ == record_from(answer_model(*answer), interpreter@, profile));
                executables[i].intercepts.push(intercept);
                assert(executables@[i as int].intercepts.deep_view() =~= earlier.push(intercept@));
            },
            None => {},
        }
        assert(executables@[i as int].intercepts.deep_view() =~= after[i as int].intercepts);
        assert(executables.deep_view()[i as int] == after[i as int]);
        assert forall|k: int|
            0 <= k < before.len() && k != i implies #[trigger] executables.deep_view()[k]
            == current[k] by {}
        i += 1;
    }
    assert(executables.deep_view() =~= after);
}

/// Attach what the interpreters asked say they mask, one answer for each, none for one
/// that gave no answer. Returns the interpreters that did answer.
pub fn record_answers(
    executables: &mut Vec<Resolved>,
    paths: &Vec<String>,
    profile: bool,
    answers: &Vec<Option<String>>,
) -> (consulted: Vec<Interpreter>)
    requires
        paths.len() == answers.len(),
    ensures
        final(executables).deep_view() == masked(
            old(executables).deep_view(),
            paths.deep_view(),
            answers.deep_view(),
            profile,
        ),
        consulted.deep_view() == answered(paths.deep_view(), answers.deep_view(), profile),
{
    let ghost before = executables.deep_view();
    let ghost all_paths = paths.deep_view();
    let ghost all_answers = answers.deep_view();
    let mut consulted: Vec<Interpreter> = Vec::new();
    let mut i: usize = 0;
    assert(executables.deep_view() =~= masked(
        before,
        all_paths.take(0),
        all_answers.take(0),
        profile,
    ));
    assert(consulted.deep_view() =~= answered(all_paths.take(0), all_answers.take(0), profile));
    while i < paths.len()
        invariant
            all_paths == paths.deep_view(),
            all_answers == answers.deep_view(),
            paths.len() == answers.len(),
            i <= paths.len(),
            executables.deep_view() == masked(
                before,
                all_paths.take(i as int),
                all_answers.take(i as int),
                profile,
            ),
            consulted.deep_view() == answered(
                all_paths.take(i as int),
                all_answers.take(i as int),
                profile,
            ),
        decreases paths.len() - i,
    {
        let ghost current = executables.deep_view();
        let ghost reached = consulted.deep_view();
        assert(all_paths.take(i + 1).drop_last() =~= all_paths.take(i as int));
        assert(all_answers.take(i + 1).drop_last() =~= all_answers.take(i as int));
        assert(all_paths[i as int] == paths@[i as int]@);
        assert(all_answers[i as int] == answers@[i as int].deep_view());
        match &answers[i] {
            Some(output) => {
                record_answer(executables, paths[i].as_str(), profile, output.as_str());
                let interpreter = Interpreter {
                    path: paths[i].clone(),
                    profile_loaded: profile,
                };
                consulted.push(interpreter);
                assert(consulted.deep_view() =~= reached.push(interpreter@));
                proof {
                    let one = seq![all_paths[i as int]];
                    let said = seq![all_answers[i as int]];
                    assert(one.drop_last() =~= Seq::empty());
                    assert forall|k: int| 0 <= k < before.len() implies executables.deep_view()[k]
                        == masked(before, all_paths.take(i + 1), all_answers.take(i + 1), profile)[k]
                        by {
                        let stem = before[k].stem;
                        assert(records_for(stem, one.drop_last(), said.drop_last(), profile)
                            =~= Seq::empty());
                        assert(executables.deep_view()[k].intercepts =~= before[k].intercepts
                            + records_for(
                            stem,
                            all_paths.take(i + 1),
                            all_answers.take(i + 1),
                            profile,
                        ));
                    }
                }
            },
            None => {},
        }
        assert(executables.deep_view() =~= masked(
            before,
            all_paths.take(i + 1),
            all_answers.take(i + 1),
            profile,
        ));
        i += 1;
    }
    assert(all_paths.take(i as int) =~= all_paths);
    assert(all_answers.take(i as int) =~= all_answers);
    consulted
}

/// Whether an interpreter may give an answer, or none, when it is run.
pub open spec fn may_answer<R: Fn(&str, bool) -> Option<String>>(
    run: R,
    path: Seq<char>,
    profile: bool,
    answer: Option<Seq<char>>,
) -> bool {
    exists|asked: &str, said: Option<String>|
        #![trigger call_ensures(run, (asked, profile), said)]
        asked@ == path && said.deep_view() == answer && call_ensures(run, (asked, profile), said)
}

/// Whether any interpreter may be run.
pub open spec fn runs_anything<R: Fn(&str, bool) -> Option<String>>(run: R) -> bool {
    forall|path: &str, profile: bool| #[trigger] call_requires(run, (path, profile))
}

/// Whether some answers may be what running some interpreters came to.
pub open spec fn may_answer_all<R: Fn(&str, bool) -> Option<String>>(
    run: R,
    paths: Seq<Seq<char>>,
    profile: bool,
    answers: Seq<Option<Seq<char>>>,
) -> bool {
    &&& answers.len() == paths.len()
    &&& forall|i: int|
        0 <= i < paths.len() ==> may_answer(run, paths[i], profile, #[trigger] answers[i])
}

/// Whether some executables and interpreters may be what a scan comes to.
pub open spec fn scans_to<R: Fn(&str, bool) -> Option<String>>(
    run: R,
    mode: ShellScan,
    requested: Seq<Seq<char>>,
    before: Seq<ResolvedModel>,
    after: Seq<ResolvedModel>,
    consulted: Seq<InterpreterModel>,
) -> bool {
    match mode {
        ShellScan::Skip => after == before && consulted == Seq::<InterpreterModel>::empty(),
        ShellScan::Ask { profile } => {
            let paths = paths_to_ask(before, requested);
            exists|answers: Seq<Option<Seq<char>>>|
                {
                    &&& #[trigger] may_answer_all(run, paths, profile, answers)
                    &&& after == masked(before, paths, answers, profile)
                    &&& consulted == answered(paths, answers, profile)
                }
        },
    }
}

/// Ask the interpreters what they mask, and attach the answers to the names they mask.
///
/// Returns the interpreters that answered. When there are none,
/// [`crate::report::Capability::ShellMasking`] must not be claimed, because a name
/// without records would then be indistinguishable from one that was not checked.
pub fn scan<R: Fn(&str, bool) -> Option<String>>(
    executables: &mut Vec<Resolved>,
    mode: ShellScan,
    requested: &Vec<String>,
    run: &R,
) -> (consulted: Vec<Interpreter>)
    requires
        runs_anything(*run),
    ensures
        scans_to(
            *run,
            mode,
            requested.deep_view(),
            old(executables).deep_view(),
            final(executables).deep_view(),
            consulted.deep_view(),
        ),
{
    let profile = match mode {
        ShellScan::Ask { profile } => profile,
        ShellScan::Skip => {
            let consulted: Vec<Interpreter> = Vec::new();
            assert(consulted.deep_view() =~= Seq::<InterpreterModel>::empty());
            return consulted;
        },
    };
    let paths = interpreters_to_ask(executables, requested);
    let ghost all_paths = paths.deep_view();
    let mut answers: Vec<Option<String>> = Vec::new();
    let mut i: usize = 0;
    while i < paths.len()
        invariant
            runs_anything(*run),
            all_paths == paths.deep_view(),
            i <= paths.len(),
            answers.len() == i,
            forall|k: int|
                0 <= k < i ==> may_answer(
                    *run,
                    all_paths[k],
                    profile,
                    #[trigger] answers.deep_view()[k],
                ),
        decreases paths.len() - i,
    {
        let ghost current = answers.deep_view();
        assert(all_paths[i as int] == paths@[i as int]@);
        let answer = run(paths[i].as_str(), profile);
        assert(may_answer(*run, all_paths[i as int], profile, answer.deep_view()));
        answers.push(answer);
        assert forall|k: int| 0 <= k < i implies #[trigger] answers.deep_view()[k]
            == current[k] by {}
        i += 1;
    }
    assert(may_answer_all(*run, all_paths, profile, answers.deep_view()));
    record_answers(executables, &paths, profile, &answers)
}

// ---- what holds of the records ----

proof fn lemma_records(
    stem: Seq<char>,
    paths: Seq<Seq<char>>,
    answers: Seq<Option<Seq<char>>>,
    profile: bool,
)
    requires
        paths.len() == answers.len(),
    ensures
        forall|k: int|
            0 <= k < records_for(stem, paths, answers, profile).len() ==> exists|i: int|
                {
                    &&& 0 <= i < paths.len()
                    &&& #[trigger] answers[i] is Some
                    &&& constructs_in(answers[i]->0).contains_key(stem)
                    &&& #[trigger] records_for(stem, paths, answers, profile)[k] == record_from(
                        constructs_in(answers[i]->0)[stem],
                        paths[i],
                        profile,
                    )
                },
    decreases paths.len(),
{
    if paths.len() > 0 {
        let fewer = paths.drop_last();
        let less = answers.drop_last();
        lemma_records(stem, fewer, less, profile);
        let before = records_for(stem, fewer, less, profile);
        let all = records_for(stem, paths, answers, profile);
        assert forall|k: int| 0 <= k < all.len() implies exists|i: int|
            {
                &&& 0 <= i < paths.len()
                &&& #[trigger] answers[i] is Some
                &&& constructs_in(answers[i]->0).contains_key(stem)
                &&& #[trigger] all[k] == record_from(
                    constructs_in(answers[i]->0)[stem],
                    paths[i],
                    profile,
                )
            } by {
            if k < before.len() {
                assert(all[k] == before[k]);
                let i = choose|i: int|
                    {
                        &&& 0 <= i < fewer.len()
                        &&& #[trigger] less[i] is Some
                        &&& constructs_in(less[i]->0).contains_key(stem)
                        &&& before[k] == record_from(
                            constructs_in(less[i]->0)[stem],
                            fewer[i],
                            profile,
                        )
                    };
                assert(answers[i] == less[i] && paths[i] == fewer[i]);
            } else {
                assert(answers[paths.len() - 1] is Some);
            }
        }
    }
}

proof fn lemma_answered(paths: Seq<Seq<char>>, answers: Seq<Option<Seq<char>>>, profile: bool)
    requires
        paths.len() == answers.len(),
    ensures
        forall|i: int|
            0 <= i < paths.len() && #[trigger] answers[i] is Some ==> answered(
                paths,
                answers,
                profile,
            ).contains(InterpreterModel { path: paths[i], profile_loaded: profile }),
        (exists|i: int| 0 <= i < paths.len() && #[trigger] answers[i] is Some) <==> answered(
            paths,
            answers,
            profile,
        ).len() > 0,
    decreases paths.len(),
{
    if paths.len() > 0 {
        let fewer = paths.drop_last();
        let less = answers.drop_last();
        lemma_answered(fewer, less, profile);
        let before = answered(fewer, less, profile);
        let all = answered(paths, answers, profile);
        assert forall|i: int|
            0 <= i < paths.len() && #[trigger] answers[i] is Some implies all.contains(
            InterpreterModel { path: paths[i], profile_loaded: profile },
        ) by {
            let one = InterpreterModel { path: paths[i], profile_loaded: profile };
            if i < fewer.len() {
                assert(less[i] == answers[i] && fewer[i] == paths[i]);
                let k = choose|k: int| 0 <= k < before.len() && before[k] == one;
                assert(all[k] == one);
            } else {
                assert(all[all.len() - 1] == one);
            }
        }
        if exists|i: int| 0 <= i < paths.len() && #[trigger] answers[i] is Some {
            let i = choose|i: int| 0 <= i < paths.len() && #[trigger] answers[i] is Some;
            if i < fewer.len() {
                assert(less[i] == answers[i]);
            }
        }
        if all.len() > 0 {
            if answers.last() is Some {
                assert(answers[paths.len() - 1] is Some);
            } else {
                let i = choose|i: int| 0 <= i < fewer.len() && #[trigger] less[i] is Some;
                assert(answers[i] == less[i]);
            }
        }
    }
}

/// Every record names an interpreter that was asked and answered, with the profile it
/// was asked under.
pub proof fn every_record_names_a_consulted_interpreter(
    stem: Seq<char>,
    paths: Seq<Seq<char>>,
    answers: Seq<Option<Seq<char>>>,
    profile: bool,
    k: int,
)
    requires
        paths.len() == answers.len(),
        0 <= k < records_for(stem, paths, answers, profile).len(),
    ensures
        ({
            let record = records_for(stem, paths, answers, profile)[k];
            answered(paths, answers, profile).contains(
                InterpreterModel {
                    path: record.interpreter,
                    profile_loaded: record.profile_loaded,
                },
            )
        }),
{
    lemma_records(stem, paths, answers, profile);
    lemma_answered(paths, answers, profile);
    let all = records_for(stem, paths, answers, profile);
    let i = choose|i: int|
        {
            &&& 0 <= i < paths.len()
            &&& #[trigger] answers[i] is Some
            &&& constructs_in(answers[i]->0).contains_key(stem)
            &&& all[k] == record_from(constructs_in(answers[i]->0)[stem], paths[i], profile)
        };
    assert(answers[i] is Some);
}

/// With no interpreter consulted, nothing is recorded at all.
pub proof fn no_answer_records_nothing(
    executables: Seq<ResolvedModel>,
    paths: Seq<Seq<char>>,
    answers: Seq<Option<Seq<char>>>,
    profile: bool,
)
    requires
        paths.len() == answers.len(),
        answered(paths, answers, profile).len() == 0,
    ensures
        masked(executables, paths, answers, profile) == executables,
{
    lemma_answered(paths, answers, profile);
    assert forall|i: int| 0 <= i < executables.len() implies masked(
        executables,
        paths,
        answers,
        profile,
    )[i] == executables[i] by {
        let records = records_for(executables[i].stem, paths, answers, profile);
        lemma_records(executables[i].stem, paths, answers, profile);
        if records.len() > 0 {
            let j = choose|j: int|
                {
                    &&& 0 <= j < paths.len()
                    &&& #[trigger] answers[j] is Some
                    &&& constructs_in(answers[j]->0).contains_key(executables[i].stem)
                    &&& records[0] == record_from(
                        constructs_in(answers[j]->0)[executables[i].stem],
                        paths[j],
                        profile,
                    )
                };
            assert(answers[j] is Some);
        }
        assert(executables[i].intercepts + records =~= executables[i].intercepts);
    }
    assert(masked(executables, paths, answers, profile) =~= executables);
}

/// An interpreter that was asked and answered masks exactly the names it said it answers
/// to: its record is there for each of those, and its silence about any other name is a
/// verdict too.
pub proof fn an_interpreter_masks_what_it_answers_to(
    stem: Seq<char>,
    paths: Seq<Seq<char>>,
    answers: Seq<Option<Seq<char>>>,
    profile: bool,
    i: int,
)
    requires
        paths.len() == answers.len(),
        0 <= i < paths.len(),
        forall|a: int, b: int|
            0 <= a < b < paths.len() ==> !equal_ignoring_ascii_case(
                #[trigger] paths[a],
                #[trigger] paths[b],
            ),
    ensures
        first_intercept_by(
            records_for(stem, paths, answers, profile),
            paths[i],
        ) == match answers[i] {
            Some(output) => if constructs_in(output).contains_key(stem) {
                Some(record_from(constructs_in(output)[stem], paths[i], profile))
            } else {
                None
            },
            None => None,
        },
    decreases paths.len(),
{
    let fewer = paths.drop_last();
    let less = answers.drop_last();
    let before = records_for(stem, fewer, less, profile);
    let all = records_for(stem, paths, answers, profile);
    assert forall|a: int, b: int| 0 <= a < b < fewer.len() implies !equal_ignoring_ascii_case(
        #[trigger] fewer[a],
        #[trigger] fewer[b],
    ) by {
        assert(fewer[a] == paths[a] && fewer[b] == paths[b]);
    }
    if i < fewer.len() {
        an_interpreter_masks_what_it_answers_to(stem, fewer, less, profile, i);
        if all.len() > before.len() {
            lemma_first_intercept_push(before, all.last(), paths[i]);
            assert(all =~= before.push(all.last()));
            assert(!equal_ignoring_ascii_case(paths[i], paths[paths.len() - 1]));
            lemma_case_symmetric(paths[paths.len() - 1], paths[i]);
        }
    } else {
        lemma_records(stem, fewer, less, profile);
        assert forall|k: int| 0 <= k < before.len() implies !equal_ignoring_ascii_case(
            (#[trigger] before[k]).interpreter,
            paths[i],
        ) by {
            let j = choose|j: int|
                {
                    &&& 0 <= j < fewer.len()
                    &&& #[trigger] less[j] is Some
                    &&& constructs_in(less[j]->0).contains_key(stem)
                    &&& before[k] == record_from(
                        constructs_in(less[j]->0)[stem],
                        fewer[j],
                        profile,
                    )
                };
            assert(fewer[j] == paths[j]);
            assert(!equal_ignoring_ascii_case(paths[j], paths[i]));
        }
        lemma_first_intercept_none(before, paths[i]);
        if all.len() > before.len() {
            lemma_first_intercept_push(before, all.last(), paths[i]);
            assert(all =~= before.push(all.last()));
        }
    }
}

proof fn lemma_case_symmetric(left: Seq<char>, right: Seq<char>)
    ensures
        equal_ignoring_ascii_case(left, right) == equal_ignoring_ascii_case(right, left),
        equal_ignoring_ascii_case(left, left),
{
}

proof fn lemma_first_intercept_none(intercepts: Seq<InterceptModel>, interpreter: Seq<char>)
    requires
        forall|k: int|
            0 <= k < intercepts.len() ==> !equal_ignoring_ascii_case(
                (#[trigger] intercepts[k]).interpreter,
                interpreter,
            ),
    ensures
        first_intercept_by(intercepts, interpreter) is None,
    decreases intercepts.len(),
{
    if intercepts.len() > 0 {
        assert forall|k: int|
            0 <= k < intercepts.drop_first().len() implies !equal_ignoring_ascii_case(
            (#[trigger] intercepts.drop_first()[k]).interpreter,
            interpreter,
        ) by {
            assert(intercepts.drop_first()[k] == intercepts[k + 1]);
        }
        lemma_first_intercept_none(intercepts.drop_first(), interpreter);
    }
}

proof fn lemma_first_intercept_push(
    intercepts: Seq<InterceptModel>,
    more: InterceptModel,
    interpreter: Seq<char>,
)
    ensures
        first_intercept_by(intercepts.push(more), interpreter) == match first_intercept_by(
            intercepts,
            interpreter,
        ) {
            Some(found) => Some(found),
            None => if equal_ignoring_ascii_case(more.interpreter, interpreter) {
                Some(more)
            } else {
                None
            },
        },
    decreases intercepts.len(),
{
    if intercepts.len() > 0 {
        lemma_first_intercept_push(intercepts.drop_first(), more, interpreter);
        assert(intercepts.push(more)[0] == intercepts[0]);
        assert(intercepts.push(more).drop_first() =~= intercepts.drop_first().push(more));
    } else {
        assert(intercepts.push(more).drop_first() =~= Seq::empty());
        assert(first_intercept_by(Seq::empty(), interpreter) is None);
    }
}

/// Whether running an interpreter always gives one and the same answer.
pub open spec fn runs<R: Fn(&str, bool) -> Option<String>>(
    run: R,
    shells: spec_fn(Seq<char>, bool) -> Option<Seq<char>>,
) -> bool {
    forall|asked: &str, profile: bool, said: Option<String>| #[trigger]
        call_ensures(run, (asked, profile), said) ==> said.deep_view() == shells(asked@, profile)
}

/// What the given shells answer.
pub open spec fn answers_of(
    paths: Seq<Seq<char>>,
    profile: bool,
    shells: spec_fn(Seq<char>, bool) -> Option<Seq<char>>,
) -> Seq<Option<Seq<char>>> {
    Seq::new(paths.len(), |i: int| shells(paths[i], profile))
}

/// With shells that stand by their answers, the answers are theirs.
pub proof fn answers_follow_the_shells<R: Fn(&str, bool) -> Option<String>>(
    run: R,
    shells: spec_fn(Seq<char>, bool) -> Option<Seq<char>>,
    paths: Seq<Seq<char>>,
    profile: bool,
    answers: Seq<Option<Seq<char>>>,
)
    requires
        runs(run, shells),
        may_answer_all(run, paths, profile, answers),
    ensures
        answers == answers_of(paths, profile, shells),
{
    assert forall|i: int| 0 <= i < paths.len() implies answers[i] == answers_of(
        paths,
        profile,
        shells,
    )[i] by {
        assert(may_answer(run, paths[i], profile, answers[i]));
    }
    assert(answers =~= answers_of(paths, profile, shells));
}

// ---- what a record says, and whom to ask ----

/// Every interpreter that answers to a name has its record there, and the record carries the
/// construct and the target that its output says, unchanged.
pub proof fn a_record_carries_what_the_output_says(
    stem: Seq<char>,
    paths: Seq<Seq<char>>,
    answers: Seq<Option<Seq<char>>>,
    profile: bool,
    i: int,
    output: Seq<char>,
)
    requires
        paths.len() == answers.len(),
        0 <= i < paths.len(),
        answers[i] == Some(output),
        constructs_in(output).contains_key(stem),
    ensures
        records_for(stem, paths, answers, profile).contains(
            InterceptModel {
                construct: constructs_in(output)[stem].0,
                resolves_to: constructs_in(output)[stem].1,
                interpreter: paths[i],
                profile_loaded: profile,
            },
        ),
    decreases paths.len(),
{
    let before = records_for(stem, paths.drop_last(), answers.drop_last(), profile);
    let all = records_for(stem, paths, answers, profile);
    let record = InterceptModel {
        construct: constructs_in(output)[stem].0,
        resolves_to: constructs_in(output)[stem].1,
        interpreter: paths[i],
        profile_loaded: profile,
    };
    if i < paths.len() - 1 {
        a_record_carries_what_the_output_says(
            stem,
            paths.drop_last(),
            answers.drop_last(),
            profile,
            i,
            output,
        );
        let k = choose|k: int| 0 <= k < before.len() && before[k] == record;
        assert(all[k] == record);
    } else {
        assert(all[all.len() - 1] == record);
    }
}

/// Every record is what some interpreter's output says of the name: the construct and the
/// target come from that output, the path is the interpreter's, and the profile is the one
/// it was asked under.
pub proof fn every_record_is_what_an_output_says(
    stem: Seq<char>,
    paths: Seq<Seq<char>>,
    answers: Seq<Option<Seq<char>>>,
    profile: bool,
    k: int,
) -> (i: int)
    requires
        paths.len() == answers.len(),
        0 <= k < records_for(stem, paths, answers, profile).len(),
    ensures
        k <= i < paths.len(),
        answers[i] is Some,
        constructs_in(answers[i]->0).contains_key(stem),
        records_for(stem, paths, answers, profile)[k].construct == constructs_in(
            answers[i]->0,
        )[stem].0,
        records_for(stem, paths, answers, profile)[k].resolves_to == constructs_in(
            answers[i]->0,
        )[stem].1,
        records_for(stem, paths, answers, profile)[k].interpreter == paths[i],
        records_for(stem, paths, answers, profile)[k].profile_loaded == profile,
    decreases paths.len(),
{
    let before = records_for(stem, paths.drop_last(), answers.drop_last(), profile);
    lemma_record_count(stem, paths.drop_last(), answers.drop_last(), profile);
    if k < before.len() {
        every_record_is_what_an_output_says(
            stem,
            paths.drop_last(),
            answers.drop_last(),
            profile,
            k,
        )
    } else {
        paths.len() - 1
    }
}

/// How many of some answers speak of a name.
pub open spec fn answering_to(stem: Seq<char>, answers: Seq<Option<Seq<char>>>) -> nat
    decreases answers.len(),
{
    if answers.len() == 0 {
        0
    } else {
        answering_to(stem, answers.drop_last()) + if answers.last() is Some && constructs_in(
            answers.last()->0,
        ).contains_key(stem) {
            1nat
        } else {
            0nat
        }
    }
}

proof fn lemma_record_count(
    stem: Seq<char>,
    paths: Seq<Seq<char>>,
    answers: Seq<Option<Seq<char>>>,
    profile: bool,
)
    requires
        paths.len() == answers.len(),
    ensures
        records_for(stem, paths, answers, profile).len() == answering_to(stem, answers),
        answering_to(stem, answers) <= answers.len(),
    decreases paths.len(),
{
    if paths.len() > 0 {
        lemma_record_count(stem, paths.drop_last(), answers.drop_last(), profile);
    }
}

/// A scan adds to each name one record for every interpreter that answers to it, behind the
/// records that were there, and changes nothing else about any name.
pub proof fn a_scan_only_adds_records(
    executables: Seq<ResolvedModel>,
    paths: Seq<Seq<char>>,
    answers: Seq<Option<Seq<char>>>,
    profile: bool,
    i: int,
)
    requires
        paths.len() == answers.len(),
        0 <= i < executables.len(),
    ensures
        masked(executables, paths, answers, profile).len() == executables.len(),
        ({
            let after = masked(executables, paths, answers, profile)[i];
            &&& after.stem == executables[i].stem
            &&& after.occurrences == executables[i].occurrences
            &&& executables[i].intercepts.is_prefix_of(after.intercepts)
            &&& after.intercepts.len() == executables[i].intercepts.len() + answering_to(
                executables[i].stem,
                answers,
            )
            &&& after.intercepts.skip(executables[i].intercepts.len() as int) == records_for(
                executables[i].stem,
                paths,
                answers,
                profile,
            )
        }),
{
    lemma_record_count(executables[i].stem, paths, answers, profile);
    let after = masked(executables, paths, answers, profile)[i];
    let earlier = executables[i].intercepts;
    assert(after.intercepts.skip(earlier.len() as int) =~= records_for(
        executables[i].stem,
        paths,
        answers,
        profile,
    ));
    assert(after.intercepts.take(earlier.len() as int) =~= earlier);
}

/// An alias that an interpreter lists first for a name is recorded on that name with the
/// target the line gives, word for word.
pub proof fn a_listed_alias_is_recorded_with_its_target(
    executables: Seq<ResolvedModel>,
    paths: Seq<Seq<char>>,
    answers: Seq<Option<Seq<char>>>,
    profile: bool,
    i: int,
    j: int,
    n: int,
    name: Seq<char>,
    target: Seq<char>,
)
    requires
        paths.len() == answers.len(),
        0 <= j < paths.len(),
        answers[j] is Some,
        0 <= i < executables.len(),
        executables[i].stem == lowercase(name),
        name.len() > 0,
        free_of(name, '\t'),
        free_of(target, '\t'),
        target.len() > 0,
        trimmed(target) == target,
        0 <= n < lines_of(answers[j]->0).len(),
        lines_of(answers[j]->0)[n] == "alias"@.push('\t') + (name.push('\t') + target),
        forall|m: int|
            0 <= m < n ==> match #[trigger] construct_on(lines_of(answers[j]->0)[m]) {
                Some((other, _)) => other != lowercase(name),
                None => true,
            },
    ensures
        masked(executables, paths, answers, profile)[i].intercepts.contains(
            InterceptModel {
                construct: ShellConstruct::Alias,
                resolves_to: Some(target),
                interpreter: paths[j],
                profile_loaded: profile,
            },
        ),
{
    let output = answers[j]->0;
    let stem = executables[i].stem;
    an_alias_line_names_its_target(name, target, Seq::empty());
    the_first_line_for_a_name_is_kept(
        output,
        n,
        stem,
        (ShellConstruct::Alias, Some(target)),
    );
    lemma_recorded(executables, paths, answers, profile, i, j);
}

/// A function that an interpreter lists first for a name is recorded on that name, without a
/// target.
pub proof fn a_listed_function_is_recorded(
    executables: Seq<ResolvedModel>,
    paths: Seq<Seq<char>>,
    answers: Seq<Option<Seq<char>>>,
    profile: bool,
    i: int,
    j: int,
    n: int,
    name: Seq<char>,
    more: Seq<char>,
)
    requires
        paths.len() == answers.len(),
        0 <= j < paths.len(),
        answers[j] is Some,
        0 <= i < executables.len(),
        executables[i].stem == lowercase(name),
        name.len() > 0,
        free_of(name, '\t'),
        0 <= n < lines_of(answers[j]->0).len(),
        lines_of(answers[j]->0)[n] == "function"@.push('\t') + (name.push('\t') + more),
        forall|m: int|
            0 <= m < n ==> match #[trigger] construct_on(lines_of(answers[j]->0)[m]) {
                Some((other, _)) => other != lowercase(name),
                None => true,
            },
    ensures
        masked(executables, paths, answers, profile)[i].intercepts.contains(
            InterceptModel {
                construct: ShellConstruct::Function,
                resolves_to: None,
                interpreter: paths[j],
                profile_loaded: profile,
            },
        ),
{
    let output = answers[j]->0;
    a_function_line_names_a_function(name, more);
    the_first_line_for_a_name_is_kept(
        output,
        n,
        executables[i].stem,
        (ShellConstruct::Function, None),
    );
    lemma_recorded(executables, paths, answers, profile, i, j);
}

proof fn lemma_recorded(
    executables: Seq<ResolvedModel>,
    paths: Seq<Seq<char>>,
    answers: Seq<Option<Seq<char>>>,
    profile: bool,
    i: int,
    j: int,
)
    requires
        paths.len() == answers.len(),
        0 <= j < paths.len(),
        answers[j] is Some,
        0 <= i < executables.len(),
        constructs_in(answers[j]->0).contains_key(executables[i].stem),
    ensures
        masked(executables, paths, answers, profile)[i].intercepts.contains(
            InterceptModel {
                construct: constructs_in(answers[j]->0)[executables[i].stem].0,
                resolves_to: constructs_in(answers[j]->0)[executables[i].stem].1,
                interpreter: paths[j],
                profile_loaded: profile,
            },
        ),
{
    let output = answers[j]->0;
    let stem = executables[i].stem;
    let record = InterceptModel {
        construct: constructs_in(output)[stem].0,
        resolves_to: constructs_in(output)[stem].1,
        interpreter: paths[j],
        profile_loaded: profile,
    };
    a_record_carries_what_the_output_says(stem, paths, answers, profile, j, output);
    let records = records_for(stem, paths, answers, profile);
    let k = choose|k: int| 0 <= k < records.len() && records[k] == record;
    let after = masked(executables, paths, answers, profile)[i].intercepts;
    assert(after[executables[i].intercepts.len() + k] == record);
}

/// How many of some answers there are.
pub open spec fn answer_count(answers: Seq<Option<Seq<char>>>) -> nat
    decreases answers.len(),
{
    if answers.len() == 0 {
        0
    } else {
        answer_count(answers.drop_last()) + if answers.last() is Some {
            1nat
        } else {
            0nat
        }
    }
}

/// Every interpreter that answered counts as consulted, and each of them once.
pub proof fn whoever_answered_is_consulted(
    paths: Seq<Seq<char>>,
    answers: Seq<Option<Seq<char>>>,
    profile: bool,
)
    requires
        paths.len() == answers.len(),
    ensures
        answered(paths, answers, profile).len() == answer_count(answers),
        forall|i: int|
            0 <= i < paths.len() && #[trigger] answers[i] is Some ==> answered(
                paths,
                answers,
                profile,
            ).contains(InterpreterModel { path: paths[i], profile_loaded: profile }),
    decreases paths.len(),
{
    lemma_answered(paths, answers, profile);
    if paths.len() > 0 {
        whoever_answered_is_consulted(paths.drop_last(), answers.drop_last(), profile);
    }
}

/// Every interpreter that counts as consulted did answer, and with the profile it was asked
/// under.
pub proof fn whoever_is_consulted_answered(
    paths: Seq<Seq<char>>,
    answers: Seq<Option<Seq<char>>>,
    profile: bool,
    k: int,
) -> (i: int)
    requires
        paths.len() == answers.len(),
        0 <= k < answered(paths, answers, profile).len(),
    ensures
        k <= i < paths.len(),
        answers[i] is Some,
        answered(paths, answers, profile)[k].path == paths[i],
        answered(paths, answers, profile)[k].profile_loaded == profile,
    decreases paths.len(),
{
    let fewer = paths.drop_last();
    let less = answers.drop_last();
    whoever_answered_is_consulted(fewer, less, profile);
    lemma_answer_count(less);
    if k < answered(fewer, less, profile).len() {
        whoever_is_consulted_answered(fewer, less, profile, k)
    } else {
        paths.len() - 1
    }
}

proof fn lemma_answer_count(answers: Seq<Option<Seq<char>>>)
    ensures
        answer_count(answers) <= answers.len(),
    decreases answers.len(),
{
    if answers.len() > 0 {
        lemma_answer_count(answers.drop_last());
    }
}

/// The path of a file is its directory, without the separators that may end it, one
/// separator, and its name.
pub proof fn a_path_is_the_directory_and_the_name(
    occurrence: OccurrenceModel,
    directory: Seq<char>,
    separators: Seq<char>,
)
    requires
        occurrence.directory == directory + separators,
        directory.len() == 0 || (directory.last() != '\\' && directory.last() != '/'),
        forall|i: int|
            0 <= i < separators.len() ==> (#[trigger] separators[i] == '\\' || separators[i]
                == '/'),
    ensures
        path_of(occurrence) == directory + seq!['\\'] + occurrence.file_name,
{
    only_trailing_separators_are_stripped(directory, separators);
    assert(path_of(occurrence) =~= directory + seq!['\\'] + occurrence.file_name);
}

/// A stem leads to the copy that this process would run, or to the one a fresh process would
/// run where this one can run none.
pub proof fn a_stem_leads_to_the_copy_that_runs(
    executables: Seq<ResolvedModel>,
    i: int,
    stem: Seq<char>,
)
    requires
        0 <= i < executables.len(),
        executables[i].stem == stem,
        forall|k: int| 0 <= k < i ==> (#[trigger] executables[k]).stem != stem,
    ensures
        path_for_stem(executables, stem) == match (
            executables[i].live_winner(),
            executables[i].fresh_winner(),
        ) {
            (Some(live), _) => Some(path_of(live)),
            (None, Some(fresh)) => Some(path_of(fresh)),
            (None, None) => None,
        },
{
    lemma_record_of(executables, i, stem);
}

proof fn lemma_record_of(executables: Seq<ResolvedModel>, i: int, stem: Seq<char>)
    requires
        0 <= i < executables.len(),
        executables[i].stem == stem,
        forall|k: int| 0 <= k < i ==> (#[trigger] executables[k]).stem != stem,
    ensures
        record_of(executables, stem) == Some(executables[i]),
    decreases i,
{
    if i > 0 {
        assert(executables[0].stem != stem);
        let rest = executables.drop_first();
        assert forall|k: int| 0 <= k < i - 1 implies (#[trigger] rest[k]).stem != stem by {
            assert(rest[k] == executables[k + 1]);
        }
        lemma_record_of(rest, i - 1, stem);
    }
}

/// A stem that no record has leads nowhere.
pub proof fn an_unknown_stem_leads_nowhere(executables: Seq<ResolvedModel>, stem: Seq<char>)
    requires
        forall|k: int| 0 <= k < executables.len() ==> (#[trigger] executables[k]).stem != stem,
    ensures
        path_for_stem(executables, stem) is None,
    decreases executables.len(),
{
    if executables.len() > 0 {
        assert(executables[0].stem != stem);
        let rest = executables.drop_first();
        assert forall|k: int| 0 <= k < rest.len() implies (#[trigger] rest[k]).stem != stem by {
            assert(rest[k] == executables[k + 1]);
        }
        an_unknown_stem_leads_nowhere(rest, stem);
    }
}

/// A request for an absolute path leads to that path as it was written, and any other to
/// what its lower-case form leads to as a stem.
pub proof fn a_request_is_a_path_or_a_stem(
    executables: Seq<ResolvedModel>,
    request: Seq<char>,
)
    ensures
        absolute(request) ==> path_for_request(executables, request) == Some(request),
        !absolute(request) ==> path_for_request(executables, request) == path_for_stem(
            executables,
            lowercase(request),
        ),
{
}

/// Every request that leads somewhere has the interpreter it leads to among those asked.
pub proof fn whoever_is_requested_is_asked(
    executables: Seq<ResolvedModel>,
    requested: Seq<Seq<char>>,
    i: int,
    path: Seq<char>,
)
    requires
        0 <= i < requested.len(),
        path_for_request(executables, requested[i]) == Some(path),
    ensures
        exists|k: int|
            0 <= k < paths_to_ask(executables, requested).len() && equal_ignoring_ascii_case(
                #[trigger] paths_to_ask(executables, requested)[k],
                path,
            ),
{
    lemma_asked(executables, requested, i, path);
    assert(holds_path(paths_to_ask(executables, requested), path));
}

proof fn lemma_asked(
    executables: Seq<ResolvedModel>,
    requests: Seq<Seq<char>>,
    i: int,
    path: Seq<char>,
)
    requires
        0 <= i < requests.len(),
        path_for_request(executables, requests[i]) == Some(path),
    ensures
        holds_path(paths_for(executables, requests), path),
    decreases requests.len(),
{
    let fewer = requests.drop_last();
    let before = paths_for(executables, fewer);
    let all = paths_for(executables, requests);
    if i < fewer.len() {
        lemma_asked(executables, fewer, i, path);
    }
    if holds_path(before, path) {
        let k = choose|k: int|
            0 <= k < before.len() && equal_ignoring_ascii_case(#[trigger] before[k], path);
        assert(all[k] == before[k]);
    } else {
        lemma_case_symmetric(path, path);
        assert(all == before.push(path));
        assert(all[before.len() as int] == path);
    }
}

/// Nobody is asked who was not requested, and those who are asked are asked in the order of
/// the requests.
pub proof fn whoever_is_asked_was_requested(
    executables: Seq<ResolvedModel>,
    requested: Seq<Seq<char>>,
    k: int,
) -> (i: int)
    requires
        requested.len() > 0,
        0 <= k < paths_to_ask(executables, requested).len(),
    ensures
        k <= i < requested.len(),
        path_for_request(executables, requested[i]) == Some(
            paths_to_ask(executables, requested)[k],
        ),
{
    lemma_requested(executables, requested, k)
}

proof fn lemma_requested(
    executables: Seq<ResolvedModel>,
    requests: Seq<Seq<char>>,
    k: int,
) -> (i: int)
    requires
        0 <= k < paths_for(executables, requests).len(),
    ensures
        k <= i < requests.len(),
        path_for_request(executables, requests[i]) == Some(paths_for(executables, requests)[k]),
    decreases requests.len(),
{
    let fewer = requests.drop_last();
    lemma_no_more_than_requested(executables, fewer);
    if k < paths_for(executables, fewer).len() {
        lemma_requested(executables, fewer, k)
    } else {
        requests.len() - 1
    }
}

proof fn lemma_no_more_than_requested(
    executables: Seq<ResolvedModel>,
    requests: Seq<Seq<char>>,
)
    ensures
        paths_for(executables, requests).len() <= requests.len(),
    decreases requests.len(),
{
    if requests.len() > 0 {
        lemma_no_more_than_requested(executables, requests.drop_last());
    }
}

/// An interpreter that was requested, and that answers under whatever spelling of its path it
/// is asked, ends up among those consulted.
pub proof fn whoever_is_requested_and_answers_is_consulted<R: Fn(&str, bool) -> Option<String>>(
    run: R,
    shells: spec_fn(Seq<char>, bool) -> Option<Seq<char>>,
    profile: bool,
    requested: Seq<Seq<char>>,
    before: Seq<ResolvedModel>,
    after: Seq<ResolvedModel>,
    consulted: Seq<InterpreterModel>,
    i: int,
    path: Seq<char>,
) -> (c: int)
    requires
        runs(run, shells),
        scans_to(run, ShellScan::Ask { profile }, requested, before, after, consulted),
        0 <= i < requested.len(),
        path_for_request(before, requested[i]) == Some(path),
        forall|spelling: Seq<char>|
            equal_ignoring_ascii_case(spelling, path) ==> #[trigger] shells(spelling, profile)
                is Some,
    ensures
        0 <= c < consulted.len(),
        equal_ignoring_ascii_case(consulted[c].path, path),
        consulted[c].profile_loaded == profile,
        after.len() == before.len(),
{
    let paths = paths_to_ask(before, requested);
    let answers = choose|answers: Seq<Option<Seq<char>>>|
        {
            &&& #[trigger] may_answer_all(run, paths, profile, answers)
            &&& after == masked(before, paths, answers, profile)
            &&& consulted == answered(paths, answers, profile)
        };
    answers_follow_the_shells(run, shells, paths, profile, answers);
    whoever_is_requested_is_asked(before, requested, i, path);
    let k = choose|k: int|
        0 <= k < paths.len() && equal_ignoring_ascii_case(#[trigger] paths[k], path);
    assert(shells(paths[k], profile) is Some);
    assert(answers[k] is Some);
    whoever_answered_is_consulted(paths, answers, profile);
    let one = InterpreterModel { path: paths[k], profile_loaded: profile };
    assert(consulted.contains(one));
    choose|c: int| 0 <= c < consulted.len() && consulted[c] == one
}

/// A scan that is skipped changes nothing and consults nobody.
pub proof fn a_skipped_scan_changes_nothing<R: Fn(&str, bool) -> Option<String>>(
    run: R,
    requested: Seq<Seq<char>>,
    before: Seq<ResolvedModel>,
    after: Seq<ResolvedModel>,
    consulted: Seq<InterpreterModel>,
)
    requires
        scans_to(run, ShellScan::Skip, requested, before, after, consulted),
    ensures
        after == before,
        consulted.len() == 0,
{
}

} // verus!
