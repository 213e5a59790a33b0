//! Working out which copy of a name wins.
//!
//! Windows resolves a bare command name by walking `PATH` in order and, in each directory,
//! trying each extension in `PATHEXT` in order. Both loops matter: `foo.com` beats
//! `foo.exe` in the same directory, and no amount of reordering `PATH` changes that.

use vstd::prelude::*;

use crate::report::{
    first_live, live_winner_is_the_first_reachable, Occurrence, OccurrenceModel, PathScope,
    Resolved, ResolvedModel,
};
use crate::text::{sorts_before, text_order_is_total, text_order_is_transitive, text_sorts_before};

verus! {

/// The bits of a [`PathEntry`] every file inside it inherits.
#[derive(Debug, Clone, Copy, PartialEq, Eq, Structural)]
pub struct Origin {
    /// Index of the entry.
    pub entry_index: usize,
    /// Scope of the entry.
    pub scope: PathScope,
    /// The entry's position in the live process `PATH`, if any.
    pub process_position: Option<usize>,
}

/// One executable file as found on disk, before grouping by name.
pub struct Found {
    /// What it inherits from the entry whose directory it was found in.
    pub origin: Origin,
    /// The directory itself.
    pub directory: String,
    /// File name as it appears on disk, original casing.
    pub file_name: String,
    /// Lower-cased name with the matched extension removed.
    pub stem: String,
    /// Position of the matched extension within `PATHEXT`.
    pub extension_rank: usize,
    /// Whether the file is a reparse point, reported rather than followed.
    pub is_reparse_point: bool,
}

/// The model of a [`Found`].
pub ghost struct FoundModel {
    pub origin: Origin,
    pub directory: Seq<char>,
    pub file_name: Seq<char>,
    pub stem: Seq<char>,
    pub extension_rank: usize,
    pub is_reparse_point: bool,
}

impl View for Found {
    type V = FoundModel;

    open spec fn view(&self) -> FoundModel {
        FoundModel {
            origin: self.origin,
            directory: self.directory@,
            file_name: self.file_name@,
            stem: self.stem@,
            extension_rank: self.extension_rank,
            is_reparse_point: self.is_reparse_point,
        }
    }
}

impl DeepView for Found {
    type V = FoundModel;

    open spec fn deep_view(&self) -> FoundModel {
        self@
    }
}

// ---- resolution order ----

/// Sort key for live resolution: a directory the process cannot see ranks last.
pub open spec fn rank_when_live(origin: Origin) -> usize {
    match origin.process_position {
        Some(position) => position,
        None => usize::MAX,
    }
}

/// Whether one file comes strictly before another in live resolution order: by live
/// position, then by composed index, then by `PATHEXT` rank, then by name.
pub open spec fn precedes(left: FoundModel, right: FoundModel) -> bool {
    if rank_when_live(left.origin) != rank_when_live(right.origin) {
        rank_when_live(left.origin) < rank_when_live(right.origin)
    } else if left.origin.entry_index != right.origin.entry_index {
        left.origin.entry_index < right.origin.entry_index
    } else if left.extension_rank != right.extension_rank {
        left.extension_rank < right.extension_rank
    } else {
        sorts_before(left.file_name, right.file_name)
    }
}

/// A sorted list with one more file in it, behind those it does not precede.
pub open spec fn placed(sorted: Seq<FoundModel>, file: FoundModel) -> Seq<FoundModel>
    decreases sorted.len(),
{
    if sorted.len() == 0 || !precedes(file, sorted.last()) {
        sorted.push(file)
    } else {
        placed(sorted.drop_last(), file).push(sorted.last())
    }
}

/// Files in live resolution order. Files that neither precede the other stay in the
/// order they were found in.
pub open spec fn in_resolution_order(found: Seq<FoundModel>) -> Seq<FoundModel>
    decreases found.len(),
{
    if found.len() == 0 {
        Seq::empty()
    } else {
        placed(in_resolution_order(found.drop_last()), found.last())
    }
}

/// Sort key for live resolution: a directory the process cannot see ranks last.
pub fn live_rank(origin: Origin) -> (rank: usize)
    ensures
        rank == rank_when_live(origin),
{
    match origin.process_position {
        Some(position) => position,
        None => usize::MAX,
    }
}

/// Whether one file comes strictly before another in live resolution order.
fn comes_before(left: &Found, right: &Found) -> (before: bool)
    ensures
        before == precedes(left@, right@),
{
    let left_rank = live_rank(left.origin);
    let right_rank = live_rank(right.origin);
    if left_rank != right_rank {
        left_rank < right_rank
    } else if left.origin.entry_index != right.origin.entry_index {
        left.origin.entry_index < right.origin.entry_index
    } else if left.extension_rank != right.extension_rank {
        left.extension_rank < right.extension_rank
    } else {
        text_sorts_before(left.file_name.as_str(), right.file_name.as_str())
    }
}

proof fn lemma_placed_at(sorted: Seq<FoundModel>, file: FoundModel, at: int)
    requires
        0 <= at <= sorted.len(),
        forall|k: int| at <= k < sorted.len() ==> precedes(file, #[trigger] sorted[k]),
        at > 0 ==> !precedes(file, sorted[at - 1]),
    ensures
        placed(sorted, file) == sorted.insert(at, file),
    decreases sorted.len(),
{
    if at < sorted.len() {
        let shorter = sorted.drop_last();
        assert forall|k: int| at <= k < shorter.len() implies precedes(
            file,
            #[trigger] shorter[k],
        ) by {
            assert(precedes(file, sorted[k]));
        }
        lemma_placed_at(shorter, file, at);
        assert(precedes(file, sorted[sorted.len() - 1]));
        assert(shorter.insert(at, file).push(sorted.last()) =~= sorted.insert(at, file));
    } else {
        assert(sorted.push(file) =~= sorted.insert(at, file));
    }
}

/// Put files in live resolution order.
fn sort_found(found: Vec<Found>) -> (sorted: Vec<Found>)
    ensures
        sorted.deep_view() == in_resolution_order(found.deep_view()),
{
    let ghost model = found.deep_view();
    let mut rest = found;
    let mut reversed: Vec<Found> = Vec::new();
    // Taking files off the end leaves them in reverse, so that they can be moved into
    // place from the first one on.
    while rest.len() > 0
        invariant
            rest.len() + reversed.len() == model.len(),
            rest.deep_view() =~= model.take(rest.len() as int),
            forall|k: int|
                0 <= k < reversed.len() ==> #[trigger] reversed.deep_view()[k] == model[model.len()
                    - 1 - k],
        decreases rest.len(),
    {
        let ghost before = rest.deep_view();
        let ghost taken = reversed.deep_view();
        let last = rest.pop();
        if let Some(file) = last {
            assert(before.last() == file@);
            reversed.push(file);
            assert(reversed.deep_view() =~= taken.push(file@));
            assert(rest.deep_view() =~= before.drop_last());
        }
    }

    let mut sorted: Vec<Found> = Vec::new();
    assert(sorted.deep_view() =~= in_resolution_order(model.take(0)));
    while reversed.len() > 0
        invariant
            sorted.len() + reversed.len() == model.len(),
            forall|k: int|
                0 <= k < reversed.len() ==> #[trigger] reversed.deep_view()[k] == model[model.len()
                    - 1 - k],
            sorted.deep_view() == in_resolution_order(model.take(sorted.len() as int)),
        decreases reversed.len(),
    {
        let ghost done = sorted.len() as int;
        let ghost before = sorted.deep_view();
        let ghost waiting = reversed.deep_view();
        assert(waiting[waiting.len() - 1] == model[done]);
        let next = reversed.pop();
        if let Some(file) = next {
            assert(file@ == waiting.last());
            assert(reversed.deep_view() =~= waiting.drop_last());
            let mut at: usize = sorted.len();
            while at > 0 && comes_before(&file, &sorted[at - 1])
                invariant
                    sorted.deep_view() == before,
                    at <= sorted.len(),
                    forall|k: int| at <= k < before.len() ==> precedes(file@, #[trigger] before[k]),
                decreases at,
            {
                assert(before[at - 1] == sorted@[at - 1]@);
                at -= 1;
            }
            proof {
                if at > 0 {
                    assert(before[at - 1] == sorted@[at - 1]@);
                }
                lemma_placed_at(before, file@, at as int);
                assert(model.take(done + 1).drop_last() =~= model.take(done));
            }
            sorted.insert(at, file);
            assert(sorted.deep_view() =~= before.insert(at as int, file@));
        }
    }
    assert(model.take(model.len() as int) =~= model);
    sorted
}

// ---- grouping by name ----

/// The occurrence a file found is.
pub open spec fn occurrence_of(found: FoundModel) -> OccurrenceModel {
    OccurrenceModel {
        entry_index: found.origin.entry_index,
        scope: found.origin.scope,
        process_position: found.origin.process_position,
        directory: found.directory,
        file_name: found.file_name,
        is_reparse_point: found.is_reparse_point,
    }
}

/// The occurrences of one stem among some files, in order.
pub open spec fn occurrences_of(files: Seq<FoundModel>, stem: Seq<char>) -> Seq<OccurrenceModel>
    decreases files.len(),
{
    if files.len() == 0 {
        Seq::empty()
    } else {
        let before = occurrences_of(files.drop_last(), stem);
        if files.last().stem == stem {
            before.push(occurrence_of(files.last()))
        } else {
            before
        }
    }
}

/// How many stems of a sorted list come before a given one.
pub open spec fn place_of(stems: Seq<Seq<char>>, stem: Seq<char>) -> int
    decreases stems.len(),
{
    if stems.len() == 0 {
        0
    } else if sorts_before(stems[0], stem) {
        1 + place_of(stems.drop_first(), stem)
    } else {
        0
    }
}

/// A sorted list of stems with one more in it, unless it is there already.
pub open spec fn with_stem(stems: Seq<Seq<char>>, stem: Seq<char>) -> Seq<Seq<char>> {
    let place = place_of(stems, stem);
    if place < stems.len() && stems[place] == stem {
        stems
    } else {
        stems.insert(place, stem)
    }
}

/// The stems of some files, sorted, each once.
pub open spec fn stems_of(files: Seq<FoundModel>) -> Seq<Seq<char>>
    decreases files.len(),
{
    if files.len() == 0 {
        Seq::empty()
    } else {
        with_stem(stems_of(files.drop_last()), files.last().stem)
    }
}

/// Files grouped by stem: one record for each stem, sorted by stem, holding every
/// occurrence of it in order. Nothing is known yet of what a shell does with the name.
pub open spec fn grouped(files: Seq<FoundModel>) -> Seq<ResolvedModel> {
    Seq::new(
        stems_of(files).len(),
        |i: int|
            ResolvedModel {
                stem: stems_of(files)[i],
                occurrences: occurrences_of(files, stems_of(files)[i]),
                intercepts: Seq::empty(),
            },
    )
}

/// Whether a list of texts is strictly sorted.
pub open spec fn strictly_sorted(list: Seq<Seq<char>>) -> bool {
    forall|i: int, j: int|
        0 <= i < j < list.len() ==> sorts_before(#[trigger] list[i], #[trigger] list[j])
}

proof fn lemma_place(stems: Seq<Seq<char>>, stem: Seq<char>)
    requires
        strictly_sorted(stems),
    ensures
        0 <= place_of(stems, stem) <= stems.len(),
        forall|i: int|
            0 <= i < place_of(stems, stem) ==> sorts_before(#[trigger] stems[i], stem),
        forall|i: int|
            place_of(stems, stem) <= i < stems.len() && stems[i] != stem ==> sorts_before(
                stem,
                #[trigger] stems[i],
            ),
        forall|i: int| place_of(stems, stem) < i < stems.len() ==> #[trigger] stems[i] != stem,
    decreases stems.len(),
{
    if stems.len() > 0 {
        if sorts_before(stems[0], stem) {
            let rest = stems.drop_first();
            assert forall|i: int, j: int| 0 <= i < j < rest.len() implies sorts_before(
                #[trigger] rest[i],
                #[trigger] rest[j],
            ) by {
                assert(sorts_before(stems[i + 1], stems[j + 1]));
            }
            lemma_place(rest, stem);
            assert forall|i: int| 0 <= i < place_of(stems, stem) implies sorts_before(
                #[trigger] stems[i],
                stem,
            ) by {
                if i > 0 {
                    assert(stems[i] == rest[i - 1]);
                }
            }
            assert forall|i: int|
                place_of(stems, stem) <= i < stems.len() && stems[i] != stem implies sorts_before(
                stem,
                #[trigger] stems[i],
            ) by {
                assert(stems[i] == rest[i - 1]);
            }
            assert forall|i: int|
                place_of(stems, stem) < i < stems.len() implies #[trigger] stems[i] != stem by {
                assert(stems[i] == rest[i - 1]);
            }
        } else {
            text_order_is_total(stems[0], stem);
            assert forall|i: int| 0 <= i < stems.len() && stems[i] != stem implies sorts_before(
                stem,
                #[trigger] stems[i],
            ) by {
                text_order_is_total(stems[i], stem);
                if i > 0 {
                    assert(sorts_before(stems[0], stems[i]));
                    if stems[0] != stem {
                        text_order_is_transitive(stem, stems[0], stems[i]);
                    }
                }
            }
            assert forall|i: int| 0 < i < stems.len() implies #[trigger] stems[i] != stem by {
                assert(sorts_before(stems[0], stems[i]));
            }
        }
    }
}

proof fn lemma_with_stem(stems: Seq<Seq<char>>, stem: Seq<char>)
    requires
        strictly_sorted(stems),
    ensures
        strictly_sorted(with_stem(stems, stem)),
        with_stem(stems, stem).contains(stem),
        forall|other: Seq<char>|
            other != stem ==> (#[trigger] with_stem(stems, stem).contains(other)
                <==> stems.contains(other)),
{
    lemma_place(stems, stem);
    let place = place_of(stems, stem);
    let after = with_stem(stems, stem);
    if place < stems.len() && stems[place] == stem {
        assert(after[place] == stem);
    } else {
        assert(after[place] == stem);
        assert forall|i: int, j: int| 0 <= i < j < after.len() implies sorts_before(
            #[trigger] after[i],
            #[trigger] after[j],
        ) by {
            if j < place {
                assert(after[i] == stems[i] && after[j] == stems[j]);
            } else if i > place {
                assert(after[i] == stems[i - 1] && after[j] == stems[j - 1]);
            } else if i < place && j > place {
                assert(after[i] == stems[i] && after[j] == stems[j - 1]);
            } else if i == place {
                assert(after[j] == stems[j - 1]);
            } else {
                assert(after[i] == stems[i]);
            }
        }
        assert forall|other: Seq<char>| other != stem implies (#[trigger] after.contains(other)
            <==> stems.contains(other)) by {
            if stems.contains(other) {
                let k = choose|k: int| 0 <= k < stems.len() && stems[k] == other;
                if k < place {
                    assert(after[k] == other);
                } else {
                    assert(after[k + 1] == other);
                }
            }
            if after.contains(other) {
                let k = choose|k: int| 0 <= k < after.len() && after[k] == other;
                if k < place {
                    assert(stems[k] == other);
                } else {
                    assert(stems[k - 1] == other);
                }
            }
        }
    }
}

proof fn lemma_stems(files: Seq<FoundModel>)
    ensures
        strictly_sorted(stems_of(files)),
        forall|i: int|
            0 <= i < files.len() ==> stems_of(files).contains((#[trigger] files[i]).stem),
        forall|stem: Seq<char>| #[trigger]
            stems_of(files).contains(stem) ==> exists|i: int|
                0 <= i < files.len() && (#[trigger] files[i]).stem == stem,
    decreases files.len(),
{
    if files.len() > 0 {
        let shorter = files.drop_last();
        lemma_stems(shorter);
        lemma_with_stem(stems_of(shorter), files.last().stem);
        assert forall|i: int| 0 <= i < files.len() implies stems_of(files).contains(
            (#[trigger] files[i]).stem,
        ) by {
            if i < shorter.len() {
                assert(shorter[i] == files[i]);
                assert(stems_of(shorter).contains(files[i].stem));
            }
        }
        assert forall|stem: Seq<char>| #[trigger] stems_of(files).contains(stem) implies exists|
            i: int,
        |
            0 <= i < files.len() && (#[trigger] files[i]).stem == stem by {
            if stem == files.last().stem {
                assert(files[files.len() - 1].stem == stem);
            } else {
                assert(stems_of(shorter).contains(stem));
                let i = choose|i: int| 0 <= i < shorter.len() && shorter[i].stem == stem;
                assert(files[i].stem == stem);
            }
        }
    }
}

proof fn lemma_no_occurrences(files: Seq<FoundModel>, stem: Seq<char>)
    requires
        forall|i: int| 0 <= i < files.len() ==> (#[trigger] files[i]).stem != stem,
    ensures
        occurrences_of(files, stem) == Seq::<OccurrenceModel>::empty(),
    decreases files.len(),
{
    if files.len() > 0 {
        let shorter = files.drop_last();
        assert(forall|i: int| 0 <= i < shorter.len() ==> shorter[i] == files[i]);
        lemma_no_occurrences(shorter, stem);
    }
}

/// Sort into live resolution order, then group by name.
pub fn group(found: Vec<Found>) -> (resolved: Vec<Resolved>)
    ensures
        resolved.deep_view() == grouped(in_resolution_order(found.deep_view())),
{
    let sorted = sort_found(found);
    let ghost files = sorted.deep_view();
    let mut resolved: Vec<Resolved> = Vec::new();
    let mut i: usize = 0;
    assert(resolved.deep_view() =~= grouped(files.take(0)));
    while i < sorted.len()
        invariant
            files == sorted.deep_view(),
            i <= sorted.len(),
            resolved.deep_view() == grouped(files.take(i as int)),
        decreases sorted.len() - i,
    {
        let ghost prefix = files.take(i as int);
        let ghost longer = files.take(i + 1);
        let ghost stems = stems_of(prefix);
        let ghost before = resolved.deep_view();
        let file = &sorted[i];
        assert(file@ == files[i as int]);
        assert(longer.drop_last() =~= prefix);
        proof {
            lemma_stems(prefix);
            lemma_place(stems, file.stem@);
        }
        let ghost target = place_of(stems, file.stem@);

        let mut place: usize = 0;
        assert(stems.skip(0) =~= stems);
        assert(before.len() == resolved.len());
        while place < resolved.len() && text_sorts_before(
            resolved[place].stem.as_str(),
            file.stem.as_str(),
        )
            invariant
                resolved.deep_view() == before,
                before == grouped(prefix),
                stems == stems_of(prefix),
                resolved.len() == stems.len(),
                place <= resolved.len(),
                target == place_of(stems, file.stem@),
                target == place + place_of(stems.skip(place as int), file.stem@),
            decreases resolved.len() - place,
        {
            assert(before[place as int] == resolved@[place as int]@);
            assert(stems.skip(place as int)[0] == stems[place as int]);
            assert(stems.skip(place as int).drop_first() =~= stems.skip(place + 1));
            place += 1;
        }
        if place < resolved.len() {
            assert(before[place as int] == resolved@[place as int]@);
            assert(stems.skip(place as int)[0] == stems[place as int]);
        } else {
            assert(stems.skip(place as int) =~= Seq::empty());
        }
        assert(place == target);

        let occurrence = Occurrence {
            entry_index: file.origin.entry_index,
            scope: file.origin.scope,
            process_position: file.origin.process_position,
            directory: file.directory.clone(),
            file_name: file.file_name.clone(),
            is_reparse_point: file.is_reparse_point,
        };
        assert(occurrence@ == occurrence_of(file@));
        if place < resolved.len() && resolved[place].stem == file.stem {
            assert(stems[place as int] == file.stem@);
            let ghost earlier = resolved@[place as int].occurrences.deep_view();
            resolved[place].occurrences.push(occurrence);
            assert(resolved@[place as int].occurrences.deep_view() =~= earlier.push(occurrence@));
            assert forall|k: int| 0 <= k < before.len() implies resolved.deep_view()[k] == grouped(
                longer,
            )[k] by {
                if k != place {
                    assert(resolved.deep_view()[k] == before[k]);
                    text_order_is_total(stems[k], file.stem@);
                    if k < place {
                        assert(sorts_before(stems[k], stems[place as int]));
                    } else {
                        assert(sorts_before(stems[place as int], stems[k]));
                    }
                }
            }
            assert(resolved.deep_view() =~= grouped(longer));
        } else {
            let mut occurrences: Vec<Occurrence> = Vec::new();
            occurrences.push(occurrence);
            let fresh = Resolved {
                stem: file.stem.clone(),
                occurrences,
                intercepts: Vec::new(),
            };
            proof {
                assert forall|k: int| 0 <= k < prefix.len() implies (#[trigger] prefix[k]).stem
                    != file.stem@ by {
                    assert(stems.contains(prefix[k].stem));
                    let j = choose|j: int| 0 <= j < stems.len() && stems[j] == prefix[k].stem;
                    if j < place {
                        text_order_is_total(stems[j], file.stem@);
                    } else if j > place {
                        assert(stems[j] != file.stem@);
                    }
                }
                lemma_no_occurrences(prefix, file.stem@);
                assert(fresh.occurrences.deep_view() =~= occurrences_of(longer, file.stem@));
                assert(fresh.intercepts.deep_view() =~= Seq::empty());
            }
            resolved.insert(place, fresh);
            assert(resolved.deep_view() =~= before.insert(place as int, fresh@));
            assert(stems_of(longer) == stems.insert(place as int, file.stem@));
            assert forall|k: int| 0 <= k < resolved.len() implies resolved.deep_view()[k]
                == grouped(longer)[k] by {
                if k < place {
                    assert(resolved.deep_view()[k] == before[k]);
                    text_order_is_total(stems[k], file.stem@);
                } else if k > place {
                    assert(resolved.deep_view()[k] == before[k - 1]);
                    assert(stems[k - 1] != file.stem@);
                }
            }
            assert(resolved.deep_view() =~= grouped(longer));
        }
        i += 1;
    }
    assert(files.take(i as int) =~= files);
    resolved
}

// ---- what holds of the order and the groups ----

/// Whether no file of a list precedes one that stands before it.
pub open spec fn in_order(files: Seq<FoundModel>) -> bool {
    forall|i: int, j: int|
        0 <= i < j < files.len() ==> !precedes(#[trigger] files[j], #[trigger] files[i])
}

proof fn lemma_precedes_is_an_order(a: FoundModel, b: FoundModel, c: FoundModel)
    ensures
        precedes(a, b) ==> !precedes(b, a),
        !precedes(b, a) && !precedes(c, b) ==> !precedes(c, a),
{
    text_order_is_total(a.file_name, b.file_name);
    text_order_is_total(b.file_name, c.file_name);
    text_order_is_total(a.file_name, c.file_name);
    if sorts_before(c.file_name, a.file_name) && a.file_name != b.file_name && b.file_name
        != c.file_name {
        if sorts_before(a.file_name, b.file_name) && sorts_before(b.file_name, c.file_name) {
            text_order_is_transitive(a.file_name, b.file_name, c.file_name);
        }
    }
}

proof fn lemma_placed(sorted: Seq<FoundModel>, file: FoundModel)
    requires
        in_order(sorted),
    ensures
        in_order(placed(sorted, file)),
        placed(sorted, file).to_multiset() == sorted.to_multiset().insert(file),
        placed(sorted, file).len() == sorted.len() + 1,
        forall|i: int|
            0 <= i < placed(sorted, file).len() ==> {
                ||| (#[trigger] placed(sorted, file)[i]) == file
                ||| sorted.contains(placed(sorted, file)[i])
            },
    decreases sorted.len(),
{
    broadcast use vstd::seq_lib::to_multiset_build;

    let after = placed(sorted, file);
    if sorted.len() == 0 || !precedes(file, sorted.last()) {
        assert forall|i: int, j: int| 0 <= i < j < after.len() implies !precedes(
            #[trigger] after[j],
            #[trigger] after[i],
        ) by {
            if j < sorted.len() {
                assert(after[i] == sorted[i] && after[j] == sorted[j]);
            } else if i < sorted.len() - 1 {
                assert(!precedes(sorted[sorted.len() - 1], sorted[i]));
                lemma_precedes_is_an_order(sorted[i], sorted[sorted.len() - 1], file);
            }
        }
        assert forall|i: int| 0 <= i < after.len() implies (#[trigger] after[i]) == file
            || sorted.contains(after[i]) by {
            if i < sorted.len() {
                assert(sorted.contains(sorted[i]));
            }
        }
    } else {
        let shorter = sorted.drop_last();
        let inner = placed(shorter, file);
        assert forall|i: int, j: int| 0 <= i < j < shorter.len() implies !precedes(
            #[trigger] shorter[j],
            #[trigger] shorter[i],
        ) by {
            assert(!precedes(sorted[j], sorted[i]));
        }
        lemma_placed(shorter, file);
        assert(sorted =~= shorter.push(sorted.last()));
        assert(after.to_multiset() =~= sorted.to_multiset().insert(file));
        assert forall|i: int, j: int| 0 <= i < j < after.len() implies !precedes(
            #[trigger] after[j],
            #[trigger] after[i],
        ) by {
            if j < inner.len() {
                assert(after[i] == inner[i] && after[j] == inner[j]);
            } else {
                assert(after[i] == inner[i]);
                if inner[i] == file {
                    lemma_precedes_is_an_order(file, sorted.last(), file);
                } else {
                    let k = choose|k: int| 0 <= k < shorter.len() && shorter[k] == inner[i];
                    assert(!precedes(sorted[sorted.len() - 1], sorted[k]));
                }
            }
        }
        assert forall|i: int| 0 <= i < after.len() implies (#[trigger] after[i]) == file
            || sorted.contains(after[i]) by {
            if i < inner.len() {
                assert(after[i] == inner[i]);
                if inner[i] != file {
                    let k = choose|k: int| 0 <= k < shorter.len() && shorter[k] == inner[i];
                    assert(sorted[k] == inner[i]);
                }
            } else {
                assert(after[i] == sorted[sorted.len() - 1]);
            }
        }
    }
}

/// Putting files in resolution order drops none, adds none, and leaves no file behind
/// one that it precedes.
pub proof fn resolution_order_is_a_sorted_rearrangement(found: Seq<FoundModel>)
    ensures
        in_order(in_resolution_order(found)),
        in_resolution_order(found).to_multiset() == found.to_multiset(),
        in_resolution_order(found).len() == found.len(),
    decreases found.len(),
{
    broadcast use vstd::seq_lib::to_multiset_build;

    if found.len() > 0 {
        let shorter = found.drop_last();
        resolution_order_is_a_sorted_rearrangement(shorter);
        lemma_placed(in_resolution_order(shorter), found.last());
        assert(found =~= shorter.push(found.last()));
    } else {
        assert(found =~= Seq::empty());
    }
}

/// How many occurrences some records hold together.
pub open spec fn occurrence_count(resolved: Seq<ResolvedModel>) -> nat
    decreases resolved.len(),
{
    if resolved.len() == 0 {
        0
    } else {
        occurrence_count(resolved.drop_last()) + resolved.last().occurrences.len()
    }
}

/// Every name has exactly one record, the records are sorted by name, each holds at
/// least one file, and together they hold every file found.
pub proof fn every_file_is_recorded_under_its_name(files: Seq<FoundModel>)
    ensures
        forall|i: int, j: int|
            0 <= i < j < grouped(files).len() ==> sorts_before(
                (#[trigger] grouped(files)[i]).stem,
                (#[trigger] grouped(files)[j]).stem,
            ),
        forall|i: int|
            0 <= i < grouped(files).len() ==> (#[trigger] grouped(files)[i]).occurrences.len() > 0,
        forall|k: int|
            0 <= k < files.len() ==> exists|i: int|
                {
                    &&& 0 <= i < grouped(files).len()
                    &&& (#[trigger] grouped(files)[i]).stem == (#[trigger] files[k]).stem
                    &&& grouped(files)[i].occurrences.contains(occurrence_of(files[k]))
                },
        occurrence_count(grouped(files)) == files.len(),
{
    lemma_stems(files);
    let groups = grouped(files);
    let stems = stems_of(files);
    assert forall|i: int, j: int| 0 <= i < j < groups.len() implies sorts_before(
        (#[trigger] groups[i]).stem,
        (#[trigger] groups[j]).stem,
    ) by {
        assert(sorts_before(stems[i], stems[j]));
    }
    assert forall|i: int| 0 <= i < groups.len() implies (#[trigger] groups[i]).occurrences.len()
        > 0 by {
        assert(stems.contains(stems[i]));
        let k = choose|k: int| 0 <= k < files.len() && files[k].stem == stems[i];
        lemma_occurrence_present(files, k);
    }
    assert forall|k: int| 0 <= k < files.len() implies exists|i: int|
        {
            &&& 0 <= i < groups.len()
            &&& (#[trigger] groups[i]).stem == (#[trigger] files[k]).stem
            &&& groups[i].occurrences.contains(occurrence_of(files[k]))
        } by {
        lemma_occurrence_present(files, k);
        assert(stems.contains(files[k].stem));
        let i = choose|i: int| 0 <= i < stems.len() && stems[i] == files[k].stem;
        assert(groups[i].stem == files[k].stem);
    }
    lemma_grouped_count(files);
}

proof fn lemma_occurrence_present(files: Seq<FoundModel>, k: int)
    requires
        0 <= k < files.len(),
    ensures
        occurrences_of(files, files[k].stem).contains(occurrence_of(files[k])),
    decreases files.len(),
{
    let shorter = files.drop_last();
    let stem = files[k].stem;
    let all = occurrences_of(files, stem);
    if k == files.len() - 1 {
        assert(all[all.len() - 1] == occurrence_of(files[k]));
    } else {
        assert(shorter[k] == files[k]);
        lemma_occurrence_present(shorter, k);
        let before = occurrences_of(shorter, stem);
        let j = choose|j: int| 0 <= j < before.len() && before[j] == occurrence_of(files[k]);
        assert(all[j] == before[j]);
    }
}

/// How many files have one of some stems.
spec fn total_over(stems: Seq<Seq<char>>, files: Seq<FoundModel>) -> nat
    decreases stems.len(),
{
    if stems.len() == 0 {
        0
    } else {
        total_over(stems.drop_last(), files) + occurrences_of(files, stems.last()).len()
    }
}

proof fn lemma_total_is_count(
    stems: Seq<Seq<char>>,
    files: Seq<FoundModel>,
    groups: Seq<ResolvedModel>,
)
    requires
        groups.len() == stems.len(),
        forall|i: int|
            0 <= i < stems.len() ==> (#[trigger] groups[i]).occurrences == occurrences_of(
                files,
                stems[i],
            ),
    ensures
        occurrence_count(groups) == total_over(stems, files),
    decreases stems.len(),
{
    if stems.len() > 0 {
        assert forall|i: int| 0 <= i < stems.drop_last().len() implies (
        #[trigger] groups.drop_last()[i]).occurrences == occurrences_of(
            files,
            stems.drop_last()[i],
        ) by {
            assert(groups[i].occurrences == occurrences_of(files, stems[i]));
        }
        lemma_total_is_count(stems.drop_last(), files, groups.drop_last());
    }
}

proof fn lemma_total_push(stems: Seq<Seq<char>>, files: Seq<FoundModel>, file: FoundModel)
    requires
        stems.no_duplicates(),
    ensures
        total_over(stems, files.push(file)) == total_over(stems, files) + if stems.contains(
            file.stem,
        ) {
            1nat
        } else {
            0nat
        },
    decreases stems.len(),
{
    assert(files.push(file).drop_last() =~= files);
    if stems.len() > 0 {
        let shorter = stems.drop_last();
        lemma_total_push(shorter, files, file);
        if stems.last() == file.stem {
            assert(stems[stems.len() - 1] == file.stem);
            assert(!shorter.contains(file.stem)) by {
                if shorter.contains(file.stem) {
                    let k = choose|k: int| 0 <= k < shorter.len() && shorter[k] == file.stem;
                    assert(stems[k] == stems[stems.len() - 1]);
                }
            }
        } else {
            assert(stems.contains(file.stem) == shorter.contains(file.stem)) by {
                if stems.contains(file.stem) {
                    let k = choose|k: int| 0 <= k < stems.len() && stems[k] == file.stem;
                    assert(shorter[k] == file.stem);
                }
                if shorter.contains(file.stem) {
                    let k = choose|k: int| 0 <= k < shorter.len() && shorter[k] == file.stem;
                    assert(stems[k] == file.stem);
                }
            }
        }
    }
}

proof fn lemma_total_insert(
    stems: Seq<Seq<char>>,
    files: Seq<FoundModel>,
    at: int,
    stem: Seq<char>,
)
    requires
        0 <= at <= stems.len(),
    ensures
        total_over(stems.insert(at, stem), files) == total_over(stems, files) + occurrences_of(
            files,
            stem,
        ).len(),
    decreases stems.len(),
{
    let after = stems.insert(at, stem);
    if at == stems.len() {
        assert(after.drop_last() =~= stems);
    } else {
        lemma_total_insert(stems.drop_last(), files, at, stem);
        assert(after.drop_last() =~= stems.drop_last().insert(at, stem));
        assert(after.last() == stems.last());
    }
}

proof fn lemma_sorted_is_distinct(list: Seq<Seq<char>>)
    requires
        strictly_sorted(list),
    ensures
        list.no_duplicates(),
{
    assert forall|i: int, j: int| 0 <= i < list.len() && 0 <= j < list.len() && i
        != j implies list[i] != list[j] by {
        if i < j {
            text_order_is_total(list[i], list[j]);
        } else {
            text_order_is_total(list[j], list[i]);
        }
    }
}

proof fn lemma_grouped_count(files: Seq<FoundModel>)
    ensures
        occurrence_count(grouped(files)) == files.len(),
    decreases files.len(),
{
    lemma_total_is_count(stems_of(files), files, grouped(files));
    if files.len() > 0 {
        let shorter = files.drop_last();
        let file = files.last();
        let stems = stems_of(shorter);
        lemma_grouped_count(shorter);
        lemma_total_is_count(stems, shorter, grouped(shorter));
        lemma_stems(shorter);
        lemma_sorted_is_distinct(stems);
        assert(files =~= shorter.push(file));
        lemma_total_push(stems, shorter, file);
        lemma_place(stems, file.stem);
        let place = place_of(stems, file.stem);
        if place < stems.len() && stems[place] == file.stem {
            assert(stems.contains(file.stem));
        } else {
            assert(!stems.contains(file.stem)) by {
                if stems.contains(file.stem) {
                    let k = choose|k: int| 0 <= k < stems.len() && stems[k] == file.stem;
                    text_order_is_total(stems[k], file.stem);
                    assert(k >= place);
                }
            }
            assert forall|k: int| 0 <= k < shorter.len() implies (#[trigger] shorter[k]).stem
                != file.stem by {
                assert(stems.contains(shorter[k].stem));
            }
            lemma_no_occurrences(shorter, file.stem);
            lemma_total_insert(stems, files, place, file.stem);
        }
    }
}

/// The rank an occurrence has in live resolution.
pub open spec fn occurrence_rank(occurrence: OccurrenceModel) -> usize {
    match occurrence.process_position {
        Some(position) => position,
        None => usize::MAX,
    }
}

/// Every occurrence recorded under a name is one of the files found.
pub proof fn occurrences_come_from_the_files(files: Seq<FoundModel>, stem: Seq<char>)
    ensures
        forall|a: int|
            0 <= a < occurrences_of(files, stem).len() ==> exists|k: int|
                0 <= k < files.len() && occurrence_of(#[trigger] files[k])
                    == #[trigger] occurrences_of(files, stem)[a],
    decreases files.len(),
{
    if files.len() > 0 {
        let shorter = files.drop_last();
        occurrences_come_from_the_files(shorter, stem);
        let before = occurrences_of(shorter, stem);
        let after = occurrences_of(files, stem);
        assert forall|a: int| 0 <= a < after.len() implies exists|k: int|
            0 <= k < files.len() && occurrence_of(#[trigger] files[k]) == #[trigger] after[a] by {
            if a < before.len() {
                assert(after[a] == before[a]);
                let k = choose|k: int|
                    0 <= k < shorter.len() && occurrence_of(#[trigger] shorter[k]) == before[a];
                assert(occurrence_of(files[k]) == after[a]);
            } else {
                assert(occurrence_of(files[files.len() - 1]) == after[a]);
            }
        }
    }
}

proof fn lemma_occurrence_ranks(files: Seq<FoundModel>, stem: Seq<char>)
    requires
        in_order(files),
    ensures
        forall|a: int, b: int|
            0 <= a < b < occurrences_of(files, stem).len() ==> occurrence_rank(
                #[trigger] occurrences_of(files, stem)[a],
            ) <= occurrence_rank(#[trigger] occurrences_of(files, stem)[b]),
    decreases files.len(),
{
    if files.len() > 0 {
        let shorter = files.drop_last();
        assert forall|i: int, j: int| 0 <= i < j < shorter.len() implies !precedes(
            #[trigger] shorter[j],
            #[trigger] shorter[i],
        ) by {
            assert(!precedes(files[j], files[i]));
        }
        lemma_occurrence_ranks(shorter, stem);
        occurrences_come_from_the_files(shorter, stem);
        let before = occurrences_of(shorter, stem);
        let after = occurrences_of(files, stem);
        assert forall|a: int, b: int| 0 <= a < b < after.len() implies occurrence_rank(
            #[trigger] after[a],
        ) <= occurrence_rank(#[trigger] after[b]) by {
            assert(after[a] == before[a]);
            if b < before.len() {
                assert(after[b] == before[b]);
            } else {
                let k = choose|k: int|
                    0 <= k < shorter.len() && occurrence_of(#[trigger] shorter[k]) == before[a];
                assert(files[k] == shorter[k]);
                assert(!precedes(files[files.len() - 1], files[k]));
            }
        }
    }
}

/// The first occurrence recorded for a name is what the running process executes: if
/// the process can reach any copy at all, the first one listed is the live winner, and
/// none sits at a better live position.
pub proof fn the_first_occurrence_wins_now(found: Seq<FoundModel>, i: int)
    requires
        0 <= i < grouped(in_resolution_order(found)).len(),
        forall|k: int|
            0 <= k < found.len() ==> (#[trigger] found[k]).origin.process_position != Some(
                usize::MAX,
            ),
    ensures
        ({
            let resolved = grouped(in_resolution_order(found))[i];
            &&& resolved.occurrences.len() > 0
            &&& match resolved.live_winner() {
                Some(winner) => {
                    &&& winner == resolved.occurrences[0]
                    &&& forall|k: int|
                        0 <= k < resolved.occurrences.len() ==> occurrence_rank(winner)
                            <= occurrence_rank(#[trigger] resolved.occurrences[k])
                },
                None => forall|k: int|
                    0 <= k < resolved.occurrences.len() ==> (
                    #[trigger] resolved.occurrences[k]).process_position is None,
            }
        }),
{
    broadcast use vstd::seq_lib::to_multiset_contains;

    let files = in_resolution_order(found);
    let resolved = grouped(files)[i];
    let all = resolved.occurrences;
    resolution_order_is_a_sorted_rearrangement(found);
    every_file_is_recorded_under_its_name(files);
    lemma_occurrence_ranks(files, resolved.stem);
    occurrences_come_from_the_files(files, resolved.stem);
    live_winner_is_the_first_reachable(all);
    assert(grouped(files)[i].occurrences.len() > 0);
    if let Some(first) = first_live(all) {
        if first > 0 {
            assert(all[0].process_position is None);
            assert(occurrence_rank(all[0]) <= occurrence_rank(all[first]));
            let k = choose|k: int|
                0 <= k < files.len() && occurrence_of(#[trigger] files[k]) == all[first];
            assert(files.to_multiset().contains(files[k]));
            assert(found.to_multiset().contains(files[k]));
            assert(found.contains(files[k]));
            let j = choose|j: int| 0 <= j < found.len() && found[j] == files[k];
            assert(found[j].origin.process_position == all[first].process_position);
            assert(false);
        }
        assert forall|k: int| 0 <= k < all.len() implies occurrence_rank(all[0])
            <= occurrence_rank(#[trigger] all[k]) by {}
    }
}

/// Whether two files that neither precede each other are always one and the same.
pub open spec fn told_apart(found: Seq<FoundModel>) -> bool {
    forall|i: int, j: int|
        0 <= i < found.len() && 0 <= j < found.len() && !precedes(
            #[trigger] found[i],
            #[trigger] found[j],
        ) && !precedes(found[j], found[i]) ==> found[i] == found[j]
}

/// The order in which directories hand over what they hold does not matter: as long as
/// the files can be told apart by place, extension and name, any order of finding them
/// leads to the same resolution order.
pub proof fn the_order_of_finding_does_not_matter(left: Seq<FoundModel>, right: Seq<FoundModel>)
    requires
        left.to_multiset() == right.to_multiset(),
        told_apart(left),
    ensures
        in_resolution_order(left) == in_resolution_order(right),
{
    broadcast use vstd::seq_lib::to_multiset_contains;

    resolution_order_is_a_sorted_rearrangement(left);
    resolution_order_is_a_sorted_rearrangement(right);
    let a = in_resolution_order(left);
    assert forall|x: FoundModel, y: FoundModel| #![trigger a.contains(x), a.contains(y)]
        a.contains(x) && a.contains(y) && !precedes(x, y) && !precedes(y, x) implies x == y by {
        assert(a.to_multiset().contains(x) && a.to_multiset().contains(y));
        assert(left.contains(x) && left.contains(y));
        let i = choose|i: int| 0 <= i < left.len() && left[i] == x;
        let j = choose|j: int| 0 <= j < left.len() && left[j] == y;
        assert(left[i] == left[j]);
    }
    lemma_sorted_unique(a, in_resolution_order(right));
}

proof fn lemma_sorted_unique(a: Seq<FoundModel>, b: Seq<FoundModel>)
    requires
        in_order(a),
        in_order(b),
        a.to_multiset() == b.to_multiset(),
        forall|x: FoundModel, y: FoundModel|
            #![trigger a.contains(x), a.contains(y)]
            a.contains(x) && a.contains(y) && !precedes(x, y) && !precedes(y, x) ==> x == y,
    ensures
        a == b,
    decreases a.len(),
{
    broadcast use {
        vstd::seq_lib::to_multiset_contains,
        vstd::seq_lib::to_multiset_build,
        vstd::seq_lib::to_multiset_len,
    };

    assert(a.to_multiset().len() == a.len());
    assert(b.to_multiset().len() == b.len());
    if a.len() == 0 {
        assert(a =~= b);
    } else {
        let x = a.last();
        let y = b.last();
        assert(a[a.len() - 1] == x && b[b.len() - 1] == y);
        assert(a.contains(x) && b.contains(y));
        assert(b.to_multiset().contains(x) && a.to_multiset().contains(y));
        assert(a.contains(y) && b.contains(x));
        let i = choose|i: int| 0 <= i < a.len() && a[i] == y;
        let j = choose|j: int| 0 <= j < b.len() && b[j] == x;
        lemma_precedes_is_an_order(x, x, x);
        lemma_precedes_is_an_order(y, y, y);
        assert(!precedes(x, y)) by {
            if i < a.len() - 1 {
                assert(!precedes(a[a.len() - 1], a[i]));
            }
        }
        assert(!precedes(y, x)) by {
            if j < b.len() - 1 {
                assert(!precedes(b[b.len() - 1], b[j]));
            }
        }
        assert(x == y);
        let fewer = a.drop_last();
        let less = b.drop_last();
        assert(a =~= fewer.push(x));
        assert(b =~= less.push(x));
        assert(fewer.to_multiset() =~= a.to_multiset().remove(x));
        assert(less.to_multiset() =~= b.to_multiset().remove(x));
        assert forall|p: int, q: int| 0 <= p < q < fewer.len() implies !precedes(
            #[trigger] fewer[q],
            #[trigger] fewer[p],
        ) by {
            assert(fewer[q] == a[q] && fewer[p] == a[p]);
        }
        assert forall|p: int, q: int| 0 <= p < q < less.len() implies !precedes(
            #[trigger] less[q],
            #[trigger] less[p],
        ) by {
            assert(less[q] == b[q] && less[p] == b[p]);
        }
        assert forall|u: FoundModel, v: FoundModel|
            #![trigger fewer.contains(u), fewer.contains(v)]
            fewer.contains(u) && fewer.contains(v) && !precedes(u, v) && !precedes(v, u) implies u
            == v by {
            let p = choose|p: int| 0 <= p < fewer.len() && fewer[p] == u;
            let q = choose|q: int| 0 <= q < fewer.len() && fewer[q] == v;
            assert(a[p] == u && a[q] == v);
            assert(a.contains(u) && a.contains(v));
        }
        lemma_sorted_unique(fewer, less);
    }
}

/// Files are listed by live position, those the process cannot reach last; at one position
/// by composed index; in one entry by the rank of their extension; and then by name.
pub proof fn position_then_index_then_extension_decide(found: Seq<FoundModel>, i: int, j: int)
    requires
        0 <= i < j < in_resolution_order(found).len(),
        forall|k: int|
            0 <= k < found.len() ==> (#[trigger] found[k]).origin.process_position != Some(
                usize::MAX,
            ),
    ensures
        ({
            let a = in_resolution_order(found)[i];
            let b = in_resolution_order(found)[j];
            let same_place = a.origin.process_position == b.origin.process_position;
            let same_entry = same_place && a.origin.entry_index == b.origin.entry_index;
            &&& b.origin.process_position is Some ==> a.origin.process_position is Some
                && a.origin.process_position->0 <= b.origin.process_position->0
            &&& same_place ==> a.origin.entry_index <= b.origin.entry_index
            &&& same_entry ==> a.extension_rank <= b.extension_rank
            &&& same_entry && a.extension_rank == b.extension_rank ==> a.file_name == b.file_name
                || sorts_before(a.file_name, b.file_name)
        }),
{
    broadcast use vstd::seq_lib::to_multiset_contains;

    let files = in_resolution_order(found);
    resolution_order_is_a_sorted_rearrangement(found);
    assert(!precedes(files[j], files[i]));
    assert(files.to_multiset().contains(files[i]) && files.to_multiset().contains(files[j]));
    assert(found.contains(files[i]) && found.contains(files[j]));
    text_order_is_total(files[i].file_name, files[j].file_name);
}

/// The occurrences of a name are files with that name, and they keep the order the files
/// are in.
pub proof fn occurrences_keep_the_order_of_the_files(
    files: Seq<FoundModel>,
    stem: Seq<char>,
    a: int,
    b: int,
) -> (places: (int, int))
    requires
        0 <= a < b < occurrences_of(files, stem).len(),
    ensures
        0 <= places.0 < places.1 < files.len(),
        files[places.0].stem == stem,
        files[places.1].stem == stem,
        occurrence_of(files[places.0]) == occurrences_of(files, stem)[a],
        occurrence_of(files[places.1]) == occurrences_of(files, stem)[b],
    decreases files.len(),
{
    let shorter = files.drop_last();
    let before = occurrences_of(shorter, stem);
    if b < before.len() {
        occurrences_keep_the_order_of_the_files(shorter, stem, a, b)
    } else {
        (place_of_occurrence(shorter, stem, a), files.len() - 1)
    }
}

/// Every occurrence of a name is a file with that name.
pub proof fn place_of_occurrence(files: Seq<FoundModel>, stem: Seq<char>, a: int) -> (place: int)
    requires
        0 <= a < occurrences_of(files, stem).len(),
    ensures
        0 <= place < files.len(),
        files[place].stem == stem,
        occurrence_of(files[place]) == occurrences_of(files, stem)[a],
    decreases files.len(),
{
    let shorter = files.drop_last();
    if a < occurrences_of(shorter, stem).len() {
        place_of_occurrence(shorter, stem, a)
    } else {
        files.len() - 1
    }
}

/// Of the places a name was found in, those the running process can reach come first, in
/// the order it searches them; at one live position, or at none, the composed index never
/// decreases.
pub proof fn occurrences_are_listed_as_they_are_searched(
    found: Seq<FoundModel>,
    i: int,
    a: int,
    b: int,
)
    requires
        0 <= i < grouped(in_resolution_order(found)).len(),
        0 <= a < b < grouped(in_resolution_order(found))[i].occurrences.len(),
        forall|k: int|
            0 <= k < found.len() ==> (#[trigger] found[k]).origin.process_position != Some(
                usize::MAX,
            ),
    ensures
        ({
            let first = grouped(in_resolution_order(found))[i].occurrences[a];
            let second = grouped(in_resolution_order(found))[i].occurrences[b];
            &&& second.process_position is Some ==> first.process_position is Some
                && first.process_position->0 <= second.process_position->0
            &&& first.process_position == second.process_position ==> first.entry_index
                <= second.entry_index
        }),
{
    let files = in_resolution_order(found);
    let stem = grouped(files)[i].stem;
    let (k, l) = occurrences_keep_the_order_of_the_files(files, stem, a, b);
    position_then_index_then_extension_decide(found, k, l);
}

/// A file found is recorded with everything it inherits from its entry, and with its own
/// name and nature.
pub proof fn an_occurrence_is_the_file_found(file: FoundModel)
    ensures
        occurrence_of(file).entry_index == file.origin.entry_index,
        occurrence_of(file).scope == file.origin.scope,
        occurrence_of(file).process_position == file.origin.process_position,
        occurrence_of(file).directory == file.directory,
        occurrence_of(file).file_name == file.file_name,
        occurrence_of(file).is_reparse_point == file.is_reparse_point,
{
}

/// A name that was only found on disk has no record of a shell yet, and its record is the
/// only one with its stem.
pub proof fn a_name_found_on_disk_is_not_intercepted(files: Seq<FoundModel>, i: int, j: int)
    requires
        0 <= i < grouped(files).len(),
        0 <= j < grouped(files).len(),
    ensures
        grouped(files)[i].intercepts.len() == 0,
        grouped(files)[i].stem == grouped(files)[j].stem ==> i == j,
        exists|k: int|
            0 <= k < files.len() && (#[trigger] files[k]).stem == grouped(files)[i].stem,
{
    lemma_stems(files);
    let stems = stems_of(files);
    lemma_sorted_is_distinct(stems);
    assert(stems.contains(stems[i]));
}

} // verus!
