//! Reading the directories on `PATH` and recording every program in them.
//!
//! What a directory holds arrives through an injected listing; which directories are worth
//! reading, and what reading them turns up, is decided here.

use vstd::prelude::*;

use crate::compose::{
    a_repeat_points_at_the_first_entry_for_its_directory, composed, key_of, SegmentModel,
};
use crate::pathext::{
    classified, classify, only_the_matched_extension_is_stripped, splits_first_at,
    the_first_extension_of_a_name_decides,
};
use crate::probe::{annotates, annotates_all, with_finding, Probe};
use crate::report::{EntryModel, Finding, OccurrenceModel, PathEntry, Resolved, ResolvedModel};
use crate::resolution::{
    every_file_is_recorded_under_its_name, group, grouped, in_resolution_order, occurrence_count,
    occurrence_of, occurrences_come_from_the_files, occurrences_keep_the_order_of_the_files,
    occurrences_of, place_of_occurrence, position_then_index_then_extension_decide,
    resolution_order_is_a_sorted_rearrangement, Found, FoundModel, Origin,
};
use crate::text::lowercase;

verus! {

/// `FILE_ATTRIBUTE_REPARSE_POINT`.
pub const FILE_ATTRIBUTE_REPARSE_POINT: u32 = 0x0000_0400;

// ---- what a directory holds ----

/// What is known of an item beyond its name.
#[derive(Debug, Clone, Copy, PartialEq, Eq, Structural)]
pub struct ItemDetails {
    /// Whether it is a directory itself.
    pub is_directory: bool,
    /// Its file attributes, as Windows encodes them.
    pub attributes: u32,
}

/// One item of a directory.
#[derive(Debug)]
pub struct DirectoryItem {
    /// Its name as it appears on disk.
    pub file_name: String,
    /// What is known of it, unless asking failed. A link is described, not followed.
    pub details: Option<ItemDetails>,
}

/// The model of a [`DirectoryItem`].
pub ghost struct ItemModel {
    pub file_name: Seq<char>,
    pub details: Option<ItemDetails>,
}

impl View for DirectoryItem {
    type V = ItemModel;

    open spec fn view(&self) -> ItemModel {
        ItemModel { file_name: self.file_name@, details: self.details }
    }
}

impl DeepView for DirectoryItem {
    type V = ItemModel;

    open spec fn deep_view(&self) -> ItemModel {
        self@
    }
}

/// Whether the attributes of an item mark it as a reparse point.
pub open spec fn reparse_point(attributes: u32) -> bool {
    attributes & FILE_ATTRIBUTE_REPARSE_POINT != 0
}

/// The executable an item of a directory is, if it is one: a file whose name has an
/// executable extension.
pub open spec fn found_in(
    item: ItemModel,
    origin: Origin,
    directory: Seq<char>,
    extensions: Seq<Seq<char>>,
) -> Option<FoundModel> {
    match (classified(lowercase(item.file_name), extensions), item.details) {
        (Some((stem, rank)), Some(details)) if !details.is_directory => Some(
            FoundModel {
                origin,
                directory,
                file_name: item.file_name,
                stem,
                extension_rank: rank,
                is_reparse_point: reparse_point(details.attributes),
            },
        ),
        _ => None,
    }
}

/// The executables among the items of a directory, in order.
pub open spec fn all_found_in(
    items: Seq<ItemModel>,
    origin: Origin,
    directory: Seq<char>,
    extensions: Seq<Seq<char>>,
) -> Seq<FoundModel>
    decreases items.len(),
{
    if items.len() == 0 {
        Seq::empty()
    } else {
        let before = all_found_in(items.drop_last(), origin, directory, extensions);
        match found_in(items.last(), origin, directory, extensions) {
            Some(found) => before.push(found),
            None => before,
        }
    }
}

/// Pull the executables out of one directory's items.
///
/// An item nothing is known of is skipped: it does not make the directory unreadable,
/// and there is nothing useful to say about it. A directory called `foo.exe` is not a
/// program.
pub fn collect(
    items: &Vec<DirectoryItem>,
    origin: Origin,
    directory: &str,
    extensions: &Vec<String>,
    found: &mut Vec<Found>,
)
    ensures
        final(found).deep_view() == old(found).deep_view() + all_found_in(
            items.deep_view(),
            origin,
            directory@,
            extensions.deep_view(),
        ),
{
    let ghost start = found.deep_view();
    let ghost model = items.deep_view();
    let ghost exts = extensions.deep_view();
    let mut i: usize = 0;
    assert(found.deep_view() =~= start + all_found_in(model.take(0), origin, directory@, exts));
    while i < items.len()
        invariant
            model == items.deep_view(),
            exts == extensions.deep_view(),
            i <= items.len(),
            found.deep_view() == start + all_found_in(
                model.take(i as int),
                origin,
                directory@,
                exts,
            ),
        decreases items.len() - i,
    {
        let ghost before = found.deep_view();
        assert(model.take(i + 1).drop_last() =~= model.take(i as int));
        assert(model[i as int] == items@[i as int]@);
        let item = &items[i];
        if let Some((stem, extension_rank)) = classify(item.file_name.as_str(), extensions) {
            if let Some(details) = item.details {
                if !details.is_directory {
                    found.push(
                        Found {
                            origin,
                            directory: directory.to_owned(),
                            file_name: item.file_name.clone(),
                            stem,
                            extension_rank,
                            is_reparse_point: details.attributes & FILE_ATTRIBUTE_REPARSE_POINT
                                != 0,
                        },
                    );
                    assert(found.deep_view() =~= before.push(found@.last()@));
                    assert(found.deep_view() =~= start + all_found_in(
                        model.take(i + 1),
                        origin,
                        directory@,
                        exts,
                    ));
                }
            }
        }
        i += 1;
    }
    assert(model.take(i as int) =~= model);
}

// ---- reading the directories ----

/// Why a directory could not be read.
#[derive(Debug, Clone, Copy, PartialEq, Eq, Structural)]
pub enum ReadError {
    /// Nothing is there.
    NotFound,
    /// Something is there, but it may not be listed.
    PermissionDenied,
    /// It failed in some other way.
    Other,
}

/// What came of reading one directory.
#[derive(Debug)]
pub enum Listing {
    /// The items it holds, in the order they were handed over. An item that could not
    /// be read itself is left out.
    Items(Vec<DirectoryItem>),
    /// It would not open.
    Failed(ReadError),
}

/// The model of a [`Listing`].
pub ghost enum ListingModel {
    Items(Seq<ItemModel>),
    Failed(ReadError),
}

impl View for Listing {
    type V = ListingModel;

    open spec fn view(&self) -> ListingModel {
        match self {
            Listing::Items(items) => ListingModel::Items(items.deep_view()),
            Listing::Failed(error) => ListingModel::Failed(*error),
        }
    }
}

impl DeepView for Listing {
    type V = ListingModel;

    open spec fn deep_view(&self) -> ListingModel {
        self@
    }
}

/// Whether a finding says that there is no point in reading a directory.
///
/// A duplicate counts because an earlier entry already names the same directory:
/// reading it twice would report every program in it as shadowing itself.
pub open spec fn rules_out_reading(finding: Finding) -> bool {
    match finding {
        Finding::Missing => true,
        Finding::NotADirectory => true,
        Finding::Empty => true,
        Finding::Duplicate { first_seen_at: _ } => true,
        Finding::Relative => false,
        Finding::Unreadable => false,
    }
}

/// Whether it is worth reading an entry's directory.
pub open spec fn enumerable(entry: EntryModel) -> bool {
    forall|i: int|
        0 <= i < entry.findings.len() ==> !rules_out_reading(#[trigger] entry.findings[i])
}

/// Whether it is worth reading this entry's directory.
pub fn is_enumerable(entry: &PathEntry) -> (is: bool)
    ensures
        is == enumerable(entry@),
{
    let mut i: usize = 0;
    while i < entry.findings.len()
        invariant
            i <= entry.findings.len(),
            forall|k: int| 0 <= k < i ==> !rules_out_reading(#[trigger] entry.findings@[k]),
        decreases entry.findings.len() - i,
    {
        match entry.findings[i] {
            Finding::Missing
            | Finding::NotADirectory
            | Finding::Empty
            | Finding::Duplicate { first_seen_at: _ } => {
                assert(rules_out_reading(entry@.findings[i as int]));
                return false;
            },
            Finding::Relative | Finding::Unreadable => {},
        }
        i += 1;
    }
    true
}

/// What a failure to open a directory means for its entry. One that has vanished since
/// it was probed is missing; any other failure makes it unreadable.
pub open spec fn read_finding(error: ReadError) -> Finding {
    match error {
        ReadError::NotFound => Finding::Missing,
        ReadError::PermissionDenied => Finding::Unreadable,
        ReadError::Other => Finding::Unreadable,
    }
}

/// What a failure to open a directory means for its entry.
pub fn finding_for_read_error(error: ReadError) -> (finding: Finding)
    ensures
        finding == read_finding(error),
{
    match error {
        ReadError::NotFound => Finding::Missing,
        ReadError::PermissionDenied | ReadError::Other => Finding::Unreadable,
    }
}

/// What the files inside an entry inherit from it.
pub open spec fn origin_of(entry: EntryModel) -> Origin {
    Origin {
        entry_index: entry.index,
        scope: entry.scope,
        process_position: entry.process_position,
    }
}

/// An entry once its directory has been read, or left unread for want of a listing.
pub open spec fn listed(entry: EntryModel, listing: Option<ListingModel>) -> EntryModel {
    match listing {
        Some(ListingModel::Failed(error)) => with_finding(entry, read_finding(error)),
        _ => entry,
    }
}

/// The executables that reading an entry's directory turns up.
pub open spec fn files_of(
    entry: EntryModel,
    listing: Option<ListingModel>,
    extensions: Seq<Seq<char>>,
) -> Seq<FoundModel> {
    match listing {
        Some(ListingModel::Items(items)) => all_found_in(
            items,
            origin_of(entry),
            entry.effective(),
            extensions,
        ),
        _ => Seq::empty(),
    }
}

/// The executables that reading the directories of some entries turns up.
pub open spec fn all_files(
    entries: Seq<EntryModel>,
    listings: Seq<Option<ListingModel>>,
    extensions: Seq<Seq<char>>,
) -> Seq<FoundModel>
    decreases entries.len(),
{
    if entries.len() == 0 || listings.len() != entries.len() {
        Seq::empty()
    } else {
        all_files(entries.drop_last(), listings.drop_last(), extensions) + files_of(
            entries.last(),
            listings.last(),
            extensions,
        )
    }
}

/// The entries once their directories have been read.
pub open spec fn all_listed(
    entries: Seq<EntryModel>,
    listings: Seq<Option<ListingModel>>,
) -> Seq<EntryModel> {
    Seq::new(entries.len(), |i: int| listed(entries[i], listings[i]))
}

/// Every name found in the directories of some entries, with the places it resolves
/// from in live resolution order.
pub open spec fn enumeration(
    entries: Seq<EntryModel>,
    listings: Seq<Option<ListingModel>>,
    extensions: Seq<Seq<char>>,
) -> Seq<ResolvedModel> {
    grouped(in_resolution_order(all_files(entries, listings, extensions)))
}

/// Work out what the listings of the entries' directories say: one listing for each
/// entry, none for an entry whose directory was not read.
pub fn enumerate_listed(
    entries: &mut Vec<PathEntry>,
    listings: &Vec<Option<Listing>>,
    extensions: &Vec<String>,
) -> (resolved: Vec<Resolved>)
    requires
        listings.len() == old(entries).len(),
    ensures
        final(entries).deep_view() == all_listed(old(entries).deep_view(), listings.deep_view()),
        resolved.deep_view() == enumeration(
            old(entries).deep_view(),
            listings.deep_view(),
            extensions.deep_view(),
        ),
{
    let ghost before = entries.deep_view();
    let ghost lists = listings.deep_view();
    let ghost exts = extensions.deep_view();
    let mut found: Vec<Found> = Vec::new();
    let mut i: usize = 0;
    assert(found.deep_view() =~= all_files(before.take(0), lists.take(0), exts));
    while i < entries.len()
        invariant
            lists == listings.deep_view(),
            exts == extensions.deep_view(),
            entries.len() == before.len(),
            listings.len() == before.len(),
            i <= entries.len(),
            found.deep_view() == all_files(before.take(i as int), lists.take(i as int), exts),
            forall|k: int|
                0 <= k < i ==> #[trigger] entries.deep_view()[k] == listed(before[k], lists[k]),
            forall|k: int| i <= k < before.len() ==> #[trigger] entries.deep_view()[k] == before[k],
        decreases entries.len() - i,
    {
        let ghost current = entries.deep_view();
        assert(current[i as int] == entries@[i as int]@);
        assert(lists[i as int] == listings@[i as int].deep_view());
        assert(before.take(i + 1).drop_last() =~= before.take(i as int));
        assert(lists.take(i + 1).drop_last() =~= lists.take(i as int));
        match &listings[i] {
            Some(Listing::Items(items)) => {
                let origin = Origin {
                    entry_index: entries[i].index,
                    scope: entries[i].scope,
                    process_position: entries[i].process_position,
                };
                assert(origin == origin_of(before[i as int]));
                collect(items, origin, entries[i].effective(), extensions, &mut found);
            },
            Some(Listing::Failed(error)) => {
                entries[i].findings.push(finding_for_read_error(*error));
                assert(found.deep_view() =~= all_files(
                    before.take(i + 1),
                    lists.take(i + 1),
                    exts,
                ));
            },
            None => {
                assert(found.deep_view() =~= all_files(
                    before.take(i + 1),
                    lists.take(i + 1),
                    exts,
                ));
            },
        }
        assert(entries.deep_view()[i as int] == listed(before[i as int], lists[i as int]));
        assert forall|k: int|
            0 <= k < before.len() && k != i implies #[trigger] entries.deep_view()[k]
            == current[k] by {}
        i += 1;
    }
    assert(before.take(i as int) =~= before);
    assert(lists.take(i as int) =~= lists);
    assert(entries.deep_view() =~= all_listed(before, lists));
    group(found)
}

/// Whether a reader may come up with a listing for a directory.
pub open spec fn may_list<D: Fn(&str) -> Listing>(
    list: D,
    directory: Seq<char>,
    listing: ListingModel,
) -> bool {
    exists|asked: &str, answer: Listing|
        #![trigger call_ensures(list, (asked,), answer)]
        asked@ == directory && answer@ == listing && call_ensures(list, (asked,), answer)
}

/// Whether a reader takes every directory.
pub open spec fn takes_any_directory<D: Fn(&str) -> Listing>(list: D) -> bool {
    forall|directory: &str| #[trigger] call_requires(list, (directory,))
}

/// Whether a listing may be what reading an entry's directory came to: none when it is
/// not worth reading, and otherwise what the reader came up with for the directory that
/// Windows resolves for the entry.
pub open spec fn may_come_of<D: Fn(&str) -> Listing>(
    list: D,
    entry: EntryModel,
    listing: Option<ListingModel>,
) -> bool {
    match listing {
        Some(read) => enumerable(entry) && may_list(list, entry.effective(), read),
        None => !enumerable(entry),
    }
}

/// Whether some listings may be what reading the directories of some entries came to.
pub open spec fn may_come_of_all<D: Fn(&str) -> Listing>(
    list: D,
    entries: Seq<EntryModel>,
    listings: Seq<Option<ListingModel>>,
) -> bool {
    &&& listings.len() == entries.len()
    &&& forall|i: int|
        0 <= i < entries.len() ==> may_come_of(list, entries[i], #[trigger] listings[i])
}

/// Whether some entries and names may be what reading the directories of some entries
/// came to.
pub open spec fn enumerates_to<D: Fn(&str) -> Listing>(
    list: D,
    extensions: Seq<Seq<char>>,
    before: Seq<EntryModel>,
    after: Seq<EntryModel>,
    resolved: Seq<ResolvedModel>,
) -> bool {
    exists|listings: Seq<Option<ListingModel>>|
        {
            &&& #[trigger] may_come_of_all(list, before, listings)
            &&& after == all_listed(before, listings)
            &&& resolved == enumeration(before, listings, extensions)
        }
}

/// Read the directory of every eligible entry and group what turns up by name.
///
/// The entries change because reading is the only thing that can discover
/// [`Finding::Unreadable`]: a directory that exists, but that will not open.
pub fn enumerate<D: Fn(&str) -> Listing>(
    entries: &mut Vec<PathEntry>,
    extensions: &Vec<String>,
    list: &D,
) -> (resolved: Vec<Resolved>)
    requires
        takes_any_directory(*list),
    ensures
        enumerates_to(
            *list,
            extensions.deep_view(),
            old(entries).deep_view(),
            final(entries).deep_view(),
            resolved.deep_view(),
        ),
{
    let ghost before = entries.deep_view();
    let mut listings: Vec<Option<Listing>> = Vec::new();
    let mut i: usize = 0;
    while i < entries.len()
        invariant
            takes_any_directory(*list),
            entries.deep_view() == before,
            entries.len() == before.len(),
            i <= entries.len(),
            listings.len() == i,
            forall|k: int|
                0 <= k < i ==> may_come_of(*list, before[k], #[trigger] listings.deep_view()[k]),
        decreases entries.len() - i,
    {
        let ghost current = listings.deep_view();
        assert(before[i as int] == entries@[i as int]@);
        if is_enumerable(&entries[i]) {
            let listing = list(entries[i].effective());
            assert(may_list(*list, before[i as int].effective(), listing@));
            listings.push(Some(listing));
        } else {
            listings.push(None);
        }
        assert(may_come_of(*list, before[i as int], listings@[i as int].deep_view()));
        assert forall|k: int| 0 <= k < i implies #[trigger] listings.deep_view()[k]
            == current[k] by {}
        i += 1;
    }
    let ghost lists = listings.deep_view();
    assert(may_come_of_all(*list, before, lists));
    enumerate_listed(entries, &listings, extensions)
}

/// Whether a reader always gives one and the same listing of a directory.
pub open spec fn lists<D: Fn(&str) -> Listing>(
    list: D,
    disk: spec_fn(Seq<char>) -> ListingModel,
) -> bool {
    forall|asked: &str, answer: Listing| #[trigger]
        call_ensures(list, (asked,), answer) ==> answer@ == disk(asked@)
}

/// What reading the directories of some entries comes to on a given disk.
pub open spec fn listings_on(
    entries: Seq<EntryModel>,
    disk: spec_fn(Seq<char>) -> ListingModel,
) -> Seq<Option<ListingModel>> {
    Seq::new(
        entries.len(),
        |i: int|
            if enumerable(entries[i]) {
                Some(disk(entries[i].effective()))
            } else {
                None
            },
    )
}

/// On a disk that stands still, what is read is what the disk holds.
pub proof fn enumeration_follows_the_disk<D: Fn(&str) -> Listing>(
    list: D,
    disk: spec_fn(Seq<char>) -> ListingModel,
    entries: Seq<EntryModel>,
    listings: Seq<Option<ListingModel>>,
)
    requires
        lists(list, disk),
        may_come_of_all(list, entries, listings),
    ensures
        listings == listings_on(entries, disk),
{
    assert forall|i: int| 0 <= i < entries.len() implies listings[i] == listings_on(
        entries,
        disk,
    )[i] by {
        assert(may_come_of(list, entries[i], listings[i]));
    }
    assert(listings =~= listings_on(entries, disk));
}

/// No directory is read twice: of the entries that name one directory, whatever the
/// filesystem said of them, at most one is worth reading.
pub proof fn no_directory_is_read_twice<P: Fn(&str) -> Probe>(
    stored: Seq<SegmentModel>,
    live: Seq<SegmentModel>,
    probe: P,
    entries: Seq<EntryModel>,
    i: int,
    j: int,
)
    requires
        composed(stored, live).len() <= usize::MAX,
        annotates_all(probe, composed(stored, live), entries),
        0 <= i < j < entries.len(),
        key_of(entries[i].effective()) == key_of(entries[j].effective()),
    ensures
        !enumerable(entries[i]) || !enumerable(entries[j]),
{
    let before = composed(stored, live);
    assert(annotates(probe, before[i], entries[i]));
    assert(annotates(probe, before[j], entries[j]));
    assert(entries[i].effective() == before[i].effective());
    assert(entries[j].effective() == before[j].effective());
    if before[i].effective().len() == 0 {
        assert(rules_out_reading(entries[i].findings[0]));
    } else if before[j].effective().len() == 0 {
        assert(rules_out_reading(entries[j].findings[0]));
    } else {
        a_repeat_points_at_the_first_entry_for_its_directory(stored, live, j);
        if enumerable(entries[j]) {
            assert forall|first: usize|
                !before[j].findings.contains(Finding::Duplicate { first_seen_at: first }) by {
                if before[j].findings.contains(Finding::Duplicate { first_seen_at: first }) {
                    let k = choose|k: int|
                        0 <= k < before[j].findings.len() && before[j].findings[k] == (
                        Finding::Duplicate { first_seen_at: first });
                    assert(entries[j].findings[k] == before[j].findings[k]);
                }
            }
        }
    }
}

// ---- what holds of every enumeration ----

proof fn lemma_found_in(
    items: Seq<ItemModel>,
    origin: Origin,
    directory: Seq<char>,
    extensions: Seq<Seq<char>>,
)
    ensures
        forall|k: int|
            0 <= k < all_found_in(items, origin, directory, extensions).len() ==> {
                let file = #[trigger] all_found_in(items, origin, directory, extensions)[k];
                file.origin == origin && file.directory == directory
            },
    decreases items.len(),
{
    if items.len() > 0 {
        lemma_found_in(items.drop_last(), origin, directory, extensions);
    }
}

/// Whether a file was found in the directory of one of the entries, and carries what it
/// inherits from that entry.
pub open spec fn found_in_one_of(entries: Seq<EntryModel>, file: FoundModel) -> bool {
    exists|k: int|
        {
            &&& 0 <= k < entries.len()
            &&& file.origin == origin_of(#[trigger] entries[k])
            &&& file.directory == entries[k].effective()
        }
}

proof fn lemma_all_files(
    entries: Seq<EntryModel>,
    listings: Seq<Option<ListingModel>>,
    extensions: Seq<Seq<char>>,
)
    ensures
        forall|k: int|
            0 <= k < all_files(entries, listings, extensions).len() ==> found_in_one_of(
                entries,
                #[trigger] all_files(entries, listings, extensions)[k],
            ),
    decreases entries.len(),
{
    if entries.len() > 0 && listings.len() == entries.len() {
        let shorter = entries.drop_last();
        let before = all_files(shorter, listings.drop_last(), extensions);
        let all = all_files(entries, listings, extensions);
        lemma_all_files(shorter, listings.drop_last(), extensions);
        if let Some(ListingModel::Items(items)) = listings.last() {
            lemma_found_in(
                items,
                origin_of(entries.last()),
                entries.last().effective(),
                extensions,
            );
        }
        assert forall|k: int| 0 <= k < all.len() implies found_in_one_of(
            entries,
            #[trigger] all[k],
        ) by {
            if k < before.len() {
                assert(all[k] == before[k]);
                let j = choose|j: int|
                    {
                        &&& 0 <= j < shorter.len()
                        &&& before[k].origin == origin_of(#[trigger] shorter[j])
                        &&& before[k].directory == shorter[j].effective()
                    };
                assert(entries[j] == shorter[j]);
            } else {
                let own = files_of(entries.last(), listings.last(), extensions);
                assert(all[k] == own[k - before.len()]);
                assert(entries[entries.len() - 1] == entries.last());
            }
        }
    }
}

/// Whether an occurrence agrees with an entry about everything the two share.
pub open spec fn agrees(occurrence: OccurrenceModel, entry: EntryModel) -> bool {
    &&& occurrence.entry_index == entry.index
    &&& occurrence.scope == entry.scope
    &&& occurrence.process_position == entry.process_position
    &&& occurrence.directory == entry.effective()
}

/// Every occurrence agrees with the entry it was found in about where that entry sits,
/// which scope contributed it, whether it is live, and which directory it names.
pub proof fn an_occurrence_agrees_with_its_entry(
    entries: Seq<EntryModel>,
    listings: Seq<Option<ListingModel>>,
    extensions: Seq<Seq<char>>,
    i: int,
    a: int,
)
    requires
        0 <= i < enumeration(entries, listings, extensions).len(),
        0 <= a < enumeration(entries, listings, extensions)[i].occurrences.len(),
    ensures
        exists|k: int|
            0 <= k < entries.len() && agrees(
                enumeration(entries, listings, extensions)[i].occurrences[a],
                #[trigger] entries[k],
            ),
{
    broadcast use vstd::seq_lib::to_multiset_contains;

    let found = all_files(entries, listings, extensions);
    let files = in_resolution_order(found);
    let resolved = enumeration(entries, listings, extensions)[i];
    let occurrence = resolved.occurrences[a];
    resolution_order_is_a_sorted_rearrangement(found);
    occurrences_come_from_the_files(files, resolved.stem);
    lemma_all_files(entries, listings, extensions);
    assert(resolved.occurrences == occurrences_of(files, resolved.stem));
    let j = choose|j: int|
        0 <= j < files.len() && occurrence_of(#[trigger] files[j]) == occurrence;
    assert(files.to_multiset().contains(files[j]));
    assert(found.contains(files[j]));
    let m = choose|m: int| 0 <= m < found.len() && found[m] == files[j];
    assert(found_in_one_of(entries, found[m]));
    let k = choose|k: int|
        {
            &&& 0 <= k < entries.len()
            &&& found[m].origin == origin_of(#[trigger] entries[k])
            &&& found[m].directory == entries[k].effective()
        };
    assert(agrees(occurrence, entries[k]));
}

/// A file has the live position of the entry it was found in, so none has a position that
/// no entry has.
pub proof fn found_files_are_live_or_not(
    entries: Seq<EntryModel>,
    listings: Seq<Option<ListingModel>>,
    extensions: Seq<Seq<char>>,
)
    ensures
        forall|k: int|
            0 <= k < all_files(entries, listings, extensions).len() ==> exists|j: int|
                0 <= j < entries.len() && (#[trigger] entries[j]).process_position
                    == (#[trigger] all_files(
                    entries,
                    listings,
                    extensions,
                )[k]).origin.process_position,
{
    lemma_all_files(entries, listings, extensions);
    assert forall|k: int| 0 <= k < all_files(entries, listings, extensions).len() implies exists|
        j: int,
    |
        0 <= j < entries.len() && (#[trigger] entries[j]).process_position == (
        #[trigger] all_files(entries, listings, extensions)[k]).origin.process_position by {
        assert(found_in_one_of(entries, all_files(entries, listings, extensions)[k]));
    }
}

// ---- what is recorded, and what is not ----

/// Whether an item of a directory is a program with a given stem: it is known to be no
/// directory, and its name is the stem followed by the extension of a given rank.
pub open spec fn is_program(
    item: ItemModel,
    extensions: Seq<Seq<char>>,
    stem: Seq<char>,
    rank: int,
) -> bool {
    &&& item.details is Some
    &&& !item.details->0.is_directory
    &&& splits_first_at(lowercase(item.file_name), extensions, stem, rank)
}

/// The file that a program in an entry's directory is found as.
pub open spec fn program_file(
    entry: EntryModel,
    item: ItemModel,
    stem: Seq<char>,
    rank: int,
) -> FoundModel {
    FoundModel {
        origin: Origin {
            entry_index: entry.index,
            scope: entry.scope,
            process_position: entry.process_position,
        },
        directory: entry.effective(),
        file_name: item.file_name,
        stem,
        extension_rank: rank as usize,
        is_reparse_point: item.details->0.attributes & 0x400 != 0,
    }
}

proof fn lemma_item_found(
    entry: EntryModel,
    items: Seq<ItemModel>,
    extensions: Seq<Seq<char>>,
    m: int,
    stem: Seq<char>,
    rank: int,
)
    requires
        extensions.len() <= usize::MAX,
        0 <= m < items.len(),
        is_program(items[m], extensions, stem, rank),
    ensures
        all_found_in(items, origin_of(entry), entry.effective(), extensions).contains(
            program_file(entry, items[m], stem, rank),
        ),
    decreases items.len(),
{
    let shorter = items.drop_last();
    let file = program_file(entry, items[m], stem, rank);
    let before = all_found_in(shorter, origin_of(entry), entry.effective(), extensions);
    let all = all_found_in(items, origin_of(entry), entry.effective(), extensions);
    if m < shorter.len() {
        lemma_item_found(entry, shorter, extensions, m, stem, rank);
        let k = choose|k: int| 0 <= k < before.len() && before[k] == file;
        assert(all[k] == file);
    } else {
        the_first_extension_of_a_name_decides(
            lowercase(items[m].file_name),
            extensions,
            stem,
            rank,
        );
        assert(all[all.len() - 1] == file);
    }
}

proof fn lemma_file_found(
    entries: Seq<EntryModel>,
    listings: Seq<Option<ListingModel>>,
    extensions: Seq<Seq<char>>,
    e: int,
    file: FoundModel,
)
    requires
        listings.len() == entries.len(),
        0 <= e < entries.len(),
        files_of(entries[e], listings[e], extensions).contains(file),
    ensures
        all_files(entries, listings, extensions).contains(file),
    decreases entries.len(),
{
    let fewer = entries.drop_last();
    let less = listings.drop_last();
    let before = all_files(fewer, less, extensions);
    let all = all_files(entries, listings, extensions);
    if e < fewer.len() {
        assert(fewer[e] == entries[e] && less[e] == listings[e]);
        lemma_file_found(fewer, less, extensions, e, file);
        let k = choose|k: int| 0 <= k < before.len() && before[k] == file;
        assert(all[k] == file);
    } else {
        let own = files_of(entries.last(), listings.last(), extensions);
        let k = choose|k: int| 0 <= k < own.len() && own[k] == file;
        assert(all[before.len() + k] == file);
    }
}

/// Nothing is left out: every program in a directory that was read is recorded under its
/// stem, with the entry it was found in, its own name, and whether it is a reparse point.
pub proof fn every_program_is_recorded(
    entries: Seq<EntryModel>,
    listings: Seq<Option<ListingModel>>,
    extensions: Seq<Seq<char>>,
    e: int,
    items: Seq<ItemModel>,
    m: int,
    stem: Seq<char>,
    rank: int,
)
    requires
        extensions.len() <= usize::MAX,
        listings.len() == entries.len(),
        0 <= e < entries.len(),
        listings[e] == Some(ListingModel::Items(items)),
        0 <= m < items.len(),
        items[m].details is Some,
        !items[m].details->0.is_directory,
        splits_first_at(lowercase(items[m].file_name), extensions, stem, rank),
    ensures
        exists|i: int|
            {
                &&& 0 <= i < enumeration(entries, listings, extensions).len()
                &&& (#[trigger] enumeration(entries, listings, extensions)[i]).stem == stem
                &&& enumeration(entries, listings, extensions)[i].occurrences.contains(
                    OccurrenceModel {
                        entry_index: entries[e].index,
                        scope: entries[e].scope,
                        process_position: entries[e].process_position,
                        directory: entries[e].effective(),
                        file_name: items[m].file_name,
                        is_reparse_point: items[m].details->0.attributes & 0x400 != 0,
                    },
                )
            },
{
    broadcast use vstd::seq_lib::to_multiset_contains;

    let found = all_files(entries, listings, extensions);
    let files = in_resolution_order(found);
    let file = program_file(entries[e], items[m], stem, rank);
    lemma_item_found(entries[e], items, extensions, m, stem, rank);
    lemma_file_found(entries, listings, extensions, e, file);
    resolution_order_is_a_sorted_rearrangement(found);
    assert(found.to_multiset().contains(file));
    assert(files.to_multiset().contains(file));
    let k = choose|k: int| 0 <= k < files.len() && files[k] == file;
    every_file_is_recorded_under_its_name(files);
    let i = choose|i: int|
        {
            &&& 0 <= i < grouped(files).len()
            &&& (#[trigger] grouped(files)[i]).stem == files[k].stem
            &&& grouped(files)[i].occurrences.contains(occurrence_of(files[k]))
        };
    assert(enumeration(entries, listings, extensions)[i].stem == stem);
}

/// Whether a file is the program that an item of an entry's directory is.
pub open spec fn file_of_item(
    entries: Seq<EntryModel>,
    listings: Seq<Option<ListingModel>>,
    extensions: Seq<Seq<char>>,
    file: FoundModel,
    e: int,
    m: int,
) -> bool {
    &&& 0 <= e < entries.len()
    &&& listings[e] matches Some(ListingModel::Items(items))
    &&& 0 <= m < items.len()
    &&& is_program(items[m], extensions, file.stem, file.extension_rank as int)
    &&& file == program_file(entries[e], items[m], file.stem, file.extension_rank as int)
}

proof fn lemma_item_of(
    entry: EntryModel,
    items: Seq<ItemModel>,
    extensions: Seq<Seq<char>>,
    k: int,
) -> (m: int)
    requires
        extensions.len() <= usize::MAX,
        0 <= k < all_found_in(items, origin_of(entry), entry.effective(), extensions).len(),
    ensures
        0 <= m < items.len(),
        ({
            let file = all_found_in(items, origin_of(entry), entry.effective(), extensions)[k];
            &&& is_program(items[m], extensions, file.stem, file.extension_rank as int)
            &&& file == program_file(entry, items[m], file.stem, file.extension_rank as int)
        }),
    decreases items.len(),
{
    let shorter = items.drop_last();
    let before = all_found_in(shorter, origin_of(entry), entry.effective(), extensions);
    let file = all_found_in(items, origin_of(entry), entry.effective(), extensions)[k];
    if k < before.len() {
        lemma_item_of(entry, shorter, extensions, k)
    } else {
        let lowered = lowercase(items.last().file_name);
        only_the_matched_extension_is_stripped(lowered, extensions);
        the_first_extension_of_a_name_decides(
            lowered,
            extensions,
            file.stem,
            file.extension_rank as int,
        );
        items.len() - 1
    }
}

proof fn lemma_source_of(
    entries: Seq<EntryModel>,
    listings: Seq<Option<ListingModel>>,
    extensions: Seq<Seq<char>>,
    k: int,
) -> (place: (int, int))
    requires
        extensions.len() <= usize::MAX,
        0 <= k < all_files(entries, listings, extensions).len(),
    ensures
        file_of_item(
            entries,
            listings,
            extensions,
            all_files(entries, listings, extensions)[k],
            place.0,
            place.1,
        ),
    decreases entries.len(),
{
    let fewer = entries.drop_last();
    let less = listings.drop_last();
    let before = all_files(fewer, less, extensions);
    if k < before.len() {
        lemma_source_of(fewer, less, extensions, k)
    } else {
        let items = listings.last()->0->Items_0;
        let m = lemma_item_of(entries.last(), items, extensions, k - before.len());
        (entries.len() - 1, m)
    }
}

proof fn lemma_listed_source(
    entries: Seq<EntryModel>,
    listings: Seq<Option<ListingModel>>,
    extensions: Seq<Seq<char>>,
    k: int,
) -> (place: (int, int))
    requires
        extensions.len() <= usize::MAX,
        0 <= k < in_resolution_order(all_files(entries, listings, extensions)).len(),
    ensures
        file_of_item(
            entries,
            listings,
            extensions,
            in_resolution_order(all_files(entries, listings, extensions))[k],
            place.0,
            place.1,
        ),
{
    broadcast use vstd::seq_lib::to_multiset_contains;

    let found = all_files(entries, listings, extensions);
    let files = in_resolution_order(found);
    resolution_order_is_a_sorted_rearrangement(found);
    assert(files.to_multiset().contains(files[k]));
    assert(found.contains(files[k]));
    let j = choose|j: int| 0 <= j < found.len() && found[j] == files[k];
    lemma_source_of(entries, listings, extensions, j)
}

/// Nothing is made up: every occurrence recorded under a name is a program that stands in
/// the listing of an entry's directory, and its name is the stem followed by an extension.
pub proof fn every_record_is_of_a_program(
    entries: Seq<EntryModel>,
    listings: Seq<Option<ListingModel>>,
    extensions: Seq<Seq<char>>,
    i: int,
    a: int,
) -> (place: (int, int))
    requires
        extensions.len() <= usize::MAX,
        0 <= i < enumeration(entries, listings, extensions).len(),
        0 <= a < enumeration(entries, listings, extensions)[i].occurrences.len(),
    ensures
        0 <= place.0 < entries.len(),
        listings[place.0] is Some,
        listings[place.0]->0 is Items,
        ({
            let record = enumeration(entries, listings, extensions)[i];
            let occurrence = record.occurrences[a];
            let items = listings[place.0]->0->Items_0;
            &&& 0 <= place.1 < items.len()
            &&& agrees(occurrence, entries[place.0])
            &&& occurrence.file_name == items[place.1].file_name
            &&& items[place.1].details is Some
            &&& !items[place.1].details->0.is_directory
            &&& occurrence.is_reparse_point == (items[place.1].details->0.attributes & 0x400
                != 0)
            &&& exists|rank: int| #[trigger]
                splits_first_at(
                    lowercase(occurrence.file_name),
                    extensions,
                    record.stem,
                    rank,
                )
        }),
{
    let files = in_resolution_order(all_files(entries, listings, extensions));
    let record = enumeration(entries, listings, extensions)[i];
    assert(record.occurrences == occurrences_of(files, record.stem));
    let k = place_of_occurrence(files, record.stem, a);
    let place = lemma_listed_source(entries, listings, extensions, k);
    assert(splits_first_at(
        lowercase(files[k].file_name),
        extensions,
        record.stem,
        files[k].extension_rank as int,
    ));
    place
}

/// Within one directory `PATHEXT` decides: of two files listed under one name for one entry,
/// the extension of the first stands no later in the list than that of the second.
pub proof fn pathext_decides_within_one_directory(
    entries: Seq<EntryModel>,
    listings: Seq<Option<ListingModel>>,
    extensions: Seq<Seq<char>>,
    i: int,
    a: int,
    b: int,
) -> (ranks: (int, int))
    requires
        extensions.len() <= usize::MAX,
        0 <= i < enumeration(entries, listings, extensions).len(),
        0 <= a < b < enumeration(entries, listings, extensions)[i].occurrences.len(),
        ({
            let all = enumeration(entries, listings, extensions)[i].occurrences;
            &&& all[a].entry_index == all[b].entry_index
            &&& all[a].process_position == all[b].process_position
            &&& all[a].process_position != Some(usize::MAX)
        }),
        forall|e: int|
            0 <= e < entries.len() ==> (#[trigger] entries[e]).process_position != Some(
                usize::MAX,
            ),
    ensures
        0 <= ranks.0 <= ranks.1 < extensions.len(),
        ({
            let record = enumeration(entries, listings, extensions)[i];
            let first = lowercase(record.occurrences[a].file_name);
            let second = lowercase(record.occurrences[b].file_name);
            &&& splits_first_at(first, extensions, record.stem, ranks.0)
            &&& splits_first_at(second, extensions, record.stem, ranks.1)
            &&& classified(first, extensions) == Some((record.stem, ranks.0 as usize))
            &&& classified(second, extensions) == Some((record.stem, ranks.1 as usize))
            &&& ranks.0 == ranks.1 ==> first == second
        }),
{
    let found = all_files(entries, listings, extensions);
    let files = in_resolution_order(found);
    let record = enumeration(entries, listings, extensions)[i];
    assert(record.occurrences == occurrences_of(files, record.stem));
    let (k, l) = occurrences_keep_the_order_of_the_files(files, record.stem, a, b);
    lemma_listed_source(entries, listings, extensions, k);
    lemma_listed_source(entries, listings, extensions, l);
    found_files_are_live_or_not(entries, listings, extensions);
    position_then_index_then_extension_decide(found, k, l);
    let ranks = (files[k].extension_rank as int, files[l].extension_rank as int);
    the_first_extension_of_a_name_decides(
        lowercase(files[k].file_name),
        extensions,
        record.stem,
        ranks.0,
    );
    the_first_extension_of_a_name_decides(
        lowercase(files[l].file_name),
        extensions,
        record.stem,
        ranks.1,
    );
    ranks
}

/// How many items of a directory are programs.
pub open spec fn program_count(items: Seq<ItemModel>, extensions: Seq<Seq<char>>) -> nat
    decreases items.len(),
{
    if items.len() == 0 {
        0
    } else {
        let earlier = program_count(items.drop_last(), extensions);
        if exists|stem: Seq<char>, rank: int|
            #[trigger] is_program(items.last(), extensions, stem, rank) {
            earlier + 1
        } else {
            earlier
        }
    }
}

/// A directory gives rise to as many files as it holds programs: none counts twice.
pub proof fn every_program_counts_once(
    items: Seq<ItemModel>,
    origin: Origin,
    directory: Seq<char>,
    extensions: Seq<Seq<char>>,
)
    requires
        extensions.len() <= usize::MAX,
    ensures
        all_found_in(items, origin, directory, extensions).len() == program_count(
            items,
            extensions,
        ),
    decreases items.len(),
{
    if items.len() > 0 {
        every_program_counts_once(items.drop_last(), origin, directory, extensions);
        let item = items.last();
        let lowered = lowercase(item.file_name);
        only_the_matched_extension_is_stripped(lowered, extensions);
        if exists|stem: Seq<char>, rank: int|
            #[trigger] is_program(item, extensions, stem, rank) {
            let (stem, rank) = choose|stem: Seq<char>, rank: int|
                #[trigger] is_program(item, extensions, stem, rank);
            the_first_extension_of_a_name_decides(lowered, extensions, stem, rank);
        }
        if let Some((stem, rank)) = classified(lowered, extensions) {
            the_first_extension_of_a_name_decides(lowered, extensions, stem, rank as int);
            if item.details is Some && !item.details->0.is_directory {
                assert(is_program(item, extensions, stem, rank as int));
            }
        }
    }
}

/// How many programs the directories that were read hold together.
pub open spec fn programs_in_all(
    listings: Seq<Option<ListingModel>>,
    extensions: Seq<Seq<char>>,
) -> nat
    decreases listings.len(),
{
    if listings.len() == 0 {
        0
    } else {
        programs_in_all(listings.drop_last(), extensions) + match listings.last() {
            Some(ListingModel::Items(items)) => program_count(items, extensions),
            _ => 0,
        }
    }
}

/// The records hold as many occurrences together as the directories that were read hold
/// programs.
pub proof fn the_records_hold_every_program_once(
    entries: Seq<EntryModel>,
    listings: Seq<Option<ListingModel>>,
    extensions: Seq<Seq<char>>,
)
    requires
        extensions.len() <= usize::MAX,
        listings.len() == entries.len(),
    ensures
        occurrence_count(enumeration(entries, listings, extensions)) == programs_in_all(
            listings,
            extensions,
        ),
{
    let found = all_files(entries, listings, extensions);
    lemma_file_count(entries, listings, extensions);
    resolution_order_is_a_sorted_rearrangement(found);
    every_file_is_recorded_under_its_name(in_resolution_order(found));
}

proof fn lemma_file_count(
    entries: Seq<EntryModel>,
    listings: Seq<Option<ListingModel>>,
    extensions: Seq<Seq<char>>,
)
    requires
        extensions.len() <= usize::MAX,
        listings.len() == entries.len(),
    ensures
        all_files(entries, listings, extensions).len() == programs_in_all(listings, extensions),
    decreases entries.len(),
{
    if entries.len() > 0 {
        lemma_file_count(entries.drop_last(), listings.drop_last(), extensions);
        if let Some(ListingModel::Items(items)) = listings.last() {
            every_program_counts_once(
                items,
                origin_of(entries.last()),
                entries.last().effective(),
                extensions,
            );
        }
    }
}

/// A directory is left unread exactly when there is nothing to read: the entry is empty, a
/// repeat, missing, or no directory. A relative entry, or one that was unreadable before, is
/// read.
pub proof fn what_keeps_a_directory_unread(entry: EntryModel)
    ensures
        enumerable(entry) <==> {
            &&& !entry.findings.contains(Finding::Missing)
            &&& !entry.findings.contains(Finding::NotADirectory)
            &&& !entry.findings.contains(Finding::Empty)
            &&& forall|first: usize|
                !(#[trigger] entry.findings.contains(Finding::Duplicate { first_seen_at: first }))
        },
{
    if enumerable(entry) {
        assert forall|finding: Finding| #[trigger]
            entry.findings.contains(finding) implies !rules_out_reading(finding) by {
            let k = choose|k: int| 0 <= k < entry.findings.len() && entry.findings[k] == finding;
            assert(!rules_out_reading(entry.findings[k]));
        }
    } else {
        let k = choose|k: int|
            0 <= k < entry.findings.len() && rules_out_reading(#[trigger] entry.findings[k]);
        let finding = entry.findings[k];
        assert(entry.findings.contains(finding));
        if let Finding::Duplicate { first_seen_at } = finding {
            assert(entry.findings.contains(Finding::Duplicate { first_seen_at }));
        }
    }
}

/// Reading changes nothing about an entry but its findings. A directory that opened, or
/// that was not read, gains none; one that has vanished is missing; any other failure makes
/// it unreadable.
pub proof fn reading_adds_what_went_wrong(
    entries: Seq<EntryModel>,
    listings: Seq<Option<ListingModel>>,
    i: int,
)
    requires
        listings.len() == entries.len(),
        0 <= i < entries.len(),
    ensures
        all_listed(entries, listings).len() == entries.len(),
        ({
            let after = all_listed(entries, listings)[i];
            &&& after == (EntryModel { findings: after.findings, ..entries[i] })
            &&& listings[i] is None || listings[i]->0 is Items ==> after.findings
                == entries[i].findings
            &&& listings[i] == Some(ListingModel::Failed(ReadError::NotFound)) ==> after.findings
                == entries[i].findings.push(Finding::Missing)
            &&& listings[i] == Some(ListingModel::Failed(ReadError::PermissionDenied))
                ==> after.findings == entries[i].findings.push(Finding::Unreadable)
            &&& listings[i] == Some(ListingModel::Failed(ReadError::Other)) ==> after.findings
                == entries[i].findings.push(Finding::Unreadable)
        }),
{
}

/// One bit alone marks a reparse point, whatever the other attributes are.
pub proof fn one_bit_marks_a_reparse_point(attributes: u32)
    ensures
        reparse_point(attributes | 0x400),
        !reparse_point(attributes & !0x400),
        reparse_point(attributes) <==> (attributes & 0x400) == 0x400,
{
    assert((attributes | 0x400) & 0x400 != 0) by (bit_vector);
    assert((attributes & !0x400) & 0x400 == 0) by (bit_vector);
    assert((attributes & 0x400 != 0) <==> ((attributes & 0x400) == 0x400)) by (bit_vector);
}

} // verus!
