//! Filesystem findings for already-composed entries.
//!
//! What the filesystem says arrives through an injected probe; what it means for an
//! entry is decided here.

use vstd::prelude::*;

use crate::report::{EntryModel, Finding, PathEntry};

verus! {

/// What the filesystem says about a path.
#[derive(Debug, Clone, Copy, PartialEq, Eq, Structural)]
pub enum Probe {
    /// It is a directory.
    Directory,
    /// Something is there, but it is not a directory.
    NotADirectory,
    /// Nothing is there.
    NotFound,
    /// There is no telling: the question failed in some other way.
    Unknown,
}

/// Whether a probe may say something about a path.
pub open spec fn may_say<P: Fn(&str) -> Probe>(probe: P, path: Seq<char>, said: Probe) -> bool {
    exists|asked: &str| asked@ == path && #[trigger] call_ensures(probe, (asked,), said)
}

/// Whether a probe takes every path.
pub open spec fn takes_any_path<P: Fn(&str) -> Probe>(probe: P) -> bool {
    forall|path: &str| #[trigger] call_requires(probe, (path,))
}

/// The finding an answer of the filesystem gives rise to. A failure to tell is none:
/// claiming that the directory is missing would be a lie.
pub open spec fn finding_of(said: Probe) -> Option<Finding> {
    match said {
        Probe::Directory => None,
        Probe::NotADirectory => Some(Finding::NotADirectory),
        Probe::NotFound => Some(Finding::Missing),
        Probe::Unknown => None,
    }
}

/// The finding an answer of the filesystem gives rise to.
pub fn finding_for_probe(said: Probe) -> (finding: Option<Finding>)
    ensures
        finding == finding_of(said),
{
    match said {
        Probe::Directory => None,
        Probe::NotADirectory => Some(Finding::NotADirectory),
        Probe::NotFound => Some(Finding::Missing),
        Probe::Unknown => None,
    }
}

/// An entry with one more finding.
pub open spec fn with_finding(entry: EntryModel, finding: Finding) -> EntryModel {
    EntryModel { findings: entry.findings.push(finding), ..entry }
}

/// An entry after the filesystem has said something about its directory.
pub open spec fn probed(entry: EntryModel, said: Probe) -> EntryModel {
    match finding_of(said) {
        Some(finding) => with_finding(entry, finding),
        None => entry,
    }
}

/// Whether an entry may come out of probing another. An empty entry names nothing on
/// disk and is left alone.
pub open spec fn annotates<P: Fn(&str) -> Probe>(
    probe: P,
    before: EntryModel,
    after: EntryModel,
) -> bool {
    if before.effective().len() == 0 {
        after == before
    } else {
        exists|said: Probe| #[trigger]
            may_say(probe, before.effective(), said) && after == probed(before, said)
    }
}

/// Whether some entries may come out of probing some others.
pub open spec fn annotates_all<P: Fn(&str) -> Probe>(
    probe: P,
    before: Seq<EntryModel>,
    after: Seq<EntryModel>,
) -> bool {
    &&& after.len() == before.len()
    &&& forall|i: int| 0 <= i < before.len() ==> annotates(probe, before[i], #[trigger] after[i])
}

/// Add the filesystem findings to each entry, in place.
///
/// Runs after composition, so an entry's findings read as the order-dependent ones
/// first and then these.
pub fn annotate<P: Fn(&str) -> Probe>(entries: &mut Vec<PathEntry>, probe: &P)
    requires
        takes_any_path(*probe),
    ensures
        annotates_all(*probe, old(entries).deep_view(), final(entries).deep_view()),
{
    let ghost before = entries.deep_view();
    let mut i: usize = 0;
    while i < entries.len()
        invariant
            takes_any_path(*probe),
            entries.len() == before.len(),
            i <= entries.len(),
            forall|k: int|
                0 <= k < i ==> annotates(*probe, before[k], #[trigger] entries.deep_view()[k]),
            forall|k: int| i <= k < before.len() ==> #[trigger] entries.deep_view()[k] == before[k],
        decreases entries.len() - i,
    {
        let ghost current = entries.deep_view();
        assert(current[i as int] == entries@[i as int]@);
        if !entries[i].effective().is_empty() {
            let said = probe(entries[i].effective());
            assert(may_say(*probe, before[i as int].effective(), said));
            match finding_for_probe(said) {
                Some(finding) => {
                    entries[i].findings.push(finding);
                },
                None => {},
            }
            assert(entries.deep_view()[i as int] == probed(before[i as int], said));
        }
        assert forall|k: int|
            0 <= k < before.len() && k != i implies #[trigger] entries.deep_view()[k]
            == current[k] by {}
        i += 1;
    }
}

/// Whether a probe always says one and the same thing of a path.
pub open spec fn tells<P: Fn(&str) -> Probe>(
    probe: P,
    filesystem: spec_fn(Seq<char>) -> Probe,
) -> bool {
    forall|asked: &str, said: Probe| #[trigger]
        call_ensures(probe, (asked,), said) ==> said == filesystem(asked@)
}

/// The entries after a given filesystem has been asked about their directories.
pub open spec fn probed_on(
    entries: Seq<EntryModel>,
    filesystem: spec_fn(Seq<char>) -> Probe,
) -> Seq<EntryModel> {
    Seq::new(
        entries.len(),
        |i: int|
            if entries[i].effective().len() == 0 {
                entries[i]
            } else {
                probed(entries[i], filesystem(entries[i].effective()))
            },
    )
}

/// On a filesystem that stands still, the findings are what it says.
pub proof fn findings_follow_the_filesystem<P: Fn(&str) -> Probe>(
    probe: P,
    filesystem: spec_fn(Seq<char>) -> Probe,
    before: Seq<EntryModel>,
    after: Seq<EntryModel>,
)
    requires
        tells(probe, filesystem),
        annotates_all(probe, before, after),
    ensures
        after == probed_on(before, filesystem),
{
    assert forall|i: int| 0 <= i < before.len() implies after[i] == probed_on(
        before,
        filesystem,
    )[i] by {
        assert(annotates(probe, before[i], after[i]));
    }
    assert(after =~= probed_on(before, filesystem));
}

/// Probing changes nothing about an entry but its findings, and of those it keeps every
/// one.
pub proof fn probing_only_adds_findings<P: Fn(&str) -> Probe>(
    probe: P,
    before: Seq<EntryModel>,
    after: Seq<EntryModel>,
    i: int,
)
    requires
        annotates_all(probe, before, after),
        0 <= i < before.len(),
    ensures
        after[i] == (EntryModel { findings: after[i].findings, ..before[i] }),
        before[i].findings.is_prefix_of(after[i].findings),
        after[i].findings.len() <= before[i].findings.len() + 1,
{
    assert(annotates(probe, before[i], after[i]));
}

/// A directory that is there, or of which nothing is known, gains no finding. One that is
/// not there is missing, and something else in its place is no directory. An empty entry is
/// left alone, and nothing but the findings ever changes.
pub proof fn the_filesystem_accounts_for_what_is_added(
    entries: Seq<EntryModel>,
    filesystem: spec_fn(Seq<char>) -> Probe,
    i: int,
)
    requires
        0 <= i < entries.len(),
    ensures
        probed_on(entries, filesystem).len() == entries.len(),
        ({
            let before = entries[i];
            let after = probed_on(entries, filesystem)[i];
            let said = filesystem(before.effective());
            &&& after == (EntryModel { findings: after.findings, ..before })
            &&& before.effective().len() == 0 || said == Probe::Directory || said
                == Probe::Unknown ==> after.findings == before.findings
            &&& before.effective().len() > 0 && said == Probe::NotFound ==> after.findings
                == before.findings.push(Finding::Missing)
            &&& before.effective().len() > 0 && said == Probe::NotADirectory ==> after.findings
                == before.findings.push(Finding::NotADirectory)
        }),
{
}

} // verus!
