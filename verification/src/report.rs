//! The data an audit works on and hands back.
//!
//! These types are the contract with a front end, whether it links this library or
//! reads the JSON form of a report. Each type that holds text has a model, a value of
//! the same shape in which every string is the sequence of its characters; the
//! contracts of the library speak of the models.

use vstd::prelude::*;

use crate::text::{
    ascii_lowercase, eq_ignore_ascii_case, equal_but_for_case_means_equal_in_lower_case,
    equal_ignoring_ascii_case,
};

verus! {

/// Whether, and how, to ask a shell what it masks.
#[derive(Debug, Clone, Copy, PartialEq, Eq, Structural)]
pub enum ShellScan {
    /// Ask an interpreter.
    ///
    /// `profile: true` makes the interpreter load the user profile, which means that
    /// arbitrary user code runs as a side effect of producing a read-only report. It is
    /// the only way to see a user's own aliases, and it is opt-in for that reason.
    Ask {
        /// Whether to let the interpreter load its user profile.
        profile: bool,
    },
    /// Do not ask. No process is spawned and [`Capability::ShellMasking`] is absent.
    Skip,
}

impl Default for ShellScan {
    /// Ask, without loading a profile: useful, and free of side effects.
    fn default() -> (scan: Self)
        ensures
            scan == (ShellScan::Ask { profile: false }),
    {
        ShellScan::Ask { profile: false }
    }
}

/// How to run an audit.
#[derive(Debug)]
#[non_exhaustive]
pub struct AuditOptions {
    /// Whether to ask a shell what it masks.
    pub shell_scan: ShellScan,
    /// Which interpreters to ask, each either a bare stem to look up among the
    /// executables found or an absolute path. Empty means Windows PowerShell.
    pub shell_interpreters: Vec<String>,
}

impl Default for AuditOptions {
    /// Ask the default interpreter, without loading a profile.
    fn default() -> (options: Self)
        ensures
            options.shell_scan == (ShellScan::Ask { profile: false }),
            options.shell_interpreters@ == Seq::<String>::empty(),
    {
        AuditOptions { shell_scan: ShellScan::default(), shell_interpreters: Vec::new() }
    }
}

impl Clone for AuditOptions {
    fn clone(&self) -> (copy: Self)
        ensures
            copy.shell_scan == self.shell_scan,
            copy.shell_interpreters.deep_view() == self.shell_interpreters.deep_view(),
    {
        let shell_interpreters = self.shell_interpreters.clone();
        assert(shell_interpreters.deep_view() =~= self.shell_interpreters.deep_view());
        AuditOptions { shell_scan: self.shell_scan, shell_interpreters }
    }
}

impl AuditOptions {
    /// Set whether, and how, to ask a shell what it masks.
    #[must_use]
    pub fn with_shell_scan(self, shell_scan: ShellScan) -> (options: Self)
        ensures
            options.shell_scan == shell_scan,
            options.shell_interpreters == self.shell_interpreters,
    {
        AuditOptions { shell_scan, shell_interpreters: self.shell_interpreters }
    }

    /// Set which interpreters to ask. Empty restores the default.
    #[must_use]
    pub fn with_shell_interpreters(self, interpreters: Vec<String>) -> (options: Self)
        ensures
            options.shell_scan == self.shell_scan,
            options.shell_interpreters == interpreters,
    {
        AuditOptions { shell_scan: self.shell_scan, shell_interpreters: interpreters }
    }
}

/// Version of the serialised report shape.
///
/// Bumped only for a change a consumer could break on: a field removed or renamed, an
/// enum representation altered, or the meaning of an existing field changed.
pub const SCHEMA_VERSION: u32 = 4;

/// Where a `PATH` entry came from.
///
/// Windows composes the effective `PATH` as machine entries first, then user entries.
#[derive(Debug, Clone, Copy, PartialEq, Eq, Structural)]
pub enum PathScope {
    /// `HKLM\SYSTEM\CurrentControlSet\Control\Session Manager\Environment`
    Machine,
    /// `HKCU\Environment`
    User,
    /// Present in the live process `PATH` but in neither registry scope. Legitimate:
    /// per-shell shim directories are injected at runtime.
    ProcessOnly,
}

/// The registry value type a `PATH` was stored under.
#[derive(Debug, Clone, Copy, PartialEq, Eq, Structural)]
pub enum ValueKind {
    /// `REG_SZ`: stored literally, no expansion.
    Sz,
    /// `REG_EXPAND_SZ`: environment references expanded on read.
    ExpandSz,
}

/// Something worth reporting about a single `PATH` entry.
#[derive(Debug, Clone, Copy, PartialEq, Eq, Structural)]
pub enum Finding {
    /// The directory does not exist.
    Missing,
    /// The path exists but is a file, not a directory.
    NotADirectory,
    /// The same canonical path appears earlier in the composed order.
    Duplicate {
        /// Index of the earlier entry this duplicates.
        first_seen_at: usize,
    },
    /// An empty segment, usually a stray separator.
    Empty,
    /// Not absolute, so resolution depends on the current directory.
    Relative,
    /// Exists, but enumeration failed, typically denied by an ACL.
    Unreadable,
}

/// A class of analysis an audit run actually performed, so that an empty result stays
/// distinguishable from one that was never computed.
#[derive(Debug, Clone, Copy, PartialEq, Eq, Structural)]
pub enum Capability {
    /// `PATH` was read from both registry scopes and composed.
    Composition,
    /// Per-entry findings were evaluated.
    EntryFindings,
    /// Executables were enumerated and shadowing resolved.
    ShadowDetection,
    /// A shell was asked what it masks.
    ShellMasking,
}

/// The kind of shell construct that answers to a name before `PATH` is consulted.
#[derive(Debug, Clone, Copy, PartialEq, Eq, Structural)]
pub enum ShellConstruct {
    /// An alias, such as `sc` for `Set-Content`.
    Alias,
    /// A function, such as the built-in `more`.
    Function,
}

impl DeepView for Finding {
    type V = Finding;

    open spec fn deep_view(&self) -> Finding {
        *self
    }
}

impl DeepView for Capability {
    type V = Capability;

    open spec fn deep_view(&self) -> Capability {
        *self
    }
}

// ---- intercepts and interpreters ----

/// Something a shell resolves a name to before it ever searches `PATH`.
///
/// Every record names the interpreter that answered by absolute path, because the
/// verdict differs between interpreters on one machine.
#[derive(Debug, PartialEq, Eq)]
pub struct Intercept {
    /// Whether an alias or a function answers to the name.
    pub construct: ShellConstruct,
    /// What an alias points at. `None` for a function, which is its own definition.
    pub resolves_to: Option<String>,
    /// Absolute path of the interpreter that was asked.
    pub interpreter: String,
    /// Whether that interpreter loaded its user profile.
    pub profile_loaded: bool,
}

/// The model of an [`Intercept`].
pub ghost struct InterceptModel {
    pub construct: ShellConstruct,
    pub resolves_to: Option<Seq<char>>,
    pub interpreter: Seq<char>,
    pub profile_loaded: bool,
}

impl View for Intercept {
    type V = InterceptModel;

    open spec fn view(&self) -> InterceptModel {
        InterceptModel {
            construct: self.construct,
            resolves_to: self.resolves_to.deep_view(),
            interpreter: self.interpreter@,
            profile_loaded: self.profile_loaded,
        }
    }
}

impl DeepView for Intercept {
    type V = InterceptModel;

    open spec fn deep_view(&self) -> InterceptModel {
        self@
    }
}

impl Clone for Intercept {
    fn clone(&self) -> (copy: Self)
        ensures
            copy@ == self@,
    {
        Intercept {
            construct: self.construct,
            resolves_to: self.resolves_to.clone(),
            interpreter: self.interpreter.clone(),
            profile_loaded: self.profile_loaded,
        }
    }
}

/// An interpreter that was actually asked what it masks, and answered.
///
/// A name that has no record of it is known to be clear, rather than not checked.
#[derive(Debug, PartialEq, Eq)]
pub struct Interpreter {
    /// Absolute path of the interpreter.
    pub path: String,
    /// Whether it loaded its user profile.
    pub profile_loaded: bool,
}

/// The model of an [`Interpreter`].
pub ghost struct InterpreterModel {
    pub path: Seq<char>,
    pub profile_loaded: bool,
}

impl View for Interpreter {
    type V = InterpreterModel;

    open spec fn view(&self) -> InterpreterModel {
        InterpreterModel { path: self.path@, profile_loaded: self.profile_loaded }
    }
}

impl DeepView for Interpreter {
    type V = InterpreterModel;

    open spec fn deep_view(&self) -> InterpreterModel {
        self@
    }
}

impl Clone for Interpreter {
    fn clone(&self) -> (copy: Self)
        ensures
            copy@ == self@,
    {
        Interpreter { path: self.path.clone(), profile_loaded: self.profile_loaded }
    }
}

// ---- entries ----

/// One directory on the composed `PATH`.
#[derive(Debug, PartialEq, Eq)]
pub struct PathEntry {
    /// Zero-based position in the composed order.
    pub index: usize,
    /// Which scope contributed this entry.
    pub scope: PathScope,
    /// The value exactly as stored, before expansion.
    pub raw: String,
    /// The value after environment expansion, when it differs from `raw`.
    pub expanded: Option<String>,
    /// Registry value type, where the entry came from the registry.
    pub value_kind: Option<ValueKind>,
    /// Where this directory sits in the live process `PATH`, if at all.
    ///
    /// This number decides which copy of a program runs now; [`PathEntry::index`]
    /// decides which copy a freshly started process would run. They disagree because
    /// runtime injection goes to the front.
    pub process_position: Option<usize>,
    /// Everything noteworthy about this entry. Empty means healthy.
    pub findings: Vec<Finding>,
}

/// The model of a [`PathEntry`].
pub ghost struct EntryModel {
    pub index: usize,
    pub scope: PathScope,
    pub raw: Seq<char>,
    pub expanded: Option<Seq<char>>,
    pub value_kind: Option<ValueKind>,
    pub process_position: Option<usize>,
    pub findings: Seq<Finding>,
}

impl EntryModel {
    /// The directory Windows resolves: the expansion where there was one, otherwise
    /// the raw value.
    pub open spec fn effective(self) -> Seq<char> {
        match self.expanded {
            Some(expanded) => expanded,
            None => self.raw,
        }
    }

    /// Whether the running process can resolve programs from this directory.
    pub open spec fn is_live(self) -> bool {
        self.process_position is Some
    }
}

impl View for PathEntry {
    type V = EntryModel;

    open spec fn view(&self) -> EntryModel {
        EntryModel {
            index: self.index,
            scope: self.scope,
            raw: self.raw@,
            expanded: self.expanded.deep_view(),
            value_kind: self.value_kind,
            process_position: self.process_position,
            findings: self.findings@,
        }
    }
}

impl DeepView for PathEntry {
    type V = EntryModel;

    open spec fn deep_view(&self) -> EntryModel {
        self@
    }
}

impl Clone for PathEntry {
    fn clone(&self) -> (copy: Self)
        ensures
            copy@ == self@,
    {
        let findings = self.findings.clone();
        assert(findings@ =~= self.findings@);
        PathEntry {
            index: self.index,
            scope: self.scope,
            raw: self.raw.clone(),
            expanded: self.expanded.clone(),
            value_kind: self.value_kind,
            process_position: self.process_position,
            findings,
        }
    }
}

impl PathEntry {
    /// The directory Windows actually resolves for this entry: the expansion where
    /// there was one, otherwise the raw value.
    #[must_use]
    pub fn effective(&self) -> (directory: &str)
        ensures
            directory@ == self@.effective(),
    {
        match &self.expanded {
            Some(expanded) => expanded.as_str(),
            None => self.raw.as_str(),
        }
    }

    /// Whether the running process can resolve programs from this directory.
    #[must_use]
    pub fn is_live(&self) -> (live: bool)
        ensures
            live == self@.is_live(),
    {
        self.process_position.is_some()
    }
}

// ---- executables ----

/// One executable file found inside a `PATH` entry.
///
/// What it needs to know about that entry is repeated here, so that it can be
/// understood without the list of entries.
#[derive(Debug, PartialEq, Eq)]
pub struct Occurrence {
    /// Index of the [`PathEntry`] that contains it, in the full composed order.
    pub entry_index: usize,
    /// Which scope contributed the containing entry.
    pub scope: PathScope,
    /// The containing entry's [`PathEntry::process_position`].
    pub process_position: Option<usize>,
    /// The directory it was found in.
    pub directory: String,
    /// File name including extension, as it appears on disk.
    pub file_name: String,
    /// Reported rather than followed, so Store alias stubs stay distinguishable from
    /// real binaries.
    pub is_reparse_point: bool,
}

/// The model of an [`Occurrence`].
pub ghost struct OccurrenceModel {
    pub entry_index: usize,
    pub scope: PathScope,
    pub process_position: Option<usize>,
    pub directory: Seq<char>,
    pub file_name: Seq<char>,
    pub is_reparse_point: bool,
}

impl View for Occurrence {
    type V = OccurrenceModel;

    open spec fn view(&self) -> OccurrenceModel {
        OccurrenceModel {
            entry_index: self.entry_index,
            scope: self.scope,
            process_position: self.process_position,
            directory: self.directory@,
            file_name: self.file_name@,
            is_reparse_point: self.is_reparse_point,
        }
    }
}

impl DeepView for Occurrence {
    type V = OccurrenceModel;

    open spec fn deep_view(&self) -> OccurrenceModel {
        self@
    }
}

impl Clone for Occurrence {
    fn clone(&self) -> (copy: Self)
        ensures
            copy@ == self@,
    {
        Occurrence {
            entry_index: self.entry_index,
            scope: self.scope,
            process_position: self.process_position,
            directory: self.directory.clone(),
            file_name: self.file_name.clone(),
            is_reparse_point: self.is_reparse_point,
        }
    }
}

/// Every place one executable name resolves from, and what shells do with the name.
///
/// Recorded for every name found, not only the contested ones.
#[derive(Debug, PartialEq, Eq)]
pub struct Resolved {
    /// Lower-cased file stem, since Windows resolution is case-insensitive.
    pub stem: String,
    /// Every place the stem was found, in live resolution order: entries the running
    /// process can see first, in their process order, then entries it cannot, in
    /// composed order. Within one directory, `PATHEXT` order.
    pub occurrences: Vec<Occurrence>,
    /// What shells resolve this name to instead, one record per interpreter that
    /// masks it.
    pub intercepts: Vec<Intercept>,
}

/// The model of a [`Resolved`].
pub ghost struct ResolvedModel {
    pub stem: Seq<char>,
    pub occurrences: Seq<OccurrenceModel>,
    pub intercepts: Seq<InterceptModel>,
}

/// The position of the first occurrence the running process can reach.
pub open spec fn first_live(occurrences: Seq<OccurrenceModel>) -> Option<int>
    decreases occurrences.len(),
{
    if occurrences.len() == 0 {
        None
    } else {
        match first_live(occurrences.drop_last()) {
            Some(found) => Some(found),
            None => if occurrences.last().process_position is Some {
                Some(occurrences.len() - 1)
            } else {
                None
            },
        }
    }
}

/// The position of the first occurrence with the lowest composed index among those
/// that do not exist in the running process only.
pub open spec fn first_fresh(occurrences: Seq<OccurrenceModel>) -> Option<int>
    decreases occurrences.len(),
{
    if occurrences.len() == 0 {
        None
    } else {
        let earlier = first_fresh(occurrences.drop_last());
        if occurrences.last().scope == PathScope::ProcessOnly {
            earlier
        } else {
            match earlier {
                Some(found) if occurrences[found].entry_index
                    <= occurrences.last().entry_index => Some(found),
                _ => Some(occurrences.len() - 1),
            }
        }
    }
}

impl ResolvedModel {
    /// What the running process would execute.
    pub open spec fn live_winner(self) -> Option<OccurrenceModel> {
        match first_live(self.occurrences) {
            Some(found) => Some(self.occurrences[found]),
            None => None,
        }
    }

    /// What a newly started process would execute.
    pub open spec fn fresh_winner(self) -> Option<OccurrenceModel> {
        match first_fresh(self.occurrences) {
            Some(found) => Some(self.occurrences[found]),
            None => None,
        }
    }

    /// Whether the two winners exist and sit in different entries.
    pub open spec fn winner_depends_on_context(self) -> bool {
        match (self.live_winner(), self.fresh_winner()) {
            (Some(live), Some(fresh)) => live.entry_index != fresh.entry_index,
            _ => false,
        }
    }

    /// Whether more than one file answers to the name.
    pub open spec fn is_shadowed(self) -> bool {
        self.occurrences.len() > 1
    }

    /// Whether a consulted shell answers to the name.
    pub open spec fn is_intercepted(self) -> bool {
        self.intercepts.len() > 0
    }

    /// Whether several files contest the name inside one single entry.
    pub open spec fn is_pathext_only(self) -> bool {
        &&& self.occurrences.len() > 1
        &&& forall|i: int|
            0 <= i < self.occurrences.len() ==> (#[trigger] self.occurrences[i]).entry_index
                == self.occurrences[0].entry_index
    }
}

/// The first of some intercepts that a given interpreter reported, its path compared
/// without regard to the case of ASCII letters.
pub open spec fn first_intercept_by(
    intercepts: Seq<InterceptModel>,
    interpreter: Seq<char>,
) -> Option<InterceptModel>
    decreases intercepts.len(),
{
    if intercepts.len() == 0 {
        None
    } else if equal_ignoring_ascii_case(intercepts[0].interpreter, interpreter) {
        Some(intercepts[0])
    } else {
        first_intercept_by(intercepts.drop_first(), interpreter)
    }
}

impl View for Resolved {
    type V = ResolvedModel;

    open spec fn view(&self) -> ResolvedModel {
        ResolvedModel {
            stem: self.stem@,
            occurrences: self.occurrences.deep_view(),
            intercepts: self.intercepts.deep_view(),
        }
    }
}

impl DeepView for Resolved {
    type V = ResolvedModel;

    open spec fn deep_view(&self) -> ResolvedModel {
        self@
    }
}

impl Clone for Resolved {
    fn clone(&self) -> (copy: Self)
        ensures
            copy@ == self@,
    {
        let occurrences = self.occurrences.clone();
        let intercepts = self.intercepts.clone();
        assert(occurrences.deep_view() =~= self.occurrences.deep_view());
        assert(intercepts.deep_view() =~= self.intercepts.deep_view());
        Resolved { stem: self.stem.clone(), occurrences, intercepts }
    }
}

impl Resolved {
    /// What the running process would execute for this name.
    ///
    /// `None` when no occurrence is on the live `PATH`, which happens when every copy
    /// sits in a directory added to the registry since the process started.
    #[must_use]
    pub fn live_winner(&self) -> (winner: Option<&Occurrence>)
        ensures
            winner.deep_view() == self@.live_winner(),
    {
        let ghost all = self@.occurrences;
        let mut i: usize = 0;
        assert(all.take(0) =~= Seq::empty());
        while i < self.occurrences.len()
            invariant
                all == self@.occurrences,
                i <= self.occurrences.len(),
                first_live(all.take(i as int)) is None,
            decreases self.occurrences.len() - i,
        {
            assert(all.take(i + 1).drop_last() =~= all.take(i as int));
            assert(all[i as int] == self.occurrences@[i as int]@);
            if self.occurrences[i].process_position.is_some() {
                proof {
                    lemma_first_live_extends(all, i + 1);
                }
                return Some(&self.occurrences[i]);
            }
            i += 1;
        }
        assert(all.take(i as int) =~= all);
        None
    }

    /// What a newly started process would execute for this name.
    ///
    /// Process-only directories do not exist in a fresh process, so they are excluded;
    /// of the rest, the lowest composed index wins.
    #[must_use]
    pub fn fresh_winner(&self) -> (winner: Option<&Occurrence>)
        ensures
            winner.deep_view() == self@.fresh_winner(),
    {
        let ghost all = self@.occurrences;
        let mut best: Option<usize> = None;
        let mut i: usize = 0;
        assert(all.take(0) =~= Seq::empty());
        while i < self.occurrences.len()
            invariant
                all == self@.occurrences,
                i <= self.occurrences.len(),
                match best {
                    Some(found) => found < i && first_fresh(all.take(i as int)) == Some(
                        found as int,
                    ),
                    None => first_fresh(all.take(i as int)) is None,
                },
            decreases self.occurrences.len() - i,
        {
            assert(all.take(i + 1).drop_last() =~= all.take(i as int));
            assert(all[i as int] == self.occurrences@[i as int]@);
            if self.occurrences[i].scope != PathScope::ProcessOnly {
                match best {
                    Some(found) => {
                        assert(all[found as int] == self.occurrences@[found as int]@);
                        if self.occurrences[i].entry_index < self.occurrences[found].entry_index {
                            best = Some(i);
                        }
                    },
                    None => {
                        best = Some(i);
                    },
                }
            }
            i += 1;
        }
        assert(all.take(i as int) =~= all);
        match best {
            Some(found) => Some(&self.occurrences[found]),
            None => None,
        }
    }

    /// Whether the running process and a fresh one would run files from different
    /// entries. True only when both answers exist.
    #[must_use]
    pub fn winner_depends_on_context(&self) -> (depends: bool)
        ensures
            depends == self@.winner_depends_on_context(),
    {
        match (self.live_winner(), self.fresh_winner()) {
            (Some(live), Some(fresh)) => live.entry_index != fresh.entry_index,
            _ => false,
        }
    }

    /// Whether more than one file answers to this name.
    #[must_use]
    pub fn is_shadowed(&self) -> (shadowed: bool)
        ensures
            shadowed == self@.is_shadowed(),
    {
        self.occurrences.len() > 1
    }

    /// Whether any consulted shell answers to this name before `PATH` is searched.
    #[must_use]
    pub fn is_intercepted(&self) -> (intercepted: bool)
        ensures
            intercepted == self@.is_intercepted(),
    {
        self.intercepts.len() > 0
    }

    /// What one particular interpreter resolves this name to, if it masks it.
    ///
    /// `None` is only meaningful alongside [`AuditReport::consulted`]: consulted and
    /// `None` here means clear; not consulted means unknown.
    #[must_use]
    pub fn intercept_by(&self, interpreter: &str) -> (intercept: Option<&Intercept>)
        ensures
            intercept.deep_view() == first_intercept_by(self@.intercepts, interpreter@),
    {
        let ghost all = self@.intercepts;
        let mut i: usize = 0;
        assert(all.skip(0) =~= all);
        while i < self.intercepts.len()
            invariant
                all == self@.intercepts,
                i <= self.intercepts.len(),
                first_intercept_by(all, interpreter@) == first_intercept_by(
                    all.skip(i as int),
                    interpreter@,
                ),
            decreases self.intercepts.len() - i,
        {
            assert(all[i as int] == self.intercepts@[i as int]@);
            assert(all.skip(i as int).drop_first() =~= all.skip(i + 1));
            if eq_ignore_ascii_case(self.intercepts[i].interpreter.as_str(), interpreter) {
                return Some(&self.intercepts[i]);
            }
            i += 1;
        }
        None
    }

    /// Whether every occurrence sits in the same directory, making this a contest
    /// decided by `PATHEXT` order, which no reordering of `PATH` will change.
    #[must_use]
    pub fn is_pathext_only(&self) -> (only: bool)
        ensures
            only == self@.is_pathext_only(),
    {
        if self.occurrences.len() <= 1 {
            return false;
        }
        let mut i: usize = 1;
        while i < self.occurrences.len()
            invariant
                1 <= i <= self.occurrences.len(),
                forall|k: int|
                    0 <= k < i ==> (#[trigger] self@.occurrences[k]).entry_index
                        == self@.occurrences[0].entry_index,
            decreases self.occurrences.len() - i,
        {
            if self.occurrences[i].entry_index != self.occurrences[0].entry_index {
                assert(self@.occurrences[i as int].entry_index
                    != self@.occurrences[0].entry_index);
                return false;
            }
            i += 1;
        }
        true
    }
}

proof fn lemma_first_live_extends(occurrences: Seq<OccurrenceModel>, prefix: int)
    requires
        0 <= prefix <= occurrences.len(),
        first_live(occurrences.take(prefix)) is Some,
    ensures
        first_live(occurrences) == first_live(occurrences.take(prefix)),
    decreases occurrences.len(),
{
    if prefix < occurrences.len() {
        assert(occurrences.drop_last().take(prefix) =~= occurrences.take(prefix));
        lemma_first_live_extends(occurrences.drop_last(), prefix);
    } else {
        assert(occurrences.take(prefix) =~= occurrences);
    }
}

/// The live winner is the first occurrence the running process can reach: nothing
/// before it is reachable, and there is none only when nothing is reachable at all.
pub proof fn live_winner_is_the_first_reachable(occurrences: Seq<OccurrenceModel>)
    ensures
        match first_live(occurrences) {
            Some(found) => {
                &&& 0 <= found < occurrences.len()
                &&& occurrences[found].process_position is Some
                &&& forall|i: int|
                    0 <= i < found ==> (#[trigger] occurrences[i]).process_position is None
            },
            None => forall|i: int|
                0 <= i < occurrences.len() ==> (#[trigger] occurrences[i]).process_position
                    is None,
        },
    decreases occurrences.len(),
{
    if occurrences.len() > 0 {
        let shorter = occurrences.drop_last();
        live_winner_is_the_first_reachable(shorter);
        assert(forall|i: int| 0 <= i < shorter.len() ==> shorter[i] == occurrences[i]);
    }
}

/// The fresh winner is never process-only, no occurrence that is not process-only has
/// a lower composed index, and there is none only when every occurrence is
/// process-only.
pub proof fn fresh_winner_is_the_lowest_registry_index(occurrences: Seq<OccurrenceModel>)
    ensures
        match first_fresh(occurrences) {
            Some(found) => {
                &&& 0 <= found < occurrences.len()
                &&& occurrences[found].scope != PathScope::ProcessOnly
                &&& forall|i: int|
                    0 <= i < occurrences.len() && (#[trigger] occurrences[i]).scope
                        != PathScope::ProcessOnly ==> occurrences[found].entry_index
                        <= occurrences[i].entry_index
                &&& forall|i: int|
                    0 <= i < found && (#[trigger] occurrences[i]).scope != PathScope::ProcessOnly
                        ==> occurrences[found].entry_index < occurrences[i].entry_index
            },
            None => forall|i: int|
                0 <= i < occurrences.len() ==> (#[trigger] occurrences[i]).scope
                    == PathScope::ProcessOnly,
        },
    decreases occurrences.len(),
{
    if occurrences.len() > 0 {
        let shorter = occurrences.drop_last();
        fresh_winner_is_the_lowest_registry_index(shorter);
        assert(forall|i: int| 0 <= i < shorter.len() ==> shorter[i] == occurrences[i]);
    }
}

/// A contest inside one directory has no context in which another directory wins.
pub proof fn a_pathext_contest_has_one_winning_directory(resolved: ResolvedModel)
    requires
        resolved.is_pathext_only(),
    ensures
        !resolved.winner_depends_on_context(),
{
    live_winner_is_the_first_reachable(resolved.occurrences);
    fresh_winner_is_the_lowest_registry_index(resolved.occurrences);
}

/// A name found in one place only is not shadowed, is no `PATHEXT` contest, and cannot
/// depend on the context.
pub proof fn a_single_occurrence_is_uncontested(resolved: ResolvedModel)
    requires
        resolved.occurrences.len() == 1,
    ensures
        !resolved.is_shadowed(),
        !resolved.is_pathext_only(),
        !resolved.winner_depends_on_context(),
{
    live_winner_is_the_first_reachable(resolved.occurrences);
    fresh_winner_is_the_lowest_registry_index(resolved.occurrences);
}

// ---- reports ----

/// The result of one audit run.
#[derive(Debug, PartialEq, Eq)]
pub struct AuditReport {
    /// Every entry on the composed `PATH`, in order.
    pub entries: Vec<PathEntry>,
    /// Every executable name found, sorted by stem.
    pub executables: Vec<Resolved>,
    /// Interpreters that were asked what they mask, and answered.
    pub interpreters_consulted: Vec<Interpreter>,
    /// What this run actually computed.
    pub capabilities: Vec<Capability>,
}

/// The model of an [`AuditReport`].
pub ghost struct ReportModel {
    pub entries: Seq<EntryModel>,
    pub executables: Seq<ResolvedModel>,
    pub interpreters_consulted: Seq<InterpreterModel>,
    pub capabilities: Seq<Capability>,
}

/// Whether any of some entries carries a finding.
pub open spec fn any_finding(entries: Seq<EntryModel>) -> bool {
    exists|i: int| 0 <= i < entries.len() && (#[trigger] entries[i]).findings.len() > 0
}

impl ReportModel {
    /// The names more than one file answers to.
    pub open spec fn shadowed(self) -> Seq<ResolvedModel> {
        self.executables.filter(|resolved: ResolvedModel| resolved.is_shadowed())
    }

    /// Whether there is anything worth a non-zero exit code.
    pub open spec fn has_findings(self) -> bool {
        any_finding(self.entries) || self.shadowed().len() > 0
    }

    /// Whether a given interpreter was asked.
    pub open spec fn consulted(self, interpreter: Seq<char>) -> bool {
        exists|i: int|
            0 <= i < self.interpreters_consulted.len() && equal_ignoring_ascii_case(
                (#[trigger] self.interpreters_consulted[i]).path,
                interpreter,
            )
    }
}

impl View for AuditReport {
    type V = ReportModel;

    open spec fn view(&self) -> ReportModel {
        ReportModel {
            entries: self.entries.deep_view(),
            executables: self.executables.deep_view(),
            interpreters_consulted: self.interpreters_consulted.deep_view(),
            capabilities: self.capabilities@,
        }
    }
}

impl Default for AuditReport {
    /// A report that claims to have computed nothing.
    fn default() -> (report: Self)
        ensures
            report@.entries.len() == 0,
            report@.executables.len() == 0,
            report@.interpreters_consulted.len() == 0,
            report@.capabilities.len() == 0,
    {
        AuditReport {
            entries: Vec::new(),
            executables: Vec::new(),
            interpreters_consulted: Vec::new(),
            capabilities: Vec::new(),
        }
    }
}

impl Clone for AuditReport {
    fn clone(&self) -> (copy: Self)
        ensures
            copy@ == self@,
    {
        let entries = self.entries.clone();
        let executables = self.executables.clone();
        let interpreters_consulted = self.interpreters_consulted.clone();
        let capabilities = self.capabilities.clone();
        assert(entries.deep_view() =~= self.entries.deep_view());
        assert(executables.deep_view() =~= self.executables.deep_view());
        assert(interpreters_consulted.deep_view() =~= self.interpreters_consulted.deep_view());
        assert(capabilities@ =~= self.capabilities@);
        AuditReport { entries, executables, interpreters_consulted, capabilities }
    }
}

impl AuditReport {
    /// Whether the audit found anything worth a non-zero exit code.
    #[must_use]
    pub fn has_findings(&self) -> (found: bool)
        ensures
            found == self@.has_findings(),
    {
        let mut i: usize = 0;
        while i < self.entries.len()
            invariant
                i <= self.entries.len(),
                forall|k: int|
                    0 <= k < i ==> (#[trigger] self@.entries[k]).findings.len() == 0,
            decreases self.entries.len() - i,
        {
            if self.entries[i].findings.len() > 0 {
                assert(self@.entries[i as int].findings.len() > 0);
                return true;
            }
            i += 1;
        }
        let shadowed = self.shadowed();
        assert(shadowed.deep_view().len() == shadowed.len());
        shadowed.len() > 0
    }

    /// Only the names more than one file answers to.
    pub fn shadowed(&self) -> (shadowed: Vec<&Resolved>)
        ensures
            shadowed.deep_view() == self@.shadowed(),
    {
        let ghost all = self@.executables;
        let ghost contested = |resolved: ResolvedModel| resolved.is_shadowed();
        let mut shadowed: Vec<&Resolved> = Vec::new();
        let mut i: usize = 0;
        assert(all.take(0).filter(contested) =~= shadowed.deep_view()) by {
            reveal(Seq::filter);
        }
        while i < self.executables.len()
            invariant
                all == self@.executables,
                contested == (|resolved: ResolvedModel| resolved.is_shadowed()),
                i <= self.executables.len(),
                shadowed.deep_view() == all.take(i as int).filter(contested),
            decreases self.executables.len() - i,
        {
            let ghost before = shadowed.deep_view();
            assert(all[i as int] == self.executables@[i as int]@);
            assert(all.take(i + 1) =~= all.take(i as int).push(all[i as int]));
            proof {
                all.take(i as int).lemma_filter_push(all[i as int], contested);
            }
            if self.executables[i].is_shadowed() {
                shadowed.push(&self.executables[i]);
                assert(shadowed.deep_view() =~= before.push(all[i as int]));
            }
            i += 1;
        }
        assert(all.take(i as int) =~= all);
        shadowed
    }

    /// Whether this run performed a given class of analysis.
    #[must_use]
    pub fn computed(&self, capability: Capability) -> (computed: bool)
        ensures
            computed == self@.capabilities.contains(capability),
    {
        let mut i: usize = 0;
        while i < self.capabilities.len()
            invariant
                i <= self.capabilities.len(),
                forall|k: int| 0 <= k < i ==> self.capabilities@[k] != capability,
            decreases self.capabilities.len() - i,
        {
            if self.capabilities[i] == capability {
                return true;
            }
            i += 1;
        }
        false
    }

    /// Whether a given interpreter was asked what it masks.
    ///
    /// This is what turns an absent intercept into "asked and clear" rather than
    /// "never asked".
    #[must_use]
    pub fn consulted(&self, interpreter: &str) -> (consulted: bool)
        ensures
            consulted == self@.consulted(interpreter@),
    {
        let mut i: usize = 0;
        while i < self.interpreters_consulted.len()
            invariant
                i <= self.interpreters_consulted.len(),
                forall|k: int|
                    0 <= k < i ==> !equal_ignoring_ascii_case(
                        (#[trigger] self@.interpreters_consulted[k]).path,
                        interpreter@,
                    ),
            decreases self.interpreters_consulted.len() - i,
        {
            if eq_ignore_ascii_case(self.interpreters_consulted[i].path.as_str(), interpreter) {
                assert(equal_ignoring_ascii_case(
                    self@.interpreters_consulted[i as int].path,
                    interpreter@,
                ));
                return true;
            }
            i += 1;
        }
        false
    }
}

/// Errors that make an audit impossible.
#[derive(Debug)]
pub enum AuditError {
    /// A registry key could not be opened or read.
    Registry(String),
}

impl AuditError {
    /// The error as a message.
    pub fn to_string(&self) -> (message: String)
        ensures
            message@ == "cannot read PATH from the registry: "@ + self->0@,
    {
        let mut message = String::new();
        message.append("cannot read PATH from the registry: ");
        match self {
            AuditError::Registry(detail) => {
                message.append(detail.as_str());
            },
        }
        assert(message@ =~= "cannot read PATH from the registry: "@ + self->0@);
        message
    }
}

// ---- what the verdicts mean ----

/// What runs now is the first place listed that the running process can reach, and nothing
/// runs only where it can reach none.
pub proof fn the_first_reachable_place_runs_now(resolved: ResolvedModel)
    ensures
        match resolved.live_winner() {
            Some(winner) => exists|k: int|
                {
                    &&& 0 <= k < resolved.occurrences.len()
                    &&& #[trigger] resolved.occurrences[k] == winner
                    &&& winner.process_position is Some
                    &&& forall|j: int|
                        0 <= j < k ==> (#[trigger] resolved.occurrences[j]).process_position
                            is None
                },
            None => forall|k: int|
                0 <= k < resolved.occurrences.len() ==> (
                #[trigger] resolved.occurrences[k]).process_position is None,
        },
{
    live_winner_is_the_first_reachable(resolved.occurrences);
    if let Some(found) = first_live(resolved.occurrences) {
        assert(resolved.occurrences[found] == resolved.live_winner()->0);
    }
}

/// What a fresh process runs comes from the registry, from the lowest composed index at
/// which it lists the name, and is listed first among those of that index. A fresh process
/// runs nothing only where every place exists in the running process alone.
pub proof fn the_lowest_registry_index_runs_afresh(resolved: ResolvedModel)
    ensures
        match resolved.fresh_winner() {
            Some(winner) => exists|k: int|
                {
                    &&& 0 <= k < resolved.occurrences.len()
                    &&& #[trigger] resolved.occurrences[k] == winner
                    &&& winner.scope != PathScope::ProcessOnly
                    &&& forall|j: int|
                        0 <= j < resolved.occurrences.len() && (
                        #[trigger] resolved.occurrences[j]).scope != PathScope::ProcessOnly ==> {
                            &&& winner.entry_index <= resolved.occurrences[j].entry_index
                            &&& j < k ==> winner.entry_index < resolved.occurrences[j].entry_index
                        }
                },
            None => forall|k: int|
                0 <= k < resolved.occurrences.len() ==> (#[trigger] resolved.occurrences[k]).scope
                    == PathScope::ProcessOnly,
        },
{
    fresh_winner_is_the_lowest_registry_index(resolved.occurrences);
    if let Some(found) = first_fresh(resolved.occurrences) {
        assert(resolved.occurrences[found] == resolved.fresh_winner()->0);
    }
}

/// The winner depends on the context exactly when both winners exist and come from different
/// entries.
pub proof fn the_context_matters_when_the_winners_differ(resolved: ResolvedModel)
    ensures
        resolved.winner_depends_on_context() <==> {
            &&& resolved.live_winner() is Some
            &&& resolved.fresh_winner() is Some
            &&& resolved.live_winner()->0.entry_index != resolved.fresh_winner()->0.entry_index
        },
{
}

/// A name is shadowed when two places or more have it, a matter of `PATHEXT` when they are
/// all in one entry besides, and intercepted when there is any record of it.
pub proof fn these_names_are_contested(resolved: ResolvedModel)
    ensures
        resolved.is_shadowed() <==> resolved.occurrences.len() >= 2,
        resolved.is_pathext_only() <==> {
            &&& resolved.occurrences.len() >= 2
            &&& forall|i: int, j: int|
                0 <= i < resolved.occurrences.len() && 0 <= j < resolved.occurrences.len() ==> (
                #[trigger] resolved.occurrences[i]).entry_index == (
                #[trigger] resolved.occurrences[j]).entry_index
        },
        resolved.is_intercepted() <==> resolved.intercepts.len() >= 1,
{
}

/// The record found for an interpreter is the first that names it, letter case aside, and
/// none is found only where none names it.
pub proof fn the_first_record_of_an_interpreter_is_found(
    intercepts: Seq<InterceptModel>,
    interpreter: Seq<char>,
)
    ensures
        match first_intercept_by(intercepts, interpreter) {
            Some(found) => exists|k: int|
                {
                    &&& 0 <= k < intercepts.len()
                    &&& #[trigger] intercepts[k] == found
                    &&& equal_ignoring_ascii_case(found.interpreter, interpreter)
                    &&& forall|j: int|
                        0 <= j < k ==> !equal_ignoring_ascii_case(
                            (#[trigger] intercepts[j]).interpreter,
                            interpreter,
                        )
                },
            None => forall|k: int|
                0 <= k < intercepts.len() ==> !equal_ignoring_ascii_case(
                    (#[trigger] intercepts[k]).interpreter,
                    interpreter,
                ),
        },
    decreases intercepts.len(),
{
    if intercepts.len() > 0 {
        if equal_ignoring_ascii_case(intercepts[0].interpreter, interpreter) {
            assert(intercepts[0] == first_intercept_by(intercepts, interpreter)->0);
        } else {
            let rest = intercepts.drop_first();
            the_first_record_of_an_interpreter_is_found(rest, interpreter);
            if let Some(found) = first_intercept_by(rest, interpreter) {
                let k = choose|k: int|
                    {
                        &&& 0 <= k < rest.len()
                        &&& #[trigger] rest[k] == found
                        &&& equal_ignoring_ascii_case(found.interpreter, interpreter)
                        &&& forall|j: int|
                            0 <= j < k ==> !equal_ignoring_ascii_case(
                                (#[trigger] rest[j]).interpreter,
                                interpreter,
                            )
                    };
                assert(intercepts[k + 1] == found);
                assert forall|j: int| 0 <= j < k + 1 implies !equal_ignoring_ascii_case(
                    (#[trigger] intercepts[j]).interpreter,
                    interpreter,
                ) by {
                    if j > 0 {
                        assert(intercepts[j] == rest[j - 1]);
                    }
                }
            } else {
                assert forall|k: int| 0 <= k < intercepts.len() implies !equal_ignoring_ascii_case(
                    (#[trigger] intercepts[k]).interpreter,
                    interpreter,
                ) by {
                    if k > 0 {
                        assert(intercepts[k] == rest[k - 1]);
                    }
                }
            }
        }
    }
}

/// The shadowed names of a report are its names with two places or more, each of them and no
/// other.
pub proof fn the_shadowed_names_have_two_places(report: ReportModel, resolved: ResolvedModel)
    ensures
        report.shadowed().contains(resolved) <==> report.executables.contains(resolved)
            && resolved.occurrences.len() >= 2,
        report.shadowed().len() <= report.executables.len(),
{
    let contested = |one: ResolvedModel| one.is_shadowed();
    let all = report.executables;
    all.lemma_filter_len(contested);
    if report.shadowed().contains(resolved) {
        let k = choose|k: int| 0 <= k < report.shadowed().len() && report.shadowed()[k] == resolved;
        all.lemma_filter_pred(contested, k);
        all.lemma_filter_contains_rev(contested, resolved);
    }
    if all.contains(resolved) && resolved.occurrences.len() >= 2 {
        let i = choose|i: int| 0 <= i < all.len() && all[i] == resolved;
        all.lemma_filter_contains(contested, i);
    }
}

/// A report has something to tell exactly when an entry carries a finding or a name has two
/// places or more.
pub proof fn findings_and_shadows_are_worth_telling(report: ReportModel)
    ensures
        report.has_findings() <==> {
            ||| exists|i: int|
                0 <= i < report.entries.len() && (#[trigger] report.entries[i]).findings.len() > 0
            ||| exists|i: int|
                0 <= i < report.executables.len() && (
                #[trigger] report.executables[i]).occurrences.len() >= 2
        },
{
    let shadowed = report.shadowed();
    if shadowed.len() > 0 {
        the_shadowed_names_have_two_places(report, shadowed[0]);
        assert(shadowed.contains(shadowed[0]));
        let i = choose|i: int|
            0 <= i < report.executables.len() && report.executables[i] == shadowed[0];
        assert(report.executables[i].occurrences.len() >= 2);
    }
    if exists|i: int|
        0 <= i < report.executables.len() && (#[trigger] report.executables[i]).occurrences.len()
            >= 2 {
        let i = choose|i: int|
            0 <= i < report.executables.len() && (
            #[trigger] report.executables[i]).occurrences.len() >= 2;
        assert(report.executables.contains(report.executables[i]));
        the_shadowed_names_have_two_places(report, report.executables[i]);
    }
}

/// An interpreter counts as consulted exactly when the report lists it, letter case aside.
pub proof fn the_listed_interpreters_are_consulted(report: ReportModel, interpreter: Seq<char>)
    ensures
        report.consulted(interpreter) <==> exists|i: int|
            0 <= i < report.interpreters_consulted.len() && ascii_lowercase(
                (#[trigger] report.interpreters_consulted[i]).path,
            ) == ascii_lowercase(interpreter),
{
    assert forall|path: Seq<char>| #[trigger]
        equal_ignoring_ascii_case(path, interpreter) <==> ascii_lowercase(path)
            == ascii_lowercase(interpreter) by {
        equal_but_for_case_means_equal_in_lower_case(path, interpreter);
    }
    if report.consulted(interpreter) {
        let i = choose|i: int|
            0 <= i < report.interpreters_consulted.len() && equal_ignoring_ascii_case(
                (#[trigger] report.interpreters_consulted[i]).path,
                interpreter,
            );
        assert(ascii_lowercase(report.interpreters_consulted[i].path) == ascii_lowercase(
            interpreter,
        ));
    }
    if exists|i: int|
        0 <= i < report.interpreters_consulted.len() && ascii_lowercase(
            (#[trigger] report.interpreters_consulted[i]).path,
        ) == ascii_lowercase(interpreter) {
        let i = choose|i: int|
            0 <= i < report.interpreters_consulted.len() && ascii_lowercase(
                (#[trigger] report.interpreters_consulted[i]).path,
            ) == ascii_lowercase(interpreter);
        assert(equal_ignoring_ascii_case(report.interpreters_consulted[i].path, interpreter));
    }
}

} // verus!
