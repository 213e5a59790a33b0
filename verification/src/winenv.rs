//! Windows environment variables as the registry stores them.
//!
//! Nothing here knows about `PATH`: no splitting, no composition, no notion of a
//! directory. It answers one question, what is stored under a name in a scope and what
//! kind of value it is, and leaves every interpretation to the caller. What the registry
//! said arrives as a plain value; what that amounts to is decided here.
//!
//! Values come back unexpanded, with their kind alongside, so a caller can report the
//! stored form and the resolved form as the two separate facts they are.

use vstd::prelude::*;

use crate::text::same_text;

verus! {

/// Which environment block to read.
#[derive(Debug, Clone, Copy, PartialEq, Eq, Structural)]
pub enum Scope {
    /// `HKLM\SYSTEM\CurrentControlSet\Control\Session Manager\Environment`
    Machine,
    /// `HKCU\Environment`
    User,
}

impl Scope {
    /// The subkey holding this block, relative to its hive.
    pub open spec fn subkey_text(self) -> Seq<char> {
        match self {
            Scope::Machine => "SYSTEM\\CurrentControlSet\\Control\\Session Manager\\Environment"@,
            Scope::User => "Environment"@,
        }
    }

    /// The hive's short name.
    pub open spec fn hive_text(self) -> Seq<char> {
        match self {
            Scope::Machine => "HKLM"@,
            Scope::User => "HKCU"@,
        }
    }

    /// The full path of the key holding this block.
    pub open spec fn key_path(self) -> Seq<char> {
        self.hive_text().push('\\') + self.subkey_text()
    }

    /// The full path of a value in this block.
    pub open spec fn value_path(self, name: Seq<char>) -> Seq<char> {
        self.key_path().push('\\') + name
    }

    /// The subkey holding this block, relative to its hive.
    #[must_use]
    pub fn subkey(self) -> (subkey: &'static str)
        ensures
            subkey@ == self.subkey_text(),
    {
        match self {
            Scope::Machine => "SYSTEM\\CurrentControlSet\\Control\\Session Manager\\Environment",
            Scope::User => "Environment",
        }
    }

    /// The hive's short name, for error messages.
    #[must_use]
    pub fn hive(self) -> (hive: &'static str)
        ensures
            hive@ == self.hive_text(),
    {
        match self {
            Scope::Machine => "HKLM",
            Scope::User => "HKCU",
        }
    }

    /// The full path of the key holding this block.
    #[must_use]
    pub fn to_string(&self) -> (path: String)
        ensures
            path@ == self.key_path(),
    {
        let mut path = self.hive().to_owned();
        path.push('\\');
        path.append(self.subkey());
        path
    }

    /// The full path of a value in this block.
    #[must_use]
    pub fn value_location(self, name: &str) -> (path: String)
        ensures
            path@ == self.value_path(name@),
    {
        let mut path = self.to_string();
        path.push('\\');
        path.append(name);
        path
    }
}

/// The registry type a value was stored under.
///
/// Only the two string kinds an environment variable should ever use are named. Whether
/// anything else is a problem depends on what the caller wanted.
#[derive(Debug, PartialEq, Eq)]
pub enum ValueKind {
    /// `REG_SZ`: stored literally, no expansion.
    Sz,
    /// `REG_EXPAND_SZ`: the caller is expected to expand `%NAME%` references.
    ExpandSz,
    /// Something else, carrying the registry type name for diagnostics.
    Other(String),
}

/// The model of a [`ValueKind`].
pub ghost enum KindModel {
    Sz,
    ExpandSz,
    Other(Seq<char>),
}

impl View for ValueKind {
    type V = KindModel;

    open spec fn view(&self) -> KindModel {
        match self {
            ValueKind::Sz => KindModel::Sz,
            ValueKind::ExpandSz => KindModel::ExpandSz,
            ValueKind::Other(name) => KindModel::Other(name@),
        }
    }
}

impl KindModel {
    /// The registry's name for a kind.
    pub open spec fn name(self) -> Seq<char> {
        match self {
            KindModel::Sz => "REG_SZ"@,
            KindModel::ExpandSz => "REG_EXPAND_SZ"@,
            KindModel::Other(name) => name,
        }
    }
}

/// The kind that goes by a registry type name.
pub open spec fn kind_named(registry_type: Seq<char>) -> KindModel {
    if registry_type == "REG_SZ"@ {
        KindModel::Sz
    } else if registry_type == "REG_EXPAND_SZ"@ {
        KindModel::ExpandSz
    } else {
        KindModel::Other(registry_type)
    }
}

/// A kind's name is the name it was recognised by.
pub proof fn a_kind_keeps_its_name(registry_type: Seq<char>)
    ensures
        kind_named(registry_type).name() == registry_type,
{
}

impl Clone for ValueKind {
    fn clone(&self) -> (copy: Self)
        ensures
            copy@ == self@,
    {
        match self {
            ValueKind::Sz => ValueKind::Sz,
            ValueKind::ExpandSz => ValueKind::ExpandSz,
            ValueKind::Other(name) => ValueKind::Other(name.clone()),
        }
    }
}

impl ValueKind {
    /// The kind that goes by a registry type name.
    pub fn named(registry_type: String) -> (kind: Self)
        ensures
            kind@ == kind_named(registry_type@),
    {
        if same_text(registry_type.as_str(), "REG_SZ") {
            ValueKind::Sz
        } else if same_text(registry_type.as_str(), "REG_EXPAND_SZ") {
            ValueKind::ExpandSz
        } else {
            ValueKind::Other(registry_type)
        }
    }

    /// The registry's name for this kind.
    #[must_use]
    pub fn to_string(&self) -> (name: String)
        ensures
            name@ == self@.name(),
    {
        match self {
            ValueKind::Sz => "REG_SZ".to_owned(),
            ValueKind::ExpandSz => "REG_EXPAND_SZ".to_owned(),
            ValueKind::Other(name) => name.clone(),
        }
    }
}

/// One environment variable exactly as the registry stores it.
#[derive(Debug, PartialEq, Eq)]
pub struct Value {
    /// The stored text, unexpanded.
    pub text: String,
    /// The registry type it was stored under.
    pub kind: ValueKind,
}

/// The model of a [`Value`].
pub ghost struct ValueModel {
    pub text: Seq<char>,
    pub kind: KindModel,
}

impl View for Value {
    type V = ValueModel;

    open spec fn view(&self) -> ValueModel {
        ValueModel { text: self.text@, kind: self.kind@ }
    }
}

impl Clone for Value {
    fn clone(&self) -> (copy: Self)
        ensures
            copy@ == self@,
    {
        Value { text: self.text.clone(), kind: self.kind.clone() }
    }
}

/// A registry read that could not be completed.
#[derive(Debug)]
pub enum Error {
    /// A key or value could not be opened, read, or decoded.
    Registry {
        /// What was being read, for the message.
        location: String,
        /// The underlying reason.
        detail: String,
    },
}

/// The model of an [`Error`].
pub ghost struct ErrorModel {
    pub location: Seq<char>,
    pub detail: Seq<char>,
}

impl View for Error {
    type V = ErrorModel;

    open spec fn view(&self) -> ErrorModel {
        match self {
            Error::Registry { location, detail } => ErrorModel {
                location: location@,
                detail: detail@,
            },
        }
    }
}

impl ErrorModel {
    /// The message an error gives.
    pub open spec fn message(self) -> Seq<char> {
        self.location + ": "@ + self.detail
    }
}

impl Error {
    /// The message of this error.
    #[must_use]
    pub fn to_string(&self) -> (message: String)
        ensures
            message@ == self@.message(),
    {
        match self {
            Error::Registry { location, detail } => {
                let mut message = location.clone();
                message.append(": ");
                message.append(detail.as_str());
                message
            },
        }
    }
}

/// What the registry said when asked for one value.
#[derive(Debug)]
pub enum ValueRead {
    /// The scope's key is not there.
    KeyAbsent,
    /// The scope's key is there but would not open, for this reason.
    KeyRefused(String),
    /// The key is there, but holds no such value.
    ValueAbsent,
    /// The value is there but could not be read, for this reason.
    ValueRefused(String),
    /// The value was read.
    Present {
        /// The name of the registry type it is stored under.
        registry_type: String,
        /// Its text, decoded but not expanded, or why it could not be decoded.
        text: Result<String, String>,
    },
}

/// The model of a [`ValueRead`].
pub ghost enum ValueReadModel {
    KeyAbsent,
    KeyRefused(Seq<char>),
    ValueAbsent,
    ValueRefused(Seq<char>),
    Present { registry_type: Seq<char>, text: Result<Seq<char>, Seq<char>> },
}

impl View for ValueRead {
    type V = ValueReadModel;

    open spec fn view(&self) -> ValueReadModel {
        match self {
            ValueRead::KeyAbsent => ValueReadModel::KeyAbsent,
            ValueRead::KeyRefused(reason) => ValueReadModel::KeyRefused(reason@),
            ValueRead::ValueAbsent => ValueReadModel::ValueAbsent,
            ValueRead::ValueRefused(reason) => ValueReadModel::ValueRefused(reason@),
            ValueRead::Present { registry_type, text } => ValueReadModel::Present {
                registry_type: registry_type@,
                text: match text {
                    Ok(decoded) => Ok(decoded@),
                    Err(reason) => Err(reason@),
                },
            },
        }
    }
}

/// What asking for a value amounts to. That the key or the value is not there is a fact
/// about the machine rather than a failure; the kind and the text are reported as they
/// are stored.
pub open spec fn reading(scope: Scope, name: Seq<char>, said: ValueReadModel) -> Result<
    Option<ValueModel>,
    ErrorModel,
> {
    match said {
        ValueReadModel::KeyAbsent => Ok(None),
        ValueReadModel::KeyRefused(reason) => Err(
            ErrorModel { location: scope.key_path(), detail: "cannot open: "@ + reason },
        ),
        ValueReadModel::ValueAbsent => Ok(None),
        ValueReadModel::ValueRefused(reason) => Err(
            ErrorModel { location: scope.value_path(name), detail: "cannot read: "@ + reason },
        ),
        ValueReadModel::Present { registry_type, text } => match text {
            Ok(decoded) => Ok(Some(ValueModel { text: decoded, kind: kind_named(registry_type) })),
            Err(reason) => Err(
                ErrorModel {
                    location: scope.value_path(name),
                    detail: "cannot decode: "@ + reason,
                },
            ),
        },
    }
}

/// The model of the outcome of reading a value.
pub open spec fn read_model(outcome: Result<Option<Value>, Error>) -> Result<
    Option<ValueModel>,
    ErrorModel,
> {
    match outcome {
        Ok(Some(value)) => Ok(Some(value@)),
        Ok(None) => Ok(None),
        Err(error) => Err(error@),
    }
}

/// An error at a place, with a reason behind a few words on what failed.
fn failure(location: String, what: &str, reason: &str) -> (error: Error)
    ensures
        error@ == (ErrorModel { location: location@, detail: what@ + reason@ }),
{
    let mut detail = what.to_owned();
    detail.append(reason);
    Error::Registry { location, detail }
}

/// One environment variable, given what the registry said when asked for it.
///
/// `Ok(None)` means that the key or the value simply is not there.
///
/// # Errors
///
/// [`Error::Registry`] when the key exists but cannot be opened, or the value exists but
/// cannot be read or decoded.
pub fn read(scope: Scope, name: &str, said: ValueRead) -> (outcome: Result<Option<Value>, Error>)
    ensures
        read_model(outcome) == reading(scope, name@, said@),
{
    match said {
        ValueRead::KeyAbsent => Ok(None),
        ValueRead::KeyRefused(reason) => Err(
            failure(scope.to_string(), "cannot open: ", reason.as_str()),
        ),
        ValueRead::ValueAbsent => Ok(None),
        ValueRead::ValueRefused(reason) => Err(
            failure(scope.value_location(name), "cannot read: ", reason.as_str()),
        ),
        ValueRead::Present { registry_type, text } => match text {
            Ok(decoded) => Ok(Some(Value { text: decoded, kind: ValueKind::named(registry_type) })),
            Err(reason) => Err(
                failure(scope.value_location(name), "cannot decode: ", reason.as_str()),
            ),
        },
    }
}

/// What the registry said when asked for the names of a scope's values.
#[derive(Debug)]
pub enum NamesRead {
    /// The scope's key is not there.
    KeyAbsent,
    /// The scope's key is there but would not open, for this reason.
    KeyRefused(String),
    /// The names in the order they were handed over, with the reason in place of one that
    /// could not be had.
    Listed(Vec<Result<String, String>>),
}

/// The reason given for the first name that could not be had.
pub open spec fn first_reason(items: Seq<Result<String, String>>) -> Option<Seq<char>>
    decreases items.len(),
{
    if items.len() == 0 {
        None
    } else {
        match items[0] {
            Ok(_) => first_reason(items.drop_first()),
            Err(reason) => Some(reason@),
        }
    }
}

/// The names that were had.
pub open spec fn names_had(items: Seq<Result<String, String>>) -> Seq<Seq<char>> {
    Seq::new(items.len(), |i: int| items[i]->Ok_0@)
}

/// What asking for the names of a scope's values amounts to: the first failure fails the
/// whole.
pub open spec fn naming(scope: Scope, said: NamesRead) -> Result<Seq<Seq<char>>, ErrorModel> {
    match said {
        NamesRead::KeyAbsent => Ok(Seq::empty()),
        NamesRead::KeyRefused(reason) => Err(
            ErrorModel { location: scope.key_path(), detail: "cannot open: "@ + reason@ },
        ),
        NamesRead::Listed(items) => match first_reason(items@) {
            Some(reason) => Err(
                ErrorModel { location: scope.key_path(), detail: "cannot enumerate: "@ + reason },
            ),
            None => Ok(names_had(items@)),
        },
    }
}

/// Every variable name defined in a scope, in the order the registry returns them, given
/// what it said when asked for them.
///
/// `Ok(vec![])` when the key is absent.
///
/// # Errors
///
/// [`Error::Registry`] when the key exists but cannot be opened or enumerated.
pub fn names(scope: Scope, said: NamesRead) -> (outcome: Result<Vec<String>, Error>)
    ensures
        match (outcome, naming(scope, said)) {
            (Ok(names), Ok(model)) => names.deep_view() == model,
            (Err(error), Err(model)) => error@ == model,
            _ => false,
        },
{
    match said {
        NamesRead::KeyAbsent => {
            let none: Vec<String> = Vec::new();
            assert(none.deep_view() =~= Seq::empty());
            Ok(none)
        },
        NamesRead::KeyRefused(reason) => Err(
            failure(scope.to_string(), "cannot open: ", reason.as_str()),
        ),
        NamesRead::Listed(items) => {
            let mut names: Vec<String> = Vec::new();
            let mut i: usize = 0;
            assert(items@.skip(0) =~= items@);
            while i < items.len()
                invariant
                    said == NamesRead::Listed(items),
                    i <= items.len(),
                    names.deep_view() =~= names_had(items@).take(i as int),
                    first_reason(items@) == first_reason(items@.skip(i as int)),
                decreases items.len() - i,
            {
                let ghost before = names.deep_view();
                assert(items@.skip(i as int).drop_first() =~= items@.skip(i + 1));
                match &items[i] {
                    Ok(name) => {
                        names.push(name.clone());
                        assert(names.deep_view() =~= before.push(name@));
                    },
                    Err(reason) => {
                        return Err(
                            failure(scope.to_string(), "cannot enumerate: ", reason.as_str()),
                        );
                    },
                }
                i += 1;
            }
            Ok(names)
        },
    }
}

/// A value that could be read comes back with its text as it is stored and the kind its
/// type name stands for; that the key or the value is not there is no error; and every
/// refusal is one, with its reason at the end of the message.
pub proof fn a_value_comes_back_as_it_is_stored(
    scope: Scope,
    name: Seq<char>,
    registry_type: Seq<char>,
    text: Seq<char>,
    reason: Seq<char>,
)
    ensures
        ({
            let outcome = reading(
                scope,
                name,
                ValueReadModel::Present { registry_type, text: Ok(text) },
            );
            &&& outcome is Ok
            &&& outcome->Ok_0 is Some
            &&& outcome->Ok_0->0.text == text
            &&& outcome->Ok_0->0.kind.name() == registry_type
            &&& outcome->Ok_0->0.kind == KindModel::Sz <==> registry_type == "REG_SZ"@
            &&& outcome->Ok_0->0.kind == KindModel::ExpandSz <==> registry_type
                == "REG_EXPAND_SZ"@
        }),
        reading(scope, name, ValueReadModel::KeyAbsent) == Ok::<Option<ValueModel>, ErrorModel>(
            None,
        ),
        reading(scope, name, ValueReadModel::ValueAbsent) == Ok::<Option<ValueModel>, ErrorModel>(
            None,
        ),
        ({
            let key = reading(scope, name, ValueReadModel::KeyRefused(reason));
            let value = reading(scope, name, ValueReadModel::ValueRefused(reason));
            let decoding = reading(
                scope,
                name,
                ValueReadModel::Present { registry_type, text: Err(reason) },
            );
            &&& key is Err && reason.is_suffix_of(key->Err_0.detail)
            &&& value is Err && reason.is_suffix_of(value->Err_0.detail)
            &&& decoding is Err && reason.is_suffix_of(decoding->Err_0.detail)
            &&& key->Err_0.location == scope.key_path()
            &&& value->Err_0.location == scope.key_path() + seq!['\\'] + name
            &&& decoding->Err_0.location == scope.key_path() + seq!['\\'] + name
        }),
{
    reveal_strlit("REG_SZ");
    reveal_strlit("REG_EXPAND_SZ");
    let open = "cannot open: "@ + reason;
    let read = "cannot read: "@ + reason;
    let decode = "cannot decode: "@ + reason;
    assert(open.subrange(open.len() - reason.len(), open.len() as int) =~= reason);
    assert(read.subrange(read.len() - reason.len(), read.len() as int) =~= reason);
    assert(decode.subrange(decode.len() - reason.len(), decode.len() as int) =~= reason);
    assert(scope.value_path(name) =~= scope.key_path() + seq!['\\'] + name);
    assert("REG_SZ"@.len() != "REG_EXPAND_SZ"@.len());
}

/// A listing without failures gives every name, in the order they were handed over; and one
/// with failures fails for the reason of the first.
pub proof fn the_first_failure_fails_a_listing(
    scope: Scope,
    said: NamesRead,
    items: Seq<Result<String, String>>,
    k: int,
)
    requires
        said matches NamesRead::Listed(list) && list@ == items,
    ensures
        (forall|i: int| 0 <= i < items.len() ==> #[trigger] items[i] is Ok) ==> {
            &&& naming(scope, said) is Ok
            &&& naming(scope, said)->Ok_0.len() == items.len()
            &&& forall|i: int|
                0 <= i < items.len() ==> #[trigger] naming(scope, said)->Ok_0[i]
                    == items[i]->Ok_0@
        },
        0 <= k < items.len() && items[k] is Err && (forall|i: int|
            0 <= i < k ==> #[trigger] items[i] is Ok) ==> {
            &&& naming(scope, said) is Err
            &&& naming(scope, said)->Err_0.location == scope.key_path()
            &&& naming(scope, said)->Err_0.detail == "cannot enumerate: "@ + items[k]->Err_0@
        },
{
    lemma_first_reason(items, k);
}

proof fn lemma_first_reason(items: Seq<Result<String, String>>, k: int)
    ensures
        (forall|i: int| 0 <= i < items.len() ==> #[trigger] items[i] is Ok) ==> first_reason(items)
            is None,
        0 <= k < items.len() && items[k] is Err && (forall|i: int|
            0 <= i < k ==> #[trigger] items[i] is Ok) ==> first_reason(items) == Some(
            items[k]->Err_0@,
        ),
    decreases items.len(),
{
    if items.len() > 0 {
        let rest = items.drop_first();
        lemma_first_reason(rest, k - 1);
        if forall|i: int| 0 <= i < items.len() ==> #[trigger] items[i] is Ok {
            assert forall|i: int| 0 <= i < rest.len() implies #[trigger] rest[i] is Ok by {
                assert(items[i + 1] is Ok);
            }
            assert(items[0] is Ok);
        }
        if 0 < k < items.len() && items[k] is Err && (forall|i: int|
            0 <= i < k ==> #[trigger] items[i] is Ok) {
            assert(items[0] is Ok);
            assert(rest[k - 1] == items[k]);
            assert forall|i: int| 0 <= i < k - 1 implies #[trigger] rest[i] is Ok by {
                assert(items[i + 1] is Ok);
            }
        }
    }
}

/// The two scopes live under different hives.
pub proof fn the_scopes_have_their_own_keys()
    ensures
        Scope::Machine.key_path() == "HKLM"@ + seq!['\\']
            + "SYSTEM\\CurrentControlSet\\Control\\Session Manager\\Environment"@,
        Scope::User.key_path() == "HKCU"@ + seq!['\\'] + "Environment"@,
{
    assert(Scope::Machine.key_path() =~= "HKLM"@ + seq!['\\']
        + "SYSTEM\\CurrentControlSet\\Control\\Session Manager\\Environment"@);
    assert(Scope::User.key_path() =~= "HKCU"@ + seq!['\\'] + "Environment"@);
}

} // verus!
