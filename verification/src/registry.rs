//! Turning a stored registry value into something `PATH`-shaped.
//!
//! Reading the registry itself is [`crate::winenv`]'s business, which knows nothing about
//! `PATH`. All this module does is ask for the right value from the right scope and
//! insist on a value kind that makes sense for a `PATH`.

use vstd::prelude::*;

use crate::report::{AuditError, ValueKind};
use crate::winenv::{self, reading, KindModel, Scope, ValueRead, ValueReadModel};

verus! {

/// The value name, spelled the way Windows spells it. Registry value names are
/// case-insensitive, so `PATH` and `Path` reach the same value.
pub const VALUE_NAME: &'static str = "Path";

/// A `PATH` value exactly as one registry scope stores it.
#[derive(Debug)]
pub struct ScopeValue {
    /// The stored text, separators included and nothing expanded.
    pub text: String,
    /// Whether Windows stored it as `REG_SZ` or `REG_EXPAND_SZ`.
    pub kind: ValueKind,
}

/// The model of a [`ScopeValue`].
pub ghost struct ScopeModel {
    pub text: Seq<char>,
    pub kind: ValueKind,
}

impl Clone for ScopeValue {
    fn clone(&self) -> (copy: Self)
        ensures
            copy@ == self@,
    {
        ScopeValue { text: self.text.clone(), kind: self.kind }
    }
}

impl View for ScopeValue {
    type V = ScopeModel;

    open spec fn view(&self) -> ScopeModel {
        ScopeModel { text: self.text@, kind: self.kind }
    }
}

impl DeepView for ScopeValue {
    type V = ScopeModel;

    open spec fn deep_view(&self) -> ScopeModel {
        self@
    }
}

/// The `PATH` that one scope stores, given what the registry said: the text as it is
/// stored, an absent value as an absence, and any kind but the two string kinds as an
/// error.
pub open spec fn scope_path(scope: Scope, said: ValueReadModel) -> Result<
    Option<ScopeModel>,
    Seq<char>,
> {
    match reading(scope, VALUE_NAME@, said) {
        Ok(Some(value)) => match value.kind {
            KindModel::Sz => Ok(Some(ScopeModel { text: value.text, kind: ValueKind::Sz })),
            KindModel::ExpandSz => Ok(
                Some(ScopeModel { text: value.text, kind: ValueKind::ExpandSz }),
            ),
            KindModel::Other(name) => Err(
                scope.value_path(VALUE_NAME@) + " is "@ + name
                    + ", expected REG_SZ or REG_EXPAND_SZ"@,
            ),
        },
        Ok(None) => Ok(None),
        Err(error) => Err(error.message()),
    }
}

/// The model of the outcome of reading a scope's `PATH`, an error by its detail.
pub open spec fn path_model(outcome: Result<Option<ScopeValue>, AuditError>) -> Result<
    Option<ScopeModel>,
    Seq<char>,
> {
    match outcome {
        Ok(value) => Ok(value.deep_view()),
        Err(error) => Err(error->0@),
    }
}

/// The `PATH` that one scope stores, given what the registry said, unexpanded and of a
/// string kind.
pub fn scope_value(scope: Scope, said: ValueRead) -> (outcome: Result<
    Option<ScopeValue>,
    AuditError,
>)
    ensures
        path_model(outcome) == scope_path(scope, said@),
{
    let value = match winenv::read(scope, VALUE_NAME, said) {
        Ok(Some(value)) => value,
        Ok(None) => {
            return Ok(None);
        },
        Err(error) => {
            return Err(AuditError::Registry(error.to_string()));
        },
    };
    let kind = match value.kind {
        winenv::ValueKind::Sz => ValueKind::Sz,
        winenv::ValueKind::ExpandSz => ValueKind::ExpandSz,
        winenv::ValueKind::Other(name) => {
            let mut detail = scope.value_location(VALUE_NAME);
            detail.append(" is ");
            detail.append(name.as_str());
            detail.append(", expected REG_SZ or REG_EXPAND_SZ");
            return Err(AuditError::Registry(detail));
        },
    };
    Ok(Some(ScopeValue { text: value.text, kind }))
}

/// Whether a registry may say something when asked for a value.
pub open spec fn may_store<S: Fn(Scope, &str) -> ValueRead>(
    stored: S,
    scope: Scope,
    name: Seq<char>,
    said: ValueReadModel,
) -> bool {
    exists|asked: &str, answer: ValueRead|
        #![trigger call_ensures(stored, (scope, asked), answer)]
        asked@ == name && answer@ == said && call_ensures(stored, (scope, asked), answer)
}

/// Whether a registry may be asked for any value.
pub open spec fn holds_values<S: Fn(Scope, &str) -> ValueRead>(stored: S) -> bool {
    forall|scope: Scope, name: &str| #[trigger] call_requires(stored, (scope, name))
}

/// Read the `PATH` of one scope: ask the registry for it, and see what it said.
pub fn read_scope<S: Fn(Scope, &str) -> ValueRead>(scope: Scope, stored: &S) -> (outcome: Result<
    Option<ScopeValue>,
    AuditError,
>)
    requires
        holds_values(*stored),
    ensures
        exists|said: ValueReadModel| #[trigger]
            may_store(*stored, scope, VALUE_NAME@, said) && path_model(outcome) == scope_path(
                scope,
                said,
            ),
{
    let said = stored(scope, VALUE_NAME);
    assert(may_store(*stored, scope, VALUE_NAME@, said@));
    scope_value(scope, said)
}

/// Read `HKLM\SYSTEM\CurrentControlSet\Control\Session Manager\Environment`.
///
/// `Ok(None)` means the key or value is simply not there, which is a fact about the
/// machine rather than a failure.
pub fn read_machine_path<S: Fn(Scope, &str) -> ValueRead>(stored: &S) -> (outcome: Result<
    Option<ScopeValue>,
    AuditError,
>)
    requires
        holds_values(*stored),
    ensures
        exists|said: ValueReadModel| #[trigger]
            may_store(*stored, Scope::Machine, VALUE_NAME@, said) && path_model(outcome)
                == scope_path(Scope::Machine, said),
{
    read_scope(Scope::Machine, stored)
}

/// Read `HKCU\Environment`.
///
/// A user with no `PATH` of their own is normal, and reported as `Ok(None)`.
pub fn read_user_path<S: Fn(Scope, &str) -> ValueRead>(stored: &S) -> (outcome: Result<
    Option<ScopeValue>,
    AuditError,
>)
    requires
        holds_values(*stored),
    ensures
        exists|said: ValueReadModel| #[trigger]
            may_store(*stored, Scope::User, VALUE_NAME@, said) && path_model(outcome)
                == scope_path(Scope::User, said),
{
    read_scope(Scope::User, stored)
}

/// A string value is the scope's `PATH` with its text as it is stored and its own kind, an
/// absent key or value is an absence, and every other kind and every refusal is an error.
pub proof fn only_string_values_make_a_path(
    scope: Scope,
    registry_type: Seq<char>,
    text: Seq<char>,
    reason: Seq<char>,
)
    ensures
        scope_path(
            scope,
            ValueReadModel::Present { registry_type: "REG_SZ"@, text: Ok(text) },
        ) == Ok::<Option<ScopeModel>, Seq<char>>(Some(ScopeModel { text, kind: ValueKind::Sz })),
        scope_path(
            scope,
            ValueReadModel::Present { registry_type: "REG_EXPAND_SZ"@, text: Ok(text) },
        ) == Ok::<Option<ScopeModel>, Seq<char>>(
            Some(ScopeModel { text, kind: ValueKind::ExpandSz }),
        ),
        registry_type != "REG_SZ"@ && registry_type != "REG_EXPAND_SZ"@ ==> scope_path(
            scope,
            ValueReadModel::Present { registry_type, text: Ok(text) },
        ) is Err,
        scope_path(scope, ValueReadModel::KeyAbsent) == Ok::<Option<ScopeModel>, Seq<char>>(None),
        scope_path(scope, ValueReadModel::ValueAbsent) == Ok::<Option<ScopeModel>, Seq<char>>(
            None,
        ),
        scope_path(scope, ValueReadModel::KeyRefused(reason)) is Err,
        scope_path(scope, ValueReadModel::ValueRefused(reason)) is Err,
        scope_path(
            scope,
            ValueReadModel::Present { registry_type, text: Err(reason) },
        ) is Err,
{
    reveal_strlit("REG_SZ");
    reveal_strlit("REG_EXPAND_SZ");
    assert("REG_SZ"@.len() != "REG_EXPAND_SZ"@.len());
}

/// Every error says where it happened and why.
pub proof fn an_unusable_path_says_where_and_why(
    scope: Scope,
    registry_type: Seq<char>,
    text: Seq<char>,
    reason: Seq<char>,
)
    ensures
        scope_path(scope, ValueReadModel::KeyRefused(reason)) == Err::<
            Option<ScopeModel>,
            Seq<char>,
        >(scope.key_path() + ": "@ + ("cannot open: "@ + reason)),
        scope_path(scope, ValueReadModel::ValueRefused(reason)) == Err::<
            Option<ScopeModel>,
            Seq<char>,
        >(scope.key_path() + seq!['\\'] + "Path"@ + ": "@ + ("cannot read: "@ + reason)),
        scope_path(
            scope,
            ValueReadModel::Present { registry_type, text: Err(reason) },
        ) == Err::<Option<ScopeModel>, Seq<char>>(
            scope.key_path() + seq!['\\'] + "Path"@ + ": "@ + ("cannot decode: "@ + reason),
        ),
        registry_type != "REG_SZ"@ && registry_type != "REG_EXPAND_SZ"@ ==> scope_path(
            scope,
            ValueReadModel::Present { registry_type, text: Ok(text) },
        ) == Err::<Option<ScopeModel>, Seq<char>>(
            scope.key_path() + seq!['\\'] + "Path"@ + " is "@ + registry_type
                + ", expected REG_SZ or REG_EXPAND_SZ"@,
        ),
{
    assert(scope.value_path(VALUE_NAME@) =~= scope.key_path() + seq!['\\'] + "Path"@);
}

} // verus!
