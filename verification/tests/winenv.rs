//! What a registry read amounts to.

use pathdoc::registry::{read_machine_path, read_user_path, scope_value};
use pathdoc::winenv::{names, read, NamesRead, Scope, Value, ValueKind, ValueRead};
use pathdoc::AuditError;

/// A registry whose machine scope defines `Path` and whose user scope has no key.
fn registry(scope: Scope, name: &str) -> ValueRead {
    match scope {
        Scope::Machine if name.eq_ignore_ascii_case("Path") => ValueRead::Present {
            registry_type: "REG_EXPAND_SZ".to_owned(),
            text: Ok(r"%SystemRoot%\system32;C:\tools".to_owned()),
        },
        Scope::Machine => ValueRead::ValueAbsent,
        Scope::User => ValueRead::KeyAbsent,
    }
}

#[test]
fn scopes_name_the_keys_windows_uses() {
    assert_eq!(
        Scope::Machine.subkey(),
        r"SYSTEM\CurrentControlSet\Control\Session Manager\Environment"
    );
    assert_eq!(Scope::User.subkey(), "Environment");
    assert_eq!(Scope::Machine.hive(), "HKLM");
    assert_eq!(Scope::User.hive(), "HKCU");
}

#[test]
fn a_scope_displays_as_its_full_key_path() {
    assert_eq!(Scope::User.to_string(), r"HKCU\Environment");
}

#[test]
fn value_kinds_display_as_their_registry_names() {
    // Somebody reading a message from this crate probably has regedit open.
    assert_eq!(ValueKind::Sz.to_string(), "REG_SZ");
    assert_eq!(ValueKind::ExpandSz.to_string(), "REG_EXPAND_SZ");
    assert_eq!(
        ValueKind::Other("REG_DWORD".to_owned()).to_string(),
        "REG_DWORD"
    );
}

#[test]
fn a_name_that_is_not_there_is_absent_rather_than_an_error() {
    for scope in [Scope::Machine, Scope::User] {
        let said = registry(scope, "pathdoc-no-such-variable");
        match read(scope, "pathdoc-no-such-variable", said) {
            Ok(value) => assert_eq!(value, None),
            Err(err) => panic!("expected absence, got an error: {}", err.to_string()),
        }
    }
}

#[test]
fn the_machine_path_is_readable_as_a_string_value() {
    let value = match read(Scope::Machine, "Path", registry(Scope::Machine, "Path")) {
        Ok(Some(value)) => value,
        Ok(None) => panic!("the machine scope has no Path"),
        Err(err) => panic!("cannot read the machine Path: {}", err.to_string()),
    };

    assert!(!value.text.is_empty());
    assert!(
        matches!(value.kind, ValueKind::Sz | ValueKind::ExpandSz),
        "expected a string kind, got {}",
        value.kind.to_string()
    );
}

#[test]
fn values_come_back_unexpanded() {
    let value = match read(Scope::Machine, "Path", registry(Scope::Machine, "Path")) {
        Ok(Some(value)) => value,
        other => panic!("cannot read the machine Path: {other:?}"),
    };

    assert_eq!(
        value,
        Value {
            text: r"%SystemRoot%\system32;C:\tools".to_owned(),
            kind: ValueKind::ExpandSz,
        }
    );
}

#[test]
fn a_value_name_is_matched_case_insensitively() {
    let lower = read(Scope::Machine, "path", registry(Scope::Machine, "path"));
    let mixed = read(Scope::Machine, "Path", registry(Scope::Machine, "Path"));

    match (lower, mixed) {
        (Ok(lower), Ok(mixed)) => {
            assert!(lower.is_some());
            assert_eq!(lower, mixed);
        }
        other => panic!("reads disagreed: {other:?}"),
    }
}

#[test]
fn names_can_be_enumerated() {
    let listed = NamesRead::Listed(vec![Ok("TEMP".to_owned()), Ok("Path".to_owned())]);
    let machine = match names(Scope::Machine, listed) {
        Ok(names) => names,
        Err(err) => panic!("cannot enumerate: {}", err.to_string()),
    };
    assert!(
        machine.iter().any(|name| name.eq_ignore_ascii_case("path")),
        "the machine scope defines no Path; got {machine:?}"
    );
    assert_eq!(machine, vec!["TEMP", "Path"]);

    // A profile with no variables of its own is perfectly legal.
    match names(Scope::User, NamesRead::KeyAbsent) {
        Ok(names) => assert!(names.is_empty()),
        Err(err) => panic!("cannot enumerate: {}", err.to_string()),
    }
}

fn message(said: ValueRead) -> String {
    match read(Scope::User, "TEMP", said) {
        Ok(value) => panic!("expected an error, got {value:?}"),
        Err(err) => err.to_string(),
    }
}

#[test]
fn every_failed_read_says_where_and_why() {
    assert_eq!(
        message(ValueRead::KeyRefused("denied".to_owned())),
        r"HKCU\Environment: cannot open: denied"
    );
    assert_eq!(
        message(ValueRead::ValueRefused("gone bad".to_owned())),
        r"HKCU\Environment\TEMP: cannot read: gone bad"
    );
    assert_eq!(
        message(ValueRead::Present {
            registry_type: "REG_SZ".to_owned(),
            text: Err("odd length".to_owned()),
        }),
        r"HKCU\Environment\TEMP: cannot decode: odd length"
    );
}

#[test]
fn the_first_name_that_cannot_be_had_fails_the_listing() {
    let listed = NamesRead::Listed(vec![
        Ok("TEMP".to_owned()),
        Err("first".to_owned()),
        Err("second".to_owned()),
    ]);
    match names(Scope::User, listed) {
        Ok(names) => panic!("expected an error, got {names:?}"),
        Err(err) => assert_eq!(
            err.to_string(),
            r"HKCU\Environment: cannot enumerate: first"
        ),
    }
    match names(Scope::Machine, NamesRead::KeyRefused("no".to_owned())) {
        Ok(names) => panic!("expected an error, got {names:?}"),
        Err(err) => assert_eq!(
            err.to_string(),
            r"HKLM\SYSTEM\CurrentControlSet\Control\Session Manager\Environment: cannot open: no"
        ),
    }
}

#[test]
fn a_path_of_another_kind_is_an_error() {
    let said = ValueRead::Present {
        registry_type: "REG_DWORD".to_owned(),
        text: Ok("1".to_owned()),
    };
    match scope_value(Scope::User, said) {
        Ok(value) => panic!("expected an error, got {value:?}"),
        Err(AuditError::Registry(detail)) => assert_eq!(
            detail,
            r"HKCU\Environment\Path is REG_DWORD, expected REG_SZ or REG_EXPAND_SZ"
        ),
    }
}

#[test]
fn an_unreadable_path_carries_the_whole_message() {
    match scope_value(Scope::User, ValueRead::KeyRefused("denied".to_owned())) {
        Ok(value) => panic!("expected an error, got {value:?}"),
        Err(err) => assert_eq!(
            err.to_string(),
            r"cannot read PATH from the registry: HKCU\Environment: cannot open: denied"
        ),
    }
}

#[test]
fn each_scope_is_asked_for_its_own_path() {
    match read_machine_path(&registry) {
        Ok(Some(value)) => {
            assert_eq!(value.text, r"%SystemRoot%\system32;C:\tools");
            assert_eq!(value.kind, pathdoc::ValueKind::ExpandSz);
        }
        other => panic!("the machine scope has a Path; got {other:?}"),
    }
    match read_user_path(&registry) {
        Ok(None) => {}
        other => panic!("the user scope has no key; got {other:?}"),
    }
}

#[test]
fn a_kind_is_recognised_by_its_name_and_keeps_it() {
    for name in ["REG_SZ", "REG_EXPAND_SZ", "REG_MULTI_SZ", "reg_sz"] {
        assert_eq!(ValueKind::named(name.to_owned()).to_string(), name);
    }
    assert_eq!(ValueKind::named("REG_SZ".to_owned()), ValueKind::Sz);
    assert_eq!(
        ValueKind::named("REG_MULTI_SZ".to_owned()),
        ValueKind::Other("REG_MULTI_SZ".to_owned())
    );
}
