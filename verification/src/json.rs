//! JSON values, and taking them apart.

use vstd::prelude::*;

use crate::text::same_text;

verus! {

/// A JSON value.
#[derive(Debug, PartialEq, Eq)]
pub enum Json {
    /// `null`.
    Null,
    /// `true` or `false`.
    Flag(bool),
    /// A whole number that is not negative: the only kind a report holds.
    Number(u64),
    /// Any other number, as it is written.
    OtherNumber(String),
    /// A string.
    Text(String),
    /// An array.
    List(Vec<Json>),
    /// An object, its members in order.
    Object(Vec<Member>),
}

/// One member of a JSON object.
#[derive(Debug, PartialEq, Eq)]
pub struct Member {
    /// Its name.
    pub name: String,
    /// Its value.
    pub value: Json,
}

/// The model of a [`Json`].
pub ghost enum JsonModel {
    Null,
    Flag(bool),
    Number(nat),
    OtherNumber(Seq<char>),
    Text(Seq<char>),
    List(Seq<JsonModel>),
    Object(Seq<(Seq<char>, JsonModel)>),
}

/// The model of a JSON value.
pub open spec fn model_of(json: Json) -> JsonModel
    decreases json,
{
    match json {
        Json::Null => JsonModel::Null,
        Json::Flag(flag) => JsonModel::Flag(flag),
        Json::Number(number) => JsonModel::Number(number as nat),
        Json::OtherNumber(written) => JsonModel::OtherNumber(written@),
        Json::Text(text) => JsonModel::Text(text@),
        Json::List(items) => JsonModel::List(
            Seq::new(
                items@.len(),
                |i: int|
                    if 0 <= i < items@.len() {
                        model_of(items@[i])
                    } else {
                        JsonModel::Null
                    },
            ),
        ),
        Json::Object(members) => JsonModel::Object(
            Seq::new(
                members@.len(),
                |i: int|
                    if 0 <= i < members@.len() {
                        (members@[i].name@, model_of(members@[i].value))
                    } else {
                        (Seq::empty(), JsonModel::Null)
                    },
            ),
        ),
    }
}

impl View for Json {
    type V = JsonModel;

    open spec fn view(&self) -> JsonModel {
        model_of(*self)
    }
}

impl DeepView for Json {
    type V = JsonModel;

    open spec fn deep_view(&self) -> JsonModel {
        model_of(*self)
    }
}

impl View for Member {
    type V = (Seq<char>, JsonModel);

    open spec fn view(&self) -> (Seq<char>, JsonModel) {
        (self.name@, self.value@)
    }
}

impl DeepView for Member {
    type V = (Seq<char>, JsonModel);

    open spec fn deep_view(&self) -> (Seq<char>, JsonModel) {
        self@
    }
}

// ---- putting values together ----

/// A string.
pub fn string(content: &str) -> (json: Json)
    ensures
        json@ == JsonModel::Text(content@),
{
    Json::Text(content.to_owned())
}

/// A number.
pub fn number(value: usize) -> (json: Json)
    ensures
        json@ == JsonModel::Number(value as nat),
{
    Json::Number(value as u64)
}

/// An array.
pub fn list(items: Vec<Json>) -> (json: Json)
    ensures
        json@ == JsonModel::List(items.deep_view()),
{
    let json = Json::List(items);
    assert(json@->List_0 =~= items.deep_view());
    json
}

/// An object.
pub fn object(members: Vec<Member>) -> (json: Json)
    ensures
        json@ == JsonModel::Object(members.deep_view()),
{
    let json = Json::Object(members);
    assert(json@->Object_0 =~= members.deep_view());
    json
}

/// A member of an object.
pub fn member(name: &str, value: Json) -> (member: Member)
    ensures
        member@ == (name@, value@),
{
    Member { name: name.to_owned(), value }
}

/// `null` or a number.
pub open spec fn number_or_null(value: Option<usize>) -> JsonModel {
    match value {
        Some(known) => JsonModel::Number(known as nat),
        None => JsonModel::Null,
    }
}

/// `null` or a number.
pub fn optional_number(value: Option<usize>) -> (json: Json)
    ensures
        json@ == number_or_null(value),
{
    match value {
        Some(known) => number(known),
        None => Json::Null,
    }
}

/// `null` or a string.
pub open spec fn text_or_null(value: Option<Seq<char>>) -> JsonModel {
    match value {
        Some(known) => JsonModel::Text(known),
        None => JsonModel::Null,
    }
}

/// `null` or a string.
pub fn optional_text(value: &Option<String>) -> (json: Json)
    ensures
        json@ == text_or_null(value.deep_view()),
{
    match value {
        Some(known) => string(known.as_str()),
        None => Json::Null,
    }
}

/// An array of what each of some values becomes.
pub open spec fn list_of<T>(values: Seq<T>, form: spec_fn(T) -> JsonModel) -> JsonModel {
    JsonModel::List(Seq::new(values.len(), |i: int| form(values[i])))
}

/// An array of what each of some values becomes.
pub(crate) fn encode_all<T: DeepView, F: Fn(&T) -> Json>(
    values: &Vec<T>,
    encode: F,
    Ghost(form): Ghost<spec_fn(T::V) -> JsonModel>,
) -> (json: Json)
    requires
        forall|value: &T| #[trigger] call_requires(encode, (value,)),
        forall|value: &T, json: Json| #[trigger]
            call_ensures(encode, (value,), json) ==> json@ == form(value.deep_view()),
    ensures
        json@ == list_of(values.deep_view(), form),
{
    let ghost all = values.deep_view();
    let mut items: Vec<Json> = Vec::new();
    let mut i: usize = 0;
    while i < values.len()
        invariant
            forall|value: &T| #[trigger] call_requires(encode, (value,)),
            forall|value: &T, json: Json| #[trigger]
                call_ensures(encode, (value,), json) ==> json@ == form(value.deep_view()),
            all == values.deep_view(),
            i <= values.len(),
            items.deep_view() =~= Seq::new(i as nat, |k: int| form(all[k])),
        decreases values.len() - i,
    {
        let ghost before = items.deep_view();
        assert(all[i as int] == values@[i as int].deep_view());
        let item = encode(&values[i]);
        items.push(item);
        assert(items.deep_view() =~= before.push(item@));
        i += 1;
    }
    assert(items.deep_view() =~= Seq::new(all.len(), |k: int| form(all[k])));
    list(items)
}

// ---- taking values apart ----

/// What looking for a field comes to.
pub ghost enum Sought {
    /// It is not there.
    Absent,
    /// It is there once.
    Once(JsonModel),
    /// It is there more than once, or the value has no fields at all.
    Unclear,
}

/// What looking for a member of an object comes to.
pub open spec fn sought(members: Seq<(Seq<char>, JsonModel)>, name: Seq<char>) -> Sought
    decreases members.len(),
{
    if members.len() == 0 {
        Sought::Absent
    } else {
        let before = sought(members.drop_last(), name);
        if members.last().0 == name {
            match before {
                Sought::Absent => Sought::Once(members.last().1),
                _ => Sought::Unclear,
            }
        } else {
            before
        }
    }
}

/// What looking for a field of a record comes to. A record is an object, whose members are
/// found by name, or an array with one item for each field, which are found by position.
pub open spec fn field_of(json: JsonModel, name: Seq<char>, position: int, count: nat) -> Sought {
    match json {
        JsonModel::Object(members) => sought(members, name),
        JsonModel::List(items) => if items.len() == count {
            Sought::Once(items[position])
        } else {
            Sought::Unclear
        },
        _ => Sought::Unclear,
    }
}

/// What looking for a field comes to.
pub enum Lookup<'a> {
    /// It is not there.
    Absent,
    /// It is there once.
    Once(&'a Json),
    /// It is there more than once, or the value has no fields at all.
    Unclear,
}

impl<'a> View for Lookup<'a> {
    type V = Sought;

    open spec fn view(&self) -> Sought {
        match self {
            Lookup::Absent => Sought::Absent,
            Lookup::Once(json) => Sought::Once(json@),
            Lookup::Unclear => Sought::Unclear,
        }
    }
}

impl Json {
    /// Look for a field of a record that has so many of them.
    pub fn find<'a>(&'a self, name: &str, position: usize, count: usize) -> (lookup: Lookup<'a>)
        requires
            position < count,
        ensures
            lookup@ == field_of(self@, name@, position as int, count as nat),
    {
        match self {
            Json::Object(members) => {
                let ghost all = members.deep_view();
                assert(self@->Object_0 =~= all);
                let mut lookup: Lookup<'a> = Lookup::Absent;
                let mut i: usize = 0;
                while i < members.len()
                    invariant
                        all == members.deep_view(),
                        i <= members.len(),
                        lookup@ == sought(all.take(i as int), name@),
                    decreases members.len() - i,
                {
                    assert(all.take(i + 1).drop_last() =~= all.take(i as int));
                    assert(all[i as int] == members@[i as int]@);
                    if same_text(members[i].name.as_str(), name) {
                        lookup = match lookup {
                            Lookup::Absent => Lookup::Once(&members[i].value),
                            _ => Lookup::Unclear,
                        };
                    }
                    i += 1;
                }
                assert(all.take(i as int) =~= all);
                lookup
            },
            Json::List(items) => {
                assert(self@->List_0 =~= items.deep_view());
                if items.len() == count {
                    Lookup::Once(&items[position])
                } else {
                    Lookup::Unclear
                }
            },
            _ => Lookup::Unclear,
        }
    }
}

/// A field that has to be there.
pub open spec fn required(
    json: JsonModel,
    name: Seq<char>,
    position: int,
    count: nat,
) -> Option<JsonModel> {
    match field_of(json, name, position, count) {
        Sought::Once(value) => Some(value),
        _ => None,
    }
}

/// A field that has to be there.
pub fn require<'a>(json: &'a Json, name: &str, position: usize, count: usize) -> (value: Option<
    &'a Json,
>)
    requires
        position < count,
    ensures
        value.deep_view() == required(json@, name@, position as int, count as nat),
{
    match json.find(name, position, count) {
        Lookup::Once(value) => Some(value),
        _ => None,
    }
}

/// A field that may be `null`, or absent from an object, which comes to the same.
pub open spec fn optional(
    json: JsonModel,
    name: Seq<char>,
    position: int,
    count: nat,
) -> Option<Option<JsonModel>> {
    match field_of(json, name, position, count) {
        Sought::Absent => Some(None),
        Sought::Once(JsonModel::Null) => Some(None),
        Sought::Once(value) => Some(Some(value)),
        Sought::Unclear => None,
    }
}

/// A field that may be `null`, or absent from an object.
pub fn accept<'a>(json: &'a Json, name: &str, position: usize, count: usize) -> (value: Option<
    Option<&'a Json>,
>)
    requires
        position < count,
    ensures
        match (value, optional(json@, name@, position as int, count as nat)) {
            (Some(Some(found)), Some(Some(model))) => found@ == model,
            (Some(None), Some(None)) => true,
            (None, None) => true,
            _ => false,
        },
{
    match json.find(name, position, count) {
        Lookup::Absent => Some(None),
        Lookup::Once(value) => match value {
            Json::Null => Some(None),
            _ => Some(Some(value)),
        },
        Lookup::Unclear => None,
    }
}

/// The word a value is: a string, or the name of an object's only member if that is `null`.
pub open spec fn word_in(json: JsonModel) -> Option<Seq<char>> {
    match json {
        JsonModel::Text(content) => Some(content),
        JsonModel::Object(members) => if members.len() == 1 && members[0].1 == JsonModel::Null {
            Some(members[0].0)
        } else {
            None
        },
        _ => None,
    }
}

/// The word a value is.
pub fn as_word<'a>(json: &'a Json) -> (word: Option<&'a str>)
    ensures
        word.deep_view() == word_in(json@),
{
    match json {
        Json::Text(content) => Some(content.as_str()),
        Json::Object(members) => {
            assert(json@->Object_0 =~= members.deep_view());
            if members.len() == 1 {
                assert(members.deep_view()[0] == members@[0]@);
                match &members[0].value {
                    Json::Null => Some(members[0].name.as_str()),
                    _ => None,
                }
            } else {
                None
            }
        },
        _ => None,
    }
}

/// The string that says which variant of a union a value is: the member of an object with a
/// given name, or the first item of an array.
pub open spec fn tag_in(json: JsonModel, name: Seq<char>) -> Option<Seq<char>> {
    match json {
        JsonModel::Object(members) => match sought(members, name) {
            Sought::Once(tag) => text_in(tag),
            _ => None,
        },
        JsonModel::List(items) => if items.len() > 0 {
            text_in(items[0])
        } else {
            None
        },
        _ => None,
    }
}

/// The string that says which variant of a union a value is.
pub fn as_tag<'a>(json: &'a Json, name: &str) -> (tag: Option<&'a str>)
    ensures
        tag.deep_view() == tag_in(json@, name@),
{
    match json {
        Json::Object(_) => match json.find(name, 0, 1) {
            Lookup::Once(tag) => as_text(tag),
            _ => None,
        },
        Json::List(items) => {
            assert(json@->List_0 =~= items.deep_view());
            if items.len() > 0 {
                assert(items.deep_view()[0] == items@[0]@);
                as_text(&items[0])
            } else {
                None
            }
        },
        _ => None,
    }
}

/// Whether a value could be a record with so many fields, going by its length alone.
pub open spec fn has_room(json: JsonModel, count: nat) -> bool {
    match json {
        JsonModel::Object(_) => true,
        JsonModel::List(items) => items.len() == count,
        _ => false,
    }
}

/// Whether a value could be a record with so many fields, going by its length alone.
pub fn could_hold(json: &Json, count: usize) -> (could: bool)
    ensures
        could == has_room(json@, count as nat),
{
    match json {
        Json::Object(_) => true,
        Json::List(items) => {
            assert(json@->List_0 =~= items.deep_view());
            items.len() == count
        },
        _ => false,
    }
}

/// The string a value is.
pub open spec fn text_in(json: JsonModel) -> Option<Seq<char>> {
    match json {
        JsonModel::Text(content) => Some(content),
        _ => None,
    }
}

/// The string a value is.
pub fn as_text<'a>(json: &'a Json) -> (content: Option<&'a str>)
    ensures
        content.deep_view() == text_in(json@),
{
    match json {
        Json::Text(content) => Some(content.as_str()),
        _ => None,
    }
}

/// The flag a value is.
pub open spec fn flag_in(json: JsonModel) -> Option<bool> {
    match json {
        JsonModel::Flag(flag) => Some(flag),
        _ => None,
    }
}

/// The flag a value is.
pub fn as_flag(json: &Json) -> (flag: Option<bool>)
    ensures
        flag == flag_in(json@),
{
    match json {
        Json::Flag(flag) => Some(*flag),
        _ => None,
    }
}

/// The number a value is, if it is small enough to count with.
pub open spec fn number_in(json: JsonModel) -> Option<usize> {
    match json {
        JsonModel::Number(value) => if value <= usize::MAX {
            Some(value as usize)
        } else {
            None
        },
        _ => None,
    }
}

/// The number a value is, if it is small enough to count with.
pub fn as_number(json: &Json) -> (value: Option<usize>)
    ensures
        value == number_in(json@),
{
    match json {
        Json::Number(value) => if *value <= usize::MAX as u64 {
            Some(*value as usize)
        } else {
            None
        },
        _ => None,
    }
}

/// What each item of an array comes to, if every one comes to something.
pub open spec fn all_in<T>(
    items: Seq<JsonModel>,
    reading: spec_fn(JsonModel) -> Option<T>,
) -> Option<Seq<T>>
    decreases items.len(),
{
    if items.len() == 0 {
        Some(Seq::empty())
    } else {
        match (all_in(items.drop_last(), reading), reading(items.last())) {
            (Some(before), Some(value)) => Some(before.push(value)),
            _ => None,
        }
    }
}

/// What each item of a value comes to, if it is an array and every item comes to something.
pub open spec fn list_in<T>(json: JsonModel, reading: spec_fn(JsonModel) -> Option<T>) -> Option<
    Seq<T>,
> {
    match json {
        JsonModel::List(items) => all_in(items, reading),
        _ => None,
    }
}

proof fn lemma_all_in_prefix<T>(
    items: Seq<JsonModel>,
    reading: spec_fn(JsonModel) -> Option<T>,
    n: int,
)
    requires
        0 <= n <= items.len(),
        all_in(items.take(n), reading) is None,
    ensures
        all_in(items, reading) is None,
    decreases items.len(),
{
    if n < items.len() {
        assert(items.drop_last().take(n) =~= items.take(n));
        lemma_all_in_prefix(items.drop_last(), reading, n);
    } else {
        assert(items.take(n) =~= items);
    }
}

/// What each item of a value comes to, if it is an array and every item comes to something.
pub(crate) fn decode_all<T: DeepView, F: Fn(&Json) -> Option<T>>(
    json: &Json,
    decode: F,
    Ghost(reading): Ghost<spec_fn(JsonModel) -> Option<T::V>>,
) -> (values: Option<Vec<T>>)
    requires
        forall|item: &Json| #[trigger] call_requires(decode, (item,)),
        forall|item: &Json, value: Option<T>| #[trigger]
            call_ensures(decode, (item,), value) ==> value.deep_view() == reading(item@),
    ensures
        values.deep_view() == list_in(json@, reading),
{
    let items = match json {
        Json::List(items) => items,
        _ => {
            return None;
        },
    };
    let ghost all = items.deep_view();
    assert(json@->List_0 =~= all);
    let mut values: Vec<T> = Vec::new();
    let mut i: usize = 0;
    assert(all.take(0) =~= Seq::empty());
    assert(values.deep_view() =~= Seq::<T::V>::empty());
    while i < items.len()
        invariant
            forall|item: &Json| #[trigger] call_requires(decode, (item,)),
            forall|item: &Json, value: Option<T>| #[trigger]
                call_ensures(decode, (item,), value) ==> value.deep_view() == reading(item@),
            json@ == JsonModel::List(all),
            all == items.deep_view(),
            i <= items.len(),
            all_in(all.take(i as int), reading) == Some(values.deep_view()),
        decreases items.len() - i,
    {
        let ghost before = values.deep_view();
        assert(all.take(i + 1).drop_last() =~= all.take(i as int));
        assert(all[i as int] == items@[i as int]@);
        match decode(&items[i]) {
            Some(value) => {
                values.push(value);
                assert(values.deep_view() =~= before.push(value.deep_view()));
            },
            None => {
                proof {
                    lemma_all_in_prefix(all, reading, i + 1);
                }
                return None;
            },
        }
        i += 1;
    }
    assert(all.take(i as int) =~= all);
    Some(values)
}

// ---- what holds of putting together and taking apart ----

/// Whether no two members have the same name.
pub open spec fn distinct_names(members: Seq<(Seq<char>, JsonModel)>) -> bool {
    forall|i: int, j: int|
        0 <= i < j < members.len() ==> (#[trigger] members[i]).0 != (#[trigger] members[j]).0
}

proof fn lemma_sought_absent(members: Seq<(Seq<char>, JsonModel)>, name: Seq<char>)
    requires
        forall|i: int| 0 <= i < members.len() ==> (#[trigger] members[i]).0 != name,
    ensures
        sought(members, name) == Sought::Absent,
    decreases members.len(),
{
    if members.len() > 0 {
        assert forall|i: int| 0 <= i < members.drop_last().len() implies (
        #[trigger] members.drop_last()[i]).0 != name by {
            assert(members[i].0 != name);
        }
        lemma_sought_absent(members.drop_last(), name);
    }
}

/// Looking for a member of an object finds it, as long as no two have the same name.
pub proof fn a_member_is_found_by_its_name(members: Seq<(Seq<char>, JsonModel)>, k: int)
    requires
        distinct_names(members),
        0 <= k < members.len(),
    ensures
        sought(members, members[k].0) == Sought::Once(members[k].1),
    decreases members.len(),
{
    let shorter = members.drop_last();
    assert forall|i: int, j: int| 0 <= i < j < shorter.len() implies (#[trigger] shorter[i]).0 != (
    #[trigger] shorter[j]).0 by {
        assert(members[i].0 != members[j].0);
    }
    if k < shorter.len() {
        a_member_is_found_by_its_name(shorter, k);
        assert(shorter[k] == members[k]);
        assert(members[k].0 != members[members.len() - 1].0);
    } else {
        assert forall|i: int| 0 <= i < shorter.len() implies (#[trigger] shorter[i]).0
            != members[k].0 by {
            assert(members[i].0 != members[k].0);
        }
        lemma_sought_absent(shorter, members[k].0);
    }
}

/// Reading an array gives back what was written, if that holds of each item.
pub proof fn a_list_is_read_back<T>(
    values: Seq<T>,
    form: spec_fn(T) -> JsonModel,
    reading: spec_fn(JsonModel) -> Option<T>,
)
    requires
        forall|i: int|
            0 <= i < values.len() ==> reading(form(#[trigger] values[i])) == Some(values[i]),
    ensures
        list_in(list_of(values, form), reading) == Some(values),
    decreases values.len(),
{
    let items = list_of(values, form)->List_0;
    if values.len() > 0 {
        let fewer = values.drop_last();
        assert forall|i: int| 0 <= i < fewer.len() implies reading(form(#[trigger] fewer[i]))
            == Some(fewer[i]) by {
            assert(fewer[i] == values[i]);
        }
        a_list_is_read_back(fewer, form, reading);
        assert(items.drop_last() =~= list_of(fewer, form)->List_0);
        assert(items.last() == form(values[values.len() - 1]));
        assert(fewer.push(values.last()) =~= values);
    } else {
        assert(Seq::<T>::empty() =~= values);
    }
}

/// A member that is not there is absent, and one that is there twice is unclear.
pub proof fn a_member_has_to_be_there_once(
    members: Seq<(Seq<char>, JsonModel)>,
    name: Seq<char>,
    i: int,
    j: int,
)
    ensures
        (forall|k: int| 0 <= k < members.len() ==> (#[trigger] members[k]).0 != name) ==> sought(
            members,
            name,
        ) == Sought::Absent,
        0 <= i < j < members.len() && members[i].0 == name && members[j].0 == name ==> sought(
            members,
            name,
        ) == Sought::Unclear,
{
    if forall|k: int| 0 <= k < members.len() ==> (#[trigger] members[k]).0 != name {
        lemma_sought_absent(members, name);
    }
    if 0 <= i < j < members.len() && members[i].0 == name && members[j].0 == name {
        lemma_sought_twice(members, name, i, j);
    }
}

proof fn lemma_sought_twice(
    members: Seq<(Seq<char>, JsonModel)>,
    name: Seq<char>,
    i: int,
    j: int,
)
    requires
        0 <= i < j < members.len(),
        members[i].0 == name,
        members[j].0 == name,
    ensures
        sought(members, name) == Sought::Unclear,
    decreases members.len(),
{
    let shorter = members.drop_last();
    if j < shorter.len() {
        lemma_sought_twice(shorter, name, i, j);
    } else {
        lemma_sought_present(shorter, name, i);
    }
}

proof fn lemma_sought_present(members: Seq<(Seq<char>, JsonModel)>, name: Seq<char>, i: int)
    requires
        0 <= i < members.len(),
        members[i].0 == name,
    ensures
        sought(members, name) != Sought::Absent,
    decreases members.len(),
{
    if i < members.len() - 1 {
        lemma_sought_present(members.drop_last(), name, i);
    }
}

/// A record by position has one item for each field, no more and no fewer; a record by name
/// has its members; and nothing else is a record.
pub proof fn a_field_is_found_by_name_or_position(
    json: JsonModel,
    name: Seq<char>,
    position: int,
    count: nat,
)
    ensures
        json is List && json->List_0.len() == count ==> field_of(json, name, position, count)
            == Sought::Once(json->List_0[position]),
        json is List && json->List_0.len() != count ==> field_of(json, name, position, count)
            == Sought::Unclear,
        json is Object ==> field_of(json, name, position, count) == sought(json->Object_0, name),
        !(json is List) && !(json is Object) ==> field_of(json, name, position, count)
            == Sought::Unclear,
        required(json, name, position, count) is Some <==> field_of(json, name, position, count)
            is Once,
        field_of(json, name, position, count) == Sought::Absent ==> optional(
            json,
            name,
            position,
            count,
        ) == Some(None::<JsonModel>),
        field_of(json, name, position, count) == Sought::Once(JsonModel::Null) ==> optional(
            json,
            name,
            position,
            count,
        ) == Some(None::<JsonModel>),
        field_of(json, name, position, count) == Sought::Unclear ==> optional(
            json,
            name,
            position,
            count,
        ) is None,
{
}

/// Strings, flags and whole numbers are what they are, and nothing else passes for one.
pub proof fn plain_values_are_taken_as_they_are(
    json: JsonModel,
    content: Seq<char>,
    flag: bool,
    number: nat,
)
    ensures
        text_in(json) == Some(content) <==> json == JsonModel::Text(content),
        flag_in(json) == Some(flag) <==> json == JsonModel::Flag(flag),
        number <= usize::MAX ==> (number_in(json) == Some(number as usize) <==> json
            == JsonModel::Number(number)),
        number > usize::MAX ==> number_in(JsonModel::Number(number)) is None,
        word_in(JsonModel::Text(content)) == Some(content),
        word_in(JsonModel::Object(seq![(content, JsonModel::Null)])) == Some(content),
        word_in(json) is Some ==> json is Text || json is Object,
{
}

/// An array is read item by item: if every item stands for something, the array stands for
/// those things in order; if one does not, neither does the array.
pub proof fn an_array_is_read_item_by_item<T>(
    items: Seq<JsonModel>,
    reading: spec_fn(JsonModel) -> Option<T>,
    k: int,
)
    ensures
        (forall|i: int| 0 <= i < items.len() ==> reading(#[trigger] items[i]) is Some) ==> {
            &&& list_in(JsonModel::List(items), reading) is Some
            &&& list_in(JsonModel::List(items), reading)->0.len() == items.len()
            &&& 0 <= k < items.len() ==> Some(list_in(JsonModel::List(items), reading)->0[k])
                == reading(items[k])
        },
        0 <= k < items.len() && reading(items[k]) is None ==> list_in(
            JsonModel::List(items),
            reading,
        ) is None,
    decreases items.len(),
{
    if items.len() > 0 {
        let fewer = items.drop_last();
        an_array_is_read_item_by_item(fewer, reading, k);
        if forall|i: int| 0 <= i < items.len() ==> reading(#[trigger] items[i]) is Some {
            assert forall|i: int| 0 <= i < fewer.len() implies reading(#[trigger] fewer[i])
                is Some by {
                assert(fewer[i] == items[i]);
            }
            assert(reading(items[items.len() - 1]) is Some);
        }
        if k < fewer.len() {
            assert(0 <= k ==> fewer[k] == items[k]);
        }
    }
}

} // verus!
