//! JSON values as the netting of deltas reads them: object members by name,
//! equality, and the text a value is printed as.
use vstd::prelude::*;

use crate::text;
use crate::text::{view_of_option, views};

verus! {

/// A JSON value. A number is held as the text it is printed as; the members of
/// an object stand in the order in which they are printed.
pub enum Json {
    Null,
    Bool(bool),
    Number(String),
    Text(String),
    Array(Vec<Json>),
    Object(Vec<(String, Json)>),
}

/// The mathematical counterpart of `Json`.
pub enum JsonModel {
    Null,
    Bool(bool),
    Number(Seq<char>),
    Text(Seq<char>),
    Array(Seq<JsonModel>),
    Object(Seq<(Seq<char>, JsonModel)>),
}

impl Json {
    pub open spec fn model(self) -> JsonModel
        decreases self,
    {
        match self {
            Json::Null => JsonModel::Null,
            Json::Bool(b) => JsonModel::Bool(b),
            Json::Number(n) => JsonModel::Number(n@),
            Json::Text(s) => JsonModel::Text(s@),
            Json::Array(items) => JsonModel::Array(
                Seq::new(
                    items@.len(),
                    |i: int|
                        if 0 <= i < items@.len() {
                            items@[i].model()
                        } else {
                            JsonModel::Null
                        },
                ),
            ),
            Json::Object(members) => JsonModel::Object(
                Seq::new(
                    members@.len(),
                    |i: int|
                        if 0 <= i < members@.len() {
                            (members@[i].0@, members@[i].1.model())
                        } else {
                            (Seq::empty(), JsonModel::Null)
                        },
                ),
            ),
        }
    }
}

impl View for Json {
    type V = JsonModel;

    open spec fn view(&self) -> JsonModel {
        self.model()
    }
}

/// `serde_json::Value`, carried as it is.
#[verifier::external_type_specification]
#[verifier::external_body]
pub struct ExValue(serde_json::Value);

/// `serde_json::Value::clone`: the copy is the same value, part by part.
pub assume_specification[ <serde_json::Value as Clone>::clone ](value: &serde_json::Value) -> (result:
    serde_json::Value)
    ensures
        result == *value,
;

/// The value that a JSON text stands for, if it is one.
pub uninterp spec fn parsed(text: Seq<char>) -> Option<JsonModel>;

/// The text that the value of a JSON text is printed as, if it is one.
pub uninterp spec fn printed(text: Seq<char>) -> Option<Seq<char>>;

/// `serde_json::from_str` into a `serde_json::Value`: a function of the text
/// alone, named by `parsed`.
#[verifier::external_body]
pub(crate) fn parse(text: &str) -> (result: Option<Json>)
    ensures
        view_of_option(result) == parsed(text@),
{
    match serde_json::from_str::<serde_json::Value>(text) {
        Ok(value) => Some(converted(value)),
        Err(_) => None,
    }
}

/// The variants of a `serde_json::Value`, one for one: a number by its
/// `to_string`, the members of an object in the order of its map. It serves
/// the conversion in `parse` and promises nothing by itself.
#[verifier::external_body]
fn converted(value: serde_json::Value) -> Json {
    match value {
        serde_json::Value::Null => Json::Null,
        serde_json::Value::Bool(b) => Json::Bool(b),
        serde_json::Value::Number(n) => Json::Number(n.to_string()),
        serde_json::Value::String(s) => Json::Text(s),
        serde_json::Value::Array(items) => Json::Array(items.into_iter().map(converted).collect()),
        serde_json::Value::Object(members) => Json::Object(
            members.into_iter().map(|m| (m.0, converted(m.1))).collect(),
        ),
    }
}

/// `to_string` of the `serde_json::Value` that `serde_json::from_str` reads in a
/// text: a function of the text alone, named by `printed`, and there whenever
/// the text can be read.
#[verifier::external_body]
pub(crate) fn print(text: &str) -> (result: Option<String>)
    ensures
        view_of_option(result) == printed(text@),
        result is Some <==> parsed(text@) is Some,
{
    match serde_json::from_str::<serde_json::Value>(text) {
        Ok(value) => Some(value.to_string()),
        Err(_) => None,
    }
}

/// A printed number without the sign of a zero: the two zeros are one number.
pub open spec fn unsigned_zero(number: Seq<char>) -> Seq<char> {
    if number == "-0.0"@ {
        "0.0"@
    } else {
        number
    }
}

/// Equality of JSON values. An integer and a number with a fraction or an
/// exponent are never equal.
pub open spec fn equal(a: JsonModel, b: JsonModel) -> bool
    decreases a,
{
    match (a, b) {
        (JsonModel::Null, JsonModel::Null) => true,
        (JsonModel::Bool(x), JsonModel::Bool(y)) => x == y,
        (JsonModel::Number(x), JsonModel::Number(y)) => unsigned_zero(x) == unsigned_zero(y),
        (JsonModel::Text(x), JsonModel::Text(y)) => x == y,
        (JsonModel::Array(x), JsonModel::Array(y)) => x.len() == y.len() && forall|i: int|
            0 <= i < x.len() ==> equal(#[trigger] x[i], y[i]),
        (JsonModel::Object(x), JsonModel::Object(y)) => x.len() == y.len() && forall|i: int|
            0 <= i < x.len() ==> (#[trigger] x[i]).0 == y[i].0 && equal(x[i].1, y[i].1),
        _ => false,
    }
}

fn same_number(a: &str, b: &str) -> (result: bool)
    ensures
        result == (unsigned_zero(a@) == unsigned_zero(b@)),
{
    let zero_a = text::same(a, "-0.0");
    let zero_b = text::same(b, "-0.0");
    if zero_a && zero_b {
        true
    } else if zero_a {
        text::same("0.0", b)
    } else if zero_b {
        text::same(a, "0.0")
    } else {
        text::same(a, b)
    }
}

/// Whether two JSON values are equal.
pub fn same(a: &Json, b: &Json) -> (result: bool)
    ensures
        result == equal(a@, b@),
    decreases a,
{
    match (a, b) {
        (Json::Null, Json::Null) => true,
        (Json::Bool(x), Json::Bool(y)) => *x == *y,
        (Json::Number(x), Json::Number(y)) => same_number(x, y),
        (Json::Text(x), Json::Text(y)) => text::same(x, y),
        (Json::Array(x), Json::Array(y)) => {
            if x.len() != y.len() {
                return false;
            }
            let ghost left = a@->Array_0;
            let ghost right = b@->Array_0;
            let mut i: usize = 0;
            while i < x.len()
                invariant
                    a == Json::Array(*x),
                    a@ == JsonModel::Array(left),
                    b@ == JsonModel::Array(right),
                    *b == Json::Array(*y),
                    x@.len() == y@.len(),
                    i <= x@.len(),
                    forall|j: int| 0 <= j < i ==> equal(#[trigger] left[j], right[j]),
                decreases x@.len() - i,
            {
                assert(left[i as int] == x@[i as int]@);
                assert(right[i as int] == y@[i as int]@);
                if !same(&x[i], &y[i]) {
                    return false;
                }
                i = i + 1;
            }
            true
        },
        (Json::Object(x), Json::Object(y)) => {
            if x.len() != y.len() {
                return false;
            }
            let ghost left = a@->Object_0;
            let ghost right = b@->Object_0;
            let mut i: usize = 0;
            while i < x.len()
                invariant
                    a == Json::Object(*x),
                    a@ == JsonModel::Object(left),
                    b@ == JsonModel::Object(right),
                    *b == Json::Object(*y),
                    x@.len() == y@.len(),
                    i <= x@.len(),
                    forall|j: int|
                        0 <= j < i ==> (#[trigger] left[j]).0 == right[j].0 && equal(
                            left[j].1,
                            right[j].1,
                        ),
                decreases x@.len() - i,
            {
                assert(left[i as int] == (x@[i as int].0@, x@[i as int].1@));
                assert(right[i as int] == (y@[i as int].0@, y@[i as int].1@));
                if !text::same(&x[i].0, &y[i].0) || !same(&x[i].1, &y[i].1) {
                    return false;
                }
                i = i + 1;
            }
            true
        },
        _ => false,
    }
}

// --- members ---------------------------------------------------------------------

/// The value of the first member that has this name.
pub open spec fn member(members: Seq<(Seq<char>, JsonModel)>, name: Seq<char>) -> Option<JsonModel>
    decreases members.len(),
{
    if members.len() == 0 {
        None
    } else if members[0].0 == name {
        Some(members[0].1)
    } else {
        member(members.drop_first(), name)
    }
}

/// The value of a member of an object; null where there is none.
pub open spec fn field(value: JsonModel, name: Seq<char>) -> JsonModel {
    match value {
        JsonModel::Object(members) => match member(members, name) {
            Some(v) => v,
            None => JsonModel::Null,
        },
        _ => JsonModel::Null,
    }
}

/// Whether two values have equal members of this name; a missing member is null.
pub fn same_field(a: &Json, b: &Json, name: &str) -> (result: bool)
    ensures
        result == equal(field(a@, name@), field(b@, name@)),
{
    let null = Json::Null;
    let x = match find(a, name) {
        Some(v) => v,
        None => &null,
    };
    let y = match find(b, name) {
        Some(v) => v,
        None => &null,
    };
    same(x, y)
}

/// The member of an object with this name.
pub fn find<'a>(value: &'a Json, name: &str) -> (result: Option<&'a Json>)
    ensures
        match result {
            Some(v) => v@ == field(value@, name@),
            None => field(value@, name@) == JsonModel::Null,
        },
{
    match value {
        Json::Object(members) => {
            let ghost all = value@->Object_0;
            let mut i: usize = 0;
            assert(all.skip(0) =~= all);
            while i < members.len()
                invariant
                    *value == Json::Object(*members),
                    value@ == JsonModel::Object(all),
                    i <= members@.len() == all.len(),
                    member(all, name@) == member(all.skip(i as int), name@),
                decreases members@.len() - i,
            {
                assert(all.skip(i as int).drop_first() =~= all.skip(i + 1));
                assert(all[i as int] == (members@[i as int].0@, members@[i as int].1@));
                if text::same(&members[i].0, name) {
                    return Some(&members[i].1);
                }
                i = i + 1;
            }
            None
        },
        _ => None,
    }
}

/// The members whose names are not among `hidden`, in their order.
pub open spec fn shown(
    members: Seq<(Seq<char>, JsonModel)>,
    hidden: Seq<Seq<char>>,
) -> Seq<(Seq<char>, JsonModel)>
    decreases members.len(),
{
    if members.len() == 0 {
        members
    } else if hidden.contains(members.last().0) {
        shown(members.drop_last(), hidden)
    } else {
        shown(members.drop_last(), hidden).push(members.last())
    }
}

/// A value without the members named in `hidden`.
pub open spec fn without(value: JsonModel, hidden: Seq<Seq<char>>) -> JsonModel {
    match value {
        JsonModel::Object(members) => JsonModel::Object(shown(members, hidden)),
        other => other,
    }
}

/// The positions of the members whose names are not among `hidden`.
fn shown_positions(members: &Vec<(String, Json)>, hidden: &Vec<String>) -> (result: Vec<usize>)
    ensures
        forall|i: int| 0 <= i < result@.len() ==> (#[trigger] result@[i]) < members@.len(),
        ({
            let all = Json::Object(*members)@->Object_0;
            shown(all, views(hidden@)) == result@.map_values(|p: usize| all[p as int])
        }),
{
    let ghost all = Json::Object(*members)@->Object_0;
    let mut out: Vec<usize> = Vec::new();
    let mut i: usize = 0;
    assert(out@.map_values(|p: usize| all[p as int]) =~= shown(all.take(0), views(hidden@)));
    while i < members.len()
        invariant
            all == Json::Object(*members)@->Object_0,
            i <= members@.len() == all.len(),
            forall|j: int| 0 <= j < out@.len() ==> (#[trigger] out@[j]) < members@.len(),
            out@.map_values(|p: usize| all[p as int]) == shown(
                all.take(i as int),
                views(hidden@),
            ),
        decreases members@.len() - i,
    {
        assert(all.take(i + 1).drop_last() =~= all.take(i as int));
        assert(all[i as int] == (members@[i as int].0@, members@[i as int].1@));
        if !text::contains(hidden, &members[i].0) {
            let ghost before = out@.map_values(|p: usize| all[p as int]);
            out.push(i);
            assert(out@.map_values(|p: usize| all[p as int]) =~= before.push(all[i as int]));
        }
        i = i + 1;
    }
    assert(all.take(i as int) =~= all);
    out
}

/// Whether two values are equal but for the members named in `hidden`.
pub fn same_shown(a: &Json, b: &Json, hidden: &Vec<String>) -> (result: bool)
    ensures
        result == equal(without(a@, views(hidden@)), without(b@, views(hidden@))),
{
    match (a, b) {
        (Json::Object(x), Json::Object(y)) => {
            let ghost left = a@->Object_0;
            let ghost right = b@->Object_0;
            let ghost h = views(hidden@);
            let p = shown_positions(x, hidden);
            let q = shown_positions(y, hidden);
            let ghost kept = shown(left, h);
            let ghost held = shown(right, h);
            if p.len() != q.len() {
                return false;
            }
            let mut i: usize = 0;
            while i < p.len()
                invariant
                    *a == Json::Object(*x),
                    *b == Json::Object(*y),
                    a@ == JsonModel::Object(left),
                    b@ == JsonModel::Object(right),
                    h == views(hidden@),
                    kept == shown(left, h),
                    held == shown(right, h),
                    kept == p@.map_values(|k: usize| left[k as int]),
                    held == q@.map_values(|k: usize| right[k as int]),
                    forall|j: int| 0 <= j < p@.len() ==> (#[trigger] p@[j]) < x@.len(),
                    forall|j: int| 0 <= j < q@.len() ==> (#[trigger] q@[j]) < y@.len(),
                    i <= p@.len() == q@.len(),
                    forall|j: int|
                        0 <= j < i ==> (#[trigger] kept[j]).0 == held[j].0 && equal(
                            kept[j].1,
                            held[j].1,
                        ),
                decreases p@.len() - i,
            {
                let m = &x[p[i]];
                let n = &y[q[i]];
                assert(kept[i as int] == (m.0@, m.1@));
                assert(held[i as int] == (n.0@, n.1@));
                if !text::same(&m.0, &n.0) || !same(&m.1, &n.1) {
                    return false;
                }
                i = i + 1;
            }
            true
        },
        (Json::Object(_), _) => false,
        (_, Json::Object(_)) => false,
        _ => same(a, b),
    }
}

// --- laws ------------------------------------------------------------------------

/// Equality of JSON values is an equivalence: every value equals itself, and
/// what equals the same value is equal.
pub proof fn law_equal_is_an_equivalence(a: JsonModel, b: JsonModel, c: JsonModel)
    ensures
        equal(a, a),
        equal(a, b) ==> equal(b, a),
        equal(a, b) && equal(b, c) ==> equal(a, c),
    decreases a,
{
    match a {
        JsonModel::Array(x) => {
            assert forall|i: int| 0 <= i < x.len() implies equal(#[trigger] x[i], x[i]) by {
                law_equal_is_an_equivalence(x[i], x[i], x[i]);
            }
            if let JsonModel::Array(y) = b {
                if equal(a, b) {
                    assert forall|i: int| 0 <= i < y.len() implies equal(#[trigger] y[i], x[i]) by {
                        law_equal_is_an_equivalence(x[i], y[i], y[i]);
                        assert(equal(x[i], y[i]));
                    }
                    if let JsonModel::Array(z) = c {
                        if equal(b, c) {
                            assert forall|i: int| 0 <= i < x.len() implies equal(
                                #[trigger] x[i],
                                z[i],
                            ) by {
                                assert(equal(y[i], z[i]));
                                law_equal_is_an_equivalence(x[i], y[i], z[i]);
                            }
                        }
                    }
                }
            }
        },
        JsonModel::Object(x) => {
            assert forall|i: int| 0 <= i < x.len() implies equal((#[trigger] x[i]).1, x[i].1) by {
                law_equal_is_an_equivalence(x[i].1, x[i].1, x[i].1);
            }
            if let JsonModel::Object(y) = b {
                if equal(a, b) {
                    assert forall|i: int| 0 <= i < y.len() implies (#[trigger] y[i]).0 == x[i].0
                        && equal(y[i].1, x[i].1) by {
                        law_equal_is_an_equivalence(x[i].1, y[i].1, y[i].1);
                        assert(equal(x[i].1, y[i].1));
                    }
                    if let JsonModel::Object(z) = c {
                        if equal(b, c) {
                            assert forall|i: int| 0 <= i < x.len() implies (#[trigger] x[i]).0
                                == z[i].0 && equal(x[i].1, z[i].1) by {
                                assert(y[i].0 == z[i].0 && equal(y[i].1, z[i].1));
                                law_equal_is_an_equivalence(x[i].1, y[i].1, z[i].1);
                            }
                        }
                    }
                }
            }
        },
        _ => {},
    }
}

/// Values that are equal are the same value, but for the sign of a zero: of one kind,
/// with equal contents in the same places, under the same names.
pub proof fn law_equal_values_are_the_same(a: JsonModel, b: JsonModel)
    requires
        equal(a, b),
    ensures
        a is Null <==> b is Null,
        a matches JsonModel::Bool(x) ==> b == JsonModel::Bool(x),
        a matches JsonModel::Text(x) ==> b == JsonModel::Text(x),
        a matches JsonModel::Number(x) ==> (b matches JsonModel::Number(y) && (x == y || (x
            == "-0.0"@ && y == "0.0"@) || (x == "0.0"@ && y == "-0.0"@))),
        a matches JsonModel::Array(x) ==> (b matches JsonModel::Array(y) && x.len() == y.len() && (
        forall|i: int| 0 <= i < x.len() ==> equal(#[trigger] x[i], y[i]))),
        a matches JsonModel::Object(x) ==> (b matches JsonModel::Object(y) && x.len() == y.len() && (
        forall|i: int|
            0 <= i < x.len() ==> (#[trigger] x[i]).0 == y[i].0 && equal(x[i].1, y[i].1))),
{
}

/// A member of an object is found under its name, the first one where there are
/// several; what is no member is null.
pub proof fn law_members_are_found_by_name(
    members: Seq<(Seq<char>, JsonModel)>,
    name: Seq<char>,
    i: int,
)
    ensures
        0 <= i < members.len() && members[i].0 == name && (forall|j: int|
            0 <= j < i ==> (#[trigger] members[j]).0 != name) ==> field(
            JsonModel::Object(members),
            name,
        ) == members[i].1,
        (forall|j: int| 0 <= j < members.len() ==> (#[trigger] members[j]).0 != name) ==> field(
            JsonModel::Object(members),
            name,
        ) == JsonModel::Null,
    decreases members.len(),
{
    if members.len() > 0 {
        let rest = members.drop_first();
        law_members_are_found_by_name(rest, name, i - 1);
        assert forall|j: int| 0 <= j < rest.len() implies #[trigger] rest[j] == members[j + 1] by {}
        if members[0].0 != name && 0 < i < members.len() && members[i].0 == name && (forall|j: int|
            0 <= j < i ==> (#[trigger] members[j]).0 != name) {
            assert forall|j: int| 0 <= j < i - 1 implies (#[trigger] rest[j]).0 != name by {
                assert(members[j + 1].0 != name);
            }
            assert(rest[i - 1] == members[i]);
        }
        if forall|j: int| 0 <= j < members.len() ==> (#[trigger] members[j]).0 != name {
            assert(members[0].0 != name);
            assert forall|j: int| 0 <= j < rest.len() implies (#[trigger] rest[j]).0 != name by {
                assert(members[j + 1].0 != name);
            }
        }
    }
}

proof fn lemma_shown(
    members: Seq<(Seq<char>, JsonModel)>,
    hidden: Seq<Seq<char>>,
    member: (Seq<char>, JsonModel),
)
    ensures
        shown(members, hidden).contains(member) <==> members.contains(member) && !hidden.contains(
            member.0,
        ),
        shown(members, hidden).len() <= members.len(),
    decreases members.len(),
{
    if members.len() > 0 {
        let rest = members.drop_last();
        lemma_shown(rest, hidden, member);
        let before = shown(rest, hidden);
        let after = shown(members, hidden);
        if members.contains(member) {
            let k = choose|k: int| 0 <= k < members.len() && members[k] == member;
            if k < members.len() - 1 {
                assert(rest[k] == member);
            }
        }
        if rest.contains(member) {
            let k = choose|k: int| 0 <= k < rest.len() && rest[k] == member;
            assert(members[k] == member);
        }
        if before.contains(member) {
            let k = choose|k: int| 0 <= k < before.len() && before[k] == member;
            assert(after[k] == member);
        }
        if after.contains(member) {
            let k = choose|k: int| 0 <= k < after.len() && after[k] == member;
            if k < before.len() {
                assert(before[k] == member);
            } else {
                assert(members[members.len() - 1] == member);
            }
        }
        if !hidden.contains(members.last().0) {
            assert(after[before.len() as int] == members.last());
        }
    } else {
        assert(!members.contains(member));
    }
}

/// What is shown of a row is the row without its hidden columns: every other member
/// stays, with its value, and no hidden one does.
pub proof fn law_only_hidden_members_are_left_out(
    members: Seq<(Seq<char>, JsonModel)>,
    hidden: Seq<Seq<char>>,
    member: (Seq<char>, JsonModel),
)
    ensures
        without(JsonModel::Object(members), hidden) matches JsonModel::Object(left) && (
        left.contains(member) <==> members.contains(member) && !hidden.contains(member.0)),
{
    lemma_shown(members, hidden, member);
}

} // verus!
