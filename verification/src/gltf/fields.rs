//! Typed access to the members of a JSON object.

use crate::float::{Float32, Float64};
use crate::gltf::error::{gives, yields, GltfError, Outcome};
use crate::json::{lemma_array_view, lemma_object_view, member_models, models, Model, Value};
use crate::text::same_text;
use vstd::prelude::*;
use vstd::string::*;

verus! {

/// The members of an object.
pub type Members = Seq<(Seq<char>, Model)>;

/// The value of the first member from `index` on that has this key.
pub open spec fn field_from(members: Members, key: Seq<char>, index: int) -> Option<Model>
    decreases members.len() - index,
{
    if !(0 <= index < members.len()) {
        None
    } else if members[index].0 == key {
        Some(members[index].1)
    } else {
        field_from(members, key, index + 1)
    }
}

/// The value of the first member that has this key.
pub open spec fn field(members: Members, key: Seq<char>) -> Option<Model> {
    field_from(members, key, 0)
}

pub open spec fn object_of(value: Model, what: Seq<char>) -> Outcome<Members> {
    match value {
        Model::Object(members) => Ok(members),
        _ => Err(what + " must be an object"@),
    }
}

pub open spec fn optional_object(members: Members, key: Seq<char>) -> Outcome<Option<Members>> {
    match field(members, key) {
        None => Ok(None),
        Some(value) => match object_of(value, key) {
            Ok(found) => Ok(Some(found)),
            Err(message) => Err(message),
        },
    }
}

pub open spec fn required_object(members: Members, key: Seq<char>) -> Outcome<Members> {
    match field(members, key) {
        None => Err("missing object "@ + key),
        Some(value) => object_of(value, key),
    }
}

pub open spec fn array_of(value: Model, key: Seq<char>) -> Outcome<Seq<Model>> {
    match value {
        Model::Array(items) => Ok(items),
        _ => Err(key + " must be an array"@),
    }
}

pub open spec fn optional_array(members: Members, key: Seq<char>) -> Outcome<Option<Seq<Model>>> {
    match field(members, key) {
        None => Ok(None),
        Some(value) => match array_of(value, key) {
            Ok(found) => Ok(Some(found)),
            Err(message) => Err(message),
        },
    }
}

/// The items of an optional array, none where it is missing.
pub open spec fn array_or_empty(members: Members, key: Seq<char>) -> Outcome<Seq<Model>> {
    match optional_array(members, key) {
        Err(message) => Err(message),
        Ok(None) => Ok(Seq::empty()),
        Ok(Some(items)) => Ok(items),
    }
}

pub open spec fn required_array(members: Members, key: Seq<char>) -> Outcome<Seq<Model>> {
    match field(members, key) {
        None => Err("missing array "@ + key),
        Some(value) => array_of(value, key),
    }
}

pub open spec fn optional_text(members: Members, key: Seq<char>) -> Outcome<Option<Seq<char>>> {
    match field(members, key) {
        None => Ok(None),
        Some(Model::Text(text)) => Ok(Some(text)),
        Some(_) => Err(key + " must be a string"@),
    }
}

/// The text of an optional member, empty where it is missing.
pub open spec fn text_or_empty(members: Members, key: Seq<char>) -> Outcome<Seq<char>> {
    match optional_text(members, key) {
        Err(message) => Err(message),
        Ok(None) => Ok(Seq::empty()),
        Ok(Some(text)) => Ok(text),
    }
}

pub open spec fn required_text(members: Members, key: Seq<char>) -> Outcome<Seq<char>> {
    match field(members, key) {
        None => Err("missing string "@ + key),
        Some(Model::Text(text)) => Ok(text),
        Some(_) => Err(key + " must be a string"@),
    }
}

pub open spec fn required_number(members: Members, key: Seq<char>) -> Outcome<Float64> {
    match field(members, key) {
        None => Err("missing number "@ + key),
        Some(Model::Number(value)) => Ok(value),
        Some(_) => Err(key + " must be a number"@),
    }
}

pub open spec fn optional_single(members: Members, key: Seq<char>) -> Outcome<Option<Float32>> {
    match field(members, key) {
        None => Ok(None),
        Some(Model::Number(value)) => if value.in_single_range() {
            Ok(Some(value.to_single()))
        } else {
            Err(key + " is not a finite f32"@)
        },
        Some(_) => Err(key + " must be a number"@),
    }
}

pub open spec fn required_u32(members: Members, key: Seq<char>) -> Outcome<u32> {
    match required_number(members, key) {
        Err(message) => Err(message),
        Ok(value) => if value.is_natural() && value.natural() <= u32::MAX {
            Ok(value.natural() as u32)
        } else {
            Err(key + " must be a u32"@)
        },
    }
}

pub open spec fn optional_u32(members: Members, key: Seq<char>) -> Outcome<Option<u32>> {
    match field(members, key) {
        None => Ok(None),
        Some(_) => match required_u32(members, key) {
            Ok(value) => Ok(Some(value)),
            Err(message) => Err(message),
        },
    }
}

/// The double nearest to the largest `usize`.
pub open spec fn usize_limit() -> nat {
    if usize::MAX > 0x20_0000_0000_0000 {
        (usize::MAX + 1) as nat
    } else {
        usize::MAX as nat
    }
}

/// A natural number as a `usize`, held to its range.
pub open spec fn held_to_usize(value: nat) -> usize {
    if value > usize::MAX {
        usize::MAX
    } else {
        value as usize
    }
}

pub open spec fn required_usize(members: Members, key: Seq<char>) -> Outcome<usize> {
    match required_number(members, key) {
        Err(message) => Err(message),
        Ok(value) => if value.is_natural() && value.natural() <= usize_limit() {
            Ok(held_to_usize(value.natural()))
        } else {
            Err(key + " must be a usize"@)
        },
    }
}

pub open spec fn optional_usize(members: Members, key: Seq<char>) -> Outcome<Option<usize>> {
    match field(members, key) {
        None => Ok(None),
        Some(_) => match required_usize(members, key) {
            Ok(value) => Ok(Some(value)),
            Err(message) => Err(message),
        },
    }
}

pub open spec fn optional_bool(members: Members, key: Seq<char>) -> Outcome<Option<bool>> {
    match field(members, key) {
        None => Ok(None),
        Some(Model::Bool(value)) => Ok(Some(value)),
        Some(_) => Err(key + " must be a bool"@),
    }
}

/// The natural number that an item is.
pub open spec fn natural_item(item: Model) -> Option<usize> {
    match item {
        Model::Number(value) => if value.is_natural() {
            Some(held_to_usize(value.natural()))
        } else {
            None
        },
        _ => None,
    }
}

pub open spec fn naturals(items: Seq<Model>, key: Seq<char>) -> Outcome<Seq<usize>> {
    if forall|i: int| 0 <= i < items.len() ==> natural_item(#[trigger] items[i]) is Some {
        Ok(Seq::new(items.len(), |i: int| natural_item(items[i])->0))
    } else {
        Err(key + " needs integer values"@)
    }
}

pub open spec fn required_naturals(members: Members, key: Seq<char>) -> Outcome<Seq<usize>> {
    match required_array(members, key) {
        Err(message) => Err(message),
        Ok(items) => naturals(items, key),
    }
}

/// The natural numbers of an optional array, none where it is missing.
pub open spec fn naturals_or_empty(members: Members, key: Seq<char>) -> Outcome<Seq<usize>> {
    match array_or_empty(members, key) {
        Err(message) => Err(message),
        Ok(items) => naturals(items, key),
    }
}

/// The single-precision value that an item is.
pub open spec fn single_item(item: Model) -> Option<Float32> {
    match item {
        Model::Number(value) => if value.in_single_range() {
            Some(value.to_single())
        } else {
            None
        },
        _ => None,
    }
}

pub open spec fn singles(items: Seq<Model>, key: Seq<char>) -> Outcome<Seq<Float32>> {
    if forall|i: int| 0 <= i < items.len() ==> single_item(#[trigger] items[i]) is Some {
        Ok(Seq::new(items.len(), |i: int| single_item(items[i])->0))
    } else {
        Err(key + " needs finite number values"@)
    }
}

pub open spec fn optional_singles(members: Members, key: Seq<char>) -> Outcome<
    Option<Seq<Float32>>,
> {
    match optional_array(members, key) {
        Err(message) => Err(message),
        Ok(None) => Ok(None),
        Ok(Some(items)) => match singles(items, key) {
            Ok(values) => Ok(Some(values)),
            Err(message) => Err(message),
        },
    }
}

pub fn get<'a>(object: &'a [(String, Value)], key: &str) -> (result: Option<&'a Value>)
    ensures
        match result {
            Some(value) => field(member_models(object@), key@) == Some(value@),
            None => field(member_models(object@), key@) is None,
        },
{
    let ghost members = member_models(object@);
    let mut i: usize = 0;
    while i < object.len()
        invariant
            i <= object@.len(),
            members == member_models(object@),
            field(members, key@) == field_from(members, key@, i as int),
        decreases object@.len() - i,
    {
        if same_text(object[i].0.as_str(), key) {
            return Some(&object[i].1);
        }
        i += 1;
    }
    None
}

pub fn as_object<'a>(value: &'a Value, what: &str) -> (result: Result<
    &'a [(String, Value)],
    GltfError,
>)
    ensures
        yields(result, object_of(value@, what@), |o: &'a [(String, Value)]| member_models(o@)),
{
    match value {
        Value::Object(members) => {
            proof {
                lemma_object_view(*members);
            }
            Ok(members.as_slice())
        },
        _ => Err(GltfError::about(what, " must be an object")),
    }
}

pub fn get_object<'a>(object: &'a [(String, Value)], key: &str) -> (result: Result<
    &'a [(String, Value)],
    GltfError,
>)
    ensures
        yields(
            result,
            required_object(member_models(object@), key@),
            |o: &'a [(String, Value)]| member_models(o@),
        ),
{
    match get(object, key) {
        Some(value) => as_object(value, key),
        None => Err(GltfError::about("missing object ", key)),
    }
}

/// The members that an optional object has.
pub open spec fn members_of_optional(object: Option<&[(String, Value)]>) -> Option<Members> {
    match object {
        Some(members) => Some(member_models(members@)),
        None => None,
    }
}

pub fn get_optional_object<'a>(object: &'a [(String, Value)], key: &str) -> (result: Result<
    Option<&'a [(String, Value)]>,
    GltfError,
>)
    ensures
        yields(
            result,
            optional_object(member_models(object@), key@),
            |o: Option<&'a [(String, Value)]>| members_of_optional(o),
        ),
{
    match get(object, key) {
        Some(value) => match as_object(value, key) {
            Ok(members) => Ok(Some(members)),
            Err(error) => Err(error),
        },
        None => Ok(None),
    }
}

fn as_array<'a>(value: &'a Value, key: &str) -> (result: Result<&'a [Value], GltfError>)
    ensures
        yields(result, array_of(value@, key@), |items: &'a [Value]| models(items@)),
{
    match value {
        Value::Array(items) => {
            proof {
                lemma_array_view(*items);
            }
            Ok(items.as_slice())
        },
        _ => Err(GltfError::about(key, " must be an array")),
    }
}

pub fn get_array<'a>(object: &'a [(String, Value)], key: &str) -> (result: Result<
    &'a [Value],
    GltfError,
>)
    ensures
        yields(
            result,
            required_array(member_models(object@), key@),
            |items: &'a [Value]| models(items@),
        ),
{
    match get(object, key) {
        Some(value) => as_array(value, key),
        None => Err(GltfError::about("missing array ", key)),
    }
}

/// The models of the items of an optional array.
pub open spec fn models_of_optional(items: Option<&[Value]>) -> Option<Seq<Model>> {
    match items {
        Some(values) => Some(models(values@)),
        None => None,
    }
}

pub fn get_optional_array<'a>(object: &'a [(String, Value)], key: &str) -> (result: Result<
    Option<&'a [Value]>,
    GltfError,
>)
    ensures
        yields(
            result,
            optional_array(member_models(object@), key@),
            |items: Option<&'a [Value]>| models_of_optional(items),
        ),
{
    match get(object, key) {
        Some(value) => match as_array(value, key) {
            Ok(items) => Ok(Some(items)),
            Err(error) => Err(error),
        },
        None => Ok(None),
    }
}

pub fn get_string<'a>(object: &'a [(String, Value)], key: &str) -> (result: Result<
    &'a str,
    GltfError,
>)
    ensures
        yields(result, required_text(member_models(object@), key@), |text: &'a str| text@),
{
    match get(object, key) {
        Some(Value::String(text)) => Ok(text.as_str()),
        Some(_) => Err(GltfError::about(key, " must be a string")),
        None => Err(GltfError::about("missing string ", key)),
    }
}

/// The characters of an optional text.
pub open spec fn text_of_optional(text: Option<&str>) -> Option<Seq<char>> {
    match text {
        Some(found) => Some(found@),
        None => None,
    }
}

pub fn get_optional_string<'a>(object: &'a [(String, Value)], key: &str) -> (result: Result<
    Option<&'a str>,
    GltfError,
>)
    ensures
        yields(
            result,
            optional_text(member_models(object@), key@),
            |text: Option<&'a str>| text_of_optional(text),
        ),
{
    match get(object, key) {
        Some(Value::String(text)) => Ok(Some(text.as_str())),
        Some(_) => Err(GltfError::about(key, " must be a string")),
        None => Ok(None),
    }
}

/// The text of an optional member, empty where it is missing.
pub fn get_text_or_empty(object: &[(String, Value)], key: &str) -> (result: Result<
    String,
    GltfError,
>)
    ensures
        yields(result, text_or_empty(member_models(object@), key@), |text: String| text@),
{
    match get_optional_string(object, key) {
        Ok(Some(text)) => Ok(text.to_owned()),
        Ok(None) => Ok(String::new()),
        Err(error) => Err(error),
    }
}

pub fn get_f64(object: &[(String, Value)], key: &str) -> (result: Result<Float64, GltfError>)
    ensures
        gives(result, required_number(member_models(object@), key@)),
{
    match get(object, key) {
        Some(Value::Number(value)) => Ok(*value),
        Some(_) => Err(GltfError::about(key, " must be a number")),
        None => Err(GltfError::about("missing number ", key)),
    }
}

pub fn get_optional_f32(object: &[(String, Value)], key: &str) -> (result: Result<
    Option<Float32>,
    GltfError,
>)
    ensures
        gives(result, optional_single(member_models(object@), key@)),
{
    match get(object, key) {
        Some(Value::Number(value)) => match value.as_single() {
            Some(single) => Ok(Some(single)),
            None => Err(GltfError::about(key, " is not a finite f32")),
        },
        Some(_) => Err(GltfError::about(key, " must be a number")),
        None => Ok(None),
    }
}

pub fn get_u32(object: &[(String, Value)], key: &str) -> (result: Result<u32, GltfError>)
    ensures
        gives(result, required_u32(member_models(object@), key@)),
{
    let value: Float64 = match get_f64(object, key) {
        Ok(value) => value,
        Err(error) => return Err(error),
    };
    match value.as_natural() {
        Some(natural) => if natural <= u32::MAX as u128 {
            Ok(natural as u32)
        } else {
            Err(GltfError::about(key, " must be a u32"))
        },
        None => Err(GltfError::about(key, " must be a u32")),
    }
}

pub fn get_optional_u32(object: &[(String, Value)], key: &str) -> (result: Result<
    Option<u32>,
    GltfError,
>)
    ensures
        gives(result, optional_u32(member_models(object@), key@)),
{
    match get(object, key) {
        Some(_) => match get_u32(object, key) {
            Ok(value) => Ok(Some(value)),
            Err(error) => Err(error),
        },
        None => Ok(None),
    }
}

fn hold_to_usize(value: u128) -> (result: usize)
    ensures
        result == held_to_usize(value as nat),
{
    if value > usize::MAX as u128 {
        usize::MAX
    } else {
        value as usize
    }
}

pub fn get_usize(object: &[(String, Value)], key: &str) -> (result: Result<usize, GltfError>)
    ensures
        gives(result, required_usize(member_models(object@), key@)),
{
    let value: Float64 = match get_f64(object, key) {
        Ok(value) => value,
        Err(error) => return Err(error),
    };
    let limit: u128 = if usize::MAX as u128 > 0x20_0000_0000_0000 {
        usize::MAX as u128 + 1
    } else {
        usize::MAX as u128
    };
    match value.as_natural() {
        Some(natural) => if natural <= limit {
            Ok(hold_to_usize(natural))
        } else {
            Err(GltfError::about(key, " must be a usize"))
        },
        None => Err(GltfError::about(key, " must be a usize")),
    }
}

pub fn get_optional_usize(object: &[(String, Value)], key: &str) -> (result: Result<
    Option<usize>,
    GltfError,
>)
    ensures
        gives(result, optional_usize(member_models(object@), key@)),
{
    match get(object, key) {
        Some(_) => match get_usize(object, key) {
            Ok(value) => Ok(Some(value)),
            Err(error) => Err(error),
        },
        None => Ok(None),
    }
}

pub fn get_optional_bool(object: &[(String, Value)], key: &str) -> (result: Result<
    Option<bool>,
    GltfError,
>)
    ensures
        gives(result, optional_bool(member_models(object@), key@)),
{
    match get(object, key) {
        Some(Value::Bool(value)) => Ok(Some(*value)),
        Some(_) => Err(GltfError::about(key, " must be a bool")),
        None => Ok(None),
    }
}

fn read_naturals(items: &[Value], key: &str) -> (result: Result<Vec<usize>, GltfError>)
    ensures
        yields(result, naturals(models(items@), key@), |values: Vec<usize>| values@),
{
    let ghost all = models(items@);
    let mut values: Vec<usize> = Vec::new();
    let mut i: usize = 0;
    while i < items.len()
        invariant
            i <= items@.len(),
            all == models(items@),
            values@.len() == i,
            forall|j: int| 0 <= j < i ==> natural_item(#[trigger] all[j]) == Some(values@[j]),
        decreases items@.len() - i,
    {
        assert(all[i as int] == items@[i as int]@);
        match &items[i] {
            Value::Number(value) => match value.as_natural() {
                Some(natural) => {
                    values.push(hold_to_usize(natural));
                },
                None => {
                    assert(natural_item(all[i as int]) is None);
                    return Err(GltfError::about(key, " needs integer values"));
                },
            },
            _ => {
                assert(natural_item(all[i as int]) is None);
                return Err(GltfError::about(key, " needs integer values"));
            },
        }
        i += 1;
    }
    assert(values@ =~= Seq::new(all.len(), |j: int| natural_item(all[j])->0));
    Ok(values)
}

pub fn get_usize_array(object: &[(String, Value)], key: &str) -> (result: Result<
    Vec<usize>,
    GltfError,
>)
    ensures
        yields(
            result,
            required_naturals(member_models(object@), key@),
            |values: Vec<usize>| values@,
        ),
{
    match get_array(object, key) {
        Ok(items) => read_naturals(items, key),
        Err(error) => Err(error),
    }
}

/// The natural numbers of an optional array, none where it is missing.
pub fn get_naturals_or_empty(object: &[(String, Value)], key: &str) -> (result: Result<
    Vec<usize>,
    GltfError,
>)
    ensures
        yields(
            result,
            naturals_or_empty(member_models(object@), key@),
            |values: Vec<usize>| values@,
        ),
{
    match get_optional_array(object, key) {
        Ok(Some(items)) => read_naturals(items, key),
        Ok(None) => {
            let values: Vec<usize> = Vec::new();
            assert(naturals(Seq::empty(), key@)->Ok_0 =~= values@);
            Ok(values)
        },
        Err(error) => Err(error),
    }
}

fn read_singles(items: &[Value], key: &str) -> (result: Result<Vec<Float32>, GltfError>)
    ensures
        yields(result, singles(models(items@), key@), |values: Vec<Float32>| values@),
{
    let ghost all = models(items@);
    let mut values: Vec<Float32> = Vec::new();
    let mut i: usize = 0;
    while i < items.len()
        invariant
            i <= items@.len(),
            all == models(items@),
            values@.len() == i,
            forall|j: int| 0 <= j < i ==> single_item(#[trigger] all[j]) == Some(values@[j]),
        decreases items@.len() - i,
    {
        assert(all[i as int] == items@[i as int]@);
        match &items[i] {
            Value::Number(value) => match value.as_single() {
                Some(single) => {
                    values.push(single);
                },
                None => {
                    assert(single_item(all[i as int]) is None);
                    return Err(GltfError::about(key, " needs finite number values"));
                },
            },
            _ => {
                assert(single_item(all[i as int]) is None);
                return Err(GltfError::about(key, " needs finite number values"));
            },
        }
        i += 1;
    }
    assert(values@ =~= Seq::new(all.len(), |j: int| single_item(all[j])->0));
    Ok(values)
}

/// The values of an optional list.
pub open spec fn values_of_optional<T>(values: Option<Vec<T>>) -> Option<Seq<T>> {
    match values {
        Some(found) => Some(found@),
        None => None,
    }
}

pub fn get_optional_f32_array(object: &[(String, Value)], key: &str) -> (result: Result<
    Option<Vec<Float32>>,
    GltfError,
>)
    ensures
        yields(
            result,
            optional_singles(member_models(object@), key@),
            |values: Option<Vec<Float32>>| values_of_optional(values),
        ),
{
    match get_optional_array(object, key) {
        Ok(Some(items)) => match read_singles(items, key) {
            Ok(values) => Ok(Some(values)),
            Err(error) => Err(error),
        },
        Ok(None) => Ok(None),
        Err(error) => Err(error),
    }
}

/// The items of an optional array, none where it is missing.
pub fn get_array_or_empty<'a>(object: &'a [(String, Value)], key: &str) -> (result: Result<
    &'a [Value],
    GltfError,
>)
    ensures
        yields(
            result,
            array_or_empty(member_models(object@), key@),
            |items: &'a [Value]| models(items@),
        ),
{
    match get_optional_array(object, key) {
        Ok(Some(items)) => Ok(items),
        Ok(None) => {
            let none: &'a [Value] = &[];
            assert(models(none@) =~= Seq::<Model>::empty());
            Ok(none)
        },
        Err(error) => Err(error),
    }
}

} // verus!
