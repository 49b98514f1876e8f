//! Tags of an element: whether they name it, and their JSON text.

use vstd::prelude::*;

verus! {

/// One key/value pair of an element.
#[derive(Debug, Clone, PartialEq, Eq)]
pub struct Tag {
    pub key: String,
    pub value: String,
}

/// `part` stands in `text` at position `i`.
pub open spec fn occurs_at(text: Seq<char>, part: Seq<char>, i: int) -> bool {
    &&& 0 <= i
    &&& i + part.len() <= text.len()
    &&& text.subrange(i, i + part.len()) == part
}

/// The key holds the substring `name`.
pub open spec fn contains_name(key: Seq<char>) -> bool {
    exists|i: int| occurs_at(key, "name"@, i)
}

/// Some key of the tags holds the substring `name`.
pub open spec fn has_name_key(tags: Seq<Tag>) -> bool {
    exists|j: int| 0 <= j < tags.len() && contains_name((#[trigger] tags[j]).key@)
}

/// The members of a JSON object that has none.
pub open spec fn no_members() -> Map<Seq<char>, Seq<char>> {
    Map::empty()
}

/// The tags as a map from key to value; of two tags with one key the later
/// counts.
pub open spec fn tag_members(tags: Seq<Tag>) -> Map<Seq<char>, Seq<char>>
    decreases tags.len(),
{
    if tags.len() == 0 {
        no_members()
    } else {
        tag_members(tags.drop_last()).insert(tags.last().key@, tags.last().value@)
    }
}

/// Tests whether `key` holds the substring `name`.
pub fn key_has_name(key: &str) -> (r: bool)
    ensures
        r == contains_name(key@),
{
    let mut a: char = ' ';
    let mut b: char = ' ';
    let mut c: char = ' ';
    let mut d: char = ' ';
    let mut seen: u8 = 0;
    proof {
        reveal_strlit("name");
    }
    for ch in it: key.chars()
        invariant
            it.seq() == key@,
            "name"@.len() == 4,
            "name"@[0] == 'n' && "name"@[1] == 'a' && "name"@[2] == 'm' && "name"@[3] == 'e',
            seen as int == if it.index() < 4 {
                it.index() as int
            } else {
                4
            },
            seen >= 1 ==> d == key@[it.index() - 1],
            seen >= 2 ==> c == key@[it.index() - 2],
            seen >= 3 ==> b == key@[it.index() - 3],
            seen >= 4 ==> a == key@[it.index() - 4],
            forall|i: int| i + 4 <= it.index() ==> !occurs_at(key@, "name"@, i),
    {
        a = b;
        b = c;
        c = d;
        d = ch;
        if seen < 4 {
            seen += 1;
        }
        let ghost start = it.index() + 1 - 4;
        if seen == 4 && a == 'n' && b == 'a' && c == 'm' && d == 'e' {
            assert(key@.subrange(start, start + 4) =~= "name"@);
            assert(occurs_at(key@, "name"@, start));
            return true;
        }
    }
    false
}

/// Tests whether some key of the tags holds the substring `name`.
pub fn tags_has_name(tags: &Vec<Tag>) -> (r: bool)
    ensures
        r == has_name_key(tags@),
{
    let mut j: usize = 0;
    while j < tags.len()
        invariant
            j <= tags.len(),
            forall|m: int| 0 <= m < j ==> !contains_name((#[trigger] tags[m]).key@),
        decreases tags.len() - j,
    {
        if key_has_name(tags[j].key.as_str()) {
            return true;
        }
        j += 1;
    }
    false
}

/// `serde_json::Map`, of which nothing but what the functions below state
/// is known.
#[verifier::external_type_specification]
#[verifier::external_body]
#[verifier::reject_recursive_types(K)]
#[verifier::reject_recursive_types(V)]
pub struct ExJsonMap<K, V>(serde_json::Map<K, V>);

/// `serde_json::Value`, which is only carried.
#[verifier::external_type_specification]
#[verifier::external_body]
pub struct ExJsonValue(serde_json::Value);

/// A JSON object as `serde_json` holds it.
pub type JsonObject = serde_json::Map<String, serde_json::Value>;

/// The members of a JSON object whose values are all strings, from key to
/// value.
pub uninterp spec fn json_members(object: JsonObject) -> Map<Seq<char>, Seq<char>>;

/// The compact JSON text of the object that has these string members.
pub uninterp spec fn json_object_text(members: Map<Seq<char>, Seq<char>>) -> Seq<char>;

/// `serde_json::Map::new`: a JSON object without members.
#[verifier::external_body]
fn json_object_new() -> (object: JsonObject)
    ensures
        json_members(object) == no_members(),
{
    serde_json::Map::new()
}

/// `serde_json::Map::insert` of a string value: the object then has `value`
/// under `key`, in place of what it had there, and its other members as
/// before.
#[verifier::external_body]
fn json_object_insert(object: &mut JsonObject, key: String, value: String)
    ensures
        json_members(*final(object)) == json_members(*old(object)).insert(key@, value@),
{
    object.insert(key, serde_json::Value::String(value));
}

/// `to_string` of a `serde_json::Value::Object`: the compact JSON text of the
/// object. Its members determine it: `serde_json` keeps them in the order of
/// their keys, unless it is built with `preserve_order`, which this crate
/// does not ask for.
#[verifier::external_body]
fn json_object_to_string(object: JsonObject) -> (text: String)
    ensures
        text@ == json_object_text(json_members(object)),
{
    serde_json::Value::Object(object).to_string()
}

/// The tags as the text of one JSON object with a string member for each key.
pub fn tags_to_json_string(tags: &Vec<Tag>) -> (text: String)
    ensures
        text@ == json_object_text(tag_members(tags@)),
{
    let mut object = json_object_new();
    let mut j: usize = 0;
    while j < tags.len()
        invariant
            j <= tags.len(),
            json_members(object) == tag_members(tags@.take(j as int)),
        decreases tags.len() - j,
    {
        proof {
            assert(tags@.take(j + 1).drop_last() =~= tags@.take(j as int));
        }
        json_object_insert(&mut object, tags[j].key.clone(), tags[j].value.clone());
        j += 1;
    }
    proof {
        assert(tags@.take(tags@.len() as int) =~= tags@);
    }
    json_object_to_string(object)
}

} // verus!
