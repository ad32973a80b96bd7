//! Flat JSON documents.

use vstd::prelude::*;
#[allow(unused_imports)]
use vstd::string::*;

verus! {

/// The members of an object as contracts speak of them: those that hold a text,
/// and those that hold a number.
pub type Members = (Seq<(Seq<char>, Seq<char>)>, Seq<(Seq<char>, u64)>);

/// An object whose members are texts and numbers.
#[derive(Debug)]
pub struct JsonObject {
    /// Members that hold a text.
    pub texts: Vec<(String, String)>,
    /// Members that hold a number.
    pub numbers: Vec<(String, u64)>,
}

/// What a list of named texts holds.
pub open spec fn text_members(list: Seq<(String, String)>) -> Seq<(Seq<char>, Seq<char>)> {
    list.map_values(|member: (String, String)| (member.0@, member.1@))
}

/// What a list of named numbers holds.
pub open spec fn number_members(list: Seq<(String, u64)>) -> Seq<(Seq<char>, u64)> {
    list.map_values(|member: (String, u64)| (member.0@, member.1))
}

impl View for JsonObject {
    type V = Members;

    open spec fn view(&self) -> Members {
        (text_members(self.texts@), number_members(self.numbers@))
    }
}

/// What a list of objects holds.
pub open spec fn objects_of(list: Seq<JsonObject>) -> Seq<Members> {
    list.map_values(|object: JsonObject| object@)
}

/// The text that `serde_json` writes for an object with these members.
pub uninterp spec fn json_object_text(
    texts: Seq<(Seq<char>, Seq<char>)>,
    numbers: Seq<(Seq<char>, u64)>,
) -> Seq<char>;

/// The text that `serde_json` writes for an array of such objects.
pub uninterp spec fn json_array_text(
    objects: Seq<(Seq<(Seq<char>, Seq<char>)>, Seq<(Seq<char>, u64)>)>,
) -> Seq<char>;

/// `serde_json::Value::to_string` on an object. The claim is that the text
/// depends on the members alone; how the text looks is not stated.
#[verifier::external_body]
pub(crate) fn write_object(object: &JsonObject) -> (text: String)
    ensures
        text@ == json_object_text(object@.0, object@.1),
{
    let texts = object.texts.iter().map(|m| (m.0.clone(), serde_json::Value::from(m.1.as_str())));
    let numbers = object.numbers.iter().map(|m| (m.0.clone(), serde_json::Value::from(m.1)));
    serde_json::Value::Object(texts.chain(numbers).collect()).to_string()
}

/// `serde_json::Value::to_string` on an array of objects. The claim is that the
/// text depends on the objects alone; how the text looks is not stated.
#[verifier::external_body]
pub(crate) fn write_array(objects: &Vec<JsonObject>) -> (text: String)
    ensures
        text@ == json_array_text(objects_of(objects@)),
{
    let values = objects.iter().map(
        |o|
            {
                let texts = o.texts.iter().map(
                    |m| (m.0.clone(), serde_json::Value::from(m.1.as_str())),
                );
                let numbers = o.numbers.iter().map(
                    |m| (m.0.clone(), serde_json::Value::from(m.1)),
                );
                serde_json::Value::Object(texts.chain(numbers).collect())
            },
    );
    serde_json::Value::Array(values.collect()).to_string()
}

} // verus!
