//! The value tree, its mathematical model, and the errors of the parser.
use vstd::prelude::*;

verus! {

broadcast use vstd::std_specs::vec::group_vec_axioms;

/// Why a text is not valid JSON.
#[derive(Clone, Copy, Debug, PartialEq, Eq, Structural)]
pub enum ErrorKind {
    /// No value where one was expected: the input ended (the whole text is
    /// blank, or an object member ends after its `:`).
    Empty,
    /// The input ended too early. The parser never reports this kind: where
    /// the input ends it names what is missing instead (`Empty`,
    /// `InvalidString`, `MissingColon`, `MissingArrayEnd`, `MissingObjectEnd`).
    Eof,
    /// Characters remain after a complete top-level value.
    HasTail,
    /// The next character starts no value.
    InvalidValue,
    /// A comma in an array is followed by the closing bracket.
    InvalidArray,
    /// A comma in an object is followed by the closing brace.
    InvalidObject,
    /// A `t` or `f` that does not start `true` or `false`.
    InvalidBool,
    /// An `n` that does not start `null`.
    InvalidNull,
    /// A numeric literal breaks the grammar, or an integer does not fit in 64 bits.
    InvalidNumber,
    /// A string lacks its opening or closing quote, or holds a raw control character.
    InvalidString,
    /// An unknown escape, a malformed `\u` escape or an unpaired surrogate.
    InvalidEscapeSequence,
    /// An object key is not followed by `:`, or the input ends after it.
    MissingColon,
    /// An array does not start with `[`.
    MissingArrayStart,
    /// An array lacks its closing `]`: after `[`, an element or a comma, the
    /// input ends, or an element is followed by neither `,` nor `]`.
    MissingArrayEnd,
    /// An object does not start with `{`.
    MissingObjectStart,
    /// An object lacks its closing `}`: after `{`, a member or a comma, the
    /// input ends, or a member is followed by neither `,` nor `}`.
    MissingObjectEnd,
    /// An object member does not start with a quoted key.
    NoPair,
    /// Arrays and objects are nested deeper than the parser allows.
    TooDeep,
}

/// A parsed JSON value.
#[derive(Debug, PartialEq)]
pub enum JsonValue {
    Int(i64),
    /// A number with a fraction or an exponent, kept as the literal's text; its
    /// magnitude is that of the correctly rounded double nearest to the text.
    Float(String),
    Bool(bool),
    Null,
    String(String),
    Array(Vec<JsonValue>),
    /// Members in order of first appearance; each key occurs once.
    Object(Vec<(String, JsonValue)>),
}

/// The mathematical model of a JSON value.
pub ghost enum Json {
    Null,
    Bool(bool),
    Int(int),
    Float(Seq<char>),
    Str(Seq<char>),
    Array(Seq<Json>),
    Object(Seq<(Seq<char>, Json)>),
}

impl JsonValue {
    pub open spec fn model(&self) -> Json
        decreases self,
    {
        match self {
            JsonValue::Int(n) => Json::Int(*n as int),
            JsonValue::Float(t) => Json::Float(t@),
            JsonValue::Bool(b) => Json::Bool(*b),
            JsonValue::Null => Json::Null,
            JsonValue::String(t) => Json::Str(t@),
            JsonValue::Array(vs) => Json::Array(
                Seq::new(vs.len() as nat, |i: int| if 0 <= i < vs.len() { vs[i].model() } else { Json::Null }),
            ),
            JsonValue::Object(ms) => Json::Object(
                Seq::new(
                    ms.len() as nat,
                    |i: int|
                        if 0 <= i < ms.len() {
                            (ms[i].0@, ms[i].1.model())
                        } else {
                            (Seq::empty(), Json::Null)
                        },
                ),
            ),
        }
    }
}

/// The models of a sequence of values.
pub open spec fn values_model(vs: Seq<JsonValue>) -> Seq<Json> {
    vs.map_values(|v: JsonValue| v.model())
}

/// The models of a sequence of members.
pub open spec fn members_model(ms: Seq<(String, JsonValue)>) -> Seq<(Seq<char>, Json)> {
    ms.map_values(|m: (String, JsonValue)| (m.0@, m.1.model()))
}

/// Each key occurs once.
pub open spec fn keys_unique(ms: Seq<(Seq<char>, Json)>) -> bool {
    forall|i: int, j: int| 0 <= i < ms.len() && 0 <= j < ms.len() && i != j ==> ms[i].0 != ms[j].0
}

pub proof fn lemma_array_model(vs: Vec<JsonValue>)
    ensures
        JsonValue::Array(vs).model() == Json::Array(values_model(vs@)),
{
    let m = JsonValue::Array(vs).model();
    assert(m->Array_0 =~= values_model(vs@));
}

pub proof fn lemma_object_model(ms: Vec<(String, JsonValue)>)
    ensures
        JsonValue::Object(ms).model() == Json::Object(members_model(ms@)),
{
    let m = JsonValue::Object(ms).model();
    assert(m->Object_0 =~= members_model(ms@));
}

} // verus!
