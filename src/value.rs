use vstd::prelude::*;
use crate::model::Json;

verus! {

broadcast use {
    vstd::std_specs::vec::axiom_vec_decreases_to_view,
    vstd::std_specs::vec::axiom_vec_index_decreases,
    vstd::seq::axiom_seq_index_decreases,
};

/// A JSON value. A floating-point number is held as its shortest decimal
/// text as serde_json writes it (`1.0`, `2.5`, `1e300`), so that two floats
/// are equal exactly when their texts are; `to_text` writes that text as it is.
#[derive(Debug, PartialEq)]
pub enum JsonValue {
    Null,
    Bool(bool),
    Int64(i64),
    UInt64(u64),
    Float64(String),
    String(String),
    Array(Vec<JsonValue>),
    Object(Vec<(String, JsonValue)>),
}

/// The model of a value, read through the whole tree.
pub open spec fn json_of(v: &JsonValue) -> Json
    decreases v,
{
    match v {
        JsonValue::Null => Json::Null,
        JsonValue::Bool(b) => Json::Bool(*b),
        JsonValue::Int64(i) => Json::Int(*i),
        JsonValue::UInt64(u) => Json::UInt(*u),
        JsonValue::Float64(s) => Json::Float(s@),
        JsonValue::String(s) => Json::Str(s@),
        JsonValue::Array(a) => Json::Array(
            Seq::new(a@.len(), |i: int| if 0 <= i < a@.len() { json_of(&a@[i]) } else { Json::Null }),
        ),
        JsonValue::Object(m) => Json::Object(
            Seq::new(
                m@.len(),
                |i: int|
                    if 0 <= i < m@.len() {
                        (m@[i].0@, json_of(&m@[i].1))
                    } else {
                        (Seq::empty(), Json::Null)
                    },
            ),
        ),
    }
}

impl View for JsonValue {
    type V = Json;

    open spec fn view(&self) -> Json {
        json_of(self)
    }
}

/// The models of a sequence of values.
pub open spec fn views(s: Seq<JsonValue>) -> Seq<Json> {
    Seq::new(s.len(), |i: int| s[i]@)
}

/// The models of the entries of an object.
pub open spec fn entry_views(s: Seq<(String, JsonValue)>) -> Seq<(Seq<char>, Json)> {
    Seq::new(s.len(), |i: int| (s[i].0@, s[i].1@))
}

/// The models of a sequence of strings.
pub open spec fn string_views(s: Seq<String>) -> Seq<Seq<char>> {
    Seq::new(s.len(), |i: int| s[i]@)
}

/// The models of a sequence of paths.
pub open spec fn path_views(s: Seq<Vec<String>>) -> Seq<Seq<Seq<char>>> {
    Seq::new(s.len(), |i: int| string_views(s[i]@))
}

pub proof fn lemma_array_view(a: Vec<JsonValue>)
    ensures
        JsonValue::Array(a)@ == Json::Array(views(a@)),
{
    assert(JsonValue::Array(a)@->Array_0 =~= views(a@));
}

pub proof fn lemma_object_view(m: Vec<(String, JsonValue)>)
    ensures
        JsonValue::Object(m)@ == Json::Object(entry_views(m@)),
{
    assert(JsonValue::Object(m)@->Object_0 =~= entry_views(m@));
}

/// The ways in which an operation of this library can fail.
#[derive(Debug, Clone, PartialEq)]
pub enum JsonError {
    /// The text is not JSON; the message says where and why.
    Parse(String),
    /// The operation needs an object and was given another kind of value.
    TypeMismatch,
}

impl Clone for JsonValue {
    fn clone(&self) -> (r: JsonValue)
        ensures
            r@ == self@,
    {
        self.duplicate()
    }
}

impl JsonValue {
    /// A copy of the whole tree.
    #[verifier::loop_isolation(false)]
    pub fn duplicate(&self) -> (r: JsonValue)
        ensures
            r@ == self@,
        decreases self,
    {
        match self {
            JsonValue::Null => JsonValue::Null,
            JsonValue::Bool(b) => JsonValue::Bool(*b),
            JsonValue::Int64(i) => JsonValue::Int64(*i),
            JsonValue::UInt64(u) => JsonValue::UInt64(*u),
            JsonValue::Float64(s) => JsonValue::Float64(s.clone()),
            JsonValue::String(s) => JsonValue::String(s.clone()),
            JsonValue::Array(a) => {
                let mut out: Vec<JsonValue> = Vec::new();
                let mut i: usize = 0;
                while i < a.len()
                    invariant
                        *self == JsonValue::Array(*a),
                        i <= a.len(),
                        out@.len() == i,
                        forall|j: int| 0 <= j < i ==> (#[trigger] out@[j])@ == a@[j]@,
                    decreases a.len() - i,
                {
                    proof {
                        assert(decreases_to!(self => a@[i as int]));
                    }
                    out.push(a[i].duplicate());
                    i = i + 1;
                }
                let r = JsonValue::Array(out);
                assert(r@->Array_0 =~= self@->Array_0);
                r
            },
            JsonValue::Object(m) => {
                let mut out: Vec<(String, JsonValue)> = Vec::new();
                let mut i: usize = 0;
                while i < m.len()
                    invariant
                        *self == JsonValue::Object(*m),
                        i <= m.len(),
                        out@.len() == i,
                        forall|j: int|
                            0 <= j < i ==> (#[trigger] out@[j]).0@ == m@[j].0@ && out@[j].1@
                                == m@[j].1@,
                    decreases m.len() - i,
                {
                    proof {
                        assert(decreases_to!(self => m@[i as int].1));
                    }
                    out.push((m[i].0.clone(), m[i].1.duplicate()));
                    i = i + 1;
                }
                let r = JsonValue::Object(out);
                assert(r@->Object_0 =~= self@->Object_0);
                r
            },
        }
    }

    pub fn is_null(&self) -> (r: bool)
        ensures
            r == (self@ is Null),
    {
        matches!(self, JsonValue::Null)
    }

    pub fn is_boolean(&self) -> (r: bool)
        ensures
            r == (self@ is Bool),
    {
        matches!(self, JsonValue::Bool(_))
    }

    /// True of all three kinds of number.
    pub fn is_number(&self) -> (r: bool)
        ensures
            r == (self@ is Int || self@ is UInt || self@ is Float),
    {
        matches!(self, JsonValue::Int64(_) | JsonValue::UInt64(_) | JsonValue::Float64(_))
    }

    pub fn is_string(&self) -> (r: bool)
        ensures
            r == (self@ is Str),
    {
        matches!(self, JsonValue::String(_))
    }

    pub fn is_array(&self) -> (r: bool)
        ensures
            r == (self@ is Array),
    {
        matches!(self, JsonValue::Array(_))
    }

    pub fn is_object(&self) -> (r: bool)
        ensures
            r == (self@ is Object),
    {
        matches!(self, JsonValue::Object(_))
    }

    pub fn is_i64(&self) -> (r: bool)
        ensures
            r == (self@ is Int),
    {
        matches!(self, JsonValue::Int64(_))
    }

    pub fn is_u64(&self) -> (r: bool)
        ensures
            r == (self@ is UInt),
    {
        matches!(self, JsonValue::UInt64(_))
    }

    pub fn is_f64(&self) -> (r: bool)
        ensures
            r == (self@ is Float),
    {
        matches!(self, JsonValue::Float64(_))
    }

    pub fn as_bool(&self) -> (r: Option<bool>)
        ensures
            r == (match self@ {
                Json::Bool(b) => Some(b),
                _ => None,
            }),
    {
        match self {
            JsonValue::Bool(b) => Some(*b),
            _ => None,
        }
    }

    pub fn as_i64(&self) -> (r: Option<i64>)
        ensures
            r == (match self@ {
                Json::Int(i) => Some(i),
                _ => None,
            }),
    {
        match self {
            JsonValue::Int64(i) => Some(*i),
            _ => None,
        }
    }

    pub fn as_u64(&self) -> (r: Option<u64>)
        ensures
            r == (match self@ {
                Json::UInt(u) => Some(u),
                _ => None,
            }),
    {
        match self {
            JsonValue::UInt64(u) => Some(*u),
            _ => None,
        }
    }

    /// The canonical decimal text of a floating-point number.
    pub fn as_f64(&self) -> (r: Option<String>)
        ensures
            r is Some <==> self@ is Float,
            r is Some ==> r->0@ == self@->Float_0,
    {
        match self {
            JsonValue::Float64(s) => Some(s.clone()),
            _ => None,
        }
    }

    pub fn as_str(&self) -> (r: Option<String>)
        ensures
            r is Some <==> self@ is Str,
            r is Some ==> r->0@ == self@->Str_0,
    {
        match self {
            JsonValue::String(s) => Some(s.clone()),
            _ => None,
        }
    }
}

} // verus!
