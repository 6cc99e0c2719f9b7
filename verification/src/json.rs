//! JSON values as the document model holds them: settings, info and layout
//! payloads. Numbers keep the distinction JSON numbers carry (negative integer,
//! non-negative integer, or a double, the latter by its IEEE-754 bit pattern).
use vstd::prelude::*;


verus! {

#[derive(Debug, PartialEq)]
pub enum JsonValue {
    Null,
    Bool(bool),
    /// A negative integer.
    Int(i64),
    /// A non-negative integer.
    UInt(u64),
    /// A double, by its bit pattern.
    Float(u64),
    Str(String),
    Array(Vec<JsonValue>),
    Object(Vec<(String, JsonValue)>),
}

/// The mathematical content of a JSON value.
pub enum JsonV {
    Null,
    Bool(bool),
    Int(i64),
    UInt(u64),
    Float(u64),
    Str(Seq<char>),
    Array(Seq<JsonV>),
    Object(Seq<(Seq<char>, JsonV)>),
}

impl JsonValue {
    pub open spec fn jv(&self) -> JsonV
        decreases self,
    {
        match self {
            JsonValue::Null => JsonV::Null,
            JsonValue::Bool(b) => JsonV::Bool(*b),
            JsonValue::Int(i) => JsonV::Int(*i),
            JsonValue::UInt(u) => JsonV::UInt(*u),
            JsonValue::Float(f) => JsonV::Float(*f),
            JsonValue::Str(s) => JsonV::Str(s@),
            JsonValue::Array(items) => JsonV::Array(
                Seq::new(
                    items@.len(),
                    |i: int|
                        if 0 <= i < items@.len() {
                            items@[i].jv()
                        } else {
                            JsonV::Null
                        },
                ),
            ),
            JsonValue::Object(m) => JsonV::Object(
                Seq::new(
                    m@.len(),
                    |i: int|
                        if 0 <= i < m@.len() {
                            (m@[i].0@, m@[i].1.jv())
                        } else {
                            (Seq::empty(), JsonV::Null)
                        },
                ),
            ),
        }
    }
}

impl View for JsonValue {
    type V = JsonV;

    open spec fn view(&self) -> JsonV {
        self.jv()
    }
}

/// The content of a JSON object.
pub open spec fn map_view(m: Seq<(String, JsonValue)>) -> Seq<(Seq<char>, JsonV)> {
    Seq::new(m.len(), |i: int| (m[i].0@, m[i].1@))
}

/// A JSON object: distinct keys in order.
pub type JsonMap = Vec<(String, JsonValue)>;

impl JsonValue {
    /// `Value::as_i64`: an integer that fits `i64`.
    pub open spec fn spec_as_i64(&self) -> Option<i64> {
        match *self {
            JsonValue::Int(i) => Some(i),
            JsonValue::UInt(u) => if u <= i64::MAX as u64 {
                Some(u as i64)
            } else {
                None
            },
            _ => None,
        }
    }

    pub fn as_i64(&self) -> (r: Option<i64>)
        ensures
            r == self.spec_as_i64(),
    {
        match self {
            JsonValue::Int(i) => Some(*i),
            JsonValue::UInt(u) => if *u <= i64::MAX as u64 {
                Some(*u as i64)
            } else {
                None
            },
            _ => None,
        }
    }
}

impl JsonValue {
    /// An identical copy.
    #[verifier::loop_isolation(false)]
    pub fn duplicate(&self) -> (r: JsonValue)
        ensures
            r@ == self@,
        decreases self,
    {
        match self {
            JsonValue::Null => JsonValue::Null,
            JsonValue::Bool(b) => JsonValue::Bool(*b),
            JsonValue::Int(i) => JsonValue::Int(*i),
            JsonValue::UInt(u) => JsonValue::UInt(*u),
            JsonValue::Float(f) => JsonValue::Float(*f),
            JsonValue::Str(s) => JsonValue::Str(s.clone()),
            JsonValue::Array(items) => {
                let mut out: Vec<JsonValue> = Vec::new();
                let mut i: usize = 0;
                while i < items.len()
                    invariant
                        i <= items@.len(),
                        out@.len() == i,
                        forall|j: int| 0 <= j < i ==> #[trigger] out@[j]@ == items@[j]@,
                    decreases items@.len() - i,
                {
                    proof {
                        assert(decreases_to!(*items => items[i as int]));
                    }
                    out.push(items[i].duplicate());
                    i = i + 1;
                }
                let r = JsonValue::Array(out);
                proof {
                    assert(r@ == self@) by {
                        if let JsonV::Array(a) = r@ {
                            if let JsonV::Array(b) = self@ {
                                assert forall|j: int| 0 <= j < a.len() implies a[j] == b[j] by {
                                    assert(out@[j]@ == items@[j]@);
                                }
                                assert(a =~= b);
                            }
                        }
                    }
                }
                r
            },
            JsonValue::Object(m) => {
                let mut out: JsonMap = Vec::new();
                let mut i: usize = 0;
                while i < m.len()
                    invariant
                        i <= m@.len(),
                        out@.len() == i,
                        forall|j: int| 0 <= j < i ==> (#[trigger] out@[j]).0@ == m@[j].0@ && out@[j].1@ == m@[j].1@,
                    decreases m@.len() - i,
                {
                    proof {
                        assert(decreases_to!(*m => m[i as int]));
                        assert(decreases_to!(m[i as int] => m[i as int].1));
                    }
                    let v = m[i].1.duplicate();
                    out.push((m[i].0.clone(), v));
                    i = i + 1;
                }
                let r = JsonValue::Object(out);
                proof {
                    assert(r@ == self@) by {
                        if let JsonV::Object(a) = r@ {
                            if let JsonV::Object(b) = self@ {
                                assert(a =~= b);
                            }
                        }
                    }
                }
                r
            },
        }
    }
}

/// An identical copy of an object's entries.
pub fn copy_map(m: &JsonMap) -> (r: JsonMap)
    ensures
        map_view(r@) == map_view(m@),
{
    let mut out: JsonMap = Vec::new();
    let mut i: usize = 0;
    while i < m.len()
        invariant
            i <= m@.len(),
            out@.len() == i,
            forall|j: int| 0 <= j < i ==> (#[trigger] out@[j]).0@ == m@[j].0@ && out@[j].1@ == m@[j].1@,
        decreases m@.len() - i,
    {
        out.push((m[i].0.clone(), m[i].1.duplicate()));
        i = i + 1;
    }
    assert(map_view(out@) =~= map_view(m@));
    out
}

/// An object's entries, or an empty object for any other value.
pub fn object_entries(v: &JsonValue) -> (r: JsonMap)
    ensures
        match v {
            JsonValue::Object(m) => map_view(r@) == map_view(m@),
            _ => r@.len() == 0,
        },
{
    match v {
        JsonValue::Object(m) => copy_map(m),
        _ => Vec::new(),
    }
}

} // verus!
