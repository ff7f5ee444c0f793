use vstd::prelude::*;

verus! {

/// The mathematical value of a JSON document.
pub enum JsonV {
    Null,
    Bool(bool),
    Int(int),
    Float32(u32),
    Float64(u64),
    Str(Seq<char>),
    Array(Seq<JsonV>),
    Object(Seq<(Seq<char>, JsonV)>),
}

/// A JSON value tree. Numbers with a fraction are held as the IEEE-754 bits of
/// their `f32` or `f64` representation.
#[derive(Debug)]
pub enum Json {
    Null,
    Bool(bool),
    Int(i64),
    UInt(u64),
    Float32(u32),
    Float64(u64),
    Str(String),
    Array(Vec<Json>),
    Object(Vec<(String, Json)>),
}

impl Json {
    pub open spec fn view(self) -> JsonV
        decreases self,
    {
        match self {
            Json::Null => JsonV::Null,
            Json::Bool(b) => JsonV::Bool(b),
            Json::Int(i) => JsonV::Int(i as int),
            Json::UInt(u) => JsonV::Int(u as int),
            Json::Float32(b) => JsonV::Float32(b),
            Json::Float64(b) => JsonV::Float64(b),
            Json::Str(s) => JsonV::Str(s@),
            Json::Array(v) => JsonV::Array(
                Seq::new(v@.len(), |i: int| if 0 <= i < v@.len() { v@[i].view() } else { JsonV::Null }),
            ),
            Json::Object(v) => JsonV::Object(
                Seq::new(
                    v@.len(),
                    |i: int|
                        if 0 <= i < v@.len() {
                            (v@[i].0@, v@[i].1.view())
                        } else {
                            (Seq::empty(), JsonV::Null)
                        },
                ),
            ),
        }
    }
}


/// The views of a sequence of JSON values, in order.
pub open spec fn views(s: Seq<Json>) -> Seq<JsonV> {
    Seq::new(s.len(), |i: int| s[i]@)
}

/// `{ k: v }`
pub open spec fn obj1(k: Seq<char>, v: JsonV) -> JsonV {
    JsonV::Object(seq![(k, v)])
}

/// `{ k1: v1, k2: v2 }`
pub open spec fn obj2(k1: Seq<char>, v1: JsonV, k2: Seq<char>, v2: JsonV) -> JsonV {
    JsonV::Object(seq![(k1, v1), (k2, v2)])
}

/// `{ k1: v1, k2: v2, k3: v3 }`
pub open spec fn obj3(
    k1: Seq<char>,
    v1: JsonV,
    k2: Seq<char>,
    v2: JsonV,
    k3: Seq<char>,
    v3: JsonV,
) -> JsonV {
    JsonV::Object(seq![(k1, v1), (k2, v2), (k3, v3)])
}

/// `{ k: v }` in the view of a `(key, value)` pair.
pub open spec fn member_view(m: (String, Json)) -> (Seq<char>, JsonV) {
    (m.0@, m.1@)
}

/// A string value.
pub fn string(s: &str) -> (r: Json)
    ensures
        r@ == JsonV::Str(s@),
{
    Json::Str(s.to_string())
}

/// A string value that takes ownership of `s`.
pub fn string_from(s: String) -> (r: Json)
    ensures
        r@ == JsonV::Str(s@),
{
    Json::Str(s)
}

/// An array of the given values, in order.
pub fn array(v: Vec<Json>) -> (r: Json)
    ensures
        r@ == JsonV::Array(views(v@)),
{
    let r = Json::Array(v);
    assert(r@->Array_0 =~= views(v@));
    r
}

/// An array of one value.
pub fn array1(j: Json) -> (r: Json)
    ensures
        r@ == JsonV::Array(seq![j@]),
{
    let v = vec![j];
    let r = array(v);
    assert(views(v@) =~= seq![j@]);
    r
}

/// An object whose members are the given pairs, in order.
pub fn object(v: Vec<(String, Json)>) -> (r: Json)
    ensures
        r@ == JsonV::Object(Seq::new(v@.len(), |i: int| member_view(v@[i]))),
{
    let r = Json::Object(v);
    assert(r@->Object_0 =~= Seq::new(v@.len(), |i: int| member_view(v@[i])));
    r
}

/// `{ k: v }`
pub fn object1(k: &str, v: Json) -> (r: Json)
    ensures
        r@ == obj1(k@, v@),
{
    let ghost vv = v@;
    let m = vec![(k.to_string(), v)];
    let r = object(m);
    assert(Seq::new(m@.len(), |i: int| member_view(m@[i])) =~= seq![(k@, vv)]);
    r
}

/// `{ k1: v1, k2: v2 }`
pub fn object2(k1: &str, v1: Json, k2: &str, v2: Json) -> (r: Json)
    ensures
        r@ == obj2(k1@, v1@, k2@, v2@),
{
    let ghost (a, b) = (v1@, v2@);
    let m = vec![(k1.to_string(), v1), (k2.to_string(), v2)];
    let r = object(m);
    assert(Seq::new(m@.len(), |i: int| member_view(m@[i])) =~= seq![(k1@, a), (k2@, b)]);
    r
}

/// `{ k1: v1, k2: v2, k3: v3 }`
pub fn object3(k1: &str, v1: Json, k2: &str, v2: Json, k3: &str, v3: Json) -> (r: Json)
    ensures
        r@ == obj3(k1@, v1@, k2@, v2@, k3@, v3@),
{
    let ghost (a, b, c) = (v1@, v2@, v3@);
    let m = vec![(k1.to_string(), v1), (k2.to_string(), v2), (k3.to_string(), v3)];
    let r = object(m);
    assert(Seq::new(m@.len(), |i: int| member_view(m@[i])) =~= seq![(k1@, a), (k2@, b), (k3@, c)]);
    r
}

impl Json {
    /// A copy of this value with the same view.
    pub fn deep_clone(&self) -> (r: Json)
        ensures
            r@ == self@,
        decreases self,
    {
        match self {
            Json::Null => Json::Null,
            Json::Bool(b) => Json::Bool(*b),
            Json::Int(i) => Json::Int(*i),
            Json::UInt(u) => Json::UInt(*u),
            Json::Float32(b) => Json::Float32(*b),
            Json::Float64(b) => Json::Float64(*b),
            Json::Str(s) => Json::Str(s.clone()),
            Json::Array(v) => {
                let mut out: Vec<Json> = Vec::new();
                let mut i: usize = 0;
                while i < v.len()
                    invariant
                        i <= v@.len(),
                        out@.len() == i,
                        forall|k: int| 0 <= k < i ==> #[trigger] out@[k]@ == v@[k]@,
                        *self == Json::Array(*v),
                    decreases v@.len() - i,
                {
                    assert(decreases_to!(*self => v@[i as int])) by {
                        assert(decreases_to!(*self => (*self)->Array_0));
                        assert(decreases_to!(*v => v@));
                        assert(decreases_to!(v@ => v@[i as int]));
                    }
                    out.push(v[i].deep_clone());
                    i = i + 1;
                }
                let r = array(out);
                assert(views(out@) =~= views(v@));
                assert(self@->Array_0 =~= views(v@));
                r
            },
            Json::Object(v) => {
                let mut out: Vec<(String, Json)> = Vec::new();
                let mut i: usize = 0;
                while i < v.len()
                    invariant
                        i <= v@.len(),
                        out@.len() == i,
                        forall|k: int| 0 <= k < i ==> #[trigger] member_view(out@[k]) == member_view(v@[k]),
                        *self == Json::Object(*v),
                    decreases v@.len() - i,
                {
                    assert(decreases_to!(*self => v@[i as int].1)) by {
                        assert(decreases_to!(*self => (*self)->Object_0));
                        assert(decreases_to!(*v => v@));
                        assert(decreases_to!(v@ => v@[i as int]));
                        assert(decreases_to!(v@[i as int] => v@[i as int].1));
                    }
                    let c = v[i].1.deep_clone();
                    out.push((v[i].0.clone(), c));
                    i = i + 1;
                }
                let r = object(out);
                assert(Seq::new(out@.len(), |i: int| member_view(out@[i])) =~= Seq::new(v@.len(), |i: int| member_view(v@[i])));
                assert(self@->Object_0 =~= Seq::new(v@.len(), |i: int| member_view(v@[i])));
                r
            },
        }
    }
}

} // verus!
