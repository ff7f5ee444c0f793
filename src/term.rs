use vstd::prelude::*;
use crate::ast::{ComparisonOpcode, QualifiedField, Term};
use crate::error::{unsupported, DslError, ErrV, NodeKind};
use crate::json::{
    array, array1, obj1, obj2, obj3, object1, object2, object3, string, views, Json,
    JsonV,
};

verus! {

/// The bits of the `f32` one: the boost of a leaf whose term gives none.
pub const DEFAULT_BOOST: u32 = 0x3f80_0000;

/// The boost a leaf carries: the term's own, or the default.
pub open spec fn boost_of(b: Option<u32>) -> u32 {
    match b {
        Some(x) => x,
        None => DEFAULT_BOOST,
    }
}

/// The view of a compilation result.
pub open spec fn result_view(r: Result<Json, DslError>) -> Result<JsonV, ErrV> {
    match r {
        Ok(j) => Ok(j@),
        Err(e) => Err(e@),
    }
}

/// `{ kind: { field: { key: value, "boost": boost } } }`
pub open spec fn leaf(kind: Seq<char>, field: Seq<char>, key: Seq<char>, value: JsonV, b: Option<u32>) -> JsonV {
    obj1(kind, obj1(field, obj2(key, value, "boost"@, JsonV::Float32(boost_of(b)))))
}

/// `{ "exists": { "field": field } }`
pub open spec fn exists_leaf(field: Seq<char>) -> JsonV {
    obj1("exists"@, obj1("field"@, JsonV::Str(field)))
}

/// `{ "bool": { "must_not": [q] } }`
pub open spec fn must_not(q: JsonV) -> JsonV {
    obj1("bool"@, obj1("must_not"@, JsonV::Array(seq![q])))
}

/// `{ "bool": { "should": clauses } }`
pub open spec fn should(clauses: Seq<JsonV>) -> JsonV {
    obj1("bool"@, obj1("should"@, JsonV::Array(clauses)))
}

/// The boost member of a leaf `{ kind: { field: { ..., "boost": b } } }`.
pub open spec fn leaf_boost(j: JsonV) -> Option<JsonV> {
    match j {
        JsonV::Object(outer) => if outer.len() == 1 {
            match outer[0].1 {
                JsonV::Object(mid) => if mid.len() == 1 {
                    match mid[0].1 {
                        JsonV::Object(ms) => if ms.len() > 0 && ms.last().0 == "boost"@ {
                            Some(ms.last().1)
                        } else {
                            None
                        },
                        _ => None,
                    }
                } else {
                    None
                },
                _ => None,
            }
        } else {
            None
        },
        _ => None,
    }
}

/// Whether `t` is a term with a boost that is absent.
pub open spec fn boost_absent(t: Term) -> bool {
    match t {
        Term::String(_, b) => b is None,
        Term::Phrase(_, b) => b is None,
        Term::PhraseWithWildcard(_, b) => b is None,
        Term::Wildcard(_, b) => b is None,
        Term::Fuzzy(_, _, b) => b is None,
        Term::Range(_, _, b) => b is None,
        Term::Regex(_, b) => b is None,
        _ => false,
    }
}

/// A phrase that ends in its only wildcard, a single `*`, and holds no `?`.
pub open spec fn is_right_truncated(s: Seq<char>) -> bool {
    &&& s.len() > 0
    &&& s.last() == '*'
    &&& forall|i: int| 0 <= i < s.len() - 1 ==> s[i] != '*' && s[i] != '?'
}

/// The strings among an array's members, and the equality encoding of each
/// other member, both in order; or the error of the first member that
/// equality cannot encode.
pub open spec fn array_parts(field: Seq<char>, s: Seq<Term>) -> Result<(Seq<Seq<char>>, Seq<JsonV>), ErrV>
    decreases s,
{
    if s.len() == 0 {
        Ok((Seq::empty(), Seq::empty()))
    } else {
        match array_parts(field, s.drop_last()) {
            Err(e) => Err(e),
            Ok((strs, cls)) => match s.last() {
                Term::String(x, _) => Ok((strs.push(x@), cls)),
                _ => match eq_spec(field, s.last()) {
                    Err(e) => Err(e),
                    Ok(c) => Ok((strs, cls.push(c))),
                },
            },
        }
    }
}

/// `{ "terms": { field: strs } }`
pub open spec fn terms_leaf(field: Seq<char>, strs: Seq<Seq<char>>) -> JsonV {
    obj1("terms"@, obj1(field, JsonV::Array(Seq::new(strs.len(), |i: int| JsonV::Str(strs[i])))))
}

/// The clauses of an array: the other clauses, then one `terms` leaf when
/// there are strings.
pub open spec fn array_clauses(field: Seq<char>, strs: Seq<Seq<char>>, cls: Seq<JsonV>) -> Seq<JsonV> {
    if strs.len() > 0 {
        cls.push(terms_leaf(field, strs))
    } else {
        cls
    }
}

/// A single clause stands alone; any other number is wrapped in "any of".
pub open spec fn any_of(all: Seq<JsonV>) -> JsonV {
    if all.len() == 1 {
        all[0]
    } else {
        should(all)
    }
}

/// What equality of `field` with `t` encodes to.
pub open spec fn eq_spec(field: Seq<char>, t: Term) -> Result<JsonV, ErrV>
    decreases t,
{
    match t {
        Term::Null => Ok(must_not(exists_leaf(field))),
        Term::MatchAll => Ok(exists_leaf(field)),
        Term::String(s, b) => Ok(leaf("term"@, field, "value"@, JsonV::Str(s@), b)),
        Term::Phrase(s, b) => Ok(leaf("match_phrase"@, field, "query"@, JsonV::Str(s@), b)),
        Term::PhraseWithWildcard(s, b) => if is_right_truncated(s@) {
            Ok(leaf("match_phrase_prefix"@, field, "query"@, JsonV::Str(s@.drop_last()), b))
        } else {
            Err(ErrV::UnsupportedConstruct(NodeKind::WildcardPhrase))
        },
        Term::Wildcard(w, b) => Ok(leaf("wildcard"@, field, "value"@, JsonV::Str(w@), b)),
        Term::Fuzzy(f, d, b) => Ok(
            obj1(
                "fuzzy"@,
                obj1(
                    field,
                    obj3(
                        "value"@,
                        JsonV::Str(f@),
                        "prefix_length"@,
                        JsonV::Int(d as int),
                        "boost"@,
                        JsonV::Float32(boost_of(b)),
                    ),
                ),
            ),
        ),
        Term::Range(s, e, b) => Ok(
            obj1(
                "range"@,
                obj1(
                    field,
                    obj3(
                        "gte"@,
                        JsonV::Str(s@),
                        "lte"@,
                        JsonV::Str(e@),
                        "boost"@,
                        JsonV::Float32(boost_of(b)),
                    ),
                ),
            ),
        ),
        Term::ParsedArray(v, _) => match array_parts(field, v@) {
            Err(e) => Err(e),
            Ok((strs, cls)) => Ok(any_of(array_clauses(field, strs, cls))),
        },
        Term::Regex(_, _) => Err(ErrV::UnsupportedConstruct(NodeKind::Term)),
    }
}

/// The bound key of a range opcode.
pub open spec fn range_key(op: ComparisonOpcode) -> Seq<char> {
    match op {
        ComparisonOpcode::Gt => "gt"@,
        ComparisonOpcode::Gte => "gte"@,
        ComparisonOpcode::Lt => "lt"@,
        _ => "lte"@,
    }
}

/// What comparing `field` with `t` under `op` encodes to.
pub open spec fn term_spec(field: Seq<char>, t: Term, op: ComparisonOpcode) -> Result<JsonV, ErrV> {
    match op {
        ComparisonOpcode::Contains | ComparisonOpcode::Eq => eq_spec(field, t),
        ComparisonOpcode::DoesNotContain | ComparisonOpcode::Ne => match eq_spec(field, t) {
            Err(e) => Err(e),
            Ok(q) => Ok(must_not(q)),
        },
        ComparisonOpcode::Regex => match t {
            Term::Regex(r, b) => Ok(leaf("regex"@, field, "value"@, JsonV::Str(r@), b)),
            _ => Err(ErrV::UnsupportedConstruct(NodeKind::RegexTerm)),
        },
        ComparisonOpcode::Gt | ComparisonOpcode::Gte | ComparisonOpcode::Lt
        | ComparisonOpcode::Lte => match t {
            Term::String(s, b) => Ok(leaf("range"@, field, range_key(op), JsonV::Str(s@), b)),
            _ => Err(ErrV::UnsupportedConstruct(NodeKind::RangeTerm)),
        },
        _ => Err(ErrV::UnsupportedConstruct(NodeKind::Opcode)),
    }
}

/// An error among the first members of an array is the error of the array.
proof fn lemma_array_parts_err(field: Seq<char>, s: Seq<Term>, k: int)
    requires
        0 <= k <= s.len(),
        array_parts(field, s.subrange(0, k)) is Err,
    ensures
        array_parts(field, s) == array_parts(field, s.subrange(0, k)),
    decreases s.len() - k,
{
    if k < s.len() {
        let t = s.subrange(0, k + 1);
        assert(t.drop_last() =~= s.subrange(0, k));
        lemma_array_parts_err(field, s, k + 1);
    } else {
        assert(s.subrange(0, k) =~= s);
    }
}

fn boost(b: Option<u32>) -> (r: Json)
    ensures
        r@ == JsonV::Float32(boost_of(b)),
{
    match b {
        Some(x) => Json::Float32(x),
        None => Json::Float32(DEFAULT_BOOST),
    }
}

/// `{ kind: { field: { key: value, "boost": boost } } }`
fn make_leaf(kind: &str, field: &str, key: &str, value: Json, b: Option<u32>) -> (r: Json)
    ensures
        r@ == leaf(kind@, field@, key@, value@, b),
{
    object1(kind, object1(field, object2(key, value, "boost", boost(b))))
}

fn make_must_not(q: Json) -> (r: Json)
    ensures
        r@ == must_not(q@),
{
    object1("bool", object1("must_not", array1(q)))
}

fn make_exists(field: &str) -> (r: Json)
    ensures
        r@ == exists_leaf(field@),
{
    object1("exists", object1("field", string(field)))
}

/// Whether `s` ends in its only wildcard, a single `*`, and holds no `?`.
fn right_truncated(s: &str) -> (r: bool)
    ensures
        r == is_right_truncated(s@),
{
    let n: usize = s.unicode_len();
    if n == 0 || s.get_char(n - 1) != '*' {
        return false;
    }
    let mut i: usize = 0;
    while i < n - 1
        invariant
            n == s@.len(),
            n > 0,
            i <= n - 1,
            forall|k: int| 0 <= k < i ==> s@[k] != '*' && s@[k] != '?',
        decreases n - i,
    {
        let c = s.get_char(i);
        if c == '*' || c == '?' {
            return false;
        }
        i = i + 1;
    }
    true
}

fn eq(field: &QualifiedField, term: &Term) -> (r: Result<Json, DslError>)
    ensures
        result_view(r) == eq_spec(field.field@, *term),
        boost_absent(*term) && r is Ok ==> leaf_boost(r->Ok_0@) == Some(JsonV::Float32(DEFAULT_BOOST)),
    decreases term,
{
    let name = field.field.as_str();
    match term {
        Term::Null => Ok(make_must_not(make_exists(name))),
        Term::MatchAll => Ok(make_exists(name)),
        Term::String(s, b) => Ok(make_leaf("term", name, "value", string(s.as_str()), *b)),
        Term::Phrase(s, b) => Ok(make_leaf("match_phrase", name, "query", string(s.as_str()), *b)),
        Term::PhraseWithWildcard(s, b) => {
            if right_truncated(s.as_str()) {
                let n: usize = s.as_str().unicode_len();
                let prefix = s.as_str().substring_char(0, n - 1);
                assert(prefix@ =~= s@.drop_last());
                Ok(make_leaf("match_phrase_prefix", name, "query", string(prefix), *b))
            } else {
                Err(unsupported(NodeKind::WildcardPhrase))
            }
        },
        Term::Wildcard(w, b) => Ok(make_leaf("wildcard", name, "value", string(w.as_str()), *b)),
        Term::Fuzzy(f, d, b) => Ok(
            object1(
                "fuzzy",
                object1(
                    name,
                    object3(
                        "value",
                        string(f.as_str()),
                        "prefix_length",
                        Json::UInt(*d as u64),
                        "boost",
                        boost(*b),
                    ),
                ),
            ),
        ),
        Term::Range(s, e, b) => Ok(
            object1(
                "range",
                object1(
                    name,
                    object3(
                        "gte",
                        string(s.as_str()),
                        "lte",
                        string(e.as_str()),
                        "boost",
                        boost(*b),
                    ),
                ),
            ),
        ),
        Term::ParsedArray(v, _) => {
            let mut strings: Vec<String> = Vec::new();
            let mut clauses: Vec<Json> = Vec::new();
            let mut i: usize = 0;
            assert(v@.subrange(0, 0) =~= Seq::<Term>::empty());
            assert(Seq::new(strings@.len(), |k: int| strings@[k]@) =~= Seq::<Seq<char>>::empty());
            assert(views(clauses@) =~= Seq::<JsonV>::empty());
            while i < v.len()
                invariant
                    i <= v@.len(),
                    term matches Term::ParsedArray(w, _) && w == *v,
                    array_parts(field.field@, v@.subrange(0, i as int)) == Ok::<_, ErrV>(
                        (Seq::new(strings@.len(), |k: int| strings@[k]@), views(clauses@)),
                    ),
                decreases v@.len() - i,
            {
                let ghost s = v@.subrange(0, i as int + 1);
                assert(s.drop_last() =~= v@.subrange(0, i as int));
                assert(s.last() == v@[i as int]);
                let t = &v[i];
                match t {
                    Term::String(x, _) => {
                        let ghost old_strings = strings@;
                        strings.push(x.clone());
                        assert(Seq::new(strings@.len(), |k: int| strings@[k]@) =~= Seq::new(
                            old_strings.len(),
                            |k: int| old_strings[k]@,
                        ).push(x@));
                    },
                    _ => {
                        assert(decreases_to!(*term => v@[i as int])) by {
                            assert(decreases_to!(*term => (*term)->ParsedArray_0));
                            assert(decreases_to!(*v => v@));
                            assert(decreases_to!(v@ => v@[i as int]));
                        }
                        match eq(field, t) {
                            Err(e) => {
                                proof {
                                    lemma_array_parts_err(field.field@, v@, i + 1);
                                }
                                return Err(e);
                            },
                            Ok(c) => {
                                let ghost old_clauses = clauses@;
                                clauses.push(c);
                                assert(views(clauses@) =~= views(old_clauses).push(c@));
                            },
                        }
                    },
                }
                i = i + 1;
            }
            assert(v@.subrange(0, v@.len() as int) =~= v@);
            let ghost strs = Seq::new(strings@.len(), |k: int| strings@[k]@);
            let ghost cls = views(clauses@);
            if strings.len() > 0 {
                let mut values: Vec<Json> = Vec::new();
                let mut k: usize = 0;
                while k < strings.len()
                    invariant
                        k <= strings@.len(),
                        values@.len() == k,
                        forall|j: int| 0 <= j < k ==> #[trigger] values@[j]@ == JsonV::Str(strings@[j]@),
                    decreases strings@.len() - k,
                {
                    values.push(string(strings[k].as_str()));
                    k = k + 1;
                }
                let ghost vals = values@;
                let terms = object1("terms", object1(name, array(values)));
                assert(views(vals) =~= Seq::new(strs.len(), |i: int| JsonV::Str(strs[i])));
                assert(terms@ == terms_leaf(field.field@, strs));
                clauses.push(terms);
                assert(views(clauses@) =~= cls.push(terms_leaf(field.field@, strs)));
            }
            assert(views(clauses@) == array_clauses(field.field@, strs, cls));
            if clauses.len() == 1 {
                let c = clauses.pop().unwrap();
                Ok(c)
            } else {
                Ok(object1("bool", object1("should", array(clauses))))
            }
        },
        Term::Regex(_, _) => Err(unsupported(NodeKind::Term)),
    }
}

/// The bound and boost of a range comparison's term, which must be a string.
fn range(term: &Term) -> (r: Result<(&String, Option<u32>), DslError>)
    ensures
        match *term {
            Term::String(s, b) => r matches Ok((v, x)) && *v == s && x == b,
            _ => r matches Err(e) && e@ == ErrV::UnsupportedConstruct(NodeKind::RangeTerm),
        },
{
    match term {
        Term::String(s, b) => Ok((s, *b)),
        _ => Err(unsupported(NodeKind::RangeTerm)),
    }
}

fn regex(field: &QualifiedField, term: &Term) -> (r: Result<Json, DslError>)
    ensures
        result_view(r) == term_spec(field.field@, *term, ComparisonOpcode::Regex),
        boost_absent(*term) && r is Ok ==> leaf_boost(r->Ok_0@) == Some(JsonV::Float32(DEFAULT_BOOST)),
{
    match term {
        Term::Regex(r, b) => Ok(make_leaf("regex", field.field.as_str(), "value", string(r.as_str()), *b)),
        _ => Err(unsupported(NodeKind::RegexTerm)),
    }
}

/// Encodes the comparison of `field` with `term` under `opcode` as a leaf of
/// the backend's query language.
pub fn term_to_dsl(field: &QualifiedField, term: &Term, opcode: ComparisonOpcode) -> (r: Result<Json, DslError>)
    ensures
        result_view(r) == term_spec(field.field@, *term, opcode),
{
    let name = field.field.as_str();
    match opcode {
        ComparisonOpcode::Contains | ComparisonOpcode::Eq => eq(field, term),
        ComparisonOpcode::DoesNotContain | ComparisonOpcode::Ne => match eq(field, term) {
            Err(e) => Err(e),
            Ok(q) => Ok(make_must_not(q)),
        },
        ComparisonOpcode::Regex => regex(field, term),
        ComparisonOpcode::Gt | ComparisonOpcode::Gte | ComparisonOpcode::Lt
        | ComparisonOpcode::Lte => {
            let (v, b) = match range(term) {
                Err(e) => {
                    return Err(e);
                },
                Ok(p) => p,
            };
            let key = match opcode {
                ComparisonOpcode::Gt => "gt",
                ComparisonOpcode::Gte => "gte",
                ComparisonOpcode::Lt => "lt",
                _ => "lte",
            };
            Ok(make_leaf("range", name, key, string(v.as_str()), b))
        },
        _ => Err(unsupported(NodeKind::Opcode)),
    }
}

} // verus!
