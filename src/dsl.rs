use vstd::prelude::*;
use crate::ast::{list_nested_path, ComparisonOpcode, Expr, IndexLink};
use crate::error::{unsupported, DslError, ErrV, NodeKind, Stage};
use crate::json::{array, array1, obj1, obj2, object, object1, object2, string, string_from, views, Json, JsonV, member_view};
use crate::path_finder::{chosen_path, PathFinder};
use crate::term::{must_not, result_view, should, term_spec, term_to_dsl};

verus! {

/// What the catalog knows of one entity: the name of its backend index and,
/// when it could be built, the clause that keeps to rows visible now.
#[derive(Debug)]
pub struct IndexEntry {
    pub qualified_index: String,
    pub index_name: String,
    pub visibility_clause: Option<Json>,
}

/// The snapshot of the outside world a compilation reads: the link topology,
/// the catalog of entities, and whether visibility filtering is switched off.
pub struct Catalog {
    pub topology: PathFinder,
    pub indexes: Vec<IndexEntry>,
    pub ignore_visibility: bool,
}

/// The position of the first catalog entry at or after `i` for the entity
/// `q`; -1 if none.
pub open spec fn entry_pos(s: Seq<IndexEntry>, q: Seq<char>, i: int) -> int
    decreases s.len() - i,
{
    if i < 0 || i >= s.len() {
        -1
    } else if s[i].qualified_index@ == q {
        i
    } else {
        entry_pos(s, q, i + 1)
    }
}

/// A field of a join: its name, or null for a link without one.
pub open spec fn field_view(o: Option<String>) -> JsonV {
    match o {
        Some(s) => JsonV::Str(s@),
        None => JsonV::Null,
    }
}

/// `{ "subselect": { "index", "type", "left_fieldname", "right_fieldname", "query" } }`
pub open spec fn subselect(index_name: Seq<char>, hop: IndexLink, query: JsonV) -> JsonV {
    obj1(
        "subselect"@,
        JsonV::Object(
            seq![
                ("index"@, JsonV::Str(index_name)),
                ("type"@, JsonV::Str("_doc"@)),
                ("left_fieldname"@, field_view(hop.left_field)),
                ("right_fieldname"@, field_view(hop.right_field)),
                ("query"@, query),
            ],
        ),
    )
}

/// `{ "bool": { "must": [query], "filter": [clause] } }`
pub open spec fn must_filter(query: JsonV, clause: JsonV) -> JsonV {
    obj1("bool"@, obj2("must"@, JsonV::Array(seq![query]), "filter"@, JsonV::Array(seq![clause])))
}

/// The query of one join to `hop`'s entity around `inner`.
pub open spec fn wrap_hop(cat: Catalog, hop: IndexLink, inner: JsonV) -> Result<JsonV, ErrV> {
    let p = entry_pos(cat.indexes@, hop.qualified_index@, 0);
    if p < 0 {
        Err(ErrV::CollaboratorFailure(Stage::Catalog, hop.qualified_index@))
    } else {
        let e = cat.indexes@[p];
        if cat.ignore_visibility {
            Ok(subselect(e.index_name@, hop, inner))
        } else {
            match e.visibility_clause {
                None => Err(ErrV::CollaboratorFailure(Stage::Visibility, e.index_name@)),
                Some(v) => Ok(subselect(e.index_name@, hop, must_filter(inner, v@))),
            }
        }
    }
}

/// The joins of a path folded around `inner`, from the last hop back to the
/// first: the first hop's join is outermost.
pub open spec fn fold_spec(cat: Catalog, hops: Seq<IndexLink>, inner: JsonV) -> Result<JsonV, ErrV>
    decreases hops.len(),
{
    if hops.len() == 0 {
        Ok(inner)
    } else {
        match wrap_hop(cat, hops.last(), inner) {
            Err(e) => Err(e),
            Ok(q) => fold_spec(cat, hops.drop_last(), q),
        }
    }
}

/// `{ "bool": { "must": clauses } }`
pub open spec fn must(clauses: Seq<JsonV>) -> JsonV {
    obj1("bool"@, obj1("must"@, JsonV::Array(clauses)))
}

/// `{ "nested": { "path": path, "query": { "bool": { "must": clauses } } } }`
pub open spec fn nested(path: Seq<char>, clauses: Seq<JsonV>) -> JsonV {
    obj1("nested"@, obj2("path"@, JsonV::Str(path), "query"@, must(clauses)))
}

/// What `e` compiles to against the entity of `root`.
pub open spec fn dsl_spec(cat: Catalog, root: IndexLink, e: Expr) -> Result<JsonV, ErrV>
    decreases e, 0int,
{
    match e {
        Expr::WithList(v) => match list_nested_path(v@) {
            None => Err(ErrV::AmbiguousNestedPath),
            Some(p) => match list_spec(cat, root, v@) {
                Err(x) => Err(x),
                Ok(c) => Ok(nested(p, c)),
            },
        },
        Expr::AndList(v) => match list_spec(cat, root, v@) {
            Err(x) => Err(x),
            Ok(c) => Ok(must(c)),
        },
        Expr::OrList(v) => match list_spec(cat, root, v@) {
            Err(x) => Err(x),
            Ok(c) => Ok(should(c)),
        },
        Expr::Not(c) => match dsl_spec(cat, root, *c) {
            Err(x) => Err(x),
            Ok(q) => Ok(must_not(q)),
        },
        Expr::Contains(f, t) => term_spec(f.field@, t, ComparisonOpcode::Contains),
        Expr::Eq(f, t) => term_spec(f.field@, t, ComparisonOpcode::Contains),
        Expr::DoesNotContain(f, t) => term_spec(f.field@, t, ComparisonOpcode::DoesNotContain),
        Expr::Ne(f, t) => term_spec(f.field@, t, ComparisonOpcode::DoesNotContain),
        Expr::Regex(f, t) => term_spec(f.field@, t, ComparisonOpcode::Regex),
        Expr::Gt(f, t) => term_spec(f.field@, t, ComparisonOpcode::Gt),
        Expr::Gte(f, t) => term_spec(f.field@, t, ComparisonOpcode::Gte),
        Expr::Lt(f, t) => term_spec(f.field@, t, ComparisonOpcode::Lt),
        Expr::Lte(f, t) => term_spec(f.field@, t, ComparisonOpcode::Lte),
        Expr::MoreLikeThis(_, _) => Err(ErrV::UnsupportedConstruct(NodeKind::Expression)),
        Expr::FuzzyLikeThis(_, _) => Err(ErrV::UnsupportedConstruct(NodeKind::Expression)),
        Expr::Linked(i, c) => match chosen_path(
            cat.topology.links@,
            root.qualified_index@,
            i.qualified_index@,
        ) {
            None => Err(ErrV::PathNotFound(root.qualified_index@, i.qualified_index@)),
            Some(p) => if p.len() == 0 {
                dsl_spec(cat, root, *c)
            } else {
                match dsl_spec(cat, i, *c) {
                    Err(x) => Err(x),
                    Ok(q) => fold_spec(cat, p, q),
                }
            },
        },
    }
}

/// The compiled children of a list, in order, or the error of the first child
/// that fails.
pub open spec fn list_spec(cat: Catalog, root: IndexLink, s: Seq<Expr>) -> Result<Seq<JsonV>, ErrV>
    decreases s, 1int,
{
    if s.len() == 0 {
        Ok(Seq::empty())
    } else {
        match list_spec(cat, root, s.drop_last()) {
            Err(x) => Err(x),
            Ok(c) => match dsl_spec(cat, root, s.last()) {
                Err(x) => Err(x),
                Ok(q) => Ok(c.push(q)),
            },
        }
    }
}

/// An error among the first children of a list is the error of the list.
proof fn lemma_list_spec_err(cat: Catalog, root: IndexLink, s: Seq<Expr>, k: int)
    requires
        0 <= k <= s.len(),
        list_spec(cat, root, s.subrange(0, k)) is Err,
    ensures
        list_spec(cat, root, s) == list_spec(cat, root, s.subrange(0, k)),
    decreases s.len() - k,
{
    if k < s.len() {
        let t = s.subrange(0, k + 1);
        assert(t.drop_last() =~= s.subrange(0, k));
        lemma_list_spec_err(cat, root, s, k + 1);
    } else {
        assert(s.subrange(0, k) =~= s);
    }
}

fn field_json(o: &Option<String>) -> (r: Json)
    ensures
        r@ == field_view(*o),
{
    match o {
        Some(s) => string(s.as_str()),
        None => Json::Null,
    }
}

fn make_subselect(index_name: &String, hop: &IndexLink, query: Json) -> (r: Json)
    ensures
        r@ == subselect(index_name@, *hop, query@),
{
    let ghost q = query@;
    let m = vec![
        ("index".to_string(), string(index_name.as_str())),
        ("type".to_string(), string("_doc")),
        ("left_fieldname".to_string(), field_json(&hop.left_field)),
        ("right_fieldname".to_string(), field_json(&hop.right_field)),
        ("query".to_string(), query),
    ];
    let body = object(m);
    assert(Seq::new(m@.len(), |i: int| member_view(m@[i])) =~= seq![
        ("index"@, JsonV::Str(index_name@)),
        ("type"@, JsonV::Str("_doc"@)),
        ("left_fieldname"@, field_view(hop.left_field)),
        ("right_fieldname"@, field_view(hop.right_field)),
        ("query"@, q),
    ]);
    object1("subselect", body)
}

impl Catalog {
    fn lookup(&self, q: &String) -> (r: Option<&IndexEntry>)
        ensures
            match r {
                Some(e) => entry_pos(self.indexes@, q@, 0) >= 0 && *e == self.indexes@[entry_pos(self.indexes@, q@, 0)],
                None => entry_pos(self.indexes@, q@, 0) < 0,
            },
    {
        let mut i: usize = 0;
        while i < self.indexes.len()
            invariant
                i <= self.indexes@.len(),
                entry_pos(self.indexes@, q@, 0) == entry_pos(self.indexes@, q@, i as int),
            decreases self.indexes@.len() - i,
        {
            if self.indexes[i].qualified_index == *q {
                return Some(&self.indexes[i]);
            }
            i = i + 1;
        }
        None
    }
}

/// Wraps `inner` in the join to `hop`'s entity.
fn wrap(catalog: &Catalog, hop: &IndexLink, inner: Json) -> (r: Result<Json, DslError>)
    ensures
        result_view(r) == wrap_hop(*catalog, *hop, inner@),
{
    let entry = match catalog.lookup(&hop.qualified_index) {
        None => {
            return Err(
                DslError::CollaboratorFailure {
                    stage: Stage::Catalog,
                    entity: hop.qualified_index.clone(),
                },
            );
        },
        Some(e) => e,
    };
    if catalog.ignore_visibility {
        Ok(make_subselect(&entry.index_name, hop, inner))
    } else {
        match &entry.visibility_clause {
            None => Err(
                DslError::CollaboratorFailure {
                    stage: Stage::Visibility,
                    entity: entry.index_name.clone(),
                },
            ),
            Some(v) => {
                let query = object1(
                    "bool",
                    object2("must", array1(inner), "filter", array1(v.deep_clone())),
                );
                Ok(make_subselect(&entry.index_name, hop, query))
            },
        }
    }
}

/// Folds the joins of `hops` around `inner`, from the last hop back to the
/// first, so that the first hop's join is outermost. Each join carries the
/// backend name of its hop's entity and the hop's two fields; unless
/// visibility filtering is off, the query inside it also requires that
/// entity's visibility clause.
pub fn fold_joins(catalog: &Catalog, hops: &Vec<IndexLink>, inner: Json) -> (r: Result<Json, DslError>)
    ensures
        result_view(r) == fold_spec(*catalog, hops@, inner@),
{
    let mut current = inner;
    let mut i: usize = hops.len();
    assert(hops@.subrange(0, i as int) =~= hops@);
    while i > 0
        invariant
            i <= hops@.len(),
            fold_spec(*catalog, hops@, inner@) == fold_spec(*catalog, hops@.subrange(0, i as int), current@),
        decreases i,
    {
        let ghost s = hops@.subrange(0, i as int);
        assert(s.drop_last() =~= hops@.subrange(0, i - 1));
        match wrap(catalog, &hops[i - 1], current) {
            Err(e) => {
                return Err(e);
            },
            Ok(q) => {
                current = q;
            },
        }
        i = i - 1;
    }
    assert(hops@.subrange(0, 0) =~= Seq::<IndexLink>::empty());
    Ok(current)
}

/// Compiles `expr`, evaluated against the entity of `root`, to the backend's
/// JSON query language.
pub fn expr_to_dsl(root: &IndexLink, expr: &Expr, catalog: &Catalog) -> (r: Result<Json, DslError>)
    ensures
        result_view(r) == dsl_spec(*catalog, *root, *expr),
    decreases *expr, 0int,
{
    match expr {
        Expr::WithList(v) => match Expr::nested_path(v) {
            None => Err(DslError::AmbiguousNestedPath),
            Some(path) => {
                assert(decreases_to!(*expr => v@));
                match list_to_dsl(root, v, catalog) {
                    Err(e) => Err(e),
                    Ok(c) => Ok(
                        object1(
                            "nested",
                            object2(
                                "path",
                                string_from(path),
                                "query",
                                object1("bool", object1("must", array(c))),
                            ),
                        ),
                    ),
                }
            },
        },
        Expr::AndList(v) => {
            assert(decreases_to!(*expr => v@));
            match list_to_dsl(root, v, catalog) {
                Err(e) => Err(e),
                Ok(c) => Ok(object1("bool", object1("must", array(c)))),
            }
        },
        Expr::OrList(v) => {
            assert(decreases_to!(*expr => v@));
            match list_to_dsl(root, v, catalog) {
                Err(e) => Err(e),
                Ok(c) => Ok(object1("bool", object1("should", array(c)))),
            }
        },
        Expr::Not(c) => match expr_to_dsl(root, c, catalog) {
            Err(e) => Err(e),
            Ok(q) => Ok(object1("bool", object1("must_not", array1(q)))),
        },
        Expr::Contains(f, t) | Expr::Eq(f, t) => term_to_dsl(f, t, ComparisonOpcode::Contains),
        Expr::DoesNotContain(f, t) | Expr::Ne(f, t) => term_to_dsl(f, t, ComparisonOpcode::DoesNotContain),
        Expr::Regex(f, t) => term_to_dsl(f, t, ComparisonOpcode::Regex),
        Expr::Gt(f, t) => term_to_dsl(f, t, ComparisonOpcode::Gt),
        Expr::Gte(f, t) => term_to_dsl(f, t, ComparisonOpcode::Gte),
        Expr::Lt(f, t) => term_to_dsl(f, t, ComparisonOpcode::Lt),
        Expr::Lte(f, t) => term_to_dsl(f, t, ComparisonOpcode::Lte),
        Expr::MoreLikeThis(_, _) | Expr::FuzzyLikeThis(_, _) => Err(unsupported(NodeKind::Expression)),
        Expr::Linked(i, c) => {
            let path = match catalog.topology.find_path(&root.qualified_index, &i.qualified_index) {
                None => {
                    return Err(
                        DslError::PathNotFound {
                            root: root.qualified_index.clone(),
                            target: i.qualified_index.clone(),
                        },
                    );
                },
                Some(p) => p,
            };
            if path.len() == 0 {
                expr_to_dsl(root, c, catalog)
            } else {
                match expr_to_dsl(i, c, catalog) {
                    Err(e) => Err(e),
                    Ok(q) => fold_joins(catalog, &path, q),
                }
            }
        },
    }
}

/// Compiles each expression of `v` against the entity of `root`, in order,
/// stopping at the first that fails.
fn list_to_dsl(root: &IndexLink, v: &Vec<Expr>, catalog: &Catalog) -> (r: Result<Vec<Json>, DslError>)
    ensures
        match r {
            Ok(c) => list_spec(*catalog, *root, v@) == Ok::<_, ErrV>(views(c@)),
            Err(e) => list_spec(*catalog, *root, v@) == Err::<Seq<JsonV>, _>(e@),
        },
    decreases v@, 1int,
{
    let mut out: Vec<Json> = Vec::new();
    let mut i: usize = 0;
    assert(v@.subrange(0, 0) =~= Seq::<Expr>::empty());
    assert(views(out@) =~= Seq::<JsonV>::empty());
    while i < v.len()
        invariant
            i <= v@.len(),
            list_spec(*catalog, *root, v@.subrange(0, i as int)) == Ok::<_, ErrV>(views(out@)),
        decreases v@.len() - i,
    {
        let ghost s = v@.subrange(0, i as int + 1);
        assert(s.drop_last() =~= v@.subrange(0, i as int));
        assert(s.last() == v@[i as int]);
        assert(decreases_to!(v@ => v@[i as int]));
        match expr_to_dsl(root, &v[i], catalog) {
            Err(e) => {
                proof {
                    lemma_list_spec_err(*catalog, *root, v@, i + 1);
                }
                return Err(e);
            },
            Ok(q) => {
                let ghost old_out = out@;
                out.push(q);
                assert(views(out@) =~= views(old_out).push(q@));
            },
        }
        i = i + 1;
    }
    assert(v@.subrange(0, v@.len() as int) =~= v@);
    Ok(out)
}

} // verus!
