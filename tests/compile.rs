use zdb_dsl::ast::{ComparisonOpcode, Expr, IndexLink, QualifiedField, Term};
use zdb_dsl::dsl::{expr_to_dsl, fold_joins, Catalog, IndexEntry};
use zdb_dsl::error::{DslError, NodeKind, Stage};
use zdb_dsl::json::Json;
use zdb_dsl::path_finder::{LinkEdge, PathFinder};
use zdb_dsl::term::{term_to_dsl, DEFAULT_BOOST};

fn render(j: &Json) -> String {
    match j {
        Json::Null => "null".to_string(),
        Json::Bool(b) => b.to_string(),
        Json::Int(i) => i.to_string(),
        Json::UInt(u) => u.to_string(),
        Json::Float32(b) => format!("{:?}", f32::from_bits(*b)),
        Json::Float64(b) => format!("{:?}", f64::from_bits(*b)),
        Json::Str(s) => format!("\"{}\"", s),
        Json::Array(v) => {
            let parts: Vec<String> = v.iter().map(render).collect();
            format!("[{}]", parts.join(","))
        }
        Json::Object(m) => {
            let parts: Vec<String> = m
                .iter()
                .map(|(k, v)| format!("\"{}\":{}", k, render(v)))
                .collect();
            format!("{{{}}}", parts.join(","))
        }
    }
}

fn field(name: &str) -> QualifiedField {
    QualifiedField {
        index: "public.docs.idxdocs".to_string(),
        field: name.to_string(),
    }
}

fn s(v: &str) -> Term {
    Term::String(v.to_string(), None)
}

fn link(left: &str, target: &str, right: &str) -> IndexLink {
    IndexLink {
        name: None,
        left_field: Some(left.to_string()),
        qualified_index: target.to_string(),
        right_field: Some(right.to_string()),
    }
}

fn edge(from: &str, left: &str, target: &str, right: &str) -> LinkEdge {
    LinkEdge {
        from: from.to_string(),
        link: link(left, target, right),
    }
}

fn entry(q: &str, name: &str, vis: Option<Json>) -> IndexEntry {
    IndexEntry {
        qualified_index: q.to_string(),
        index_name: name.to_string(),
        visibility_clause: vis,
    }
}

fn vis(name: &str) -> Option<Json> {
    Some(Json::Object(vec![(
        "visibility".to_string(),
        Json::Str(name.to_string()),
    )]))
}

fn empty_catalog() -> Catalog {
    Catalog {
        topology: PathFinder::new(),
        indexes: Vec::new(),
        ignore_visibility: false,
    }
}

/// a --(id=b_id)--> b --(x=c_x)--> c
fn chain_catalog(ignore_visibility: bool) -> Catalog {
    let mut topology = PathFinder::new();
    topology.push(edge("a", "id", "b", "b_id"));
    topology.push(edge("b", "x", "c", "c_x"));
    Catalog {
        topology,
        indexes: vec![
            entry("a", "db.a", vis("db.a")),
            entry("b", "db.b", vis("db.b")),
            entry("c", "db.c", vis("db.c")),
        ],
        ignore_visibility,
    }
}

fn compile(e: &Expr) -> Result<Json, DslError> {
    expr_to_dsl(&IndexLink::from_relation("a"), e, &empty_catalog())
}

fn ok(e: &Expr) -> String {
    render(&compile(e).expect("compiles"))
}

fn eq(f: &str, t: Term) -> Expr {
    Expr::Eq(field(f), t)
}

#[test]
fn and_or_lists_keep_children_in_order() {
    let and = Expr::AndList(vec![eq("a", s("1")), eq("b", s("2")), eq("c", s("3"))]);
    assert_eq!(
        ok(&and),
        "{\"bool\":{\"must\":[{\"term\":{\"a\":{\"value\":\"1\",\"boost\":1.0}}},{\"term\":{\"b\":{\"value\":\"2\",\"boost\":1.0}}},{\"term\":{\"c\":{\"value\":\"3\",\"boost\":1.0}}}]}}"
    );
    let or = Expr::OrList(vec![eq("b", s("2")), eq("a", s("1"))]);
    assert_eq!(
        ok(&or),
        "{\"bool\":{\"should\":[{\"term\":{\"b\":{\"value\":\"2\",\"boost\":1.0}}},{\"term\":{\"a\":{\"value\":\"1\",\"boost\":1.0}}}]}}"
    );
}

#[test]
fn double_negation_is_two_containers() {
    let e = Expr::Not(Box::new(Expr::Not(Box::new(eq("a", Term::MatchAll)))));
    assert_eq!(
        ok(&e),
        "{\"bool\":{\"must_not\":[{\"bool\":{\"must_not\":[{\"exists\":{\"field\":\"a\"}}]}}]}}"
    );
}

#[test]
fn absent_boost_defaults_to_one() {
    assert_eq!(f32::from_bits(DEFAULT_BOOST), 1.0f32);
    let r = term_to_dsl(&field("f"), &Term::Wildcard("x*".to_string(), None), ComparisonOpcode::Eq).unwrap();
    assert_eq!(render(&r), "{\"wildcard\":{\"f\":{\"value\":\"x*\",\"boost\":1.0}}}");
    let given = Term::Phrase("p q".to_string(), Some(2.5f32.to_bits()));
    let r = term_to_dsl(&field("f"), &given, ComparisonOpcode::Contains).unwrap();
    assert_eq!(render(&r), "{\"match_phrase\":{\"f\":{\"query\":\"p q\",\"boost\":2.5}}}");
}

#[test]
fn all_string_array_is_one_terms_leaf() {
    let t = Term::ParsedArray(vec![s("a"), s("b")], None);
    assert_eq!(ok(&eq("f", t)), "{\"terms\":{\"f\":[\"a\",\"b\"]}}");
}

#[test]
fn mixed_array_is_any_of_two_clauses() {
    let t = Term::ParsedArray(vec![s("a"), Term::Wildcard("b*".to_string(), None)], None);
    assert_eq!(
        ok(&eq("f", t)),
        "{\"bool\":{\"should\":[{\"wildcard\":{\"f\":{\"value\":\"b*\",\"boost\":1.0}}},{\"terms\":{\"f\":[\"a\"]}}]}}"
    );
}

#[test]
fn array_members_use_equality_encoding() {
    let t = Term::ParsedArray(
        vec![
            s("a"),
            Term::Null,
            Term::MatchAll,
            Term::Range("1".to_string(), "9".to_string(), None),
        ],
        None,
    );
    assert_eq!(
        ok(&eq("f", t)),
        r#"{"bool":{"should":[{"bool":{"must_not":[{"exists":{"field":"f"}}]}},{"exists":{"field":"f"}},{"range":{"f":{"gte":"1","lte":"9","boost":1.0}}},{"terms":{"f":["a"]}}]}}"#
    );
    let t = Term::ParsedArray(vec![Term::MatchAll], None);
    assert_eq!(ok(&eq("f", t)), r#"{"exists":{"field":"f"}}"#);
}

#[test]
fn array_with_unencodable_member_fails() {
    let t = Term::ParsedArray(vec![Term::Regex("r.*".to_string(), None)], None);
    assert!(matches!(
        compile(&eq("f", t)),
        Err(DslError::UnsupportedConstruct { node_kind: NodeKind::Term })
    ));
}

#[test]
fn empty_array_is_empty_any_of() {
    let t = Term::ParsedArray(vec![], None);
    assert_eq!(ok(&eq("f", t)), "{\"bool\":{\"should\":[]}}");
}

#[test]
fn right_truncated_phrase_is_prefix_match() {
    let t = Term::PhraseWithWildcard("foo*".to_string(), None);
    assert_eq!(
        ok(&eq("f", t)),
        "{\"match_phrase_prefix\":{\"f\":{\"query\":\"foo\",\"boost\":1.0}}}"
    );
    for bad in ["f*o*", "fo?o*", "*foo", "foo"] {
        let t = Term::PhraseWithWildcard(bad.to_string(), None);
        assert!(matches!(
            compile(&eq("f", t)),
            Err(DslError::UnsupportedConstruct { node_kind: NodeKind::WildcardPhrase })
        ));
    }
}

#[test]
fn other_leaves() {
    assert_eq!(
        ok(&eq("f", Term::Null)),
        "{\"bool\":{\"must_not\":[{\"exists\":{\"field\":\"f\"}}]}}"
    );
    assert_eq!(ok(&eq("f", Term::MatchAll)), "{\"exists\":{\"field\":\"f\"}}");
    assert_eq!(
        ok(&eq("f", Term::Fuzzy("abc".to_string(), 3, None))),
        "{\"fuzzy\":{\"f\":{\"value\":\"abc\",\"prefix_length\":3,\"boost\":1.0}}}"
    );
    assert_eq!(
        ok(&eq("f", Term::Range("1".to_string(), "9".to_string(), None))),
        "{\"range\":{\"f\":{\"gte\":\"1\",\"lte\":\"9\",\"boost\":1.0}}}"
    );
    assert_eq!(
        ok(&Expr::Ne(field("f"), s("x"))),
        "{\"bool\":{\"must_not\":[{\"term\":{\"f\":{\"value\":\"x\",\"boost\":1.0}}}]}}"
    );
    assert_eq!(
        ok(&Expr::Regex(field("f"), Term::Regex("a.*".to_string(), None))),
        "{\"regex\":{\"f\":{\"value\":\"a.*\",\"boost\":1.0}}}"
    );
}

#[test]
fn regex_needs_regex_term() {
    assert!(matches!(
        compile(&Expr::Regex(field("f"), s("x"))),
        Err(DslError::UnsupportedConstruct { node_kind: NodeKind::RegexTerm })
    ));
    assert!(matches!(
        compile(&eq("f", Term::Regex("x".to_string(), None))),
        Err(DslError::UnsupportedConstruct { node_kind: NodeKind::Term })
    ));
}

#[test]
fn range_opcodes_take_one_bound() {
    assert_eq!(
        ok(&Expr::Gt(field("n"), s("5"))),
        "{\"range\":{\"n\":{\"gt\":\"5\",\"boost\":1.0}}}"
    );
    assert_eq!(
        ok(&Expr::Gte(field("n"), s("5"))),
        "{\"range\":{\"n\":{\"gte\":\"5\",\"boost\":1.0}}}"
    );
    assert_eq!(
        ok(&Expr::Lt(field("n"), s("5"))),
        "{\"range\":{\"n\":{\"lt\":\"5\",\"boost\":1.0}}}"
    );
    assert_eq!(
        ok(&Expr::Lte(field("n"), Term::String("5".to_string(), Some(3.0f32.to_bits())))),
        "{\"range\":{\"n\":{\"lte\":\"5\",\"boost\":3.0}}}"
    );
    assert!(matches!(
        compile(&Expr::Gt(field("n"), Term::Phrase("5".to_string(), None))),
        Err(DslError::UnsupportedConstruct { node_kind: NodeKind::RangeTerm })
    ));
}

#[test]
fn unsupported_expressions_and_opcodes_fail() {
    assert!(matches!(
        compile(&Expr::MoreLikeThis(field("f"), s("x"))),
        Err(DslError::UnsupportedConstruct { node_kind: NodeKind::Expression })
    ));
    assert!(matches!(
        term_to_dsl(&field("f"), &s("x"), ComparisonOpcode::FuzzyLikeThis),
        Err(DslError::UnsupportedConstruct { node_kind: NodeKind::Opcode })
    ));
}

#[test]
fn with_list_is_nested_under_shared_path() {
    let e = Expr::WithList(vec![eq("tags.name", s("x")), eq("tags.count", s("2"))]);
    assert_eq!(
        ok(&e),
        "{\"nested\":{\"path\":\"tags\",\"query\":{\"bool\":{\"must\":[{\"term\":{\"tags.name\":{\"value\":\"x\",\"boost\":1.0}}},{\"term\":{\"tags.count\":{\"value\":\"2\",\"boost\":1.0}}}]}}}}"
    );
}

#[test]
fn with_list_on_two_paths_is_ambiguous() {
    let e = Expr::WithList(vec![eq("tags.name", s("x")), eq("authors.name", s("y"))]);
    assert!(matches!(compile(&e), Err(DslError::AmbiguousNestedPath)));
    let e = Expr::WithList(vec![eq("plain", s("x"))]);
    assert!(matches!(compile(&e), Err(DslError::AmbiguousNestedPath)));
}

#[test]
fn field_nested_path_is_before_last_dot() {
    assert_eq!(field("a.b.c").nested_path(), Some("a.b".to_string()));
    assert_eq!(field("abc").nested_path(), None);
    assert_eq!(field("abc").field_name(), "abc".to_string());
}

#[test]
fn link_to_root_is_no_join() {
    let child = || eq("f", s("x"));
    let cat = chain_catalog(false);
    let root = IndexLink::from_relation("a");
    let linked = Expr::Linked(IndexLink::from_relation("a"), Box::new(child()));
    let direct = expr_to_dsl(&root, &child(), &cat).unwrap();
    let through = expr_to_dsl(&root, &linked, &cat).unwrap();
    assert_eq!(render(&through), render(&direct));
}

#[test]
fn two_hop_link_nests_two_joins() {
    let cat = chain_catalog(false);
    let root = IndexLink::from_relation("a");
    let e = Expr::Linked(link("x", "c", "c_x"), Box::new(eq("f", s("x"))));
    assert_eq!(
        render(&expr_to_dsl(&root, &e, &cat).unwrap()),
        "{\"subselect\":{\"index\":\"db.b\",\"type\":\"_doc\",\"left_fieldname\":\"id\",\"right_fieldname\":\"b_id\",\"query\":{\"bool\":{\"must\":[{\"subselect\":{\"index\":\"db.c\",\"type\":\"_doc\",\"left_fieldname\":\"x\",\"right_fieldname\":\"c_x\",\"query\":{\"bool\":{\"must\":[{\"term\":{\"f\":{\"value\":\"x\",\"boost\":1.0}}}],\"filter\":[{\"visibility\":\"db.c\"}]}}}}],\"filter\":[{\"visibility\":\"db.b\"}]}}}}"
    );
}

#[test]
fn ignoring_visibility_drops_the_wrappers() {
    let cat = chain_catalog(true);
    let root = IndexLink::from_relation("a");
    let e = Expr::Linked(link("x", "c", "c_x"), Box::new(eq("f", s("x"))));
    assert_eq!(
        render(&expr_to_dsl(&root, &e, &cat).unwrap()),
        "{\"subselect\":{\"index\":\"db.b\",\"type\":\"_doc\",\"left_fieldname\":\"id\",\"right_fieldname\":\"b_id\",\"query\":{\"subselect\":{\"index\":\"db.c\",\"type\":\"_doc\",\"left_fieldname\":\"x\",\"right_fieldname\":\"c_x\",\"query\":{\"term\":{\"f\":{\"value\":\"x\",\"boost\":1.0}}}}}}}"
    );
}

#[test]
fn unreachable_entity_is_path_not_found() {
    let cat = chain_catalog(false);
    let root = IndexLink::from_relation("c");
    let e = Expr::Linked(link("id", "a", "a_id"), Box::new(eq("f", s("x"))));
    match expr_to_dsl(&root, &e, &cat) {
        Err(DslError::PathNotFound { root, target }) => {
            assert_eq!(root, "c");
            assert_eq!(target, "a");
        }
        other => panic!("unexpected {:?}", other),
    }
}

#[test]
fn missing_catalog_entry_and_visibility_fail() {
    let mut cat = chain_catalog(false);
    cat.indexes = vec![entry("b", "db.b", None)];
    let root = IndexLink::from_relation("a");
    let e = Expr::Linked(link("id", "b", "b_id"), Box::new(eq("f", s("x"))));
    match expr_to_dsl(&root, &e, &cat) {
        Err(DslError::CollaboratorFailure { stage, entity }) => {
            assert_eq!(stage, Stage::Visibility);
            assert_eq!(entity, "db.b");
        }
        other => panic!("unexpected {:?}", other),
    }
    cat.indexes = vec![];
    match expr_to_dsl(&root, &e, &cat) {
        Err(DslError::CollaboratorFailure { stage, entity }) => {
            assert_eq!(stage, Stage::Catalog);
            assert_eq!(entity, "b");
        }
        other => panic!("unexpected {:?}", other),
    }
}

#[test]
fn fold_joins_wraps_innermost_first() {
    let cat = chain_catalog(true);
    let hops = vec![link("id", "b", "b_id"), link("x", "c", "c_x")];
    let r = fold_joins(&cat, &hops, Json::Str("q".to_string())).unwrap();
    assert_eq!(
        render(&r),
        "{\"subselect\":{\"index\":\"db.b\",\"type\":\"_doc\",\"left_fieldname\":\"id\",\"right_fieldname\":\"b_id\",\"query\":{\"subselect\":{\"index\":\"db.c\",\"type\":\"_doc\",\"left_fieldname\":\"x\",\"right_fieldname\":\"c_x\",\"query\":\"q\"}}}}"
    );
    let none: Vec<IndexLink> = vec![];
    assert_eq!(render(&fold_joins(&cat, &none, Json::Null).unwrap()), "null");
}

#[test]
fn path_finder_takes_shortest_then_first_link() {
    let mut pf = PathFinder::new();
    pf.push(edge("a", "l1", "b", "r1"));
    pf.push(edge("b", "l2", "d", "r2"));
    pf.push(edge("a", "l3", "c", "r3"));
    pf.push(edge("c", "l4", "d", "r4"));
    pf.push(edge("a", "l5", "e", "r5"));
    pf.push(edge("e", "l6", "f", "r6"));
    pf.push(edge("f", "l7", "d", "r7"));
    pf.push(edge("d", "l8", "a", "r8"));
    let p = pf.find_path(&"a".to_string(), &"d".to_string()).unwrap();
    let names: Vec<String> = p.iter().map(|l| l.left_field.clone().unwrap()).collect();
    assert_eq!(names, vec!["l1".to_string(), "l2".to_string()]);
    let p = pf.find_path(&"a".to_string(), &"a".to_string()).unwrap();
    assert!(p.is_empty());
    assert!(pf.find_path(&"b".to_string(), &"x".to_string()).is_none());
    let p = pf.find_path(&"f".to_string(), &"e".to_string()).unwrap();
    let names: Vec<String> = p.iter().map(|l| l.left_field.clone().unwrap()).collect();
    assert_eq!(names, vec!["l7".to_string(), "l8".to_string(), "l5".to_string()]);
}
