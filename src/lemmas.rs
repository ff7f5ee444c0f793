use vstd::prelude::*;
use crate::ast::{all_in_path, expr_nested_path, list_nested_path, ComparisonOpcode, Expr, IndexLink, Term};
use crate::dsl::{dsl_spec, entry_pos, fold_spec, list_spec, must, must_filter, subselect, wrap_hop, Catalog};
use crate::error::ErrV;
use crate::json::JsonV;
use crate::path_finder::{chosen_path, hops, is_hop_count, reaches_within};
use crate::term::{boost_absent, leaf_boost, should, must_not, term_spec, DEFAULT_BOOST};

verus! {

/// A list that compiles has one compiled child per child, each in its place.
#[verifier::rlimit(40)]
pub proof fn lemma_list_spec_children(cat: Catalog, root: IndexLink, s: Seq<Expr>)
    requires
        list_spec(cat, root, s) is Ok,
    ensures
        list_spec(cat, root, s)->Ok_0.len() == s.len(),
        forall|i: int|
            0 <= i < s.len() ==> dsl_spec(cat, root, #[trigger] s[i]) == Ok::<_, ErrV>(
                list_spec(cat, root, s)->Ok_0[i],
            ),
    decreases s.len(),
{
    if s.len() > 0 {
        let prev = list_spec(cat, root, s.drop_last());
        let last = dsl_spec(cat, root, s.last());
        assert(prev is Ok && last is Ok && list_spec(cat, root, s) == Ok::<_, ErrV>(prev->Ok_0.push(last->Ok_0)));
        lemma_list_spec_children(cat, root, s.drop_last());
        let c = list_spec(cat, root, s)->Ok_0;
        assert forall|i: int| 0 <= i < s.len() implies dsl_spec(cat, root, #[trigger] s[i]) == Ok::<_, ErrV>(c[i]) by {
            if i < s.len() - 1 {
                assert(s[i] == s.drop_last()[i]);
            }
        }
    }
}

/// An "all of" or "any of" list compiles to a container with exactly one
/// clause per child, in the children's order, each the child compiled alone.
pub proof fn lemma_boolean_lists_keep_children(cat: Catalog, root: IndexLink, e: Expr)
    requires
        e is AndList || e is OrList,
        dsl_spec(cat, root, e) is Ok,
    ensures
        match e {
            Expr::AndList(v) => exists|c: Seq<JsonV>|
                dsl_spec(cat, root, e) == Ok::<_, ErrV>(must(c)) && c.len() == v@.len() && forall|i: int|
                    0 <= i < c.len() ==> dsl_spec(cat, root, #[trigger] v@[i]) == Ok::<_, ErrV>(c[i]),
            Expr::OrList(v) => exists|c: Seq<JsonV>|
                dsl_spec(cat, root, e) == Ok::<_, ErrV>(should(c)) && c.len() == v@.len() && forall|i: int|
                    0 <= i < c.len() ==> dsl_spec(cat, root, #[trigger] v@[i]) == Ok::<_, ErrV>(c[i]),
            _ => false,
        },
{
    match e {
        Expr::AndList(v) => {
            lemma_list_spec_children(cat, root, v@);
            let c = list_spec(cat, root, v@)->Ok_0;
            assert(dsl_spec(cat, root, e) == Ok::<_, ErrV>(must(c)));
        },
        Expr::OrList(v) => {
            lemma_list_spec_children(cat, root, v@);
            let c = list_spec(cat, root, v@)->Ok_0;
            assert(dsl_spec(cat, root, e) == Ok::<_, ErrV>(should(c)));
        },
        _ => {},
    }
}

/// A double negation is not simplified: it compiles to two nested "none of"
/// containers around the compiled inner expression.
pub proof fn lemma_double_negation_kept(cat: Catalog, root: IndexLink, e: Expr)
    requires
        e matches Expr::Not(c) && *c matches Expr::Not(_),
    ensures
        match e {
            Expr::Not(c) => match *c {
                Expr::Not(x) => dsl_spec(cat, root, e) == match dsl_spec(cat, root, *x) {
                    Ok(q) => Ok(must_not(must_not(q))),
                    Err(err) => Err(err),
                },
                _ => false,
            },
            _ => false,
        },
{
    match e {
        Expr::Not(c) => match *c {
            Expr::Not(x) => {
                let inner = dsl_spec(cat, root, *c);
                assert(inner == match dsl_spec(cat, root, *x) {
                    Ok(q) => Ok(must_not(q)),
                    Err(err) => Err::<JsonV, ErrV>(err),
                });
                assert(dsl_spec(cat, root, e) == match inner {
                    Ok(q) => Ok(must_not(q)),
                    Err(err) => Err::<JsonV, ErrV>(err),
                });
            },
            _ => {},
        },
        _ => {},
    }
}

/// A term whose boost is absent encodes, under every opcode that encodes it
/// as a single leaf, to a leaf whose boost is the default one.
pub proof fn lemma_absent_boost_defaults(field: Seq<char>, t: Term, op: ComparisonOpcode)
    requires
        boost_absent(t),
        op is Contains || op is Eq || op is Regex || op is Gt || op is Gte || op is Lt || op is Lte,
        term_spec(field, t, op) is Ok,
    ensures
        leaf_boost(term_spec(field, t, op)->Ok_0) == Some(JsonV::Float32(DEFAULT_BOOST)),
{
}

/// A link to the root's own entity is no join: it compiles as its child.
pub proof fn lemma_link_to_root_is_transparent(cat: Catalog, root: IndexLink, e: Expr)
    requires
        e matches Expr::Linked(i, _) && i.qualified_index@ == root.qualified_index@,
    ensures
        match e {
            Expr::Linked(_, c) => dsl_spec(cat, root, e) == dsl_spec(cat, root, *c),
            _ => false,
        },
{
    let links = cat.topology.links@;
    let r = root.qualified_index@;
    assert(reaches_within(links, r, r, 0));
    assert(is_hop_count(links, r, r, 0));
    let n = choose|n: nat| is_hop_count(links, r, r, n);
    assert(n == 0);
    assert(hops(links, r, r, 0) =~= Seq::<IndexLink>::empty());
    assert(chosen_path(links, r, r) == Some(Seq::<IndexLink>::empty()));
}

/// Over a path of two hops, a link compiles to two nested joins: the inner
/// one, to the second hop's entity, around the child compiled against the
/// linked entity; the outer one, to the first hop's entity, around the inner.
#[verifier::rlimit(40)]
pub proof fn lemma_two_hop_join(cat: Catalog, root: IndexLink, e: Expr)
    requires
        e matches Expr::Linked(i, _) && chosen_path(
            cat.topology.links@,
            root.qualified_index@,
            i.qualified_index@,
        ) matches Some(p) && p.len() == 2,
    ensures
        match e {
            Expr::Linked(i, c) => {
                let p = chosen_path(cat.topology.links@, root.qualified_index@, i.qualified_index@)->Some_0;
                dsl_spec(cat, root, e) == match dsl_spec(cat, i, *c) {
                    Err(x) => Err(x),
                    Ok(q) => match wrap_hop(cat, p[1], q) {
                        Err(x) => Err(x),
                        Ok(inner) => wrap_hop(cat, p[0], inner),
                    },
                }
            },
            _ => false,
        },
{
    match e {
        Expr::Linked(i, c) => {
            let p = chosen_path(cat.topology.links@, root.qualified_index@, i.qualified_index@)->Some_0;
            assert(dsl_spec(cat, root, e) == match dsl_spec(cat, i, *c) {
                Err(x) => Err(x),
                Ok(q) => fold_spec(cat, p, q),
            });
            match dsl_spec(cat, i, *c) {
                Err(x) => {},
                Ok(q) => {
                    assert(p.last() == p[1]);
                    assert(p.drop_last().last() == p[0]);
                    assert(fold_spec(cat, p, q) == match wrap_hop(cat, p[1], q) {
                        Err(x) => Err(x),
                        Ok(inner) => fold_spec(cat, p.drop_last(), inner),
                    });
                    match wrap_hop(cat, p[1], q) {
                        Err(x) => {},
                        Ok(inner) => {
                            assert(fold_spec(cat, p.drop_last(), inner) == match wrap_hop(cat, p[0], inner) {
                                Err(x) => Err(x),
                                Ok(outer) => fold_spec(cat, p.drop_last().drop_last(), outer),
                            });
                            match wrap_hop(cat, p[0], inner) {
                                Err(x) => {},
                                Ok(outer) => {
                                    assert(p.drop_last().drop_last().len() == 0);
                                    assert(fold_spec(cat, p.drop_last().drop_last(), outer) == Ok::<_, ErrV>(outer));
                                },
                            }
                        },
                    }
                },
            }
        },
        _ => {},
    }
}

/// At every hop, a join puts the query it wraps directly inside itself when
/// visibility filtering is off, and inside a "must + filter" container with
/// the entity's visibility clause when it is on.
pub proof fn lemma_visibility_wrapper(cat: Catalog, hop: IndexLink, inner: JsonV)
    requires
        entry_pos(cat.indexes@, hop.qualified_index@, 0) >= 0,
    ensures
        ({
            let e = cat.indexes@[entry_pos(cat.indexes@, hop.qualified_index@, 0)];
            &&& cat.ignore_visibility ==> wrap_hop(cat, hop, inner) == Ok::<_, ErrV>(
                subselect(e.index_name@, hop, inner),
            )
            &&& !cat.ignore_visibility && e.visibility_clause is Some ==> wrap_hop(cat, hop, inner)
                == Ok::<_, ErrV>(
                subselect(e.index_name@, hop, must_filter(inner, e.visibility_clause->Some_0@)),
            )
        }),
{
}

/// The joins of `hops` folded around `inner` with no visibility wrapper at
/// any hop: each join holds the query inside it directly.
pub open spec fn bare_joins(cat: Catalog, hops: Seq<IndexLink>, inner: JsonV) -> JsonV
    decreases hops.len(),
{
    if hops.len() == 0 {
        inner
    } else {
        let hop = hops.last();
        let e = cat.indexes@[entry_pos(cat.indexes@, hop.qualified_index@, 0)];
        bare_joins(cat, hops.drop_last(), subselect(e.index_name@, hop, inner))
    }
}

/// With visibility filtering off, folding the joins of a path whose entities
/// are all in the catalog puts no "must + filter" container at any hop.
pub proof fn lemma_ignored_visibility_joins(cat: Catalog, hops: Seq<IndexLink>, inner: JsonV)
    requires
        cat.ignore_visibility,
        forall|k: int| 0 <= k < hops.len() ==> entry_pos(cat.indexes@, #[trigger] hops[k].qualified_index@, 0) >= 0,
    ensures
        fold_spec(cat, hops, inner) == Ok::<_, ErrV>(bare_joins(cat, hops, inner)),
    decreases hops.len(),
{
    if hops.len() > 0 {
        let hop = hops.last();
        assert(entry_pos(cat.indexes@, hops[hops.len() - 1].qualified_index@, 0) >= 0);
        let e = cat.indexes@[entry_pos(cat.indexes@, hop.qualified_index@, 0)];
        let next = subselect(e.index_name@, hop, inner);
        assert(wrap_hop(cat, hop, inner) == Ok::<_, ErrV>(next));
        assert forall|k: int| 0 <= k < hops.len() - 1 implies entry_pos(
            cat.indexes@,
            #[trigger] hops.drop_last()[k].qualified_index@,
            0,
        ) >= 0 by {
            assert(hops.drop_last()[k] == hops[k]);
        }
        lemma_ignored_visibility_joins(cat, hops.drop_last(), next);
    }
}

proof fn lemma_all_in_path_each(s: Seq<Expr>, p: Option<Seq<char>>)
    requires
        all_in_path(s, p),
    ensures
        forall|i: int| 0 <= i < s.len() ==> expr_nested_path(#[trigger] s[i]) == p,
    decreases s.len(),
{
    if s.len() > 0 {
        assert(expr_nested_path(s.last()) == p);
        lemma_all_in_path_each(s.drop_last(), p);
        assert forall|i: int| 0 <= i < s.len() implies expr_nested_path(#[trigger] s[i]) == p by {
            if i < s.len() - 1 {
                assert(s[i] == s.drop_last()[i]);
            }
        }
    }
}

/// A nested group whose children lie in two different nested paths fails
/// with `AmbiguousNestedPath`.
pub proof fn lemma_disagreeing_nested_paths(cat: Catalog, root: IndexLink, e: Expr, i: int, j: int)
    requires
        e matches Expr::WithList(v) && 0 <= i < v@.len() && 0 <= j < v@.len() && expr_nested_path(
            v@[i],
        ) != expr_nested_path(v@[j]),
    ensures
        dsl_spec(cat, root, e) == Err::<JsonV, _>(ErrV::AmbiguousNestedPath),
{
    match e {
        Expr::WithList(v) => {
            if list_nested_path(v@) is Some {
                lemma_all_in_path_each(v@, expr_nested_path(v@[0]));
            }
        },
        _ => {},
    }
}

} // verus!
