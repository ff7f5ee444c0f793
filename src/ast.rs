use vstd::prelude::*;

verus! {

/// The comparison a leaf of the query applies to its field.
#[derive(Clone, Copy, Debug, PartialEq, Eq, Structural)]
pub enum ComparisonOpcode {
    Contains,
    Eq,
    DoesNotContain,
    Ne,
    Regex,
    Gt,
    Gte,
    Lt,
    Lte,
    MoreLikeThis,
    FuzzyLikeThis,
}

/// A join from one indexed entity to `qualified_index`, matching `left_field`
/// on the source side with `right_field` on the target side. The link of an
/// entity to itself has no fields.
#[derive(Debug)]
pub struct IndexLink {
    pub name: Option<String>,
    pub left_field: Option<String>,
    pub qualified_index: String,
    pub right_field: Option<String>,
}

impl IndexLink {
    /// The link that stands for the entity `qualified_index` itself: no join.
    pub fn from_relation(qualified_index: &str) -> (r: IndexLink)
        ensures
            r.qualified_index@ == qualified_index@,
            r.name is None,
            r.left_field is None,
            r.right_field is None,
    {
        IndexLink {
            name: None,
            left_field: None,
            qualified_index: qualified_index.to_string(),
            right_field: None,
        }
    }

    /// A copy of this link.
    pub fn duplicate(&self) -> (r: IndexLink)
        ensures
            r == *self,
    {
        IndexLink {
            name: self.name.clone(),
            left_field: self.left_field.clone(),
            qualified_index: self.qualified_index.clone(),
            right_field: self.right_field.clone(),
        }
    }
}

/// A field name together with the entity it is qualified against.
#[derive(Debug)]
pub struct QualifiedField {
    pub index: String,
    pub field: String,
}

/// The position of the last `.` in `s`, or -1 when there is none.
pub open spec fn last_dot(s: Seq<char>) -> int
    decreases s.len(),
{
    if s.len() == 0 {
        -1
    } else if s.last() == '.' {
        s.len() - 1
    } else {
        last_dot(s.drop_last())
    }
}

/// The nested document path of a field name: all that comes before its last
/// `.`; a name without a `.` lies in no nested path.
pub open spec fn field_nested_path(s: Seq<char>) -> Option<Seq<char>> {
    if last_dot(s) < 0 {
        None
    } else {
        Some(s.subrange(0, last_dot(s)))
    }
}

proof fn lemma_last_dot(s: Seq<char>)
    ensures
        -1 <= last_dot(s) < s.len(),
        last_dot(s) >= 0 ==> s[last_dot(s)] == '.',
        forall|k: int| last_dot(s) < k < s.len() ==> s[k] != '.',
    decreases s.len(),
{
    if s.len() > 0 && s.last() != '.' {
        lemma_last_dot(s.drop_last());
        assert(forall|k: int| 0 <= k < s.len() - 1 ==> s.drop_last()[k] == s[k]);
    }
}

impl QualifiedField {
    /// The canonical name of the field in the backend.
    pub fn field_name(&self) -> (r: String)
        ensures
            r@ == self.field@,
    {
        self.field.clone()
    }

    /// The nested document path this field lies in, if any.
    pub fn nested_path(&self) -> (r: Option<String>)
        ensures
            r matches Some(p) ==> field_nested_path(self.field@) == Some(p@),
            r is None ==> field_nested_path(self.field@) is None,
    {
        let s = self.field.as_str();
        let n: usize = s.unicode_len();
        let mut i: usize = n;
        proof {
            lemma_last_dot(s@);
        }
        while i > 0
            invariant
                i <= n == s@.len(),
                s@ == self.field@,
                forall|k: int| i <= k < n ==> s@[k] != '.',
                -1 <= last_dot(s@) < n,
                last_dot(s@) >= 0 ==> s@[last_dot(s@)] == '.',
                forall|k: int| last_dot(s@) < k < n ==> s@[k] != '.',
            decreases i,
        {
            if s.get_char(i - 1) == '.' {
                assert(last_dot(s@) == i - 1);
                let p = s.substring_char(0, i - 1);
                return Some(p.to_string());
            }
            i = i - 1;
        }
        None
    }
}

/// A leaf value of the query. Boosts are the IEEE-754 bits of an `f32`
/// relevance multiplier; `None` leaves it to the encoder's default.
#[derive(Debug)]
pub enum Term {
    Null,
    MatchAll,
    String(String, Option<u32>),
    Phrase(String, Option<u32>),
    PhraseWithWildcard(String, Option<u32>),
    Wildcard(String, Option<u32>),
    Fuzzy(String, u8, Option<u32>),
    Range(String, String, Option<u32>),
    Regex(String, Option<u32>),
    ParsedArray(Vec<Term>, Option<u32>),
}

/// The query tree.
#[derive(Debug)]
pub enum Expr {
    WithList(Vec<Expr>),
    AndList(Vec<Expr>),
    OrList(Vec<Expr>),
    Not(Box<Expr>),
    Contains(QualifiedField, Term),
    Eq(QualifiedField, Term),
    DoesNotContain(QualifiedField, Term),
    Ne(QualifiedField, Term),
    Regex(QualifiedField, Term),
    Gt(QualifiedField, Term),
    Gte(QualifiedField, Term),
    Lt(QualifiedField, Term),
    Lte(QualifiedField, Term),
    MoreLikeThis(QualifiedField, Term),
    FuzzyLikeThis(QualifiedField, Term),
    Linked(IndexLink, Box<Expr>),
}

/// The nested path that an expression's fields lie in: the path of its field
/// for a comparison, that of its child for a negation, the one path shared by
/// all children of a list, and none for a join to another entity.
pub open spec fn expr_nested_path(e: Expr) -> Option<Seq<char>>
    decreases e, 0int,
{
    match e {
        Expr::WithList(v) => list_nested_path(v@),
        Expr::AndList(v) => list_nested_path(v@),
        Expr::OrList(v) => list_nested_path(v@),
        Expr::Not(c) => expr_nested_path(*c),
        Expr::Linked(_, _) => None,
        Expr::Contains(f, _) => field_nested_path(f.field@),
        Expr::Eq(f, _) => field_nested_path(f.field@),
        Expr::DoesNotContain(f, _) => field_nested_path(f.field@),
        Expr::Ne(f, _) => field_nested_path(f.field@),
        Expr::Regex(f, _) => field_nested_path(f.field@),
        Expr::Gt(f, _) => field_nested_path(f.field@),
        Expr::Gte(f, _) => field_nested_path(f.field@),
        Expr::Lt(f, _) => field_nested_path(f.field@),
        Expr::Lte(f, _) => field_nested_path(f.field@),
        Expr::MoreLikeThis(f, _) => field_nested_path(f.field@),
        Expr::FuzzyLikeThis(f, _) => field_nested_path(f.field@),
    }
}

/// Whether every expression of `s` lies in the nested path `p`.
pub open spec fn all_in_path(s: Seq<Expr>, p: Option<Seq<char>>) -> bool
    decreases s, 0int,
{
    s.len() == 0 || (expr_nested_path(s.last()) == p && all_in_path(s.drop_last(), p))
}

/// The one nested path that every expression of `s` lies in; none when `s` is
/// empty, when its first expression lies in none, or when two disagree.
pub open spec fn list_nested_path(s: Seq<Expr>) -> Option<Seq<char>>
    decreases s, 1int,
{
    if s.len() > 0 && expr_nested_path(s[0]) is Some && all_in_path(s, expr_nested_path(s[0])) {
        expr_nested_path(s[0])
    } else {
        None
    }
}

proof fn lemma_all_in_path_prefix(s: Seq<Expr>, p: Option<Seq<char>>, k: int)
    requires
        0 <= k <= s.len(),
        all_in_path(s, p),
    ensures
        all_in_path(s.subrange(0, k), p),
    decreases s.len() - k,
{
    if k < s.len() {
        lemma_all_in_path_prefix(s.drop_last(), p, k);
        assert(s.drop_last().subrange(0, k) =~= s.subrange(0, k));
    } else {
        assert(s.subrange(0, k) =~= s);
    }
}

fn same_path(a: &Option<String>, b: &Option<String>) -> (r: bool)
    ensures
        r == (opt_view(*a) == opt_view(*b)),
{
    match (a, b) {
        (Some(x), Some(y)) => *x == *y,
        (None, None) => true,
        _ => false,
    }
}

/// The view of an optional string.
pub open spec fn opt_view(o: Option<String>) -> Option<Seq<char>> {
    match o {
        Some(s) => Some(s@),
        None => None,
    }
}

impl Expr {
    /// The nested path that this expression's fields lie in.
    pub fn get_nested_path(&self) -> (r: Option<String>)
        ensures
            opt_view(r) == expr_nested_path(*self),
        decreases *self,
    {
        match self {
            Expr::WithList(v) => Expr::nested_path(v),
            Expr::AndList(v) => Expr::nested_path(v),
            Expr::OrList(v) => Expr::nested_path(v),
            Expr::Not(c) => c.get_nested_path(),
            Expr::Linked(_, _) => None,
            Expr::Contains(f, _) => f.nested_path(),
            Expr::Eq(f, _) => f.nested_path(),
            Expr::DoesNotContain(f, _) => f.nested_path(),
            Expr::Ne(f, _) => f.nested_path(),
            Expr::Regex(f, _) => f.nested_path(),
            Expr::Gt(f, _) => f.nested_path(),
            Expr::Gte(f, _) => f.nested_path(),
            Expr::Lt(f, _) => f.nested_path(),
            Expr::Lte(f, _) => f.nested_path(),
            Expr::MoreLikeThis(f, _) => f.nested_path(),
            Expr::FuzzyLikeThis(f, _) => f.nested_path(),
        }
    }

    /// The one nested path that all of `v` lies in, if there is one.
    pub fn nested_path(v: &Vec<Expr>) -> (r: Option<String>)
        ensures
            opt_view(r) == list_nested_path(v@),
        decreases v@,
    {
        if v.len() == 0 {
            return None;
        }
        assert(decreases_to!(v@ => v@[0]));
        let first = v[0].get_nested_path();
        if first.is_none() {
            return None;
        }
        let mut i: usize = 1;
        assert(v@.subrange(0, 1).drop_last() =~= Seq::<Expr>::empty());
        assert(v@.subrange(0, 1).last() == v@[0]);
        assert(all_in_path(v@.subrange(0, 1).drop_last(), expr_nested_path(v@[0])));
        while i < v.len()
            invariant
                1 <= i <= v@.len(),
                opt_view(first) == expr_nested_path(v@[0]),
                first is Some,
                all_in_path(v@.subrange(0, i as int), expr_nested_path(v@[0])),
            decreases v@.len() - i,
        {
            assert(decreases_to!(v@ => v@[i as int]));
            let p = v[i].get_nested_path();
            assert(v@.subrange(0, i as int + 1).drop_last() =~= v@.subrange(0, i as int));
            if !same_path(&p, &first) {
                proof {
                    if all_in_path(v@, expr_nested_path(v@[0])) {
                        lemma_all_in_path_prefix(v@, expr_nested_path(v@[0]), i + 1);
                    }
                }
                return None;
            }
            i = i + 1;
        }
        assert(v@.subrange(0, v@.len() as int) =~= v@);
        first
    }
}

} // verus!
