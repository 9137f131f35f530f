//! Query syntax tree and result types for vault search.

use vstd::prelude::*;

verus! {

/// A search query syntax tree node.
#[derive(Debug)]
pub enum SearchQuery {
    /// A field-level predicate (content, path, tag, ...).
    Field(FieldPredicate),
    /// All children must match.
    And { children: Vec<SearchQuery> },
    /// At least one child must match.
    Or { children: Vec<SearchQuery> },
    /// The child must not match.
    Not { child: Box<SearchQuery> },
}

/// A predicate on one field of a note.
#[derive(Debug)]
pub enum FieldPredicate {
    /// The note's file path.
    Path { matcher: StringMatcher },
    /// The note's file name without extension.
    Filename { matcher: StringMatcher },
    /// A tag (frontmatter `tags` list or inline `#tag`).
    Tag { value: String },
    /// The note's body.
    Content { matcher: StringMatcher },
    /// The sub-query must match within one heading section.
    Section { query: Box<SearchQuery> },
    /// The sub-query must match within one line.
    Line { query: Box<SearchQuery> },
    /// A frontmatter or inline property.
    Property { key: String, op: PropertyOp, value: Option<String> },
}

/// How a string value is matched.
#[derive(Debug, Clone)]
pub enum StringMatcher {
    /// Case-insensitive substring.
    Contains { value: String },
    /// Exact string.
    Exact { value: String },
    /// Regular expression.
    Regex { pattern: String },
}

/// Comparison operator of a property predicate.
#[derive(Debug, Clone, Copy, PartialEq, Eq, Structural)]
pub enum PropertyOp {
    /// The property exists.
    Exists,
    /// Equal.
    Eq,
    /// Not equal.
    NotEq,
    /// Less than.
    Lt,
    /// Greater than.
    Gt,
    /// Less than or equal.
    Lte,
    /// Greater than or equal.
    Gte,
}

/// One match location within a note.
#[derive(Debug, Clone)]
pub struct SearchMatch {
    /// Which field matched (`content`, `tag`, `property:status`, ...).
    pub field: String,
    /// 1-based line number, where it applies.
    pub line: Option<usize>,
    /// The matched text or value.
    pub text: Option<String>,
}

/// The mathematical value of a string matcher.
pub enum MatcherV {
    Contains(Seq<char>),
    Exact(Seq<char>),
    Regex(Seq<char>),
}

/// The mathematical value of a field predicate.
pub enum PredV {
    Path(MatcherV),
    Filename(MatcherV),
    Tag(Seq<char>),
    Content(MatcherV),
    Section(Box<QueryV>),
    Line(Box<QueryV>),
    Property(Seq<char>, PropertyOp, Option<Seq<char>>),
}

/// The mathematical value of a query.
pub enum QueryV {
    Field(PredV),
    And(Seq<QueryV>),
    Or(Seq<QueryV>),
    Not(Box<QueryV>),
}

pub open spec fn matcher_view(m: StringMatcher) -> MatcherV {
    match m {
        StringMatcher::Contains { value } => MatcherV::Contains(value@),
        StringMatcher::Exact { value } => MatcherV::Exact(value@),
        StringMatcher::Regex { pattern } => MatcherV::Regex(pattern@),
    }
}

pub open spec fn opt_str_view(o: Option<String>) -> Option<Seq<char>> {
    match o {
        Some(s) => Some(s@),
        None => None,
    }
}

pub open spec fn pred_view(p: FieldPredicate) -> PredV
    decreases p,
{
    match p {
        FieldPredicate::Path { matcher } => PredV::Path(matcher_view(matcher)),
        FieldPredicate::Filename { matcher } => PredV::Filename(matcher_view(matcher)),
        FieldPredicate::Tag { value } => PredV::Tag(value@),
        FieldPredicate::Content { matcher } => PredV::Content(matcher_view(matcher)),
        FieldPredicate::Section { query } => PredV::Section(Box::new(query_view(*query))),
        FieldPredicate::Line { query } => PredV::Line(Box::new(query_view(*query))),
        FieldPredicate::Property { key, op, value } => PredV::Property(
            key@,
            op,
            opt_str_view(value),
        ),
    }
}

pub open spec fn query_view(q: SearchQuery) -> QueryV
    decreases q,
{
    match q {
        SearchQuery::Field(p) => QueryV::Field(pred_view(p)),
        SearchQuery::And { children } => QueryV::And(
            Seq::new(
                children@.len(),
                |i: int|
                    if 0 <= i < children@.len() {
                        proof {
                            assert(decreases_to!(children => children@));
                        }
                        query_view(children@[i])
                    } else {
                        QueryV::And(Seq::empty())
                    },
            ),
        ),
        SearchQuery::Or { children } => QueryV::Or(
            Seq::new(
                children@.len(),
                |i: int|
                    if 0 <= i < children@.len() {
                        proof {
                            assert(decreases_to!(children => children@));
                        }
                        query_view(children@[i])
                    } else {
                        QueryV::Or(Seq::empty())
                    },
            ),
        ),
        SearchQuery::Not { child } => QueryV::Not(Box::new(query_view(*child))),
    }
}

/// The values of a sequence of queries.
pub open spec fn queries_view(v: Seq<SearchQuery>) -> Seq<QueryV> {
    Seq::new(v.len(), |i: int| query_view(v[i]))
}

/// The value of an `And` node is the conjunction of its children's values.
pub proof fn lemma_view_and(children: Vec<SearchQuery>)
    ensures
        query_view(SearchQuery::And { children }) == QueryV::And(queries_view(children@)),
{
    let q = SearchQuery::And { children };
    let cs = match query_view(q) {
        QueryV::And(cs) => cs,
        _ => Seq::empty(),
    };
    assert(cs =~= queries_view(children@));
}

/// The value of an `Or` node is the disjunction of its children's values.
pub proof fn lemma_view_or(children: Vec<SearchQuery>)
    ensures
        query_view(SearchQuery::Or { children }) == QueryV::Or(queries_view(children@)),
{
    let q = SearchQuery::Or { children };
    let cs = match query_view(q) {
        QueryV::Or(cs) => cs,
        _ => Seq::empty(),
    };
    assert(cs =~= queries_view(children@));
}

/// The value of a field node is the value of its predicate.
pub proof fn lemma_view_field(p: FieldPredicate)
    ensures
        query_view(SearchQuery::Field(p)) == QueryV::Field(pred_view(p)),
{
}

/// The value of a negation is the negation of its child's value.
pub proof fn lemma_view_not(c: SearchQuery)
    ensures
        query_view(SearchQuery::Not { child: Box::new(c) }) == QueryV::Not(Box::new(query_view(c))),
{
}

/// Pushing a query pushes its value.
pub proof fn lemma_queries_push(v: Seq<SearchQuery>, q: SearchQuery)
    ensures
        queries_view(v.push(q)) == queries_view(v).push(query_view(q)),
{
    assert(queries_view(v.push(q)) =~= queries_view(v).push(query_view(q)));
}

} // verus!
