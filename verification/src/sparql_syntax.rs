//! Reading SPARQL query texts, with `spargebra`'s parser, into the query
//! forms that plans are made of.
use vstd::prelude::*;
use crate::encoding::Encoder;
use crate::sparql::{
    QueryForm, QueryPattern, QueryExpression, QueryAggregate, PlanNode, eval_query, query_ok, query_plan,
    plan_view, pattern_ok, expression_ok, parse_usize_exec,
};
use crate::text::chars_of;
use crate::tripleindex::TripleIndex;
use spargebra::Query;
use spargebra::algebra::{GraphPattern, Expression, AggregateExpression};
use spargebra::term::TriplePattern;

verus! {

#[verifier::external_type_specification]
#[verifier::external_body]
pub struct ExQuery(Query);

#[verifier::external_type_specification]
#[verifier::external_body]
pub struct ExGraphPattern(GraphPattern);

#[verifier::external_type_specification]
#[verifier::external_body]
pub struct ExExpression(Expression);

#[verifier::external_type_specification]
#[verifier::external_body]
pub struct ExAggregateExpression(AggregateExpression);

#[verifier::external_type_specification]
#[verifier::external_body]
pub struct ExTriplePattern(TriplePattern);

/// Whether `spargebra::Query::parse` accepts a text (without base IRI).
pub uninterp spec fn sparql_parses(text: Seq<char>) -> bool;

/// Calls `spargebra::Query::parse` on the text, without base IRI, and reads
/// the query into the library's form (`convert_query`); an error becomes
/// its message. The contract claims that the call succeeds exactly when the
/// parser accepts the text (`sparql_parses`), which depends on the text
/// alone. The query read is left unsaid: the parser names the results of
/// aggregates, and blank nodes, with random identifiers.
#[verifier::external_body]
fn parse_query(text: &str) -> (res: Result<QueryForm, String>)
    ensures
        res is Ok <==> sparql_parses(text@),
{
    match Query::parse(text, None) {
        Ok(query) => Ok(convert_query(&query)),
        Err(error) => Err(error.to_string()),
    }
}

/// The form of a parsed query: its kind and, for a selection, its pattern
/// (`convert_pattern`). Part of `parse_query`.
#[verifier::external_body]
fn convert_query(query: &Query) -> QueryForm {
    match query {
        Query::Select { pattern, .. } => QueryForm::Select { pattern: convert_pattern(pattern) },
        Query::Construct { .. } => QueryForm::Construct,
        Query::Describe { .. } => QueryForm::Describe,
        Query::Ask { .. } => QueryForm::Ask,
    }
}

/// A `spargebra` graph pattern in the library's form: basic graph patterns,
/// filters and extensions with their parts converted, projections and groups
/// by `convert_grouping`. Part of `parse_query`.
#[verifier::external_body]
fn convert_pattern(p: &GraphPattern) -> QueryPattern {
    match p {
        GraphPattern::Bgp { patterns } => QueryPattern::Bgp { patterns: patterns.iter().map(convert_triple).collect() },
        GraphPattern::Filter { expr, inner } => QueryPattern::Filter { expr: convert_expression(expr), inner: boxed_pattern(inner) },
        GraphPattern::Extend { inner, variable, expression } => QueryPattern::Extend { inner: boxed_pattern(inner), variable: variable.as_str().to_string(), expression: convert_expression(expression) },
        _ => convert_grouping(p),
    }
}

/// A `spargebra` projection or group in the library's form: variables by
/// their names (`Variable::as_str`, without `?`), aggregates converted;
/// every other pattern as `Other`. Part of `parse_query`.
#[verifier::external_body]
fn convert_grouping(p: &GraphPattern) -> QueryPattern {
    match p {
        GraphPattern::Project { inner, variables } => QueryPattern::Project { inner: boxed_pattern(inner), variables: variables.iter().map(|v| v.as_str().to_string()).collect() },
        GraphPattern::Group { inner, variables, aggregates } => QueryPattern::Group {
            inner: boxed_pattern(inner),
            variables: variables.iter().map(|v| v.as_str().to_string()).collect(),
            aggregates: aggregates.iter().map(|(v, a)| (v.as_str().to_string(), convert_aggregate(a))).collect(),
        },
        _ => QueryPattern::Other,
    }
}

/// A converted graph pattern in a box. Part of `parse_query`.
#[verifier::external_body]
fn boxed_pattern(p: &GraphPattern) -> Box<QueryPattern> {
    Box::new(convert_pattern(p))
}

/// A triple pattern with its three elements written out by their `Display`
/// (`?name`, `<iri>`, a literal in N-Triples form). Part of `parse_query`.
#[verifier::external_body]
fn convert_triple(t: &TriplePattern) -> (String, String, String) {
    (t.subject.to_string(), t.predicate.to_string(), t.object.to_string())
}

/// A `spargebra` expression in the library's form: a literal by its lexical
/// form (`Literal::value`), a variable by its name, the four comparisons,
/// and every other expression as `Other`. Part of `parse_query`.
#[verifier::external_body]
fn convert_expression(e: &Expression) -> QueryExpression {
    match e {
        Expression::Literal(l) => QueryExpression::Literal(l.value().to_string()),
        Expression::Variable(v) => QueryExpression::Variable(v.as_str().to_string()),
        Expression::Greater(a, b) => QueryExpression::Greater(boxed_expression(a), boxed_expression(b)),
        Expression::GreaterOrEqual(a, b) => QueryExpression::GreaterOrEqual(boxed_expression(a), boxed_expression(b)),
        Expression::Less(a, b) => QueryExpression::Less(boxed_expression(a), boxed_expression(b)),
        Expression::LessOrEqual(a, b) => QueryExpression::LessOrEqual(boxed_expression(a), boxed_expression(b)),
        _ => QueryExpression::Other,
    }
}

/// A converted expression in a box. Part of `parse_query`.
#[verifier::external_body]
fn boxed_expression(e: &Expression) -> Box<QueryExpression> {
    Box::new(convert_expression(e))
}

/// A `spargebra` aggregate in the library's form: counts and sums with
/// their `distinct` flag, every other aggregate as `Other`. Part of
/// `parse_query`.
#[verifier::external_body]
fn convert_aggregate(a: &AggregateExpression) -> QueryAggregate {
    match a {
        AggregateExpression::Count { distinct, .. } => QueryAggregate::Count { distinct: *distinct },
        AggregateExpression::Sum { distinct, .. } => QueryAggregate::Sum { distinct: *distinct },
        _ => QueryAggregate::Other,
    }
}

/// Whether every literal of the expression is a `usize` (see
/// `expression_ok`).
fn expression_ok_exec(e: &QueryExpression) -> (res: bool)
    ensures
        res == expression_ok(*e),
    decreases e,
{
    match e {
        QueryExpression::Literal(v) => parse_usize_exec(&chars_of(v.as_str())).is_some(),
        QueryExpression::Greater(a, b) => expression_ok_exec(a) && expression_ok_exec(b),
        QueryExpression::GreaterOrEqual(a, b) => expression_ok_exec(a) && expression_ok_exec(b),
        QueryExpression::Less(a, b) => expression_ok_exec(a) && expression_ok_exec(b),
        QueryExpression::LessOrEqual(a, b) => expression_ok_exec(a) && expression_ok_exec(b),
        _ => true,
    }
}

/// Whether a plan can be made from the pattern (see `pattern_ok`).
fn pattern_ok_exec(q: &QueryPattern) -> (res: bool)
    ensures
        res == pattern_ok(*q),
    decreases q,
{
    match q {
        QueryPattern::Bgp { patterns } => patterns.len() > 0,
        QueryPattern::Project { inner, .. } => pattern_ok_exec(inner),
        QueryPattern::Filter { expr, inner } => pattern_ok_exec(inner) && expression_ok_exec(expr),
        QueryPattern::Group { inner, aggregates, .. } => {
            if !pattern_ok_exec(inner) {
                return false;
            }
            let mut i: usize = 0;
            while i < aggregates.len()
                invariant
                    i <= aggregates@.len(),
                    pattern_ok(*q) <==> forall|k: int|
                        0 <= k < aggregates@.len() ==> (#[trigger] aggregates@[k]).1 != QueryAggregate::Other,
                    forall|k: int| 0 <= k < i ==> (#[trigger] aggregates@[k]).1 != QueryAggregate::Other,
                decreases aggregates@.len() - i,
            {
                match aggregates[i].1 {
                    QueryAggregate::Other => {
                        assert(aggregates@[i as int].1 == QueryAggregate::Other);
                        assert(!pattern_ok(*q));
                        return false;
                    },
                    _ => {},
                }
                i = i + 1;
            }
            true
        },
        QueryPattern::Extend { inner, expression, .. } => match expression {
            QueryExpression::Variable(_) => pattern_ok_exec(inner),
            _ => true,
        },
        QueryPattern::Other => true,
    }
}

/// Why a query text gives no plan.
#[derive(Debug)]
pub enum QueryError {
    /// The text is no SPARQL query; the parser's message.
    Parse(String),
    /// The query uses a literal that is no `usize`, an empty basic graph
    /// pattern, or an aggregate other than a count or a sum.
    Unsupported,
}

/// What a parse outcome gives: the parser's message as an error; a query
/// from which a plan can be made (see `query_ok`); else `Unsupported`.
pub fn check_query(parsed: Result<QueryForm, String>) -> (res: Result<QueryForm, QueryError>)
    ensures
        match parsed {
            Err(m) => res == Err::<QueryForm, QueryError>(QueryError::Parse(m)),
            Ok(q) => if query_ok(q) {
                res == Ok::<QueryForm, QueryError>(q)
            } else {
                res == Err::<QueryForm, QueryError>(QueryError::Unsupported)
            },
        },
{
    match parsed {
        Err(m) => Err(QueryError::Parse(m)),
        Ok(q) => {
            let ok = match &q {
                QueryForm::Select { pattern } => pattern_ok_exec(pattern),
                _ => true,
            };
            if ok {
                Ok(q)
            } else {
                Err(QueryError::Unsupported)
            }
        },
    }
}

/// Reads a SPARQL query text into the library's form, from which a plan can
/// be made (see `query_ok`); an error when the text does not parse or the
/// query holds what plans cannot (see `check_query`, applied to what the
/// parser gives).
pub fn read_query(text: &str) -> (res: Result<QueryForm, QueryError>)
    ensures
        res matches Ok(q) ==> query_ok(q),
        res matches Err(QueryError::Parse(_)) <==> !sparql_parses(text@),
{
    check_query(parse_query(text))
}

/// The plan of a parse outcome (see `eval_query`), or why there is none:
/// the parser's message, or `Unsupported` when the query holds what plans
/// cannot (see `query_ok`); then the dictionary is unchanged.
pub fn plan_parsed(parsed: Result<QueryForm, String>, index: &TripleIndex, encoder: &mut Encoder) -> (res: Result<PlanNode, QueryError>)
    ensures
        match parsed {
            Err(m) => res == Err::<PlanNode, QueryError>(QueryError::Parse(m)) && final(encoder)@ == old(encoder)@,
            Ok(q) => if query_ok(q) {
                res matches Ok(p) && (plan_view(p), final(encoder)@) == query_plan(q, old(encoder)@)
            } else {
                res == Err::<PlanNode, QueryError>(QueryError::Unsupported) && final(encoder)@ == old(encoder)@
            },
        },
{
    match check_query(parsed) {
        Err(e) => Err(e),
        Ok(q) => Ok(eval_query(&q, index, encoder)),
    }
}

/// Reads a SPARQL query text and makes its plan (see `plan_parsed`, applied
/// to what the parser gives), or says why there is none: the text does not
/// parse, or the query holds what plans cannot (see `query_ok`); then the
/// dictionary is unchanged. The parser names aggregates at random, so the
/// plan is that of some query that the text reads as.
pub fn plan_query(text: &str, index: &TripleIndex, encoder: &mut Encoder) -> (res: Result<PlanNode, QueryError>)
    ensures
        match res {
            Ok(p) => exists|q: QueryForm|
                query_ok(q) && (plan_view(p), final(encoder)@) == #[trigger] query_plan(q, old(encoder)@),
            Err(_) => final(encoder)@ == old(encoder)@,
        },
        res matches Err(QueryError::Parse(_)) <==> !sparql_parses(text@),
{
    let parsed = parse_query(text);
    let ghost pv = parsed;
    let res = plan_parsed(parsed, index, encoder);
    proof {
        if res is Ok {
            let q = pv->Ok_0;
            assert(query_ok(q) && (plan_view(res->Ok_0), encoder@) == query_plan(q, old(encoder)@));
        }
    }
    res
}

} // verus!
