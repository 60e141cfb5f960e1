//! Evaluation of SPARQL query plans over the triple index: basic patterns,
//! joins, projections, filters on integer comparisons, counting aggregates
//! and renamings. Rows are lists of encoded bindings.
use vstd::prelude::*;
use crate::encoding::{Encoder, add_spec, code_spec, decode_spec};
use crate::triples::{Triple, TermImpl, triple_from_spec, convert_all_strings};
use crate::tripleindex::{TripleIndex, TripleIndexView, EncodedBinding, query_help_spec, rows_view};
use crate::text::{chars_of, string_of, split, split_pat, strip_ends, strip_ends_exec, eq_chars, views};
use crate::utils::is_ascii;
use crate::rsp::{deep_seq, clone_keeps_deep_view};
use vstd::laws_eq::obeys_deep_eq;

verus! {

/// A variable bound to a value, both written out.
#[derive(Debug, Eq, Hash)]
pub struct Binding {
    pub var: String,
    pub val: String,
}

/// Two bindings are equal when their variables and values read the same.
impl PartialEq for Binding {
    fn eq(&self, other: &Self) -> (res: bool) {
        self.var == other.var && self.val == other.val
    }
}

impl vstd::std_specs::cmp::PartialEqSpecImpl for Binding {
    open spec fn obeys_eq_spec() -> bool {
        true
    }

    open spec fn eq_spec(&self, other: &Self) -> bool {
        self.var@ == other.var@ && self.val@ == other.val@
    }
}

impl Clone for Binding {
    fn clone(&self) -> (res: Self)
        ensures
            res == *self,
    {
        Binding { var: self.var.clone(), val: self.val.clone() }
    }
}

impl DeepView for Binding {
    type V = (Seq<char>, Seq<char>);

    /// The variable and the value.
    open spec fn deep_view(&self) -> (Seq<char>, Seq<char>) {
        (self.var@, self.val@)
    }
}

/// An expression of a filter: constants, variables and comparisons.
#[derive(Debug)]
pub enum PlanExpression {
    Constant(TermImpl),
    Variable(usize),
    Greater(Box<PlanExpression>, Box<PlanExpression>),
    GreaterOrEqual(Box<PlanExpression>, Box<PlanExpression>),
    Less(Box<PlanExpression>, Box<PlanExpression>),
    LessOrEqual(Box<PlanExpression>, Box<PlanExpression>),
    Done,
}

/// An aggregate function.
#[derive(Debug, Clone, Copy, PartialEq, Eq, Hash, Structural)]
pub enum PlanAggregationFunction {
    Count,
    Sum,
    Min,
    Max,
    Avg,
}

/// An aggregate: its function and whether it counts distinct values.
#[derive(Debug, Clone, Copy, PartialEq, Eq, Hash, Structural)]
pub struct PlanAggregation {
    pub function: PlanAggregationFunction,
    pub distinct: bool,
}

/// A query plan. Variables of patterns, projections and filters are codes;
/// those of aggregates and renamings are names, looked up when the plan is
/// evaluated.
#[derive(Debug)]
pub enum PlanNode {
    Join { left: Box<PlanNode>, right: Box<PlanNode> },
    QuadPattern { pattern: Triple },
    Project { child: Box<PlanNode>, mapping: Vec<usize> },
    Filter { child: Box<PlanNode>, expression: Box<PlanExpression> },
    Aggregate { child: Box<PlanNode>, keys: Vec<String>, aggregates: Vec<(PlanAggregation, String)> },
    Extend { child: Box<PlanNode>, from: String, to: String },
    Done,
}

/// A value that a filter expression computes.
#[derive(Debug, Clone, PartialEq, Eq)]
pub enum EncodedTerm {
    NamedNode { iri_id: usize },
    StringLiteral(String),
    IntegerLiteral(usize),
    BooleanLiteral(bool),
}

/// The outcome of comparing two values.
#[derive(Debug, Clone, Copy, PartialEq, Eq, Structural)]
pub enum Order {
    Less,
    Equal,
    Greater,
}

/// The order of two integers.
pub open spec fn order_of(a: int, b: int) -> Order {
    if a < b {
        Order::Less
    } else if a == b {
        Order::Equal
    } else {
        Order::Greater
    }
}

/// The lexicographic order of two character sequences (as `String`s order).
pub open spec fn order_of_chars(a: Seq<char>, b: Seq<char>) -> Order
    decreases a.len(),
{
    if a.len() == 0 {
        if b.len() == 0 {
            Order::Equal
        } else {
            Order::Less
        }
    } else if b.len() == 0 {
        Order::Greater
    } else if (a[0] as u32) < (b[0] as u32) {
        Order::Less
    } else if (a[0] as u32) > (b[0] as u32) {
        Order::Greater
    } else {
        order_of_chars(a.drop_first(), b.drop_first())
    }
}

/// The value of a decimal digit.
pub open spec fn digit_value(c: char) -> int {
    (c as u32) - ('0' as u32)
}

/// A decimal digit.
pub open spec fn is_digit(c: char) -> bool {
    '0' <= c <= '9'
}

/// The number that decimal digits write.
pub open spec fn digits_value(s: Seq<char>) -> int
    decreases s.len(),
{
    if s.len() == 0 {
        0
    } else {
        digits_value(s.drop_last()) * 10 + digit_value(s.last())
    }
}

/// The `usize` that a text writes (as `usize::from_str` reads it): an
/// optional `+`, then one or more decimal digits, for a value that fits.
pub open spec fn parse_usize_spec(s: Seq<char>) -> Option<usize> {
    let d = unsigned_digits(s);
    if d.len() > 0 && all_digits(d) && digits_value(d) <= usize::MAX {
        Some(digits_value(d) as usize)
    } else {
        None
    }
}

/// The text without its leading `+`, if any.
pub open spec fn unsigned_digits(s: Seq<char>) -> Seq<char> {
    if s.len() > 0 && s[0] == '+' {
        s.drop_first()
    } else {
        s
    }
}

/// Every character is a decimal digit.
pub open spec fn all_digits(d: Seq<char>) -> bool {
    forall|i: int| 0 <= i < d.len() ==> is_digit(#[trigger] d[i])
}

/// The decimal digit of a value below ten.
pub open spec fn digit_char(d: int) -> char {
    if d == 0 {
        '0'
    } else if d == 1 {
        '1'
    } else if d == 2 {
        '2'
    } else if d == 3 {
        '3'
    } else if d == 4 {
        '4'
    } else if d == 5 {
        '5'
    } else if d == 6 {
        '6'
    } else if d == 7 {
        '7'
    } else if d == 8 {
        '8'
    } else {
        '9'
    }
}

/// The decimal writing of a number.
pub open spec fn decimal(n: nat) -> Seq<char>
    decreases n,
{
    if n < 10 {
        seq![digit_char(n as int)]
    } else {
        decimal(n / 10).push(digit_char((n % 10) as int))
    }
}

/// The text `^^`.
pub open spec fn type_sep() -> Seq<char> {
    seq!['^', '^']
}

/// The datatype IRI of integer literals.
pub open spec fn integer_iri() -> Seq<char> {
    "<http://www.w3.org/2001/XMLSchema#integer>"@
}

/// The value of the first binding of variable `v` in a row, if any.
pub open spec fn first_value(row: Seq<EncodedBinding>, v: usize) -> Option<usize>
    decreases row.len(),
{
    if row.len() == 0 {
        None
    } else if row[0].var == v {
        Some(row[0].val)
    } else {
        first_value(row.drop_first(), v)
    }
}

/// The term that the value with code `val` stands for in a comparison: an
/// integer literal (`"n"^^<...#integer>`) stands for its number, anything
/// else for its code. `None` when reading it fails (a typed literal whose
/// quoted part is shorter than two characters or has a multi-byte first or
/// last character, or an integer literal that is not a `usize`).
pub open spec fn literal_term(enc: Seq<Seq<char>>, val: usize) -> Option<EncodedTerm> {
    match decode_spec(enc, val as int) {
        None => Some(EncodedTerm::IntegerLiteral(val)),
        Some(s) => {
            let parts = split_pat(s, type_sep());
            if parts.len() >= 2 {
                let value = parts[0];
                if value.len() >= 2 && is_ascii(value[0]) && is_ascii(value.last()) {
                    if parts[1] == integer_iri() {
                        match parse_usize_spec(strip_ends(value)) {
                            Some(n) => Some(EncodedTerm::IntegerLiteral(n)),
                            None => None,
                        }
                    } else {
                        Some(EncodedTerm::IntegerLiteral(val))
                    }
                } else {
                    None
                }
            } else {
                Some(EncodedTerm::IntegerLiteral(val))
            }
        },
    }
}

/// The order of two computed values: integers by number, strings
/// lexicographically; `None` for other pairs.
pub open spec fn compare_terms(a: Option<EncodedTerm>, b: Option<EncodedTerm>) -> Option<Order> {
    match (a, b) {
        (Some(EncodedTerm::IntegerLiteral(x)), Some(EncodedTerm::IntegerLiteral(y))) => Some(order_of(x as int, y as int)),
        (Some(EncodedTerm::StringLiteral(x)), Some(EncodedTerm::StringLiteral(y))) => Some(order_of_chars(x@, y@)),
        _ => None,
    }
}

/// The result of a comparison of two computed sides: true when their order
/// is `ordering` or `second`; `None` when a side failed or the values have
/// no order.
pub open spec fn compare_result(
    x: Option<Option<EncodedTerm>>,
    y: Option<Option<EncodedTerm>>,
    ordering: Order,
    second: Option<Order>,
) -> Option<Option<EncodedTerm>> {
    match (x, y) {
        (Some(a), Some(b)) => match compare_terms(a, b) {
            Some(r) => Some(Some(EncodedTerm::BooleanLiteral(r == ordering || second == Some(r)))),
            None => None,
        },
        _ => None,
    }
}

/// What an expression computes on a row (the inner `Option`: no value when
/// a variable is unbound). `None` when the computation fails: a value that
/// cannot be read, or a comparison of values that have no order.
pub open spec fn eval_expr(e: PlanExpression, row: Seq<EncodedBinding>, enc: Seq<Seq<char>>) -> Option<Option<EncodedTerm>>
    decreases e,
{
    match e {
        PlanExpression::Constant(t) => Some(Some(EncodedTerm::IntegerLiteral(t.iri))),
        PlanExpression::Variable(v) => match first_value(row, v) {
            None => Some(None),
            Some(val) => match literal_term(enc, val) {
                None => None,
                Some(t) => Some(Some(t)),
            },
        },
        PlanExpression::Greater(a, b) => compare_result(eval_expr(*a, row, enc), eval_expr(*b, row, enc), Order::Greater, None),
        PlanExpression::GreaterOrEqual(a, b) => compare_result(
            eval_expr(*a, row, enc),
            eval_expr(*b, row, enc),
            Order::Greater,
            Some(Order::Equal),
        ),
        PlanExpression::Less(a, b) => compare_result(eval_expr(*a, row, enc), eval_expr(*b, row, enc), Order::Less, None),
        PlanExpression::LessOrEqual(a, b) => compare_result(
            eval_expr(*a, row, enc),
            eval_expr(*b, row, enc),
            Order::Less,
            Some(Order::Equal),
        ),
        PlanExpression::Done => Some(Some(EncodedTerm::BooleanLiteral(false))),
    }
}

/// The row with only the bindings of the variables in `mapping`, in order.
pub open spec fn project_row(row: Seq<EncodedBinding>, mapping: Seq<usize>) -> Seq<EncodedBinding>
    decreases row.len(),
{
    if row.len() == 0 {
        seq![]
    } else {
        let r = project_row(row.drop_last(), mapping);
        if mapping.contains(row.last().var) {
            r.push(row.last())
        } else {
            r
        }
    }
}

/// The number of bindings of `k` to `val` in a row.
pub open spec fn count_matches(row: Seq<EncodedBinding>, k: usize, val: usize) -> nat
    decreases row.len(),
{
    if row.len() == 0 {
        0
    } else {
        count_matches(row.drop_last(), k, val) + if row.last().var == k && row.last().val == val { 1nat } else { 0nat }
    }
}

/// The rows of `l` that bind `k` to `val`, in order, each once per such
/// binding.
pub open spec fn left_matches(l: Seq<Seq<EncodedBinding>>, k: usize, val: usize) -> Seq<Seq<EncodedBinding>>
    decreases l.len(),
{
    if l.len() == 0 {
        seq![]
    } else {
        left_matches(l.drop_last(), k, val) + Seq::new(count_matches(l.last(), k, val), |i: int| l.last())
    }
}

/// The joined rows for a right row `rr`, over its bindings `bs` (a prefix of
/// its bindings): for each binding of `k`, the row followed by each left
/// row that binds `k` to the same value.
pub open spec fn join_row(rr: Seq<EncodedBinding>, bs: Seq<EncodedBinding>, l: Seq<Seq<EncodedBinding>>, k: usize) -> Seq<Seq<EncodedBinding>>
    decreases bs.len(),
{
    if bs.len() == 0 {
        seq![]
    } else {
        let prev = join_row(rr, bs.drop_last(), l, k);
        if bs.last().var == k {
            prev + left_matches(l, k, bs.last().val).map_values(|lr: Seq<EncodedBinding>| rr + lr)
        } else {
            prev
        }
    }
}

/// The joined rows for the right rows `r`, in order.
pub open spec fn join_rows(r: Seq<Seq<EncodedBinding>>, l: Seq<Seq<EncodedBinding>>, k: usize) -> Seq<Seq<EncodedBinding>>
    decreases r.len(),
{
    if r.len() == 0 {
        seq![]
    } else {
        join_rows(r.drop_last(), l, k) + join_row(r.last(), r.last(), l, k)
    }
}

/// Whether `row` binds variable `v`.
pub open spec fn binds(row: Seq<EncodedBinding>, v: usize) -> bool {
    exists|i: int| 0 <= i < row.len() && (#[trigger] row[i]).var == v
}

/// The variable of the first binding of `r0` whose variable `l0` binds too.
pub open spec fn first_shared(r0: Seq<EncodedBinding>, l0: Seq<EncodedBinding>) -> Option<usize>
    decreases r0.len(),
{
    if r0.len() == 0 {
        None
    } else if binds(l0, r0[0].var) {
        Some(r0[0].var)
    } else {
        first_shared(r0.drop_first(), l0)
    }
}

/// No row holds a binding.
pub open spec fn all_rows_empty(rows: Seq<Seq<EncodedBinding>>) -> bool {
    forall|i: int| 0 <= i < rows.len() ==> (#[trigger] rows[i]).len() == 0
}

/// The join of two row sequences: on the first variable that the first
/// right row shares with the first left row, each right row with each left
/// row that agrees on it (see `join_rows`); nothing when a side is empty.
/// `None` when the first rows share no variable and some row has a binding.
pub open spec fn join_spec(l: Seq<Seq<EncodedBinding>>, r: Seq<Seq<EncodedBinding>>) -> Option<Seq<Seq<EncodedBinding>>> {
    if l.len() > 0 && r.len() > 0 {
        match first_shared(r[0], l[0]) {
            Some(k) => Some(join_rows(r, l, k)),
            None => if all_rows_empty(l) && all_rows_empty(r) {
                Some(seq![])
            } else {
                None
            },
        }
    } else {
        Some(seq![])
    }
}

/// The rows on which the expression computes true, in order; `None` when it
/// fails on a row.
pub open spec fn filter_rows(rows: Seq<Seq<EncodedBinding>>, e: PlanExpression, enc: Seq<Seq<char>>) -> Option<Seq<Seq<EncodedBinding>>>
    decreases rows.len(),
{
    if rows.len() == 0 {
        Some(seq![])
    } else {
        match (filter_rows(rows.drop_last(), e, enc), eval_expr(e, rows.last(), enc)) {
            (Some(f), Some(t)) => if t == Some(EncodedTerm::BooleanLiteral(true)) {
                Some(f.push(rows.last()))
            } else {
                Some(f)
            },
            _ => None,
        }
    }
}

/// The values bound to `k` in a row, in order.
pub open spec fn values_of(row: Seq<EncodedBinding>, k: usize) -> Seq<usize>
    decreases row.len(),
{
    if row.len() == 0 {
        seq![]
    } else {
        let r = values_of(row.drop_last(), k);
        if row.last().var == k {
            r.push(row.last().val)
        } else {
            r
        }
    }
}

/// The group of a row: the values of the keys, key after key.
pub open spec fn group_key(row: Seq<EncodedBinding>, keys: Seq<usize>) -> Seq<usize>
    decreases keys.len(),
{
    if keys.len() == 0 {
        seq![]
    } else {
        group_key(row, keys.drop_last()) + values_of(row, keys.last())
    }
}

/// Groups with their counts, in order of first appearance.
pub type Groups = Seq<(Seq<usize>, nat)>;

/// The position of group `g`, or -1.
pub open spec fn group_pos(gs: Groups, g: Seq<usize>) -> int
    decreases gs.len(),
{
    if gs.len() == 0 {
        -1
    } else if gs.last().0 == g && group_pos(gs.drop_last(), g) < 0 {
        gs.len() - 1
    } else {
        group_pos(gs.drop_last(), g)
    }
}

/// The groups after counting one more row of group `g`.
pub open spec fn group_add(gs: Groups, g: Seq<usize>) -> Groups {
    let p = group_pos(gs, g);
    if p >= 0 {
        gs.update(p, (g, gs[p].1 + 1))
    } else {
        gs.push((g, 1nat))
    }
}

/// The groups of the rows, with their counts.
pub open spec fn groups_of(rows: Seq<Seq<EncodedBinding>>, keys: Seq<usize>) -> Groups
    decreases rows.len(),
{
    if rows.len() == 0 {
        seq![]
    } else {
        group_add(groups_of(rows.drop_last(), keys), group_key(rows.last(), keys))
    }
}

/// The rows of the groups: each the count (written in decimal and encoded)
/// bound to `agg`, then the keys bound to the group's values; and the
/// dictionary after encoding the counts. `None` when a group has fewer
/// values than there are keys.
pub open spec fn aggregate_rows(gs: Groups, keys: Seq<usize>, agg: usize, enc: Seq<Seq<char>>) -> Option<(Seq<Seq<EncodedBinding>>, Seq<Seq<char>>)>
    decreases gs.len(),
{
    if gs.len() == 0 {
        Some((seq![], enc))
    } else {
        match aggregate_rows(gs.drop_last(), keys, agg, enc) {
            None => None,
            Some((rows, e)) => {
                let (g, n) = gs.last();
                let s = decimal(n);
                if g.len() < keys.len() {
                    None
                } else {
                    Some((
                        rows.push(
                            seq![EncodedBinding { var: agg, val: code_spec(e, s) as usize }] + Seq::new(
                                keys.len(),
                                |i: int| EncodedBinding { var: keys[i], val: g[i] },
                            ),
                        ),
                        add_spec(e, s),
                    ))
                }
            },
        }
    }
}

/// The code of a variable name, if it has one.
pub open spec fn name_code(enc: Seq<Seq<char>>, name: Seq<char>) -> Option<usize> {
    if enc.contains(name) {
        Some(enc.index_of(name) as usize)
    } else {
        None
    }
}

/// The codes of variable names, in order; `None` when one has none.
pub open spec fn name_codes(enc: Seq<Seq<char>>, names: Seq<Seq<char>>) -> Option<Seq<usize>>
    decreases names.len(),
{
    if names.len() == 0 {
        Some(seq![])
    } else {
        match (name_codes(enc, names.drop_last()), name_code(enc, names.last())) {
            (Some(cs), Some(c)) => Some(cs.push(c)),
            _ => None,
        }
    }
}

/// The row with variable `from` renamed `to`.
pub open spec fn rename_row(row: Seq<EncodedBinding>, from: usize, to: usize) -> Seq<EncodedBinding> {
    row.map_values(|b: EncodedBinding| if b.var == from { EncodedBinding { var: to, val: b.val } } else { b })
}

/// What a plan evaluates to against the index, with the dictionary
/// afterwards (counting aggregates encode their counts). `None` when a step
/// fails: a failed join or filter, an aggregate without an aggregate or
/// with a variable that has no code, a renaming of a variable without code.
pub open spec fn eval_plan(v: TripleIndexView, enc: Seq<Seq<char>>, p: PlanView) -> Option<(Seq<Seq<EncodedBinding>>, Seq<Seq<char>>)>
    decreases p,
{
    match p {
        PlanView::QuadPattern { pattern } => Some((query_help_spec(v, pattern), enc)),
        PlanView::Project { child, mapping } => match eval_plan(v, enc, *child) {
            Some((rows, e)) => Some((rows.map_values(|r: Seq<EncodedBinding>| project_row(r, mapping)), e)),
            None => None,
        },
        PlanView::Join { left, right } => match eval_plan(v, enc, *left) {
            Some((l, e1)) => match eval_plan(v, e1, *right) {
                Some((r, e2)) => match join_spec(l, r) {
                    Some(j) => Some((j, e2)),
                    None => None,
                },
                None => None,
            },
            None => None,
        },
        PlanView::Filter { child, expression } => match eval_plan(v, enc, *child) {
            Some((rows, e)) => match filter_rows(rows, expression, e) {
                Some(f) => Some((f, e)),
                None => None,
            },
            None => None,
        },
        PlanView::Aggregate { child, keys, aggregates } => match eval_plan(v, enc, *child) {
            Some((rows, e)) => if aggregates.len() > 0 {
                match (name_code(e, aggregates[0].1), name_codes(e, keys)) {
                    (Some(agg), Some(kc)) => aggregate_rows(groups_of(rows, kc), kc, agg, e),
                    _ => None,
                }
            } else {
                None
            },
            None => None,
        },
        PlanView::Extend { child, from, to } => match eval_plan(v, enc, *child) {
            Some((rows, e)) => match (name_code(e, from), name_code(e, to)) {
                (Some(f), Some(t)) => Some((rows.map_values(|r: Seq<EncodedBinding>| rename_row(r, f, t)), e)),
                _ => None,
            },
            None => None,
        },
        PlanView::Done => Some((seq![], enc)),
    }
}

/// A copy of a row.
fn copy_row(row: &Vec<EncodedBinding>) -> (res: Vec<EncodedBinding>)
    ensures
        res@ == row@,
{
    let mut res: Vec<EncodedBinding> = Vec::new();
    let mut j: usize = 0;
    while j < row.len()
        invariant
            j <= row@.len(),
            res@ =~= row@.take(j as int),
        decreases row@.len() - j,
    {
        res.push(row[j]);
        j = j + 1;
    }
    assert(row@.take(row@.len() as int) =~= row@);
    res
}

/// The order of two integers.
fn order_usize(a: usize, b: usize) -> (res: Order)
    ensures
        res == order_of(a as int, b as int),
{
    if a < b {
        Order::Less
    } else if a == b {
        Order::Equal
    } else {
        Order::Greater
    }
}

/// The lexicographic order of two character sequences.
fn order_chars(a: &Vec<char>, b: &Vec<char>) -> (res: Order)
    ensures
        res == order_of_chars(a@, b@),
{
    let mut i: usize = 0;
    assert(a@.skip(0) =~= a@);
    assert(b@.skip(0) =~= b@);
    while i < a.len() && i < b.len()
        invariant
            i <= a@.len(),
            i <= b@.len(),
            order_of_chars(a@, b@) == order_of_chars(a@.skip(i as int), b@.skip(i as int)),
        decreases a@.len() - i,
    {
        let x = a[i] as u32;
        let y = b[i] as u32;
        proof {
            assert(a@.skip(i as int)[0] == a@[i as int]);
            assert(b@.skip(i as int)[0] == b@[i as int]);
        }
        if x < y {
            return Order::Less;
        } else if x > y {
            return Order::Greater;
        }
        proof {
            assert(a@.skip(i as int).drop_first() =~= a@.skip(i + 1));
            assert(b@.skip(i as int).drop_first() =~= b@.skip(i + 1));
        }
        i = i + 1;
    }
    if i < b.len() {
        Order::Less
    } else if i < a.len() {
        Order::Greater
    } else {
        Order::Equal
    }
}

/// Reads a `usize` as `usize::from_str` does (see `parse_usize_spec`).
pub fn parse_usize_exec(s: &Vec<char>) -> (res: Option<usize>)
    ensures
        res == parse_usize_spec(s@),
{
    let start: usize = if s.len() > 0 && s[0] == '+' { 1 } else { 0 };
    let ghost d = unsigned_digits(s@);
    assert(d =~= s@.skip(start as int));
    if start >= s.len() {
        return None;
    }
    let mut value: usize = 0;
    let mut i: usize = start;
    while i < s.len()
        invariant
            start <= i <= s@.len(),
            d == unsigned_digits(s@),
            d =~= s@.skip(start as int),
            d.len() > 0,
            forall|k: int| 0 <= k < i - start ==> is_digit(#[trigger] d[k]),
            value == digits_value(d.take(i - start)),
        decreases s@.len() - i,
    {
        let c = s[i];
        assert(d[i - start] == c);
        if !('0' <= c && c <= '9') {
            proof {
                if all_digits(d) {
                    assert(is_digit(d[i - start]));
                }
            }
            return None;
        }
        let dv = (c as u32 - '0' as u32) as usize;
        proof {
            assert(d.take(i - start + 1).drop_last() =~= d.take(i - start));
            assert(d.take(i - start + 1).last() == c);
            lemma_digits_prefix_mono(d, (i - start) as int);
        }
        if value > (usize::MAX - dv) / 10 {
            proof {
                assert(digits_value(d.take(i - start + 1)) > usize::MAX) by (nonlinear_arith)
                    requires
                        digits_value(d.take(i - start + 1)) == value * 10 + dv,
                        value > (usize::MAX - dv) / 10,
                        dv <= 9;
                if all_digits(d) {
                    lemma_digits_bound(d, (i - start + 1) as int);
                }
            }
            return None;
        }
        value = value * 10 + dv;
        i = i + 1;
    }
    assert(d.take(d.len() as int) =~= d);
    Some(value)
}

/// The value of a prefix of digits grows with the prefix.
proof fn lemma_digits_prefix_mono(d: Seq<char>, n: int)
    requires
        0 <= n < d.len(),
        is_digit(d[n]),
    ensures
        digits_value(d.take(n + 1)) == digits_value(d.take(n)) * 10 + digit_value(d[n]),
{
    assert(d.take(n + 1).drop_last() =~= d.take(n));
}

/// A longer prefix of digits has at least the value of a shorter one.
proof fn lemma_digits_bound(d: Seq<char>, n: int)
    requires
        0 <= n <= d.len(),
        forall|k: int| 0 <= k < d.len() ==> is_digit(#[trigger] d[k]),
    ensures
        digits_value(d.take(n)) <= digits_value(d),
    decreases d.len() - n,
{
    if n < d.len() {
        lemma_digits_bound(d, n + 1);
        lemma_digits_prefix_mono(d, n);
        assert(digits_value(d.take(n)) >= 0) by {
            lemma_digits_nonneg(d.take(n));
        }
    } else {
        assert(d.take(n) =~= d);
    }
}

proof fn lemma_digits_nonneg(d: Seq<char>)
    requires
        forall|k: int| 0 <= k < d.len() ==> is_digit(#[trigger] d[k]),
    ensures
        digits_value(d) >= 0,
    decreases d.len(),
{
    if d.len() > 0 {
        lemma_digits_nonneg(d.drop_last());
        assert(is_digit(d[d.len() - 1]));
    }
}


/// The first value bound to `v` in a row.
fn first_value_exec(row: &Vec<EncodedBinding>, v: usize) -> (res: Option<usize>)
    ensures
        res == first_value(row@, v),
{
    let mut i: usize = 0;
    assert(row@.skip(0) =~= row@);
    while i < row.len()
        invariant
            i <= row@.len(),
            first_value(row@, v) == first_value(row@.skip(i as int), v),
        decreases row@.len() - i,
    {
        assert(row@.skip(i as int)[0] == row@[i as int]);
        if row[i].var == v {
            return Some(row[i].val);
        }
        assert(row@.skip(i as int).drop_first() =~= row@.skip(i + 1));
        i = i + 1;
    }
    assert(row@.skip(i as int).len() == 0);
    None
}

/// Whether a character is written in one byte.
fn is_ascii_exec(c: char) -> (res: bool)
    ensures
        res == is_ascii(c),
{
    (c as u32) < 128
}

/// The term that the value with code `val` stands for in a comparison (see
/// `literal_term`).
fn literal_term_exec(enc: &Encoder, val: usize) -> (res: Option<EncodedTerm>)
    ensures
        res == literal_term(enc@, val),
{
    match enc.decode(&val) {
        None => Some(EncodedTerm::IntegerLiteral(val)),
        Some(s) => {
            let v = chars_of(s.as_str());
            let mut sep: Vec<char> = Vec::new();
            sep.push('^');
            sep.push('^');
            assert(sep@ =~= type_sep());
            let parts = split(&v, &sep);
            if parts.len() >= 2 {
                assert(views(parts@)[0] == parts@[0]@);
                assert(views(parts@)[1] == parts@[1]@);
                let value = &parts[0];
                if value.len() >= 2 && is_ascii_exec(value[0]) && is_ascii_exec(value[value.len() - 1]) {
                    let iri = chars_of("<http://www.w3.org/2001/XMLSchema#integer>");
                    if eq_chars(&parts[1], &iri) {
                        let digits = strip_ends_exec(value);
                        match parse_usize_exec(&digits) {
                            Some(n) => Some(EncodedTerm::IntegerLiteral(n)),
                            None => None,
                        }
                    } else {
                        Some(EncodedTerm::IntegerLiteral(val))
                    }
                } else {
                    None
                }
            } else {
                Some(EncodedTerm::IntegerLiteral(val))
            }
        },
    }
}

/// The order of two computed values (see `compare_terms`).
fn compare_terms_exec(a: &Option<EncodedTerm>, b: &Option<EncodedTerm>) -> (res: Option<Order>)
    ensures
        res == compare_terms(*a, *b),
{
    match (a, b) {
        (Some(EncodedTerm::IntegerLiteral(x)), Some(EncodedTerm::IntegerLiteral(y))) => Some(order_usize(*x, *y)),
        (Some(EncodedTerm::StringLiteral(x)), Some(EncodedTerm::StringLiteral(y))) => {
            let xs = chars_of(x.as_str());
            let ys = chars_of(y.as_str());
            Some(order_chars(&xs, &ys))
        },
        _ => None,
    }
}

/// Compares the values that the two sides of a comparison computed: true
/// when their order is `ordering` or `second` (see `compare_result`).
fn partial_compare_helper(
    a: Option<Option<EncodedTerm>>,
    b: Option<Option<EncodedTerm>>,
    ordering: Order,
    second: Option<Order>,
) -> (res: Option<Option<EncodedTerm>>)
    ensures
        res == compare_result(a, b, ordering, second),
{
    match (a, b) {
        (Some(x), Some(y)) => match compare_terms_exec(&x, &y) {
            Some(r) => {
                let hit = r == ordering || match second {
                    Some(s) => s == r,
                    None => false,
                };
                Some(Some(EncodedTerm::BooleanLiteral(hit)))
            },
            None => None,
        },
        _ => None,
    }
}

/// What an expression computes on a row (see `eval_expr`).
fn eval_expression(e: &PlanExpression, row: &Vec<EncodedBinding>, enc: &Encoder) -> (res: Option<Option<EncodedTerm>>)
    ensures
        res == eval_expr(*e, row@, enc@),
    decreases e,
{
    match e {
        PlanExpression::Constant(t) => Some(Some(EncodedTerm::IntegerLiteral(t.iri))),
        PlanExpression::Variable(v) => match first_value_exec(row, *v) {
            None => Some(None),
            Some(val) => match literal_term_exec(enc, val) {
                None => None,
                Some(t) => Some(Some(t)),
            },
        },
        PlanExpression::Greater(a, b) => {
            let x = eval_expression(a, row, enc);
            let y = eval_expression(b, row, enc);
            partial_compare_helper(x, y, Order::Greater, None)
        },
        PlanExpression::GreaterOrEqual(a, b) => {
            let x = eval_expression(a, row, enc);
            let y = eval_expression(b, row, enc);
            partial_compare_helper(x, y, Order::Greater, Some(Order::Equal))
        },
        PlanExpression::Less(a, b) => {
            let x = eval_expression(a, row, enc);
            let y = eval_expression(b, row, enc);
            partial_compare_helper(x, y, Order::Less, None)
        },
        PlanExpression::LessOrEqual(a, b) => {
            let x = eval_expression(a, row, enc);
            let y = eval_expression(b, row, enc);
            partial_compare_helper(x, y, Order::Less, Some(Order::Equal))
        },
        PlanExpression::Done => Some(Some(EncodedTerm::BooleanLiteral(false))),
    }
}

/// The truth value of a computed term: a boolean itself, a string when it is
/// not empty, an integer when it is not zero.
pub open spec fn to_bool_spec(t: EncodedTerm) -> Option<bool> {
    match t {
        EncodedTerm::BooleanLiteral(v) => Some(v),
        EncodedTerm::StringLiteral(s) => Some(s@.len() > 0),
        EncodedTerm::IntegerLiteral(v) => Some(v != 0),
        _ => None,
    }
}

/// The truth value of a computed term (see `to_bool_spec`).
pub fn to_bool(term: &EncodedTerm) -> (res: Option<bool>)
    ensures
        res == to_bool_spec(*term),
{
    match term {
        EncodedTerm::BooleanLiteral(value) => Some(*value),
        EncodedTerm::StringLiteral(value) => Some(chars_of(value.as_str()).len() > 0),
        EncodedTerm::IntegerLiteral(value) => Some(*value != 0),
        _ => None,
    }
}


/// A prefix of rows on which filtering succeeds succeeds too.
proof fn lemma_filter_prefix(rows: Seq<Seq<EncodedBinding>>, e: PlanExpression, enc: Seq<Seq<char>>, i: int)
    requires
        filter_rows(rows, e, enc) is Some,
        0 <= i <= rows.len(),
    ensures
        filter_rows(rows.take(i), e, enc) is Some,
    decreases rows.len(),
{
    if i < rows.len() {
        lemma_filter_prefix(rows.drop_last(), e, enc, i);
        assert(rows.drop_last().take(i) =~= rows.take(i));
    } else {
        assert(rows.take(i) =~= rows);
    }
}

/// The rows on which the expression computes true (see `filter_rows`).
fn filter_rows_exec(rows: &Vec<Vec<EncodedBinding>>, e: &PlanExpression, enc: &Encoder) -> (res: Vec<Vec<EncodedBinding>>)
    requires
        filter_rows(rows_view(rows@), *e, enc@) is Some,
    ensures
        rows_view(res@) == filter_rows(rows_view(rows@), *e, enc@).unwrap(),
{
    let ghost rv = rows_view(rows@);
    let mut out: Vec<Vec<EncodedBinding>> = Vec::new();
    let mut i: usize = 0;
    assert(rv.take(0) =~= Seq::<Seq<EncodedBinding>>::empty());
    while i < rows.len()
        invariant
            i <= rows@.len(),
            rv == rows_view(rows@),
            filter_rows(rv, *e, enc@) is Some,
            filter_rows(rv.take(i as int), *e, enc@) == Some(rows_view(out@)),
        decreases rows@.len() - i,
    {
        let r = eval_expression(e, &rows[i], enc);
        proof {
            lemma_filter_prefix(rv, *e, enc@, i + 1);
            assert(rv.take(i + 1).drop_last() =~= rv.take(i as int));
            assert(rv.take(i + 1).last() == rows@[i as int]@);
        }
        let ghost old_out = out@;
        match r {
            Some(Some(EncodedTerm::BooleanLiteral(true))) => {
                out.push(copy_row(&rows[i]));
                assert(rows_view(out@) =~= rows_view(old_out).push(rows@[i as int]@));
            },
            _ => {},
        }
        i = i + 1;
    }
    assert(rv.take(rows@.len() as int) =~= rv);
    out
}

/// Whether `v` is among the variables of `m`.
fn mapping_contains(m: &Vec<usize>, v: usize) -> (res: bool)
    ensures
        res == m@.contains(v),
{
    let mut i: usize = 0;
    while i < m.len()
        invariant
            i <= m@.len(),
            forall|k: int| 0 <= k < i ==> m@[k] != v,
        decreases m@.len() - i,
    {
        if m[i] == v {
            assert(m@[i as int] == v);
            return true;
        }
        i = i + 1;
    }
    false
}

/// The bindings of a row whose variables are in `m` (see `project_row`).
fn project_row_exec(row: &Vec<EncodedBinding>, m: &Vec<usize>) -> (res: Vec<EncodedBinding>)
    ensures
        res@ == project_row(row@, m@),
{
    let mut res: Vec<EncodedBinding> = Vec::new();
    let mut j: usize = 0;
    assert(row@.take(0) =~= Seq::<EncodedBinding>::empty());
    while j < row.len()
        invariant
            j <= row@.len(),
            res@ == project_row(row@.take(j as int), m@),
        decreases row@.len() - j,
    {
        assert(row@.take(j + 1).drop_last() =~= row@.take(j as int));
        assert(row@.take(j + 1).last() == row@[j as int]);
        if mapping_contains(m, row[j].var) {
            res.push(row[j]);
        }
        j = j + 1;
    }
    assert(row@.take(row@.len() as int) =~= row@);
    res
}

/// Every row projected on `m`.
fn project_rows(rows: &Vec<Vec<EncodedBinding>>, m: &Vec<usize>) -> (res: Vec<Vec<EncodedBinding>>)
    ensures
        rows_view(res@) == rows_view(rows@).map_values(|r: Seq<EncodedBinding>| project_row(r, m@)),
{
    let mut res: Vec<Vec<EncodedBinding>> = Vec::new();
    let mut i: usize = 0;
    while i < rows.len()
        invariant
            i <= rows@.len(),
            res@.len() == i,
            forall|k: int| 0 <= k < i ==> (#[trigger] res@[k])@ == project_row(rows@[k]@, m@),
        decreases rows@.len() - i,
    {
        res.push(project_row_exec(&rows[i], m));
        i = i + 1;
    }
    assert(rows_view(res@) =~= rows_view(rows@).map_values(|r: Seq<EncodedBinding>| project_row(r, m@)));
    res
}

/// Every row with variable `from` renamed `to`.
fn rename_rows(rows: &Vec<Vec<EncodedBinding>>, from: usize, to: usize) -> (res: Vec<Vec<EncodedBinding>>)
    ensures
        rows_view(res@) == rows_view(rows@).map_values(|r: Seq<EncodedBinding>| rename_row(r, from, to)),
{
    let mut res: Vec<Vec<EncodedBinding>> = Vec::new();
    let mut i: usize = 0;
    while i < rows.len()
        invariant
            i <= rows@.len(),
            res@.len() == i,
            forall|k: int| 0 <= k < i ==> (#[trigger] res@[k])@ == rename_row(rows@[k]@, from, to),
        decreases rows@.len() - i,
    {
        let row = &rows[i];
        let mut r: Vec<EncodedBinding> = Vec::new();
        let mut j: usize = 0;
        while j < row.len()
            invariant
                j <= row@.len(),
                r@.len() == j,
                forall|k: int| 0 <= k < j ==> #[trigger] r@[k] == (if row@[k].var == from {
                    EncodedBinding { var: to, val: row@[k].val }
                } else {
                    row@[k]
                }),
            decreases row@.len() - j,
        {
            let b = row[j];
            if b.var == from {
                r.push(EncodedBinding { var: to, val: b.val });
            } else {
                r.push(b);
            }
            j = j + 1;
        }
        assert(r@ =~= rename_row(row@, from, to));
        res.push(r);
        i = i + 1;
    }
    assert(rows_view(res@) =~= rows_view(rows@).map_values(|r: Seq<EncodedBinding>| rename_row(r, from, to)));
    res
}


/// The number of bindings of `k` to `val` in a row.
fn count_matches_exec(row: &Vec<EncodedBinding>, k: usize, val: usize) -> (res: usize)
    ensures
        res == count_matches(row@, k, val),
{
    let mut c: usize = 0;
    let mut j: usize = 0;
    assert(row@.take(0) =~= Seq::<EncodedBinding>::empty());
    while j < row.len()
        invariant
            j <= row@.len(),
            c == count_matches(row@.take(j as int), k, val),
            c <= j,
        decreases row@.len() - j,
    {
        assert(row@.take(j + 1).drop_last() =~= row@.take(j as int));
        assert(row@.take(j + 1).last() == row@[j as int]);
        if row[j].var == k && row[j].val == val {
            c = c + 1;
        }
        j = j + 1;
    }
    assert(row@.take(row@.len() as int) =~= row@);
    c
}

/// The rows of `l` that bind `k` to `val`, each once per such binding (see
/// `left_matches`).
fn left_matches_exec(l: &Vec<Vec<EncodedBinding>>, k: usize, val: usize) -> (res: Vec<Vec<EncodedBinding>>)
    ensures
        rows_view(res@) == left_matches(rows_view(l@), k, val),
{
    let ghost lv = rows_view(l@);
    let mut res: Vec<Vec<EncodedBinding>> = Vec::new();
    let mut i: usize = 0;
    assert(lv.take(0) =~= Seq::<Seq<EncodedBinding>>::empty());
    while i < l.len()
        invariant
            i <= l@.len(),
            lv == rows_view(l@),
            rows_view(res@) == left_matches(lv.take(i as int), k, val),
        decreases l@.len() - i,
    {
        let row = &l[i];
        let c = count_matches_exec(row, k, val);
        let ghost before = rows_view(res@);
        let mut t: usize = 0;
        assert(before =~= before + Seq::new(0, |x: int| row@));
        while t < c
            invariant
                t <= c,
                rows_view(res@) == before + Seq::new(t as nat, |x: int| row@),
            decreases c - t,
        {
            let ghost prev = res@;
            res.push(copy_row(row));
            assert(rows_view(res@) =~= rows_view(prev).push(row@));
            assert(rows_view(res@) =~= before + Seq::new((t + 1) as nat, |x: int| row@));
            t = t + 1;
        }
        proof {
            assert(lv.take(i + 1).drop_last() =~= lv.take(i as int));
            assert(lv.take(i + 1).last() == row@);
        }
        i = i + 1;
    }
    assert(lv.take(l@.len() as int) =~= lv);
    res
}

/// `a` followed by `b`.
fn concat_rows(a: &Vec<EncodedBinding>, b: &Vec<EncodedBinding>) -> (res: Vec<EncodedBinding>)
    ensures
        res@ == a@ + b@,
{
    let mut r = copy_row(a);
    let mut j: usize = 0;
    while j < b.len()
        invariant
            j <= b@.len(),
            r@ == a@ + b@.take(j as int),
        decreases b@.len() - j,
    {
        r.push(b[j]);
        assert(a@ + b@.take(j + 1) =~= (a@ + b@.take(j as int)).push(b@[j as int]));
        j = j + 1;
    }
    assert(b@.take(b@.len() as int) =~= b@);
    r
}

/// The joined rows for one right row (see `join_row`).
fn join_row_exec(rr: &Vec<EncodedBinding>, l: &Vec<Vec<EncodedBinding>>, k: usize) -> (res: Vec<Vec<EncodedBinding>>)
    ensures
        rows_view(res@) == join_row(rr@, rr@, rows_view(l@), k),
{
    let ghost lv = rows_view(l@);
    let mut res: Vec<Vec<EncodedBinding>> = Vec::new();
    let mut j: usize = 0;
    assert(rr@.take(0) =~= Seq::<EncodedBinding>::empty());
    while j < rr.len()
        invariant
            j <= rr@.len(),
            lv == rows_view(l@),
            rows_view(res@) == join_row(rr@, rr@.take(j as int), lv, k),
        decreases rr@.len() - j,
    {
        proof {
            assert(rr@.take(j + 1).drop_last() =~= rr@.take(j as int));
            assert(rr@.take(j + 1).last() == rr@[j as int]);
        }
        if rr[j].var == k {
            let lm = left_matches_exec(l, k, rr[j].val);
            let ghost before = rows_view(res@);
            let ghost lmv = rows_view(lm@);
            let mut t: usize = 0;
            assert(before =~= before + lmv.take(0).map_values(|lr: Seq<EncodedBinding>| rr@ + lr));
            while t < lm.len()
                invariant
                    t <= lm@.len(),
                    lmv == rows_view(lm@),
                    rows_view(res@) == before + lmv.take(t as int).map_values(|lr: Seq<EncodedBinding>| rr@ + lr),
                decreases lm@.len() - t,
            {
                let ghost prev = res@;
                res.push(concat_rows(rr, &lm[t]));
                assert(lmv[t as int] == lm@[t as int]@);
                assert(rows_view(res@) =~= rows_view(prev).push(rr@ + lmv[t as int]));
                assert(lmv.take(t + 1).map_values(|lr: Seq<EncodedBinding>| rr@ + lr) =~= lmv.take(t as int).map_values(
                    |lr: Seq<EncodedBinding>| rr@ + lr,
                ).push(rr@ + lmv[t as int]));
                assert(rows_view(res@) =~= before + lmv.take(t + 1).map_values(|lr: Seq<EncodedBinding>| rr@ + lr));
                t = t + 1;
            }
            assert(lmv.take(lm@.len() as int) =~= lmv);
        }
        j = j + 1;
    }
    assert(rr@.take(rr@.len() as int) =~= rr@);
    res
}

/// The joined rows for the right rows (see `join_rows`).
fn join_rows_exec(r: &Vec<Vec<EncodedBinding>>, l: &Vec<Vec<EncodedBinding>>, k: usize) -> (res: Vec<Vec<EncodedBinding>>)
    ensures
        rows_view(res@) == join_rows(rows_view(r@), rows_view(l@), k),
{
    let ghost rv = rows_view(r@);
    let mut res: Vec<Vec<EncodedBinding>> = Vec::new();
    let mut i: usize = 0;
    assert(rv.take(0) =~= Seq::<Seq<EncodedBinding>>::empty());
    while i < r.len()
        invariant
            i <= r@.len(),
            rv == rows_view(r@),
            rows_view(res@) == join_rows(rv.take(i as int), rows_view(l@), k),
        decreases r@.len() - i,
    {
        let mut jr = join_row_exec(&r[i], l, k);
        let ghost before = res@;
        let ghost add = jr@;
        res.append(&mut jr);
        proof {
            assert(rv.take(i + 1).drop_last() =~= rv.take(i as int));
            assert(rv.take(i + 1).last() == r@[i as int]@);
            assert(rows_view(res@) =~= rows_view(before) + rows_view(add));
        }
        i = i + 1;
    }
    assert(rv.take(r@.len() as int) =~= rv);
    res
}

/// Whether a row binds `v`.
fn binds_exec(row: &Vec<EncodedBinding>, v: usize) -> (res: bool)
    ensures
        res == binds(row@, v),
{
    let mut i: usize = 0;
    while i < row.len()
        invariant
            i <= row@.len(),
            forall|k: int| 0 <= k < i ==> (#[trigger] row@[k]).var != v,
        decreases row@.len() - i,
    {
        if row[i].var == v {
            assert(row@[i as int].var == v);
            return true;
        }
        i = i + 1;
    }
    false
}

/// The first variable of `r0` that `l0` binds too (see `first_shared`).
fn first_shared_exec(r0: &Vec<EncodedBinding>, l0: &Vec<EncodedBinding>) -> (res: Option<usize>)
    ensures
        res == first_shared(r0@, l0@),
{
    let mut i: usize = 0;
    assert(r0@.skip(0) =~= r0@);
    while i < r0.len()
        invariant
            i <= r0@.len(),
            first_shared(r0@, l0@) == first_shared(r0@.skip(i as int), l0@),
        decreases r0@.len() - i,
    {
        assert(r0@.skip(i as int)[0] == r0@[i as int]);
        if binds_exec(l0, r0[i].var) {
            return Some(r0[i].var);
        }
        assert(r0@.skip(i as int).drop_first() =~= r0@.skip(i + 1));
        i = i + 1;
    }
    assert(r0@.skip(i as int).len() == 0);
    None
}

/// Whether no row holds a binding.
fn all_rows_empty_exec(rows: &Vec<Vec<EncodedBinding>>) -> (res: bool)
    ensures
        res == all_rows_empty(rows_view(rows@)),
{
    let mut i: usize = 0;
    while i < rows.len()
        invariant
            i <= rows@.len(),
            forall|k: int| 0 <= k < i ==> (#[trigger] rows@[k])@.len() == 0,
        decreases rows@.len() - i,
    {
        if rows[i].len() > 0 {
            assert(rows_view(rows@)[i as int].len() > 0);
            return false;
        }
        i = i + 1;
    }
    assert forall|k: int| 0 <= k < rows_view(rows@).len() implies (#[trigger] rows_view(rows@)[k]).len() == 0 by {
        assert(rows@[k]@.len() == 0);
    }
    true
}

/// The join of two row sequences (see `join_spec`); `None` where it fails.
fn join_exec(l: &Vec<Vec<EncodedBinding>>, r: &Vec<Vec<EncodedBinding>>) -> (res: Option<Vec<Vec<EncodedBinding>>>)
    ensures
        match join_spec(rows_view(l@), rows_view(r@)) {
            Some(j) => res is Some && rows_view(res.unwrap()@) == j,
            None => res is None,
        },
{
    if l.len() > 0 && r.len() > 0 {
        assert(rows_view(r@)[0] == r@[0]@);
        assert(rows_view(l@)[0] == l@[0]@);
        match first_shared_exec(&r[0], &l[0]) {
            Some(k) => Some(join_rows_exec(r, l, k)),
            None => {
                if all_rows_empty_exec(l) && all_rows_empty_exec(r) {
                    Some(Vec::new())
                } else {
                    None
                }
            },
        }
    } else {
        Some(Vec::new())
    }
}


/// The values bound to `k` in a row (see `values_of`).
fn values_of_exec(row: &Vec<EncodedBinding>, k: usize) -> (res: Vec<usize>)
    ensures
        res@ == values_of(row@, k),
{
    let mut res: Vec<usize> = Vec::new();
    let mut j: usize = 0;
    assert(row@.take(0) =~= Seq::<EncodedBinding>::empty());
    while j < row.len()
        invariant
            j <= row@.len(),
            res@ == values_of(row@.take(j as int), k),
        decreases row@.len() - j,
    {
        assert(row@.take(j + 1).drop_last() =~= row@.take(j as int));
        assert(row@.take(j + 1).last() == row@[j as int]);
        if row[j].var == k {
            res.push(row[j].val);
        }
        j = j + 1;
    }
    assert(row@.take(row@.len() as int) =~= row@);
    res
}

/// The group of a row (see `group_key`).
fn group_key_exec(row: &Vec<EncodedBinding>, keys: &Vec<usize>) -> (res: Vec<usize>)
    ensures
        res@ == group_key(row@, keys@),
{
    let mut res: Vec<usize> = Vec::new();
    let mut i: usize = 0;
    assert(keys@.take(0) =~= Seq::<usize>::empty());
    while i < keys.len()
        invariant
            i <= keys@.len(),
            res@ == group_key(row@, keys@.take(i as int)),
        decreases keys@.len() - i,
    {
        assert(keys@.take(i + 1).drop_last() =~= keys@.take(i as int));
        assert(keys@.take(i + 1).last() == keys@[i as int]);
        let mut vs = values_of_exec(row, keys[i]);
        res.append(&mut vs);
        i = i + 1;
    }
    assert(keys@.take(keys@.len() as int) =~= keys@);
    res
}

/// Whether two sequences of codes are equal.
fn eq_codes(a: &Vec<usize>, b: &Vec<usize>) -> (res: bool)
    ensures
        res == (a@ == b@),
{
    if a.len() != b.len() {
        return false;
    }
    let mut i: usize = 0;
    while i < a.len()
        invariant
            a@.len() == b@.len(),
            i <= a@.len(),
            forall|k: int| 0 <= k < i ==> a@[k] == b@[k],
        decreases a@.len() - i,
    {
        if a[i] != b[i] {
            return false;
        }
        i = i + 1;
    }
    assert(a@ =~= b@);
    true
}

/// The groups that a sequence of pairs stands for.
pub open spec fn groups_view(gs: Seq<(Vec<usize>, CountAccumulator)>) -> Groups {
    gs.map_values(|p: (Vec<usize>, CountAccumulator)| (p.0@, p.1@))
}

/// A group that no entry holds has no position.
proof fn lemma_group_pos_none(gs: Groups, g: Seq<usize>)
    requires
        forall|k: int| 0 <= k < gs.len() ==> (#[trigger] gs[k]).0 != g,
    ensures
        group_pos(gs, g) == -1,
    decreases gs.len(),
{
    if gs.len() > 0 {
        lemma_group_pos_none(gs.drop_last(), g);
    }
}

/// The position of a group is that of its first entry.
proof fn lemma_group_pos_found(gs: Groups, g: Seq<usize>, p: int)
    requires
        0 <= p < gs.len(),
        gs[p].0 == g,
        forall|k: int| 0 <= k < p ==> (#[trigger] gs[k]).0 != g,
    ensures
        group_pos(gs, g) == p,
    decreases gs.len(),
{
    if p == gs.len() - 1 {
        lemma_group_pos_none(gs.drop_last(), g);
    } else {
        lemma_group_pos_found(gs.drop_last(), g, p);
    }
}

/// A position of a group is one of an entry of that group.
proof fn lemma_group_pos_range(gs: Groups, g: Seq<usize>)
    ensures
        -1 <= group_pos(gs, g) < gs.len(),
        group_pos(gs, g) >= 0 ==> gs[group_pos(gs, g)].0 == g,
    decreases gs.len(),
{
    if gs.len() > 0 {
        lemma_group_pos_range(gs.drop_last(), g);
    }
}

/// The position of group `g` among the groups (see `group_pos`).
fn group_pos_exec(gs: &Vec<(Vec<usize>, CountAccumulator)>, g: &Vec<usize>) -> (res: Option<usize>)
    ensures
        match res {
            Some(p) => group_pos(groups_view(gs@), g@) == p && p < gs@.len(),
            None => group_pos(groups_view(gs@), g@) == -1,
        },
{
    let ghost gv = groups_view(gs@);
    let mut i: usize = 0;
    while i < gs.len()
        invariant
            i <= gs@.len(),
            gv == groups_view(gs@),
            forall|k: int| 0 <= k < i ==> (#[trigger] gv[k]).0 != g@,
        decreases gs@.len() - i,
    {
        if eq_codes(&gs[i].0, g) {
            proof {
                lemma_group_pos_found(gv, g@, i as int);
            }
            return Some(i);
        }
        assert(gv[i as int].0 != g@);
        i = i + 1;
    }
    proof {
        lemma_group_pos_none(gv, g@);
    }
    None
}

/// The groups of the rows with their counts (see `groups_of`).
fn groups_of_exec(rows: &Vec<Vec<EncodedBinding>>, keys: &Vec<usize>) -> (res: Vec<(Vec<usize>, CountAccumulator)>)
    ensures
        groups_view(res@) == groups_of(rows_view(rows@), keys@),
{
    let ghost rv = rows_view(rows@);
    let mut gs: Vec<(Vec<usize>, CountAccumulator)> = Vec::new();
    let mut i: usize = 0;
    assert(rv.take(0) =~= Seq::<Seq<EncodedBinding>>::empty());
    assert(groups_view(gs@) =~= Seq::<(Seq<usize>, nat)>::empty());
    while i < rows.len()
        invariant
            i <= rows@.len(),
            rv == rows_view(rows@),
            groups_view(gs@) == groups_of(rv.take(i as int), keys@),
            forall|k: int| 0 <= k < gs@.len() ==> (#[trigger] gs@[k]).1@ <= i,
        decreases rows@.len() - i,
    {
        let g = group_key_exec(&rows[i], keys);
        proof {
            assert(rv.take(i + 1).drop_last() =~= rv.take(i as int));
            assert(rv.take(i + 1).last() == rows@[i as int]@);
        }
        let ghost old_gs = gs@;
        match group_pos_exec(&gs, &g) {
            Some(p) => {
                let mut entry = (Vec::new(), CountAccumulator::default());
                std::mem::swap(&mut entry, &mut gs[p]);
                let (gk, mut acc) = entry;
                acc.add(0);
                let ghost n = acc@;
                gs.set(p, (gk, acc));
                proof {
                    lemma_group_pos_range(groups_view(old_gs), g@);
                    assert(groups_view(old_gs)[p as int].0 == old_gs[p as int].0@);
                    assert(gk@ == g@);
                    assert(groups_view(gs@) =~= groups_view(old_gs).update(p as int, (g@, groups_view(old_gs)[p as int].1 + 1)));
                }
            },
            None => {
                let mut acc = CountAccumulator::default();
                acc.add(0);
                gs.push((g, acc));
                proof {
                    assert(groups_view(gs@) =~= groups_view(old_gs).push((g@, 1nat)));
                }
            },
        }
        i = i + 1;
    }
    assert(rv.take(rows@.len() as int) =~= rv);
    gs
}


/// The decimal digit of a value below ten.
fn digit_char_exec(d: usize) -> (res: char)
    requires
        d < 10,
    ensures
        res == digit_char(d as int),
{
    if d == 0 {
        '0'
    } else if d == 1 {
        '1'
    } else if d == 2 {
        '2'
    } else if d == 3 {
        '3'
    } else if d == 4 {
        '4'
    } else if d == 5 {
        '5'
    } else if d == 6 {
        '6'
    } else if d == 7 {
        '7'
    } else if d == 8 {
        '8'
    } else {
        '9'
    }
}

/// The decimal writing of a number (`usize::to_string`).
pub(crate) fn decimal_chars(n: usize) -> (res: Vec<char>)
    ensures
        res@ == decimal(n as nat),
    decreases n,
{
    if n < 10 {
        let mut v: Vec<char> = Vec::new();
        v.push(digit_char_exec(n));
        assert(v@ =~= seq![digit_char(n as int)]);
        v
    } else {
        let mut v = decimal_chars(n / 10);
        v.push(digit_char_exec(n % 10));
        v
    }
}

/// A prefix of groups whose rows can be built can be built too.
proof fn lemma_aggregate_prefix(gs: Groups, keys: Seq<usize>, agg: usize, enc: Seq<Seq<char>>, i: int)
    requires
        aggregate_rows(gs, keys, agg, enc) is Some,
        0 <= i <= gs.len(),
    ensures
        aggregate_rows(gs.take(i), keys, agg, enc) is Some,
    decreases gs.len(),
{
    if i < gs.len() {
        lemma_aggregate_prefix(gs.drop_last(), keys, agg, enc, i);
        assert(gs.drop_last().take(i) =~= gs.take(i));
    } else {
        assert(gs.take(i) =~= gs);
    }
}

/// The rows of the groups, encoding the counts (see `aggregate_rows`).
fn aggregate_rows_exec(gs: &Vec<(Vec<usize>, CountAccumulator)>, keys: &Vec<usize>, agg: usize, enc: &mut Encoder) -> (res: Vec<Vec<EncodedBinding>>)
    requires
        aggregate_rows(groups_view(gs@), keys@, agg, old(enc)@) is Some,
    ensures
        aggregate_rows(groups_view(gs@), keys@, agg, old(enc)@) == Some((rows_view(res@), final(enc)@)),
{
    let ghost gv = groups_view(gs@);
    let ghost enc0 = enc@;
    let mut rows: Vec<Vec<EncodedBinding>> = Vec::new();
    let mut i: usize = 0;
    assert(gv.take(0) =~= Seq::<(Seq<usize>, nat)>::empty());
    assert(rows_view(rows@) =~= Seq::<Seq<EncodedBinding>>::empty());
    while i < gs.len()
        invariant
            i <= gs@.len(),
            gv == groups_view(gs@),
            aggregate_rows(gv, keys@, agg, enc0) is Some,
            aggregate_rows(gv.take(i as int), keys@, agg, enc0) == Some((rows_view(rows@), enc@)),
        decreases gs@.len() - i,
    {
        proof {
            lemma_aggregate_prefix(gv, keys@, agg, enc0, i + 1);
            assert(gv.take(i + 1).drop_last() =~= gv.take(i as int));
            assert(gv.take(i + 1).last() == gv[i as int]);
        }
        let g = &gs[i].0;
        let ghost n = gs@[i as int].1@;
        let ghost e_before = enc@;
        let code = gs[i].1.get(enc);
        let mut row: Vec<EncodedBinding> = Vec::new();
        row.push(EncodedBinding { var: agg, val: code });
        let mut t: usize = 0;
        while t < keys.len()
            invariant
                t <= keys@.len(),
                g@.len() >= keys@.len(),
                row@.len() == t + 1,
                row@[0] == (EncodedBinding { var: agg, val: code }),
                forall|x: int| 0 <= x < t ==> #[trigger] row@[x + 1] == (EncodedBinding { var: keys@[x], val: g@[x] }),
            decreases keys@.len() - t,
        {
            row.push(EncodedBinding { var: keys[t], val: g[t] });
            t = t + 1;
        }
        proof {
            let expected = seq![EncodedBinding { var: agg, val: code_spec(e_before, decimal(n)) as usize }] + Seq::new(
                keys@.len(),
                |x: int| EncodedBinding { var: keys@[x], val: g@[x] },
            );
            assert(row@ =~= expected) by {
                assert forall|x: int| 0 <= x < row@.len() implies row@[x] == expected[x] by {
                    if x > 0 {
                        assert(row@[(x - 1) + 1] == (EncodedBinding { var: keys@[x - 1], val: g@[x - 1] }));
                    }
                }
            }
        }
        let ghost old_rows = rows@;
        let ghost rowv = row@;
        rows.push(row);
        assert(rows_view(rows@) =~= rows_view(old_rows).push(rowv));
        i = i + 1;
    }
    assert(gv.take(gs@.len() as int) =~= gv);
    rows
}

/// The codes of variable names, in order (see `name_codes`).
fn name_codes_exec(enc: &Encoder, names: &Vec<String>) -> (res: Option<Vec<usize>>)
    ensures
        match name_codes(enc@, texts(names@)) {
            Some(cs) => res is Some && res.unwrap()@ == cs,
            None => res is None,
        },
{
    let mut cs: Vec<usize> = Vec::new();
    let mut i: usize = 0;
    assert(texts(names@).take(0) =~= Seq::<Seq<char>>::empty());
    while i < names.len()
        invariant
            i <= names@.len(),
            name_codes(enc@, texts(names@).take(i as int)) == Some(cs@),
        decreases names@.len() - i,
    {
        assert(texts(names@).take(i + 1).drop_last() =~= texts(names@).take(i as int));
        assert(texts(names@).take(i + 1).last() == names@[i as int]@);
        match enc.get(names[i].as_str()) {
            Some(c) => {
                cs.push(c);
            },
            None => {
                proof {
                    lemma_name_codes_none(enc@, texts(names@), i as int + 1);
                }
                return None;
            },
        }
        i = i + 1;
    }
    assert(texts(names@).take(names@.len() as int) =~= texts(names@));
    Some(cs)
}

/// A name without code among the first ones leaves all without codes.
proof fn lemma_name_codes_none(enc: Seq<Seq<char>>, names: Seq<Seq<char>>, i: int)
    requires
        0 <= i <= names.len(),
        name_codes(enc, names.take(i)) is None,
    ensures
        name_codes(enc, names) is None,
    decreases names.len(),
{
    if i < names.len() {
        assert(names.drop_last().take(i) =~= names.take(i));
        lemma_name_codes_none(enc, names.drop_last(), i);
    } else {
        assert(names.take(i) =~= names);
    }
}


/// Evaluates a plan against the index: the rows, in order, that
/// `eval_plan` gives, and the dictionary after the counts of aggregates were
/// encoded. The plan must evaluate (`eval_plan` is `Some`); on the plans
/// where it does not, the evaluation would fail on a value it cannot read,
/// a comparison without order, a join without a shared variable, or a name
/// without code.
pub fn evaluate_plan(plan_node: &PlanNode, triple_index: &TripleIndex, encoder: &mut Encoder) -> (res: Vec<Vec<EncodedBinding>>)
    requires
        eval_plan(triple_index@, old(encoder)@, plan_view(*plan_node)) is Some,
    ensures
        eval_plan(triple_index@, old(encoder)@, plan_view(*plan_node)) == Some((rows_view(res@), final(encoder)@)),
    decreases plan_node,
{
    match plan_node {
        PlanNode::QuadPattern { pattern } => triple_index.query_help(pattern, None),
        PlanNode::Project { child, mapping } => {
            let rows = evaluate_plan(child, triple_index, encoder);
            project_rows(&rows, mapping)
        },
        PlanNode::Join { left, right } => {
            let l = evaluate_plan(left, triple_index, encoder);
            let r = evaluate_plan(right, triple_index, encoder);
            match join_exec(&l, &r) {
                Some(j) => j,
                None => Vec::new(),
            }
        },
        PlanNode::Filter { child, expression } => {
            let rows = evaluate_plan(child, triple_index, encoder);
            filter_rows_exec(&rows, expression, encoder)
        },
        PlanNode::Aggregate { child, keys, aggregates } => {
            let rows = evaluate_plan(child, triple_index, encoder);
            if aggregates.len() == 0 {
                return Vec::new();
            }
            let agg = match encoder.get(aggregates[0].1.as_str()) {
                Some(c) => c,
                None => {
                    return Vec::new();
                },
            };
            let kc = match name_codes_exec(encoder, keys) {
                Some(kc) => kc,
                None => {
                    return Vec::new();
                },
            };
            let gs = groups_of_exec(&rows, &kc);
            aggregate_rows_exec(&gs, &kc, agg, encoder)
        },
        PlanNode::Extend { child, from, to } => {
            let rows = evaluate_plan(child, triple_index, encoder);
            let f = match encoder.get(from.as_str()) {
                Some(c) => c,
                None => {
                    return Vec::new();
                },
            };
            let t = match encoder.get(to.as_str()) {
                Some(c) => c,
                None => {
                    return Vec::new();
                },
            };
            rename_rows(&rows, f, t)
        },
        PlanNode::Done => Vec::new(),
    }
}

impl View for Binding {
    type V = (Seq<char>, Seq<char>);

    /// The variable and the value.
    open spec fn view(&self) -> (Seq<char>, Seq<char>) {
        (self.var@, self.val@)
    }
}

/// The string with code `c`, or the empty text when there is none.
pub open spec fn decode_or_empty(enc: Seq<Seq<char>>, c: usize) -> Seq<char> {
    match decode_spec(enc, c as int) {
        Some(s) => s,
        None => seq![],
    }
}

/// A row written out: each binding's variable and value decoded.
pub open spec fn decoded_row(enc: Seq<Seq<char>>, row: Seq<EncodedBinding>) -> Seq<(Seq<char>, Seq<char>)> {
    row.map_values(|b: EncodedBinding| (decode_or_empty(enc, b.var), decode_or_empty(enc, b.val)))
}

/// Rows of written-out bindings, by their views.
pub open spec fn binding_rows_view(rows: Seq<Vec<Binding>>) -> Seq<Seq<(Seq<char>, Seq<char>)>> {
    rows.map_values(|r: Vec<Binding>| r@.map_values(|b: Binding| b@))
}

/// Rows of bindings compare by what they read: `==` on two rows is
/// equality of their written-out bindings, and a clone of a row reads as the
/// row.
pub proof fn lemma_binding_rows_compare()
    ensures
        obeys_deep_eq::<Vec<Binding>>(),
        clone_keeps_deep_view::<Vec<Binding>>(),
{
    reveal(obeys_deep_eq);
    assert(obeys_deep_eq::<Binding>());
    broadcast use vstd::std_specs::vec::lemma_vec_obeys_deep_eq;
    assert forall|a: Vec<Binding>, b: Vec<Binding>| #[trigger] cloned::<Vec<Binding>>(a, b) implies a.deep_view()
        == b.deep_view() by {
        if a != b {
            assert forall|i: int| 0 <= i < a@.len() implies a@[i] == b@[i] by {
                assert(cloned::<Binding>(a[i], b[i]));
            }
            assert(a.deep_view() =~= b.deep_view());
        }
    }
}

/// The rows' written-out bindings are their deep views.
pub proof fn lemma_binding_rows_deep(rows: Seq<Vec<Binding>>)
    ensures
        deep_seq(rows) == binding_rows_view(rows),
{
    assert forall|i: int| 0 <= i < rows.len() implies deep_seq(rows)[i] == binding_rows_view(rows)[i] by {
        assert(rows[i].deep_view() =~= rows[i]@.map_values(|b: Binding| b@));
    }
    assert(deep_seq(rows) =~= binding_rows_view(rows));
}

/// The string with code `c`, or the empty string.
fn decode_or_empty_exec(enc: &Encoder, c: usize) -> (res: String)
    ensures
        res@ == decode_or_empty(enc@, c),
{
    match enc.decode(&c) {
        Some(s) => s,
        None => string_of(&Vec::new()),
    }
}

/// Evaluates a plan (see `evaluate_plan`) and writes each binding out, a
/// code without string as the empty text.
pub fn evaluate_plan_and_debug(plan_node: &PlanNode, triple_index: &TripleIndex, encoder: &mut Encoder) -> (res: Vec<Vec<Binding>>)
    requires
        eval_plan(triple_index@, old(encoder)@, plan_view(*plan_node)) is Some,
    ensures
        ({
            let (rows, e) = eval_plan(triple_index@, old(encoder)@, plan_view(*plan_node)).unwrap();
            &&& final(encoder)@ == e
            &&& binding_rows_view(res@) == rows.map_values(|r: Seq<EncodedBinding>| decoded_row(e, r))
        }),
{
    let rows = evaluate_plan(plan_node, triple_index, encoder);
    let mut out: Vec<Vec<Binding>> = Vec::new();
    let mut i: usize = 0;
    while i < rows.len()
        invariant
            i <= rows@.len(),
            out@.len() == i,
            forall|k: int| 0 <= k < i ==> (#[trigger] out@[k])@.map_values(|b: Binding| b@) == decoded_row(encoder@, rows@[k]@),
        decreases rows@.len() - i,
    {
        let row = &rows[i];
        let mut r: Vec<Binding> = Vec::new();
        let mut j: usize = 0;
        while j < row.len()
            invariant
                j <= row@.len(),
                r@.len() == j,
                forall|k: int| 0 <= k < j ==> (#[trigger] r@[k])@ == (decode_or_empty(encoder@, row@[k].var), decode_or_empty(encoder@, row@[k].val)),
            decreases row@.len() - j,
        {
            let var = decode_or_empty_exec(encoder, row[j].var);
            let val = decode_or_empty_exec(encoder, row[j].val);
            r.push(Binding { var, val });
            j = j + 1;
        }
        assert(r@.map_values(|b: Binding| b@) =~= decoded_row(encoder@, row@));
        out.push(r);
        i = i + 1;
    }
    assert(binding_rows_view(out@) =~= rows_view(rows@).map_values(|r: Seq<EncodedBinding>| decoded_row(encoder@, r)));
    out
}


/// Counts the rows of a group.
#[derive(Debug)]
pub struct CountAccumulator {
    count: usize,
}

impl View for CountAccumulator {
    type V = nat;

    /// The number of rows counted.
    closed spec fn view(&self) -> nat {
        self.count as nat
    }
}

impl CountAccumulator {
    /// Counts one more row.
    pub fn add(&mut self, _item: usize)
        requires
            old(self)@ < usize::MAX,
        ensures
            final(self)@ == old(self)@ + 1,
    {
        self.count = self.count + 1;
    }

    /// The code of the count written in decimal, encoding it if needed.
    pub fn get(&self, encoder: &mut Encoder) -> (res: usize)
        ensures
            res == code_spec(old(encoder)@, decimal(self@)),
            final(encoder)@ == add_spec(old(encoder)@, decimal(self@)),
    {
        let digits = decimal_chars(self.count);
        encoder.add(string_of(&digits))
    }
}

impl Default for CountAccumulator {
    fn default() -> (res: Self)
        ensures
            res@ == 0,
    {
        CountAccumulator { count: 0 }
    }
}


/// An expression of a query, as far as plans read it.
#[derive(Debug)]
pub enum QueryExpression {
    /// A literal, by its lexical form.
    Literal(String),
    /// A variable, by its name.
    Variable(String),
    Greater(Box<QueryExpression>, Box<QueryExpression>),
    GreaterOrEqual(Box<QueryExpression>, Box<QueryExpression>),
    Less(Box<QueryExpression>, Box<QueryExpression>),
    LessOrEqual(Box<QueryExpression>, Box<QueryExpression>),
    /// Any other expression.
    Other,
}

/// An aggregate of a query, as far as plans read it.
#[derive(Debug, Clone, Copy, PartialEq, Eq, Structural)]
pub enum QueryAggregate {
    Count { distinct: bool },
    Sum { distinct: bool },
    /// Any other aggregate.
    Other,
}

/// A graph pattern of a query, as far as plans read it.
#[derive(Debug)]
pub enum QueryPattern {
    /// A basic graph pattern: triple patterns, each element written out
    /// (`?name` for a variable, `<iri>` for an IRI).
    Bgp { patterns: Vec<(String, String, String)> },
    Project { inner: Box<QueryPattern>, variables: Vec<String> },
    Filter { expr: QueryExpression, inner: Box<QueryPattern> },
    Group { inner: Box<QueryPattern>, variables: Vec<String>, aggregates: Vec<(String, QueryAggregate)> },
    Extend { inner: Box<QueryPattern>, variable: String, expression: QueryExpression },
    /// Any other pattern.
    Other,
}

/// A query: its form, with the pattern of a selection.
#[derive(Debug)]
pub enum QueryForm {
    Select { pattern: QueryPattern },
    Construct,
    Describe,
    Ask,
}

/// A plan, with its names and codes as sequences.
pub enum PlanView {
    Join { left: Box<PlanView>, right: Box<PlanView> },
    QuadPattern { pattern: Triple },
    Project { child: Box<PlanView>, mapping: Seq<usize> },
    Filter { child: Box<PlanView>, expression: PlanExpression },
    Aggregate { child: Box<PlanView>, keys: Seq<Seq<char>>, aggregates: Seq<(PlanAggregation, Seq<char>)> },
    Extend { child: Box<PlanView>, from: Seq<char>, to: Seq<char> },
    Done,
}

/// The view of a plan.
pub open spec fn plan_view(p: PlanNode) -> PlanView
    decreases p,
{
    match p {
        PlanNode::Join { left, right } => PlanView::Join { left: Box::new(plan_view(*left)), right: Box::new(plan_view(*right)) },
        PlanNode::QuadPattern { pattern } => PlanView::QuadPattern { pattern },
        PlanNode::Project { child, mapping } => PlanView::Project { child: Box::new(plan_view(*child)), mapping: mapping@ },
        PlanNode::Filter { child, expression } => PlanView::Filter { child: Box::new(plan_view(*child)), expression: *expression },
        PlanNode::Aggregate { child, keys, aggregates } => PlanView::Aggregate {
            child: Box::new(plan_view(*child)),
            keys: keys@.map_values(|k: String| k@),
            aggregates: aggregates@.map_values(|a: (PlanAggregation, String)| (a.0, a.1@)),
        },
        PlanNode::Extend { child, from, to } => PlanView::Extend { child: Box::new(plan_view(*child)), from: from@, to: to@ },
        PlanNode::Done => PlanView::Done,
    }
}

/// Every literal of the expression is a `usize` in decimal.
pub open spec fn expression_ok(e: QueryExpression) -> bool
    decreases e,
{
    match e {
        QueryExpression::Literal(v) => parse_usize_spec(v@) is Some,
        QueryExpression::Greater(a, b) => expression_ok(*a) && expression_ok(*b),
        QueryExpression::GreaterOrEqual(a, b) => expression_ok(*a) && expression_ok(*b),
        QueryExpression::Less(a, b) => expression_ok(*a) && expression_ok(*b),
        QueryExpression::LessOrEqual(a, b) => expression_ok(*a) && expression_ok(*b),
        _ => true,
    }
}

/// The plan expression of an expression and the dictionary after its
/// variable names were encoded, left to right.
pub open spec fn expression_plan(e: QueryExpression, enc: Seq<Seq<char>>) -> (PlanExpression, Seq<Seq<char>>)
    decreases e,
{
    match e {
        QueryExpression::Literal(v) => (PlanExpression::Constant(TermImpl { iri: parse_usize_spec(v@).unwrap() }), enc),
        QueryExpression::Variable(name) => (PlanExpression::Variable(code_spec(enc, name@) as usize), add_spec(enc, name@)),
        QueryExpression::Greater(a, b) => {
            let (x, e1) = expression_plan(*a, enc);
            let (y, e2) = expression_plan(*b, e1);
            (PlanExpression::Greater(Box::new(x), Box::new(y)), e2)
        },
        QueryExpression::GreaterOrEqual(a, b) => {
            let (x, e1) = expression_plan(*a, enc);
            let (y, e2) = expression_plan(*b, e1);
            (PlanExpression::GreaterOrEqual(Box::new(x), Box::new(y)), e2)
        },
        QueryExpression::Less(a, b) => {
            let (x, e1) = expression_plan(*a, enc);
            let (y, e2) = expression_plan(*b, e1);
            (PlanExpression::Less(Box::new(x), Box::new(y)), e2)
        },
        QueryExpression::LessOrEqual(a, b) => {
            let (x, e1) = expression_plan(*a, enc);
            let (y, e2) = expression_plan(*b, e1);
            (PlanExpression::LessOrEqual(Box::new(x), Box::new(y)), e2)
        },
        QueryExpression::Other => (PlanExpression::Done, enc),
    }
}

/// The aggregation of an aggregate: a count for counts and for sums.
pub open spec fn aggregation_of(a: QueryAggregate) -> Result<PlanAggregation, ()> {
    match a {
        QueryAggregate::Count { distinct } => Ok(PlanAggregation { function: PlanAggregationFunction::Count, distinct }),
        QueryAggregate::Sum { distinct } => Ok(PlanAggregation { function: PlanAggregationFunction::Count, distinct }),
        QueryAggregate::Other => Err(()),
    }
}

/// The dictionary after the names were added in order.
pub open spec fn add_all(enc: Seq<Seq<char>>, names: Seq<Seq<char>>) -> Seq<Seq<char>>
    decreases names.len(),
{
    if names.len() == 0 {
        enc
    } else {
        add_spec(add_all(enc, names.drop_last()), names.last())
    }
}

/// The codes that adding the names in order returns.
pub open spec fn codes_all(enc: Seq<Seq<char>>, names: Seq<Seq<char>>) -> Seq<usize>
    decreases names.len(),
{
    if names.len() == 0 {
        seq![]
    } else {
        codes_all(enc, names.drop_last()).push(code_spec(add_all(enc, names.drop_last()), names.last()) as usize)
    }
}

/// The texts of a sequence of strings.
pub open spec fn texts(v: Seq<String>) -> Seq<Seq<char>> {
    v.map_values(|s: String| s@)
}

/// The plan of a basic graph pattern: its triple patterns joined from the
/// left, each read with `Triple::from`, in order.
pub open spec fn bgp_plan(ts: Seq<(String, String, String)>, enc: Seq<Seq<char>>) -> (PlanView, Seq<Seq<char>>)
    decreases ts.len(),
{
    if ts.len() <= 1 {
        let t = ts[0];
        (
            PlanView::QuadPattern { pattern: triple_from_spec(enc, t.0@, t.1@, t.2@) },
            convert_all_strings(enc, seq![t.0@, t.1@, t.2@]),
        )
    } else {
        let (left, e1) = bgp_plan(ts.drop_last(), enc);
        let t = ts.last();
        (
            PlanView::Join {
                left: Box::new(left),
                right: Box::new(PlanView::QuadPattern { pattern: triple_from_spec(e1, t.0@, t.1@, t.2@) }),
            },
            convert_all_strings(e1, seq![t.0@, t.1@, t.2@]),
        )
    }
}

/// A pattern from which a plan can be made: basic graph patterns are not
/// empty, literals are `usize`s in decimal, aggregates are counts or sums.
pub open spec fn pattern_ok(q: QueryPattern) -> bool
    decreases q,
{
    match q {
        QueryPattern::Bgp { patterns } => patterns@.len() > 0,
        QueryPattern::Project { inner, variables } => pattern_ok(*inner),
        QueryPattern::Filter { expr, inner } => pattern_ok(*inner) && expression_ok(expr),
        QueryPattern::Group { inner, variables, aggregates } => pattern_ok(*inner) && forall|i: int|
            0 <= i < aggregates@.len() ==> (#[trigger] aggregates@[i]).1 != QueryAggregate::Other,
        QueryPattern::Extend { inner, variable, expression } => match expression {
            QueryExpression::Variable(from) => pattern_ok(*inner),
            _ => true,
        },
        QueryPattern::Other => true,
    }
}

/// The plan of a pattern and the dictionary afterwards. A projection
/// encodes its variables before its pattern; a filter encodes its pattern,
/// then its expression; a renaming of a variable encodes both names before
/// its pattern; a renaming of anything else, and any other pattern, is the
/// empty plan.
pub open spec fn pattern_plan(q: QueryPattern, enc: Seq<Seq<char>>) -> (PlanView, Seq<Seq<char>>)
    decreases q,
{
    match q {
        QueryPattern::Bgp { patterns } => bgp_plan(patterns@, enc),
        QueryPattern::Project { inner, variables } => {
            let e1 = add_all(enc, texts(variables@));
            let (c, e2) = pattern_plan(*inner, e1);
            (PlanView::Project { child: Box::new(c), mapping: codes_all(enc, texts(variables@)) }, e2)
        },
        QueryPattern::Filter { expr, inner } => {
            let (c, e1) = pattern_plan(*inner, enc);
            let (x, e2) = expression_plan(expr, e1);
            (PlanView::Filter { child: Box::new(c), expression: x }, e2)
        },
        QueryPattern::Group { inner, variables, aggregates } => {
            let (c, e1) = pattern_plan(*inner, enc);
            (
                PlanView::Aggregate {
                    child: Box::new(c),
                    keys: texts(variables@),
                    aggregates: aggregates@.map_values(|a: (String, QueryAggregate)| (aggregation_of(a.1)->Ok_0, a.0@)),
                },
                e1,
            )
        },
        QueryPattern::Extend { inner, variable, expression } => match expression {
            QueryExpression::Variable(from) => {
                let e1 = add_spec(add_spec(enc, from@), variable@);
                let (c, e2) = pattern_plan(*inner, e1);
                (PlanView::Extend { child: Box::new(c), from: from@, to: variable@ }, e2)
            },
            _ => (PlanView::Done, enc),
        },
        QueryPattern::Other => (PlanView::Done, enc),
    }
}

/// The plan expression of an expression (see `expression_plan`), encoding
/// variable names.
fn extract_expression(expression: &QueryExpression, encoder: &mut Encoder) -> (res: PlanExpression)
    requires
        expression_ok(*expression),
    ensures
        (res, final(encoder)@) == expression_plan(*expression, old(encoder)@),
    decreases expression,
{
    match expression {
        QueryExpression::Greater(a, b) => {
            let x = extract_expression(a, encoder);
            let y = extract_expression(b, encoder);
            PlanExpression::Greater(Box::new(x), Box::new(y))
        },
        QueryExpression::GreaterOrEqual(a, b) => {
            let x = extract_expression(a, encoder);
            let y = extract_expression(b, encoder);
            PlanExpression::GreaterOrEqual(Box::new(x), Box::new(y))
        },
        QueryExpression::Less(a, b) => {
            let x = extract_expression(a, encoder);
            let y = extract_expression(b, encoder);
            PlanExpression::Less(Box::new(x), Box::new(y))
        },
        QueryExpression::LessOrEqual(a, b) => {
            let x = extract_expression(a, encoder);
            let y = extract_expression(b, encoder);
            PlanExpression::LessOrEqual(Box::new(x), Box::new(y))
        },
        QueryExpression::Variable(name) => PlanExpression::Variable(encoder.add(name.clone())),
        QueryExpression::Literal(value) => {
            let digits = chars_of(value.as_str());
            match parse_usize_exec(&digits) {
                Some(n) => PlanExpression::Constant(TermImpl { iri: n }),
                None => PlanExpression::Done,
            }
        },
        QueryExpression::Other => PlanExpression::Done,
    }
}

/// The aggregation of an aggregate (see `aggregation_of`); an error for
/// aggregates other than counts and sums.
fn build_for_aggregate(aggregate: &QueryAggregate, variables: &mut Vec<String>) -> (res: Result<PlanAggregation, String>)
    ensures
        final(variables)@ == old(variables)@,
        match aggregation_of(*aggregate) {
            Ok(a) => res == Ok::<PlanAggregation, String>(a),
            Err(_) => res is Err,
        },
{
    match aggregate {
        QueryAggregate::Count { distinct } => Ok(PlanAggregation { function: PlanAggregationFunction::Count, distinct: *distinct }),
        QueryAggregate::Sum { distinct } => Ok(PlanAggregation { function: PlanAggregationFunction::Count, distinct: *distinct }),
        QueryAggregate::Other => Err(string_of(&chars_of("Failed"))),
    }
}

/// Two joined plans.
fn new_join(left: PlanNode, right: PlanNode) -> (res: PlanNode)
    ensures
        plan_view(res) == (PlanView::Join { left: Box::new(plan_view(left)), right: Box::new(plan_view(right)) }),
{
    PlanNode::Join { left: Box::new(left), right: Box::new(right) }
}

/// A copy of a sequence of strings.
fn copy_strings(v: &Vec<String>) -> (res: Vec<String>)
    ensures
        texts(res@) == texts(v@),
{
    let mut res: Vec<String> = Vec::new();
    let mut i: usize = 0;
    while i < v.len()
        invariant
            i <= v@.len(),
            res@.len() == i,
            forall|k: int| 0 <= k < i ==> (#[trigger] res@[k])@ == v@[k]@,
        decreases v@.len() - i,
    {
        res.push(v[i].clone());
        i = i + 1;
    }
    assert(texts(res@) =~= texts(v@));
    res
}

/// The plan of a pattern (see `pattern_plan`), encoding its names.
pub fn extract_query_plan(graph_pattern: &QueryPattern, encoder: &mut Encoder) -> (res: PlanNode)
    requires
        pattern_ok(*graph_pattern),
    ensures
        (plan_view(res), final(encoder)@) == pattern_plan(*graph_pattern, old(encoder)@),
    decreases graph_pattern,
{
    match graph_pattern {
        QueryPattern::Bgp { patterns } => {
            let ghost enc0 = encoder@;
            let t = &patterns[0];
            let mut plan = PlanNode::QuadPattern { pattern: Triple::from(t.0.clone(), t.1.clone(), t.2.clone(), encoder) };
            let mut i: usize = 1;
            assert(patterns@.take(1).len() == 1);
            assert(patterns@.take(1)[0] == patterns@[0]);
            while i < patterns.len()
                invariant
                    1 <= i <= patterns@.len(),
                    (plan_view(plan), encoder@) == bgp_plan(patterns@.take(i as int), enc0),
                decreases patterns@.len() - i,
            {
                let t = &patterns[i];
                let q = PlanNode::QuadPattern { pattern: Triple::from(t.0.clone(), t.1.clone(), t.2.clone(), encoder) };
                plan = new_join(plan, q);
                proof {
                    assert(patterns@.take(i + 1).drop_last() =~= patterns@.take(i as int));
                    assert(patterns@.take(i + 1).last() == patterns@[i as int]);
                }
                i = i + 1;
            }
            assert(patterns@.take(patterns@.len() as int) =~= patterns@);
            plan
        },
        QueryPattern::Project { inner, variables } => {
            let ghost enc0 = encoder@;
            let mut mapping: Vec<usize> = Vec::new();
            let mut i: usize = 0;
            assert(texts(variables@).take(0) =~= Seq::<Seq<char>>::empty());
            while i < variables.len()
                invariant
                    i <= variables@.len(),
                    encoder@ == add_all(enc0, texts(variables@).take(i as int)),
                    mapping@ == codes_all(enc0, texts(variables@).take(i as int)),
                decreases variables@.len() - i,
            {
                proof {
                    assert(texts(variables@).take(i + 1).drop_last() =~= texts(variables@).take(i as int));
                    assert(texts(variables@).take(i + 1).last() == variables@[i as int]@);
                }
                let c = encoder.add(variables[i].clone());
                mapping.push(c);
                i = i + 1;
            }
            assert(texts(variables@).take(variables@.len() as int) =~= texts(variables@));
            let child = extract_query_plan(inner, encoder);
            PlanNode::Project { child: Box::new(child), mapping }
        },
        QueryPattern::Filter { expr, inner } => {
            let child = extract_query_plan(inner, encoder);
            let expression = extract_expression(expr, encoder);
            PlanNode::Filter { child: Box::new(child), expression: Box::new(expression) }
        },
        QueryPattern::Group { inner, variables, aggregates } => {
            let child = extract_query_plan(inner, encoder);
            let mut inner_variables = copy_strings(variables);
            let mut aggs: Vec<(PlanAggregation, String)> = Vec::new();
            let mut i: usize = 0;
            while i < aggregates.len()
                invariant
                    i <= aggregates@.len(),
                    texts(inner_variables@) == texts(variables@),
                    forall|k: int| 0 <= k < aggregates@.len() ==> (#[trigger] aggregates@[k]).1 != QueryAggregate::Other,
                    aggs@.len() == i,
                    forall|k: int| 0 <= k < i ==> (#[trigger] aggs@[k]).0 == aggregation_of(aggregates@[k].1)->Ok_0
                        && aggs@[k].1@ == aggregates@[k].0@,
                decreases aggregates@.len() - i,
            {
                assert(aggregates@[i as int].1 != QueryAggregate::Other);
                match build_for_aggregate(&aggregates[i].1, &mut inner_variables) {
                    Ok(a) => {
                        aggs.push((a, aggregates[i].0.clone()));
                    },
                    Err(_) => {},
                }
                i = i + 1;
            }
            assert(aggs@.map_values(|a: (PlanAggregation, String)| (a.0, a.1@)) =~= aggregates@.map_values(
                |a: (String, QueryAggregate)| (aggregation_of(a.1)->Ok_0, a.0@),
            ));
            PlanNode::Aggregate { child: Box::new(child), keys: inner_variables, aggregates: aggs }
        },
        QueryPattern::Extend { inner, variable, expression } => {
            match expression {
                QueryExpression::Variable(from) => {
                    encoder.add(from.clone());
                    encoder.add(variable.clone());
                    let child = extract_query_plan(inner, encoder);
                    PlanNode::Extend { child: Box::new(child), from: from.clone(), to: variable.clone() }
                },
                _ => PlanNode::Done,
            }
        },
        QueryPattern::Other => PlanNode::Done,
    }
}

/// The plan of a query: that of its pattern for a selection, the empty plan
/// for the other forms.
pub open spec fn query_plan(q: QueryForm, enc: Seq<Seq<char>>) -> (PlanView, Seq<Seq<char>>) {
    match q {
        QueryForm::Select { pattern } => pattern_plan(pattern, enc),
        _ => (PlanView::Done, enc),
    }
}

/// A query from which a plan can be made (see `pattern_ok`).
pub open spec fn query_ok(q: QueryForm) -> bool {
    match q {
        QueryForm::Select { pattern } => pattern_ok(pattern),
        _ => true,
    }
}

/// The plan of a query (see `query_plan`), encoding its names.
pub fn eval_query(query: &QueryForm, index: &TripleIndex, encoder: &mut Encoder) -> (res: PlanNode)
    requires
        query_ok(*query),
    ensures
        (plan_view(res), final(encoder)@) == query_plan(*query, old(encoder)@),
{
    match query {
        QueryForm::Select { pattern } => extract_query_plan(pattern, encoder),
        _ => PlanNode::Done,
    }
}


/// Filtering keeps rows of its input, in order, and no more of them.
pub proof fn law_filter_keeps_rows(rows: Seq<Seq<EncodedBinding>>, e: PlanExpression, enc: Seq<Seq<char>>)
    requires
        filter_rows(rows, e, enc) is Some,
    ensures
        filter_rows(rows, e, enc).unwrap().len() <= rows.len(),
        forall|i: int|
            0 <= i < filter_rows(rows, e, enc).unwrap().len() ==> rows.contains(#[trigger] filter_rows(rows, e, enc).unwrap()[i]),
    decreases rows.len(),
{
    if rows.len() > 0 {
        let d = rows.drop_last();
        law_filter_keeps_rows(d, e, enc);
        let f0 = filter_rows(d, e, enc).unwrap();
        let f = filter_rows(rows, e, enc).unwrap();
        assert forall|i: int| 0 <= i < f.len() implies rows.contains(#[trigger] f[i]) by {
            if i < f0.len() {
                assert(f[i] == f0[i]);
                assert(d.contains(f0[i]));
                let w = choose|w: int| 0 <= w < d.len() && d[w] == f0[i];
                assert(rows[w] == d[w]);
            } else {
                assert(f[i] == rows.last());
                assert(rows[rows.len() - 1] == rows.last());
            }
        }
    }
}

/// The total of the counts of groups.
pub open spec fn count_total(gs: Groups) -> nat
    decreases gs.len(),
{
    if gs.len() == 0 {
        0
    } else {
        count_total(gs.drop_last()) + gs.last().1
    }
}

/// Raising the count of one group by one raises the total by one.
proof fn lemma_count_total_update(gs: Groups, p: int, g: Seq<usize>)
    requires
        0 <= p < gs.len(),
    ensures
        count_total(gs.update(p, (g, gs[p].1 + 1))) == count_total(gs) + 1,
    decreases gs.len(),
{
    let u = gs.update(p, (g, gs[p].1 + 1));
    if p == gs.len() - 1 {
        assert(u.drop_last() =~= gs.drop_last());
    } else {
        lemma_count_total_update(gs.drop_last(), p, g);
        assert(u.drop_last() =~= gs.drop_last().update(p, (g, gs[p].1 + 1)));
        assert(u.last() == gs.last());
    }
}

/// Counting rows by group counts every row once: the counts of the groups
/// add up to the number of rows.
pub proof fn law_group_counts(rows: Seq<Seq<EncodedBinding>>, keys: Seq<usize>)
    ensures
        count_total(groups_of(rows, keys)) == rows.len(),
    decreases rows.len(),
{
    if rows.len() > 0 {
        law_group_counts(rows.drop_last(), keys);
        let gs = groups_of(rows.drop_last(), keys);
        let g = group_key(rows.last(), keys);
        lemma_group_pos_range(gs, g);
        let p = group_pos(gs, g);
        if p >= 0 {
            lemma_count_total_update(gs, p, g);
            assert(gs[p].0 == g);
        } else {
            assert(gs.push((g, 1nat)).drop_last() =~= gs);
        }
    }
}


/// The triples read from triple patterns written out (see `Triple::from`),
/// in order, and the dictionary afterwards.
pub open spec fn patterns_triples(ts: Seq<(String, String, String)>, enc: Seq<Seq<char>>) -> (Seq<Triple>, Seq<Seq<char>>)
    decreases ts.len(),
{
    if ts.len() == 0 {
        (seq![], enc)
    } else {
        let (rest, e1) = patterns_triples(ts.drop_last(), enc);
        let t = ts.last();
        (rest.push(triple_from_spec(e1, t.0@, t.1@, t.2@)), convert_all_strings(e1, seq![t.0@, t.1@, t.2@]))
    }
}

/// Reads triple patterns written out into triples (see `patterns_triples`).
pub fn extract_triples(triple_patterns: &Vec<(String, String, String)>, encoder: &mut Encoder) -> (res: Vec<Triple>)
    ensures
        (res@, final(encoder)@) == patterns_triples(triple_patterns@, old(encoder)@),
{
    let ghost e0 = encoder@;
    let mut triples: Vec<Triple> = Vec::new();
    let mut i: usize = 0;
    assert(triple_patterns@.take(0) =~= Seq::<(String, String, String)>::empty());
    while i < triple_patterns.len()
        invariant
            i <= triple_patterns@.len(),
            (triples@, encoder@) == patterns_triples(triple_patterns@.take(i as int), e0),
        decreases triple_patterns@.len() - i,
    {
        let t = &triple_patterns[i];
        triples.push(Triple::from(t.0.clone(), t.1.clone(), t.2.clone(), encoder));
        proof {
            assert(triple_patterns@.take(i + 1).drop_last() =~= triple_patterns@.take(i as int));
            assert(triple_patterns@.take(i + 1).last() == triple_patterns@[i as int]);
        }
        i = i + 1;
    }
    assert(triple_patterns@.take(triple_patterns@.len() as int) =~= triple_patterns@);
    triples
}


/// Whether both rows bind `k`, and to one value.
pub open spec fn agree_on(x: Seq<EncodedBinding>, y: Seq<EncodedBinding>, k: usize) -> bool {
    exists|a: int, b: int|
        0 <= a < x.len() && 0 <= b < y.len() && (#[trigger] x[a]).var == k && (#[trigger] y[b]).var == k
            && x[a].val == y[b].val
}

/// Whether `row` is a row of `r` followed by a row of `l`, the two binding
/// `k` to one value.
pub open spec fn joined_pair(row: Seq<EncodedBinding>, r: Seq<Seq<EncodedBinding>>, l: Seq<Seq<EncodedBinding>>, k: usize) -> bool {
    exists|i: int, j: int|
        #![trigger r[i], l[j]]
        0 <= i < r.len() && 0 <= j < l.len() && row == r[i] + l[j] && agree_on(r[i], l[j], k)
}

/// Whether `row` is `rr` followed by a row of `l`, the two binding `k` to
/// one value.
spec fn joined_with(row: Seq<EncodedBinding>, rr: Seq<EncodedBinding>, l: Seq<Seq<EncodedBinding>>, k: usize) -> bool {
    exists|j: int| #![trigger l[j]] 0 <= j < l.len() && row == rr + l[j] && agree_on(rr, l[j], k)
}

/// A row counted as binding `k` to `val` has such a binding.
proof fn lemma_count_binding(row: Seq<EncodedBinding>, k: usize, val: usize)
    requires
        count_matches(row, k, val) > 0,
    ensures
        exists|b: int| 0 <= b < row.len() && (#[trigger] row[b]).var == k && row[b].val == val,
    decreases row.len(),
{
    if row.last().var == k && row.last().val == val {
        assert(row[row.len() - 1] == row.last());
    } else {
        lemma_count_binding(row.drop_last(), k, val);
        let b = choose|b: int| 0 <= b < row.drop_last().len() && (#[trigger] row.drop_last()[b]).var == k && row.drop_last()[b].val == val;
        assert(row[b] == row.drop_last()[b]);
    }
}

/// Each row of `left_matches` is a row of `l` that binds `k` to `val`.
proof fn lemma_left_matches_rows(l: Seq<Seq<EncodedBinding>>, k: usize, val: usize)
    ensures
        forall|t: int| 0 <= t < left_matches(l, k, val).len() ==> exists|j: int|
            0 <= j < l.len() && #[trigger] left_matches(l, k, val)[t] == l[j]
                && exists|b: int| 0 <= b < l[j].len() && (#[trigger] l[j][b]).var == k && l[j][b].val == val,
    decreases l.len(),
{
    if l.len() > 0 {
        let d = l.drop_last();
        lemma_left_matches_rows(d, k, val);
        let p = left_matches(d, k, val);
        let m = left_matches(l, k, val);
        assert forall|t: int| 0 <= t < m.len() implies exists|j: int|
            0 <= j < l.len() && #[trigger] m[t] == l[j]
                && exists|b: int| 0 <= b < l[j].len() && (#[trigger] l[j][b]).var == k && l[j][b].val == val by {
            if t < p.len() {
                assert(m[t] == p[t]);
                let j = choose|j: int| 0 <= j < d.len() && #[trigger] p[t] == d[j]
                    && exists|b: int| 0 <= b < d[j].len() && (#[trigger] d[j][b]).var == k && d[j][b].val == val;
                assert(l[j] == d[j]);
            } else {
                assert(m[t] == l.last());
                lemma_count_binding(l.last(), k, val);
                assert(l[l.len() - 1] == l.last());
            }
        }
    }
}

/// Each row that `join_row` gives is `rr` followed by a row of `l`, the two
/// agreeing on `k`, where `bs` is a prefix of `rr`.
proof fn lemma_join_row_pairs(rr: Seq<EncodedBinding>, bs: Seq<EncodedBinding>, l: Seq<Seq<EncodedBinding>>, k: usize)
    requires
        bs.len() <= rr.len(),
        forall|i: int| 0 <= i < bs.len() ==> bs[i] == rr[i],
    ensures
        forall|t: int| 0 <= t < join_row(rr, bs, l, k).len() ==> #[trigger] joined_with(join_row(rr, bs, l, k)[t], rr, l, k),
    decreases bs.len(),
{
    if bs.len() > 0 {
        let d = bs.drop_last();
        lemma_join_row_pairs(rr, d, l, k);
        let p = join_row(rr, d, l, k);
        let res = join_row(rr, bs, l, k);
        assert forall|t: int| 0 <= t < res.len() implies #[trigger] joined_with(res[t], rr, l, k) by {
            if t < p.len() {
                assert(res[t] == p[t]);
                assert(joined_with(p[t], rr, l, k));
            } else {
                let val = bs.last().val;
                let lm = left_matches(l, k, val);
                lemma_left_matches_rows(l, k, val);
                let u = t - p.len();
                assert(res[t] == rr + lm[u]);
                let j = choose|j: int| 0 <= j < l.len() && #[trigger] lm[u] == l[j]
                    && exists|b: int| 0 <= b < l[j].len() && (#[trigger] l[j][b]).var == k && l[j][b].val == val;
                let b = choose|b: int| 0 <= b < l[j].len() && (#[trigger] l[j][b]).var == k && l[j][b].val == val;
                let a = bs.len() - 1;
                assert(rr[a] == bs.last());
                assert(agree_on(rr, l[j], k));
                assert(0 <= j < l.len() && res[t] == rr + l[j] && agree_on(rr, l[j], k));
            }
        }
    }
}

/// Each row that `join_rows` gives is a row of `r` followed by a row of `l`,
/// the two agreeing on `k`.
proof fn lemma_join_rows_pairs(r: Seq<Seq<EncodedBinding>>, l: Seq<Seq<EncodedBinding>>, k: usize)
    ensures
        forall|t: int| 0 <= t < join_rows(r, l, k).len() ==> #[trigger] joined_pair(join_rows(r, l, k)[t], r, l, k),
    decreases r.len(),
{
    if r.len() > 0 {
        let d = r.drop_last();
        lemma_join_rows_pairs(d, l, k);
        let p = join_rows(d, l, k);
        let q = join_row(r.last(), r.last(), l, k);
        lemma_join_row_pairs(r.last(), r.last(), l, k);
        let res = join_rows(r, l, k);
        assert forall|t: int| 0 <= t < res.len() implies #[trigger] joined_pair(res[t], r, l, k) by {
            if t < p.len() {
                assert(res[t] == p[t]);
                assert(joined_pair(p[t], d, l, k));
                let (i, j) = choose|i: int, j: int|
                    #![trigger d[i], l[j]]
                    0 <= i < d.len() && 0 <= j < l.len() && p[t] == d[i] + l[j] && agree_on(d[i], l[j], k);
                assert(r[i] == d[i]);
                assert(0 <= i < r.len() && 0 <= j < l.len() && res[t] == r[i] + l[j] && agree_on(r[i], l[j], k));
            } else {
                let u = t - p.len();
                assert(res[t] == q[u]);
                assert(joined_with(q[u], r.last(), l, k));
                let j = choose|j: int| #![trigger l[j]] 0 <= j < l.len() && q[u] == r.last() + l[j] && agree_on(r.last(), l[j], k);
                let i = r.len() - 1;
                assert(r[i] == r.last());
                assert(0 <= i < r.len() && 0 <= j < l.len() && res[t] == r[i] + l[j] && agree_on(r[i], l[j], k));
            }
        }
    }
}

/// Every row of a join is a right row followed by a left row, and the two
/// bind the join variable (the first that the first rows share) to one
/// value: nothing of either row is dropped.
pub proof fn law_join_rows_combine(l: Seq<Seq<EncodedBinding>>, r: Seq<Seq<EncodedBinding>>)
    requires
        join_spec(l, r) is Some,
    ensures
        forall|t: int| 0 <= t < join_spec(l, r).unwrap().len() ==>
            #[trigger] joined_pair(join_spec(l, r).unwrap()[t], r, l, first_shared(r[0], l[0]).unwrap()),
{
    if l.len() > 0 && r.len() > 0 {
        if let Some(k) = first_shared(r[0], l[0]) {
            lemma_join_rows_pairs(r, l, k);
        }
    }
}

} // verus!
