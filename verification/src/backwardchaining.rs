//! Backward chaining: finding the rules whose head unifies with a goal
//! pattern, with the renaming of the head's variables to the goal's.
use vstd::prelude::*;
use crate::triples::{Triple, Rule, RuleView, VarOrTerm};
use crate::ruleindex::RuleIndex;
use crate::parser::rule_views;
use crate::bindings::{
    Binding, BindingView, bind_len, covers, key_pos, join_spec, combine_spec, rename_spec, column_values,
    lemma_combine_keeps, lemma_combine_adds,
};
use crate::tripleindex::{TripleIndex, TripleIndexView, query_spec};

verus! {

/// Unifying an element of a rule head with an element of a goal: two
/// variables unify and pair their names (head's, goal's); otherwise the
/// elements must be equal.
pub open spec fn unify_elem(left: VarOrTerm, right: VarOrTerm) -> (bool, Seq<(usize, usize)>) {
    match (left, right) {
        (VarOrTerm::Var(l), VarOrTerm::Var(r)) => (true, seq![(l.name, r.name)]),
        _ => (left == right, seq![]),
    }
}

/// Unifying a rule head with a goal, subject, predicate and object in turn:
/// the variable pairs when they all unify.
pub open spec fn unify_head(head: Triple, goal: Triple) -> Option<Seq<(usize, usize)>> {
    let s = unify_elem(head.s, goal.s);
    let p = unify_elem(head.p, goal.p);
    let o = unify_elem(head.o, goal.o);
    if s.0 && p.0 && o.0 {
        Some(s.1 + p.1 + o.1)
    } else {
        None
    }
}

/// The rules of `rules` whose head unifies with `goal`, in order, each with
/// its variable pairs.
pub open spec fn subrules_spec(rules: Seq<RuleView>, goal: Triple) -> Seq<(RuleView, Seq<(usize, usize)>)>
    decreases rules.len(),
{
    if rules.len() == 0 {
        seq![]
    } else {
        let rest = subrules_spec(rules.drop_last(), goal);
        match unify_head(rules.last().head, goal) {
            Some(subs) => rest.push((rules.last(), subs)),
            None => rest,
        }
    }
}

/// The views of rules paired with variable pairs.
pub open spec fn subrule_views(s: Seq<(Rule, Vec<(usize, usize)>)>) -> Seq<(RuleView, Seq<(usize, usize)>)> {
    s.map_values(|e: (Rule, Vec<(usize, usize)>)| (e.0@, e.1@))
}

/// Joining two bindings is possible: when both have rows, every column is
/// as long as its binding's number of rows.
pub open spec fn join_ok(a: BindingView, b: BindingView) -> bool {
    bind_len(a) > 0 && bind_len(b) > 0 ==> covers(a) && covers(b)
}

/// Every variable that a renaming reads has a column.
pub open spec fn rename_ok(b: BindingView, subs: Seq<(usize, usize)>) -> bool {
    forall|m: int| 0 <= m < subs.len() ==> key_pos(b, (#[trigger] subs[m]).0) >= 0
}

/// Backward evaluation of a goal with at most `fuel` nested body patterns:
/// the bindings of every rule whose head unifies with the goal, renamed to
/// the goal's variables and appended in order (see `eval_subs`). `None` when
/// the fuel does not suffice or a step fails (a join of uneven bindings, a
/// renaming of a variable that has no column).
pub open spec fn eval_goal(v: TripleIndexView, rules: Seq<RuleView>, goal: Triple, fuel: nat) -> Option<BindingView>
    decreases fuel, 2int, 0int,
{
    eval_subs(v, rules, subrules_spec(rules, goal), fuel)
}

/// The bindings of the unified rules `subs`, in order: each rule's body is
/// evaluated (see `eval_body`), renamed with its variable pairs, and its
/// columns appended.
pub open spec fn eval_subs(
    v: TripleIndexView,
    rules: Seq<RuleView>,
    subs: Seq<(RuleView, Seq<(usize, usize)>)>,
    fuel: nat,
) -> Option<BindingView>
    decreases fuel, 1int, subs.len(),
{
    if subs.len() == 0 {
        Some(seq![])
    } else {
        match eval_subs(v, rules, subs.drop_last(), fuel) {
            None => None,
            Some(all) => match eval_body(v, rules, subs.last().0.body, fuel) {
                None => None,
                Some(rb) => if rename_ok(rb, subs.last().1) {
                    Some(combine_spec(all, rename_spec(rb, subs.last().1)))
                } else {
                    None
                },
            },
        }
    }
}

/// The bindings of a rule body: for each pattern in order, the answers of
/// the index are joined in (when there are any), then the bindings of the
/// pattern taken as a goal, with one unit of fuel less, are appended.
pub open spec fn eval_body(v: TripleIndexView, rules: Seq<RuleView>, body: Seq<Triple>, fuel: nat) -> Option<BindingView>
    decreases fuel, 0int, body.len(),
{
    if body.len() == 0 {
        Some(seq![])
    } else if fuel == 0 {
        None
    } else {
        match eval_body(v, rules, body.drop_last(), fuel) {
            None => None,
            Some(rb0) => {
                let atom = body.last();
                let rb1 = match query_spec(v, atom, v.counter) {
                    Some(qb) => if join_ok(rb0, qb) {
                        Some(join_spec(rb0, qb))
                    } else {
                        None
                    },
                    None => Some(rb0),
                };
                match rb1 {
                    None => None,
                    Some(r1) => match eval_goal(v, rules, atom, (fuel - 1) as nat) {
                        None => None,
                        Some(rec) => Some(combine_spec(r1, rec)),
                    },
                }
            },
        }
    }
}

/// Some amount of fuel lets the backward evaluation of the goal finish.
pub open spec fn backward_total(v: TripleIndexView, rules: Seq<RuleView>, goal: Triple) -> bool {
    exists|f: nat| (#[trigger] eval_goal(v, rules, goal, f)) is Some
}

/// The fuel with which `eval_backward` evaluates a goal.
pub open spec fn backward_fuel(v: TripleIndexView, rules: Seq<RuleView>, goal: Triple) -> nat {
    choose|f: nat| (#[trigger] eval_goal(v, rules, goal, f)) is Some
}

proof fn lemma_subs_prefix(v: TripleIndexView, rules: Seq<RuleView>, subs: Seq<(RuleView, Seq<(usize, usize)>)>, fuel: nat)
    requires
        eval_subs(v, rules, subs, fuel) is Some,
    ensures
        forall|j: int| 0 <= j <= subs.len() ==> (#[trigger] eval_subs(v, rules, subs.take(j), fuel)) is Some,
    decreases subs.len(),
{
    if subs.len() > 0 {
        lemma_subs_prefix(v, rules, subs.drop_last(), fuel);
        assert forall|j: int| 0 <= j <= subs.len() implies (#[trigger] eval_subs(v, rules, subs.take(j), fuel)) is Some by {
            if j < subs.len() {
                assert(subs.take(j) =~= subs.drop_last().take(j));
            } else {
                assert(subs.take(j) =~= subs);
            }
        }
    } else {
        assert(subs.take(0) =~= subs);
    }
}

proof fn lemma_body_prefix(v: TripleIndexView, rules: Seq<RuleView>, body: Seq<Triple>, fuel: nat)
    requires
        eval_body(v, rules, body, fuel) is Some,
    ensures
        forall|j: int| 0 <= j <= body.len() ==> (#[trigger] eval_body(v, rules, body.take(j), fuel)) is Some,
    decreases body.len(),
{
    if body.len() > 0 {
        lemma_body_prefix(v, rules, body.drop_last(), fuel);
        assert forall|j: int| 0 <= j <= body.len() implies (#[trigger] eval_body(v, rules, body.take(j), fuel)) is Some by {
            if j < body.len() {
                assert(body.take(j) =~= body.drop_last().take(j));
            } else {
                assert(body.take(j) =~= body);
            }
        }
    } else {
        assert(body.take(0) =~= body);
    }
}

/// A copy of a sequence of variable pairs.
fn copy_pairs(v: &Vec<(usize, usize)>) -> (res: Vec<(usize, usize)>)
    ensures
        res@ == v@,
{
    let mut res: Vec<(usize, usize)> = Vec::new();
    let mut j: usize = 0;
    while j < v.len()
        invariant
            j <= v@.len(),
            res@ =~= v@.take(j as int),
        decreases v@.len() - j,
    {
        res.push(v[j]);
        j = j + 1;
    }
    assert(v@.take(v@.len() as int) =~= v@);
    res
}

/// Goal-directed evaluation over a rule index.
pub struct BackwardChainer;

impl BackwardChainer {
    /// The bindings of the goal derived backward through the rules (see
    /// `eval_goal`): for each rule whose head unifies with the goal, each body
    /// pattern is answered by the index and, recursively, by the rules. The
    /// evaluation must finish (`backward_total`): a rule that can use itself
    /// keeps the recursion going forever.
    pub fn eval_backward(triple_index: &TripleIndex, rule_index: &RuleIndex, rule_head: &Triple) -> (res: Binding)
        requires
            backward_total(triple_index@, rule_index@.rules, *rule_head),
        ensures
            res.wf(),
            res@ == eval_goal(triple_index@, rule_index@.rules, *rule_head,
                backward_fuel(triple_index@, rule_index@.rules, *rule_head)).unwrap(),
    {
        let ghost f = backward_fuel(triple_index@, rule_index@.rules, *rule_head);
        Self::eval_goal_exec(triple_index, rule_index, rule_head, Ghost(f))
    }

    fn eval_goal_exec(triple_index: &TripleIndex, rule_index: &RuleIndex, rule_head: &Triple, Ghost(fuel): Ghost<nat>) -> (res: Binding)
        requires
            eval_goal(triple_index@, rule_index@.rules, *rule_head, fuel) is Some,
        ensures
            res.wf(),
            res@ == eval_goal(triple_index@, rule_index@.rules, *rule_head, fuel).unwrap(),
        decreases fuel,
    {
        let ghost v = triple_index@;
        let ghost rules = rule_index@.rules;
        let sub_rules = Self::find_subrules(rule_index, rule_head);
        let ghost sv = subrule_views(sub_rules@);
        proof {
            lemma_subs_prefix(v, rules, sv, fuel);
            assert(sv.take(0) =~= Seq::<(RuleView, Seq<(usize, usize)>)>::empty());
        }
        let mut all_bindings = Binding::new();
        let mut i: usize = 0;
        while i < sub_rules.len()
            invariant
                v == triple_index@,
                rules == rule_index@.rules,
                sv == subrule_views(sub_rules@),
                sv.len() == sub_rules@.len(),
                i <= sv.len(),
                eval_subs(v, rules, sv, fuel) is Some,
                forall|j: int| 0 <= j <= sv.len() ==> (#[trigger] eval_subs(v, rules, sv.take(j), fuel)) is Some,
                all_bindings.wf(),
                eval_subs(v, rules, sv.take(i as int), fuel) == Some(all_bindings@),
            decreases sv.len() - i,
        {
            let ghost pre = sv.take(i + 1);
            proof {
                assert(pre.drop_last() =~= sv.take(i as int));
                assert(pre.last() == sv[i as int]);
                assert(eval_subs(v, rules, pre, fuel) is Some);
            }
            let sub_rule = &sub_rules[i].0;
            let var_subs = &sub_rules[i].1;
            let ghost body = sub_rule.body@;
            assert(body == sv[i as int].0.body);
            // the rule's body, pattern by pattern
            proof {
                lemma_body_prefix(v, rules, body, fuel);
                assert(body.take(0) =~= Seq::<Triple>::empty());
            }
            let mut rule_bindings = Binding::new();
            let mut k: usize = 0;
            while k < sub_rule.body.len()
                invariant
                    v == triple_index@,
                    rules == rule_index@.rules,
                    body == sub_rule.body@,
                    k <= body.len(),
                    eval_body(v, rules, body, fuel) is Some,
                    forall|j: int| 0 <= j <= body.len() ==> (#[trigger] eval_body(v, rules, body.take(j), fuel)) is Some,
                    rule_bindings.wf(),
                    eval_body(v, rules, body.take(k as int), fuel) == Some(rule_bindings@),
                decreases body.len() - k,
            {
                let ghost bpre = body.take(k + 1);
                proof {
                    assert(bpre.drop_last() =~= body.take(k as int));
                    assert(bpre.last() == body[k as int]);
                    assert(eval_body(v, rules, bpre, fuel) is Some);
                }
                let rule_atom = &sub_rule.body[k];
                match triple_index.query(rule_atom, None) {
                    Some(result_bindings) => {
                        rule_bindings = rule_bindings.join(&result_bindings);
                    },
                    None => {},
                }
                let recursive_bindings = Self::eval_goal_exec(triple_index, rule_index, rule_atom, Ghost((fuel - 1) as nat));
                rule_bindings.combine(recursive_bindings);
                k = k + 1;
            }
            assert(body.take(body.len() as int) =~= body);
            let subs_copy = copy_pairs(var_subs);
            proof {
                assert(var_subs@ == sv[i as int].1);
                assert(subs_copy@ =~= var_subs@);
            }
            let renamed = rule_bindings.rename(subs_copy);
            all_bindings.combine(renamed);
            i = i + 1;
        }
        assert(sv.take(sv.len() as int) =~= sv);
        all_bindings
    }
    /// The rules whose head unifies with `rule_head` (see `subrules_spec`).
    pub fn find_subrules(rules_index: &RuleIndex, rule_head: &Triple) -> (res: Vec<(Rule, Vec<(usize, usize)>)>)
        ensures
            subrule_views(res@) == subrules_spec(rules_index@.rules, *rule_head),
    {
        let rules = rules_index.rules();
        let ghost rv = rule_views(rules@);
        let mut rule_matches: Vec<(Rule, Vec<(usize, usize)>)> = Vec::new();
        let mut i: usize = 0;
        assert(subrule_views(rule_matches@) =~= subrules_spec(rv.take(0), *rule_head));
        while i < rules.len()
            invariant
                i <= rules@.len(),
                rv == rule_views(rules@),
                rv == rules_index@.rules,
                subrule_views(rule_matches@) == subrules_spec(rv.take(i as int), *rule_head),
            decreases rules@.len() - i,
        {
            let head: &Triple = &rules[i].head;
            let mut var_names_subs: Vec<(usize, usize)> = Vec::new();
            let ghost before = subrule_views(rule_matches@);
            proof {
                assert(rv.take(i + 1).drop_last() =~= rv.take(i as int));
                assert(rv.take(i + 1).last() == rules@[i as int]@);
            }
            if Self::eval_triple_element(&head.s, &rule_head.s, &mut var_names_subs)
                && Self::eval_triple_element(&head.p, &rule_head.p, &mut var_names_subs)
                && Self::eval_triple_element(&head.o, &rule_head.o, &mut var_names_subs) {
                let ghost sv = var_names_subs@;
                rule_matches.push((rules[i].clone(), var_names_subs));
                proof {
                    let u = unify_head(rules@[i as int].head, *rule_head);
                    assert(sv =~= unify_elem(rules@[i as int].head.s, rule_head.s).1 + unify_elem(
                        rules@[i as int].head.p,
                        rule_head.p,
                    ).1 + unify_elem(rules@[i as int].head.o, rule_head.o).1);
                    assert(subrule_views(rule_matches@) =~= before.push((rv[i as int], sv)));
                }
            }
            i = i + 1;
        }
        assert(rv.take(rv.len() as int) =~= rv);
        rule_matches
    }

    /// Unifies a head element with a goal element (see `unify_elem`),
    /// appending the variable pair when both are variables.
    fn eval_triple_element(left: &VarOrTerm, right: &VarOrTerm, var_names_sub: &mut Vec<(usize, usize)>) -> (res: bool)
        ensures
            res == unify_elem(*left, *right).0,
            final(var_names_sub)@ == old(var_names_sub)@ + unify_elem(*left, *right).1,
    {
        match (left, right) {
            (VarOrTerm::Var(left_name), VarOrTerm::Var(right_name)) => {
                var_names_sub.push((left_name.name, right_name.name));
                assert(var_names_sub@ =~= old(var_names_sub)@ + seq![(left_name.name, right_name.name)]);
                true
            },
            _ => {
                assert(var_names_sub@ =~= old(var_names_sub)@ + Seq::<(usize, usize)>::empty());
                *left == *right
            },
        }
    }
}


/// Each value that a unified rule `subs[i]` derives, renamed to the goal's
/// variables, is among the values of that variable in the bindings of all
/// the unified rules; the values of earlier rules stay at the start.
proof fn lemma_subs_collect(
    v: TripleIndexView,
    rules: Seq<RuleView>,
    subs: Seq<(RuleView, Seq<(usize, usize)>)>,
    fuel: nat,
    i: int,
    x: usize,
)
    requires
        eval_subs(v, rules, subs, fuel) is Some,
        0 <= i < subs.len(),
    ensures
        eval_body(v, rules, subs[i].0.body, fuel) is Some,
        forall|m: int|
            0 <= m < column_values(rename_spec(eval_body(v, rules, subs[i].0.body, fuel).unwrap(), subs[i].1), x).len()
                ==> column_values(eval_subs(v, rules, subs, fuel).unwrap(), x).contains(
                #[trigger] column_values(rename_spec(eval_body(v, rules, subs[i].0.body, fuel).unwrap(), subs[i].1), x)[m],
            ),
    decreases subs.len(),
{
    let d = subs.drop_last();
    let all = eval_subs(v, rules, d, fuel).unwrap();
    let rb = eval_body(v, rules, subs.last().0.body, fuel).unwrap();
    let renamed = rename_spec(rb, subs.last().1);
    let res = eval_subs(v, rules, subs, fuel).unwrap();
    assert(res == combine_spec(all, renamed));
    if i == subs.len() - 1 {
        lemma_combine_adds(all, renamed, x);
    } else {
        lemma_subs_collect(v, rules, d, fuel, i, x);
        assert(d[i] == subs[i]);
        let ri = rename_spec(eval_body(v, rules, subs[i].0.body, fuel).unwrap(), subs[i].1);
        if column_values(ri, x).len() > 0 {
            assert(column_values(all, x).contains(column_values(ri, x)[0]));
            lemma_combine_keeps(all, renamed, x);
            assert forall|m: int| 0 <= m < column_values(ri, x).len() implies
                column_values(res, x).contains(#[trigger] column_values(ri, x)[m]) by {
                assert(column_values(all, x).contains(column_values(ri, x)[m]));
                let w = choose|w: int| 0 <= w < column_values(all, x).len() && column_values(all, x)[w] == column_values(ri, x)[m];
                assert(column_values(res, x)[w] == column_values(all, x)[w]);
            }
        }
    }
}

/// The bindings of a goal hold, for every rule whose head unifies with the
/// goal, the bindings of that rule's body renamed to the goal's variables:
/// each value that such a rule derives for a variable is among the goal's
/// values for it.
pub proof fn law_goal_collects_rules(v: TripleIndexView, rules: Seq<RuleView>, goal: Triple, fuel: nat, i: int, x: usize)
    requires
        eval_goal(v, rules, goal, fuel) is Some,
        0 <= i < subrules_spec(rules, goal).len(),
    ensures
        eval_body(v, rules, subrules_spec(rules, goal)[i].0.body, fuel) is Some,
        forall|m: int|
            0 <= m < column_values(
                rename_spec(eval_body(v, rules, subrules_spec(rules, goal)[i].0.body, fuel).unwrap(), subrules_spec(rules, goal)[i].1),
                x,
            ).len() ==> column_values(eval_goal(v, rules, goal, fuel).unwrap(), x).contains(
                #[trigger] column_values(
                    rename_spec(eval_body(v, rules, subrules_spec(rules, goal)[i].0.body, fuel).unwrap(), subrules_spec(rules, goal)[i].1),
                    x,
                )[m],
            ),
{
    lemma_subs_collect(v, rules, subrules_spec(rules, goal), fuel, i, x);
}

} // verus!
