use std::rc::Rc;

use roxi::bindings::Binding;
use roxi::imars_window::ImarsWindow;
use roxi::store::TripleStore;
use roxi::encoding::Encoder;
use roxi::parser::Parser;
use roxi::reasoner::{query, CSpriteReasoner, Reasoner};
use roxi::triples::{Rule, Triple, VarOrTerm};

fn same_rules(a: &[Rule], b: &[Rule]) -> bool {
    a.len() == b.len() && a.iter().zip(b.iter()).all(|(x, y)| x.head == y.head && x.body == y.body)
}

#[test]
fn test_rule_substitution() {
    let mut encoder = Encoder::new();
    let data = ":a in :b.\n\
                {?a in ?b.?b in ?c}=>{?a in ?c}\n\
                {:a in :b.:b in ?c}=>{:a in ?c}\n\
                {?a in :a.:a in :b}=>{?a in :b}";
    let (content, rules) = Parser::parse(data.to_string(), &mut encoder);
    let matching_triple = content.get(0).unwrap();
    let matching_rule = rules.get(0).unwrap();
    let results = Reasoner::substitute_rule(matching_triple, matching_rule);
    assert!(same_rules(&rules[1..], &results));
}

#[test]
fn test_reconstruct_from_bindings() {
    let mut encoder = Encoder::new();
    let data = "{?a in ?c}=>{?a in ?c}";
    let (_content, rules) = Parser::parse(data.to_string(), &mut encoder);
    let mut result_bindings: Binding = Binding::new();
    result_bindings.add(&0, 10);
    result_bindings.add(&2, 11);
    result_bindings.add(&3, 12);
    let val_triple = vec![vec![Triple {
        s: VarOrTerm::new_encoded_term(10),
        p: VarOrTerm::new_encoded_term(1),
        o: VarOrTerm::new_encoded_term(11),
        g: None,
    }]];
    for rule in rules {
        let triples = CSpriteReasoner::reconstruct_triples_from_bindings(&mut result_bindings, &rule);
        assert_eq!(val_triple, triples);
    }
}

#[test]
fn reconstruct_gives_one_body_per_row() {
    let mut encoder = Encoder::new();
    let (_c, rules) = Parser::parse("{?a in ?b.?b in ?c}=>{?a in ?c}".to_string(), &mut encoder);
    let mut b = Binding::new();
    // ?a = 0, in = 1, ?c = 2, ?b = 3
    b.add(&0, 20);
    b.add(&3, 21);
    b.add(&2, 22);
    b.add(&0, 30);
    b.add(&3, 31);
    b.add(&2, 32);
    let res = CSpriteReasoner::reconstruct_triples_from_bindings(&mut b, &rules[0]);
    assert_eq!(2, res.len());
    assert_eq!(2, res[1].len());
    assert_eq!(30, res[1][0].s.to_encoded());
    assert_eq!(31, res[1][0].o.to_encoded());
    assert_eq!(31, res[1][1].s.to_encoded());
    assert_eq!(32, res[1][1].o.to_encoded());
}

#[test]
fn csprite_decode_triple() {
    let mut encoder = Encoder::new();
    let s = VarOrTerm::new_term(":a".to_string(), &mut encoder);
    let p = VarOrTerm::new_term(":p".to_string(), &mut encoder);
    let o = VarOrTerm::new_term(":b".to_string(), &mut encoder);
    let t = Triple { s, p, o, g: None };
    assert_eq!(":a :p :b.\n", CSpriteReasoner::decode_triple(&t, &encoder));
}

#[test]
fn query_matches_pattern() {
    let q = Triple { s: VarOrTerm::new_encoded_var(5), p: VarOrTerm::new_encoded_term(1), o: VarOrTerm::new_encoded_var(6), g: None };
    let t = Triple { s: VarOrTerm::new_encoded_term(10), p: VarOrTerm::new_encoded_term(1), o: VarOrTerm::new_encoded_term(11), g: None };
    let b = query(&q, &t).unwrap();
    assert_eq!(Some(&vec![10]), b.get(&5));
    assert_eq!(Some(&vec![11]), b.get(&6));
    let t2 = Triple { s: VarOrTerm::new_encoded_term(10), p: VarOrTerm::new_encoded_term(2), o: VarOrTerm::new_encoded_term(11), g: None };
    assert!(query(&q, &t2).is_none());
}

#[test]
fn substitute_head_with_bindings_rows() {
    let head = Triple { s: VarOrTerm::new_encoded_var(0), p: VarOrTerm::new_encoded_term(1), o: VarOrTerm::new_encoded_term(9), g: None };
    let mut b = Binding::new();
    b.add(&0, 4);
    b.add(&0, 5);
    let heads = Reasoner::substitute_head_with_bindings(&head, &b);
    assert_eq!(2, heads.len());
    assert_eq!(4, heads[0].s.to_encoded());
    assert_eq!(5, heads[1].s.to_encoded());
    assert!(heads[1].s.is_term());
    let empty = Binding::new();
    let same = Reasoner::substitute_head_with_bindings(&head, &empty);
    assert_eq!(vec![head], same);
}

#[test]
fn csprite_materialize_stamps_inferences() {
    let mut store = TripleStore::from(":a a :A.\n{?x a :A}=>{?x a :B}");
    let fact = *store.triple_index.get(0).unwrap();
    let mut window: ImarsWindow<Triple> = ImarsWindow::new_no_window();
    window.add_without_update(Rc::new(fact), 5);
    let new_data = vec![(5, Rc::new(fact))];
    let mut reasoner = CSpriteReasoner;
    let inferred = reasoner.materialize(&new_data, &mut store.triple_index, &store.rules_index, &mut window, &store.encoder);
    assert_eq!(1, inferred.len());
    assert_eq!(5, inferred[0].0);
    assert_eq!(":a a :B.\n", CSpriteReasoner::decode_triple(&inferred[0].1, &store.encoder));
    assert_eq!(2, store.len());
    assert_eq!(2, window.len());
    assert_eq!(Some(5), window.get_time_stamp(inferred[0].1.clone()));
}

#[test]
fn ground_body_pattern_is_found_only_by_its_own_triple() {
    let mut encoder = Encoder::new();
    let body = Triple::from(":a".to_string(), ":in".to_string(), ":b".to_string(), &mut encoder);
    let head = Triple::from(":a".to_string(), ":in".to_string(), ":c".to_string(), &mut encoder);
    let rule = Rule { body: vec![body], head };
    let mut index = roxi::ruleindex::RuleIndex::new();
    index.add(&rule);
    assert_eq!(1, index.find_match(&body).len());
    let other = Triple::from(":a".to_string(), ":in".to_string(), ":d".to_string(), &mut encoder);
    assert_eq!(0, index.find_match(&other).len());
}
