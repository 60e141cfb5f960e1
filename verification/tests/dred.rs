use std::rc::Rc;

use roxi::dred::DRed;
use roxi::triples::{Triple, VarOrTerm};

#[test]
fn dred_test() {
    let data = ":john :teaches :math.\n\
                :peter :teaches :math.\n\
                :john :teaches :physics.\n\
            {?s :teaches ?y.}=>{?s a :Person.}\n\
            {?s :teaches ?y.}=>{?y a :Course.}\n\
            {?s a :TA.}=>{?s a :Person.}\n\
            {?s a :Person.?s :teaches ?y.?y a :Course.}=>{?s a :TA.}";
    let mut dred = DRed::from(data);
    let inferred = dred.materialize();
    println!("{:?}", inferred);
    assert_eq!(9, dred.triple_index.len());

    let remove_triple = Triple {
        s: VarOrTerm::new_term(":john".to_string(), &mut dred.encoder),
        p: VarOrTerm::new_term(":teaches".to_string(), &mut dred.encoder),
        o: VarOrTerm::new_term(":math".to_string(), &mut dred.encoder),
        g: None,
    };

    dred.remove_ref(Rc::new(remove_triple));
    assert_eq!(8, dred.triple_index.len());
}

#[test]
fn removing_a_fact_without_support_takes_its_consequences() {
    let data = ":a :p :b.\n\
            {?x :p ?y.}=>{?x a :Q.}";
    let mut dred = DRed::from(data);
    dred.materialize();
    assert_eq!(2, dred.triple_index.len());
    let fact = Triple {
        s: VarOrTerm::new_term(":a".to_string(), &mut dred.encoder),
        p: VarOrTerm::new_term(":p".to_string(), &mut dred.encoder),
        o: VarOrTerm::new_term(":b".to_string(), &mut dred.encoder),
        g: None,
    };
    dred.remove_ref(Rc::new(fact));
    assert_eq!(0, dred.triple_index.len());
    assert!(!dred.triple_index.contains(&fact));
}

#[test]
fn consequence_with_other_support_is_put_back() {
    let data = ":a :p :b.\n\
            :a :p :c.\n\
            {?x :p ?y.}=>{?x a :Q.}";
    let mut dred = DRed::from(data);
    dred.materialize();
    assert_eq!(3, dred.triple_index.len());
    let fact = Triple {
        s: VarOrTerm::new_term(":a".to_string(), &mut dred.encoder),
        p: VarOrTerm::new_term(":p".to_string(), &mut dred.encoder),
        o: VarOrTerm::new_term(":b".to_string(), &mut dred.encoder),
        g: None,
    };
    let consequence = Triple {
        s: VarOrTerm::new_term(":a".to_string(), &mut dred.encoder),
        p: VarOrTerm::new_term("a".to_string(), &mut dred.encoder),
        o: VarOrTerm::new_term(":Q".to_string(), &mut dred.encoder),
        g: None,
    };
    dred.remove_ref(Rc::new(fact));
    assert_eq!(2, dred.triple_index.len());
    assert!(!dred.triple_index.contains(&fact));
    assert!(dred.triple_index.contains(&consequence));
}

#[test]
fn removed_fact_stays_out_even_when_a_rule_derives_it() {
    let data = ":a :p :b.\n\
            :a :r :b.\n\
            {?s :p ?o.}=>{?s :r ?o.}";
    let mut dred = DRed::from(data);
    dred.materialize();
    assert_eq!(2, dred.triple_index.len());
    let fact = Triple {
        s: VarOrTerm::new_term(":a".to_string(), &mut dred.encoder),
        p: VarOrTerm::new_term(":r".to_string(), &mut dred.encoder),
        o: VarOrTerm::new_term(":b".to_string(), &mut dred.encoder),
        g: None,
    };
    dred.remove_ref(Rc::new(fact));
    assert_eq!(1, dred.triple_index.len());
    assert!(!dred.triple_index.contains(&fact));
}
