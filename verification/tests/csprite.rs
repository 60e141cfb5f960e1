use std::rc::Rc;

use roxi::csprite::CSprite;
use roxi::encoding::Encoder;
use roxi::parser::Parser;
use roxi::triples::{Triple, VarOrTerm};

#[test]
fn test_sprite_compute() {
    let data = "<http://example2.com/a> a test:SubClass.\n\
                <http://example2.com/a> test:hasRef <http://example2.com/b>.\n\
                <http://example2.com/b> test:hasRef <http://example2.com/c>.\n\
                <http://example2.com/c> a test:SubClassH1.\n\
            {?s a test:SubClass.}=>{?s a test:SubClass2.}\n\
            {?s a test:SubClass2.}=>{?s a test:SubClass.}\n\
            {?s a test:SubClass0.}=>{?s a test:SubClass2.}\n\
            {?s a test:SubClass01.}=>{?s a test:SubClass0.}\n\
            {?s a test:SubClassH1.}=>{?s a test:SubClassH.}\n\
            {?s a test:SubClassH2.}=>{?s a test:SubClassH1.}\n\
            {?s a test:SubClassH22.}=>{?s a test:SubClassH1.}\n\
            {?s a test:SubClass2.?s test:hasRef ?b.?b test:hasRef ?c.?c a test:SubClassH.}=>{?s a test:SuperType.}\n\
            {?super a test:SuperType.}=>{?super a test:SuperType3.}";
    let mut store = CSprite::from(data);

    let encoder = &mut store.encoder;
    let backward_head = Triple {
        s: VarOrTerm::new_var("?newVar".to_string(), encoder),
        p: VarOrTerm::new_term("a".to_string(), encoder),
        o: VarOrTerm::new_term("test:SuperType".to_string(), encoder),
        g: None,
    };

    let validation_triple = Triple {
        s: VarOrTerm::new_term("<http://example2.com/a>".to_string(), encoder),
        p: VarOrTerm::new_term("a".to_string(), encoder),
        o: VarOrTerm::new_term("test:SuperType".to_string(), encoder),
        g: None,
    };

    store.compute_sprite(&backward_head);
    store.materialize();
    assert_eq!(true, store.triple_index.contains(&validation_triple));
    assert_eq!(7, store.len());
}

#[test]
fn test_sprite_compute_hierarchy() {
    let size = 10;
    let mut data = String::new();
    for i in 0..size {
        data += &format!("<http://example2.com/a{}> a test:SubClass0.\n", i);
        data += &format!("{{?s a test:SubClass{}.}}=>{{?s a test:SubClass{}.}}\n", i, (i + 1));
    }
    let mut store = CSprite::from(data.as_str());

    let backward_head = Triple {
        s: VarOrTerm::new_var("?newVar".to_string(), &mut store.encoder),
        p: VarOrTerm::new_term("a".to_string(), &mut store.encoder),
        o: VarOrTerm::new_term(format!("test:SubClass{}", size), &mut store.encoder),
        g: None,
    };

    assert_eq!(size, store.len());
    store.compute_sprite(&backward_head);
    store.materialize();
    assert_eq!(2 * size, store.len());
}

#[test]
fn test_rewrite_hierarchy_csprite() {
    let mut encoder = Encoder::new();
    let data = "<http://example2.com/a> a test:SubClass.\n\
            {?s a test:SubClassH1.}=>{?s a test:SubClassH.}\n\
            {?s a test:SubClassH2.}=>{?s a test:SubClassH1.}\n\
            {?s a test:SubClassH3.}=>{?s a test:SubClassH2.}";
    let (_content, rules) = Parser::parse(data.to_string(), &mut encoder);
    let rewritten_rules = CSprite::rewrite_hierarchy(&rules);
    assert_eq!(3, rewritten_rules.len());
    for r in rewritten_rules.iter() {
        assert!(r.head == rules[0].head);
    }
    for (r, orig) in rewritten_rules.iter().zip(rules.iter()) {
        assert!(r.body == orig.body);
    }
}

#[test]
fn backward_search_finds_the_closure() {
    let data = "{?s a test:B.}=>{?s a test:A.}\n\
            {?s a test:C.}=>{?s a test:B.}\n\
            {?s a test:X.}=>{?s a test:Y.}";
    let mut store = CSprite::from(data);
    let head = Triple {
        s: VarOrTerm::new_var("?q".to_string(), &mut store.encoder),
        p: VarOrTerm::new_term("a".to_string(), &mut store.encoder),
        o: VarOrTerm::new_term("test:A".to_string(), &mut store.encoder),
        g: None,
    };
    let (rules, hierarchies) = store.eval_backward_csprite(&head);
    assert_eq!(2, rules.len());
    assert_eq!(1, hierarchies.len());
    assert_eq!(2, hierarchies[0].len());
    let (rules2, _h2) = store.eval_backward_csprite_helper_with_stack(&head);
    assert_eq!(2, rules2.len());
}

#[test]
fn decode_stamped_triples() {
    let mut store = CSprite::from("<http://a> <http://p> <http://b>.");
    let t = store.triple_index.get(0).unwrap().clone();
    let s = CSprite::decode_triples(&vec![(3, Rc::new(t)), (-12, Rc::new(t))], &store.encoder);
    assert_eq!("<http://a> <http://p> <http://b> @ 3.\n<http://a> <http://p> <http://b> @ -12.\n", s);
    store.clear();
    assert_eq!(0, store.len());
}

#[test]
fn window_update_adds_and_expires() {
    let data = "{?a in ?b.?b in ?c}=>{?a in ?c}";
    let mut store = CSprite::from(data);
    let (content, _rules) = Parser::parse(":1 in :0.\n:2 in :1.\n:3 in :2".to_string(), &mut store.encoder);
    let first: Vec<(i32, Rc<Triple>)> = vec![(0, Rc::new(content[0])), (1, Rc::new(content[1]))];
    store.window_update(first, Vec::new(), &0);
    // the two triples and the one inferred from them
    assert_eq!(3, store.len());
    let second: Vec<(i32, Rc<Triple>)> = vec![(5, Rc::new(content[2]))];
    store.window_update(second, Vec::new(), &1);
    // everything stamped 0 or 1 expired (the inference carries stamp 0)
    assert_eq!(1, store.len());
    assert!(store.triple_index.contains(&content[2]));
}
