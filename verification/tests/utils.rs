use roxi::encoding::Encoder;
use roxi::triples::{Rule, Triple, VarOrTerm};
use roxi::utils::Utils;

#[test]
fn test_remove_literal_tages() {
    let literal = "\"10\"^^<http://www.w3.org/2001/XMLSchema#integer>";
    let expected = "10".to_string();
    assert_eq!(expected, Utils::remove_literal_tags(literal));
}

#[test]
fn remove_literal_tags_without_type_keeps_text() {
    assert_eq!("plain".to_string(), Utils::remove_literal_tags("plain"));
}

#[test]
fn decode_triple_and_rule() {
    let mut encoder = Encoder::new();
    let s = VarOrTerm::new_term("<http://a>".to_string(), &mut encoder);
    let p = VarOrTerm::new_term("<http://p>".to_string(), &mut encoder);
    let o = VarOrTerm::new_var("x".to_string(), &mut encoder);
    let t = Triple { s, p, o, g: None };
    assert_eq!("<http://a> <http://p> x", Utils::decode_triple(&encoder, &t));
    let rule = Rule { body: vec![t], head: t };
    assert_eq!("{<http://a> <http://p> x,}=>{<http://a> <http://p> x}", Utils::decode_rule(&encoder, &rule));
}
