use roxi::encoding::{Encoder, InternalEncoder};

#[test]
fn encoding_test_encoding() {
    let mut encoder = InternalEncoder::new();
    let _encoded1 = encoder.add("http://test/1".to_string());
    let encoded2 = encoder.add("http://test/2".to_string());
    let encoded3 = encoder.add("http://test/3".to_string());
    let decoded2 = encoder.decode(&encoded2);
    let decoded2_again = encoder.decode(&encoded2);
    assert_eq!("http://test/2", decoded2.unwrap());
    assert_eq!("http://test/2", decoded2_again.unwrap());
    assert_eq!(2, encoded3);
}

#[test]
fn test_encoding() {
    let mut encoder = Encoder::new();
    let encoded1 = encoder.add("http://test/1".to_string());
    let encoded2 = encoder.add("http://test/2".to_string());
    let encoded3 = encoder.add("http://test/3".to_string());
    let _decoded1 = encoder.decode(&encoded1);
    let decoded2 = encoder.decode(&encoded2);
    let decoded2_2 = encoder.decode(&encoded2);
    assert_eq!("http://test/2", decoded2.unwrap());
    assert_eq!("http://test/2", decoded2_2.unwrap());
    assert_eq!(2, encoded3);
}

#[test]
fn encoder_add_is_idempotent() {
    let mut encoder = Encoder::new();
    let a = encoder.add("<http://a>".to_string());
    let b = encoder.add("<http://b>".to_string());
    let a_again = encoder.add("<http://a>".to_string());
    assert_eq!(0, a);
    assert_eq!(1, b);
    assert_eq!(a, a_again);
    assert_eq!(Some(1), encoder.get("<http://b>"));
    assert_eq!(None, encoder.get("<http://c>"));
    assert!(encoder.decode(&7).is_none());
}
