use signaturize::codec::{END, FIELD_TAG, STRUCT_TAG, TYPE_TAG};
use signaturize::reflect::Signaturize;
use signaturize::signature::Signature;

fn ty(name: &str) -> Signature {
    Signature::Type(name.to_string())
}

fn point() -> Signature {
    Signature::structure(
        "Point".to_string(),
        vec![("x".to_string(), i32::signature()), ("y".to_string(), i32::signature())],
    )
}

fn line() -> Signature {
    Signature::structure(
        "Line".to_string(),
        vec![("start".to_string(), point()), ("end".to_string(), point())],
    )
}

#[test]
fn round_trip_gives_equal_signatures() {
    for s in [ty("i32"), ty(""), ty("Vec<é>"), point(), line(), Signature::structure("E".to_string(), vec![])] {
        let words = s.serialize();
        assert_eq!(Signature::deserialize(&words), Some(s));
    }
}

#[test]
fn round_trip_keeps_malformed_trees() {
    let bad = Signature::Struct { name: Box::new(ty("S")), fields: vec![ty("x")] };
    let words = bad.serialize();
    assert_eq!(Signature::deserialize(&words), Some(bad));
}

#[test]
fn serialize_writes_markers_and_scalar_values() {
    assert_eq!(ty("ab").serialize(), vec![TYPE_TAG, 97, 98, END]);
    let f = Signature::Field { name: Box::new(ty("a")), value: Box::new(ty("é")) };
    assert_eq!(f.serialize(), vec![FIELD_TAG, TYPE_TAG, 97, END, TYPE_TAG, 0xE9, END]);
    let s = Signature::Struct { name: Box::new(ty("S")), fields: vec![] };
    assert_eq!(s.serialize(), vec![STRUCT_TAG, TYPE_TAG, 83, END, END]);
}

#[test]
fn deserialize_reads_scalar_values() {
    assert_eq!(Signature::deserialize(&vec![TYPE_TAG, 0x1F600, 104, END]), Some(ty("\u{1F600}h")));
}

#[test]
fn deserialize_refuses_what_is_no_encoding() {
    assert_eq!(Signature::deserialize(&vec![]), None);
    assert_eq!(Signature::deserialize(&vec![TYPE_TAG, 97]), None);
    assert_eq!(Signature::deserialize(&vec![TYPE_TAG, 97, END, END]), None);
    assert_eq!(Signature::deserialize(&vec![TYPE_TAG, 0xD800, END]), None);
    assert_eq!(Signature::deserialize(&vec![FIELD_TAG, TYPE_TAG, 97, END]), None);
    assert_eq!(Signature::deserialize(&vec![STRUCT_TAG, TYPE_TAG, 83, END]), None);
    assert_eq!(Signature::deserialize(&vec![97]), None);
}
