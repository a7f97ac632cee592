use std::collections::hash_map::DefaultHasher;
use std::hash::{Hash, Hasher};

use signaturize::reflect::{MapError, Signaturize, TypeFacts};
use signaturize::render::RenderError;
use signaturize::signature::Signature;

fn ty(name: &str) -> Signature {
    Signature::Type(name.to_string())
}

fn field(name: &str, value: Signature) -> Signature {
    Signature::Field { name: Box::new(ty(name)), value: Box::new(value) }
}

fn point() -> Signature {
    Signature::structure(
        "Point".to_string(),
        vec![("x".to_string(), i32::signature()), ("y".to_string(), i32::signature())],
    )
}

fn line() -> Signature {
    Signature::structure(
        "Line".to_string(),
        vec![("start".to_string(), point()), ("end".to_string(), point())],
    )
}

fn hash_of(s: &Signature) -> u64 {
    let mut h = DefaultHasher::new();
    s.hash(&mut h);
    h.finish()
}

#[test]
fn leaf_renders_its_name() {
    assert_eq!(ty("i32").render(), Ok("i32".to_string()));
    assert_eq!(Signature::leaf("i32".to_string()), ty("i32"));
}

#[test]
fn field_renders_name_and_value() {
    assert_eq!(field("age", ty("i32")).render(), Ok("age: i32".to_string()));
}

#[test]
fn flat_struct_renders_one_line_per_member() {
    assert_eq!(point().render(), Ok("Point {\n    x: i32\n    y: i32\n}".to_string()));
}

#[test]
fn nested_struct_expands_inline() {
    let expected = "Line {\n    start: Point {\n        x: i32\n        y: i32\n    }\n    end: Point {\n        x: i32\n        y: i32\n    }\n}";
    assert_eq!(line().render(), Ok(expected.to_string()));
}

#[test]
fn sequence_of_primitive_is_a_leaf() {
    let s = <Vec<i32>>::signature();
    assert_eq!(s, ty("Vec<i32>"));
    assert_eq!(s.render(), Ok("Vec<i32>".to_string()));
    assert_eq!(Signature::sequence(&ty("i32")), Ok(ty("Vec<i32>")));
    assert_eq!(<Vec<Vec<u8>>>::signature(), ty("Vec<Vec<u8>>"));
}

#[test]
fn sequence_of_malformed_element_fails() {
    let bad = Signature::Struct { name: Box::new(ty("S")), fields: vec![ty("x")] };
    assert_eq!(Signature::sequence(&bad), Err(RenderError::MalformedTree));
}

#[test]
fn empty_struct_renders_two_lines() {
    let s = Signature::structure("Name".to_string(), vec![]);
    assert_eq!(s.render(), Ok("Name {\n}".to_string()));
    let lines = Signature::fmt_struct(&ty("Name"), &vec![], 0).unwrap();
    assert_eq!(lines, vec!["Name {".to_string(), "}".to_string()]);
}

#[test]
fn member_order_is_kept() {
    let swapped = Signature::structure(
        "Point".to_string(),
        vec![("y".to_string(), i32::signature()), ("x".to_string(), i32::signature())],
    );
    assert_ne!(swapped, point());
    assert_ne!(swapped.render(), point().render());
    assert_eq!(swapped.render(), Ok("Point {\n    y: i32\n    x: i32\n}".to_string()));
}

#[test]
fn bare_type_member_fails_to_render() {
    let bad = Signature::Struct { name: Box::new(ty("Point")), fields: vec![ty("i32")] };
    assert_eq!(bad.render(), Err(RenderError::MalformedTree));
    let nested = field("p", bad);
    assert_eq!(nested.render(), Err(RenderError::MalformedTree));
}

#[test]
fn non_type_name_fails_to_render() {
    let bad_struct = Signature::Struct { name: Box::new(field("a", ty("b"))), fields: vec![] };
    assert_eq!(bad_struct.render(), Err(RenderError::MalformedTree));
    let bad_field = Signature::Field { name: Box::new(point()), value: Box::new(ty("i32")) };
    assert_eq!(bad_field.render(), Err(RenderError::MalformedTree));
}

#[test]
fn fmt_struct_indents_by_level() {
    let fields = vec![field("x", ty("i32"))];
    let lines = Signature::fmt_struct(&ty("P"), &fields, 2).unwrap();
    assert_eq!(
        lines,
        vec!["        P {".to_string(), "            x: i32".to_string(), "        }".to_string()]
    );
    assert_eq!(
        Signature::fmt_struct(&ty("P"), &vec![ty("x")], 0),
        Err(RenderError::MalformedTree)
    );
}

#[test]
fn field_with_struct_value_renders_struct_text() {
    assert_eq!(field("p", point()).render(), Ok("p: Point {\n    x: i32\n    y: i32\n}".to_string()));
}

#[test]
fn independent_builds_are_equal_with_equal_hashes() {
    assert_eq!(line(), line());
    assert_eq!(hash_of(&line()), hash_of(&line()));
    assert_eq!(hash_of(&point()), hash_of(&point()));
    assert_ne!(point(), line());
    assert_ne!(ty("i32"), field("i32", ty("i32")));
}

#[test]
fn primitives_have_their_names() {
    assert_eq!(bool::signature(), ty("bool"));
    assert_eq!(char::signature(), ty("char"));
    assert_eq!(u128::signature(), ty("u128"));
    assert_eq!(isize::signature(), ty("isize"));
    assert_eq!(String::signature(), ty("String"));
    assert_eq!(str::signature(), ty("String"));
}

#[test]
fn facts_map_to_signatures() {
    assert_eq!(Signature::from_facts(TypeFacts::Primitive("u8".to_string())), Ok(ty("u8")));
    assert_eq!(Signature::from_facts(TypeFacts::Sequence(ty("u8"))), Ok(ty("Vec<u8>")));
    let record = TypeFacts::Record {
        name: "Point".to_string(),
        members: vec![("x".to_string(), ty("i32")), ("y".to_string(), ty("i32"))],
    };
    assert_eq!(Signature::from_facts(record), Ok(point()));
}

#[test]
fn unsupported_kind_names_kind_and_type() {
    let facts = TypeFacts::Unsupported { kind: "enum".to_string(), name: "Color".to_string() };
    assert_eq!(
        Signature::from_facts(facts),
        Err(MapError::UnsupportedKind { kind: "enum".to_string(), name: "Color".to_string() })
    );
    let bad = Signature::Struct { name: Box::new(ty("S")), fields: vec![ty("x")] };
    assert_eq!(Signature::from_facts(TypeFacts::Sequence(bad)), Err(MapError::MalformedElement));
}

#[test]
fn clone_is_an_equal_tree() {
    let l = line();
    let c = l.clone();
    assert_eq!(c, l);
    assert_eq!(hash_of(&c), hash_of(&l));
    assert_eq!(c.render(), l.render());
}

#[test]
fn str_and_string_share_a_signature() {
    assert_eq!(str::signature(), String::signature());
    assert_eq!(<Vec<String>>::signature(), ty("Vec<String>"));
}

#[test]
fn stray_entry_inside_nested_struct_fails() {
    let inner = Signature::Struct { name: Box::new(ty("Inner")), fields: vec![ty("oops")] };
    let outer = Signature::Struct {
        name: Box::new(ty("Outer")),
        fields: vec![field("a", ty("i32")), field("inner", inner)],
    };
    assert_eq!(outer.render(), Err(RenderError::MalformedTree));
    if let Signature::Struct { name, fields } = &outer {
        assert_eq!(Signature::fmt_struct(name, fields, 1), Err(RenderError::MalformedTree));
    }
}
