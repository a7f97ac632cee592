use vstd::prelude::*;

use crate::mapper::{members_view, sequence_name, struct_view};
use crate::render::{render_view, RenderError};
use crate::signature::{SigView, Signature};

verus! {

/// A type that can describe its own shape.
///
/// Implementations return the tree `sig_spec()`, and that tree renders:
/// every name slot holds a `Type` and every member of an aggregate is a
/// `Field`.
pub trait Signaturize {
    /// The signature of the implementing type.
    spec fn sig_spec() -> SigView;

    fn signature() -> (r: Signature)
        ensures
            r@ == Self::sig_spec(),
            render_view(r@) is Some,
    ;
}

/// The leaf signature named `text`.
fn named(text: &str) -> (r: Signature)
    ensures
        r@ == SigView::Type(text@),
{
    Signature::leaf(String::from_str(text))
}

impl<T: Signaturize> Signaturize for Vec<T> {
    /// A leaf named `Vec<e>`, where `e` is the rendering of `T`'s signature.
    open spec fn sig_spec() -> SigView {
        SigView::Type(sequence_name(render_view(T::sig_spec())->0))
    }

    fn signature() -> (r: Signature) {
        let element = T::signature();
        Signature::sequence(&element).unwrap()
    }
}

impl Signaturize for str {
    open spec fn sig_spec() -> SigView {
        SigView::Type("String"@)
    }

    fn signature() -> (r: Signature) {
        named("String")
    }
}

impl Signaturize for bool {
    open spec fn sig_spec() -> SigView {
        SigView::Type("bool"@)
    }

    fn signature() -> (r: Signature) {
        named("bool")
    }
}

impl Signaturize for char {
    open spec fn sig_spec() -> SigView {
        SigView::Type("char"@)
    }

    fn signature() -> (r: Signature) {
        named("char")
    }
}

impl Signaturize for isize {
    open spec fn sig_spec() -> SigView {
        SigView::Type("isize"@)
    }

    fn signature() -> (r: Signature) {
        named("isize")
    }
}

impl Signaturize for i8 {
    open spec fn sig_spec() -> SigView {
        SigView::Type("i8"@)
    }

    fn signature() -> (r: Signature) {
        named("i8")
    }
}

impl Signaturize for i16 {
    open spec fn sig_spec() -> SigView {
        SigView::Type("i16"@)
    }

    fn signature() -> (r: Signature) {
        named("i16")
    }
}

impl Signaturize for i32 {
    open spec fn sig_spec() -> SigView {
        SigView::Type("i32"@)
    }

    fn signature() -> (r: Signature) {
        named("i32")
    }
}

impl Signaturize for i64 {
    open spec fn sig_spec() -> SigView {
        SigView::Type("i64"@)
    }

    fn signature() -> (r: Signature) {
        named("i64")
    }
}

impl Signaturize for i128 {
    open spec fn sig_spec() -> SigView {
        SigView::Type("i128"@)
    }

    fn signature() -> (r: Signature) {
        named("i128")
    }
}

impl Signaturize for usize {
    open spec fn sig_spec() -> SigView {
        SigView::Type("usize"@)
    }

    fn signature() -> (r: Signature) {
        named("usize")
    }
}

impl Signaturize for u8 {
    open spec fn sig_spec() -> SigView {
        SigView::Type("u8"@)
    }

    fn signature() -> (r: Signature) {
        named("u8")
    }
}

impl Signaturize for u16 {
    open spec fn sig_spec() -> SigView {
        SigView::Type("u16"@)
    }

    fn signature() -> (r: Signature) {
        named("u16")
    }
}

impl Signaturize for u32 {
    open spec fn sig_spec() -> SigView {
        SigView::Type("u32"@)
    }

    fn signature() -> (r: Signature) {
        named("u32")
    }
}

impl Signaturize for u64 {
    open spec fn sig_spec() -> SigView {
        SigView::Type("u64"@)
    }

    fn signature() -> (r: Signature) {
        named("u64")
    }
}

impl Signaturize for u128 {
    open spec fn sig_spec() -> SigView {
        SigView::Type("u128"@)
    }

    fn signature() -> (r: Signature) {
        named("u128")
    }
}

impl Signaturize for String {
    open spec fn sig_spec() -> SigView {
        SigView::Type("String"@)
    }

    fn signature() -> (r: Signature) {
        named("String")
    }
}

/// What a host's reflection layer reports about one type.
pub enum TypeFacts {
    /// A registered primitive, by its canonical name.
    Primitive(String),
    /// A homogeneous sequence, by the signature of its element type.
    Sequence(Signature),
    /// A named aggregate with its members in declaration order: each
    /// member's name and the signature of its type.
    Record { name: String, members: Vec<(String, Signature)> },
    /// A kind of type that has no signature (a sum type, a map, a tuple,
    /// a generic with several parameters), by kind and type name.
    Unsupported { kind: String, name: String },
}

/// Why no signature could be made from the reported facts.
#[derive(Debug, PartialEq, Eq)]
pub enum MapError {
    /// The type is of a kind that has no signature.
    UnsupportedKind { kind: String, name: String },
    /// The element signature of a sequence is malformed.
    MalformedElement,
}

impl Signature {
    /// The signature of the type that `facts` describe: a leaf for a
    /// primitive, a `Vec<..>` leaf for a sequence, an aggregate for a
    /// record. Fails for an unsupported kind, naming the kind and the type,
    /// and for a sequence whose element signature is malformed.
    pub fn from_facts(facts: TypeFacts) -> (r: Result<Signature, MapError>)
        ensures
            match facts {
                TypeFacts::Primitive(n) => r is Ok && r->Ok_0@ == SigView::Type(n@),
                TypeFacts::Sequence(e) => match render_view(e@) {
                    Some(t) => r is Ok && r->Ok_0@ == SigView::Type(sequence_name(t)),
                    None => r == Err::<Signature, MapError>(MapError::MalformedElement),
                },
                TypeFacts::Record { name, members } => r is Ok && r->Ok_0@ == struct_view(
                    name@,
                    members_view(members@),
                ),
                TypeFacts::Unsupported { kind, name } => r is Err && r->Err_0 is UnsupportedKind
                    && r->Err_0->UnsupportedKind_kind@ == kind@
                    && r->Err_0->UnsupportedKind_name@ == name@,
            },
    {
        match facts {
            TypeFacts::Primitive(n) => Ok(Signature::leaf(n)),
            TypeFacts::Sequence(e) => match Signature::sequence(&e) {
                Ok(s) => Ok(s),
                Err(_) => Err(MapError::MalformedElement),
            },
            TypeFacts::Record { name, members } => Ok(Signature::structure(name, members)),
            TypeFacts::Unsupported { kind, name } => Err(MapError::UnsupportedKind { kind, name }),
        }
    }
}

} // verus!
