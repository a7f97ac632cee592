use vstd::prelude::*;

verus! {

/// The shape of a type: a leaf type name, one named member of an aggregate,
/// or a named aggregate whose members keep their declaration order.
///
/// A well-formed tree holds a `Type` in every name slot and only `Field`
/// entries in a `Struct`'s member list; rendering fails on any other tree.
#[derive(Debug, Eq, Hash)]
pub enum Signature {
    Type(String),
    Field { name: Box<Signature>, value: Box<Signature> },
    Struct { name: Box<Signature>, fields: Vec<Signature> },
}

/// The mathematical value of a `Signature`: the same tree over `Seq`s.
pub enum SigView {
    Type(Seq<char>),
    Field { name: Box<SigView>, value: Box<SigView> },
    Struct { name: Box<SigView>, fields: Seq<SigView> },
}

/// The view of each entry of a member list, in order.
pub open spec fn view_all(fields: Seq<Signature>) -> Seq<SigView>
    decreases fields,
{
    if fields.len() == 0 {
        Seq::empty()
    } else {
        view_all(fields.subrange(0, fields.len() - 1)).push(sig_view(fields[fields.len() - 1]))
    }
}

/// The view of a signature: each `String` as its characters, each `Vec`
/// as a `Seq`.
pub open spec fn sig_view(s: Signature) -> SigView
    decreases s,
{
    match s {
        Signature::Type(t) => SigView::Type(t@),
        Signature::Field { name, value } => SigView::Field {
            name: Box::new(sig_view(*name)),
            value: Box::new(sig_view(*value)),
        },
        Signature::Struct { name, fields } => SigView::Struct {
            name: Box::new(sig_view(*name)),
            fields: view_all(fields@),
        },
    }
}

/// `view_all` keeps the length and views each entry in place.
pub proof fn lemma_view_all(fields: Seq<Signature>)
    ensures
        view_all(fields).len() == fields.len(),
        forall|i: int| 0 <= i < fields.len() ==> #[trigger] view_all(fields)[i] == sig_view(fields[i]),
    decreases fields.len(),
{
    if fields.len() > 0 {
        lemma_view_all(fields.subrange(0, fields.len() - 1));
    }
}

/// A signature and its view have the same variant.
pub proof fn lemma_view_tag(s: Signature)
    ensures
        (s is Type) <==> (sig_view(s) is Type),
        (s is Field) <==> (sig_view(s) is Field),
        (s is Struct) <==> (sig_view(s) is Struct),
{
}

impl View for Signature {
    type V = SigView;

    open spec fn view(&self) -> SigView {
        sig_view(*self)
    }
}

/// Whether two signatures are the same tree: same variants, same names,
/// same members in the same order.
fn same_tree(a: &Signature, b: &Signature) -> (r: bool)
    ensures
        r == (a@ == b@),
    decreases a, 1int,
{
    proof {
        lemma_view_tag(*a);
        lemma_view_tag(*b);
    }
    match a {
        Signature::Type(x) => match b {
            Signature::Type(y) => {
                assert(a@ == SigView::Type(x@) && b@ == SigView::Type(y@));
                x.eq(y)
            },
            _ => false,
        },
        Signature::Field { name: n1, value: v1 } => match b {
            Signature::Field { name: n2, value: v2 } => {
                assert(a@ == SigView::Field { name: Box::new(sig_view(**n1)), value: Box::new(sig_view(**v1)) });
                assert(b@ == SigView::Field { name: Box::new(sig_view(**n2)), value: Box::new(sig_view(**v2)) });
                same_tree(n1, n2) && same_tree(v1, v2)
            },
            _ => false,
        },
        Signature::Struct { name: n1, fields: f1 } => match b {
            Signature::Struct { name: n2, fields: f2 } => {
                assert(a@ == SigView::Struct { name: Box::new(sig_view(**n1)), fields: view_all(f1@) });
                assert(b@ == SigView::Struct { name: Box::new(sig_view(**n2)), fields: view_all(f2@) });
                same_tree(n1, n2) && same_list(f1, f2)
            },
            _ => false,
        },
    }
}

/// Whether two member lists are the same trees in the same order.
fn same_list(f1: &Vec<Signature>, f2: &Vec<Signature>) -> (r: bool)
    ensures
        r == (view_all(f1@) == view_all(f2@)),
    decreases f1, 0int,
{
    proof {
        lemma_view_all(f1@);
        lemma_view_all(f2@);
    }
    if f1.len() != f2.len() {
        assert(view_all(f1@).len() != view_all(f2@).len());
        return false;
    }
    let mut i: usize = 0;
    while i < f1.len()
        invariant
            i <= f1.len(),
            f1.len() == f2.len(),
            view_all(f1@).len() == f1.len(),
            view_all(f2@).len() == f2.len(),
            forall|k: int| 0 <= k < f1.len() ==> #[trigger] view_all(f1@)[k] == sig_view(f1@[k]),
            forall|k: int| 0 <= k < f2.len() ==> #[trigger] view_all(f2@)[k] == sig_view(f2@[k]),
            forall|k: int| 0 <= k < i ==> view_all(f1@)[k] == #[trigger] view_all(f2@)[k],
        decreases f1.len() - i,
    {
        if !same_tree(&f1[i], &f2[i]) {
            assert(view_all(f1@)[i as int] != view_all(f2@)[i as int]);
            return false;
        }
        i = i + 1;
    }
    assert(view_all(f1@) =~= view_all(f2@));
    true
}

/// A copy of a signature, node by node.
fn copy_tree(s: &Signature) -> (r: Signature)
    ensures
        r@ == s@,
    decreases s, 1int,
{
    match s {
        Signature::Type(t) => Signature::Type(t.clone()),
        Signature::Field { name, value } => {
            let r = Signature::Field { name: Box::new(copy_tree(name)), value: Box::new(copy_tree(value)) };
            assert(r@ == SigView::Field { name: Box::new(sig_view(**name)), value: Box::new(sig_view(**value)) });
            r
        },
        Signature::Struct { name, fields } => {
            let r = Signature::Struct { name: Box::new(copy_tree(name)), fields: copy_list(fields) };
            assert(r@ == SigView::Struct { name: Box::new(sig_view(**name)), fields: view_all(fields@) });
            r
        },
    }
}

/// A copy of a member list, entry by entry.
fn copy_list(fs: &Vec<Signature>) -> (r: Vec<Signature>)
    ensures
        view_all(r@) == view_all(fs@),
    decreases fs, 0int,
{
    proof {
        lemma_view_all(fs@);
    }
    let mut out: Vec<Signature> = Vec::new();
    let mut i: usize = 0;
    while i < fs.len()
        invariant
            i <= fs.len(),
            out.len() == i,
            view_all(fs@).len() == fs.len(),
            forall|k: int| 0 <= k < fs.len() ==> #[trigger] view_all(fs@)[k] == sig_view(fs@[k]),
            forall|k: int| 0 <= k < i ==> #[trigger] sig_view(out@[k]) == sig_view(fs@[k]),
        decreases fs.len() - i,
    {
        let c = copy_tree(&fs[i]);
        out.push(c);
        i = i + 1;
    }
    proof {
        lemma_view_all(out@);
        assert(view_all(out@) =~= view_all(fs@));
    }
    out
}

impl Clone for Signature {
    fn clone(&self) -> (r: Signature)
        ensures
            r@ == self@,
    {
        copy_tree(self)
    }
}

impl PartialEq for Signature {
    fn eq(&self, other: &Signature) -> (r: bool) {
        same_tree(self, other)
    }
}

impl vstd::std_specs::cmp::PartialEqSpecImpl for Signature {
    open spec fn obeys_eq_spec() -> bool {
        true
    }

    open spec fn eq_spec(&self, other: &Signature) -> bool {
        self@ == other@
    }
}

} // verus!
