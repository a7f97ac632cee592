use vstd::prelude::*;

use crate::render::{render_view, RenderError};
use crate::signature::{lemma_view_all, sig_view, view_all, SigView, Signature};

verus! {

/// A member as its host reports it: its name and the view of its type's signature.
pub open spec fn member_field(m: (Seq<char>, SigView)) -> SigView {
    SigView::Field { name: Box::new(SigView::Type(m.0)), value: Box::new(m.1) }
}

/// The view of a list of reported members.
pub open spec fn members_view(m: Seq<(String, Signature)>) -> Seq<(Seq<char>, SigView)> {
    Seq::new(m.len(), |i: int| (m[i].0@, m[i].1@))
}

/// The signature of the aggregate `name` with the members `members`, in order.
pub open spec fn struct_view(name: Seq<char>, members: Seq<(Seq<char>, SigView)>) -> SigView {
    SigView::Struct {
        name: Box::new(SigView::Type(name)),
        fields: Seq::new(members.len(), |i: int| member_field(members[i])),
    }
}

/// The name of a sequence type whose element renders as `element`.
pub open spec fn sequence_name(element: Seq<char>) -> Seq<char> {
    seq!['V', 'e', 'c', '<'] + element + seq!['>']
}

impl Signature {
    /// The signature of a leaf type named `name`.
    pub fn leaf(name: String) -> (r: Signature)
        ensures
            r@ == SigView::Type(name@),
    {
        Signature::Type(name)
    }

    /// The signature of a homogeneous sequence: a leaf named `Vec<e>`, where
    /// `e` is the rendering of `element`. Fails when `element` is malformed.
    pub fn sequence(element: &Signature) -> (r: Result<Signature, RenderError>)
        ensures
            match render_view(element@) {
                Some(t) => r is Ok && r->Ok_0@ == SigView::Type(sequence_name(t)),
                None => r == Err::<Signature, RenderError>(RenderError::MalformedTree),
            },
    {
        match element.render() {
            Ok(t) => {
                let mut name = String::from_str("Vec<");
                name.append(t.as_str());
                name.append(">");
                proof {
                    reveal_strlit("Vec<");
                    reveal_strlit(">");
                    assert(name@ =~= sequence_name(t@));
                }
                Ok(Signature::Type(name))
            },
            Err(e) => Err(e),
        }
    }

    /// The signature of the aggregate `name` whose members, in
    /// declaration order, are the pairs of a member name and its type's
    /// signature.
    pub fn structure(name: String, members: Vec<(String, Signature)>) -> (r: Signature)
        ensures
            r@ == struct_view(name@, members_view(members@)),
    {
        let ghost mv = members_view(members@);
        let ghost all = members@;
        let mut rest = members;
        let mut fields: Vec<Signature> = Vec::new();
        while rest.len() > 0
            invariant
                fields.len() + rest.len() == all.len(),
                mv == members_view(all),
                rest@ == all.subrange(fields.len() as int, all.len() as int),
                forall|i: int| 0 <= i < fields.len() ==> #[trigger] sig_view(fields@[i]) == member_field(mv[i]),
            decreases rest.len(),
        {
            let ghost k = fields.len() as int;
            let (n, s) = rest.remove(0);
            assert(all[k] == (n, s));
            let field = Signature::Field { name: Box::new(Signature::Type(n)), value: Box::new(s) };
            assert(mv[k] == (n@, s@));
            assert(sig_view(Signature::Type(n)) == SigView::Type(n@));
            assert(field@ == member_field(mv[k]));
            let ghost before = fields@;
            fields.push(field);
            assert(forall|i: int| 0 <= i < k ==> fields@[i] == before[i]);
            assert(rest@ =~= all.subrange(fields.len() as int, all.len() as int));
        }
        proof {
            lemma_view_all(fields@);
            assert(fields.len() == mv.len());
            assert(view_all(fields@) =~= Seq::new(mv.len(), |i: int| member_field(mv[i])));
        }
        let ghost fv = view_all(fields@);
        let head = Signature::Type(name);
        assert(sig_view(head) == SigView::Type(name@));
        let r = Signature::Struct { name: Box::new(head), fields };
        assert(r@ == SigView::Struct { name: Box::new(SigView::Type(name@)), fields: fv });
        r
    }
}

} // verus!
