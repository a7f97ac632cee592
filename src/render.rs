use vstd::prelude::*;

use crate::signature::{lemma_view_all, sig_view, view_all, SigView, Signature};

verus! {

/// Why a signature could not be rendered.
#[derive(Debug, PartialEq, Eq)]
pub enum RenderError {
    /// A name slot holds something other than a `Type`, or a `Struct`'s
    /// member list holds something other than a `Field`.
    MalformedTree,
}

/// One level of indentation: four spaces.
pub open spec fn indent_unit() -> Seq<char> {
    seq![' ', ' ', ' ', ' ']
}

/// The indentation of nesting depth `depth`.
pub open spec fn indentation(depth: nat) -> Seq<char>
    decreases depth,
{
    if depth == 0 {
        Seq::empty()
    } else {
        indentation((depth - 1) as nat) + indent_unit()
    }
}

/// The lines joined by a newline between each two neighbours.
pub open spec fn join_lines(lines: Seq<Seq<char>>) -> Seq<char>
    decreases lines.len(),
{
    if lines.len() == 0 {
        Seq::empty()
    } else if lines.len() == 1 {
        lines[0]
    } else {
        join_lines(lines.subrange(0, lines.len() - 1)) + seq!['\n'] + lines[lines.len() - 1]
    }
}

/// The canonical text of a signature, or `None` for a malformed tree.
pub open spec fn render_view(s: SigView) -> Option<Seq<char>>
    decreases s, 3int,
{
    match s {
        SigView::Type(t) => Some(t),
        SigView::Field { name, value } => match (*name, render_view(*value)) {
            (SigView::Type(n), Some(v)) => Some(n + seq![':', ' '] + v),
            _ => None,
        },
        SigView::Struct { name, fields } => match struct_lines(Seq::empty(), Seq::empty(), *name, fields) {
            Some(lines) => Some(join_lines(lines)),
            None => None,
        },
    }
}

/// The lines of the aggregate `name` with members `fields`, its opening and
/// closing lines indented by `ind`, and `label` written before its name.
pub open spec fn struct_lines(
    label: Seq<char>,
    ind: Seq<char>,
    name: SigView,
    fields: Seq<SigView>,
) -> Option<Seq<Seq<char>>>
    decreases fields, 2int,
{
    match (name, member_lines(ind + indent_unit(), fields)) {
        (SigView::Type(n), Some(body)) => Some(
            seq![ind + label + n + seq![' ', '{']] + body + seq![ind + seq!['}']],
        ),
        _ => None,
    }
}

/// The lines of the members `fields`, in order, each indented by `ind`.
pub open spec fn member_lines(ind: Seq<char>, fields: Seq<SigView>) -> Option<Seq<Seq<char>>>
    decreases fields, 1int,
{
    if fields.len() == 0 {
        Some(Seq::empty())
    } else {
        match (
            member_lines(ind, fields.subrange(0, fields.len() - 1)),
            member_entry(ind, fields[fields.len() - 1]),
        ) {
            (Some(a), Some(b)) => Some(a + b),
            _ => None,
        }
    }
}

/// The lines of one member: a nested aggregate is expanded in place, with
/// the member's name before its own; any other value takes one line.
pub open spec fn member_entry(ind: Seq<char>, f: SigView) -> Option<Seq<Seq<char>>>
    decreases f, 0int,
{
    match f {
        SigView::Field { name, value } => match *name {
            SigView::Type(n) => match *value {
                SigView::Struct { name: sn, fields: sf } => struct_lines(
                    n + seq![':', ' '],
                    ind,
                    *sn,
                    sf,
                ),
                _ => match render_view(*value) {
                    Some(v) => Some(seq![ind + n + seq![':', ' '] + v]),
                    None => None,
                },
            },
            _ => None,
        },
        _ => None,
    }
}

/// `r` holds the text `t`, or both are absent.
pub open spec fn same_text(r: Option<String>, t: Option<Seq<char>>) -> bool {
    match (r, t) {
        (Some(a), Some(b)) => a@ == b,
        (None, None) => true,
        _ => false,
    }
}

/// `r` holds the lines `t`, or both are absent.
pub open spec fn same_lines(r: Option<Vec<String>>, t: Option<Seq<Seq<char>>>) -> bool {
    match (r, t) {
        (Some(a), Some(b)) => a.deep_view() == b,
        (None, None) => true,
        _ => false,
    }
}

fn push_all(out: &mut Vec<String>, more: &Vec<String>)
    ensures
        final(out).deep_view() == old(out).deep_view() + more.deep_view(),
{
    let mut j: usize = 0;
    while j < more.len()
        invariant
            j <= more.len(),
            out.deep_view() == old(out).deep_view() + more.deep_view().subrange(0, j as int),
        decreases more.len() - j,
    {
        let line = more[j].clone();
        let ghost prev = out.deep_view();
        out.push(line);
        assert(out.deep_view() =~= prev.push(line@));
        j = j + 1;
        assert(out.deep_view() =~= old(out).deep_view() + more.deep_view().subrange(0, j as int));
    }
    assert(more.deep_view().subrange(0, more.len() as int) =~= more.deep_view());
}

fn join(lines: &Vec<String>) -> (r: String)
    ensures
        r@ == join_lines(lines.deep_view()),
{
    let mut out = String::new();
    let mut i: usize = 0;
    while i < lines.len()
        invariant
            i <= lines.len(),
            out@ == join_lines(lines.deep_view().subrange(0, i as int)),
        decreases lines.len() - i,
    {
        proof {
            reveal_strlit("\n");
        }
        let ghost before = lines.deep_view().subrange(0, i as int);
        if i > 0 {
            out.append("\n");
        }
        out.append(lines[i].as_str());
        i = i + 1;
        proof {
            let now = lines.deep_view().subrange(0, i as int);
            assert(now.subrange(0, now.len() - 1) =~= before);
            if i == 1 {
                assert(out@ =~= now[0]);
            }
        }
    }
    assert(lines.deep_view().subrange(0, lines.len() as int) =~= lines.deep_view());
    out
}

fn render_sig(s: &Signature) -> (r: Option<String>)
    ensures
        same_text(r, render_view(s@)),
    decreases s, 3int,
{
    match s {
        Signature::Type(t) => Some(t.clone()),
        Signature::Field { name, value } => match &**name {
            Signature::Type(n) => match render_sig(value) {
                Some(v) => {
                    let mut out = n.clone();
                    out.append(": ");
                    out.append(v.as_str());
                    proof {
                        reveal_strlit(": ");
                        assert(s@ == SigView::Field {
                            name: Box::new(SigView::Type(n@)),
                            value: Box::new(sig_view(**value)),
                        });
                        assert(render_view(sig_view(**value)) == Some(v@));
                        assert(out@ =~= n@ + seq![':', ' '] + v@);
                    }
                    Some(out)
                },
                None => None,
            },
            _ => {
                assert(!(sig_view(**name) is Type));
                None
            },
        },
        Signature::Struct { name, fields } => {
            let empty = String::new();
            proof {
                reveal_strlit("");
            }
            assert(s@ == SigView::Struct { name: Box::new(sig_view(**name)), fields: view_all(fields@) });
            match lines_of_struct("", &empty, name, fields) {
                Some(lines) => Some(join(&lines)),
                None => None,
            }
        },
    }
}

fn lines_of_struct(label: &str, ind: &String, name: &Signature, fields: &Vec<Signature>) -> (r:
    Option<Vec<String>>)
    ensures
        same_lines(r, struct_lines(label@, ind@, name@, view_all(fields@))),
    decreases fields, 2int,
{
    let ghost fv = view_all(fields@);
    proof {
        lemma_view_all(fields@);
        reveal_strlit("    ");
        reveal_strlit(" {");
        reveal_strlit("}");
    }
    let n = match name {
        Signature::Type(n) => n,
        _ => {
            assert(!(sig_view(*name) is Type));
            return None;
        },
    };
    let mut next = ind.clone();
    next.append("    ");
    let mut open = ind.clone();
    open.append(label);
    open.append(n.as_str());
    open.append(" {");
    let ghost open_v = open@;
    assert(open_v =~= ind@ + label@ + n@ + seq![' ', '{']);
    assert(next@ =~= ind@ + indent_unit());
    let mut out: Vec<String> = Vec::new();
    out.push(open);
    assert(fv.subrange(0, 0) =~= Seq::<SigView>::empty());
    assert(out.deep_view() =~= seq![open_v]);
    let mut i: usize = 0;
    while i < fields.len()
        invariant
            i <= fields.len(),
            fv == view_all(fields@),
            fv.len() == fields@.len(),
            forall|k: int| 0 <= k < fields.len() ==> #[trigger] fv[k] == fields@[k]@,
            next@ == ind@ + indent_unit(),
            member_lines(next@, fv.subrange(0, i as int)) is Some,
            open_v == ind@ + label@ + n@ + seq![' ', '{'],
            name@ == SigView::Type(n@),
            out.deep_view() == seq![open_v] + member_lines(next@, fv.subrange(0, i as int))->0,
        decreases fields.len() - i,
    {
        let ghost before = fv.subrange(0, i as int);
        let entry = match entry_lines(&next, &fields[i]) {
            Some(e) => e,
            None => {
                proof {
                    let now = fv.subrange(0, i + 1);
                    assert(now.subrange(0, now.len() - 1) =~= before);
                    lemma_member_lines_fail(next@, fv, i + 1);
                }
                return None;
            },
        };
        push_all(&mut out, &entry);
        i = i + 1;
        proof {
            let now = fv.subrange(0, i as int);
            assert(now.subrange(0, now.len() - 1) =~= before);
            assert(out.deep_view() =~= seq![open_v] + member_lines(next@, now)->0);
        }
    }
    let mut close = ind.clone();
    proof {
        reveal_strlit("}");
    }
    close.append("}");
    assert(close@ =~= ind@ + seq!['}']);
    let ghost close_v = close@;
    let ghost prev = out.deep_view();
    out.push(close);
    assert(out.deep_view() =~= prev.push(close_v));
    assert(fv.subrange(0, fields.len() as int) =~= fv);
    assert(out.deep_view() =~= seq![open_v] + member_lines(next@, fv)->0 + seq![close_v]);
    Some(out)
}

/// Once a prefix of the members fails, every longer prefix fails too.
pub proof fn lemma_member_lines_fail(ind: Seq<char>, fv: Seq<SigView>, j: int)
    requires
        1 <= j <= fv.len(),
        member_lines(ind, fv.subrange(0, j)) is None,
    ensures
        member_lines(ind, fv) is None,
    decreases fv.len() - j,
{
    if j < fv.len() {
        let next = fv.subrange(0, j + 1);
        assert(next.subrange(0, next.len() - 1) =~= fv.subrange(0, j));
        lemma_member_lines_fail(ind, fv, j + 1);
    } else {
        assert(fv.subrange(0, j) =~= fv);
    }
}

fn entry_lines(ind: &String, f: &Signature) -> (r: Option<Vec<String>>)
    ensures
        same_lines(r, member_entry(ind@, f@)),
    decreases f, 0int,
{
    proof {
        reveal_strlit(": ");
    }
    match f {
        Signature::Field { name, value } => match &**name {
            Signature::Type(n) => match &**value {
                Signature::Struct { name: sn, fields: sf } => {
                    let mut label = n.clone();
                    label.append(": ");
                    assert(label@ =~= n@ + seq![':', ' ']);
                    assert(f@ == SigView::Field {
                        name: Box::new(SigView::Type(n@)),
                        value: Box::new(SigView::Struct { name: Box::new(sig_view(**sn)), fields: view_all(sf@) }),
                    });
                    lines_of_struct(label.as_str(), ind, sn, sf)
                },
                _ => {
                    assert(!(sig_view(**value) is Struct));
                    assert(f@ == SigView::Field {
                        name: Box::new(SigView::Type(n@)),
                        value: Box::new(sig_view(**value)),
                    });
                    match render_sig(value) {
                        Some(v) => {
                            let mut line = ind.clone();
                            line.append(n.as_str());
                            line.append(": ");
                            line.append(v.as_str());
                            assert(line@ =~= ind@ + n@ + seq![':', ' '] + v@);
                            let mut out: Vec<String> = Vec::new();
                            out.push(line);
                            assert(out.deep_view() =~= seq![line@]);
                            Some(out)
                        },
                        None => None,
                    }
                },
            },
            _ => {
                assert(!(sig_view(**name) is Type));
                None
            },
        },
        _ => {
            assert(!(sig_view(*f) is Field));
            None
        },
    }
}

impl Signature {
    /// The lines of the aggregate `name` with members `fields`, indented by
    /// `amount` levels of four spaces: an opening line `name {`, the lines of
    /// each member in order one level deeper, and a closing `}`. Fails on a
    /// malformed tree.
    pub fn fmt_struct(name: &Signature, fields: &Vec<Signature>, amount: usize) -> (r: Result<
        Vec<String>,
        RenderError,
    >)
        ensures
            match struct_lines(Seq::empty(), indentation(amount as nat), name@, view_all(fields@)) {
                Some(lines) => r is Ok && r->Ok_0.deep_view() == lines,
                None => r == Err::<Vec<String>, RenderError>(RenderError::MalformedTree),
            },
    {
        let mut ind = String::new();
        let mut i: usize = 0;
        proof {
            reveal_strlit("    ");
            reveal_strlit("");
        }
        while i < amount
            invariant
                i <= amount,
                ind@ == indentation(i as nat),
            decreases amount - i,
        {
            proof {
                reveal_strlit("    ");
            }
            ind.append("    ");
            i = i + 1;
        }
        match lines_of_struct("", &ind, name, fields) {
            Some(v) => Ok(v),
            None => Err(RenderError::MalformedTree),
        }
    }

    /// The canonical text of this signature: a type's name as it is, a
    /// member as `name: value`, an aggregate as its lines joined by newlines.
    /// Fails on a malformed tree.
    pub fn render(&self) -> (r: Result<String, RenderError>)
        ensures
            match render_view(self@) {
                Some(t) => r is Ok && r->Ok_0@ == t,
                None => r == Err::<String, RenderError>(RenderError::MalformedTree),
            },
    {
        match render_sig(self) {
            Some(t) => Ok(t),
            None => Err(RenderError::MalformedTree),
        }
    }
}

} // verus!
