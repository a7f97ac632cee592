use vstd::prelude::*;

use crate::mapper::{member_field, struct_view};
use crate::render::{
    indent_unit, join_lines, lemma_member_lines_fail, member_entry, member_lines, render_view,
    struct_lines,
};
use crate::signature::SigView;

verus! {

/// Mapping keeps the members in their declared order: a reordering of a
/// member list that is not the list itself gives a different signature.
pub proof fn lemma_reordered_members_differ(
    name: Seq<char>,
    a: Seq<(Seq<char>, SigView)>,
    b: Seq<(Seq<char>, SigView)>,
)
    requires
        a.to_multiset() == b.to_multiset(),
        a != b,
    ensures
        struct_view(name, a) != struct_view(name, b),
{
    if struct_view(name, a) == struct_view(name, b) {
        let fa = Seq::new(a.len(), |i: int| member_field(a[i]));
        let fb = Seq::new(b.len(), |i: int| member_field(b[i]));
        assert(fa == fb);
        assert(a.len() == fa.len() && b.len() == fb.len());
        assert forall|i: int| 0 <= i < a.len() implies a[i] == b[i] by {
            assert(fa[i] == fb[i]);
        }
        assert(a =~= b);
    }
}

/// An aggregate whose member list holds an entry that is not a `Field` (a
/// bare `Type`, say) does not render.
pub proof fn lemma_non_field_member_fails(name: SigView, fields: Seq<SigView>, i: int)
    requires
        0 <= i < fields.len(),
        !(fields[i] is Field),
    ensures
        render_view(SigView::Struct { name: Box::new(name), fields }) is None,
{
    let ind = Seq::<char>::empty() + indent_unit();
    let prefix = fields.subrange(0, i + 1);
    assert(prefix.subrange(0, prefix.len() - 1) == fields.subrange(0, i));
    assert(prefix[prefix.len() - 1] == fields[i]);
    assert(member_entry(ind, fields[i]) is None);
    assert(member_lines(ind, prefix) is None);
    lemma_member_lines_fail(ind, fields, i + 1);
    assert(struct_lines(Seq::empty(), Seq::empty(), name, fields) is None);
}

/// An aggregate without members renders as its opening line and its
/// closing line, with nothing between.
pub proof fn lemma_empty_struct(name: Seq<char>)
    ensures
        render_view(SigView::Struct { name: Box::new(SigView::Type(name)), fields: Seq::empty() })
            == Some(name + seq![' ', '{'] + seq!['\n'] + seq!['}']),
{
    let e = Seq::<char>::empty();
    let ind = e + indent_unit();
    assert(member_lines(ind, Seq::<SigView>::empty()) == Some(Seq::<Seq<char>>::empty()));
    let open = e + e + name + seq![' ', '{'];
    let close = e + seq!['}'];
    let lines = seq![open] + Seq::<Seq<char>>::empty() + seq![close];
    assert(struct_lines(e, e, SigView::Type(name), Seq::empty()) == Some(lines));
    assert(lines.subrange(0, 1) =~= seq![open]);
    assert(join_lines(lines.subrange(0, 1)) == open);
    assert(open =~= name + seq![' ', '{']);
    assert(close =~= seq!['}']);
    assert(join_lines(lines) =~= name + seq![' ', '{'] + seq!['\n'] + seq!['}']);
}

/// Whether a member list holds, directly or inside an aggregate that is a
/// member's value, an entry that is not a `Field`.
pub open spec fn holds_stray_entry(fields: Seq<SigView>) -> bool
    decreases fields, 1int,
{
    fields.len() > 0 && (holds_stray_entry(fields.subrange(0, fields.len() - 1)) || stray_entry(
        fields[fields.len() - 1],
    ))
}

/// Whether a member is not a `Field`, or is one whose value is an aggregate
/// that `holds_stray_entry`.
pub open spec fn stray_entry(f: SigView) -> bool
    decreases f, 0int,
{
    match f {
        SigView::Field { name, value } => match *value {
            SigView::Struct { name: sn, fields: sf } => holds_stray_entry(sf),
            _ => false,
        },
        _ => true,
    }
}

proof fn lemma_stray_lines(ind: Seq<char>, fields: Seq<SigView>)
    requires
        holds_stray_entry(fields),
    ensures
        member_lines(ind, fields) is None,
    decreases fields, 1int,
{
    let init = fields.subrange(0, fields.len() - 1);
    if holds_stray_entry(init) {
        lemma_stray_lines(ind, init);
    } else {
        lemma_stray_entry(ind, fields[fields.len() - 1]);
    }
}

proof fn lemma_stray_entry(ind: Seq<char>, f: SigView)
    requires
        stray_entry(f),
    ensures
        member_entry(ind, f) is None,
    decreases f, 0int,
{
    match f {
        SigView::Field { name, value } => match *value {
            SigView::Struct { name: sn, fields: sf } => {
                lemma_stray_lines(ind + indent_unit(), sf);
            },
            _ => {},
        },
        _ => {},
    }
}

/// An aggregate whose members hold an entry that is not a `Field`, at any
/// depth of nested aggregates, yields no lines, whatever its label and
/// indentation; so it does not render either.
pub proof fn lemma_stray_entry_fails(label: Seq<char>, ind: Seq<char>, name: SigView, fields: Seq<SigView>)
    requires
        holds_stray_entry(fields),
    ensures
        struct_lines(label, ind, name, fields) is None,
        render_view(SigView::Struct { name: Box::new(name), fields }) is None,
{
    lemma_stray_lines(ind + indent_unit(), fields);
    let e = Seq::<char>::empty();
    lemma_stray_lines(e + indent_unit(), fields);
    assert(struct_lines(e, e, name, fields) is None);
}

/// The lines of members whose types are all leaves: one per member, in order.
proof fn lemma_flat_lines(ind: Seq<char>, a: Seq<(Seq<char>, SigView)>)
    requires
        forall|i: int| 0 <= i < a.len() ==> (#[trigger] a[i]).1 is Type,
    ensures
        member_lines(ind, Seq::new(a.len(), |i: int| member_field(a[i]))) == Some(
            Seq::new(a.len(), |i: int| ind + a[i].0 + seq![':', ' '] + a[i].1->Type_0),
        ),
    decreases a.len(),
{
    let fs = Seq::new(a.len(), |i: int| member_field(a[i]));
    if a.len() > 0 {
        let init = a.subrange(0, a.len() - 1);
        assert forall|i: int| 0 <= i < init.len() implies (#[trigger] init[i]).1 is Type by {
            assert(init[i] == a[i]);
        }
        lemma_flat_lines(ind, init);
        assert(fs.subrange(0, fs.len() - 1) =~= Seq::new(init.len(), |i: int| member_field(init[i])));
        let last = a[a.len() - 1];
        assert(member_entry(ind, fs[fs.len() - 1]) == Some(
            seq![ind + last.0 + seq![':', ' '] + last.1->Type_0],
        ));
        assert(Seq::new(init.len(), |i: int| ind + init[i].0 + seq![':', ' '] + init[i].1->Type_0)
            + seq![ind + last.0 + seq![':', ' '] + last.1->Type_0] =~= Seq::new(
            a.len(),
            |i: int| ind + a[i].0 + seq![':', ' '] + a[i].1->Type_0,
        ));
    } else {
        assert(Seq::new(0, |i: int| ind + a[i].0 + seq![':', ' '] + a[i].1->Type_0) =~= Seq::<
            Seq<char>,
        >::empty());
    }
}

/// A member line tells its name and its type apart where the name holds
/// no colon.
proof fn lemma_member_line_injective(
    ind: Seq<char>,
    n1: Seq<char>,
    v1: Seq<char>,
    n2: Seq<char>,
    v2: Seq<char>,
)
    requires
        ind + n1 + seq![':', ' '] + v1 == ind + n2 + seq![':', ' '] + v2,
        !n1.contains(':'),
        !n2.contains(':'),
    ensures
        n1 == n2,
        v1 == v2,
{
    let l = ind + n1 + seq![':', ' '] + v1;
    let m = ind + n2 + seq![':', ' '] + v2;
    if n1.len() < n2.len() {
        assert(l[ind.len() + n1.len() as int] == ':');
        assert(m[ind.len() + n1.len() as int] == n2[n1.len() as int]);
        assert(n2.contains(':'));
    } else if n2.len() < n1.len() {
        assert(m[ind.len() + n2.len() as int] == ':');
        assert(l[ind.len() + n2.len() as int] == n1[n2.len() as int]);
        assert(n1.contains(':'));
    }
    assert forall|i: int| 0 <= i < n1.len() implies n1[i] == n2[i] by {
        assert(l[ind.len() + i] == m[ind.len() + i]);
    }
    assert(n1 =~= n2);
    let off: int = ind.len() as int + n1.len() + 2;
    assert(l.len() == m.len());
    assert(v1.len() == v2.len());
    assert forall|i: int| 0 <= i < v1.len() implies v1[i] == v2[i] by {
        assert(l[off + i] == m[off + i]);
        assert(l[off + i] == v1[i]);
        assert(m[off + i] == v2[i]);
    }
    assert(v1 =~= v2);
}

/// Reordering changes the lines of a flat aggregate: where every member's
/// type is a leaf and no member name holds a colon, a reordering of the
/// members that is not the list itself gives other lines, whatever the
/// label and indentation.
pub proof fn lemma_reordered_members_render_differently(
    label: Seq<char>,
    ind: Seq<char>,
    name: Seq<char>,
    a: Seq<(Seq<char>, SigView)>,
    b: Seq<(Seq<char>, SigView)>,
)
    requires
        a.to_multiset() == b.to_multiset(),
        a != b,
        forall|i: int| 0 <= i < a.len() ==> (#[trigger] a[i]).1 is Type && !a[i].0.contains(':'),
        forall|i: int| 0 <= i < b.len() ==> (#[trigger] b[i]).1 is Type && !b[i].0.contains(':'),
    ensures
        struct_lines(label, ind, SigView::Type(name), struct_view(name, a)->Struct_fields)
            != struct_lines(label, ind, SigView::Type(name), struct_view(name, b)->Struct_fields),
{
    let inner = ind + indent_unit();
    lemma_flat_lines(inner, a);
    lemma_flat_lines(inner, b);
    a.to_multiset_ensures();
    b.to_multiset_ensures();
    let la = Seq::new(a.len(), |i: int| inner + a[i].0 + seq![':', ' '] + a[i].1->Type_0);
    let lb = Seq::new(b.len(), |i: int| inner + b[i].0 + seq![':', ' '] + b[i].1->Type_0);
    let head = ind + label + name + seq![' ', '{'];
    let tail = ind + seq!['}'];
    let ra = seq![head] + la + seq![tail];
    let rb = seq![head] + lb + seq![tail];
    if ra == rb {
        assert(a.len() == b.len());
        assert forall|i: int| 0 <= i < a.len() implies a[i] == b[i] by {
            assert(ra[1 + i] == la[i]);
            assert(rb[1 + i] == lb[i]);
            lemma_member_line_injective(inner, a[i].0, a[i].1->Type_0, b[i].0, b[i].1->Type_0);
        }
        assert(a =~= b);
    }
}

/// Whether an aggregate's lines can be made does not depend on the label
/// before its name nor on its indentation.
proof fn lemma_struct_lines_some(
    l1: Seq<char>,
    i1: Seq<char>,
    l2: Seq<char>,
    i2: Seq<char>,
    name: SigView,
    fields: Seq<SigView>,
)
    ensures
        (struct_lines(l1, i1, name, fields) is Some) == (struct_lines(l2, i2, name, fields) is Some),
    decreases fields, 2int,
{
    lemma_member_lines_some(i1 + indent_unit(), i2 + indent_unit(), fields);
}

proof fn lemma_member_lines_some(i1: Seq<char>, i2: Seq<char>, fields: Seq<SigView>)
    ensures
        (member_lines(i1, fields) is Some) == (member_lines(i2, fields) is Some),
    decreases fields, 1int,
{
    if fields.len() > 0 {
        lemma_member_lines_some(i1, i2, fields.subrange(0, fields.len() - 1));
        lemma_member_entry_some(i1, i2, fields[fields.len() - 1]);
    }
}

proof fn lemma_member_entry_some(i1: Seq<char>, i2: Seq<char>, f: SigView)
    ensures
        (member_entry(i1, f) is Some) == (member_entry(i2, f) is Some),
    decreases f, 0int,
{
    match f {
        SigView::Field { name, value } => match *name {
            SigView::Type(n) => match *value {
                SigView::Struct { name: sn, fields: sf } => {
                    lemma_struct_lines_some(n + seq![':', ' '], i1, n + seq![':', ' '], i2, *sn, sf);
                },
                _ => {},
            },
            _ => {},
        },
        _ => {},
    }
}

/// Member lines exist where every member's lines exist.
proof fn lemma_member_lines_all(ind: Seq<char>, fs: Seq<SigView>)
    requires
        forall|i: int| 0 <= i < fs.len() ==> #[trigger] member_entry(ind, fs[i]) is Some,
    ensures
        member_lines(ind, fs) is Some,
    decreases fs.len(),
{
    if fs.len() > 0 {
        let init = fs.subrange(0, fs.len() - 1);
        assert forall|i: int| 0 <= i < init.len() implies #[trigger] member_entry(ind, init[i]) is Some by {
            assert(init[i] == fs[i]);
        }
        lemma_member_lines_all(ind, init);
        assert(member_entry(ind, fs[fs.len() - 1]) is Some);
    }
}

/// The mapping never builds a malformed tree: an aggregate whose members'
/// type signatures all render renders too.
pub proof fn lemma_structure_renders(name: Seq<char>, members: Seq<(Seq<char>, SigView)>)
    requires
        forall|i: int| 0 <= i < members.len() ==> #[trigger] render_view(members[i].1) is Some,
    ensures
        render_view(struct_view(name, members)) is Some,
{
    let fs = Seq::new(members.len(), |i: int| member_field(members[i]));
    let e = Seq::<char>::empty();
    let ind = e + indent_unit();
    assert forall|i: int| 0 <= i < fs.len() implies #[trigger] member_entry(ind, fs[i]) is Some by {
        let m = members[i];
        assert(render_view(m.1) is Some);
        match m.1 {
            SigView::Struct { name: sn, fields: sf } => {
                lemma_struct_lines_some(e, e, m.0 + seq![':', ' '], ind, *sn, sf);
            },
            _ => {},
        }
    }
    lemma_member_lines_all(ind, fs);
    assert(struct_lines(e, e, SigView::Type(name), fs) is Some);
}

} // verus!
