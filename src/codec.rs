use vstd::prelude::*;

use crate::signature::{lemma_view_all, sig_view, view_all, SigView, Signature};

verus! {

// A signature is written as a sequence of 32-bit words. Characters are
// written as their scalar values; the markers lie above every scalar value.
/// Starts a leaf: its name's characters follow, then `END`.
pub const TYPE_TAG: u32 = 0x110000;

/// Starts a member: its name and its value follow.
pub const FIELD_TAG: u32 = 0x110001;

/// Starts an aggregate: its name and its members follow, then `END`.
pub const STRUCT_TAG: u32 = 0x110002;

/// Ends a leaf's name or an aggregate's member list.
pub const END: u32 = 0x110003;

/// The words of a text: one scalar value per character.
pub open spec fn text_words(t: Seq<char>) -> Seq<u32> {
    Seq::new(t.len(), |i: int| t[i] as u32)
}

/// The encoding of a signature.
pub open spec fn encode(v: SigView) -> Seq<u32>
    decreases v, 1int,
{
    match v {
        SigView::Type(t) => seq![TYPE_TAG] + text_words(t) + seq![END],
        SigView::Field { name, value } => seq![FIELD_TAG] + encode(*name) + encode(*value),
        SigView::Struct { name, fields } => seq![STRUCT_TAG] + encode(*name) + encode_all(fields)
            + seq![END],
    }
}

/// The encodings of a member list, one after another.
pub open spec fn encode_all(fs: Seq<SigView>) -> Seq<u32>
    decreases fs, 0int,
{
    if fs.len() == 0 {
        Seq::empty()
    } else {
        encode_all(fs.subrange(0, fs.len() - 1)) + encode(fs[fs.len() - 1])
    }
}

/// `v`'s encoding stands in `w` from position `pos` on.
pub open spec fn encoded_at(w: Seq<u32>, pos: int, v: SigView) -> bool {
    &&& 0 <= pos
    &&& pos + encode(v).len() <= w.len()
    &&& w.subrange(pos, pos + encode(v).len()) == encode(v)
}

/// A character's word is its scalar value, below every marker.
proof fn lemma_char_word(c: char)
    ensures
        (c as u32) as int == c as int,
        (c as u32) < TYPE_TAG,
        (c as u32) <= 0xD7FF || (0xE000 <= (c as u32) && (c as u32) <= 0x10FFFF),
{
    assert(0 <= c as int <= 0x10FFFF);
}

/// An encoding starts with a tag, never with `END`.
proof fn lemma_encode_head(v: SigView)
    ensures
        encode(v).len() >= 2,
        encode(v)[0] == TYPE_TAG || encode(v)[0] == FIELD_TAG || encode(v)[0] == STRUCT_TAG,
        (encode(v)[0] == TYPE_TAG) == (v is Type),
        (encode(v)[0] == FIELD_TAG) == (v is Field),
        (encode(v)[0] == STRUCT_TAG) == (v is Struct),
    decreases v,
{
    match v {
        SigView::Type(t) => {},
        SigView::Field { name, value } => {
            lemma_encode_head(*name);
        },
        SigView::Struct { name, fields } => {
            lemma_encode_head(*name);
        },
    }
}

/// No encoding is a proper prefix of another: where two encodings start
/// at the same place, they are the same signature.
proof fn lemma_prefix_free(a: SigView, b: SigView, ra: Seq<u32>, rb: Seq<u32>)
    requires
        encode(a) + ra == encode(b) + rb,
    ensures
        a == b,
        ra == rb,
    decreases a, 1int,
{
    let wa = encode(a) + ra;
    lemma_encode_head(a);
    lemma_encode_head(b);
    assert(wa[0] == encode(a)[0] && wa[0] == encode(b)[0]);
    match a {
        SigView::Type(ta) => {
            let tb = b->Type_0;
            let n = if ta.len() <= tb.len() { ta.len() } else { tb.len() };
            assert forall|i: int| 0 <= i < n implies ta[i] == tb[i] by {
                assert(wa[1 + i] == ta[i] as u32);
                assert(wa[1 + i] == tb[i] as u32);
                lemma_char_word(ta[i]);
                lemma_char_word(tb[i]);
            }
            if ta.len() < tb.len() {
                assert(wa[1 + ta.len() as int] == END);
                assert(wa[1 + ta.len() as int] == tb[ta.len() as int] as u32);
                lemma_char_word(tb[ta.len() as int]);
            } else if tb.len() < ta.len() {
                assert(wa[1 + tb.len() as int] == END);
                assert(wa[1 + tb.len() as int] == ta[tb.len() as int] as u32);
                lemma_char_word(ta[tb.len() as int]);
            }
            assert(ta =~= tb);
            assert(encode(a) == encode(b));
            assert(ra =~= wa.subrange(encode(a).len() as int, wa.len() as int));
            assert(rb =~= wa.subrange(encode(b).len() as int, wa.len() as int));
        },
        SigView::Field { name: na, value: va } => {
            let nb = *b->Field_name;
            let vb = *b->Field_value;
            assert(wa.subrange(1, wa.len() as int) =~= encode(*na) + (encode(*va) + ra));
            assert(wa.subrange(1, wa.len() as int) =~= encode(nb) + (encode(vb) + rb));
            lemma_prefix_free(*na, nb, encode(*va) + ra, encode(vb) + rb);
            lemma_prefix_free(*va, vb, ra, rb);
        },
        SigView::Struct { name: na, fields: fa } => {
            let nb = *b->Struct_name;
            let fb = b->Struct_fields;
            assert(wa.subrange(1, wa.len() as int) =~= encode(*na) + (encode_all(fa) + seq![END] + ra));
            assert(wa.subrange(1, wa.len() as int) =~= encode(nb) + (encode_all(fb) + seq![END] + rb));
            lemma_prefix_free(*na, nb, encode_all(fa) + seq![END] + ra, encode_all(fb) + seq![END] + rb);
            assert(encode_all(fa) + seq![END] + ra =~= encode_all(fa) + (seq![END] + ra));
            assert(encode_all(fb) + seq![END] + rb =~= encode_all(fb) + (seq![END] + rb));
            lemma_prefix_free_all(fa, fb, seq![END] + ra, seq![END] + rb);
            assert(ra =~= (seq![END] + ra).subrange(1, ra.len() as int + 1));
            assert(rb =~= (seq![END] + rb).subrange(1, rb.len() as int + 1));
        },
    }
}

/// The member lists analogue of `lemma_prefix_free`, where each list is
/// followed by `END`.
proof fn lemma_prefix_free_all(fa: Seq<SigView>, fb: Seq<SigView>, ra: Seq<u32>, rb: Seq<u32>)
    requires
        encode_all(fa) + ra == encode_all(fb) + rb,
        ra.len() > 0 && ra[0] == END,
        rb.len() > 0 && rb[0] == END,
    ensures
        fa == fb,
        ra == rb,
    decreases fa, 0int,
{
    lemma_encode_all_split(fa);
    lemma_encode_all_split(fb);
    if fa.len() == 0 || fb.len() == 0 {
        if fa.len() > 0 {
            lemma_encode_head(fa[0]);
            assert((encode_all(fa) + ra)[0] == encode(fa[0])[0]);
        } else if fb.len() > 0 {
            lemma_encode_head(fb[0]);
            assert((encode_all(fb) + rb)[0] == encode(fb[0])[0]);
        } else {
            assert(fa =~= fb);
            assert(ra =~= encode_all(fa) + ra);
            assert(rb =~= encode_all(fb) + rb);
        }
    } else {
        let ta = fa.subrange(1, fa.len() as int);
        let tb = fb.subrange(1, fb.len() as int);
        assert(encode_all(fa) + ra =~= encode(fa[0]) + (encode_all(ta) + ra));
        assert(encode_all(fb) + rb =~= encode(fb[0]) + (encode_all(tb) + rb));
        lemma_prefix_free(fa[0], fb[0], encode_all(ta) + ra, encode_all(tb) + rb);
        lemma_prefix_free_all(ta, tb, ra, rb);
        assert(fa =~= seq![fa[0]] + ta);
        assert(fb =~= seq![fb[0]] + tb);
    }
}

/// A non-empty list's encoding is its head's encoding, then its tail's.
proof fn lemma_encode_all_split(fs: Seq<SigView>)
    ensures
        fs.len() > 0 ==> encode_all(fs) == encode(fs[0]) + encode_all(fs.subrange(1, fs.len() as int)),
        fs.len() == 0 ==> encode_all(fs) == Seq::<u32>::empty(),
    decreases fs.len(),
{
    if fs.len() > 1 {
        let init = fs.subrange(0, fs.len() - 1);
        lemma_encode_all_split(init);
        assert(init.subrange(1, init.len() as int) =~= fs.subrange(1, fs.len() as int).subrange(
            0,
            fs.len() - 2,
        ));
        assert(init[0] == fs[0]);
        let tail = fs.subrange(1, fs.len() as int);
        assert(tail[tail.len() - 1] == fs[fs.len() - 1]);
    } else if fs.len() == 1 {
        assert(fs.subrange(0, 0) =~= Seq::<SigView>::empty());
        assert(fs.subrange(1, 1) =~= Seq::<SigView>::empty());
    }
}

/// Two signatures with the same encoding are the same signature.
pub proof fn lemma_encode_injective(a: SigView, b: SigView)
    requires
        encode(a) == encode(b),
    ensures
        a == b,
{
    assert(encode(a) + Seq::<u32>::empty() =~= encode(b) + Seq::<u32>::empty());
    lemma_prefix_free(a, b, Seq::empty(), Seq::empty());
}

/// Where `a`'s encoding stands at `p` and `b`'s fills `p..q`, they are
/// the same signature and `q` ends `a`'s encoding.
proof fn lemma_same_at(w: Seq<u32>, p: int, a: SigView, q: int, b: SigView)
    requires
        encoded_at(w, p, a),
        p <= q <= w.len(),
        w.subrange(p, q) == encode(b),
    ensures
        a == b,
        q == p + encode(a).len(),
{
    let ea = encode(a);
    let ra = w.subrange(p + ea.len(), w.len() as int);
    let rb = w.subrange(q, w.len() as int);
    assert(ea + ra =~= w.subrange(p, w.len() as int));
    assert(encode(b) + rb =~= w.subrange(p, w.len() as int));
    lemma_prefix_free(a, b, ra, rb);
}

/// A piece of `v`'s encoding that is `x`'s encoding stands in `w` too.
proof fn lemma_encoded_inner(w: Seq<u32>, p: int, v: SigView, off: int, x: SigView)
    requires
        encoded_at(w, p, v),
        0 <= off,
        off + encode(x).len() <= encode(v).len(),
        encode(v).subrange(off, off + encode(x).len()) == encode(x),
    ensures
        encoded_at(w, p + off, x),
{
    assert(w.subrange(p + off, p + off + encode(x).len()) =~= w.subrange(p, p + encode(v).len()).subrange(
        off,
        off + encode(x).len(),
    ));
}

/// The encoding of the first `j` members is a prefix of the encoding of all.
proof fn lemma_encode_all_prefix(fs: Seq<SigView>, j: int)
    requires
        0 <= j <= fs.len(),
    ensures
        encode_all(fs.subrange(0, j)).len() <= encode_all(fs).len(),
        encode_all(fs).subrange(0, encode_all(fs.subrange(0, j)).len() as int) == encode_all(
            fs.subrange(0, j),
        ),
    decreases fs.len() - j,
{
    if j == fs.len() {
        assert(fs.subrange(0, j) =~= fs);
        assert(encode_all(fs).subrange(0, encode_all(fs).len() as int) =~= encode_all(fs));
    } else {
        lemma_encode_all_prefix(fs, j + 1);
        lemma_encode_all_push(fs, j);
        let a = encode_all(fs.subrange(0, j));
        let b = encode_all(fs.subrange(0, j + 1));
        assert(encode_all(fs).subrange(0, a.len() as int) =~= b.subrange(0, a.len() as int));
        assert(b.subrange(0, a.len() as int) =~= a);
    }
}

/// Where the `k`-th member's encoding stands inside its aggregate's.
proof fn lemma_member_at(n: SigView, fs: Seq<SigView>, k: int)
    requires
        0 <= k < fs.len(),
    ensures
        ({
            let v = SigView::Struct { name: Box::new(n), fields: fs };
            let off: int = 1int + encode(n).len() + encode_all(fs.subrange(0, k)).len();
            &&& off + encode(fs[k]).len() <= encode(v).len()
            &&& encode(v).subrange(off, off + encode(fs[k]).len()) == encode(fs[k])
        }),
{
    let v = SigView::Struct { name: Box::new(n), fields: fs };
    lemma_encode_all_prefix(fs, k + 1);
    lemma_encode_all_push(fs, k);
    let a = encode_all(fs.subrange(0, k));
    let b = encode_all(fs.subrange(0, k + 1));
    let e = encode(fs[k]);
    let all = encode_all(fs);
    let off: int = 1int + encode(n).len() + a.len();
    assert(encode(v) == seq![STRUCT_TAG] + encode(n) + all + seq![END]);
    assert(all.subrange(0, b.len() as int) == b);
    assert(b.len() == a.len() + e.len());
    assert(off + e.len() <= encode(v).len());
    let piece = encode(v).subrange(off, off + e.len());
    assert forall|i: int| 0 <= i < e.len() implies #[trigger] piece[i] == e[i] by {
        assert(piece[i] == encode(v)[off + i]);
        assert(encode(v)[off + i] == all[a.len() + i]);
        assert(all[a.len() + i] == b[a.len() + i]);
        assert(b[a.len() + i] == e[i]);
    }
    assert(piece =~= e);
}

/// The words of `encoded_at` one by one.
proof fn lemma_encoded_index(w: Seq<u32>, p: int, v: SigView, j: int)
    requires
        encoded_at(w, p, v),
        0 <= j < encode(v).len(),
    ensures
        w[p + j] == encode(v)[j],
{
    assert(w.subrange(p, p + encode(v).len())[j] == w[p + j]);
}

/// Viewing a list with one more entry views that entry last.
proof fn lemma_view_all_push(fs: Seq<Signature>, x: Signature)
    ensures
        view_all(fs.push(x)) == view_all(fs).push(sig_view(x)),
{
    assert(fs.push(x).subrange(0, fs.len() as int) =~= fs);
}

/// The first `k + 1` members encode as the first `k`, then the `k`-th.
proof fn lemma_encode_all_push(fs: Seq<SigView>, k: int)
    requires
        0 <= k < fs.len(),
    ensures
        encode_all(fs.subrange(0, k + 1)) == encode_all(fs.subrange(0, k)) + encode(fs[k]),
{
    let s = fs.subrange(0, k + 1);
    assert(s.subrange(0, s.len() - 1) =~= fs.subrange(0, k));
}

/// Relies on char::from_u32: the character whose scalar value is `v`, or
/// `None` where `v` is a surrogate or above 0x10FFFF.
#[verifier::external_body]
fn char_from_word(v: u32) -> (r: Option<char>)
    ensures
        r is Some <==> (v <= 0xD7FF || (0xE000 <= v && v <= 0x10FFFF)),
        r is Some ==> r->Some_0 as u32 == v,
{
    char::from_u32(v)
}

/// Relies on String::push: appends one character.
#[verifier::external_body]
fn push_char(s: &mut String, c: char)
    ensures
        final(s)@ == old(s)@.push(c),
{
    s.push(c)
}

fn write_sig(s: &Signature, out: &mut Vec<u32>)
    ensures
        final(out)@ == old(out)@ + encode(s@),
    decreases s, 1int,
{
    match s {
        Signature::Type(t) => {
            assert(s@ == SigView::Type(t@));
            out.push(TYPE_TAG);
            let text = t.as_str();
            let n = text.unicode_len();
            let ghost start = out@;
            let mut i: usize = 0;
            assert(text_words(t@.subrange(0, 0)) =~= Seq::<u32>::empty());
            while i < n
                invariant
                    i <= n,
                    n == t@.len(),
                    text@ == t@,
                    out@ == start + text_words(t@.subrange(0, i as int)),
                decreases n - i,
            {
                let c = text.get_char(i);
                out.push(c as u32);
                i = i + 1;
                assert(text_words(t@.subrange(0, i as int)) =~= text_words(
                    t@.subrange(0, i - 1),
                ).push(c as u32));
            }
            out.push(END);
            assert(t@.subrange(0, n as int) =~= t@);
            assert(out@ =~= old(out)@ + encode(s@));
        },
        Signature::Field { name, value } => {
            assert(s@ == SigView::Field { name: Box::new(sig_view(**name)), value: Box::new(sig_view(**value)) });
            out.push(FIELD_TAG);
            write_sig(name, out);
            write_sig(value, out);
            assert(out@ =~= old(out)@ + encode(s@));
        },
        Signature::Struct { name, fields } => {
            assert(s@ == SigView::Struct { name: Box::new(sig_view(**name)), fields: view_all(fields@) });
            out.push(STRUCT_TAG);
            write_sig(name, out);
            write_all(fields, out);
            out.push(END);
            assert(out@ =~= old(out)@ + encode(s@));
        },
    }
}

fn write_all(fields: &Vec<Signature>, out: &mut Vec<u32>)
    ensures
        final(out)@ == old(out)@ + encode_all(view_all(fields@)),
    decreases fields, 0int,
{
    proof {
        lemma_view_all(fields@);
    }
    let ghost fv = view_all(fields@);
    let mut i: usize = 0;
    assert(fv.subrange(0, 0) =~= Seq::<SigView>::empty());
    assert(out@ =~= old(out)@ + encode_all(fv.subrange(0, 0)));
    while i < fields.len()
        invariant
            i <= fields.len(),
            fv == view_all(fields@),
            fv.len() == fields.len(),
            forall|k: int| 0 <= k < fields.len() ==> #[trigger] fv[k] == sig_view(fields@[k]),
            out@ == old(out)@ + encode_all(fv.subrange(0, i as int)),
        decreases fields.len() - i,
    {
        proof {
            lemma_encode_all_push(fv, i as int);
        }
        write_sig(&fields[i], out);
        i = i + 1;
        assert(out@ =~= old(out)@ + encode_all(fv.subrange(0, i as int)));
    }
    assert(fv.subrange(0, fields.len() as int) =~= fv);
}

fn read_text(w: &Vec<u32>, pos: usize) -> (r: Option<(Signature, usize)>)
    requires
        pos < w.len(),
        w@[pos as int] == TYPE_TAG,
    ensures
        r is Some ==> pos < r->Some_0.1 <= w.len() && w@.subrange(pos as int, r->Some_0.1 as int)
            == encode(r->Some_0.0@),
        (exists|v: SigView| encoded_at(w@, pos as int, v)) ==> r is Some,
{
    let ghost v = choose|v: SigView| encoded_at(w@, pos as int, v);
    let ghost found = exists|v: SigView| encoded_at(w@, pos as int, v);
    proof {
        if found {
            lemma_encode_head(v);
            lemma_encoded_index(w@, pos as int, v, 0);
        }
    }
    let mut text = String::new();
    let mut p: usize = pos + 1;
    assert(text_words(text@) =~= w@.subrange(pos + 1, p as int));
    while p < w.len() && w[p] != END
        invariant
            pos + 1 <= p <= w.len(),
            text_words(text@) == w@.subrange(pos + 1, p as int),
            found == (exists|x: SigView| encoded_at(w@, pos as int, x)),
            found ==> encoded_at(w@, pos as int, v) && v is Type,
            found ==> p - (pos + 1) <= v->Type_0.len(),
        decreases w.len() - p,
    {
        proof {
            if found {
                let t = v->Type_0;
                let j = p - (pos + 1);
                lemma_encoded_index(w@, pos as int, v, j + 1);
                assert(encode(v) == seq![TYPE_TAG] + text_words(t) + seq![END]);
                assert(encode(v)[j + 1] == if j < t.len() { t[j] as u32 } else { END });
                assert(w@[p as int] != END);
                assert(j < t.len());
                lemma_char_word(t[j]);
                assert(w@[p as int] == t[j] as u32);
            }
        }
        let c = match char_from_word(w[p]) {
            Some(c) => c,
            None => return None,
        };
        let ghost before = text@;
        push_char(&mut text, c);
        p = p + 1;
        assert(text_words(text@) =~= text_words(before).push(c as u32));
        assert(text_words(text@) =~= w@.subrange(pos + 1, p as int));
    }
    proof {
        if found {
            let t = v->Type_0;
            lemma_encoded_index(w@, pos as int, v, t.len() as int + 1);
        }
    }
    if p >= w.len() {
        return None;
    }
    let ghost tv = text@;
    let r = Signature::Type(text);
    assert(r@ == SigView::Type(tv));
    assert(w@.subrange(pos as int, p + 1) =~= encode(r@));
    Some((r, p + 1))
}

fn read_sig(w: &Vec<u32>, pos: usize) -> (r: Option<(Signature, usize)>)
    requires
        pos <= w.len(),
    ensures
        r is Some ==> pos < r->Some_0.1 <= w.len() && w@.subrange(pos as int, r->Some_0.1 as int)
            == encode(r->Some_0.0@),
        (exists|v: SigView| encoded_at(w@, pos as int, v)) ==> r is Some,
    decreases w.len() - pos,
{
    let ghost v = choose|v: SigView| encoded_at(w@, pos as int, v);
    let ghost found = exists|v: SigView| encoded_at(w@, pos as int, v);
    proof {
        if found {
            lemma_encode_head(v);
            lemma_encoded_index(w@, pos as int, v, 0);
        }
    }
    if pos >= w.len() {
        return None;
    }
    let tag = w[pos];
    if tag == TYPE_TAG {
        read_text(w, pos)
    } else if tag == FIELD_TAG {
        proof {
            if found {
                let n = *v->Field_name;
                assert(encode(v) == seq![FIELD_TAG] + encode(n) + encode(*v->Field_value));
                assert(encode(v).subrange(1, 1 + encode(n).len() as int) =~= encode(n));
                lemma_encoded_inner(w@, pos as int, v, 1, n);
            }
        }
        let (name, mid) = match read_sig(w, pos + 1) {
            Some(x) => x,
            None => return None,
        };
        proof {
            if found {
                let n = *v->Field_name;
                let val = *v->Field_value;
                lemma_same_at(w@, pos + 1, n, mid as int, name@);
                let off: int = 1int + encode(n).len();
                assert(encode(v).subrange(off, off + encode(val).len()) =~= encode(val));
                lemma_encoded_inner(w@, pos as int, v, off, val);
            }
        }
        let (value, end) = match read_sig(w, mid) {
            Some(x) => x,
            None => return None,
        };
        let ghost nv = name@;
        let ghost vv = value@;
        let r = Signature::Field { name: Box::new(name), value: Box::new(value) };
        assert(r@ == SigView::Field { name: Box::new(nv), value: Box::new(vv) });
        assert(w@.subrange(pos as int, end as int) =~= seq![FIELD_TAG] + w@.subrange(pos + 1, mid as int) + w@.subrange(mid as int, end as int));
        Some((r, end))
    } else if tag == STRUCT_TAG {
        read_struct(w, pos)
    } else {
        None
    }
}

fn read_struct(w: &Vec<u32>, pos: usize) -> (r: Option<(Signature, usize)>)
    requires
        pos < w.len(),
        w@[pos as int] == STRUCT_TAG,
    ensures
        r is Some ==> pos < r->Some_0.1 <= w.len() && w@.subrange(pos as int, r->Some_0.1 as int)
            == encode(r->Some_0.0@),
        (exists|v: SigView| encoded_at(w@, pos as int, v)) ==> r is Some,
    decreases w.len() - pos, 0int,
{
    let ghost v = choose|v: SigView| encoded_at(w@, pos as int, v);
    let ghost found = exists|v: SigView| encoded_at(w@, pos as int, v);
    let ghost n = *v->Struct_name;
    let ghost fs = v->Struct_fields;
    proof {
        if found {
            lemma_encode_head(v);
            lemma_encoded_index(w@, pos as int, v, 0);
            assert(encode(v) == seq![STRUCT_TAG] + encode(n) + encode_all(fs) + seq![END]);
            assert(encode(v).subrange(1, 1 + encode(n).len() as int) =~= encode(n));
            lemma_encoded_inner(w@, pos as int, v, 1, n);
        }
    }
    let (name, mid) = match read_sig(w, pos + 1) {
        Some(x) => x,
        None => return None,
    };
    proof {
        if found {
            lemma_same_at(w@, pos + 1, n, mid as int, name@);
        }
    }
    let mut fields: Vec<Signature> = Vec::new();
    let mut p: usize = mid;
    assert(w@.subrange(mid as int, p as int) =~= encode_all(view_all(fields@)));
    assert(fs.subrange(0, 0) =~= Seq::<SigView>::empty());
    while p < w.len() && w[p] != END
        invariant
            pos < mid <= p <= w.len(),
            w@.subrange(pos + 1, mid as int) == encode(name@),
            w@.subrange(mid as int, p as int) == encode_all(view_all(fields@)),
            found == (exists|x: SigView| encoded_at(w@, pos as int, x)),
            found ==> encoded_at(w@, pos as int, v) && v is Struct && n == *v->Struct_name
                && fs == v->Struct_fields,
            found ==> encode(v) == seq![STRUCT_TAG] + encode(n) + encode_all(fs) + seq![END],
            found ==> mid == pos + 1 + encode(n).len(),
            found ==> fields.len() <= fs.len() && view_all(fields@) == fs.subrange(0, fields.len() as int),
            found ==> p == mid + encode_all(fs.subrange(0, fields.len() as int)).len(),
        decreases w.len() - p,
    {
        let ghost k = fields.len() as int;
        proof {
            if found {
                let off: int = 1int + encode(n).len() + encode_all(fs.subrange(0, k)).len();
                if k == fs.len() {
                    assert(fs.subrange(0, k) =~= fs);
                    lemma_encoded_index(w@, pos as int, v, off);
                } else {
                    lemma_member_at(n, fs, k);
                    lemma_encoded_inner(w@, pos as int, v, off, fs[k]);
                }
            }
        }
        let (f, q) = match read_sig(w, p) {
            Some(x) => x,
            None => return None,
        };
        proof {
            if found {
                lemma_same_at(w@, p as int, fs[k], q as int, f@);
                assert(fs.subrange(0, k + 1) =~= fs.subrange(0, k).push(fs[k]));
            }
            lemma_view_all_push(fields@, f);
            let vf = view_all(fields@);
            lemma_view_all(fields@);
            let pushed = vf.push(sig_view(f));
            assert(pushed.subrange(0, pushed.len() - 1) =~= vf);
            assert(w@.subrange(mid as int, q as int) =~= w@.subrange(mid as int, p as int) + w@.subrange(p as int, q as int));
        }
        fields.push(f);
        p = q;
    }
    proof {
        if found {
            let k = fields.len() as int;
            let off: int = 1int + encode(n).len() + encode_all(fs.subrange(0, k)).len();
            if k < fs.len() {
                lemma_member_at(n, fs, k);
                lemma_encode_head(fs[k]);
                assert(encode(v)[off] == encode(fs[k])[0]);
                lemma_encoded_index(w@, pos as int, v, off);
            } else {
                assert(fs.subrange(0, k) =~= fs);
                lemma_encoded_index(w@, pos as int, v, off);
            }
        }
    }
    if p >= w.len() {
        return None;
    }
    let ghost nv = name@;
    let ghost fv = view_all(fields@);
    let r = Signature::Struct { name: Box::new(name), fields };
    assert(r@ == SigView::Struct { name: Box::new(nv), fields: fv });
    assert(w@.subrange(pos as int, p + 1) =~= seq![STRUCT_TAG] + w@.subrange(pos + 1, mid as int) + w@.subrange(mid as int, p as int) + seq![END]);
    Some((r, p + 1))
}

impl Signature {
    /// This signature written as a sequence of 32-bit words: a marker
    /// before each node, each character as its scalar value, and a marker
    /// after each leaf's name and each aggregate's member list.
    pub fn serialize(&self) -> (r: Vec<u32>)
        ensures
            r@ == encode(self@),
    {
        let mut out: Vec<u32> = Vec::new();
        write_sig(self, &mut out);
        assert(out@ =~= encode(self@));
        out
    }

    /// The signature that `words` encode, or `None` where they encode
    /// none. Reading back what `serialize` wrote gives an equal signature.
    pub fn deserialize(words: &Vec<u32>) -> (r: Option<Signature>)
        ensures
            r is Some ==> encode(r->Some_0@) == words@,
            forall|v: SigView| #[trigger] encode(v) == words@ ==> r is Some && r->Some_0@ == v,
    {
        let ghost found = exists|v: SigView| encoded_at(words@, 0, v);
        proof {
            assert forall|v: SigView| #[trigger] encode(v) == words@ implies encoded_at(words@, 0, v) by {
                assert(words@.subrange(0, words@.len() as int) =~= words@);
            }
        }
        match read_sig(words, 0) {
            Some((s, end)) => {
                if end == words.len() {
                    assert(words@.subrange(0, end as int) =~= words@);
                    proof {
                        assert forall|v: SigView| #[trigger] encode(v) == words@ implies s@ == v by {
                            lemma_encode_injective(s@, v);
                        }
                    }
                    Some(s)
                } else {
                    proof {
                        assert forall|v: SigView| #[trigger] encode(v) == words@ implies false by {
                            assert(encoded_at(words@, 0, v));
                            lemma_same_at(words@, 0, v, end as int, s@);
                        }
                    }
                    None
                }
            },
            None => None,
        }
    }
}

} // verus!
